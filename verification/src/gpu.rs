//! What surrounds a nearest-neighbor kernel on a GPU: which requests it is given, what its
//! return codes mean, and what becomes of the keys it returns.

use vstd::prelude::*;
use crate::arith::Arithmetic;
use crate::distance::{natural, natural_of, padding, padding_of};
use crate::metric::Metric;

verus! {

/// Why the kernel did not answer.
#[derive(Clone, Copy, Debug, PartialEq, Eq, Structural)]
pub enum KernelError {
    /// It does not take this `k`.
    InvalidK,
    /// This `k` needs more shared memory than there is for vectors of this length.
    SharedMemory,
    /// It failed with a code of its own.
    Failed(i32),
}

/// What is wrong with the buffers of a request.
#[derive(Clone, Copy, Debug, PartialEq, Eq, Structural)]
pub enum BufferError {
    /// The queries are not a multiple of the vectors' length.
    QueryLength,
    /// The outputs have no room for the results.
    OutputsTooSmall,
}

/// What a return code of the kernel means.
pub open spec fn meaning(code: i32) -> Result<(), KernelError> {
    if code == 0 {
        Ok(())
    } else if code == -1 {
        Err(KernelError::InvalidK)
    } else if code == -2 {
        Err(KernelError::SharedMemory)
    } else {
        Err(KernelError::Failed(code))
    }
}

/// What a return code of the kernel means.
pub fn outcome(code: i32) -> (r: Result<(), KernelError>)
    ensures
        r == meaning(code),
{
    if code == 0 {
        Ok(())
    } else if code == -1 {
        Err(KernelError::InvalidK)
    } else if code == -2 {
        Err(KernelError::SharedMemory)
    } else {
        Err(KernelError::Failed(code))
    }
}

/// How many queries there are, if there are whole ones and the outputs have room for `k`
/// results of each.
pub fn count_queries(queries: usize, dim: usize, k: usize, ids: usize, dists: usize) -> (r: Result<
    usize,
    BufferError,
>)
    requires
        dim > 0,
    ensures
        queries % dim != 0 ==> r == Err::<usize, BufferError>(BufferError::QueryLength),
        queries % dim == 0 ==> {
            let n = queries as int / dim as int;
            r == if n * k <= ids && n * k <= dists {
                Ok::<usize, BufferError>(n as usize)
            } else {
                Err::<usize, BufferError>(BufferError::OutputsTooSmall)
            }
        },
{
    if queries % dim != 0 {
        return Err(BufferError::QueryLength);
    }
    let n: usize = queries / dim;
    assert(0 <= n * k <= u64::MAX * u64::MAX) by (nonlinear_arith)
        requires
            0 <= n <= u64::MAX,
            0 <= k <= u64::MAX,
    ;
    let need: u128 = n as u128 * k as u128;
    if need <= ids as u128 && need <= dists as u128 {
        Ok(n)
    } else {
        Err(BufferError::OutputsTooSmall)
    }
}

/// What is reported for a key that the kernel returned with an id.
pub open spec fn reported(metric: Metric, id: i64, key: u32) -> u32 {
    if id < 0 {
        padding_of(metric)
    } else {
        natural_of(metric, key)
    }
}

/// Turns the first `count` keys into distances or similarities; places without a result are
/// padded.
pub fn finish<A: Arithmetic>(metric: Metric, ids: &[i64], dists: &mut [u32], count: usize)
    requires
        count <= ids@.len(),
        count <= old(dists)@.len(),
    ensures
        final(dists)@.len() == old(dists)@.len(),
        forall|i: int|
            0 <= i < count ==> #[trigger] final(dists)@[i] == reported(
                metric,
                ids@[i],
                old(dists)@[i],
            ),
        forall|i: int|
            count <= i < old(dists)@.len() ==> #[trigger] final(dists)@[i] == old(dists)@[i],
{
    let ghost before = dists@;
    let mut i: usize = 0;
    while i < count
        invariant
            i <= count,
            count <= ids@.len(),
            count <= before.len(),
            dists@.len() == before.len(),
            forall|j: int|
                0 <= j < i ==> #[trigger] dists@[j] == reported(metric, ids@[j], before[j]),
            forall|j: int| i <= j < before.len() ==> #[trigger] dists@[j] == before[j],
        decreases count - i,
    {
        let key: u32 = dists[i];
        dists[i] = if ids[i] < 0 {
            padding(metric)
        } else {
            natural::<A>(metric, key)
        };
        i += 1;
    }
}

} // verus!
