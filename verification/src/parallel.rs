//! Work spread over threads.

use rayon::prelude::{IndexedParallelIterator, IntoParallelIterator, ParallelIterator};
use vstd::prelude::*;

verus! {

/// A pool of worker threads.
#[verifier::external_type_specification]
#[verifier::external_body]
pub struct ExThreadPool(rayon::ThreadPool);

/// Why no pool could be had.
#[verifier::external_type_specification]
#[verifier::external_body]
pub struct ExThreadPoolBuildError(rayon::ThreadPoolBuildError);

/// The worker threads that were asked for could not be had.
#[derive(Clone, Copy, Debug, PartialEq, Eq, Structural)]
pub struct PoolUnavailable;

/// Calls `f` on each of `0..n`, on the threads of the current pool.
///
/// Trusted: `rayon`'s `into_par_iter` on a range, with `map` and `collect` into a vector,
/// calls `f` once for each number of the range and puts what it returned at the place of
/// that number. In which order, and on which threads, is left open. By `with_max_len` the range is
/// handed out in small pieces, so that no thread is left with much of it when the others are done.
#[verifier::external_body]
pub(crate) fn par_map<T: Send, F: Fn(usize) -> T + Sync + Send>(n: usize, f: F) -> (r: Vec<T>)
    requires
        forall|i: usize| i < n ==> #[trigger] call_requires(f, (i,)),
    ensures
        r@.len() == n,
        forall|i: usize| i < n ==> call_ensures(f, (i,), #[trigger] r@[i as int]),
{
    (0..n).into_par_iter().with_max_len(32).map(f).collect()
}

/// A pool of `threads` threads.
///
/// Trusted: `rayon::ThreadPoolBuilder::build`. Whether the threads can be had is up to the
/// system, so nothing is claimed of the result.
#[verifier::external_body]
fn build_pool(threads: usize) -> (r: Result<rayon::ThreadPool, rayon::ThreadPoolBuildError>) {
    rayon::ThreadPoolBuilder::new().num_threads(threads).build()
}

/// Calls `f` on a thread of `pool`.
///
/// Trusted: `rayon::ThreadPool::install` calls its argument once and hands back what that
/// returned.
#[verifier::external_body]
fn install<R: Send, F: FnOnce() -> R + Send>(pool: &rayon::ThreadPool, f: F) -> (r: R)
    requires
        call_requires(f, ()),
    ensures
        call_ensures(f, (), r),
{
    pool.install(f)
}

/// Calls `f` on each of `0..n`: on the shared threads for `num_threads == 0`, and else on
/// as many threads of its own.
pub(crate) fn run<T: Send, F: Fn(usize) -> T + Sync + Send>(
    num_threads: usize,
    n: usize,
    f: F,
) -> (r: Result<Vec<T>, PoolUnavailable>)
    requires
        forall|i: usize| i < n ==> #[trigger] call_requires(f, (i,)),
    ensures
        num_threads == 0 ==> r is Ok,
        r matches Ok(v) ==> v@.len() == n && forall|i: usize|
            i < n ==> call_ensures(f, (i,), #[trigger] v@[i as int]),
{
    if num_threads == 0 {
        return Ok(par_map(n, f));
    }
    match build_pool(num_threads) {
        Ok(pool) => {
            let g = || -> (v: Vec<T>)
                requires
                    forall|i: usize| i < n ==> #[trigger] call_requires(f, (i,)),
                ensures
                    v@.len() == n,
                    forall|i: usize| i < n ==> call_ensures(f, (i,), #[trigger] v@[i as int]),
                { par_map(n, &f) };
            Ok(install(&pool, g))
        },
        Err(_) => Err(PoolUnavailable),
    }
}

} // verus!
