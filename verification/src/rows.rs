//! Vectors stored one after the other, and masks over them.

use vstd::prelude::*;
use crate::binary32::{all_finite, finite};

verus! {

/// How many numbers the memory of one vector can hold.
pub open spec fn capacity() -> int {
    isize::MAX as int / 4
}

/// Vector `i` of vectors of length `dim`.
pub open spec fn row(data: Seq<u32>, dim: int, i: int) -> Seq<u32> {
    data.subrange(i * dim, i * dim + dim)
}

/// Which ids pass a filter; without one all do.
pub open spec fn passes(filter: Option<Seq<bool>>) -> spec_fn(int) -> bool {
    |i: int| filter matches Some(f) ==> f[i]
}

/// What a filter says.
pub open spec fn mask(filter: Option<&[bool]>) -> Option<Seq<bool>> {
    match filter {
        Some(f) => Some(f@),
        None => None,
    }
}

/// A filter, if there is one, has an entry for each of `n` ids.
pub open spec fn covers(filter: Option<Seq<bool>>, n: int) -> bool {
    filter matches Some(f) ==> f.len() == n
}

/// A row lies within its rows.
pub proof fn row_fits(i: int, n: int, dim: int)
    requires
        0 <= i < n,
        dim >= 0,
    ensures
        0 <= i * dim,
        i * dim + dim <= n * dim,
        (i + 1) * dim == i * dim + dim,
{
    assert(0 <= i * dim) by (nonlinear_arith)
        requires
            0 <= i,
            0 <= dim,
    ;
    assert(i * dim + dim <= n * dim) by (nonlinear_arith)
        requires
            i + 1 <= n,
            0 <= dim,
    ;
    assert((i + 1) * dim == i * dim + dim) by (nonlinear_arith);
}

/// A row of finite numbers is finite.
pub proof fn row_is_finite(data: Seq<u32>, dim: int, n: int, i: int)
    requires
        dim > 0,
        0 <= i < n,
        n * dim <= data.len(),
        all_finite(data),
    ensures
        all_finite(row(data, dim, i)),
        row(data, dim, i).len() == dim,
{
    row_fits(i, n, dim);
    let r = row(data, dim, i);
    assert forall|j: int| 0 <= j < r.len() implies finite(#[trigger] r[j]) by {
        assert(r[j] == data[i * dim + j]);
    }
}

/// How many rows there are in a multiple of `dim`.
pub proof fn row_count(len: int, dim: int)
    requires
        dim > 0,
        0 <= len,
        len % dim == 0,
    ensures
        (len / dim) * dim == len,
        0 <= len / dim <= len,
{
    vstd::arithmetic::div_mod::lemma_fundamental_div_mod(len, dim);
    assert((len / dim) * dim == dim * (len / dim)) by (nonlinear_arith);
    assert(0 <= len / dim <= len) by (nonlinear_arith)
        requires
            dim > 0,
            len >= 0,
            dim * (len / dim) == len,
    ;
}

/// `n` rows make `n` rows.
pub proof fn rows_counted(n: int, dim: int)
    requires
        dim > 0,
        0 <= n,
    ensures
        (n * dim) / dim == n,
        (n * dim) % dim == 0,
        n <= n * dim,
{
    vstd::arithmetic::div_mod::lemma_div_multiples_vanish(n, dim);
    vstd::arithmetic::div_mod::lemma_mod_multiples_basic(n, dim);
    assert(n * dim == dim * n) by (nonlinear_arith);
    assert(n <= n * dim) by (nonlinear_arith)
        requires
            n >= 0,
            dim >= 1,
    ;
}

/// Appending rows keeps the old ones and puts the new ones behind them.
pub proof fn row_of_appended(data: Seq<u32>, more: Seq<u32>, dim: int, n: int, i: int)
    requires
        dim > 0,
        data.len() == n * dim,
        more.len() % dim as nat == 0,
        0 <= i < n + more.len() as int / dim,
    ensures
        row(data + more, dim, i) == if i < n {
            row(data, dim, i)
        } else {
            row(more, dim, i - n)
        },
{
    row_count(more.len() as int, dim);
    if i < n {
        row_fits(i, n, dim);
        assert(row(data + more, dim, i) =~= row(data, dim, i));
    } else {
        row_fits(i - n, more.len() as int / dim, dim);
        assert(i * dim == n * dim + (i - n) * dim) by (nonlinear_arith);
        assert(row(data + more, dim, i) =~= row(more, dim, i - n));
    }
}

/// Vector `i` of vectors of length `dim`.
#[inline]
pub fn row_at(data: &[u32], dim: usize, i: usize) -> (r: &[u32])
    requires
        i * dim + dim <= data@.len(),
    ensures
        r@ == row(data@, dim as int, i as int),
        r@.len() == dim,
{
    let n: usize = data.len();
    assert(0 <= i * dim) by (nonlinear_arith);
    let from: usize = i * dim;
    &data[from..from + dim]
}

/// Whether an id passes.
#[inline]
pub fn is_passing(filter: Option<&[bool]>, i: usize) -> (r: bool)
    requires
        mask(filter) matches Some(f) ==> i < f.len(),
    ensures
        r == passes(mask(filter))(i as int),
{
    match filter {
        Some(f) => f[i],
        None => true,
    }
}

/// How many chunks of length `k` a sequence of length `len` falls into.
pub open spec fn chunks(len: int, k: int) -> int {
    len / k + if len % k == 0 {
        0int
    } else {
        1
    }
}

/// How many rows of `k` results there are in two outputs.
pub open spec fn output_rows(ids: int, dists: int, k: int) -> int {
    if chunks(ids, k) < chunks(dists, k) {
        chunks(ids, k)
    } else {
        chunks(dists, k)
    }
}

/// How many rows of `k` results there are in two outputs.
pub fn count_output_rows(ids: usize, dists: usize, k: usize) -> (r: usize)
    requires
        k > 0,
    ensures
        r == output_rows(ids as int, dists as int, k as int),
{
    proof {
        chunks_bounded(ids as int, k as int);
        chunks_bounded(dists as int, k as int);
    }
    let a: usize = ids / k + if ids % k == 0 {
        0
    } else {
        1
    };
    let b: usize = dists / k + if dists % k == 0 {
        0
    } else {
        1
    };
    if a < b {
        a
    } else {
        b
    }
}

proof fn chunks_bounded(len: int, k: int)
    requires
        k > 0,
        len >= 0,
    ensures
        0 <= chunks(len, k) <= len,
{
    vstd::arithmetic::div_mod::lemma_fundamental_div_mod(len, k);
    vstd::arithmetic::div_mod::lemma_mod_bound(len, k);
    let q = len / k;
    let r = len % k;
    assert(0 <= q <= len) by (nonlinear_arith)
        requires
            len == k * q + r,
            0 <= r < k,
            len >= 0,
    ;
    assert(r > 0 ==> q + 1 <= len) by (nonlinear_arith)
        requires
            len == k * q + r,
            0 <= r,
            k >= 1,
            q >= 0,
    ;
}

/// Outputs are filled to the end of the shorter: the rows of `k` results reach its end, and no row
/// fewer would.
pub proof fn output_rows_are_enough(ids: int, dists: int, k: int)
    requires
        ids >= 0,
        dists >= 0,
        k > 0,
    ensures
        ({
            let rows = output_rows(ids, dists, k);
            let len = if ids < dists {
                ids
            } else {
                dists
            };
            &&& rows >= 0
            &&& (rows - 1) * k < len <= rows * k || rows == 0 && len == 0
        }),
{
    chunks_are_enough(ids, k);
    chunks_are_enough(dists, k);
    let (a, b) = (chunks(ids, k), chunks(dists, k));
    if ids < dists {
        if b < a {
            assert(b * k <= (a - 1) * k) by (nonlinear_arith)
                requires
                    b <= a - 1,
                    k > 0,
            ;
        }
    } else if a < b {
        assert(a * k <= (b - 1) * k) by (nonlinear_arith)
            requires
                a <= b - 1,
                k > 0,
        ;
    }
}

proof fn chunks_are_enough(len: int, k: int)
    requires
        len >= 0,
        k > 0,
    ensures
        chunks(len, k) >= 0,
        (chunks(len, k) - 1) * k < len <= chunks(len, k) * k || chunks(len, k) == 0 && len == 0,
{
    chunks_bounded(len, k);
    vstd::arithmetic::div_mod::lemma_fundamental_div_mod(len, k);
    vstd::arithmetic::div_mod::lemma_mod_bound(len, k);
    let q = len / k;
    assert((q - 1) * k == k * q - k && (q + 1) * k == k * q + k && q * k == k * q)
        by (nonlinear_arith);
}

} // verus!
