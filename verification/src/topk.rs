//! The best `k` of a scan.

use vstd::prelude::*;
use crate::arith::Arithmetic;
use crate::binary32::{to_total_place, total_place};
use crate::distance::{natural, natural_of, padding, padding_of};
use crate::heap::MaxHeap;
use crate::metric::Metric;
use crate::ranked::{
    ascending, first, first_of_inserted, id_in, inserted, inserted_contains,
    inserted_is_ascending, inserted_is_distinct, key_in, rank, rank_is_exact, rank_order, to_id,
    to_key, to_rank,
};

verus! {

/// Key `a` comes before key `b` in the total order, and displaces it.
pub open spec fn displaces(a: u32, b: u32) -> bool {
    total_place(a) < total_place(b)
}

/// The best `k` after one more candidate: it joins while there is room, and else displaces
/// the worst one if its key does.
pub open spec fn offered(best: Seq<u128>, k: int, key: u32, id: u64) -> Seq<u128> {
    if best.len() < k {
        inserted(best, rank(key, id))
    } else if displaces(key, key_in(best.last())) {
        inserted(best.drop_last(), rank(key, id))
    } else {
        best
    }
}

/// The best `k` of those of the first `n` candidates that pass, best first.
pub open spec fn best_of(
    keys: spec_fn(int) -> u32,
    passes: spec_fn(int) -> bool,
    n: int,
    k: int,
) -> Seq<u128>
    decreases n,
{
    if n <= 0 {
        Seq::empty()
    } else {
        let before = best_of(keys, passes, n - 1, k);
        if passes(n - 1) {
            offered(before, k, keys(n - 1), (n - 1) as u64)
        } else {
            before
        }
    }
}

/// How many of the first `n` candidates pass.
pub open spec fn passing(passes: spec_fn(int) -> bool, n: int) -> int
    decreases n,
{
    if n <= 0 {
        0
    } else {
        passing(passes, n - 1) + if passes(n - 1) {
            1int
        } else {
            0
        }
    }
}

/// `c` is the candidate of one of the first `n` ids that pass.
pub open spec fn is_candidate(
    keys: spec_fn(int) -> u32,
    passes: spec_fn(int) -> bool,
    n: int,
    c: u128,
) -> bool {
    exists|i: int| 0 <= i < n && passes(i) && c == #[trigger] rank(keys(i), i as u64)
}

/// The best `k`: they are in order, there are `k` of them or all that pass, each is the
/// candidate of an id that passes, and no id appears twice.
pub proof fn best_are_candidates(
    keys: spec_fn(int) -> u32,
    passes: spec_fn(int) -> bool,
    n: int,
    k: int,
)
    requires
        k > 0,
        0 <= n <= u64::MAX,
    ensures
        ascending(best_of(keys, passes, n, k)),
        best_of(keys, passes, n, k).len() == if passing(passes, n) < k {
            passing(passes, n)
        } else {
            k
        },
        forall|c: u128| #[trigger]
            best_of(keys, passes, n, k).contains(c) ==> is_candidate(keys, passes, n, c),
        best_of(keys, passes, n, k).no_duplicates(),
        passing(passes, n) >= 0,
    decreases n,
{
    if n > 0 {
        best_are_candidates(keys, passes, n - 1, k);
        let before = best_of(keys, passes, n - 1, k);
        let after = best_of(keys, passes, n, k);
        assert forall|c: u128| is_candidate(keys, passes, n - 1, c) implies is_candidate(
            keys,
            passes,
            n,
            c,
        ) by {
            let i = choose|i: int|
                0 <= i < n - 1 && passes(i) && c == #[trigger] rank(keys(i), i as u64);
            assert(c == rank(keys(i), i as u64));
        }
        if passes(n - 1) {
            let x = rank(keys(n - 1), (n - 1) as u64);
            assert(is_candidate(keys, passes, n, x));
            rank_is_exact(keys(n - 1), (n - 1) as u64);
            // the new candidate is none of the old ones
            assert(!before.contains(x)) by {
                if before.contains(x) {
                    let i = choose|i: int|
                        0 <= i < n - 1 && passes(i) && x == #[trigger] rank(keys(i), i as u64);
                    rank_is_exact(keys(i), i as u64);
                }
            }
            let base = if before.len() < k {
                before
            } else {
                before.drop_last()
            };
            assert forall|c: u128| base.contains(c) implies before.contains(c) by {
                let i = choose|i: int| 0 <= i < base.len() && base[i] == c;
                assert(before[i] == c);
            }
            inserted_is_ascending(base, x);
            assert forall|c: u128| #[trigger] inserted(base, x).contains(c) implies is_candidate(
                keys,
                passes,
                n,
                c,
            ) by {
                inserted_contains(base, x, c);
            }
            inserted_is_distinct(base, x);
        }
    }
}

/// The best `k` are the best: none that was left out displaces one that was taken.
pub proof fn best_are_best(
    keys: spec_fn(int) -> u32,
    passes: spec_fn(int) -> bool,
    n: int,
    k: int,
    i: int,
    c: u128,
)
    requires
        k > 0,
        0 <= i < n <= u64::MAX,
        passes(i),
        !best_of(keys, passes, n, k).contains(rank(keys(i), i as u64)),
        best_of(keys, passes, n, k).contains(c),
    ensures
        !displaces(keys(i), key_in(c)),
    decreases n,
{
    let before = best_of(keys, passes, n - 1, k);
    let after = best_of(keys, passes, n, k);
    best_are_candidates(keys, passes, n - 1, k);
    best_are_candidates(keys, passes, n, k);
    let y = rank(keys(i), i as u64);
    rank_is_exact(keys(i), i as u64);
    assert(is_candidate(keys, passes, n, c));
    let jc = choose|j: int| 0 <= j < n && passes(j) && c == #[trigger] rank(keys(j), j as u64);
    rank_is_exact(keys(jc), jc as u64);
    if !passes(n - 1) {
        best_are_best(keys, passes, n - 1, k, i, c);
    } else {
        let x = rank(keys(n - 1), (n - 1) as u64);
        rank_is_exact(keys(n - 1), (n - 1) as u64);
        if before.len() < k {
            inserted_contains(before, x, y);
            inserted_contains(before, x, c);
            if c == x {
                // nothing is left out while there is room
                nothing_left_out(keys, passes, n - 1, k, i);
            } else {
                best_are_best(keys, passes, n - 1, k, i, c);
            }
        } else {
            let w = before.last();
            assert(before[before.len() - 1] == w);
            assert(before.contains(w));
            assert(is_candidate(keys, passes, n - 1, w));
            let jw = choose|j: int|
                0 <= j < n - 1 && passes(j) && w == #[trigger] rank(keys(j), j as u64);
            rank_is_exact(keys(jw), jw as u64);
            rank_order(keys(jc), jc as u64, keys(jw), jw as u64);
            if displaces(keys(n - 1), key_in(w)) {
                let base = before.drop_last();
                inserted_contains(base, x, y);
                inserted_contains(base, x, c);
                if c != x {
                    let q = choose|q: int| 0 <= q < base.len() && base[q] == c;
                    assert(before[q] == c);
                    assert(before.contains(c));
                    assert(c <= w);
                }
                if before.contains(y) {
                    // the one that was displaced
                    let q = choose|q: int| 0 <= q < before.len() && before[q] == y;
                    if q < base.len() {
                        assert(base[q] == y);
                    }
                    assert(y == w);
                } else {
                    best_are_best(keys, passes, n - 1, k, i, w);
                }
            } else {
                if i == n - 1 {
                    let q = choose|q: int| 0 <= q < before.len() && before[q] == c;
                    assert(c <= w);
                } else {
                    best_are_best(keys, passes, n - 1, k, i, c);
                }
            }
        }
    }
}

/// While there is room, every candidate that passes is taken.
proof fn nothing_left_out(
    keys: spec_fn(int) -> u32,
    passes: spec_fn(int) -> bool,
    n: int,
    k: int,
    i: int,
)
    requires
        k > 0,
        0 <= i < n <= u64::MAX,
        passes(i),
        best_of(keys, passes, n, k).len() < k,
    ensures
        best_of(keys, passes, n, k).contains(rank(keys(i), i as u64)),
    decreases n,
{
    let before = best_of(keys, passes, n - 1, k);
    let y = rank(keys(i), i as u64);
    best_are_candidates(keys, passes, n - 1, k);
    best_are_candidates(keys, passes, n, k);
    if passes(n - 1) {
        let x = rank(keys(n - 1), (n - 1) as u64);
        inserted_contains(before, x, y);
    }
    if i < n - 1 {
        nothing_left_out(keys, passes, n - 1, k, i);
    }
}

/// The best `k` so far.
pub struct TopK {
    heap: MaxHeap,
    k: usize,
}

impl TopK {
    /// The best so far, best first.
    pub closed spec fn best(&self) -> Seq<u128> {
        self.heap@
    }

    /// How many are kept.
    pub closed spec fn limit(&self) -> int {
        self.k as int
    }

    /// Nothing yet.
    pub fn new(k: usize) -> (r: Self)
        requires
            k > 0,
        ensures
            r.best() == Seq::<u128>::empty(),
            r.limit() == k,
    {
        TopK { heap: MaxHeap::new(), k }
    }

    /// Offers a candidate.
    #[inline]
    pub fn offer(&mut self, key: u32, id: u64)
        requires
            old(self).limit() > 0,
        ensures
            final(self).best() == offered(old(self).best(), old(self).limit(), key, id),
            final(self).limit() == old(self).limit(),
    {
        if self.heap.len() < self.k {
            self.heap.push(to_rank(key, id));
        } else if let Some(worst) = self.heap.peek() {
            if to_total_place(key) < to_total_place(to_key(worst)) {
                let _ = self.heap.pop();
                self.heap.push(to_rank(key, id));
            }
        }
    }

    /// The best, best first.
    pub fn into_sorted_vec(self) -> (r: Vec<u128>)
        ensures
            r@ == self.best(),
    {
        self.heap.into_sorted_vec()
    }
}

/// The id that is reported at place `j` for the best found.
pub open spec fn id_reported(best: Seq<u128>, j: int) -> i64 {
    if j < best.len() {
        id_in(best[j]) as i64
    } else {
        -1i64
    }
}

/// The distance or similarity that is reported at place `j` for the best found.
pub open spec fn distance_reported(metric: Metric, best: Seq<u128>, j: int) -> u32 {
    if j < best.len() {
        natural_of(metric, key_in(best[j]))
    } else {
        padding_of(metric)
    }
}

/// The `k` places from `at` on hold the first `k` of the best found, best first, then
/// padding; the others are as they were.
pub open spec fn reports(
    metric: Metric,
    best: Seq<u128>,
    at: int,
    k: int,
    ids: Seq<i64>,
    dists: Seq<u32>,
    old_ids: Seq<i64>,
    old_dists: Seq<u32>,
) -> bool {
    &&& ids.len() == old_ids.len()
    &&& dists.len() == old_dists.len()
    &&& forall|p: int| at <= p < at + k ==> #[trigger] ids[p] == id_reported(best, p - at)
    &&& forall|p: int|
        at <= p < at + k ==> #[trigger] dists[p] == distance_reported(metric, best, p - at)
    &&& forall|p: int|
        0 <= p < ids.len() && !(at <= p < at + k) ==> #[trigger] ids[p] == old_ids[p]
    &&& forall|p: int|
        0 <= p < dists.len() && !(at <= p < at + k) ==> #[trigger] dists[p] == old_dists[p]
}

/// Place `j` of row `q`, in rows of length `k`.
pub open spec fn slot<T>(s: Seq<T>, k: int, q: int, j: int) -> T {
    s[q * k + j]
}

/// Each of the first `rows` rows of length `k` holds the first `k` of what was found for
/// it, best first, then padding; what follows them is as it was.
pub open spec fn reports_rows(
    metric: Metric,
    best: spec_fn(int) -> Seq<u128>,
    rows: int,
    k: int,
    ids: Seq<i64>,
    dists: Seq<u32>,
    old_ids: Seq<i64>,
    old_dists: Seq<u32>,
) -> bool {
    &&& ids.len() == old_ids.len()
    &&& dists.len() == old_dists.len()
    &&& forall|q: int, j: int|
        0 <= q < rows && 0 <= j < k ==> #[trigger] slot(ids, k, q, j) == id_reported(best(q), j)
    &&& forall|q: int, j: int|
        0 <= q < rows && 0 <= j < k ==> #[trigger] slot(dists, k, q, j) == distance_reported(
            metric,
            best(q),
            j,
        )
    &&& forall|p: int| rows * k <= p < ids.len() ==> #[trigger] ids[p] == old_ids[p]
    &&& forall|p: int| rows * k <= p < dists.len() ==> #[trigger] dists[p] == old_dists[p]
}

/// Writes the first `k` of the best found from `at` on, and pads.
pub fn report<A: Arithmetic>(
    metric: Metric,
    best: &[u128],
    at: usize,
    k: usize,
    out_ids: &mut [i64],
    out_dists: &mut [u32],
)
    requires
        at + k <= old(out_ids)@.len(),
        at + k <= old(out_dists)@.len(),
    ensures
        reports(
            metric,
            best@,
            at as int,
            k as int,
            final(out_ids)@,
            final(out_dists)@,
            old(out_ids)@,
            old(out_dists)@,
        ),
{
    let room: usize = out_ids.len();
    let mut j: usize = 0;
    while j < k
        invariant
            j <= k,
            at + k <= room,
            room == out_ids@.len(),
            at + k <= out_dists@.len(),
            reports(
                metric,
                best@,
                at as int,
                j as int,
                out_ids@,
                out_dists@,
                old(out_ids)@,
                old(out_dists)@,
            ),
        decreases k - j,
    {
        if j < best.len() {
            out_ids[at + j] = to_id(best[j]) as i64;
            out_dists[at + j] = natural::<A>(metric, to_key(best[j]));
        } else {
            out_ids[at + j] = -1;
            out_dists[at + j] = padding(metric);
        }
        j += 1;
    }
}

/// Writes the first `k` of the best found for each row, and pads.
pub(crate) fn report_rows<A: Arithmetic>(
    metric: Metric,
    best: &Vec<Vec<u128>>,
    k: usize,
    out_ids: &mut [i64],
    out_dists: &mut [u32],
    Ghost(found): Ghost<spec_fn(int) -> Seq<u128>>,
)
    requires
        best@.len() * k <= old(out_ids)@.len(),
        best@.len() * k <= old(out_dists)@.len(),
        forall|q: int| 0 <= q < best@.len() ==> #[trigger] best@[q]@ == found(q),
    ensures
        reports_rows(
            metric,
            found,
            best@.len() as int,
            k as int,
            final(out_ids)@,
            final(out_dists)@,
            old(out_ids)@,
            old(out_dists)@,
        ),
{
    let rows: usize = best.len();
    let room: usize = out_ids.len();
    let mut q: usize = 0;
    while q < rows
        invariant
            q <= rows,
            rows == best@.len(),
            rows * k <= room,
            room == old(out_ids)@.len(),
            rows * k <= old(out_dists)@.len(),
            forall|q: int| 0 <= q < best@.len() ==> #[trigger] best@[q]@ == found(q),
            reports_rows(
                metric,
                found,
                q as int,
                k as int,
                out_ids@,
                out_dists@,
                old(out_ids)@,
                old(out_dists)@,
            ),
        decreases rows - q,
    {
        assert(q * k + k == (q + 1) * k) by (nonlinear_arith);
        assert((q + 1) * k <= rows * k) by (nonlinear_arith)
            requires
                q + 1 <= rows,
        ;
        assert(q * k >= 0) by (nonlinear_arith);
        let ghost ids = out_ids@;
        let ghost dists = out_dists@;
        report::<A>(metric, best[q].as_slice(), q * k, k, out_ids, out_dists);
        proof {
            assert(found(q as int) == best@[q as int]@);
            assert forall|i: int, j: int| 0 <= i <= q && 0 <= j < k implies #[trigger] slot(
                out_ids@,
                k as int,
                i,
                j,
            ) == id_reported(found(i), j) && slot(out_dists@, k as int, i, j) == distance_reported(
                metric,
                found(i),
                j,
            ) by {
                row_bounds(i, q as int, j, k as int);
                if i < q {
                    assert(slot(ids, k as int, i, j) == id_reported(found(i), j));
                    assert(slot(dists, k as int, i, j) == distance_reported(metric, found(i), j));
                }
            }
            assert forall|i: int, j: int| 0 <= i <= q && 0 <= j < k implies #[trigger] slot(
                out_dists@,
                k as int,
                i,
                j,
            ) == distance_reported(metric, found(i), j) by {
                assert(slot(out_ids@, k as int, i, j) == id_reported(found(i), j));
            }
        }
        q += 1;
    }
}

/// The places of a row lie in order.
pub proof fn row_bounds(i: int, q: int, j: int, k: int)
    requires
        0 <= i <= q,
        0 <= j < k,
    ensures
        0 <= i * k + j,
        i < q ==> i * k + j < q * k,
        i == q ==> q * k <= i * k + j < q * k + k,
{
    assert(0 <= i * k) by (nonlinear_arith)
        requires
            0 <= i,
            0 < k,
    ;
    if i < q {
        assert(i * k + k <= q * k) by (nonlinear_arith)
            requires
                i + 1 <= q,
                k > 0,
        ;
    }
}

/// The best `k` are the first `k` of all.
pub proof fn best_are_the_first(
    keys: spec_fn(int) -> u32,
    passes: spec_fn(int) -> bool,
    n: int,
    k: int,
    all: int,
)
    requires
        0 < k <= all,
        0 <= n <= all,
        n <= u64::MAX,
    ensures
        best_of(keys, passes, n, k) == first(best_of(keys, passes, n, all), k),
        best_of(keys, passes, n, all).len() <= n,
    decreases n,
{
    if n > 0 {
        best_are_the_first(keys, passes, n - 1, k, all);
        best_are_candidates(keys, passes, n - 1, k);
        best_are_candidates(keys, passes, n - 1, all);
        let s = best_of(keys, passes, n - 1, all);
        if passes(n - 1) {
            let x = rank(keys(n - 1), (n - 1) as u64);
            inserted_is_ascending(s, x);
            if s.len() >= k {
                let w = s[k - 1];
                assert(s.contains(w));
                assert(is_candidate(keys, passes, n - 1, w));
                let j = choose|j: int|
                    0 <= j < n - 1 && passes(j) && w == #[trigger] rank(keys(j), j as u64);
                rank_is_exact(keys(j), j as u64);
                rank_order(keys(n - 1), (n - 1) as u64, keys(j), j as u64);
                first_of_inserted(s, x, k);
                assert(first(s, k) =~= s.take(k));
                assert(s.take(k).last() == w);
                assert(s.take(k).drop_last() =~= s.take(k - 1));
            }
        }
    }
}

/// All that pass are taken where there is room for all.
pub proof fn all_are_taken(
    keys: spec_fn(int) -> u32,
    passes: spec_fn(int) -> bool,
    n: int,
    all: int,
    i: int,
)
    requires
        0 <= i < n < all,
        n <= u64::MAX,
        passes(i),
    ensures
        best_of(keys, passes, n, all).contains(rank(keys(i), i as u64)),
{
    best_are_the_first(keys, passes, n, all, all);
    nothing_left_out(keys, passes, n, all, i);
}

} // verus!
