//! What searches that look at every vector return, and what batches have in common with
//! single searches.

use vstd::arithmetic::div_mod::{lemma_fundamental_div_mod, lemma_mod_bound};
use vstd::prelude::*;
use crate::binary32::{all_finite, lt, nan, total_place_respects_lt};
use crate::flat::FlatView;
use crate::geometry::{is_natural, l2_is_natural, l2_of_same_is_zero, natural_keeps_order};
use crate::metric::Metric;
use crate::pq::PqView;
use crate::ranked::{ascending, id_in, key_in, rank, rank_is_exact, rank_order};
use crate::rows::{passes, row, row_fits, row_is_finite};
use crate::topk::{
    best_are_best, best_are_candidates, best_of, displaces, distance_reported, is_candidate,
    passing, reports, reports_rows, slot,
};

verus! {

/// Made of a key and an id.
pub open spec fn is_rank(c: u128) -> bool {
    c == rank(key_in(c), id_in(c))
}

/// What the best `k` of a scan are: `k` of them, or all that pass; in order, none twice; each
/// with its own key, and passing.
pub open spec fn is_ranking(
    keys: spec_fn(int) -> u32,
    pass: spec_fn(int) -> bool,
    n: int,
    k: int,
    r: Seq<u128>,
) -> bool {
    &&& r.len() == if passing(pass, n) < k {
        passing(pass, n)
    } else {
        k
    }
    &&& ascending(r)
    &&& r.no_duplicates()
    &&& forall|j: int| #![trigger r[j]]
        0 <= j < r.len() ==> {
            &&& is_rank(r[j])
            &&& id_in(r[j]) < n
            &&& key_in(r[j]) == keys(id_in(r[j]) as int)
            &&& pass(id_in(r[j]) as int)
        }
}

proof fn scan_is_a_ranking(
    keys: spec_fn(int) -> u32,
    pass: spec_fn(int) -> bool,
    n: int,
    k: int,
)
    requires
        k > 0,
        0 <= n <= u64::MAX,
    ensures
        is_ranking(keys, pass, n, k, best_of(keys, pass, n, k)),
{
    best_are_candidates(keys, pass, n, k);
    let r = best_of(keys, pass, n, k);
    assert forall|j: int| #![trigger r[j]] 0 <= j < r.len() implies {
        &&& is_rank(r[j])
        &&& id_in(r[j]) < n
        &&& key_in(r[j]) == keys(id_in(r[j]) as int)
        &&& pass(id_in(r[j]) as int)
    } by {
        assert(r.contains(r[j]));
        assert(is_candidate(keys, pass, n, r[j]));
        let i = choose|i: int| 0 <= i < n && pass(i) && r[j] == #[trigger] rank(keys(i), i as u64);
        rank_is_exact(keys(i), i as u64);
    }
}

/// An exact search returns the `k` vectors that pass, or all of them if there are fewer.
pub proof fn flat_results_are_a_ranking(
    v: FlatView,
    query: Seq<u32>,
    k: int,
    filter: Option<Seq<bool>>,
)
    requires
        v.fits(),
        k > 0,
        0 <= v.len() <= u64::MAX,
    ensures
        is_ranking(v.keys(query), passes(filter), v.len(), k, v.nearest(query, k, filter)),
{
    scan_is_a_ranking(v.keys(query), passes(filter), v.len(), k);
}

/// An exact search is exact: a vector that passes and is not returned is no nearer than any
/// that is, in the total order of keys. There a NaN comes after every number, or before if its
/// sign bit is set.
pub proof fn flat_search_is_exact(
    v: FlatView,
    query: Seq<u32>,
    k: int,
    filter: Option<Seq<bool>>,
    i: int,
    c: u128,
)
    requires
        v.fits(),
        k > 0,
        0 <= i < v.len() <= u64::MAX,
        passes(filter)(i),
        !v.nearest(query, k, filter).contains(rank(v.keys(query)(i), i as u64)),
        v.nearest(query, k, filter).contains(c),
    ensures
        !displaces(v.keys(query)(i), key_in(c)),
        !lt(v.keys(query)(i), key_in(c)),
{
    total_place_respects_lt(v.keys(query)(i), key_in(c));
    best_are_best(v.keys(query), passes(filter), v.len(), k, i, c);
}

/// A compressed search returns the `k` vectors that pass, or all of them if there are fewer.
pub proof fn pq_results_are_a_ranking(
    v: PqView,
    query: Seq<u32>,
    k: int,
    filter: Option<Seq<bool>>,
)
    requires
        v.fits(),
        k > 0,
        0 <= v.len() <= u64::MAX,
    ensures
        is_ranking(v.keys(query), passes(filter), v.len(), k, v.nearest(query, k, filter)),
{
    scan_is_a_ranking(v.keys(query), passes(filter), v.len(), k);
}

/// A compressed search is exact as far as codes can tell: a vector that passes and is not
/// returned does not come before any that is, in the total order of keys.
pub proof fn pq_search_is_exact_on_codes(
    v: PqView,
    query: Seq<u32>,
    k: int,
    filter: Option<Seq<bool>>,
    i: int,
    c: u128,
)
    requires
        v.fits(),
        k > 0,
        0 <= i < v.len() <= u64::MAX,
        passes(filter)(i),
        !v.nearest(query, k, filter).contains(rank(v.keys(query)(i), i as u64)),
        v.nearest(query, k, filter).contains(c),
    ensures
        !displaces(v.keys(query)(i), key_in(c)),
{
    best_are_best(v.keys(query), passes(filter), v.len(), k, i, c);
}

/// Where vectors and query are finite, no squared distance is a NaN, and none is negative.
pub proof fn flat_l2_keys_are_natural(v: FlatView, query: Seq<u32>)
    requires
        v.fits(),
        v.metric == Metric::L2,
        all_finite(v.data),
        all_finite(query),
        query.len() == v.dim,
    ensures
        forall|i: int| 0 <= i < v.len() ==> is_natural(#[trigger] v.keys(query)(i)),
{
    assert forall|i: int| 0 <= i < v.len() implies is_natural(#[trigger] v.keys(query)(i)) by {
        row_is_finite(v.data, v.dim, v.len(), i);
        l2_is_natural(query, row(v.data, v.dim, i));
    }
}

/// A search for a stored vector finds one at distance zero.
pub proof fn stored_vector_is_found_at_zero(v: FlatView, i: int, k: int)
    requires
        v.fits(),
        v.metric == Metric::L2,
        all_finite(v.data),
        0 <= i < v.len() <= u64::MAX,
        k > 0,
    ensures
        ({
            let r = v.nearest(row(v.data, v.dim, i), k, None);
            r.len() > 0 && key_in(r[0]) == 0
        }),
{
    let query = row(v.data, v.dim, i);
    let keys = v.keys(query);
    let pass = passes(None);
    let r = v.nearest(query, k, None);
    row_is_finite(v.data, v.dim, v.len(), i);
    l2_of_same_is_zero(query);
    assert(keys(i) == 0);
    flat_l2_keys_are_natural(v, query);
    flat_results_are_a_ranking(v, query, k, None);
    some_pass(pass, v.len(), i);
    let c = rank(keys(i), i as u64);
    rank_is_exact(keys(i), i as u64);
    let first = r[0];
    assert(r.contains(first));
    let j = id_in(first) as int;
    assert(is_natural(keys(j)));
    if r.contains(c) {
        let p = choose|p: int| 0 <= p < r.len() && r[p] == c;
        assert(r[0] <= r[p]);
        rank_is_exact(keys(j), j as u64);
        best_are_candidates(keys, pass, v.len(), k);
        assert(is_candidate(keys, pass, v.len(), first));
        let q = choose|q: int|
            0 <= q < v.len() && pass(q) && first == #[trigger] rank(keys(q), q as u64);
        rank_is_exact(keys(q), q as u64);
        rank_order(keys(i), i as u64, keys(q), q as u64);
        total_place_respects_lt(keys(i), keys(q));
    } else {
        flat_search_is_exact(v, query, k, None, i, first);
    }
}

/// If one passes, some pass.
proof fn some_pass(pass: spec_fn(int) -> bool, n: int, i: int)
    requires
        0 <= i < n,
        pass(i),
    ensures
        passing(pass, n) > 0,
    decreases n,
{
    passing_is_positive(pass, n - 1);
    if i < n - 1 {
        some_pass(pass, n - 1, i);
    }
}

proof fn passing_is_positive(pass: spec_fn(int) -> bool, n: int)
    ensures
        passing(pass, n) >= 0,
    decreases n,
{
    if n > 0 {
        passing_is_positive(pass, n - 1);
    }
}

/// Each row of the results of a batch is what a search for that query alone returns.
pub proof fn batch_rows_are_single_results(
    metric: Metric,
    best: spec_fn(int) -> Seq<u128>,
    rows: int,
    k: int,
    ids: Seq<i64>,
    dists: Seq<u32>,
    old_ids: Seq<i64>,
    old_dists: Seq<u32>,
    q: int,
    row_ids: Seq<i64>,
    row_dists: Seq<u32>,
    old_row_ids: Seq<i64>,
    old_row_dists: Seq<u32>,
)
    requires
        reports_rows(metric, best, rows, k, ids, dists, old_ids, old_dists),
        0 <= q < rows,
        k > 0,
        rows * k <= ids.len(),
        rows * k <= dists.len(),
        reports(metric, best(q), 0, k, row_ids, row_dists, old_row_ids, old_row_dists),
        row_ids.len() == k,
        row_dists.len() == k,
    ensures
        ids.subrange(q * k, q * k + k) == row_ids,
        dists.subrange(q * k, q * k + k) == row_dists,
{
    row_fits(q, rows, k);
    assert forall|j: int| 0 <= j < k implies ids.subrange(q * k, q * k + k)[j] == row_ids[j] by {
        assert(slot(ids, k, q, j) == ids[q * k + j]);
    }
    assert forall|j: int| 0 <= j < k implies dists.subrange(q * k, q * k + k)[j]
        == row_dists[j] by {
        assert(slot(dists, k, q, j) == dists[q * k + j]);
    }
    assert(ids.subrange(q * k, q * k + k) =~= row_ids);
    assert(dists.subrange(q * k, q * k + k) =~= row_dists);
}

/// Best first: of two candidates in order, the later key is not less.
proof fn keys_in_order(c: u128, d: u128)
    requires
        c <= d,
        is_rank(c),
        is_rank(d),
    ensures
        !lt(key_in(d), key_in(c)),
{
    rank_order(key_in(d), id_in(d), key_in(c), id_in(c));
    total_place_respects_lt(key_in(d), key_in(c));
}

/// What is reported is in order: a distance is no less than one before it, a similarity no
/// greater. The places behind the results are padding.
pub proof fn reported_in_order(metric: Metric, best: Seq<u128>, i: int, j: int)
    requires
        ascending(best),
        0 <= i <= j < best.len(),
        is_rank(best[i]),
        is_rank(best[j]),
        !nan(key_in(best[i])),
        !nan(key_in(best[j])),
        metric == Metric::L2 ==> is_natural(key_in(best[i])) && is_natural(key_in(best[j])),
    ensures
        ({
            let a = distance_reported(metric, best, i);
            let b = distance_reported(metric, best, j);
            match metric {
                Metric::L2 => !lt(b, a),
                Metric::InnerProduct => !lt(a, b),
            }
        }),
{
    keys_in_order(best[i], best[j]);
    natural_keeps_order(metric, key_in(best[i]), key_in(best[j]));
}

/// An exact search for finite vectors by distance reports distances in ascending order.
pub proof fn flat_distances_ascend(
    v: FlatView,
    query: Seq<u32>,
    k: int,
    filter: Option<Seq<bool>>,
    i: int,
    j: int,
)
    requires
        v.fits(),
        v.metric == Metric::L2,
        all_finite(v.data),
        all_finite(query),
        query.len() == v.dim,
        k > 0,
        v.len() <= u64::MAX,
        0 <= i <= j < v.nearest(query, k, filter).len(),
    ensures
        ({
            let best = v.nearest(query, k, filter);
            !lt(distance_reported(v.metric, best, j), distance_reported(v.metric, best, i))
        }),
{
    let best = v.nearest(query, k, filter);
    flat_l2_keys_are_natural(v, query);
    flat_results_are_a_ranking(v, query, k, filter);
    assert(is_natural(v.keys(query)(id_in(best[i]) as int)));
    assert(is_natural(v.keys(query)(id_in(best[j]) as int)));
    reported_in_order(v.metric, best, i, j);
}

/// An exact search by similarity reports similarities in descending order, provided that none
/// is a NaN.
pub proof fn flat_similarities_descend(
    v: FlatView,
    query: Seq<u32>,
    k: int,
    filter: Option<Seq<bool>>,
    i: int,
    j: int,
)
    requires
        v.fits(),
        v.metric == Metric::InnerProduct,
        forall|l: int| 0 <= l < v.len() ==> !nan(#[trigger] v.keys(query)(l)),
        k > 0,
        v.len() <= u64::MAX,
        0 <= i <= j < v.nearest(query, k, filter).len(),
    ensures
        ({
            let best = v.nearest(query, k, filter);
            !lt(distance_reported(v.metric, best, i), distance_reported(v.metric, best, j))
        }),
{
    let best = v.nearest(query, k, filter);
    flat_results_are_a_ranking(v, query, k, filter);
    assert(!nan(v.keys(query)(id_in(best[i]) as int)));
    assert(!nan(v.keys(query)(id_in(best[j]) as int)));
    reported_in_order(v.metric, best, i, j);
}

/// A scan depends on who passes, not on how that is said.
pub proof fn scan_depends_on_who_passes(
    keys: spec_fn(int) -> u32,
    pass: spec_fn(int) -> bool,
    other: spec_fn(int) -> bool,
    n: int,
    k: int,
)
    requires
        forall|i: int| 0 <= i < n ==> #[trigger] pass(i) == other(i),
    ensures
        best_of(keys, pass, n, k) == best_of(keys, other, n, k),
    decreases n,
{
    if n > 0 {
        scan_depends_on_who_passes(keys, pass, other, n - 1, k);
        assert(pass(n - 1) == other(n - 1));
    }
}

/// A filter that all vectors pass changes nothing.
pub proof fn full_filter_changes_nothing(
    v: FlatView,
    w: PqView,
    query: Seq<u32>,
    k: int,
    all: Seq<bool>,
)
    requires
        forall|i: int| 0 <= i < all.len() ==> #[trigger] all[i],
    ensures
        v.len() <= all.len() ==> v.nearest(query, k, Some(all)) == v.nearest(query, k, None),
        w.len() <= all.len() ==> w.nearest(query, k, Some(all)) == w.nearest(query, k, None),
{
    let pass = passes(Some(all));
    let other = passes(None);
    assert forall|i: int| 0 <= i < all.len() implies #[trigger] pass(i) == other(i) by {
        assert(all[i]);
    }
    if v.len() <= all.len() {
        scan_depends_on_who_passes(v.keys(query), pass, other, v.len(), k);
    }
    if w.len() <= all.len() {
        scan_depends_on_who_passes(w.keys(query), pass, other, w.len(), k);
    }
}

/// Adding vectors in two parts is adding them at once.
pub proof fn added_in_parts(v: FlatView, a: Seq<u32>, b: Seq<u32>)
    ensures
        ({
            let first = FlatView { data: v.data + a, ..v };
            FlatView { data: first.data + b, ..first } == FlatView { data: v.data + (a + b), ..v }
        }),
{
    assert((v.data + a) + b =~= v.data + (a + b));
}

/// Batches report the same, however they were run: what they report depends on what was found
/// for each query alone.
pub proof fn batches_agree(
    metric: Metric,
    best: spec_fn(int) -> Seq<u128>,
    rows: int,
    k: int,
    ids: Seq<i64>,
    dists: Seq<u32>,
    old_ids: Seq<i64>,
    old_dists: Seq<u32>,
    other_ids: Seq<i64>,
    other_dists: Seq<u32>,
    other_old_ids: Seq<i64>,
    other_old_dists: Seq<u32>,
)
    requires
        reports_rows(metric, best, rows, k, ids, dists, old_ids, old_dists),
        reports_rows(
            metric,
            best,
            rows,
            k,
            other_ids,
            other_dists,
            other_old_ids,
            other_old_dists,
        ),
        rows >= 0,
        k > 0,
        ids.len() == rows * k,
        dists.len() == rows * k,
        other_ids.len() == rows * k,
        other_dists.len() == rows * k,
    ensures
        ids == other_ids,
        dists == other_dists,
{
    assert forall|p: int| 0 <= p < rows * k implies ids[p] == other_ids[p] && dists[p]
        == other_dists[p] by {
        let q = p / k;
        let j = p % k;
        lemma_fundamental_div_mod(p, k);
        lemma_mod_bound(p, k);
        assert(0 <= q < rows && q * k + j == p) by (nonlinear_arith)
            requires
                p == k * q + j,
                0 <= j < k,
                0 <= p < rows * k,
        ;
        assert(slot(ids, k, q, j) == slot(other_ids, k, q, j));
        assert(slot(dists, k, q, j) == slot(other_dists, k, q, j));
    }
    assert(ids =~= other_ids);
    assert(dists =~= other_dists);
}

/// A batch of a compressed index, on any number of threads, reports for each query what a
/// search for that query alone reports; each id is that of a vector that passes, or `-1`.
pub proof fn pq_batch_is_single_searches(
    v: PqView,
    queries: Seq<u32>,
    k: int,
    filter: Option<Seq<bool>>,
    ids: Seq<i64>,
    dists: Seq<u32>,
    old_ids: Seq<i64>,
    old_dists: Seq<u32>,
    q: int,
    row_ids: Seq<i64>,
    row_dists: Seq<u32>,
    old_row_ids: Seq<i64>,
    old_row_dists: Seq<u32>,
)
    requires
        v.fits(),
        k > 0,
        ({
            let rows = queries.len() as int / v.pq.dim;
            &&& 0 <= q < rows
            &&& ids.len() == rows * k
            &&& dists.len() == rows * k
            &&& reports_rows(
                v.metric,
                |q: int| v.nearest(row(queries, v.pq.dim, q), k, filter),
                rows,
                k,
                ids,
                dists,
                old_ids,
                old_dists,
            )
        }),
        reports(
            v.metric,
            v.nearest(row(queries, v.pq.dim, q), k, filter),
            0,
            k,
            row_ids,
            row_dists,
            old_row_ids,
            old_row_dists,
        ),
        row_ids.len() == k,
        row_dists.len() == k,
    ensures
        ids.subrange(q * k, q * k + k) == row_ids,
        dists.subrange(q * k, q * k + k) == row_dists,
        forall|j: int|
            0 <= j < k ==> (#[trigger] row_ids[j]) == -1 || 0 <= row_ids[j] < v.len() && passes(
                filter,
            )(row_ids[j] as int),
{
    let rows = queries.len() as int / v.pq.dim;
    let best = |q: int| v.nearest(row(queries, v.pq.dim, q), k, filter);
    batch_rows_are_single_results(
        v.metric,
        best,
        rows,
        k,
        ids,
        dists,
        old_ids,
        old_dists,
        q,
        row_ids,
        row_dists,
        old_row_ids,
        old_row_dists,
    );
    let r = v.nearest(row(queries, v.pq.dim, q), k, filter);
    pq_is_counted(v);
    pq_results_are_a_ranking(v, row(queries, v.pq.dim, q), k, filter);
    assert forall|j: int| 0 <= j < k implies (#[trigger] row_ids[j]) == -1 || 0 <= row_ids[j]
        < v.len() && passes(filter)(row_ids[j] as int) by {
        if j < r.len() {
            assert(id_in(r[j]) < v.len());
            assert(row_ids[j] == id_in(r[j]));
        }
    }
}

/// A compressed index has no more vectors than bytes.
proof fn pq_is_counted(v: PqView)
    requires
        v.fits(),
    ensures
        0 <= v.len() <= isize::MAX,
{
    let n = v.len();
    let m = v.pq.m;
    assert(0 <= n <= n * m) by (nonlinear_arith)
        requires
            m >= 1,
            n * m >= 0,
    ;
}

} // verus!
