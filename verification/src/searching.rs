//! What searches report, said of nothing but the vectors, the query and the outputs.

use vstd::prelude::*;
use crate::arith::root;
use crate::binary32::{opposite, total_place, MAX, MIN};
use crate::distance::{inner_product_of, l2_sqr_of};
use crate::flat::FlatView;
use crate::gpu::{meaning, reported, KernelError};
use crate::hnsw::HnswView;
use crate::metric::Metric;
use crate::pq::PqView;
use crate::ranked::{id_in, key_in, rank, rank_is_exact, rank_order};
use crate::recall::results_are_stored_vectors;
use crate::rows::{passes, row, row_fits};
use crate::topk::{
    all_are_taken, best_are_candidates, best_are_the_first, best_of, distance_reported, id_reported,
    is_candidate, reports, reports_rows, slot,
};

verus! {

/// One vector comes before another for a query: its key is less, or as large and its id is less.
pub open spec fn precedes(key: spec_fn(int) -> u32, x: int, y: int) -> bool {
    total_place(key(x)) < total_place(key(y)) || key(x) == key(y) && x < y
}

/// A vector is among the first `k` that are reported.
pub open spec fn is_reported(ids: Seq<i64>, k: int, x: int) -> bool {
    exists|j: int| 0 <= j < k && #[trigger] ids[j] == x
}

/// The first `k` places hold, in order, the `k` of `n` vectors that come first of those that
/// pass, each with its distance or similarity. If there are fewer, padding follows.
pub open spec fn are_top(
    metric: Metric,
    key: spec_fn(int) -> u32,
    pass: spec_fn(int) -> bool,
    n: int,
    k: int,
    ids: Seq<i64>,
    dists: Seq<u32>,
) -> bool {
    &&& forall|j: int|
        0 <= j < k ==> {
            ||| #[trigger] ids[j] == -1 && dists[j] == match metric {
                Metric::L2 => MAX,
                Metric::InnerProduct => MIN,
            }
            ||| 0 <= ids[j] < n && pass(ids[j] as int) && dists[j] == match metric {
                Metric::L2 => root(key(ids[j] as int)),
                Metric::InnerProduct => opposite(key(ids[j] as int)),
            }
        }
    &&& forall|i: int, j: int|
        0 <= i < j < k && #[trigger] ids[j] != -1 ==> #[trigger] ids[i] != -1 && precedes(
            key,
            ids[i] as int,
            ids[j] as int,
        )
    &&& forall|x: int, j: int|
        0 <= x < n && #[trigger] pass(x) && 0 <= j < k ==> is_reported(ids, k, x) || (
        #[trigger] ids[j] != -1 && precedes(key, ids[j] as int, x))
}

/// What is at the places of a scan.
proof fn scan_places(
    keys: spec_fn(int) -> u32,
    pass: spec_fn(int) -> bool,
    n: int,
    k: int,
    j: int,
)
    requires
        k > 0,
        0 <= n <= i64::MAX,
        0 <= j < best_of(keys, pass, n, k).len(),
    ensures
        ({
            let c = best_of(keys, pass, n, k)[j];
            let x = id_in(c) as int;
            &&& 0 <= x < n
            &&& pass(x)
            &&& key_in(c) == keys(x)
            &&& c == rank(keys(x), x as u64)
        }),
{
    best_are_candidates(keys, pass, n, k);
    let r = best_of(keys, pass, n, k);
    assert(r.contains(r[j]));
    assert(is_candidate(keys, pass, n, r[j]));
    let i = choose|i: int| 0 <= i < n && pass(i) && r[j] == #[trigger] rank(keys(i), i as u64);
    rank_is_exact(keys(i), i as u64);
}

/// A scan reports those that come first.
proof fn scan_reports_top(
    metric: Metric,
    keys: spec_fn(int) -> u32,
    pass: spec_fn(int) -> bool,
    n: int,
    k: int,
    ids: Seq<i64>,
    dists: Seq<u32>,
    old_ids: Seq<i64>,
    old_dists: Seq<u32>,
)
    requires
        k > 0,
        0 <= n <= i64::MAX,
        reports(metric, best_of(keys, pass, n, k), 0, k, ids, dists, old_ids, old_dists),
    ensures
        are_top(metric, keys, pass, n, k, ids, dists),
{
    let r = best_of(keys, pass, n, k);
    let room = if k > n {
        k
    } else {
        n + 1
    };
    let all = best_of(keys, pass, n, room);
    best_are_candidates(keys, pass, n, k);
    best_are_candidates(keys, pass, n, room);
    best_are_the_first(keys, pass, n, k, room);
    assert forall|j: int| 0 <= j < k implies {
        ||| #[trigger] ids[j] == -1 && dists[j] == match metric {
            Metric::L2 => MAX,
            Metric::InnerProduct => MIN,
        }
        ||| 0 <= ids[j] < n && pass(ids[j] as int) && dists[j] == match metric {
            Metric::L2 => root(keys(ids[j] as int)),
            Metric::InnerProduct => opposite(keys(ids[j] as int)),
        }
    } by {
        assert(ids[j] == id_reported(r, j - 0));
        assert(dists[j] == distance_reported(metric, r, j - 0));
        if j < r.len() {
            scan_places(keys, pass, n, k, j);
        }
    }
    assert forall|i: int, j: int| 0 <= i < j < k && #[trigger] ids[j] != -1 implies #[trigger] ids[i]
        != -1 && precedes(keys, ids[i] as int, ids[j] as int) by {
        assert(ids[j] == id_reported(r, j - 0));
        assert(ids[i] == id_reported(r, i - 0));
        scan_places(keys, pass, n, k, i);
        scan_places(keys, pass, n, k, j);
        assert(r[i] <= r[j] && r[i] != r[j]);
        rank_order(
            keys(id_in(r[i]) as int),
            id_in(r[i]),
            keys(id_in(r[j]) as int),
            id_in(r[j]),
        );
    }
    assert forall|x: int, j: int| 0 <= x < n && #[trigger] pass(x) && 0 <= j < k implies is_reported(
        ids,
        k,
        x,
    ) || (#[trigger] ids[j] != -1 && precedes(keys, ids[j] as int, x)) by {
        all_are_taken(keys, pass, n, room, x);
        let c = rank(keys(x), x as u64);
        rank_is_exact(keys(x), x as u64);
        let p = choose|p: int| 0 <= p < all.len() && all[p] == c;
        if p < r.len() {
            assert(r[p] == c);
            assert(ids[p] == id_reported(r, p - 0));
            assert(ids[p] == x);
        } else {
            assert(r.len() == k);
            assert(ids[j] == id_reported(r, j - 0));
            scan_places(keys, pass, n, k, j);
            assert(all[j] == r[j]);
            assert(all[j] <= all[p] && all[j] != all[p]);
            rank_order(keys(id_in(r[j]) as int), id_in(r[j]), keys(x), x as u64);
        }
    }
}

/// How relevant stored vector `i` is to a query.
pub open spec fn flat_key(v: FlatView, query: Seq<u32>) -> spec_fn(int) -> u32 {
    |i: int|
        {
            let x = v.data.subrange(i * v.dim, i * v.dim + v.dim);
            match v.metric {
                Metric::L2 => l2_sqr_of(query, x),
                Metric::InnerProduct => opposite(inner_product_of(query, x)),
            }
        }
}

/// Which vectors a filter lets pass.
pub open spec fn let_pass(filter: Option<Seq<bool>>) -> spec_fn(int) -> bool {
    |i: int|
        match filter {
            Some(f) => f[i],
            None => true,
        }
}

/// An exact search reports the `k` of all stored vectors that come first of those that pass.
pub proof fn flat_search_reports_top(
    v: FlatView,
    query: Seq<u32>,
    k: int,
    filter: Option<Seq<bool>>,
    ids: Seq<i64>,
    dists: Seq<u32>,
    old_ids: Seq<i64>,
    old_dists: Seq<u32>,
)
    requires
        v.fits(),
        k > 0,
        reports(v.metric, v.nearest(query, k, filter), 0, k, ids, dists, old_ids, old_dists),
    ensures
        are_top(
            v.metric,
            flat_key(v, query),
            let_pass(filter),
            v.data.len() as int / v.dim,
            k,
            ids,
            dists,
        ),
{
    let n = v.len();
    assert(n <= v.data.len()) by (nonlinear_arith)
        requires
            n * v.dim == v.data.len(),
            v.dim >= 1,
            n >= 0 || n < 0,
    ;
    assert(n >= 0) by (nonlinear_arith)
        requires
            n * v.dim == v.data.len(),
            v.dim >= 1,
            v.data.len() >= 0,
    ;
    assert(v.keys(query) =~= flat_key(v, query));
    assert(passes(filter) =~= let_pass(filter));
    scan_reports_top(
        v.metric,
        v.keys(query),
        passes(filter),
        n,
        k,
        ids,
        dists,
        old_ids,
        old_dists,
    );
}

/// A batch of exact searches reports, in row `q`, what a search for query `q` reports.
pub proof fn flat_batch_reports_top(
    v: FlatView,
    queries: Seq<u32>,
    rows: int,
    k: int,
    filter: Option<Seq<bool>>,
    ids: Seq<i64>,
    dists: Seq<u32>,
    old_ids: Seq<i64>,
    old_dists: Seq<u32>,
    q: int,
)
    requires
        v.fits(),
        k > 0,
        0 <= q < rows,
        rows * k <= ids.len(),
        rows * k <= dists.len(),
        reports_rows(
            v.metric,
            |p: int| v.nearest(row(queries, v.dim, p), k, filter),
            rows,
            k,
            ids,
            dists,
            old_ids,
            old_dists,
        ),
    ensures
        are_top(
            v.metric,
            flat_key(v, queries.subrange(q * v.dim, q * v.dim + v.dim)),
            let_pass(filter),
            v.data.len() as int / v.dim,
            k,
            ids.subrange(q * k, q * k + k),
            dists.subrange(q * k, q * k + k),
        ),
{
    let best = |p: int| v.nearest(row(queries, v.dim, p), k, filter);
    rows_report(v.metric, best, rows, k, ids, dists, old_ids, old_dists, q);
    let (a, b) = (ids.subrange(q * k, q * k + k), dists.subrange(q * k, q * k + k));
    let query = queries.subrange(q * v.dim, q * v.dim + v.dim);
    flat_search_reports_top(v, query, k, filter, a, b, a, b);
}

/// A compressed search reports the `k` of all coded vectors that come first of those that pass.
pub proof fn pq_search_reports_top(
    v: PqView,
    query: Seq<u32>,
    k: int,
    filter: Option<Seq<bool>>,
    ids: Seq<i64>,
    dists: Seq<u32>,
    old_ids: Seq<i64>,
    old_dists: Seq<u32>,
)
    requires
        v.fits(),
        k > 0,
        reports(v.metric, v.nearest(query, k, filter), 0, k, ids, dists, old_ids, old_dists),
    ensures
        are_top(
            v.metric,
            v.keys(query),
            let_pass(filter),
            v.codes.len() as int / v.pq.m,
            k,
            ids,
            dists,
        ),
{
    let n = v.len();
    assert(0 <= n <= v.codes.len()) by (nonlinear_arith)
        requires
            n * v.pq.m == v.codes.len(),
            v.pq.m >= 1,
            v.codes.len() >= 0,
    ;
    assert(passes(filter) =~= let_pass(filter));
    scan_reports_top(
        v.metric,
        v.keys(query),
        passes(filter),
        n,
        k,
        ids,
        dists,
        old_ids,
        old_dists,
    );
}

/// The first `k` places hold, in order, vectors that pass, each with its distance or similarity;
/// padding follows.
pub open spec fn are_ranked(
    metric: Metric,
    key: spec_fn(int) -> u32,
    pass: spec_fn(int) -> bool,
    n: int,
    k: int,
    ids: Seq<i64>,
    dists: Seq<u32>,
) -> bool {
    &&& forall|j: int|
        0 <= j < k ==> {
            ||| #[trigger] ids[j] == -1 && dists[j] == match metric {
                Metric::L2 => MAX,
                Metric::InnerProduct => MIN,
            }
            ||| 0 <= ids[j] < n && pass(ids[j] as int) && dists[j] == match metric {
                Metric::L2 => root(key(ids[j] as int)),
                Metric::InnerProduct => opposite(key(ids[j] as int)),
            }
        }
    &&& forall|i: int, j: int|
        0 <= i < j < k && #[trigger] ids[j] != -1 ==> #[trigger] ids[i] != -1 && precedes(
            key,
            ids[i] as int,
            ids[j] as int,
        )
}

/// A search of a graph index reports stored vectors that pass, each once and with its distance or
/// similarity, the nearest first; padding follows. It reports all that it found.
pub proof fn hnsw_search_reports_ranked(
    v: HnswView,
    query: Seq<u32>,
    k: int,
    ef: int,
    filter: Option<Seq<bool>>,
    ids: Seq<i64>,
    dists: Seq<u32>,
    old_ids: Seq<i64>,
    old_dists: Seq<u32>,
)
    requires
        v.fits(),
        k >= 0,
        ef >= 0,
        reports(
            v.store.metric,
            v.nearest(query, k, ef, filter),
            0,
            k,
            ids,
            dists,
            old_ids,
            old_dists,
        ),
    ensures
        are_ranked(
            v.store.metric,
            flat_key(v.store, query),
            let_pass(filter),
            v.store.data.len() as int / v.store.dim,
            k,
            ids,
            dists,
        ),
        forall|j: int|
            0 <= j < v.nearest(query, k, ef, filter).len() ==> #[trigger] ids[j] == id_in(
                v.nearest(query, k, ef, filter)[j],
            ),
{
    let r = v.nearest(query, k, ef, filter);
    let key = flat_key(v.store, query);
    results_are_stored_vectors(v, query, k, ef, filter);
    assert(v.store.keys(query) =~= key);
    assert(passes(filter) =~= let_pass(filter));
    assert forall|j: int| 0 <= j < k implies {
        ||| #[trigger] ids[j] == -1 && dists[j] == match v.store.metric {
            Metric::L2 => MAX,
            Metric::InnerProduct => MIN,
        }
        ||| 0 <= ids[j] < v.len() && let_pass(filter)(ids[j] as int) && dists[j]
            == match v.store.metric {
            Metric::L2 => root(key(ids[j] as int)),
            Metric::InnerProduct => opposite(key(ids[j] as int)),
        }
    } by {
        assert(ids[j] == id_reported(r, j - 0));
        assert(dists[j] == distance_reported(v.store.metric, r, j - 0));
        if j < r.len() {
            assert(id_in(r[j]) < v.len());
        }
    }
    assert forall|i: int, j: int| 0 <= i < j < k && #[trigger] ids[j] != -1 implies #[trigger] ids[i]
        != -1 && precedes(key, ids[i] as int, ids[j] as int) by {
        assert(ids[j] == id_reported(r, j - 0));
        assert(ids[i] == id_reported(r, i - 0));
        assert(id_in(r[i]) < v.len() && id_in(r[j]) < v.len());
        assert(r[i] <= r[j] && r[i] != r[j]);
        rank_order(
            key(id_in(r[i]) as int),
            id_in(r[i]),
            key(id_in(r[j]) as int),
            id_in(r[j]),
        );
    }
    assert forall|j: int| 0 <= j < r.len() implies #[trigger] ids[j] == id_in(r[j]) by {
        assert(ids[j] == id_reported(r, j - 0));
        assert(id_in(r[j]) < v.len());
    }
}

/// A row of a batch reports what was found for its query.
proof fn rows_report(
    metric: Metric,
    best: spec_fn(int) -> Seq<u128>,
    rows: int,
    k: int,
    ids: Seq<i64>,
    dists: Seq<u32>,
    old_ids: Seq<i64>,
    old_dists: Seq<u32>,
    q: int,
)
    requires
        k > 0,
        0 <= q < rows,
        rows * k <= ids.len(),
        rows * k <= dists.len(),
        reports_rows(metric, best, rows, k, ids, dists, old_ids, old_dists),
    ensures
        ({
            let (a, b) = (ids.subrange(q * k, q * k + k), dists.subrange(q * k, q * k + k));
            reports(metric, best(q), 0, k, a, b, a, b)
        }),
{
    row_fits(q, rows, k);
    let (a, b) = (ids.subrange(q * k, q * k + k), dists.subrange(q * k, q * k + k));
    assert forall|p: int| 0 <= p < 0 + k implies #[trigger] a[p] == id_reported(best(q), p - 0) by {
        assert(slot(ids, k, q, p) == id_reported(best(q), p));
    }
    assert forall|p: int| 0 <= p < 0 + k implies #[trigger] b[p] == distance_reported(
        metric,
        best(q),
        p - 0,
    ) by {
        assert(slot(dists, k, q, p) == distance_reported(metric, best(q), p));
    }
}

/// A batch of compressed searches reports, in row `q`, what a search for query `q` reports.
pub proof fn pq_batch_reports_top(
    v: PqView,
    queries: Seq<u32>,
    rows: int,
    k: int,
    filter: Option<Seq<bool>>,
    ids: Seq<i64>,
    dists: Seq<u32>,
    old_ids: Seq<i64>,
    old_dists: Seq<u32>,
    q: int,
)
    requires
        v.fits(),
        k > 0,
        0 <= q < rows,
        rows * k <= ids.len(),
        rows * k <= dists.len(),
        reports_rows(
            v.metric,
            |p: int| v.nearest(row(queries, v.pq.dim, p), k, filter),
            rows,
            k,
            ids,
            dists,
            old_ids,
            old_dists,
        ),
    ensures
        are_top(
            v.metric,
            v.keys(queries.subrange(q * v.pq.dim, q * v.pq.dim + v.pq.dim)),
            let_pass(filter),
            v.codes.len() as int / v.pq.m,
            k,
            ids.subrange(q * k, q * k + k),
            dists.subrange(q * k, q * k + k),
        ),
{
    let best = |p: int| v.nearest(row(queries, v.pq.dim, p), k, filter);
    rows_report(v.metric, best, rows, k, ids, dists, old_ids, old_dists, q);
    let (a, b) = (ids.subrange(q * k, q * k + k), dists.subrange(q * k, q * k + k));
    let query = queries.subrange(q * v.pq.dim, q * v.pq.dim + v.pq.dim);
    pq_search_reports_top(v, query, k, filter, a, b, a, b);
}

/// A batch of searches of a graph index reports, in row `q`, what a search for query `q` finds.
pub proof fn hnsw_batch_reports_ranked(
    v: HnswView,
    queries: Seq<u32>,
    rows: int,
    k: int,
    ef: int,
    filter: Option<Seq<bool>>,
    ids: Seq<i64>,
    dists: Seq<u32>,
    old_ids: Seq<i64>,
    old_dists: Seq<u32>,
    q: int,
)
    requires
        v.fits(),
        k > 0,
        ef >= 0,
        0 <= q < rows,
        rows * k <= ids.len(),
        rows * k <= dists.len(),
        reports_rows(
            v.store.metric,
            |p: int| v.nearest(row(queries, v.store.dim, p), k, ef, filter),
            rows,
            k,
            ids,
            dists,
            old_ids,
            old_dists,
        ),
    ensures
        ({
            let dim = v.store.dim;
            let query = queries.subrange(q * dim, q * dim + dim);
            let (a, b) = (ids.subrange(q * k, q * k + k), dists.subrange(q * k, q * k + k));
            let found = v.nearest(query, k, ef, filter);
            &&& are_ranked(
                v.store.metric,
                flat_key(v.store, query),
                let_pass(filter),
                v.store.data.len() as int / dim,
                k,
                a,
                b,
            )
            &&& forall|j: int| 0 <= j < found.len() ==> #[trigger] a[j] == id_in(found[j])
        }),
{
    let best = |p: int| v.nearest(row(queries, v.store.dim, p), k, ef, filter);
    rows_report(v.store.metric, best, rows, k, ids, dists, old_ids, old_dists, q);
    let (a, b) = (ids.subrange(q * k, q * k + k), dists.subrange(q * k, q * k + k));
    let query = queries.subrange(q * v.store.dim, q * v.store.dim + v.store.dim);
    hnsw_search_reports_ranked(v, query, k, ef, filter, a, b, a, b);
}

/// What is reported of keys that a kernel returned: places without an id are padded, the others
/// hold the square root of the key, or the key with its sign changed.
pub proof fn kernel_keys_are_reported(metric: Metric, id: i64, key: u32)
    ensures
        reported(metric, id, key) == match metric {
            Metric::L2 => if id < 0 {
                MAX
            } else {
                root(key)
            },
            Metric::InnerProduct => if id < 0 {
                MIN
            } else {
                opposite(key)
            },
        },
{
}

/// A kernel answered if and only if it returned zero, and what went wrong is told by its code.
pub proof fn kernel_codes_are_told_apart(a: i32, b: i32)
    ensures
        meaning(a) is Ok <==> a == 0,
        meaning(a) == Err::<(), KernelError>(KernelError::InvalidK) <==> a == -1,
        meaning(a) == Err::<(), KernelError>(KernelError::SharedMemory) <==> a == -2,
        meaning(a) == meaning(b) ==> a == b,
{
}

} // verus!
