//! How thorough a search in a graph is.

use vstd::prelude::*;
use crate::beam::{candidate_is_exact, offered_all_is_sound, popped_is_sound, Beam, Quest};
use crate::binary32::{lt, nan};
use crate::exploration::{
    all_good, has_numbers, is_closed, is_exhausted, is_result_or_worse, order_of_keys,
    push_contains, results_are_the_best_seen, run_is_sound, search_ends, seeded_opens_all,
};
use crate::graph::adjacency;
use crate::hnsw::HnswView;
use crate::linking::layers_are_closed;
use crate::ranked::{
    first, id_in, inserted, inserted_contains, inserted_is_ascending, inserted_is_below,
};
use crate::recall::{nodes, start_is_a_node};
use crate::rows::passes;
use crate::searching::let_pass;
use crate::walking::{keys_for, neighbors};
use crate::wiring::node_fits;

verus! {

/// The results are full, and a key is not less than that of the worst.
pub open spec fn is_beyond(q: Quest, b: Beam, key: u32) -> bool {
    b.best.len() >= q.ef && !lt(key, q.worst(b))
}

/// What is beyond the worst result stays so.
pub proof fn beyond_stays(q: Quest, b: Beam, id: u32, good: spec_fn(u32) -> bool, key: u32)
    requires
        has_numbers(q, good),
        q.ef >= 1,
        q.is_sound(b, good),
        b.best.len() <= q.ef,
        good(id),
        is_beyond(q, b, key),
    ensures
        is_beyond(q, q.offered(b, id), key),
{
    let r = q.offered(b, id);
    let c = q.candidate(id);
    if q.is_new(b, id) && q.is_wanted(b, (q.key)(id)) && (q.passes)(id as int) {
        let t = inserted(b.best, c);
        inserted_is_ascending(b.best, c);
        inserted_is_below(b.best, c);
        let e = q.ef - 1;
        assert(t[e] <= b.best[e]);
        assert(r.best == first(t, q.ef));
        assert(r.best.last() == t[e]);
        assert(b.best.contains(b.best[e]));
        let z = choose|z: u32| b.seen.contains(z) && b.best[e] == #[trigger] q.candidate(z);
        candidate_is_exact(q, z);
        assert(good(z));
        inserted_contains(b.best, c, t[e]);
        assert(t.contains(t[e]));
        let y = if t[e] == c {
            id
        } else {
            choose|y: u32| b.seen.contains(y) && t[e] == #[trigger] q.candidate(y)
        };
        candidate_is_exact(q, y);
        assert(good(y));
        order_of_keys(q, y, z, key);
    }
}

/// Every node that was seen is open, or its neighbors were seen too, or it is beyond the worst
/// result.
pub open spec fn is_thorough(q: Quest, graph: spec_fn(u32) -> Seq<u32>, b: Beam) -> bool {
    forall|id: u32| #[trigger]
        b.seen.contains(id) ==> b.open.contains(q.candidate(id)) || is_exhausted(q, graph, b, id)
            || is_beyond(q, b, (q.key)(id))
}

proof fn offer_is_thorough(
    q: Quest,
    graph: spec_fn(u32) -> Seq<u32>,
    b: Beam,
    id: u32,
    good: spec_fn(u32) -> bool,
    x: u32,
)
    requires
        has_numbers(q, good),
        q.ef >= 1,
        q.is_sound(b, good),
        b.best.len() <= q.ef,
        good(id),
        forall|y: u32| #[trigger]
            b.seen.contains(y) && y != x ==> b.open.contains(q.candidate(y)) || is_exhausted(
                q,
                graph,
                b,
                y,
            ) || is_beyond(q, b, (q.key)(y)),
    ensures
        forall|y: u32| #[trigger]
            q.offered(b, id).seen.contains(y) && y != x ==> q.offered(b, id).open.contains(
                q.candidate(y),
            ) || is_exhausted(q, graph, q.offered(b, id), y) || is_beyond(
                q,
                q.offered(b, id),
                (q.key)(y),
            ),
        forall|y: u32| #[trigger] b.seen.contains(y) ==> q.offered(b, id).seen.contains(y),
        q.offered(b, id).seen.contains(id) || q.exclude == Some(id),
{
    let r = q.offered(b, id);
    let c = q.candidate(id);
    if q.is_new(b, id) {
        assert forall|y: u32| #[trigger] r.seen.contains(y) <==> b.seen.contains(y) || y == id by {
            push_contains(b.seen, id, y);
        }
        assert(r.seen.contains(id));
        assert forall|y: u32| #[trigger] r.seen.contains(y) && y != x implies r.open.contains(
            q.candidate(y),
        ) || is_exhausted(q, graph, r, y) || is_beyond(q, r, (q.key)(y)) by {
            if q.is_wanted(b, (q.key)(id)) {
                inserted_contains(b.open, c, q.candidate(y));
            }
            if y == id {
            } else {
                assert(b.seen.contains(y));
                if is_exhausted(q, graph, b, y) {
                    assert forall|i: int| 0 <= i < graph(y).len() implies r.seen.contains(
                        #[trigger] graph(y)[i],
                    ) || q.exclude == Some(graph(y)[i]) by {
                        assert(b.seen.contains(graph(y)[i]) || q.exclude == Some(graph(y)[i]));
                    }
                }
                if is_beyond(q, b, (q.key)(y)) {
                    beyond_stays(q, b, id, good, (q.key)(y));
                }
            }
        }
    }
}

proof fn offers_are_thorough(
    q: Quest,
    graph: spec_fn(u32) -> Seq<u32>,
    b: Beam,
    list: Seq<u32>,
    n: int,
    good: spec_fn(u32) -> bool,
    x: u32,
)
    requires
        has_numbers(q, good),
        q.ef >= 1,
        q.is_sound(b, good),
        b.best.len() <= q.ef,
        all_good(list, good),
        0 <= n <= list.len(),
        forall|y: u32| #[trigger]
            b.seen.contains(y) && y != x ==> b.open.contains(q.candidate(y)) || is_exhausted(
                q,
                graph,
                b,
                y,
            ) || is_beyond(q, b, (q.key)(y)),
    ensures
        forall|y: u32| #[trigger]
            q.offered_all(b, list, n).seen.contains(y) && y != x ==> q.offered_all(
                b,
                list,
                n,
            ).open.contains(q.candidate(y)) || is_exhausted(
                q,
                graph,
                q.offered_all(b, list, n),
                y,
            ) || is_beyond(q, q.offered_all(b, list, n), (q.key)(y)),
        forall|y: u32| #[trigger]
            b.seen.contains(y) ==> q.offered_all(b, list, n).seen.contains(y),
        forall|i: int|
            0 <= i < n ==> q.offered_all(b, list, n).seen.contains(#[trigger] list[i]) || q.exclude
                == Some(list[i]),
    decreases n,
{
    if n > 0 {
        offers_are_thorough(q, graph, b, list, n - 1, good, x);
        offered_all_is_sound(q, b, list, n - 1, good);
        let p = q.offered_all(b, list, n - 1);
        assert(good(list[n - 1]));
        offer_is_thorough(q, graph, p, list[n - 1], good, x);
        let r = q.offered_all(b, list, n);
        assert forall|i: int| 0 <= i < n implies r.seen.contains(#[trigger] list[i]) || q.exclude
            == Some(list[i]) by {
            if i < n - 1 {
                assert(p.seen.contains(list[i]) || q.exclude == Some(list[i]));
            }
        }
    }
}

proof fn run_is_thorough(
    q: Quest,
    graph: spec_fn(u32) -> Seq<u32>,
    entry: Seq<u32>,
    good: spec_fn(u32) -> bool,
    n: int,
    steps: nat,
)
    requires
        has_numbers(q, good),
        q.ef >= 1,
        is_closed(graph, good, n),
        all_good(entry, good),
    ensures
        is_thorough(q, graph, q.run(graph, q.start(entry), steps)),
    decreases steps,
{
    let r = q.run(graph, q.start(entry), steps);
    if steps == 0 {
        let k = entry.len() as int;
        let b = q.seeded_with(entry, k);
        seeded_opens_all(q, entry, k);
        assert forall|id: u32| #[trigger] r.seen.contains(id) implies r.open.contains(
            q.candidate(id),
        ) by {
            assert(b.seen.contains(id));
        }
    } else {
        let m = (steps - 1) as nat;
        let p = q.run(graph, q.start(entry), m);
        run_is_thorough(q, graph, entry, good, n, m);
        run_is_sound(q, graph, entry, good, n, m);
        if !q.is_done(p) {
            popped_is_sound(q, p, good);
            let x = q.next(p);
            let list = graph(x);
            assert forall|i: int| 0 <= i < list.len() implies good(#[trigger] list[i]) by {
                assert(good(graph(x)[i]));
            }
            let b = Beam { open: p.open.drop_first(), ..p };
            assert forall|y: u32| #[trigger] b.seen.contains(y) && y != x implies b.open.contains(
                q.candidate(y),
            ) || is_exhausted(q, graph, b, y) || is_beyond(q, b, (q.key)(y)) by {
                assert(p.seen.contains(y));
                if p.open.contains(q.candidate(y)) {
                    let j = choose|j: int| 0 <= j < p.open.len() && p.open[j] == q.candidate(y);
                    candidate_is_exact(q, y);
                    candidate_is_exact(q, x);
                    assert(j > 0);
                    assert(b.open[j - 1] == q.candidate(y));
                } else if is_exhausted(q, graph, p, y) {
                    assert forall|i: int| 0 <= i < graph(y).len() implies b.seen.contains(
                        #[trigger] graph(y)[i],
                    ) || q.exclude == Some(graph(y)[i]) by {
                        assert(p.seen.contains(graph(y)[i]) || q.exclude == Some(graph(y)[i]));
                    }
                }
            }
            offers_are_thorough(q, graph, b, list, list.len() as int, good, x);
            assert(is_exhausted(q, graph, r, x)) by {
                assert forall|i: int| 0 <= i < graph(x).len() implies r.seen.contains(
                    #[trigger] graph(x)[i],
                ) || q.exclude == Some(graph(x)[i]) by {
                    assert(r.seen.contains(list[i]) || q.exclude == Some(list[i]));
                }
            }
        }
    }
}

/// A search sees all neighbors of each node that it saw and that is nearer than the worst result,
/// and of every node that it saw if it has room for more results.
pub proof fn search_is_thorough(
    q: Quest,
    graph: spec_fn(u32) -> Seq<u32>,
    entry: Seq<u32>,
    good: spec_fn(u32) -> bool,
    n: int,
    x: u32,
)
    requires
        has_numbers(q, good),
        q.ef >= 1,
        n >= 0,
        is_closed(graph, good, n),
        all_good(entry, good),
        q.outcome(graph, entry).seen.contains(x),
        !is_beyond(q, q.outcome(graph, entry), (q.key)(x)),
    ensures
        is_exhausted(q, graph, q.outcome(graph, entry), x),
{
    search_ends(q, graph, entry, good, n);
    let r = q.outcome(graph, entry);
    let steps = choose|steps: nat| r == #[trigger] q.run(graph, q.start(entry), steps);
    run_is_thorough(q, graph, entry, good, n, steps);
    if r.open.contains(q.candidate(x)) {
        let j = choose|j: int| 0 <= j < r.open.len() && r.open[j] == q.candidate(x);
        let o = r.open[0];
        assert(r.open.contains(o));
        let y = choose|y: u32| r.seen.contains(y) && o == #[trigger] q.candidate(y);
        candidate_is_exact(q, y);
        candidate_is_exact(q, x);
        assert(good(x) && good(y));
        assert(r.open[0] <= r.open[j]);
        order_of_keys(q, y, x, q.worst(r));
        assert(q.is_done(r));
    }
}

/// A node is among results.
pub open spec fn has_node(r: Seq<u128>, x: u32) -> bool {
    exists|j: int| 0 <= j < r.len() && id_in(#[trigger] r[j]) == x
}

/// A node is among `k` results, or these are full and it is no nearer than the last.
pub open spec fn has_or_no_nearer(r: Seq<u128>, k: int, key: spec_fn(int) -> u32, x: u32) -> bool {
    has_node(r, x) || r.len() == k && !lt(key(x as int), key(id_in(r.last()) as int))
}

/// No neighbor of a result is forgotten: of a result that is nearer than the last, or of any if
/// there are fewer than `k`, each neighbor in the lowest layer that passes is a result itself, or
/// there are `k` and it is no nearer than the last.
pub proof fn results_are_closed(
    v: HnswView,
    query: Seq<u32>,
    k: int,
    filter: Option<Seq<bool>>,
    x: u32,
    y: u32,
)
    requires
        v.fits(),
        k >= 1,
        forall|i: int| 0 <= i < v.len() ==> !nan(#[trigger] keys_for(v, query)(i)),
        ({
            let r = v.nearest(query, k, k, filter);
            has_node(r, x) && (r.len() < k || lt(
                keys_for(v, query)(x as int),
                keys_for(v, query)(id_in(r.last()) as int),
            ))
        }),
        neighbors(v, x, 0).contains(y),
        let_pass(filter)(y as int),
    ensures
        has_or_no_nearer(v.nearest(query, k, k, filter), k, keys_for(v, query), y),
{
    let q = v.quest(query, k, k, filter);
    let graph = adjacency(v.links, 0);
    let entry = seq![v.start(query)];
    let good = nodes(v);
    let n = v.len();
    let key = keys_for(v, query);
    let r = v.nearest(query, k, k, filter);
    start_is_a_node(v, query);
    layers_are_closed(v.levels, v.params.m as int, v.links, 0);
    assert(has_numbers(q, good)) by {
        assert forall|i: u32| good(i) implies !nan(#[trigger] (q.key)(i)) by {
            assert(!nan(key(i as int)));
        }
    }
    search_ends(q, graph, entry, good, n);
    let b = v.explored(query, k, k, filter);
    assert(r == b.best);
    let j = choose|j: int| 0 <= j < r.len() && id_in(#[trigger] r[j]) == x;
    assert(b.best.contains(r[j]));
    let x1 = choose|i: u32| b.seen.contains(i) && r[j] == #[trigger] q.candidate(i);
    candidate_is_exact(q, x1);
    assert(x1 == x);
    assert(b.best.contains(r.last()));
    let z = choose|i: u32| b.seen.contains(i) && r.last() == #[trigger] q.candidate(i);
    candidate_is_exact(q, z);
    assert(q.worst(b) == key(id_in(r.last()) as int));
    assert((q.key)(x) == key(x as int));
    search_is_thorough(q, graph, entry, good, n, x);
    assert(good(x));
    assert(node_fits(v.levels, v.params.m as int, x as int, v.links[x as int]));
    let list = neighbors(v, x, 0);
    assert(list == graph(x));
    let i = choose|i: int| 0 <= i < list.len() && list[i] == y;
    assert(b.seen.contains(graph(x)[i]));
    assert((q.passes)(y as int));
    results_are_the_best_seen(q, graph, entry, good, n);
    assert(is_result_or_worse(q, b, y));
    assert((q.key)(y) == key(y as int));
    if b.best.contains(q.candidate(y)) {
        candidate_is_exact(q, y);
        let p = choose|p: int| 0 <= p < r.len() && r[p] == q.candidate(y);
        assert(id_in(r[p]) == y);
    }
}

/// The place where a search of the lowest layer starts is a result, or no nearer than the last.
pub proof fn start_is_not_forgotten(
    v: HnswView,
    query: Seq<u32>,
    k: int,
    filter: Option<Seq<bool>>,
)
    requires
        v.fits(),
        v.entry is Some,
        k >= 1,
        forall|i: int| 0 <= i < v.len() ==> !nan(#[trigger] keys_for(v, query)(i)),
        let_pass(filter)(v.explored(query, k, k, filter).seen[0] as int),
    ensures
        has_or_no_nearer(
            v.nearest(query, k, k, filter),
            k,
            keys_for(v, query),
            v.explored(query, k, k, filter).seen[0],
        ),
{
    let q = v.quest(query, k, k, filter);
    let graph = adjacency(v.links, 0);
    let entry = seq![v.start(query)];
    let good = nodes(v);
    let n = v.len();
    let key = keys_for(v, query);
    let r = v.nearest(query, k, k, filter);
    start_is_a_node(v, query);
    layers_are_closed(v.levels, v.params.m as int, v.links, 0);
    assert(has_numbers(q, good)) by {
        assert forall|i: u32| good(i) implies !nan(#[trigger] (q.key)(i)) by {
            assert(!nan(key(i as int)));
        }
    }
    search_ends(q, graph, entry, good, n);
    results_are_the_best_seen(q, graph, entry, good, n);
    let b = v.explored(query, k, k, filter);
    let steps = choose|steps: nat| b == #[trigger] q.run(graph, q.start(entry), steps);
    assert(q.start(entry).seen == entry) by {
        reveal_with_fuel(Quest::seeded_with, 2);
    }
    crate::walking::run_keeps_first(q, graph, q.start(entry), steps);
    let y = b.seen[0];
    assert(b.seen.contains(y));
    assert((q.passes)(y as int));
    assert(is_result_or_worse(q, b, y));
    assert((q.key)(y) == key(y as int));
    if b.best.contains(q.candidate(y)) {
        candidate_is_exact(q, y);
        let p = choose|p: int| 0 <= p < r.len() && r[p] == q.candidate(y);
        assert(id_in(r[p]) == y);
    } else {
        assert(b.best.contains(r.last()));
        let z = choose|i: u32| b.seen.contains(i) && r.last() == #[trigger] q.candidate(i);
        candidate_is_exact(q, z);
    }
}

/// A search that keeps more candidates than it returns results returns the first of what a search
/// for as many returns.
pub proof fn fewer_results_are_the_first(
    v: HnswView,
    query: Seq<u32>,
    k: int,
    ef: int,
    filter: Option<Seq<bool>>,
)
    requires
        v.fits(),
        0 <= k <= ef,
    ensures
        ({
            let few = v.nearest(query, k, ef, filter);
            let all = v.nearest(query, ef, ef, filter);
            few == if all.len() <= k {
                all
            } else {
                all.take(k)
            }
        }),
{
    let all = v.nearest(query, ef, ef, filter);
    if v.entry is Some {
        let q = v.quest(query, ef, ef, filter);
        let graph = adjacency(v.links, 0);
        start_is_a_node(v, query);
        layers_are_closed(v.levels, v.params.m as int, v.links, 0);
        search_ends(q, graph, seq![v.start(query)], nodes(v), v.len());
    }
}

/// A search that is to keep fewer candidates than results keeps as many as results.
pub proof fn narrow_searches_agree(
    v: HnswView,
    query: Seq<u32>,
    k: int,
    ef: int,
    filter: Option<Seq<bool>>,
)
    requires
        0 <= ef <= k,
    ensures
        v.nearest(query, k, ef, filter) == v.nearest(query, k, k, filter),
{
}

} // verus!
