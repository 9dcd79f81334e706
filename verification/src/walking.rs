//! How a search comes down through the layers, said of nothing but links and keys.

use vstd::prelude::*;
use crate::arith::root;
use crate::binary32::{lt, opposite, place};
use crate::beam::{candidate_is_exact, first_contains, popped_is_sound, Beam, Quest};
use crate::descent::{descended, nearer, step, step_is_nearest};
use crate::exploration::{all_good, is_closed, push_contains, run_is_sound, search_ends};
use crate::graph::{adjacency, node_key};
use crate::hnsw::{even_place_fits, evenly, sample_is_capped, HnswView};
use crate::linking::{landing_stays, layers_are_closed};
use crate::metric::Metric;
use crate::ranked::id_in;
use crate::recall::{nodes, start_is_a_node};
use crate::searching::flat_key;
use crate::wiring::{landing, landing_in_parts, layer_nodes, node_fits, sits_at};

verus! {

/// How near each node is to a query.
pub open spec fn keys_for(v: HnswView, query: Seq<u32>) -> spec_fn(int) -> u32 {
    flat_key(v.store, query)
}

/// The neighbors of a node in a layer.
pub open spec fn neighbors(v: HnswView, node: u32, layer: int) -> Seq<u32> {
    v.links[node as int][layer]
}

/// `y` is the first of the neighbors of `x` in a layer that no other is nearer than, and it is
/// nearer than `x`.
pub open spec fn is_step(v: HnswView, key: spec_fn(int) -> u32, layer: int, x: u32, y: u32) -> bool {
    let list = neighbors(v, x, layer);
    &&& lt(key(y as int), key(x as int))
    &&& exists|i: int| 0 <= i < list.len() && #[trigger] list[i] == y && forall|j: int|
        0 <= j < i ==> !lt(key(#[trigger] list[j] as int), key(y as int)) && place(
            key(list[j] as int),
        ) != place(key(y as int))
    &&& forall|j: int|
        0 <= j < list.len() ==> !lt(key(#[trigger] list[j] as int), key(y as int))
}

/// A way through a layer on which each node is the nearest neighbor of the one before, and
/// nearer than that; no neighbor of the last is nearer than the last.
pub open spec fn is_greedy(
    v: HnswView,
    key: spec_fn(int) -> u32,
    layer: int,
    way: Seq<u32>,
) -> bool {
    &&& way.len() > 0
    &&& forall|i: int|
        0 < i < way.len() ==> is_step(v, key, layer, way[i - 1], #[trigger] way[i])
    &&& forall|j: int|
        0 <= j < neighbors(v, way.last(), layer).len() ==> !lt(
            key(#[trigger] neighbors(v, way.last(), layer)[j] as int),
            key(way.last() as int),
        )
}

/// A greedy way leads from one node to another.
pub open spec fn leads_down(
    v: HnswView,
    key: spec_fn(int) -> u32,
    layer: int,
    from: u32,
    to: u32,
) -> bool {
    exists|way: Seq<u32>| #[trigger]
        is_greedy(v, key, layer, way) && way[0] == from && way.last() == to
}

/// Where one look around comes from.
proof fn look_is_first(key: spec_fn(u32) -> u32, list: Seq<u32>, n: int, at: u32)
    requires
        0 <= n <= list.len(),
    ensures
        ({
            let r = nearer(key, None, list, n, at);
            &&& r == at || lt(key(r), key(at)) && exists|i: int|
                0 <= i < n && #[trigger] list[i] == r && forall|j: int|
                    0 <= j < i ==> !lt(key(#[trigger] list[j]), key(r)) && place(key(list[j]))
                        != place(key(r))
            &&& forall|j: int| 0 <= j < n ==> !lt(key(#[trigger] list[j]), key(r))
        }),
    decreases n,
{
    if n > 0 {
        look_is_first(key, list, n - 1, at);
        let p = nearer(key, None, list, n - 1, at);
        let r = nearer(key, None, list, n, at);
        if lt(key(list[n - 1]), key(p)) {
            assert(list[n - 1] == r);
            assert forall|j: int| 0 <= j < n - 1 implies !lt(key(#[trigger] list[j]), key(r))
                && place(key(list[j])) != place(key(r)) by {
                assert(!lt(key(list[j]), key(p)));
            }
        } else if r != at {
            let i = choose|i: int|
                0 <= i < n - 1 && #[trigger] list[i] == r && forall|j: int|
                    0 <= j < i ==> !lt(key(#[trigger] list[j]), key(r)) && place(key(list[j]))
                        != place(key(r));
            assert(list[i] == r);
        }
    }
}

/// A descent is greedy.
#[verifier::rlimit(40)]
proof fn descent_is_greedy(
    v: HnswView,
    query: Seq<u32>,
    layer: int,
    at: u32,
)
    requires
        v.fits(),
        layer >= 0,
        sits_at(v.levels, at, layer),
    ensures
        leads_down(
            v,
            keys_for(v, query),
            layer,
            at,
            descended(node_key(v.store, query), None, adjacency(v.links, layer), at),
        ),
    decreases place(node_key(v.store, query)(at)) + 0x8000_0000,
{
    let key = keys_for(v, query);
    let nk = node_key(v.store, query);
    let graph = adjacency(v.links, layer);
    let list = graph(at);
    let m = v.params.m as int;
    assert(node_fits(v.levels, m, at as int, v.links[at as int]));
    assert(list == neighbors(v, at, layer));
    assert forall|x: u32| #[trigger] nk(x) == key(x as int) by {}
    let next = step(nk, None, list, at);
    look_is_first(nk, list, list.len() as int, at);
    step_is_nearest(nk, None, list, list.len() as int, at);
    if lt(nk(next), nk(at)) {
        layers_are_closed(v.levels, m, v.links, layer);
        let i = choose|i: int| 0 <= i < list.len() && list[i] == next;
        assert(layer_nodes(v.levels, layer)(at));
        assert(layer_nodes(v.levels, layer)(graph(at)[i]));
        descent_is_greedy(v, query, layer, next);
        let to = descended(nk, None, graph, next);
        let rest = choose|way: Seq<u32>| #[trigger]
            is_greedy(v, key, layer, way) && way[0] == next && way.last() == to;
        let way = seq![at] + rest;
        assert(is_step(v, key, layer, at, next)) by {
            let i = choose|i: int|
                0 <= i < list.len() && #[trigger] list[i] == next && forall|j: int|
                    0 <= j < i ==> !lt(nk(#[trigger] list[j]), nk(next)) && place(nk(list[j]))
                        != place(nk(next));
            assert(list[i] == next);
            assert forall|j: int| 0 <= j < i implies !lt(
                key(#[trigger] list[j] as int),
                key(next as int),
            ) && place(key(list[j] as int)) != place(key(next as int)) by {
                assert(!lt(nk(list[j]), nk(next)));
            }
            assert forall|j: int| 0 <= j < list.len() implies !lt(
                key(#[trigger] list[j] as int),
                key(next as int),
            ) by {
                assert(!lt(nk(list[j]), nk(next)));
            }
        }
        assert forall|i: int| 0 < i < way.len() implies is_step(
            v,
            key,
            layer,
            way[i - 1],
            #[trigger] way[i],
        ) by {
            if i > 1 {
                assert(rest[i - 1] == way[i]);
                assert(is_step(v, key, layer, rest[i - 2], rest[i - 1]));
            }
        }
        assert(way.last() == rest.last());
        assert(is_greedy(v, key, layer, way));
        assert(way[0] == at);
    } else {
        let way = seq![at];
        assert forall|j: int| 0 <= j < neighbors(v, way.last(), layer).len() implies !lt(
            key(#[trigger] neighbors(v, way.last(), layer)[j] as int),
            key(way.last() as int),
        ) by {
            assert(!lt(nk(list[j]), nk(next)));
        }
        assert(is_greedy(v, key, layer, way));
    }
}

/// How near something with a key is reported to be.
pub open spec fn as_reported(metric: Metric, key: u32) -> u32 {
    match metric {
        Metric::L2 => root(key),
        Metric::InnerProduct => opposite(key),
    }
}

/// Where step `i` of the descent begins: at the entry point, or where the step before ended.
pub open spec fn step_begins(v: HnswView, trace: Seq<(u32, u32, u32)>, i: int) -> u32 {
    if i <= 0 {
        v.entry->0
    } else {
        trace[i - 1].1
    }
}

/// A search comes down greedily. Each step of the trace names a layer, from the highest down to
/// the one above the lowest, and the node that a greedy way through that layer leads to, from
/// where the step above ended, with its distance. The lowest layer is explored from where the
/// last step ended: that is the first node seen there.
#[verifier::rlimit(40)]
pub proof fn descent_comes_down(
    v: HnswView,
    query: Seq<u32>,
    k: int,
    ef: int,
    max_trace: int,
)
    requires
        v.fits(),
        v.entry is Some,
        k >= 0,
        ef >= 0,
        max_trace >= 0,
    ensures
        ({
            let t = v.trace(query, k, ef, max_trace);
            let key = keys_for(v, query);
            let top = v.max_level as int;
            let seen = v.explored(query, k, ef, None).seen;
            &&& t.len() >= top
            &&& forall|i: int|
                0 <= i < top ==> {
                    &&& (#[trigger] t[i]).0 == top - i
                    &&& leads_down(v, key, top - i, step_begins(v, t, i), t[i].1)
                    &&& t[i].2 == as_reported(v.store.metric, key(t[i].1 as int))
                }
            &&& seen.len() > 0 && seen[0] == step_begins(v, t, top)
            &&& max_trace > 0 ==> t.len() > top && t[top] == (
                0u32,
                step_begins(v, t, top),
                as_reported(v.store.metric, key(step_begins(v, t, top) as int)),
            )
        }),
{
    let t = v.trace(query, k, ef, max_trace);
    let nk = node_key(v.store, query);
    let key = keys_for(v, query);
    let top = v.max_level as int;
    let entry = v.entry->0;
    let m = v.params.m as int;
    assert forall|i: int| 0 <= i < top implies {
        &&& (#[trigger] t[i]).0 == top - i
        &&& leads_down(v, key, top - i, step_begins(v, t, i), t[i].1)
        &&& t[i].2 == as_reported(v.store.metric, key(t[i].1 as int))
    } by {
        let layer = top - i;
        let from = landing(nk, None, v.links, top, layer + 1, entry);
        assert(t[i] == v.descent_step(query, i));
        if i > 0 {
            assert(t[i - 1] == v.descent_step(query, i - 1));
        }
        assert(from == step_begins(v, t, i));
        landing_in_parts(nk, None, v.links, top, layer, layer, entry);
        landing_stays(nk, None, v.levels, m, v.links, top, layer + 1, entry);
        descent_is_greedy(v, query, layer, from);
        let to = descended(nk, None, adjacency(v.links, layer), from);
        assert(landing(nk, None, v.links, layer - 1, layer, to) == to);
        assert(landing(nk, None, v.links, layer, layer, from) == to);
    }
    let q = v.quest(query, k, ef, None);
    let start = v.start(query);
    start_is_a_node(v, query);
    layers_are_closed(v.levels, m, v.links, 0);
    search_ends(q, adjacency(v.links, 0), seq![start], nodes(v), v.len());
    let b = v.explored(query, k, ef, None);
    let steps = choose|steps: nat| b == #[trigger] q.run(
        adjacency(v.links, 0),
        q.start(seq![start]),
        steps,
    );
    assert(q.start(seq![start]).seen == seq![start]) by {
        reveal_with_fuel(Quest::seeded_with, 2);
    }
    run_keeps_first(q, adjacency(v.links, 0), q.start(seq![start]), steps);
    if top > 0 {
        assert(t[top - 1] == v.descent_step(query, top - 1));
    }
    assert(start == step_begins(v, t, top));
    if max_trace > 0 {
        sample_is_capped(b.seen, max_trace);
        let seen = evenly(b.seen, max_trace);
        assert(seen[0] == start);
        assert(t[top] == v.sight(query, seen[0]));
    }
}

proof fn offers_keep_first(
    q: Quest,
    b: Beam,
    list: Seq<u32>,
    n: int,
)
    requires
        b.seen.len() > 0,
    ensures
        q.offered_all(b, list, n).seen.len() > 0,
        q.offered_all(b, list, n).seen[0] == b.seen[0],
    decreases n,
{
    if n > 0 {
        offers_keep_first(q, b, list, n - 1);
    }
}

/// The first node that was seen stays the first.
pub proof fn run_keeps_first(
    q: Quest,
    graph: spec_fn(u32) -> Seq<u32>,
    b: Beam,
    steps: nat,
)
    requires
        b.seen.len() > 0,
    ensures
        q.run(graph, b, steps).seen.len() > 0,
        q.run(graph, b, steps).seen[0] == b.seen[0],
    decreases steps,
{
    if steps > 0 {
        run_keeps_first(q, graph, b, (steps - 1) as nat);
        let p = q.run(graph, b, (steps - 1) as nat);
        if !q.is_done(p) {
            let list = graph(q.next(p));
            offers_keep_first(
                q,
                Beam { open: p.open.drop_first(), ..p },
                list,
                list.len() as int,
            );
        }
    }
}

/// A node that was seen is a neighbor of one seen before.
pub open spec fn is_met(graph: spec_fn(u32) -> Seq<u32>, seen: Seq<u32>, i: int) -> bool {
    exists|j: int| 0 <= j < i && #[trigger] graph(seen[j]).contains(seen[i])
}

/// Each node that was seen but the first is a neighbor of one seen before.
pub open spec fn are_met(graph: spec_fn(u32) -> Seq<u32>, seen: Seq<u32>) -> bool {
    forall|i: int| 0 < i < seen.len() ==> #[trigger] is_met(graph, seen, i)
}

proof fn one_more_is_met(graph: spec_fn(u32) -> Seq<u32>, seen: Seq<u32>, x: u32, y: u32)
    requires
        are_met(graph, seen),
        seen.contains(x),
        graph(x).contains(y),
    ensures
        are_met(graph, seen.push(y)),
{
    let r = seen.push(y);
    let at = choose|at: int| 0 <= at < seen.len() && seen[at] == x;
    assert forall|i: int| 0 < i < r.len() implies #[trigger] is_met(graph, r, i) by {
        if i < seen.len() {
            assert(is_met(graph, seen, i));
            let j = choose|j: int| 0 <= j < i && #[trigger] graph(seen[j]).contains(seen[i]);
            assert(graph(r[j]).contains(r[i]));
        } else {
            assert(graph(r[at]).contains(r[i]));
        }
    }
}

proof fn offers_are_met(
    q: Quest,
    graph: spec_fn(u32) -> Seq<u32>,
    b: Beam,
    x: u32,
    n: int,
)
    requires
        are_met(graph, b.seen),
        b.seen.contains(x),
        0 <= n <= graph(x).len(),
    ensures
        are_met(graph, q.offered_all(b, graph(x), n).seen),
        q.offered_all(b, graph(x), n).seen.contains(x),
    decreases n,
{
    if n > 0 {
        offers_are_met(q, graph, b, x, n - 1);
        let p = q.offered_all(b, graph(x), n - 1);
        let y = graph(x)[n - 1];
        assert(graph(x).contains(y));
        one_more_is_met(graph, p.seen, x, y);
        push_contains(p.seen, y, x);
    }
}

proof fn run_is_met(
    q: Quest,
    graph: spec_fn(u32) -> Seq<u32>,
    entry: Seq<u32>,
    good: spec_fn(u32) -> bool,
    n: int,
    steps: nat,
)
    requires
        q.ef >= 0,
        is_closed(graph, good, n),
        all_good(entry, good),
        q.start(entry).seen.len() <= 1,
    ensures
        are_met(graph, q.run(graph, q.start(entry), steps).seen),
    decreases steps,
{
    if steps > 0 {
        run_is_met(q, graph, entry, good, n, (steps - 1) as nat);
        run_is_sound(q, graph, entry, good, n, (steps - 1) as nat);
        let p = q.run(graph, q.start(entry), (steps - 1) as nat);
        if !q.is_done(p) {
            popped_is_sound(q, p, good);
            let x = q.next(p);
            let b = Beam { open: p.open.drop_first(), ..p };
            assert(b.seen == p.seen);
            offers_are_met(q, graph, b, x, graph(x).len() as int);
        }
    }
}

/// A node that was seen in the lowest layer is a neighbor of one seen before.
pub open spec fn is_neighbor_of_seen(v: HnswView, seen: Seq<u32>, i: int) -> bool {
    exists|j: int| 0 <= j < i && #[trigger] neighbors(v, seen[j], 0).contains(seen[i])
}

/// A search sees nodes of the lowest layer once each, every one but the first as a neighbor of one
/// seen before, and all results are among them.
pub proof fn search_sees_neighbors(v: HnswView, query: Seq<u32>, k: int, ef: int)
    requires
        v.fits(),
        v.entry is Some,
        k >= 0,
        ef >= 0,
    ensures
        ({
            let seen = v.explored(query, k, ef, None).seen;
            let r = v.nearest(query, k, ef, None);
            &&& seen.no_duplicates()
            &&& forall|i: int| 0 < i < seen.len() ==> #[trigger] is_neighbor_of_seen(v, seen, i)
            &&& forall|j: int| 0 <= j < r.len() ==> seen.contains(id_in(#[trigger] r[j]) as u32)
        }),
{
    let q = v.quest(query, k, ef, None);
    let graph = adjacency(v.links, 0);
    let start = v.start(query);
    let entry = seq![start];
    let m = v.params.m as int;
    let r = v.nearest(query, k, ef, None);
    start_is_a_node(v, query);
    layers_are_closed(v.levels, m, v.links, 0);
    search_ends(q, graph, entry, nodes(v), v.len());
    let b = v.explored(query, k, ef, None);
    let seen = b.seen;
    let steps = choose|steps: nat| b == #[trigger] q.run(graph, q.start(entry), steps);
    assert(q.start(entry).seen == entry) by {
        reveal_with_fuel(Quest::seeded_with, 2);
    }
    run_is_met(q, graph, entry, nodes(v), v.len(), steps);
    assert forall|i: int| 0 < i < seen.len() implies #[trigger] is_neighbor_of_seen(v, seen, i) by {
        assert(is_met(graph, seen, i));
        let j = choose|j: int| 0 <= j < i && #[trigger] graph(seen[j]).contains(seen[i]);
        assert(seen.contains(seen[j]));
        assert(nodes(v)(seen[j]));
        assert(node_fits(v.levels, m, seen[j] as int, v.links[seen[j] as int]));
        assert(neighbors(v, seen[j], 0).contains(seen[i]));
    }
    assert forall|j: int| 0 <= j < r.len() implies seen.contains(id_in(#[trigger] r[j]) as u32) by {
        assert(r.contains(r[j]));
        first_contains(b.best, k, r[j]);
        let i = choose|i: u32| b.seen.contains(i) && r[j] == #[trigger] q.candidate(i);
        candidate_is_exact(q, i);
    }
}

/// The trace shows what was seen in the lowest layer in the order in which it was, with distances:
/// all if there is room, and else some that are spread evenly.
pub proof fn trace_shows_what_was_seen(
    v: HnswView,
    query: Seq<u32>,
    k: int,
    ef: int,
    max_trace: int,
    i: int,
)
    requires
        ({
            let seen = v.explored(query, k, ef, None).seen;
            0 <= i < max_trace && i < seen.len()
        }),
    ensures
        ({
            let t = v.trace(query, k, ef, max_trace);
            let top = v.max_level as int;
            let seen = v.explored(query, k, ef, None).seen;
            let place = if seen.len() <= max_trace {
                i
            } else {
                i * (seen.len() - 1) / if max_trace > 1 {
                    max_trace - 1
                } else {
                    1
                }
            };
            &&& t.len() == top + if seen.len() <= max_trace {
                seen.len() as int
            } else {
                max_trace
            }
            &&& 0 <= place < seen.len()
            &&& t[top + i] == (
                0u32,
                seen[place],
                as_reported(v.store.metric, keys_for(v, query)(seen[place] as int)),
            )
        }),
{
    let t = v.trace(query, k, ef, max_trace);
    let top = v.max_level as int;
    let seen = v.explored(query, k, ef, None).seen;
    let shown = evenly(seen, max_trace);
    assert(t[top + i] == v.sight(query, shown[i]));
    if seen.len() > max_trace {
        even_place_fits(i, seen.len() as int, max_trace);
    }
}

} // verus!
