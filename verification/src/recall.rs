//! What a search in a graph index returns.

use vstd::prelude::*;
use crate::beam::{candidate_is_exact, first_contains};
use crate::binary32::{all_finite, lt, nan};
use crate::distance::natural_of;
use crate::exactness::{flat_l2_keys_are_natural, is_rank, reported_in_order};
use crate::exploration::{
    all_good, has_numbers, is_result_or_worse, order_of_keys, results_are_the_best_seen,
    search_ends,
};
use crate::geometry::is_natural;
use crate::graph::{adjacency, node_key};
use crate::hnsw::{
    all_have_room, even_place, even_place_fits, evenly, have_room, total, total_of_all, HnswView,
};
use crate::integral::added_up;
use crate::linking::{landing_stays, layers_are_closed};
use crate::metric::Metric;
use crate::ranked::{ascending, first, id_in, key_in};
use crate::rows::passes;
use crate::topk::{distance_reported, reports};
use crate::wiring::{layer_nodes, list_fits, node_fits, sits_at};

verus! {

/// Neighbors are other nodes, and reach up to the layer in which they are neighbors.
pub proof fn links_stay_in_their_layer(v: HnswView, node: int, layer: int, i: int)
    requires
        v.fits(),
        0 <= node < v.len(),
        0 <= layer < v.links[node].len(),
        0 <= i < v.links[node][layer].len(),
    ensures
        layer <= v.levels[node],
        v.links[node][layer][i] != node,
        v.links[node][layer][i] < v.len(),
        v.levels[v.links[node][layer][i] as int] >= layer,
{
    let m = v.params.m as int;
    assert(node_fits(v.levels, m, node, v.links[node]));
    let list = v.links[node][layer];
    assert(list_fits(v.levels, m, node, layer, list));
    assert(list[i] != node && sits_at(v.levels, list[i], layer));
}

/// The nodes that can be searched.
pub open spec fn nodes(v: HnswView) -> spec_fn(u32) -> bool {
    layer_nodes(v.levels, 0)
}

/// A search starts from a node.
pub proof fn start_is_a_node(v: HnswView, query: Seq<u32>)
    requires
        v.fits(),
        v.entry is Some,
    ensures
        v.start(query) < v.len(),
        nodes(v)(v.start(query)),
        all_good(seq![v.start(query)], nodes(v)),
{
    landing_stays(
        node_key(v.store, query),
        None,
        v.levels,
        v.params.m as int,
        v.links,
        v.max_level as int,
        1,
        v.entry->0,
    );
}

/// The results are at most `k` stored vectors, none twice, nearest first; each comes with its
/// key, and passes the filter.
pub proof fn results_are_stored_vectors(
    v: HnswView,
    query: Seq<u32>,
    k: int,
    ef: int,
    filter: Option<Seq<bool>>,
)
    requires
        v.fits(),
        k >= 0,
        ef >= 0,
    ensures
        ({
            let r = v.nearest(query, k, ef, filter);
            &&& r.len() <= k
            &&& ascending(r)
            &&& r.no_duplicates()
            &&& forall|j: int| #![trigger r[j]]
                0 <= j < r.len() ==> {
                    &&& is_rank(r[j])
                    &&& id_in(r[j]) < v.len()
                    &&& key_in(r[j]) == v.store.keys(query)(id_in(r[j]) as int)
                    &&& passes(filter)(id_in(r[j]) as int)
                }
        }),
{
    let r = v.nearest(query, k, ef, filter);
    if v.entry is Some {
        let q = v.quest(query, k, ef, filter);
        let graph = adjacency(v.links, 0);
        let entry = seq![v.start(query)];
        start_is_a_node(v, query);
        layers_are_closed(v.levels, v.params.m as int, v.links, 0);
        search_ends(q, graph, entry, nodes(v), v.len());
        let b = v.explored(query, k, ef, filter);
        assert forall|j: int| #![trigger r[j]] 0 <= j < r.len() implies {
            &&& is_rank(r[j])
            &&& id_in(r[j]) < v.len()
            &&& key_in(r[j]) == v.store.keys(query)(id_in(r[j]) as int)
            &&& passes(filter)(id_in(r[j]) as int)
        } by {
            assert(r.contains(r[j]));
            first_contains(b.best, k, r[j]);
            let id = choose|id: u32| b.seen.contains(id) && r[j] == #[trigger] q.candidate(id);
            candidate_is_exact(q, id);
            assert(nodes(v)(id));
        }
    }
}

/// No key of a stored vector is a NaN.
pub open spec fn keys_are_numbers(v: HnswView, query: Seq<u32>) -> bool {
    forall|i: int| 0 <= i < v.len() ==> !nan(#[trigger] v.store.keys(query)(i))
}

/// Where vectors and query are finite, squared distances are numbers.
pub proof fn l2_keys_are_numbers(v: HnswView, query: Seq<u32>)
    requires
        v.fits(),
        v.store.metric == Metric::L2,
        all_finite(v.store.data),
        all_finite(query),
        query.len() == v.store.dim,
    ensures
        keys_are_numbers(v, query),
{
    flat_l2_keys_are_natural(v.store, query);
    assert forall|i: int| 0 <= i < v.len() implies !nan(#[trigger] v.store.keys(query)(i)) by {
        assert(is_natural(v.store.keys(query)(i)));
    }
}

/// A node is among the results, or there are `k` of them and it is no nearer than the last.
pub open spec fn is_found_or_no_nearer(
    v: HnswView,
    query: Seq<u32>,
    k: int,
    ef: int,
    filter: Option<Seq<bool>>,
    id: u32,
) -> bool {
    let r = v.nearest(query, k, ef, filter);
    let c = v.quest(query, k, ef, filter).candidate(id);
    r.contains(c) || (r.len() == k && !lt(v.store.keys(query)(id as int), key_in(r.last())))
}

/// Among the nodes that a search sees and that pass, the results are the nearest.
pub proof fn results_are_the_nearest_seen(
    v: HnswView,
    query: Seq<u32>,
    k: int,
    ef: int,
    filter: Option<Seq<bool>>,
    id: u32,
)
    requires
        v.fits(),
        v.entry is Some,
        keys_are_numbers(v, query),
        k >= 1,
        ef >= 0,
        v.explored(query, k, ef, filter).seen.contains(id),
        passes(filter)(id as int),
    ensures
        is_found_or_no_nearer(v, query, k, ef, filter, id),
{
    let q = v.quest(query, k, ef, filter);
    let graph = adjacency(v.links, 0);
    let entry = seq![v.start(query)];
    let good = nodes(v);
    start_is_a_node(v, query);
    layers_are_closed(v.levels, v.params.m as int, v.links, 0);
    assert(has_numbers(q, good)) by {
        assert forall|i: u32| good(i) implies !nan(#[trigger] (q.key)(i)) by {
            assert(!nan(v.store.keys(query)(i as int)));
        }
    }
    results_are_the_best_seen(q, graph, entry, good, v.len());
    search_ends(q, graph, entry, good, v.len());
    let b = v.explored(query, k, ef, filter);
    let r = first(b.best, k);
    let c = q.candidate(id);
    assert(is_result_or_worse(q, b, id));
    assert(good(id));
    if b.best.contains(c) {
        let i = choose|i: int| 0 <= i < b.best.len() && b.best[i] == c;
        if i < k {
            assert(r[i] == c);
        } else {
            let w = b.best[k - 1];
            assert(b.best.contains(w));
            let y = choose|y: u32| b.seen.contains(y) && w == #[trigger] q.candidate(y);
            candidate_is_exact(q, y);
            assert(good(y));
            order_of_keys(q, y, id, 0);
        }
    } else {
        let w = b.best[k - 1];
        let z = b.best.last();
        assert(b.best.contains(w));
        assert(b.best.contains(z));
        let y = choose|y: u32| b.seen.contains(y) && w == #[trigger] q.candidate(y);
        let x = choose|x: u32| b.seen.contains(x) && z == #[trigger] q.candidate(x);
        candidate_is_exact(q, y);
        candidate_is_exact(q, x);
        assert(good(y) && good(x));
        assert(b.best[k - 1] <= b.best[b.best.len() - 1]);
        order_of_keys(q, y, x, (q.key)(id));
    }
}

/// A search for finite vectors by distance reports distances in ascending order.
pub proof fn hnsw_distances_ascend(
    v: HnswView,
    query: Seq<u32>,
    k: int,
    ef: int,
    filter: Option<Seq<bool>>,
    i: int,
    j: int,
)
    requires
        v.fits(),
        v.store.metric == Metric::L2,
        all_finite(v.store.data),
        all_finite(query),
        query.len() == v.store.dim,
        k >= 0,
        ef >= 0,
        0 <= i <= j < v.nearest(query, k, ef, filter).len(),
    ensures
        ({
            let best = v.nearest(query, k, ef, filter);
            !lt(
                distance_reported(v.store.metric, best, j),
                distance_reported(v.store.metric, best, i),
            )
        }),
{
    let best = v.nearest(query, k, ef, filter);
    flat_l2_keys_are_natural(v.store, query);
    results_are_stored_vectors(v, query, k, ef, filter);
    assert(is_natural(v.store.keys(query)(id_in(best[i]) as int)));
    assert(is_natural(v.store.keys(query)(id_in(best[j]) as int)));
    reported_in_order(v.store.metric, best, i, j);
}

/// The steps of a search are at nodes of the layers that they name. There is a step for each
/// layer above the lowest, and at most `max_trace` more.
pub proof fn trace_names_nodes(
    v: HnswView,
    query: Seq<u32>,
    k: int,
    ef: int,
    max_trace: int,
    i: int,
)
    requires
        v.fits(),
        v.entry is Some,
        k >= 0,
        ef >= 0,
        max_trace >= 0,
        0 <= i < v.trace(query, k, ef, max_trace).len(),
    ensures
        ({
            let t = v.trace(query, k, ef, max_trace);
            let seen = v.explored(query, k, ef, None).seen;
            &&& t[i].1 < v.len()
            &&& t[i].0 <= v.levels[t[i].1 as int]
            &&& v.max_level <= t.len() <= v.max_level + max_trace
            &&& t.len() <= v.max_level + seen.len()
        }),
{
    let t = v.trace(query, k, ef, max_trace);
    let q = v.quest(query, k, ef, None);
    let seen = v.explored(query, k, ef, None).seen;
    start_is_a_node(v, query);
    layers_are_closed(v.levels, v.params.m as int, v.links, 0);
    search_ends(q, adjacency(v.links, 0), seq![v.start(query)], nodes(v), v.len());
    if i < v.max_level {
        landing_stays(
            node_key(v.store, query),
            None,
            v.levels,
            v.params.m as int,
            v.links,
            v.max_level as int,
            v.max_level - i,
            v.entry->0,
        );
    } else {
        let p = i - v.max_level;
        let at = if seen.len() <= max_trace {
            p
        } else {
            even_place_fits(p, seen.len() as int, max_trace);
            even_place(p, seen.len() as int, max_trace)
        };
        assert(evenly(seen, max_trace)[p] == seen[at]);
        assert(seen.contains(seen[at]));
        assert(nodes(v)(seen[at]));
    }
}

/// A traced search returns what a search reports, without the padding.
pub proof fn traced_results_are_the_results(
    v: HnswView,
    query: Seq<u32>,
    k: int,
    ef: int,
    results: Seq<(u32, u32)>,
    ids: Seq<i64>,
    dists: Seq<u32>,
    old_ids: Seq<i64>,
    old_dists: Seq<u32>,
    j: int,
)
    requires
        v.fits(),
        ef >= 0,
        ({
            let best = v.nearest(query, k, ef, None);
            &&& reports(v.store.metric, best, 0, k, ids, dists, old_ids, old_dists)
            &&& results == Seq::new(
                best.len(),
                |l: int| (id_in(best[l]) as u32, natural_of(v.store.metric, key_in(best[l]))),
            )
        }),
        0 <= j < k,
    ensures
        results.len() <= k,
        j < results.len() ==> ids[j] == results[j].0 && dists[j] == results[j].1,
        j >= results.len() ==> ids[j] == -1,
{
    let best = v.nearest(query, k, ef, None);
    results_are_stored_vectors(v, query, k, ef, None);
    if j < best.len() {
        assert(id_in(best[j]) < v.len());
    }
}

/// The entry point is a node that none is higher than.
pub proof fn entry_is_highest(v: HnswView, i: int)
    requires
        v.fits(),
        0 <= i < v.store.data.len() as int / v.store.dim,
    ensures
        v.entry is Some,
        v.entry->0 < v.levels.len(),
        v.levels[v.entry->0 as int] == v.max_level,
        v.levels[i] <= v.levels[v.entry->0 as int],
{
}

/// A node has a list for each layer up to its level, of no more neighbors than its share: twice
/// as many in the lowest layer as in the others.
pub proof fn lists_are_bounded(v: HnswView, node: int, layer: int)
    requires
        v.fits(),
        0 <= node < v.levels.len(),
        0 <= layer <= v.levels[node],
    ensures
        v.links.len() == v.levels.len(),
        v.links[node].len() == v.levels[node] + 1,
        v.links[node][layer].len() <= v.params.m * if layer == 0 {
            2int
        } else {
            1
        },
{
    let m = v.params.m as int;
    assert(node_fits(v.levels, m, node, v.links[node]));
    assert(list_fits(v.levels, m, node, layer, v.links[node][layer]));
}

/// A sample of a sequence is all of it where there is room, and else the elements at places that
/// are spread evenly: of `cap` places the `i`th is `i` parts in `cap - 1` of the way.
pub proof fn samples_are_spread(s: Seq<u32>, cap: int, i: int)
    requires
        0 <= i < cap,
    ensures
        s.len() <= cap ==> evenly(s, cap) == s,
        s.len() > cap ==> evenly(s, cap).len() == cap && ({
            let place = i * (s.len() - 1) / if cap > 1 {
                cap - 1
            } else {
                1
            };
            0 <= place < s.len() && evenly(s, cap)[i] == s[place]
        }),
{
    if s.len() > cap {
        even_place_fits(i, s.len() as int, cap);
    }
}

/// The memory of a graph index has room for all its vectors and all its neighbors.
pub proof fn memory_has_room(v: HnswView, rooms: Seq<Seq<usize>>)
    requires
        all_have_room(rooms, v.links),
    ensures
        total_of_all(rooms, rooms.len() as int) >= added_up(
            |i: int| added_up(|l: int| v.links[i][l].len() as int, v.links[i].len() as int),
            v.links.len() as int,
        ),
{
    rooms_are_enough(v.links, rooms, rooms.len() as int);
}

proof fn rooms_are_enough(links: Seq<Seq<Seq<u32>>>, rooms: Seq<Seq<usize>>, n: int)
    requires
        all_have_room(rooms, links),
        0 <= n <= rooms.len(),
    ensures
        total_of_all(rooms, n) >= added_up(
            |i: int| added_up(|l: int| links[i][l].len() as int, links[i].len() as int),
            n,
        ),
    decreases n,
{
    if n > 0 {
        rooms_are_enough(links, rooms, n - 1);
        assert(have_room(rooms[n - 1], links[n - 1]));
        room_is_enough(links[n - 1], rooms[n - 1], rooms[n - 1].len() as int);
    }
}

proof fn room_is_enough(lists: Seq<Seq<u32>>, room: Seq<usize>, n: int)
    requires
        have_room(room, lists),
        0 <= n <= room.len(),
    ensures
        total(room, n) >= added_up(|l: int| lists[l].len() as int, n),
    decreases n,
{
    if n > 0 {
        room_is_enough(lists, room, n - 1);
        assert(lists[n - 1].len() <= room[n - 1]);
    }
}

} // verus!
