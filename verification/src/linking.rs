//! What linking a node brings about.

use vstd::prelude::*;
use crate::beam::candidate_is_exact;
use crate::binary32::{lt, place};
use crate::descent::{descended, step, step_is_nearest};
use crate::exploration::{all_good, is_closed, search_ends, some_result_is_found};
use crate::flat::FlatView;
use crate::graph::{adjacency, node_key, quest};
use crate::rows::row;
use crate::select::{
    connected_is_bounded, ids, kept_is_diverse, selected, selected_are_candidates,
    selected_are_distinct,
};
use crate::wiring::{
    connected_at, connecting_fits, found, graph_fits, joined, landing, layer_nodes, linked,
    linked_below, list_fits, node_fits, share, sits_at,
};

verus! {

/// In a graph that fits, neighbors in a layer are nodes of the layer.
pub proof fn layers_are_closed(
    levels: Seq<usize>,
    m: int,
    links: Seq<Seq<Seq<u32>>>,
    layer: int,
)
    requires
        graph_fits(levels, m, links),
        layer >= 0,
    ensures
        is_closed(adjacency(links, layer), layer_nodes(levels, layer), levels.len() as int),
{
    let graph = adjacency(links, layer);
    let good = layer_nodes(levels, layer);
    assert forall|id: u32, i: int| good(id) && 0 <= i < graph(id).len() implies good(
        #[trigger] graph(id)[i],
    ) by {
        assert(node_fits(levels, m, id as int, links[id as int]));
        assert(list_fits(levels, m, id as int, layer, links[id as int][layer]));
        let list = links[id as int][layer];
        assert(graph(id) == list);
        assert(sits_at(levels, list[i], layer));
    }
}

/// A descent in a layer stays in it, and does not end at the node that is left out unless it
/// began there.
pub proof fn descent_stays(
    key: spec_fn(u32) -> u32,
    exclude: Option<u32>,
    levels: Seq<usize>,
    m: int,
    links: Seq<Seq<Seq<u32>>>,
    layer: int,
    at: u32,
)
    requires
        graph_fits(levels, m, links),
        layer >= 0,
        sits_at(levels, at, layer),
    ensures
        ({
            let r = descended(key, exclude, adjacency(links, layer), at);
            &&& sits_at(levels, r, layer)
            &&& exclude != Some(at) ==> exclude != Some(r)
        }),
    decreases place(key(at)) + 0x8000_0000,
{
    let graph = adjacency(links, layer);
    let next = step(key, exclude, graph(at), at);
    step_is_nearest(key, exclude, graph(at), graph(at).len() as int, at);
    if lt(key(next), key(at)) {
        layers_are_closed(levels, m, links, layer);
        let list = graph(at);
        let i = choose|i: int| 0 <= i < list.len() && list[i] == next;
        assert(layer_nodes(levels, layer)(at));
        assert(layer_nodes(levels, layer)(graph(at)[i]));
        descent_stays(key, exclude, levels, m, links, layer, next);
    }
}

/// A descent through layers ends at a node of the lowest of them.
pub proof fn landing_stays(
    key: spec_fn(u32) -> u32,
    exclude: Option<u32>,
    levels: Seq<usize>,
    m: int,
    links: Seq<Seq<Seq<u32>>>,
    top: int,
    bottom: int,
    at: u32,
)
    requires
        graph_fits(levels, m, links),
        bottom >= 0,
        sits_at(levels, at, top),
    ensures
        ({
            let r = landing(key, exclude, links, top, bottom, at);
            &&& sits_at(
                levels,
                r,
                if top >= bottom {
                    bottom
                } else {
                    top
                },
            )
            &&& exclude != Some(at) ==> exclude != Some(r)
        }),
    decreases top - bottom + 1,
{
    if top >= bottom {
        descent_stays(key, exclude, levels, m, links, top, at);
        let next = descended(key, exclude, adjacency(links, top), at);
        landing_stays(key, exclude, levels, m, links, top - 1, bottom, next);
    }
}

/// What a node finds in a layer are other nodes of the layer; it finds some if it starts from
/// another.
pub proof fn found_are_others(
    store: FlatView,
    levels: Seq<usize>,
    m: int,
    ef: int,
    links: Seq<Seq<Seq<u32>>>,
    id: u32,
    layer: int,
    entries: Seq<u32>,
)
    requires
        graph_fits(levels, m, links),
        layer >= 0,
        ef >= 1,
        all_good(entries, layer_nodes(levels, layer)),
    ensures
        ({
            let best = found(store, ef, links, id, layer, entries);
            &&& forall|i: int|
                0 <= i < best.len() ==> (#[trigger] ids(best)[i]) != id && sits_at(
                    levels,
                    ids(best)[i],
                    layer,
                )
            &&& ids(best).no_duplicates()
            &&& entries.len() > 0 && entries[0] != id ==> best.len() > 0
        }),
{
    let q = quest(store, row(store.data, store.dim, id as int), None, Some(id), ef);
    let graph = adjacency(links, layer);
    let good = layer_nodes(levels, layer);
    let n = levels.len() as int;
    layers_are_closed(levels, m, links, layer);
    search_ends(q, graph, entries, good, n);
    let r = q.outcome(graph, entries);
    let best = found(store, ef, links, id, layer, entries);
    assert forall|i: int| 0 <= i < best.len() implies (#[trigger] ids(best)[i]) != id && sits_at(
        levels,
        ids(best)[i],
        layer,
    ) by {
        assert(r.best.contains(best[i]));
        let j = choose|j: u32| r.seen.contains(j) && best[i] == #[trigger] q.candidate(j);
        candidate_is_exact(q, j);
        assert(good(j));
    }
    assert(ids(best).no_duplicates()) by {
        let all = ids(best);
        assert forall|i: int| 0 <= i < best.len() implies best[i] == q.candidate(
            #[trigger] all[i],
        ) by {
            assert(r.best.contains(best[i]));
            let j = choose|j: u32| r.seen.contains(j) && best[i] == #[trigger] q.candidate(j);
            candidate_is_exact(q, j);
        }
        assert forall|i: int, j: int| 0 <= i < all.len() && 0 <= j < all.len() && i != j implies
            all[i] != all[j] by {
            assert(best[i] == q.candidate(all[i]));
            assert(best[j] == q.candidate(all[j]));
            assert(best[i] != best[j]);
        }
    }
    if entries.len() > 0 && entries[0] != id {
        some_result_is_found(q, graph, entries, good, n, 0);
    }
}

/// What was selected in a layer are other nodes of it, and some if some were found.
pub(crate) proof fn selected_are_others(
    store: FlatView,
    levels: Seq<usize>,
    m: int,
    best: Seq<u128>,
    id: u32,
    layer: int,
)
    requires
        m >= 1,
        forall|i: int|
            0 <= i < best.len() ==> (#[trigger] ids(best)[i]) != id && sits_at(
                levels,
                ids(best)[i],
                layer,
            ),
        ids(best).no_duplicates(),
    ensures
        ({
            let list = selected(store, best, share(m, layer));
            &&& forall|i: int|
                0 <= i < list.len() ==> (#[trigger] list[i]) != id && sits_at(
                    levels,
                    list[i],
                    layer,
                )
            &&& list.no_duplicates()
            &&& best.len() > 0 ==> list.len() > 0
        }),
{
    selected_are_distinct(store, best, share(m, layer));
    let list = selected(store, best, share(m, layer));
    selected_are_candidates(store, best, share(m, layer));
    kept_is_diverse(store, best, share(m, layer), best.len() as int);
    assert forall|i: int| 0 <= i < list.len() implies (#[trigger] list[i]) != id && sits_at(
        levels,
        list[i],
        layer,
    ) by {
        let all = ids(best);
        assert(all.contains(list[i]));
        let j = choose|j: int| 0 <= j < all.len() && all[j] == list[i];
        assert(all[j] != id);
    }
}

/// Joining nodes of a layer keeps the graph fitting, and empties no list.
pub proof fn joining_fits(
    store: FlatView,
    levels: Seq<usize>,
    m: int,
    links: Seq<Seq<Seq<u32>>>,
    id: u32,
    list: Seq<u32>,
    layer: int,
    n: int,
)
    requires
        graph_fits(levels, m, links),
        m >= 1,
        layer >= 0,
        sits_at(levels, id, layer),
        0 <= n <= list.len(),
        forall|i: int|
            0 <= i < list.len() ==> (#[trigger] list[i]) != id && sits_at(levels, list[i], layer),
    ensures
        graph_fits(levels, m, joined(store, m, links, id, list, layer, n)),
        empties_none(links, joined(store, m, links, id, list, layer, n)),
        n > 0 ==> joined(store, m, links, id, list, layer, n)[id as int][layer].len() > 0,
    decreases n,
{
    if n > 0 {
        joining_fits(store, levels, m, links, id, list, layer, n - 1);
        let p = joined(store, m, links, id, list, layer, n - 1);
        let nb = list[n - 1];
        let a = connected_at(store, m, p, id, nb, layer);
        connecting_fits(store, levels, m, p, id, nb, layer);
        connecting_fills(store, levels, m, p, id, nb, layer);
        connecting_fits(store, levels, m, a, nb, id, layer);
        connecting_fills(store, levels, m, a, nb, id, layer);
    }
}

/// No list of neighbors that was not empty is empty now.
pub open spec fn empties_none(a: Seq<Seq<Seq<u32>>>, b: Seq<Seq<Seq<u32>>>) -> bool {
    &&& a.len() == b.len()
    &&& forall|i: int, l: int|
        #![trigger b[i][l]]
        0 <= i < a.len() && 0 <= l < a[i].len() && a[i][l].len() > 0 ==> b[i][l].len() > 0
}

proof fn connecting_fills(
    store: FlatView,
    levels: Seq<usize>,
    m: int,
    links: Seq<Seq<Seq<u32>>>,
    node: u32,
    neighbor: u32,
    layer: int,
)
    requires
        graph_fits(levels, m, links),
        m >= 1,
        layer >= 0,
        sits_at(levels, node, layer),
    ensures
        connected_at(store, m, links, node, neighbor, layer)[node as int][layer].len() > 0,
        empties_none(links, connected_at(store, m, links, node, neighbor, layer)),
{
    let i = node as int;
    assert(node_fits(levels, m, i, links[i]));
    assert(list_fits(levels, m, i, layer, links[i][layer]));
    connected_is_bounded(store, node, links[i][layer], neighbor, share(m, layer));
}

/// Linking a node below a layer keeps the graph fitting and empties no list; a node that does
/// not start from itself gets neighbors in this layer and all below.
pub proof fn linking_below_fits(
    store: FlatView,
    levels: Seq<usize>,
    m: int,
    ef: int,
    links: Seq<Seq<Seq<u32>>>,
    id: u32,
    cur: u32,
    entries: Seq<u32>,
    layer: int,
)
    requires
        graph_fits(levels, m, links),
        m >= 1,
        ef >= 1,
        layer >= -1,
        sits_at(levels, id, layer),
        sits_at(levels, cur, layer),
        all_good(entries, layer_nodes(levels, layer)),
    ensures
        ({
            let r = linked_below(store, m, ef, links, id, cur, entries, layer);
            &&& graph_fits(levels, m, r)
            &&& empties_none(links, r)
            &&& cur != id && entries.len() > 0 && entries[0] != id ==> forall|l: int|
                0 <= l <= layer ==> (#[trigger] r[id as int][l]).len() > 0
        }),
    decreases layer + 1,
{
    if layer >= 0 {
        let best = found(store, ef, links, id, layer, entries);
        found_are_others(store, levels, m, ef, links, id, layer, entries);
        selected_are_others(store, levels, m, best, id, layer);
        let list = selected(store, best, share(m, layer));
        joining_fits(store, levels, m, links, id, list, layer, list.len() as int);
        let more = joined(store, m, links, id, list, layer, list.len() as int);
        let next = if best.len() == 0 {
            seq![cur]
        } else {
            ids(best)
        };
        assert forall|i: int| 0 <= i < next.len() implies layer_nodes(levels, layer - 1)(
            #[trigger] next[i],
        ) by {
            if best.len() > 0 {
                assert(sits_at(levels, ids(best)[i], layer));
            }
        }
        linking_below_fits(store, levels, m, ef, more, id, cur, next, layer - 1);
        let r = linked_below(store, m, ef, more, id, cur, next, layer - 1);
        assert forall|i: int, l: int|
            #![trigger r[i][l]]
            0 <= i < links.len() && 0 <= l < links[i].len() && links[i][l].len()
                > 0 implies r[i][l].len() > 0 by {
            assert(node_fits(levels, m, i, links[i]));
            assert(node_fits(levels, m, i, more[i]));
            assert(more[i][l].len() > 0);
        }
        if cur != id && entries.len() > 0 && entries[0] != id {
            assert(next[0] != id) by {
                if best.len() > 0 {
                    assert(ids(best)[0] != id);
                }
            }
            assert(node_fits(levels, m, id as int, more[id as int]));
            assert(more[id as int][layer].len() > 0);
            assert(r[id as int][layer].len() > 0);
        }
    }
}

/// Linking a node keeps the graph fitting and empties no list of neighbors. Unless the node is
/// the entry point itself, it has neighbors from then on in each layer that both it and the
/// entry point reach.
pub proof fn linking_gives_neighbors(
    store: FlatView,
    levels: Seq<usize>,
    m: int,
    ef: int,
    links: Seq<Seq<Seq<u32>>>,
    id: u32,
    entry: u32,
    max_level: int,
)
    requires
        graph_fits(levels, m, links),
        m >= 1,
        ef >= 1,
        max_level >= 0,
        id < levels.len(),
        sits_at(levels, entry, max_level),
    ensures
        ({
            let r = linked(
                store,
                m,
                ef,
                links,
                levels[id as int] as int,
                id,
                entry,
                max_level,
            );
            &&& graph_fits(levels, m, r)
            &&& empties_none(links, r)
            &&& entry != id ==> forall|l: int|
                0 <= l <= levels[id as int] && l <= max_level ==> (#[trigger] r[id as int][l]).len()
                    > 0
        }),
{
    let level = levels[id as int] as int;
    let key = node_key(store, row(store.data, store.dim, id as int));
    let cur = landing(key, Some(id), links, max_level, level + 1, entry);
    landing_stays(key, Some(id), levels, m, links, max_level, level + 1, entry);
    let top = if level <= max_level {
        level
    } else {
        max_level
    };
    linking_below_fits(store, levels, m, ef, links, id, cur, seq![cur], top);
}

} // verus!
