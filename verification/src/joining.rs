//! What linking a node does to the graph, said of nothing but links and keys.

use vstd::prelude::*;
use crate::beam::{candidate_is_exact, Beam, Quest};
use crate::binary32::{lt, nan};
use crate::exploration::{
    all_good, has_numbers, is_result_or_worse, push_contains, results_are_the_best_seen,
    search_ends, seeded_keeps_all,
};
use crate::flat::FlatView;
use crate::graph::{adjacency, node_key, quest};
use crate::linking::{
    found_are_others, joining_fits, landing_stays, layers_are_closed, selected_are_others,
};
use crate::pruning::{are_of, is_selection, nearness, selected_is_selection};
use crate::ranked::{ascending, id_in};
use crate::rows::row;
use crate::select::{connected, ids, selected, selected_are_candidates};
use crate::thorough::{has_node, has_or_no_nearer, search_is_thorough};
use crate::wiring::{
    connected_at, found, graph_fits, joined, landing, layer_nodes, linked, linked_below, node_fits,
    share, sits_at,
};

verus! {

/// `best` is what a thorough search of a layer finds for node `id`, with room for `ef`: other
/// nodes, nearest first; the nodes that it starts from, and the neighbors of each that is nearer
/// than the worst, or of all if there is room for more, are among them, or there is no room and
/// they are no nearer than the worst.
pub open spec fn is_search(
    store: FlatView,
    links: Seq<Seq<Seq<u32>>>,
    id: u32,
    layer: int,
    ef: int,
    entries: Seq<u32>,
    best: Seq<u128>,
) -> bool {
    let key = nearness(store, id);
    &&& best.len() <= ef
    &&& are_of(key, best)
    &&& ascending(best)
    &&& best.no_duplicates()
    &&& !has_node(best, id)
    &&& forall|e: u32| #[trigger]
        entries.contains(e) && e != id ==> has_or_no_nearer(best, ef, key, e)
    &&& forall|x: u32, y: u32|
        has_node(best, x) && (best.len() < ef || lt(
            key(x as int),
            key(id_in(best.last()) as int),
        )) && y != id && #[trigger] links[x as int][layer].contains(y) ==> has_or_no_nearer(
            best,
            ef,
            key,
            y,
        )
}

/// The lists of a layer before and after node `id` was linked: it has a selection from what it
/// found, each that it selected was connected to it, and the others are as they were.
pub open spec fn is_joined_at(
    store: FlatView,
    m: int,
    before: Seq<Seq<Seq<u32>>>,
    after: Seq<Seq<Seq<u32>>>,
    id: u32,
    layer: int,
    best: Seq<u128>,
) -> bool {
    let cap = if layer == 0 {
        2 * m
    } else {
        m
    };
    let list = after[id as int][layer];
    &&& is_selection(store, nearness(store, id), ids(best), cap, list)
    &&& forall|x: u32| #[trigger]
        list.contains(x) ==> after[x as int][layer] == connected(
            store,
            x,
            before[x as int][layer],
            id,
            cap,
        )
    &&& forall|y: int|
        0 <= y < before.len() && y != id && layer < before[y].len() && !list.contains(y as u32)
            ==> (#[trigger] after[y])[layer] == before[y][layer]
}

/// The lists of a layer are the same.
pub open spec fn is_same_at(
    before: Seq<Seq<Seq<u32>>>,
    after: Seq<Seq<Seq<u32>>>,
    layer: int,
) -> bool {
    forall|y: int|
        0 <= y < before.len() && layer < before[y].len() ==> (#[trigger] after[y])[layer]
            == before[y][layer]
}

/// What joining a node with a list does.
#[verifier::rlimit(40)]
proof fn joining_does(
    store: FlatView,
    levels: Seq<usize>,
    m: int,
    links: Seq<Seq<Seq<u32>>>,
    id: u32,
    list: Seq<u32>,
    layer: int,
    n: int,
)
    requires
        graph_fits(levels, m, links),
        m >= 1,
        layer >= 0,
        sits_at(levels, id, layer),
        0 <= n <= list.len() <= share(m, layer),
        links[id as int][layer].len() == 0,
        list.no_duplicates(),
        forall|i: int|
            0 <= i < list.len() ==> (#[trigger] list[i]) != id && sits_at(levels, list[i], layer),
    ensures
        ({
            let j = joined(store, m, links, id, list, layer, n);
            &&& j.len() == links.len()
            &&& forall|y: int| 0 <= y < links.len() ==> (#[trigger] j[y]).len() == links[y].len()
            &&& j[id as int][layer] == list.take(n)
            &&& forall|i: int|
                0 <= i < n ==> j[(#[trigger] list[i]) as int][layer] == connected(
                    store,
                    list[i],
                    links[list[i] as int][layer],
                    id,
                    share(m, layer),
                )
            &&& forall|y: int|
                0 <= y < links.len() && y != id && !list.take(n).contains(y as u32)
                    ==> (#[trigger] j[y])[layer] == links[y][layer]
            &&& forall|l: int| 0 <= l && l != layer ==> #[trigger] is_same_at(links, j, l)
        }),
    decreases n,
{
    let j = joined(store, m, links, id, list, layer, n);
    assert(node_fits(levels, m, id as int, links[id as int]));
    if n <= 0 {
        assert(list.take(0) =~= links[id as int][layer]);
    } else {
        let p = joined(store, m, links, id, list, layer, n - 1);
        let x = list[n - 1];
        joining_does(store, levels, m, links, id, list, layer, n - 1);
        joining_fits(store, levels, m, links, id, list, layer, n - 1);
        let a = connected_at(store, m, p, id, x, layer);
        assert(node_fits(levels, m, x as int, links[x as int]));
        assert(!list.take(n - 1).contains(x));
        assert(p[id as int][layer] == list.take(n - 1));
        assert(list.take(n - 1).push(x) =~= list.take(n));
        assert(a[id as int][layer] == list.take(n));
        assert(p[x as int][layer] == links[x as int][layer]);
        assert(j[x as int][layer] == connected(
            store,
            x,
            links[x as int][layer],
            id,
            share(m, layer),
        ));
        assert(j[id as int] == a[id as int]);
        assert forall|i: int| 0 <= i < n implies j[(#[trigger] list[i]) as int][layer] == connected(
            store,
            list[i],
            links[list[i] as int][layer],
            id,
            share(m, layer),
        ) by {
            if i < n - 1 {
                assert(list[i] != x);
                assert(list[i] != id);
                assert(j[list[i] as int] == p[list[i] as int]);
            }
        }
        assert forall|y: int|
            0 <= y < links.len() && y != id && !list.take(n).contains(y as u32) implies (
        #[trigger] j[y])[layer] == links[y][layer] by {
            assert(list.take(n)[n - 1] == x);
            assert(y != x);
            if list.take(n - 1).contains(y as u32) {
                let t = list.take(n - 1);
                let i = choose|i: int| 0 <= i < t.len() && t[i] == y as u32;
                assert(list.take(n)[i] == y as u32);
            }
            assert(j[y] == p[y]);
        }
        assert forall|l: int| 0 <= l && l != layer implies #[trigger] is_same_at(links, j, l) by {
            assert(is_same_at(links, p, l));
            assert forall|y: int| 0 <= y < links.len() && l < links[y].len() implies (
            #[trigger] j[y])[l] == links[y][l] by {
                assert(p[y][l] == links[y][l]);
            }
        }
    }
}

/// What a node finds in a layer is what a thorough search finds.
#[verifier::rlimit(40)]
proof fn found_is_thorough(
    store: FlatView,
    levels: Seq<usize>,
    m: int,
    ef: int,
    links: Seq<Seq<Seq<u32>>>,
    id: u32,
    layer: int,
    entries: Seq<u32>,
)
    requires
        graph_fits(levels, m, links),
        layer >= 0,
        ef >= 1,
        all_good(entries, layer_nodes(levels, layer)),
        forall|i: int| 0 <= i < levels.len() ==> !nan(#[trigger] nearness(store, id)(i)),
    ensures
        is_search(
            store,
            links,
            id,
            layer,
            ef,
            entries,
            found(store, ef, links, id, layer, entries),
        ),
{
    let key = nearness(store, id);
    let q = quest(store, row(store.data, store.dim, id as int), None, Some(id), ef);
    let graph = adjacency(links, layer);
    let good = layer_nodes(levels, layer);
    let n = levels.len() as int;
    layers_are_closed(levels, m, links, layer);
    assert(has_numbers(q, good)) by {
        assert forall|i: u32| good(i) implies !nan(#[trigger] (q.key)(i)) by {
            assert(!nan(key(i as int)));
        }
    }
    search_ends(q, graph, entries, good, n);
    results_are_the_best_seen(q, graph, entries, good, n);
    let b = q.outcome(graph, entries);
    let best = b.best;
    assert forall|i: int| 0 <= i < best.len() implies b.seen.contains(
        #[trigger] ids(best)[i],
    ) && best[i] == q.candidate(ids(best)[i]) && id_in(best[i]) == ids(best)[i] by {
        assert(b.best.contains(best[i]));
        let j = choose|j: u32| b.seen.contains(j) && best[i] == #[trigger] q.candidate(j);
        candidate_is_exact(q, j);
    }
    assert forall|i: int| 0 <= i < best.len() implies #[trigger] best[i] == crate::ranked::rank(
        key(id_in(best[i]) as int),
        id_in(best[i]),
    ) && id_in(best[i]) <= u32::MAX by {
        assert(best[i] == q.candidate(ids(best)[i]));
    }
    if has_node(best, id) {
        let j = choose|j: int| 0 <= j < best.len() && id_in(#[trigger] best[j]) == id;
        assert(b.seen.contains(ids(best)[j]));
    }
    if best.len() > 0 {
        candidate_is_exact(q, ids(best)[best.len() - 1]);
        assert(best[best.len() - 1] == q.candidate(ids(best)[best.len() - 1]));
        assert(q.worst(b) == key(id_in(best.last()) as int));
    }
    assert forall|y: u32| #[trigger] b.seen.contains(y) implies has_or_no_nearer(
        best,
        ef,
        key,
        y,
    ) by {
        assert(is_result_or_worse(q, b, y));
        if b.best.contains(q.candidate(y)) {
            candidate_is_exact(q, y);
            let p = choose|p: int| 0 <= p < best.len() && best[p] == q.candidate(y);
            assert(id_in(best[p]) == y);
        }
    }
    let steps = choose|steps: nat| b == #[trigger] q.run(graph, q.start(entries), steps);
    seeded_keeps_all(q, entries, entries.len() as int, good);
    assert forall|e: u32| #[trigger] entries.contains(e) && e != id implies has_or_no_nearer(
        best,
        ef,
        key,
        e,
    ) by {
        let i = choose|i: int| 0 <= i < entries.len() && entries[i] == e;
        assert(q.seeded_with(entries, entries.len() as int).seen.contains(entries[i]));
        run_keeps_seen(q, graph, q.start(entries), steps, e);
    }
    assert forall|x: u32, y: u32|
        has_node(best, x) && (best.len() < ef || lt(
            key(x as int),
            key(id_in(best.last()) as int),
        )) && y != id && #[trigger] links[x as int][layer].contains(y) implies has_or_no_nearer(
        best,
        ef,
        key,
        y,
    ) by {
        let j = choose|j: int| 0 <= j < best.len() && id_in(#[trigger] best[j]) == x;
        assert(b.seen.contains(ids(best)[j]));
        assert(ids(best)[j] == x);
        assert((q.key)(x) == key(x as int));
        search_is_thorough(q, graph, entries, good, n, x);
        assert(good(x));
        assert(node_fits(levels, m, x as int, links[x as int]));
        assert(graph(x) == links[x as int][layer]);
        let list = graph(x);
        let i = choose|i: int| 0 <= i < list.len() && list[i] == y;
        assert(b.seen.contains(graph(x)[i]));
    }
}

/// The nodes that the search of a layer starts from, in the layers from `layer` down, where
/// `best` is what was found in each layer.
pub open spec fn started_from(best: Seq<Seq<u128>>, cur: u32, top: Seq<u32>, layer: int) -> Seq<u32> {
    if layer + 1 >= best.len() {
        top
    } else if best[layer + 1].len() == 0 {
        seq![cur]
    } else {
        ids(best[layer + 1])
    }
}

/// A search reads nothing but the lists of its layer.
proof fn search_of_same(
    store: FlatView,
    a: Seq<Seq<Seq<u32>>>,
    b: Seq<Seq<Seq<u32>>>,
    levels: Seq<usize>,
    m: int,
    id: u32,
    layer: int,
    ef: int,
    entries: Seq<u32>,
    best: Seq<u128>,
)
    requires
        graph_fits(levels, m, a),
        graph_fits(levels, m, b),
        layer >= 0,
        is_same_at(a, b, layer),
        is_search(store, b, id, layer, ef, entries, best),
        forall|i: int| 0 <= i < best.len() ==> sits_at(levels, #[trigger] ids(best)[i], layer),
    ensures
        is_search(store, a, id, layer, ef, entries, best),
{
    let key = nearness(store, id);
    assert forall|x: u32, y: u32|
        has_node(best, x) && (best.len() < ef || lt(
            key(x as int),
            key(id_in(best.last()) as int),
        )) && y != id && #[trigger] a[x as int][layer].contains(y) implies has_or_no_nearer(
        best,
        ef,
        key,
        y,
    ) by {
        let j = choose|j: int| 0 <= j < best.len() && id_in(#[trigger] best[j]) == x;
        assert(sits_at(levels, ids(best)[j], layer));
        assert(node_fits(levels, m, x as int, a[x as int]));
        assert(b[x as int][layer] == a[x as int][layer]);
        assert(b[x as int][layer].contains(y));
    }
}

#[verifier::rlimit(40)]
proof fn linking_below_does(
    store: FlatView,
    levels: Seq<usize>,
    m: int,
    ef: int,
    links: Seq<Seq<Seq<u32>>>,
    id: u32,
    cur: u32,
    entries: Seq<u32>,
    layer: int,
) -> (best: Seq<Seq<u128>>)
    requires
        graph_fits(levels, m, links),
        m >= 1,
        ef >= 1,
        layer >= -1,
        sits_at(levels, id, layer),
        sits_at(levels, cur, layer),
        all_good(entries, layer_nodes(levels, layer)),
        forall|l: int| 0 <= l <= layer ==> (#[trigger] links[id as int][l]).len() == 0,
        forall|i: int| 0 <= i < levels.len() ==> !nan(#[trigger] nearness(store, id)(i)),
    ensures
        ({
            let r = linked_below(store, m, ef, links, id, cur, entries, layer);
            &&& graph_fits(levels, m, r)
            &&& best.len() == layer + 1
            &&& forall|l: int|
                0 <= l <= layer ==> is_joined_at(store, m, links, r, id, l, #[trigger] best[l])
            &&& forall|l: int|
                0 <= l <= layer ==> is_search(
                    store,
                    links,
                    id,
                    l,
                    ef,
                    started_from(best, cur, entries, l),
                    #[trigger] best[l],
                )
            &&& forall|l: int| l > layer && l >= 0 ==> #[trigger] is_same_at(links, r, l)
            &&& forall|l: int, i: int|
                0 <= l <= layer && 0 <= i < best[l].len() ==> sits_at(
                    levels,
                    #[trigger] ids(best[l])[i],
                    l,
                )
        }),
    decreases layer + 1,
{
    let r = linked_below(store, m, ef, links, id, cur, entries, layer);
    if layer < 0 {
        Seq::empty()
    } else {
        let b = found(store, ef, links, id, layer, entries);
        found_are_others(store, levels, m, ef, links, id, layer, entries);
        found_is_thorough(store, levels, m, ef, links, id, layer, entries);
        selected_are_others(store, levels, m, b, id, layer);
        selected_are_candidates(store, b, share(m, layer));
        selected_is_selection(store, nearness(store, id), b, share(m, layer));
        let list = selected(store, b, share(m, layer));
        let n = list.len() as int;
        assert(links[id as int][layer].len() == 0);
        joining_does(store, levels, m, links, id, list, layer, n);
        joining_fits(store, levels, m, links, id, list, layer, n);
        let more = joined(store, m, links, id, list, layer, n);
        assert(list.take(n) =~= list);
        let next = if b.len() == 0 {
            seq![cur]
        } else {
            ids(b)
        };
        assert forall|i: int| 0 <= i < next.len() implies layer_nodes(levels, layer - 1)(
            #[trigger] next[i],
        ) by {
            if b.len() > 0 {
                assert(sits_at(levels, ids(b)[i], layer));
            }
        }
        assert(node_fits(levels, m, id as int, links[id as int]));
        assert forall|l: int| 0 <= l <= layer - 1 implies (#[trigger] more[id as int][l]).len()
            == 0 by {
            assert(is_same_at(links, more, l));
            assert(links[id as int][l].len() == 0);
            assert(more[id as int][l] == links[id as int][l]);
        }
        let below = linking_below_does(store, levels, m, ef, more, id, cur, next, layer - 1);
        let best = below.push(b);
        assert(is_same_at(more, r, layer));
        assert forall|y: int| 0 <= y < links.len() && layer < links[y].len() implies (
        #[trigger] r[y])[layer] == more[y][layer] by {
            assert(more[y].len() == links[y].len());
        }
        assert(r[id as int][layer] == list);
        assert(is_joined_at(store, m, links, r, id, layer, b)) by {
            assert forall|x: u32| #[trigger] list.contains(x) implies r[x as int][layer]
                == connected(store, x, links[x as int][layer], id, share(m, layer)) by {
                let i = choose|i: int| 0 <= i < list.len() && list[i] == x;
                assert(sits_at(levels, list[i], layer));
                assert(node_fits(levels, m, x as int, links[x as int]));
                assert(more[list[i] as int][layer] == connected(
                    store,
                    list[i],
                    links[list[i] as int][layer],
                    id,
                    share(m, layer),
                ));
                assert(r[x as int][layer] == more[x as int][layer]);
            }
            assert forall|y: int|
                0 <= y < links.len() && y != id && layer < links[y].len() && !list.contains(
                    y as u32,
                ) implies (#[trigger] r[y])[layer] == links[y][layer] by {
                assert(more[y][layer] == links[y][layer]);
            }
        }
        assert forall|l: int| 0 <= l <= layer implies is_joined_at(
            store,
            m,
            links,
            r,
            id,
            l,
            #[trigger] best[l],
        ) && is_search(
            store,
            links,
            id,
            l,
            ef,
            started_from(best, cur, entries, l),
            best[l],
        ) by {
            if l < layer {
                assert(best[l] == below[l]);
                assert(is_same_at(links, more, l));
                assert(is_joined_at(store, m, more, r, id, l, below[l]));
                same_joined_at(store, levels, m, links, more, r, id, l, below[l]);
                assert(is_search(
                    store,
                    more,
                    id,
                    l,
                    ef,
                    started_from(below, cur, next, l),
                    below[l],
                ));
                assert(started_from(best, cur, entries, l) == started_from(below, cur, next, l));
                search_of_same(
                    store,
                    links,
                    more,
                    levels,
                    m,
                    id,
                    l,
                    ef,
                    started_from(best, cur, entries, l),
                    below[l],
                );
            } else {
                assert(best[l] == b);
            }
        }
        assert forall|l: int| l > layer && l >= 0 implies #[trigger] is_same_at(links, r, l) by {
            assert(is_same_at(links, more, l));
            assert(is_same_at(more, r, l));
            assert forall|y: int| 0 <= y < links.len() && l < links[y].len() implies (
            #[trigger] r[y])[l] == links[y][l] by {
                assert(more[y].len() == links[y].len());
                assert(more[y][l] == links[y][l]);
            }
        }
        assert forall|l: int, i: int| 0 <= l <= layer && 0 <= i < best[l].len() implies sits_at(
            levels,
            #[trigger] ids(best[l])[i],
            l,
        ) by {
            if l < layer {
                assert(best[l] == below[l]);
                assert(sits_at(levels, ids(below[l])[i], l));
            }
        }
        best
    }
}

/// What was joined in a layer does not depend on the other layers.
proof fn same_joined_at(
    store: FlatView,
    levels: Seq<usize>,
    m: int,
    links: Seq<Seq<Seq<u32>>>,
    more: Seq<Seq<Seq<u32>>>,
    after: Seq<Seq<Seq<u32>>>,
    id: u32,
    layer: int,
    best: Seq<u128>,
)
    requires
        graph_fits(levels, m, links),
        graph_fits(levels, m, more),
        layer >= 0,
        is_same_at(links, more, layer),
        is_joined_at(store, m, more, after, id, layer, best),
        forall|i: int| 0 <= i < best.len() ==> sits_at(levels, #[trigger] ids(best)[i], layer),
    ensures
        is_joined_at(store, m, links, after, id, layer, best),
{
    let list = after[id as int][layer];
    assert forall|x: u32| #[trigger] list.contains(x) implies after[x as int][layer] == connected(
        store,
        x,
        links[x as int][layer],
        id,
        share(m, layer),
    ) by {
        let i = choose|i: int| 0 <= i < list.len() && list[i] == x;
        assert(ids(best).contains(list[i]));
        let j = choose|j: int| 0 <= j < ids(best).len() && ids(best)[j] == x;
        assert(sits_at(levels, ids(best)[j], layer));
        assert(node_fits(levels, m, x as int, links[x as int]));
        assert(more[x as int][layer] == links[x as int][layer]);
    }
    assert forall|y: int|
        0 <= y < links.len() && y != id && layer < links[y].len() && !list.contains(
            y as u32,
        ) implies (#[trigger] after[y])[layer] == links[y][layer] by {
        assert(node_fits(levels, m, y, links[y]));
        assert(node_fits(levels, m, y, more[y]));
        assert(more[y][layer] == links[y][layer]);
    }
}

proof fn offers_keep_seen(q: Quest, b: Beam, list: Seq<u32>, n: int, x: u32)
    requires
        b.seen.contains(x),
    ensures
        q.offered_all(b, list, n).seen.contains(x),
    decreases n,
{
    if n > 0 {
        offers_keep_seen(q, b, list, n - 1, x);
        push_contains(q.offered_all(b, list, n - 1).seen, list[n - 1], x);
    }
}

proof fn run_keeps_seen(
    q: Quest,
    graph: spec_fn(u32) -> Seq<u32>,
    b: Beam,
    steps: nat,
    x: u32,
)
    requires
        b.seen.contains(x),
    ensures
        q.run(graph, b, steps).seen.contains(x),
    decreases steps,
{
    if steps > 0 {
        run_keeps_seen(q, graph, b, (steps - 1) as nat, x);
        let p = q.run(graph, b, (steps - 1) as nat);
        if !q.is_done(p) {
            let list = graph(q.next(p));
            offers_keep_seen(
                q,
                Beam { open: p.open.drop_first(), ..p },
                list,
                list.len() as int,
                x,
            );
        }
    }
}

/// What linking a node does. In each layer that it and the entry point reach, from the highest
/// down, it searches thoroughly, from where the descent ended or from what it found above; it has
/// then a selection from what it found; each node that it selected is connected to it; and all
/// other lists of the graph are as they were.
pub proof fn linking_joins(
    store: FlatView,
    levels: Seq<usize>,
    m: int,
    ef: int,
    links: Seq<Seq<Seq<u32>>>,
    id: u32,
    entry: u32,
    max_level: int,
) -> (best: Seq<Seq<u128>>)
    requires
        graph_fits(levels, m, links),
        m >= 1,
        ef >= 1,
        max_level >= 0,
        id < levels.len(),
        sits_at(levels, entry, max_level),
        forall|l: int| 0 <= l < links[id as int].len() ==> (#[trigger] links[id as int][l]).len() == 0,
        forall|i: int| 0 <= i < levels.len() ==> !nan(#[trigger] nearness(store, id)(i)),
    ensures
        ({
            let level = levels[id as int] as int;
            let r = linked(store, m, ef, links, level, id, entry, max_level);
            let top = if level <= max_level {
                level
            } else {
                max_level
            };
            let cur = landing(
                node_key(store, row(store.data, store.dim, id as int)),
                Some(id),
                links,
                max_level,
                level + 1,
                entry,
            );
            &&& best.len() == top + 1
            &&& forall|l: int|
                0 <= l <= top ==> is_joined_at(store, m, links, r, id, l, #[trigger] best[l])
            &&& forall|l: int|
                0 <= l <= top ==> is_search(
                    store,
                    links,
                    id,
                    l,
                    ef,
                    started_from(best, cur, seq![cur], l),
                    #[trigger] best[l],
                )
            &&& forall|l: int| l > top ==> #[trigger] is_same_at(links, r, l)
        }),
{
    let level = levels[id as int] as int;
    let key = node_key(store, row(store.data, store.dim, id as int));
    let cur = landing(key, Some(id), links, max_level, level + 1, entry);
    landing_stays(key, Some(id), levels, m, links, max_level, level + 1, entry);
    let top = if level <= max_level {
        level
    } else {
        max_level
    };
    assert(node_fits(levels, m, id as int, links[id as int]));
    linking_below_does(store, levels, m, ef, links, id, cur, seq![cur], top)
}

} // verus!
