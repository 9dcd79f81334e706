//! How a new node comes down to where it is linked.

use vstd::prelude::*;
use crate::binary32::{lt, place};
use crate::descent::{
    descended, is_descent, is_look, is_walk, nearer, step, step_is_nearest, walk_grows, walked,
};
use crate::flat::FlatView;
use crate::graph::{adjacency, node_key};
use crate::growth::{connected_all, Ground};
use crate::linking::{landing_stays, layers_are_closed};
use crate::pruning::nearness;
use crate::rows::row;
use crate::wiring::{
    graph_fits, landing, landing_in_parts, layer_nodes, list_fits, node_fits, share, sits_at,
};

verus! {

/// One look around `x`, whose neighbors read as `list`, leads to `y`: the first of those, but for
/// node `id`, that no other is nearer than; and it is nearer than `x`.
pub open spec fn is_look_to(
    key: spec_fn(int) -> u32,
    id: u32,
    list: Seq<u32>,
    x: u32,
    y: u32,
) -> bool {
    &&& lt(key(y as int), key(x as int))
    &&& y != id
    &&& exists|i: int| 0 <= i < list.len() && #[trigger] list[i] == y && forall|j: int|
        0 <= j < i && #[trigger] list[j] != id ==> place(key(list[j] as int)) != place(
            key(y as int),
        )
    &&& forall|j: int|
        0 <= j < list.len() && #[trigger] list[j] != id ==> !lt(key(list[j] as int), key(y as int))
}

/// No neighbor of `x`, as they read, is nearer than `x`, but for node `id`.
pub open spec fn is_look_in_vain(
    key: spec_fn(int) -> u32,
    id: u32,
    list: Seq<u32>,
    x: u32,
) -> bool {
    forall|j: int|
        0 <= j < list.len() && #[trigger] list[j] != id ==> !lt(key(list[j] as int), key(x as int))
}

/// One look around a node, whose neighbors read as they may, leads to another.
pub open spec fn is_step_over(
    reads: spec_fn(u32, Seq<u32>) -> bool,
    key: spec_fn(int) -> u32,
    id: u32,
    x: u32,
    y: u32,
) -> bool {
    exists|list: Seq<u32>| reads(x, list) && #[trigger] is_look_to(key, id, list, x, y)
}

/// One look around a node, whose neighbors read as they may, is in vain.
pub open spec fn is_end_over(
    reads: spec_fn(u32, Seq<u32>) -> bool,
    key: spec_fn(int) -> u32,
    id: u32,
    x: u32,
) -> bool {
    exists|list: Seq<u32>| reads(x, list) && #[trigger] is_look_in_vain(key, id, list, x)
}

/// A greedy way through a layer whose lists of neighbors read as they may: each node is where one
/// look around the one before leads, and a look around the last is in vain.
pub open spec fn is_greedy_over(
    reads: spec_fn(u32, Seq<u32>) -> bool,
    key: spec_fn(int) -> u32,
    id: u32,
    way: Seq<u32>,
) -> bool {
    &&& way.len() > 0
    &&& forall|i: int|
        0 < i < way.len() ==> is_step_over(reads, key, id, way[i - 1], #[trigger] way[i])
    &&& is_end_over(reads, key, id, way.last())
}

/// A greedy way leads from one node to another.
pub open spec fn leads_over(
    reads: spec_fn(u32, Seq<u32>) -> bool,
    key: spec_fn(int) -> u32,
    id: u32,
    from: u32,
    to: u32,
) -> bool {
    exists|way: Seq<u32>| #[trigger]
        is_greedy_over(reads, key, id, way) && way[0] == from && way.last() == to
}

/// What one look around comes to.
proof fn look_leads(key: spec_fn(u32) -> u32, id: u32, list: Seq<u32>, n: int, at: u32)
    requires
        0 <= n <= list.len(),
    ensures
        ({
            let r = nearer(key, Some(id), list, n, at);
            &&& r == at || lt(key(r), key(at)) && r != id && exists|i: int|
                0 <= i < n && #[trigger] list[i] == r && forall|j: int|
                    0 <= j < i && #[trigger] list[j] != id ==> place(key(list[j])) != place(key(r))
            &&& forall|j: int| 0 <= j < n && #[trigger] list[j] != id ==> !lt(key(list[j]), key(r))
        }),
    decreases n,
{
    if n > 0 {
        look_leads(key, id, list, n - 1, at);
        let p = nearer(key, Some(id), list, n - 1, at);
        let r = nearer(key, Some(id), list, n, at);
        if list[n - 1] != id && lt(key(list[n - 1]), key(p)) {
            assert(list[n - 1] == r);
            assert forall|j: int| 0 <= j < n - 1 && #[trigger] list[j] != id implies place(
                key(list[j]),
            ) != place(key(r)) && !lt(key(list[j]), key(r)) by {
                assert(!lt(key(list[j]), key(p)));
            }
        } else if r != at {
            let i = choose|i: int|
                0 <= i < n - 1 && #[trigger] list[i] == r && forall|j: int|
                    0 <= j < i && #[trigger] list[j] != id ==> place(key(list[j])) != place(key(r));
            assert(list[i] == r);
        }
    }
}

/// What a look leads to, or that it is in vain.
proof fn look_is_told(
    nk: spec_fn(u32) -> u32,
    key: spec_fn(int) -> u32,
    id: u32,
    list: Seq<u32>,
    x: u32,
)
    requires
        forall|y: u32| #[trigger] nk(y) == key(y as int),
    ensures
        ({
            let y = step(nk, Some(id), list, x);
            &&& lt(nk(y), nk(x)) ==> is_look_to(key, id, list, x, y)
            &&& !lt(nk(y), nk(x)) ==> y == x && is_look_in_vain(key, id, list, x)
        }),
{
    let y = step(nk, Some(id), list, x);
    look_leads(nk, id, list, list.len() as int, x);
    assert(nk(y) == key(y as int) && nk(x) == key(x as int));
    assert forall|j: int| 0 <= j < list.len() && #[trigger] list[j] != id implies !lt(
        key(list[j] as int),
        key(y as int),
    ) by {
        assert(nk(list[j]) == key(list[j] as int));
    }
    if lt(nk(y), nk(x)) {
        let p = choose|p: int|
            0 <= p < list.len() && #[trigger] list[p] == y && forall|j: int|
                0 <= j < p && #[trigger] list[j] != id ==> place(nk(list[j])) != place(nk(y));
        assert(list[p] == y);
        assert forall|j: int| 0 <= j < p && #[trigger] list[j] != id implies place(
            key(list[j] as int),
        ) != place(key(y as int)) by {
            assert(nk(list[j]) == key(list[j] as int));
        }
    }
}

/// A walk is greedy.
proof fn walk_is_greedy(
    reads: spec_fn(u32, Seq<u32>) -> bool,
    nk: spec_fn(u32) -> u32,
    key: spec_fn(int) -> u32,
    id: u32,
    from: u32,
    lists: Seq<Seq<u32>>,
)
    requires
        is_walk(reads, nk, Some(id), from, lists),
        forall|x: u32| #[trigger] nk(x) == key(x as int),
    ensures
        leads_over(reads, key, id, from, walked(nk, Some(id), from, lists)),
{
    let n = lists.len() as int;
    let way = Seq::new(lists.len(), |i: int| walked(nk, Some(id), from, lists.take(i)));
    assert(lists.take(0) =~= Seq::empty());
    assert forall|i: int| 0 < i < way.len() implies is_step_over(
        reads,
        key,
        id,
        way[i - 1],
        #[trigger] way[i],
    ) by {
        let list = lists[i - 1];
        assert(is_look(reads, nk, Some(id), from, lists, i - 1));
        assert(lists.take(i).drop_last() =~= lists.take(i - 1));
        assert(lists.take(i).last() == list);
        look_is_told(nk, key, id, list, way[i - 1]);
        assert(is_look_to(key, id, list, way[i - 1], way[i]));
    }
    let last = lists[n - 1];
    assert(is_look(reads, nk, Some(id), from, lists, n - 1));
    assert(lists.drop_last() =~= lists.take(n - 1));
    look_is_told(nk, key, id, last, way[n - 1]);
    assert(is_look_in_vain(key, id, last, way[n - 1]));
    assert(is_end_over(reads, key, id, way.last()));
    assert(is_greedy_over(reads, key, id, way));
    assert(way[0] == from);
    assert(way.last() == walked(nk, Some(id), from, lists));
}

/// A new node comes down from `stops[0]`, through one layer after the other from `top` on, to the
/// last of these nodes.
pub open spec fn come_down(
    reads: spec_fn(int) -> spec_fn(u32, Seq<u32>) -> bool,
    key: spec_fn(int) -> u32,
    id: u32,
    top: int,
    stops: Seq<u32>,
) -> bool {
    &&& stops.len() > 0
    &&& forall|i: int|
        0 < i < stops.len() ==> leads_over(
            reads(top - i + 1),
            key,
            id,
            stops[i - 1],
            #[trigger] stops[i],
        )
}

/// The lists of neighbors read as they are.
pub open spec fn as_they_are(links: Seq<Seq<Seq<u32>>>) -> spec_fn(int) -> spec_fn(
    u32,
    Seq<u32>,
) -> bool {
    |layer: int| |x: u32, list: Seq<u32>| list == links[x as int][layer]
}

/// A descent in a graph that nobody changes is a walk.
proof fn descent_walks(
    nk: spec_fn(u32) -> u32,
    id: u32,
    levels: Seq<usize>,
    m: int,
    links: Seq<Seq<Seq<u32>>>,
    layer: int,
    from: u32,
    before: Seq<Seq<u32>>,
)
    requires
        graph_fits(levels, m, links),
        layer >= 0,
        sits_at(levels, walked(nk, Some(id), from, before), layer),
        forall|i: int|
            0 <= i < before.len() ==> {
                let p = walked(nk, Some(id), from, #[trigger] before.take(i));
                as_they_are(links)(layer)(p, before[i]) && lt(
                    nk(step(nk, Some(id), before[i], p)),
                    nk(p),
                )
            },
    ensures
        is_descent(
            as_they_are(links)(layer),
            nk,
            Some(id),
            from,
            descended(
                nk,
                Some(id),
                adjacency(links, layer),
                walked(nk, Some(id), from, before),
            ),
        ),
    decreases place(nk(walked(nk, Some(id), from, before))) + 0x8000_0000,
{
    let reads = as_they_are(links)(layer);
    let graph = adjacency(links, layer);
    let at = walked(nk, Some(id), from, before);
    let list = graph(at);
    assert(node_fits(levels, m, at as int, links[at as int]));
    assert(list == links[at as int][layer]);
    let next = step(nk, Some(id), list, at);
    let lists = before.push(list);
    walk_grows(nk, Some(id), from, before, list);
    step_is_nearest(nk, Some(id), list, list.len() as int, at);
    if lt(nk(next), nk(at)) {
        layers_are_closed(levels, m, links, layer);
        let j = choose|j: int| 0 <= j < list.len() && list[j] == next;
        assert(layer_nodes(levels, layer)(at));
        assert(layer_nodes(levels, layer)(graph(at)[j]));
        assert forall|i: int| 0 <= i < lists.len() implies {
            let p = walked(nk, Some(id), from, #[trigger] lists.take(i));
            reads(p, lists[i]) && lt(nk(step(nk, Some(id), lists[i], p)), nk(p))
        } by {
            if i < before.len() {
                assert(lists.take(i) == before.take(i));
            }
        }
        descent_walks(nk, id, levels, m, links, layer, from, lists);
    } else {
        assert forall|i: int| 0 <= i < lists.len() implies #[trigger] is_look(
            reads,
            nk,
            Some(id),
            from,
            lists,
            i,
        ) by {
            if i < before.len() {
                assert(lists.take(i) == before.take(i));
            }
        }
        assert(next == at);
        assert(is_walk(reads, nk, Some(id), from, lists));
    }
}

/// One more layer.
proof fn come_down_further(
    reads: spec_fn(int) -> spec_fn(u32, Seq<u32>) -> bool,
    key: spec_fn(int) -> u32,
    id: u32,
    top: int,
    stops: Seq<u32>,
    to: u32,
)
    requires
        come_down(reads, key, id, top, stops),
        leads_over(reads(top - stops.len() + 1), key, id, stops.last(), to),
    ensures
        come_down(reads, key, id, top, stops.push(to)),
{
    let s = stops.push(to);
    assert forall|i: int| 0 < i < s.len() implies leads_over(
        reads(top - i + 1),
        key,
        id,
        s[i - 1],
        #[trigger] s[i],
    ) by {
        if i < stops.len() {
            assert(leads_over(reads(top - i + 1), key, id, stops[i - 1], stops[i]));
        }
    }
}

/// A node that is linked comes down greedily, from the entry point through every layer above those
/// that it is linked in.
pub proof fn linking_comes_down(
    store: FlatView,
    levels: Seq<usize>,
    m: int,
    links: Seq<Seq<Seq<u32>>>,
    id: u32,
    top: int,
    bottom: int,
    entry: u32,
) -> (stops: Seq<u32>)
    requires
        graph_fits(levels, m, links),
        bottom >= 0,
        sits_at(levels, entry, top),
    ensures
        come_down(as_they_are(links), nearness(store, id), id, top, stops),
        stops[0] == entry,
        stops.len() == if top >= bottom {
            top - bottom + 2
        } else {
            1
        },
        stops.last() == landing(
            node_key(store, row(store.data, store.dim, id as int)),
            Some(id),
            links,
            top,
            bottom,
            entry,
        ),
    decreases top - bottom + 1,
{
    let nk = node_key(store, row(store.data, store.dim, id as int));
    let key = nearness(store, id);
    if top < bottom {
        seq![entry]
    } else {
        let before = linking_comes_down(store, levels, m, links, id, top, bottom + 1, entry);
        let at = landing(nk, Some(id), links, top, bottom + 1, entry);
        landing_in_parts(nk, Some(id), links, top, bottom, bottom, entry);
        landing_stays(nk, Some(id), levels, m, links, top, bottom + 1, entry);
        let to = descended(nk, Some(id), adjacency(links, bottom), at);
        assert(landing(nk, Some(id), links, bottom - 1, bottom, to) == to);
        assert(landing(nk, Some(id), links, bottom, bottom, at) == to);
        descent_walks(nk, id, levels, m, links, bottom, at, Seq::empty());
        let reads = as_they_are(links)(bottom);
        let lists = choose|lists: Seq<Seq<u32>>| #[trigger]
            is_walk(reads, nk, Some(id), at, lists) && to == walked(nk, Some(id), at, lists);
        walk_is_greedy(reads, nk, key, id, at, lists);
        come_down_further(as_they_are(links), key, id, top, before, to);
        before.push(to)
    }
}

/// A new node that is linked while others are comes down greedily through what it may read.
pub proof fn courses_come_down(
    ground: Ground,
    id: u32,
    from: u32,
    top: int,
    bottom: int,
    to: u32,
) -> (stops: Seq<u32>)
    requires
        ground.may_land(id, from, top, bottom, to),
    ensures
        come_down(|layer: int| ground.reads(layer), nearness(ground.store, id), id, top, stops),
        stops[0] == from,
        stops.last() == to,
        stops.len() == if top >= bottom {
            top - bottom + 2
        } else {
            1
        },
    decreases top - bottom + 1,
{
    let nk = ground.key(id);
    let key = nearness(ground.store, id);
    if top < bottom {
        seq![from]
    } else {
        let reads = ground.reads(bottom);
        let at = choose|at: u32|
            ground.may_land(id, from, top, bottom + 1, at) && #[trigger] is_descent(
                reads,
                nk,
                Some(id),
                at,
                to,
            );
        let before = courses_come_down(ground, id, from, top, bottom + 1, at);
        let lists = choose|lists: Seq<Seq<u32>>| #[trigger]
            is_walk(reads, nk, Some(id), at, lists) && to == walked(nk, Some(id), at, lists);
        walk_is_greedy(reads, nk, key, id, at, lists);
        come_down_further(|layer: int| ground.reads(layer), key, id, top, before, to);
        before.push(to)
    }
}

/// What the neighbors of a node in a layer may read as while vectors are added: what some
/// connections made of those before.
pub open spec fn may_read_as(
    store: FlatView,
    before: Seq<Seq<Seq<u32>>>,
    cap: int,
    layer: int,
) -> spec_fn(u32, Seq<u32>) -> bool {
    |x: u32, list: Seq<u32>|
        exists|more: Seq<u32>|
            list == #[trigger] connected_all(store, x, before[x as int][layer], more, cap)
}

/// A greedy way through what may be read while a graph grows stays in its layer, and is one through
/// what connections may have made.
proof fn way_is_through_what_was_made(
    ground: Ground,
    same: Seq<Seq<Seq<u32>>>,
    id: u32,
    layer: int,
    way: Seq<u32>,
    n: int,
)
    requires
        is_greedy_over(ground.reads(layer), nearness(ground.store, id), id, way),
        sits_at(ground.levels, way[0], layer),
        forall|x: int| 0 <= x < ground.levels.len() ==> #[trigger] ground.before[x] == same[x],
        0 <= n < way.len(),
    ensures
        sits_at(ground.levels, way[n], layer),
        forall|i: int|
            0 < i <= n ==> is_step_over(
                may_read_as(ground.store, same, share(ground.m, layer), layer),
                nearness(ground.store, id),
                id,
                way[i - 1],
                #[trigger] way[i],
            ),
    decreases n,
{
    if n > 0 {
        way_is_through_what_was_made(ground, same, id, layer, way, n - 1);
        let key = nearness(ground.store, id);
        let reads = ground.reads(layer);
        let (x, y) = (way[n - 1], way[n]);
        assert(is_step_over(reads, key, id, x, y));
        let list = choose|list: Seq<u32>|
            reads(x, list) && #[trigger] is_look_to(key, id, list, x, y);
        reading_was_made(ground, same, layer, x, list);
        let i = choose|i: int| 0 <= i < list.len() && list[i] == y;
        assert(sits_at(ground.levels, list[i], layer));
        assert(is_step_over(
            may_read_as(ground.store, same, share(ground.m, layer), layer),
            key,
            id,
            x,
            y,
        ));
    }
}

/// What may be read of a node of a layer is what connections made.
proof fn reading_was_made(
    ground: Ground,
    same: Seq<Seq<Seq<u32>>>,
    layer: int,
    x: u32,
    list: Seq<u32>,
)
    requires
        ground.may_read(x, layer, list),
        sits_at(ground.levels, x, layer),
        ground.before[x as int] == same[x as int],
    ensures
        may_read_as(ground.store, same, share(ground.m, layer), layer)(x, list),
        list_fits(ground.levels, ground.m, x as int, layer, list),
{
    let w = choose|w: Seq<u32>| #[trigger] ground.can_make(x as int, layer, w, list);
    assert(list == connected_all(
        ground.store,
        x,
        same[x as int][layer],
        w,
        share(ground.m, layer),
    ));
}

/// A greedy way leads through what connections may have made.
proof fn leads_through_what_was_made(
    ground: Ground,
    same: Seq<Seq<Seq<u32>>>,
    id: u32,
    layer: int,
    from: u32,
    to: u32,
)
    requires
        leads_over(ground.reads(layer), nearness(ground.store, id), id, from, to),
        sits_at(ground.levels, from, layer),
        forall|x: int| 0 <= x < ground.levels.len() ==> #[trigger] ground.before[x] == same[x],
    ensures
        leads_over(
            may_read_as(ground.store, same, share(ground.m, layer), layer),
            nearness(ground.store, id),
            id,
            from,
            to,
        ),
        sits_at(ground.levels, to, layer),
{
    let key = nearness(ground.store, id);
    let reads = ground.reads(layer);
    let more = may_read_as(ground.store, same, share(ground.m, layer), layer);
    let way = choose|way: Seq<u32>| #[trigger]
        is_greedy_over(reads, key, id, way) && way[0] == from && way.last() == to;
    way_is_through_what_was_made(ground, same, id, layer, way, way.len() - 1);
    assert(is_end_over(reads, key, id, to));
    let list = choose|list: Seq<u32>|
        reads(to, list) && #[trigger] is_look_in_vain(key, id, list, to);
    reading_was_made(ground, same, layer, to, list);
    assert(is_end_over(more, key, id, to));
    assert(is_greedy_over(more, key, id, way));
}

/// What may be read in each layer while vectors are added.
pub open spec fn layers_may_read_as(
    store: FlatView,
    before: Seq<Seq<Seq<u32>>>,
    m: int,
) -> spec_fn(int) -> spec_fn(u32, Seq<u32>) -> bool {
    |layer: int| may_read_as(store, before, share(m, layer), layer)
}

/// A new node that is linked while others are comes down greedily through what connections may
/// have made.
pub proof fn courses_come_down_through_what_was_made(
    ground: Ground,
    same: Seq<Seq<Seq<u32>>>,
    id: u32,
    from: u32,
    top: int,
    bottom: int,
    to: u32,
) -> (stops: Seq<u32>)
    requires
        ground.may_land(id, from, top, bottom, to),
        bottom >= 0,
        sits_at(ground.levels, from, top),
        forall|x: int| 0 <= x < ground.levels.len() ==> #[trigger] ground.before[x] == same[x],
    ensures
        come_down(
            layers_may_read_as(ground.store, same, ground.m),
            nearness(ground.store, id),
            id,
            top,
            stops,
        ),
        stops[0] == from,
        stops.last() == to,
        stops.len() == if top >= bottom {
            top - bottom + 2
        } else {
            1
        },
{
    let stops = courses_come_down(ground, id, from, top, bottom, to);
    let key = nearness(ground.store, id);
    stops_are_nodes(ground, same, id, top, bottom, stops, stops.len() - 1);
    let more = layers_may_read_as(ground.store, same, ground.m);
    assert forall|i: int| 0 < i < stops.len() implies leads_over(
        more(top - i + 1),
        key,
        id,
        stops[i - 1],
        #[trigger] stops[i],
    ) by {
        assert(leads_over(ground.reads(top - i + 1), key, id, stops[i - 1], stops[i]));
        stops_are_nodes(ground, same, id, top, bottom, stops, i - 1);
        leads_through_what_was_made(ground, same, id, top - i + 1, stops[i - 1], stops[i]);
    }
    stops
}

proof fn stops_are_nodes(
    ground: Ground,
    same: Seq<Seq<Seq<u32>>>,
    id: u32,
    top: int,
    bottom: int,
    stops: Seq<u32>,
    n: int,
)
    requires
        come_down(|layer: int| ground.reads(layer), nearness(ground.store, id), id, top, stops),
        sits_at(ground.levels, stops[0], top),
        forall|x: int| 0 <= x < ground.levels.len() ==> #[trigger] ground.before[x] == same[x],
        0 <= n < stops.len(),
    ensures
        sits_at(ground.levels, stops[n], top - n),
    decreases n,
{
    if n > 0 {
        stops_are_nodes(ground, same, id, top, bottom, stops, n - 1);
        assert(leads_over(
            ground.reads(top - n + 1),
            nearness(ground.store, id),
            id,
            stops[n - 1],
            stops[n],
        ));
        leads_through_what_was_made(ground, same, id, top - n + 1, stops[n - 1], stops[n]);
    }
}

} // verus!
