//! How lists of neighbors come about.
//!
//! A list changes in one way only: the node is connected to one more neighbor, and where that
//! is one too many, neighbors are selected anew. So whatever the order of events, each list is
//! what some connections, one after the other, make of the list that was there before.
//!
//! Connections, too, are made in one way only. A new node descends from an entry point, searches
//! each layer from its own down, and is joined, both ways, with all the neighbors that it selects
//! there from what it found. The lists that it reads on the way may be changing.

use vstd::prelude::*;
use crate::beam::{popped_is_sound, Quest};
use crate::binary32::{lt, place};
use crate::descent::{
    descended, is_descent, is_look, is_walk, step, step_is_nearest, walk_grows, walked,
};
use crate::exploration::{all_good, is_closed, run_is_sound, search_ends};
use crate::flat::FlatView;
use crate::graph::{adjacency, is_legal, is_outcome, legal_grows, node_key, quest};
use crate::linking::{
    found_are_others, joining_fits, landing_stays, layers_are_closed, selected_are_others,
};
use crate::rows::row;
use crate::select::{connected, connected_is_bounded, ids, selected};
use crate::wiring::{
    connected_at, connecting_fits, found, graph_fits, joined, landing, landing_in_parts,
    layer_nodes, linked, linked_below, list_fits, node_fits, share, sits_at, with_list,
};

verus! {

/// What a graph grows from: vectors, the layer that each node reaches up to, how many neighbors
/// and candidates are kept, which node is the first new one, the entry point, and the lists that
/// were there before.
#[verifier::ext_equal]
pub struct Ground {
    pub store: FlatView,
    pub levels: Seq<usize>,
    pub m: int,
    pub ef: int,
    pub first: int,
    pub start: u32,
    pub before: Seq<Seq<Seq<u32>>>,
}

/// How a new node finds its way: the entry point, where the descent from there ended, and what
/// was found in each layer from the highest down that the node is linked in.
#[verifier::ext_equal]
pub struct Course {
    pub entry: u32,
    pub cur: u32,
    pub found: Seq<Seq<u128>>,
}

impl Course {
    /// The nodes that search `d` starts from: from where the descent ended for the first, and
    /// from what was found in the layer above for the others.
    pub open spec fn entries(self, d: int) -> Seq<u32> {
        if d <= 0 {
            seq![self.cur]
        } else {
            onward(self.found[d - 1], self.cur)
        }
    }
}

/// The connections of all nodes after one more was made.
pub open spec fn noted(
    history: Seq<Seq<Seq<u32>>>,
    node: int,
    layer: int,
    neighbor: u32,
) -> Seq<Seq<Seq<u32>>> {
    with_list(history, node, layer, history[node][layer].push(neighbor))
}

/// How often a node is in a list.
pub open spec fn times(list: Seq<u32>, x: u32) -> int
    decreases list.len(),
{
    if list.len() == 0 {
        0
    } else {
        times(list.drop_last(), x) + if list.last() == x {
            1int
        } else {
            0
        }
    }
}

/// A node is in a list no time if it is not in it, and once more if it is put behind it.
pub proof fn times_are_counted(list: Seq<u32>, x: u32, y: u32)
    ensures
        times(list, x) >= 0,
        times(list, x) == 0 <==> !list.contains(x),
        times(list.push(y), x) == times(list, x) + if y == x {
            1int
        } else {
            0
        },
    decreases list.len(),
{
    assert(list.push(y).drop_last() =~= list);
    if list.len() > 0 {
        let before = list.drop_last();
        times_are_counted(before, x, y);
        if before.contains(x) {
            let i = choose|i: int| 0 <= i < before.len() && before[i] == x;
            assert(list[i] == x);
        }
        if list.contains(x) && list.last() != x {
            let i = choose|i: int| 0 <= i < list.len() && list[i] == x;
            assert(before[i] == x);
        }
        if list.last() == x {
            assert(list[list.len() - 1] == x);
        }
    }
}

/// A node is connected with another in a layer, both ways.
pub open spec fn both(history: Seq<Seq<Seq<u32>>>, id: u32, layer: int, x: u32) -> bool {
    history[id as int][layer].contains(x) && history[x as int][layer].contains(id)
}

/// Two nodes are not connected in a layer.
pub open spec fn strangers(
    history: Seq<Seq<Seq<u32>>>,
    id: u32,
    layer: int,
    x: u32,
) -> bool {
    &&& 0 <= layer < history[x as int].len() ==> !history[x as int][layer].contains(id)
    &&& 0 <= layer < history[id as int].len() ==> !history[id as int][layer].contains(x)
}

/// Connections of nodes hold those that were made before.
#[verifier::opaque]
pub open spec fn extends(before: Seq<Seq<Seq<u32>>>, now: Seq<Seq<Seq<u32>>>) -> bool {
    forall|i: int, l: int, x: u32| #[trigger]
        before[i][l].contains(x) && 0 <= i < before.len() && 0 <= l < before[i].len()
            ==> now[i][l].contains(x)
}

/// The neighbors of a node after it was connected to some more, one after the other.
pub open spec fn connected_all(
    store: FlatView,
    node: u32,
    list: Seq<u32>,
    more: Seq<u32>,
    cap: int,
) -> Seq<u32>
    decreases more.len(),
{
    if more.len() == 0 {
        list
    } else {
        connected(
            store,
            node,
            connected_all(store, node, list, more.drop_last(), cap),
            more.last(),
            cap,
        )
    }
}

/// The lower of two layers.
pub open spec fn lower(a: usize, b: usize) -> int {
    if a <= b {
        a as int
    } else {
        b as int
    }
}

/// A node has neighbors in the layers up to `top`.
pub open spec fn has_neighbors(lists: Seq<Seq<u32>>, top: int) -> bool {
    &&& top < lists.len()
    &&& forall|l: int| 0 <= l <= top ==> (#[trigger] lists[l]).len() > 0
}

/// The nodes that a search of the next layer starts from: those that were found, or where the
/// descent ended if none was.
pub open spec fn onward(best: Seq<u128>, cur: u32) -> Seq<u32> {
    if best.len() == 0 {
        seq![cur]
    } else {
        ids(best)
    }
}

impl Ground {
    /// Two nodes can be connected in a layer: both reach it, and one is new.
    pub open spec fn can_connect(self, node: int, layer: int, neighbor: u32) -> bool {
        &&& neighbor != node
        &&& sits_at(self.levels, neighbor, layer)
        &&& node >= self.first || neighbor >= self.first
    }

    /// What connections to these neighbors make of the list before.
    pub open spec fn with_more(self, node: int, layer: int, more: Seq<u32>) -> Seq<u32> {
        connected_all(
            self.store,
            node as u32,
            self.before[node][layer],
            more,
            share(self.m, layer),
        )
    }

    /// A list is what connections to these neighbors make of the one before.
    pub open spec fn can_make(self, node: int, layer: int, more: Seq<u32>, list: Seq<u32>) -> bool {
        &&& forall|i: int|
            0 <= i < more.len() ==> self.can_connect(node, layer, #[trigger] more[i])
        &&& list == self.with_more(node, layer, more)
    }

    /// What may be read as the neighbors of a node in a layer while the graph grows. They fit,
    /// and are what connections make of those before.
    pub open spec fn may_read(self, node: u32, layer: int, list: Seq<u32>) -> bool {
        &&& list_fits(self.levels, self.m, node as int, layer, list)
        &&& if sits_at(self.levels, node, layer) {
            exists|more: Seq<u32>| #[trigger] self.can_make(node as int, layer, more, list)
        } else {
            list == Seq::<u32>::empty()
        }
    }

    /// What may be read in a layer.
    pub open spec fn reads(self, layer: int) -> spec_fn(u32, Seq<u32>) -> bool {
        |node: u32, list: Seq<u32>| self.may_read(node, layer, list)
    }

    /// How near each node is to a new one.
    pub open spec fn key(self, id: u32) -> spec_fn(u32) -> u32 {
        node_key(self.store, row(self.store.data, self.store.dim, id as int))
    }

    /// What a new node searches for.
    pub open spec fn quest(self, id: u32) -> Quest {
        quest(
            self.store,
            row(self.store.data, self.store.dim, id as int),
            None,
            Some(id),
            self.ef,
        )
    }

    /// A node may be the entry point: it was at the start, or it is a new node that is higher.
    pub open spec fn may_enter(self, entry: u32) -> bool {
        &&& entry < self.levels.len()
        &&& entry == self.start || entry >= self.first && self.levels[entry as int]
            > self.levels[self.start as int]
    }

    /// The descent of a new node through the layers from `top` down to `bottom` may end at `to`.
    pub open spec fn may_land(self, id: u32, from: u32, top: int, bottom: int, to: u32) -> bool
        decreases top - bottom + 1,
    {
        if top < bottom {
            to == from
        } else {
            exists|at: u32|
                self.may_land(id, from, top, bottom + 1, at) && #[trigger] is_descent(
                    self.reads(bottom),
                    self.key(id),
                    Some(id),
                    at,
                    to,
                )
        }
    }

    /// A new node that enters at `entry` may descend to `cur`, above the layers it is linked in.
    pub open spec fn may_descend(self, id: u32, entry: u32, cur: u32) -> bool {
        &&& self.may_enter(entry)
        &&& entry != id
        &&& self.may_land(
            id,
            entry,
            self.levels[entry as int] as int,
            self.levels[id as int] + 1,
            cur,
        )
    }

    /// The highest layer that a new node is linked in.
    pub open spec fn top(self, id: u32, entry: u32) -> int {
        lower(self.levels[id as int], self.levels[entry as int])
    }

    /// A new node may find these candidates in a layer, nearest first.
    pub open spec fn may_find(
        self,
        id: u32,
        layer: int,
        entries: Seq<u32>,
        best: Seq<u128>,
    ) -> bool {
        exists|seen: Seq<u32>| #[trigger]
            is_outcome(self.quest(id), self.reads(layer), entries, best, seen)
    }

    /// The layer that search `d` of a course is in.
    pub open spec fn layer(self, id: u32, c: Course, d: int) -> int {
        self.top(id, c.entry) - d
    }

    /// A new node may find its way so.
    pub open spec fn is_course(self, id: u32, c: Course) -> bool {
        &&& self.may_descend(id, c.entry, c.cur)
        &&& c.found.len() <= self.top(id, c.entry) + 1
        &&& forall|d: int|
            0 <= d < c.found.len() ==> self.may_find(
                id,
                self.layer(id, c, d),
                c.entries(d),
                #[trigger] c.found[d],
            )
    }

    /// A new node may find its way so, down to the lowest layer.
    pub open spec fn is_full_course(self, id: u32, c: Course) -> bool {
        self.is_course(id, c) && c.found.len() == self.top(id, c.entry) + 1
    }

    /// The neighbors that a new node selects from what search `d` of a course found.
    pub open spec fn chosen(self, id: u32, c: Course, d: int) -> Seq<u32> {
        selected(self.store, c.found[d], share(self.m, self.layer(id, c, d)))
    }

    /// A new node may select a neighbor in a layer, from what it finds there.
    #[verifier::opaque]
    pub open spec fn may_select(self, id: u32, layer: int, neighbor: u32) -> bool {
        exists|c: Course| #[trigger]
            self.is_course(id, c) && c.found.len() > 0 && layer == self.layer(
                id,
                c,
                c.found.len() - 1,
            ) && self.chosen(id, c, c.found.len() - 1).contains(neighbor)
    }

    /// A node may be connected to another in a layer: one of them is new and selects the other.
    pub open spec fn allows(self, node: int, layer: int, neighbor: u32) -> bool {
        &&& self.can_connect(node, layer, neighbor)
        &&& {
            ||| node >= self.first && self.may_select(node as u32, layer, neighbor)
            ||| neighbor >= self.first && self.may_select(neighbor, layer, node as u32)
        }
    }

    /// How many of two nodes are new.
    pub open spec fn fresh(self, node: int, neighbor: u32) -> int {
        (if node >= self.first {
            1int
        } else {
            0
        }) + (if neighbor >= self.first {
            1int
        } else {
            0
        })
    }

    /// A list is what connections to these neighbors made of the one before. Two nodes are
    /// connected no more than once for each of them that is new.
    pub open spec fn makes(self, node: int, layer: int, more: Seq<u32>, list: Seq<u32>) -> bool {
        &&& forall|i: int| 0 <= i < more.len() ==> self.allows(node, layer, #[trigger] more[i])
        &&& forall|x: u32| #[trigger] times(more, x) <= self.fresh(node, x)
        &&& list == self.with_more(node, layer, more)
    }

    /// All lists of a node are what these connections, layer by layer, made of those before.
    pub open spec fn made_node(
        self,
        node: int,
        history: Seq<Seq<u32>>,
        lists: Seq<Seq<u32>>,
    ) -> bool {
        &&& lists.len() == self.before[node].len()
        &&& history.len() == self.before[node].len()
        &&& forall|l: int|
            0 <= l < lists.len() ==> self.makes(node, l, history[l], #[trigger] lists[l])
    }

    /// All lists are what these connections, node by node, made of those before.
    pub open spec fn made(
        self,
        history: Seq<Seq<Seq<u32>>>,
        links: Seq<Seq<Seq<u32>>>,
    ) -> bool {
        &&& links.len() == self.before.len()
        &&& history.len() == self.before.len()
        &&& forall|i: int|
            0 <= i < links.len() ==> self.made_node(i, history[i], #[trigger] links[i])
    }

    /// A new node was joined, both ways, with all that it selected from what search `d` found.
    pub open spec fn is_joined(
        self,
        history: Seq<Seq<Seq<u32>>>,
        id: u32,
        c: Course,
        d: int,
    ) -> bool {
        let l = self.layer(id, c, d);
        forall|x: u32| #[trigger]
            self.chosen(id, c, d).contains(x) ==> sits_at(self.levels, x, l) && both(
                history,
                id,
                l,
                x,
            )
    }

    /// A new node found its way down to the lowest layer, and was joined, both ways, with all
    /// that it selected in each.
    pub open spec fn was_linked(self, history: Seq<Seq<Seq<u32>>>, id: u32) -> bool {
        exists|c: Course| #[trigger]
            self.is_full_course(id, c) && forall|d: int|
                0 <= d < c.found.len() ==> #[trigger] self.is_joined(history, id, c, d)
    }

    /// The lists are what connections made of those before, by which each new node was linked.
    pub open spec fn all_linked(self, links: Seq<Seq<Seq<u32>>>) -> bool {
        exists|history: Seq<Seq<Seq<u32>>>| #[trigger]
            self.made(history, links) && forall|i: int|
                self.first <= i < self.levels.len() ==> #[trigger] self.was_linked(
                    history,
                    i as u32,
                )
    }

    /// No connections.
    pub open spec fn nothing(self) -> Seq<Seq<Seq<u32>>> {
        Seq::new(
            self.before.len(),
            |i: int| Seq::new(self.before[i].len(), |l: int| Seq::empty()),
        )
    }

    /// A list of a graph that grew may be read.
    pub proof fn grown_may_be_read(self, node: u32, layer: int, more: Seq<u32>, list: Seq<u32>)
        requires
            list_fits(self.levels, self.m, node as int, layer, list),
            sits_at(self.levels, node, layer),
            self.makes(node as int, layer, more, list),
        ensures
            self.may_read(node, layer, list),
    {
        assert forall|i: int| 0 <= i < more.len() implies self.can_connect(
            node as int,
            layer,
            #[trigger] more[i],
        ) by {
            assert(self.allows(node as int, layer, more[i]));
        }
        assert(self.can_make(node as int, layer, more, list));
    }

    /// In a graph that grew, the neighbors of each node of a layer may be read.
    proof fn layer_may_be_read(
        self,
        history: Seq<Seq<Seq<u32>>>,
        links: Seq<Seq<Seq<u32>>>,
        layer: int,
        id: u32,
    )
        requires
            self.made(history, links),
            graph_fits(self.levels, self.m, links),
            layer >= 0,
            sits_at(self.levels, id, layer),
        ensures
            self.reads(layer)(id, adjacency(links, layer)(id)),
    {
        let i = id as int;
        assert(node_fits(self.levels, self.m, i, links[i]));
        assert(list_fits(self.levels, self.m, i, layer, links[i][layer]));
        assert(self.made_node(i, history[i], links[i]));
        assert(self.makes(i, layer, history[i][layer], links[i][layer]));
        self.grown_may_be_read(id, layer, history[i][layer], links[i][layer]);
    }

    /// What a new node finds in a graph that grew, it may find while the graph grows.
    proof fn found_may_be_found(
        self,
        history: Seq<Seq<Seq<u32>>>,
        links: Seq<Seq<Seq<u32>>>,
        id: u32,
        layer: int,
        entries: Seq<u32>,
    )
        requires
            self.made(history, links),
            graph_fits(self.levels, self.m, links),
            self.ef >= 0,
            layer >= 0,
            all_good(entries, layer_nodes(self.levels, layer)),
        ensures
            self.may_find(
                id,
                layer,
                entries,
                found(self.store, self.ef, links, id, layer, entries),
            ),
    {
        let q = self.quest(id);
        let graph = adjacency(links, layer);
        let good = layer_nodes(self.levels, layer);
        let n = self.levels.len() as int;
        layers_are_closed(self.levels, self.m, links, layer);
        search_ends(q, graph, entries, good, n);
        let r = q.outcome(graph, entries);
        let steps = choose|steps: nat| r == #[trigger] q.run(graph, q.start(entries), steps);
        assert forall|x: u32| #[trigger] good(x) implies self.reads(layer)(x, graph(x)) by {
            self.layer_may_be_read(history, links, layer, x);
        }
        let lists = run_is_legal(q, graph, entries, good, n, self.reads(layer), steps);
        assert(is_legal(q, self.reads(layer), q.start(entries), lists));
        assert(is_outcome(q, self.reads(layer), entries, r.best, r.seen));
    }

    /// Where a new node descends to in a graph that grew, it may descend to while the graph
    /// grows.
    proof fn landing_may_be_reached(
        self,
        history: Seq<Seq<Seq<u32>>>,
        links: Seq<Seq<Seq<u32>>>,
        id: u32,
        from: u32,
        top: int,
        bottom: int,
    )
        requires
            self.made(history, links),
            graph_fits(self.levels, self.m, links),
            bottom >= 0,
            sits_at(self.levels, from, top),
        ensures
            self.may_land(
                id,
                from,
                top,
                bottom,
                landing(self.key(id), Some(id), links, top, bottom, from),
            ),
        decreases top - bottom + 1,
    {
        if top >= bottom {
            let key = self.key(id);
            let graph = adjacency(links, bottom);
            let good = layer_nodes(self.levels, bottom);
            self.landing_may_be_reached(history, links, id, from, top, bottom + 1);
            let at = landing(key, Some(id), links, top, bottom + 1, from);
            landing_in_parts(key, Some(id), links, top, bottom, bottom, from);
            landing_stays(key, Some(id), self.levels, self.m, links, top, bottom + 1, from);
            let to = descended(key, Some(id), graph, at);
            assert(landing(key, Some(id), links, bottom - 1, bottom, to) == to);
            layers_are_closed(self.levels, self.m, links, bottom);
            assert forall|x: u32| #[trigger] good(x) implies self.reads(bottom)(x, graph(x)) by {
                self.layer_may_be_read(history, links, bottom, x);
            }
            assert(good(at));
            descent_is_walk(
                key,
                Some(id),
                graph,
                good,
                self.levels.len() as int,
                self.reads(bottom),
                at,
                Seq::empty(),
            );
            assert(is_descent(self.reads(bottom), key, Some(id), at, to));
        }
    }

    /// The graph grows from itself.
    pub proof fn starts(self)
        ensures
            self.made(self.nothing(), self.before),
    {
        let links = self.before;
        let history = self.nothing();
        assert forall|i: int| 0 <= i < links.len() implies self.made_node(
            i,
            history[i],
            #[trigger] links[i],
        ) by {
            assert forall|l: int| 0 <= l < links[i].len() implies self.makes(
                i,
                l,
                history[i][l],
                #[trigger] links[i][l],
            ) by {
                assert(history[i][l] == Seq::<u32>::empty());
            }
        }
    }

    /// A list grows by one more connection.
    pub proof fn list_grows(
        self,
        node: u32,
        layer: int,
        more: Seq<u32>,
        list: Seq<u32>,
        neighbor: u32,
    )
        requires
            self.makes(node as int, layer, more, list),
            self.allows(node as int, layer, neighbor),
            times(more, neighbor) < self.fresh(node as int, neighbor),
        ensures
            self.makes(
                node as int,
                layer,
                more.push(neighbor),
                connected(self.store, node, list, neighbor, share(self.m, layer)),
            ),
    {
        assert(more.push(neighbor).drop_last() =~= more);
        assert forall|x: u32| #[trigger] times(more.push(neighbor), x) <= self.fresh(
            node as int,
            x,
        ) by {
            times_are_counted(more, x, neighbor);
            assert(times(more, x) <= self.fresh(node as int, x));
        }
    }

    /// A graph grows by one more connection.
    pub proof fn graph_grows(
        self,
        history: Seq<Seq<Seq<u32>>>,
        links: Seq<Seq<Seq<u32>>>,
        node: u32,
        neighbor: u32,
        layer: int,
    )
        requires
            self.made(history, links),
            graph_fits(self.levels, self.m, links),
            layer >= 0,
            sits_at(self.levels, node, layer),
            self.allows(node as int, layer, neighbor),
            times(history[node as int][layer], neighbor) < self.fresh(node as int, neighbor),
        ensures
            self.made(
                noted(history, node as int, layer, neighbor),
                connected_at(self.store, self.m, links, node, neighbor, layer),
            ),
            extends(history, noted(history, node as int, layer, neighbor)),
            noted(history, node as int, layer, neighbor)[node as int][layer].contains(neighbor),
    {
        let i = node as int;
        let r = connected_at(self.store, self.m, links, node, neighbor, layer);
        let h = noted(history, i, layer, neighbor);
        assert(node_fits(self.levels, self.m, i, links[i]));
        assert(self.made_node(i, history[i], links[i]));
        assert(self.makes(i, layer, history[i][layer], links[i][layer]));
        self.list_grows(node, layer, history[i][layer], links[i][layer], neighbor);
        assert forall|j: int| 0 <= j < r.len() implies self.made_node(
            j,
            h[j],
            #[trigger] r[j],
        ) by {
            assert(self.made_node(j, history[j], links[j]));
            assert forall|l: int| 0 <= l < r[j].len() implies self.makes(
                j,
                l,
                h[j][l],
                #[trigger] r[j][l],
            ) by {
                assert(self.makes(j, l, history[j][l], links[j][l]));
            }
        }
        let old = history[i][layer];
        reveal(extends);
        assert(h[i][layer][old.len() as int] == neighbor);
        assert forall|j: int, l: int, x: u32| #[trigger]
            history[j][l].contains(x) && 0 <= j < history.len() && 0 <= l
                < history[j].len() implies h[j][l].contains(x) by {
            if j == i && l == layer {
                let p = choose|p: int| 0 <= p < old.len() && old[p] == x;
                assert(h[i][layer][p] == x);
            }
        }
    }

    /// A graph grows when a new node and another are connected, both ways.
    proof fn pair_grows(
        self,
        history: Seq<Seq<Seq<u32>>>,
        links: Seq<Seq<Seq<u32>>>,
        id: u32,
        nb: u32,
        layer: int,
    ) -> (h: Seq<Seq<Seq<u32>>>)
        requires
            self.made(history, links),
            graph_fits(self.levels, self.m, links),
            self.m >= 1,
            layer >= 0,
            id >= self.first,
            id != nb,
            sits_at(self.levels, id, layer),
            sits_at(self.levels, nb, layer),
            self.may_select(id, layer, nb),
            !history[id as int][layer].contains(nb),
            !history[nb as int][layer].contains(id),
        ensures
            h == noted(noted(history, id as int, layer, nb), nb as int, layer, id),
            self.made(
                h,
                connected_at(
                    self.store,
                    self.m,
                    connected_at(self.store, self.m, links, id, nb, layer),
                    nb,
                    id,
                    layer,
                ),
            ),
            extends(history, h),
            both(h, id, layer, nb),
    {
        let a = connected_at(self.store, self.m, links, id, nb, layer);
        let b = noted(history, id as int, layer, nb);
        let h = noted(b, nb as int, layer, id);
        assert(self.allows(id as int, layer, nb));
        assert(self.allows(nb as int, layer, id));
        times_are_counted(history[id as int][layer], nb, nb);
        times_are_counted(history[nb as int][layer], id, id);
        assert(node_fits(self.levels, self.m, id as int, links[id as int]));
        assert(self.made_node(id as int, history[id as int], links[id as int]));
        assert(b[nb as int] == history[nb as int]);
        self.graph_grows(history, links, id, nb, layer);
        connecting_fits(self.store, self.levels, self.m, links, id, nb, layer);
        self.graph_grows(b, a, nb, id, layer);
        self.shapes_agree(history, links, b, a);
        extending_twice(history, b, h);
        self.link_stays(b, a, h, id, layer, nb);
        h
    }

    /// A graph grows when a new node is joined with others.
    #[verifier::rlimit(40)]
    #[verifier::spinoff_prover]
    proof fn joining_grows(
        self,
        history: Seq<Seq<Seq<u32>>>,
        links: Seq<Seq<Seq<u32>>>,
        id: u32,
        list: Seq<u32>,
        layer: int,
        n: int,
    ) -> (h: Seq<Seq<Seq<u32>>>)
        requires
            self.made(history, links),
            graph_fits(self.levels, self.m, links),
            self.m >= 1,
            layer >= 0,
            id >= self.first,
            sits_at(self.levels, id, layer),
            0 <= n <= list.len(),
            forall|i: int|
                0 <= i < list.len() ==> (#[trigger] list[i]) != id && sits_at(
                    self.levels,
                    list[i],
                    layer,
                ) && self.may_select(id, layer, list[i]),
            list.no_duplicates(),
            forall|i: int|
                0 <= i < list.len() ==> strangers(history, id, layer, #[trigger] list[i]),
        ensures
            self.made(h, joined(self.store, self.m, links, id, list, layer, n)),
            extends(history, h),
            forall|i: int| 0 <= i < n ==> both(h, id, layer, #[trigger] list[i]),
            forall|l: int, x: u32|
                x < history.len() && strangers(history, id, l, x) && (l != layer || !list.take(
                    n,
                ).contains(x)) ==> #[trigger] strangers(h, id, l, x),
        decreases n,
    {
        if n <= 0 {
            nothing_more(history);
            history
        } else {
            let p = joined(self.store, self.m, links, id, list, layer, n - 1);
            let g = self.joining_grows(history, links, id, list, layer, n - 1);
            joining_fits(self.store, self.levels, self.m, links, id, list, layer, n - 1);
            let nb = list[n - 1];
            assert(!list.take(n - 1).contains(nb));
            assert(strangers(g, id, layer, nb));
            self.shape_of_history(g, p);
            assert(node_fits(self.levels, self.m, id as int, p[id as int]));
            assert(node_fits(self.levels, self.m, nb as int, p[nb as int]));
            let h = self.pair_grows(g, p, id, nb, layer);
            assert forall|l: int, x: u32|
                x < history.len() && strangers(history, id, l, x) && (l != layer || !list.take(
                    n,
                ).contains(x)) implies #[trigger] strangers(h, id, l, x) by {
                assert(l == layer ==> !list.take(n - 1).contains(x) && x != nb) by {
                    let (a, b) = (list.take(n - 1), list.take(n));
                    if a.contains(x) {
                        let i = choose|i: int| 0 <= i < a.len() && a[i] == x;
                        assert(b[i] == x);
                    }
                    assert(b[n - 1] == nb);
                }
                assert(strangers(g, id, l, x));
                pair_joins_no_others(g, id, nb, layer, l, x);
            }
            self.shapes_agree(history, links, g, p);
            extending_twice(history, g, h);
            assert forall|i: int| 0 <= i < n implies both(h, id, layer, #[trigger] list[i]) by {
                if i < n - 1 {
                    assert(both(g, id, layer, list[i]));
                    self.both_stays(g, p, h, id, layer, list[i]);
                }
            }
            h
        }
    }

    /// There are connections for each node and layer.
    pub proof fn shape_of_history(self, history: Seq<Seq<Seq<u32>>>, links: Seq<Seq<Seq<u32>>>)
        requires
            self.made(history, links),
        ensures
            history.len() == links.len(),
            forall|i: int|
                0 <= i < history.len() ==> (#[trigger] history[i]).len() == links[i].len(),
    {
        assert forall|i: int| 0 <= i < history.len() implies (#[trigger] history[i]).len()
            == links[i].len() by {
            assert(self.made_node(i, history[i], links[i]));
        }
    }

    /// There are connections for the same nodes and layers at all times.
    pub proof fn shapes_agree(
        self,
        history: Seq<Seq<Seq<u32>>>,
        links: Seq<Seq<Seq<u32>>>,
        h: Seq<Seq<Seq<u32>>>,
        g: Seq<Seq<Seq<u32>>>,
    )
        requires
            self.made(history, links),
            self.made(h, g),
        ensures
            history.len() == h.len(),
            forall|i: int| 0 <= i < history.len() ==> (#[trigger] history[i]).len() == h[i].len(),
    {
        assert forall|i: int| 0 <= i < history.len() implies (#[trigger] history[i]).len()
            == h[i].len() by {
            assert(self.made_node(i, history[i], links[i]));
            assert(self.made_node(i, h[i], g[i]));
        }
    }

    /// A connection stays.
    pub proof fn link_stays(
        self,
        history: Seq<Seq<Seq<u32>>>,
        links: Seq<Seq<Seq<u32>>>,
        now: Seq<Seq<Seq<u32>>>,
        node: u32,
        layer: int,
        x: u32,
    )
        requires
            self.made(history, links),
            graph_fits(self.levels, self.m, links),
            extends(history, now),
            layer >= 0,
            sits_at(self.levels, node, layer),
            history[node as int][layer].contains(x),
        ensures
            now[node as int][layer].contains(x),
    {
        reveal(extends);
        assert(node_fits(self.levels, self.m, node as int, links[node as int]));
        assert(self.made_node(node as int, history[node as int], links[node as int]));
    }

    /// What is connected both ways stays so.
    pub proof fn both_stays(
        self,
        history: Seq<Seq<Seq<u32>>>,
        links: Seq<Seq<Seq<u32>>>,
        now: Seq<Seq<Seq<u32>>>,
        id: u32,
        layer: int,
        x: u32,
    )
        requires
            self.made(history, links),
            graph_fits(self.levels, self.m, links),
            extends(history, now),
            layer >= 0,
            sits_at(self.levels, id, layer),
            sits_at(self.levels, x, layer),
            both(history, id, layer, x),
        ensures
            both(now, id, layer, x),
    {
        self.link_stays(history, links, now, id, layer, x);
        self.link_stays(history, links, now, x, layer, id);
    }

    /// A graph grows when a new node is linked below a layer, at which it came by a course; it
    /// goes on.
    #[verifier::rlimit(40)]
    proof fn linking_below_grows(
        self,
        history: Seq<Seq<Seq<u32>>>,
        links: Seq<Seq<Seq<u32>>>,
        id: u32,
        c: Course,
        layer: int,
    ) -> (r: (Seq<Seq<Seq<u32>>>, Course))
        requires
            self.made(history, links),
            graph_fits(self.levels, self.m, links),
            self.m >= 1,
            self.ef >= 1,
            layer >= -1,
            id >= self.first,
            self.is_course(id, c),
            layer == self.layer(id, c, c.found.len() as int),
            sits_at(self.levels, id, layer),
            sits_at(self.levels, c.cur, layer),
            all_good(c.entries(c.found.len() as int), layer_nodes(self.levels, layer)),
            forall|d: int|
                0 <= d < c.found.len() ==> #[trigger] self.is_joined(history, id, c, d),
            forall|l: int, x: u32|
                0 <= l <= layer && x < history.len() ==> #[trigger] strangers(history, id, l, x),
        ensures
            self.made(
                r.0,
                linked_below(
                    self.store,
                    self.m,
                    self.ef,
                    links,
                    id,
                    c.cur,
                    c.entries(c.found.len() as int),
                    layer,
                ),
            ),
            extends(history, r.0),
            self.is_full_course(id, r.1),
            forall|d: int|
                0 <= d < r.1.found.len() ==> #[trigger] self.is_joined(r.0, id, r.1, d),
        decreases layer + 1,
    {
        let k = c.found.len() as int;
        if layer < 0 {
            nothing_more(history);
            (history, c)
        } else {
            let entries = c.entries(k);
            let best = found(self.store, self.ef, links, id, layer, entries);
            found_are_others(self.store, self.levels, self.m, self.ef, links, id, layer, entries);
            selected_are_others(self.store, self.levels, self.m, best, id, layer);
            let list = selected(self.store, best, share(self.m, layer));
            let n = list.len() as int;
            self.found_may_be_found(history, links, id, layer, entries);
            let e = Course { found: c.found.push(best), ..c };
            self.course_goes_on(id, c, best);
            assert forall|i: int| 0 <= i < n implies self.may_select(
                id,
                layer,
                #[trigger] list[i],
            ) by {
                reveal(Ground::may_select);
                assert(list.contains(list[i]));
                assert(self.chosen(id, e, k) == list);
            }
            joining_fits(self.store, self.levels, self.m, links, id, list, layer, n);
            assert forall|i: int| 0 <= i < n implies strangers(
                history,
                id,
                layer,
                #[trigger] list[i],
            ) by {
                assert(list[i] < links.len());
            }
            let h = self.joining_grows(history, links, id, list, layer, n);
            let more = joined(self.store, self.m, links, id, list, layer, n);
            let next = onward(best, c.cur);
            assert(e.entries(k + 1) == next);
            assert forall|i: int| 0 <= i < next.len() implies layer_nodes(self.levels, layer - 1)(
                #[trigger] next[i],
            ) by {
                if best.len() > 0 {
                    assert(sits_at(self.levels, ids(best)[i], layer));
                }
            }
            assert forall|d: int| 0 <= d < e.found.len() implies #[trigger] self.is_joined(
                h,
                id,
                e,
                d,
            ) by {
                if d < k {
                    assert(self.is_joined(history, id, c, d));
                    assert(self.chosen(id, e, d) == self.chosen(id, c, d));
                    self.joined_stays(history, links, h, id, c, d);
                } else {
                    assert forall|x: u32| #[trigger]
                        self.chosen(id, e, d).contains(x) implies sits_at(self.levels, x, layer)
                        && both(h, id, layer, x) by {
                        let i = choose|i: int| 0 <= i < list.len() && list[i] == x;
                        assert(both(h, id, layer, list[i]));
                    }
                }
            }
            let r = self.linking_below_grows(h, more, id, e, layer - 1);
            self.shapes_agree(history, links, h, more);
            extending_twice(history, h, r.0);
            r
        }
    }

    /// A course goes on with what may be found in the next layer.
    pub proof fn course_goes_on(self, id: u32, c: Course, best: Seq<u128>)
        requires
            self.is_course(id, c),
            c.found.len() <= self.top(id, c.entry),
            self.may_find(
                id,
                self.layer(id, c, c.found.len() as int),
                c.entries(c.found.len() as int),
                best,
            ),
        ensures
            self.is_course(id, Course { found: c.found.push(best), ..c }),
            forall|d: int|
                0 <= d < c.found.len() ==> #[trigger] self.chosen(
                    id,
                    Course { found: c.found.push(best), ..c },
                    d,
                ) == self.chosen(id, c, d),
    {
        let e = Course { found: c.found.push(best), ..c };
        assert forall|d: int| 0 <= d < e.found.len() implies self.may_find(
            id,
            self.layer(id, e, d),
            e.entries(d),
            #[trigger] e.found[d],
        ) by {
            assert(e.entries(d) == c.entries(d));
            if d < c.found.len() {
                assert(self.may_find(id, self.layer(id, c, d), c.entries(d), c.found[d]));
            }
        }
    }

    /// What was joined stays joined.
    pub proof fn joined_stays(
        self,
        history: Seq<Seq<Seq<u32>>>,
        links: Seq<Seq<Seq<u32>>>,
        now: Seq<Seq<Seq<u32>>>,
        id: u32,
        c: Course,
        d: int,
    )
        requires
            self.made(history, links),
            graph_fits(self.levels, self.m, links),
            extends(history, now),
            sits_at(self.levels, id, self.layer(id, c, d)),
            self.layer(id, c, d) >= 0,
            self.is_joined(history, id, c, d),
        ensures
            self.is_joined(now, id, c, d),
    {
        let l = self.layer(id, c, d);
        assert forall|x: u32| #[trigger] self.chosen(id, c, d).contains(x) implies sits_at(
            self.levels,
            x,
            l,
        ) && both(now, id, l, x) by {
            self.both_stays(history, links, now, id, l, x);
        }
    }

    /// A graph grows when a new node is linked.
    pub proof fn linking_grows(
        self,
        history: Seq<Seq<Seq<u32>>>,
        links: Seq<Seq<Seq<u32>>>,
        id: u32,
        entry: u32,
    ) -> (h: Seq<Seq<Seq<u32>>>)
        requires
            self.made(history, links),
            graph_fits(self.levels, self.m, links),
            self.m >= 1,
            self.ef >= 1,
            self.first <= id < self.levels.len(),
            self.may_enter(entry),
            entry != id,
            forall|l: int, x: u32| x < history.len() ==> #[trigger] strangers(history, id, l, x),
        ensures
            self.made(
                h,
                linked(
                    self.store,
                    self.m,
                    self.ef,
                    links,
                    self.levels[id as int] as int,
                    id,
                    entry,
                    self.levels[entry as int] as int,
                ),
            ),
            extends(history, h),
            self.was_linked(h, id),
    {
        let level = self.levels[id as int] as int;
        let max_level = self.levels[entry as int] as int;
        let key = self.key(id);
        let cur = landing(key, Some(id), links, max_level, level + 1, entry);
        self.landing_may_be_reached(history, links, id, entry, max_level, level + 1);
        landing_stays(key, Some(id), self.levels, self.m, links, max_level, level + 1, entry);
        let c = Course { entry, cur, found: Seq::empty() };
        let r = self.linking_below_grows(history, links, id, c, self.top(id, entry));
        assert(self.is_full_course(id, r.1));
        r.0
    }
}

/// A list made by connections holds nothing but what it was made of, and no more than its share.
/// It is not empty if there was a connection.
pub proof fn connections_bring_no_others(
    store: FlatView,
    node: u32,
    list: Seq<u32>,
    more: Seq<u32>,
    cap: int,
)
    requires
        list.len() <= cap,
    ensures
        connected_all(store, node, list, more, cap).len() <= cap,
        forall|x: u32| #[trigger]
            connected_all(store, node, list, more, cap).contains(x) ==> list.contains(x)
                || more.contains(x),
        cap > 0 && more.len() > 0 ==> connected_all(store, node, list, more, cap).len() > 0,
    decreases more.len(),
{
    if more.len() > 0 {
        let before = more.drop_last();
        connections_bring_no_others(store, node, list, before, cap);
        let p = connected_all(store, node, list, before, cap);
        let r = connected_all(store, node, list, more, cap);
        connected_is_bounded(store, node, p, more.last(), cap);
        assert forall|x: u32| #[trigger] r.contains(x) implies list.contains(x) || more.contains(
            x,
        ) by {
            let j = choose|j: int| 0 <= j < r.len() && r[j] == x;
            assert(p.contains(r[j]) || r[j] == more.last());
            if p.contains(x) && before.contains(x) {
                let l = choose|l: int| 0 <= l < before.len() && before[l] == x;
                assert(more[l] == x);
            }
        }
    }
}

/// While there is room in a list, it keeps all connections, in their order.
pub proof fn lists_with_room_keep_all(
    store: FlatView,
    node: u32,
    list: Seq<u32>,
    more: Seq<u32>,
    cap: int,
)
    requires
        list.len() + more.len() <= cap,
    ensures
        connected_all(store, node, list, more, cap) == list + more,
    decreases more.len(),
{
    if more.len() == 0 {
        assert(list + more =~= list);
    } else {
        lists_with_room_keep_all(store, node, list, more.drop_last(), cap);
        assert((list + more.drop_last()).push(more.last()) =~= list + more);
    }
}

/// A connection of two nodes, both ways, is no connection of others.
proof fn pair_joins_no_others(
    history: Seq<Seq<Seq<u32>>>,
    id: u32,
    nb: u32,
    layer: int,
    l: int,
    x: u32,
)
    requires
        id < history.len(),
        nb < history.len(),
        x < history.len(),
        id != nb,
        0 <= layer < history[id as int].len(),
        layer < history[nb as int].len(),
        strangers(history, id, l, x),
        l != layer || x != nb,
    ensures
        strangers(
            noted(noted(history, id as int, layer, nb), nb as int, layer, id),
            id,
            l,
            x,
        ),
{
    let b = noted(history, id as int, layer, nb);
    let h = noted(b, nb as int, layer, id);
    assert(h[id as int] == b[id as int]);
    assert(h[nb as int] == history[nb as int].update(
        layer,
        history[nb as int][layer].push(id),
    ));
    if l == layer {
        let (was, now) = (history[id as int][l], h[id as int][l]);
        assert(now == was.push(nb));
        if now.contains(x) {
            let i = choose|i: int| 0 <= i < now.len() && now[i] == x;
            assert(was[i] == x);
        }
    }
}

/// Connections hold themselves.
pub proof fn nothing_more(a: Seq<Seq<Seq<u32>>>)
    ensures
        extends(a, a),
{
    reveal(extends);
}

/// What holds those made before holds those before that.
pub proof fn extending_twice(
    a: Seq<Seq<Seq<u32>>>,
    b: Seq<Seq<Seq<u32>>>,
    c: Seq<Seq<Seq<u32>>>,
)
    requires
        extends(a, b),
        extends(b, c),
        a.len() == b.len(),
        forall|i: int| 0 <= i < a.len() ==> (#[trigger] a[i]).len() == b[i].len(),
    ensures
        extends(a, c),
{
    reveal(extends);
    assert forall|i: int, l: int, x: u32| #[trigger]
        a[i][l].contains(x) && 0 <= i < a.len() && 0 <= l < a[i].len() implies c[i][l].contains(
        x,
    ) by {
        assert(b[i][l].contains(x));
    }
}

/// A search of a graph reads the neighbors of the nodes that it expands.
proof fn run_is_legal(
    q: Quest,
    graph: spec_fn(u32) -> Seq<u32>,
    entry: Seq<u32>,
    good: spec_fn(u32) -> bool,
    n: int,
    reads: spec_fn(u32, Seq<u32>) -> bool,
    steps: nat,
) -> (lists: Seq<Seq<u32>>)
    requires
        q.ef >= 0,
        is_closed(graph, good, n),
        all_good(entry, good),
        forall|x: u32| #[trigger] good(x) ==> reads(x, graph(x)),
    ensures
        is_legal(q, reads, q.start(entry), lists),
        q.played(q.start(entry), lists) == q.run(graph, q.start(entry), steps),
    decreases steps,
{
    let b = q.start(entry);
    if steps == 0 {
        Seq::empty()
    } else {
        let m = (steps - 1) as nat;
        let lists = run_is_legal(q, graph, entry, good, n, reads, m);
        let p = q.run(graph, b, m);
        if q.is_done(p) {
            lists
        } else {
            run_is_sound(q, graph, entry, good, n, m);
            popped_is_sound(q, p, good);
            let x = q.next(p);
            assert(good(x));
            legal_grows(q, reads, b, lists, graph(x));
            lists.push(graph(x))
        }
    }
}

/// A descent in a graph reads the neighbors of the nodes that it comes through. So far it read
/// `before`.
proof fn descent_is_walk(
    key: spec_fn(u32) -> u32,
    exclude: Option<u32>,
    graph: spec_fn(u32) -> Seq<u32>,
    good: spec_fn(u32) -> bool,
    n: int,
    reads: spec_fn(u32, Seq<u32>) -> bool,
    from: u32,
    before: Seq<Seq<u32>>,
)
    requires
        is_closed(graph, good, n),
        forall|x: u32| #[trigger] good(x) ==> reads(x, graph(x)),
        good(walked(key, exclude, from, before)),
        forall|i: int|
            0 <= i < before.len() ==> {
                let p = walked(key, exclude, from, #[trigger] before.take(i));
                reads(p, before[i]) && lt(key(step(key, exclude, before[i], p)), key(p))
            },
    ensures
        is_descent(
            reads,
            key,
            exclude,
            from,
            descended(key, exclude, graph, walked(key, exclude, from, before)),
        ),
    decreases place(key(walked(key, exclude, from, before))) + 0x8000_0000,
{
    let at = walked(key, exclude, from, before);
    let list = graph(at);
    let next = step(key, exclude, list, at);
    let lists = before.push(list);
    walk_grows(key, exclude, from, before, list);
    step_is_nearest(key, exclude, list, list.len() as int, at);
    if lt(key(next), key(at)) {
        let j = choose|j: int| 0 <= j < list.len() && list[j] == next;
        assert(good(graph(at)[j]));
        assert forall|i: int| 0 <= i < lists.len() implies {
            let p = walked(key, exclude, from, #[trigger] lists.take(i));
            reads(p, lists[i]) && lt(key(step(key, exclude, lists[i], p)), key(p))
        } by {
            if i < before.len() {
                assert(lists.take(i) == before.take(i));
            }
        }
        descent_is_walk(key, exclude, graph, good, n, reads, from, lists);
    } else {
        assert forall|i: int| 0 <= i < lists.len() implies #[trigger] is_look(
            reads,
            key,
            exclude,
            from,
            lists,
            i,
        ) by {
            if i < before.len() {
                assert(lists.take(i) == before.take(i));
            }
        }
        assert(next == at);
        assert(is_walk(reads, key, exclude, from, lists));
    }
}

} // verus!
