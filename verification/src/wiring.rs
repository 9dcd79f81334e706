//! How a new node is linked into a layered graph.

use vstd::prelude::*;
use crate::arith::Arithmetic;
use crate::beam::candidate_is_exact;
use crate::descent::{descended, greedy_descend, plain_descent};
use crate::exploration::outcome_has_a_result;
use crate::flat::{FlatIndex, FlatView};
use crate::graph::{
    adjacency, is_outcome, keeps, layers_of, links_of, node_key, plain_outcome, quest,
    reads_of, search_layer, Graph, Plain,
};
use crate::ranked::{id_in, sorted_is, to_id};
use crate::rows::row;
use crate::select::{
    connect, connected, connected_is_bounded, ids, kept_is_diverse, select_neighbors, selected,
    selected_are_candidates,
};

verus! {

/// How many neighbors a node may have in a layer.
pub open spec fn share(m: int, layer: int) -> int {
    if layer == 0 {
        2 * m
    } else {
        m
    }
}

/// A node is there, and in a layer.
pub open spec fn sits_at(levels: Seq<usize>, id: u32, layer: int) -> bool {
    id < levels.len() && levels[id as int] >= layer
}

/// The nodes of a layer.
pub open spec fn layer_nodes(levels: Seq<usize>, layer: int) -> spec_fn(u32) -> bool {
    |id: u32| sits_at(levels, id, layer)
}

/// Neighbors are other nodes of the layer, and no more than a node may have.
pub open spec fn list_fits(
    levels: Seq<usize>,
    m: int,
    node: int,
    layer: int,
    list: Seq<u32>,
) -> bool {
    &&& list.len() <= share(m, layer)
    &&& forall|i: int|
        0 <= i < list.len() ==> (#[trigger] list[i]) != node && sits_at(levels, list[i], layer)
}

/// A node has a list of neighbors in each layer up to its own.
pub open spec fn node_fits(levels: Seq<usize>, m: int, node: int, lists: Seq<Seq<u32>>) -> bool {
    &&& 0 <= node < levels.len()
    &&& lists.len() == levels[node] + 1
    &&& forall|layer: int|
        0 <= layer < lists.len() ==> list_fits(levels, m, node, layer, #[trigger] lists[layer])
}

/// Every node fits.
pub open spec fn graph_fits(levels: Seq<usize>, m: int, links: Seq<Seq<Seq<u32>>>) -> bool {
    &&& links.len() == levels.len()
    &&& forall|i: int| 0 <= i < links.len() ==> node_fits(levels, m, i, #[trigger] links[i])
}

/// Where the descent through the layers from `top` down to `bottom` ends.
pub open spec fn landing(
    key: spec_fn(u32) -> u32,
    exclude: Option<u32>,
    links: Seq<Seq<Seq<u32>>>,
    top: int,
    bottom: int,
    at: u32,
) -> u32
    decreases top - bottom + 1,
{
    if top < bottom {
        at
    } else {
        landing(
            key,
            exclude,
            links,
            top - 1,
            bottom,
            descended(key, exclude, adjacency(links, top), at),
        )
    }
}

/// A descent through the layers can be made in two parts.
pub proof fn landing_in_parts(
    key: spec_fn(u32) -> u32,
    exclude: Option<u32>,
    links: Seq<Seq<Seq<u32>>>,
    top: int,
    middle: int,
    bottom: int,
    at: u32,
)
    requires
        bottom <= middle + 1,
        middle <= top,
    ensures
        landing(key, exclude, links, top, bottom, at) == landing(
            key,
            exclude,
            links,
            middle,
            bottom,
            landing(key, exclude, links, top, middle + 1, at),
        ),
    decreases top - middle,
{
    if middle < top {
        let next = descended(key, exclude, adjacency(links, top), at);
        landing_in_parts(key, exclude, links, top - 1, middle, bottom, next);
    }
}

/// The graph after one list of neighbors was replaced.
pub open spec fn with_list(
    links: Seq<Seq<Seq<u32>>>,
    node: int,
    layer: int,
    list: Seq<u32>,
) -> Seq<Seq<Seq<u32>>> {
    links.update(node, links[node].update(layer, list))
}

/// The graph after a node was connected to one more neighbor.
pub open spec fn connected_at(
    store: FlatView,
    m: int,
    links: Seq<Seq<Seq<u32>>>,
    node: u32,
    neighbor: u32,
    layer: int,
) -> Seq<Seq<Seq<u32>>> {
    with_list(
        links,
        node as int,
        layer,
        connected(store, node, links[node as int][layer], neighbor, share(m, layer)),
    )
}

/// The graph after a node and each of the first `n` nodes of a list were connected, both
/// ways.
pub open spec fn joined(
    store: FlatView,
    m: int,
    links: Seq<Seq<Seq<u32>>>,
    id: u32,
    list: Seq<u32>,
    layer: int,
    n: int,
) -> Seq<Seq<Seq<u32>>>
    decreases n,
{
    if n <= 0 {
        links
    } else {
        let p = joined(store, m, links, id, list, layer, n - 1);
        connected_at(
            store,
            m,
            connected_at(store, m, p, id, list[n - 1], layer),
            list[n - 1],
            id,
            layer,
        )
    }
}

/// The candidates that a node finds in a layer, nearest first.
pub open spec fn found(
    store: FlatView,
    ef: int,
    links: Seq<Seq<Seq<u32>>>,
    id: u32,
    layer: int,
    entries: Seq<u32>,
) -> Seq<u128> {
    quest(store, row(store.data, store.dim, id as int), None, Some(id), ef).outcome(
        adjacency(links, layer),
        entries,
    ).best
}

/// The graph after a node was linked in the layers from `layer` down.
pub open spec fn linked_below(
    store: FlatView,
    m: int,
    ef: int,
    links: Seq<Seq<Seq<u32>>>,
    id: u32,
    cur: u32,
    entries: Seq<u32>,
    layer: int,
) -> Seq<Seq<Seq<u32>>>
    decreases layer + 1,
{
    if layer < 0 {
        links
    } else {
        let best = found(store, ef, links, id, layer, entries);
        let list = selected(store, best, share(m, layer));
        linked_below(
            store,
            m,
            ef,
            joined(store, m, links, id, list, layer, list.len() as int),
            id,
            cur,
            if best.len() == 0 {
                seq![cur]
            } else {
                ids(best)
            },
            layer - 1,
        )
    }
}

/// The graph after a node was linked.
pub open spec fn linked(
    store: FlatView,
    m: int,
    ef: int,
    links: Seq<Seq<Seq<u32>>>,
    level: int,
    id: u32,
    entry: u32,
    max_level: int,
) -> Seq<Seq<Seq<u32>>> {
    let key = node_key(store, row(store.data, store.dim, id as int));
    let cur = landing(key, Some(id), links, max_level, level + 1, entry);
    linked_below(
        store,
        m,
        ef,
        links,
        id,
        cur,
        seq![cur],
        if level <= max_level {
            level
        } else {
            max_level
        },
    )
}

/// In a graph that fits, neighbors in a layer are nodes of the layer.
pub(crate) proof fn plain_keeps(g: &Plain, levels: Seq<usize>, m: int, layer: int)
    requires
        graph_fits(levels, m, links_of(g.links@)),
        layer >= 0,
    ensures
        keeps(g, layer, levels.len() as int, layer_nodes(levels, layer)),
{
    let good = layer_nodes(levels, layer);
    let links = links_of(g.links@);
    assert forall|id: u32, list: Seq<u32>|
        good(id) && #[trigger] g.may_read(id, layer, list) implies forall|i: int|
        0 <= i < list.len() ==> good(#[trigger] list[i]) by {
        assert(node_fits(levels, m, id as int, links[id as int]));
        assert(list_fits(levels, m, id as int, layer, links[id as int][layer]));
        assert(list == links[id as int][layer]);
    }
}

/// Connecting two nodes of a layer keeps the graph fitting.
pub proof fn connecting_fits(
    store: FlatView,
    levels: Seq<usize>,
    m: int,
    links: Seq<Seq<Seq<u32>>>,
    node: u32,
    neighbor: u32,
    layer: int,
)
    requires
        graph_fits(levels, m, links),
        m >= 0,
        layer >= 0,
        node != neighbor,
        sits_at(levels, node, layer),
        sits_at(levels, neighbor, layer),
    ensures
        graph_fits(levels, m, connected_at(store, m, links, node, neighbor, layer)),
{
    let i = node as int;
    assert(node_fits(levels, m, i, links[i]));
    let list = links[i][layer];
    assert(list_fits(levels, m, i, layer, list));
    fitting_grows(store, levels, m, node, list, neighbor, layer);
    let r = connected_at(store, m, links, node, neighbor, layer);
    assert forall|j: int| 0 <= j < r.len() implies node_fits(levels, m, j, #[trigger] r[j]) by {
        assert(node_fits(levels, m, j, links[j]));
        if j == i {
            assert forall|l: int| 0 <= l < r[j].len() implies list_fits(
                levels,
                m,
                j,
                l,
                #[trigger] r[j][l],
            ) by {
                assert(list_fits(levels, m, j, l, links[j][l]));
            }
        }
    }
}

/// A fitting list fits with one more neighbor.
pub proof fn fitting_grows(
    store: FlatView,
    levels: Seq<usize>,
    m: int,
    node: u32,
    list: Seq<u32>,
    neighbor: u32,
    layer: int,
)
    requires
        m >= 0,
        list_fits(levels, m, node as int, layer, list),
        node != neighbor,
        sits_at(levels, neighbor, layer),
    ensures
        list_fits(
            levels,
            m,
            node as int,
            layer,
            connected(store, node, list, neighbor, share(m, layer)),
        ),
{
    let r = connected(store, node, list, neighbor, share(m, layer));
    connected_is_bounded(store, node, list, neighbor, share(m, layer));
    assert forall|i: int| 0 <= i < r.len() implies (#[trigger] r[i]) != node && sits_at(
        levels,
        r[i],
        layer,
    ) by {
        if list.contains(r[i]) {
            let j = choose|j: int| 0 <= j < list.len() && list[j] == r[i];
            assert(list[j] != node);
        }
    }
}

/// Where nodes are linked: the vectors, the layer that each node reaches up to, and how many
/// neighbors and candidates are kept.
pub(crate) struct Site<'a> {
    pub store: &'a FlatIndex,
    pub levels: &'a Vec<usize>,
    pub m: usize,
    pub ef: usize,
}

impl Site<'_> {
    pub(crate) open spec fn wf(&self) -> bool {
        &&& self.levels@.len() == self.store@.len()
        &&& self.store@.len() <= 0x1_0000_0000
        &&& 0 < self.m
        &&& 0 < self.ef
        &&& 2 * self.m <= usize::MAX
    }

    /// How many neighbors a node may have in a layer.
    #[inline]
    pub(crate) fn cap(&self, layer: usize) -> (r: usize)
        requires
            self.wf(),
        ensures
            r == share(self.m as int, layer as int),
    {
        if layer == 0 {
            self.m * 2
        } else {
            self.m
        }
    }

    /// The neighbors that a node selects in a layer, and the candidates it found.
    pub(crate) fn plan<A: Arithmetic, G: Graph>(
        &self,
        g: &G,
        id: u32,
        entries: &[u32],
        layer: usize,
    ) -> (r: (Vec<u32>, Vec<u32>))
        requires
            self.wf(),
            id < self.store@.len(),
            keeps(g, layer as int, self.store@.len(), layer_nodes(self.levels@, layer as int)),
            forall|i: int|
                0 <= i < entries@.len() ==> sits_at(
                    self.levels@,
                    #[trigger] entries@[i],
                    layer as int,
                ),
        ensures
            exists|best: Seq<u128>, seen: Seq<u32>| #[trigger]
                is_outcome(
                    quest(
                        self.store@,
                        row(self.store@.data, self.store@.dim, id as int),
                        None,
                        Some(id),
                        self.ef as int,
                    ),
                    reads_of(g, layer as int),
                    entries@,
                    best,
                    seen,
                ) && r.0@ == selected(self.store@, best, share(self.m as int, layer as int))
                    && r.1@ == ids(best),
            forall|i: int|
                0 <= i < r.0@.len() ==> (#[trigger] r.0@[i]) != id && sits_at(
                    self.levels@,
                    r.0@[i],
                    layer as int,
                ),
            forall|i: int|
                0 <= i < r.1@.len() ==> (#[trigger] r.1@[i]) != id && sits_at(
                    self.levels@,
                    r.1@[i],
                    layer as int,
                ),
            entries@.len() > 0 && entries@[0] != id ==> r.0@.len() > 0,
    {
        let ghost good = layer_nodes(self.levels@, layer as int);
        let ghost q = quest(
            self.store@,
            row(self.store@.data, self.store@.dim, id as int),
            None,
            Some(id),
            self.ef as int,
        );
        let v: &[u32] = self.store.vector(id as usize);
        let (best, seen) = search_layer::<A, G>(
            self.store,
            g,
            v,
            entries,
            self.ef,
            layer,
            None,
            Some(id),
            Ghost(good),
        );
        proof {
            assert forall|i: int| 0 <= i < best@.len() implies {
                &&& id_in(#[trigger] best@[i]) < self.store@.len()
                &&& id_in(best@[i]) <= u32::MAX
                &&& id_in(best@[i]) as u32 != id
                &&& good(id_in(best@[i]) as u32)
            } by {
                assert(best@.contains(best@[i]));
                let j = choose|j: u32| seen@.contains(j) && best@[i] == #[trigger] q.candidate(j);
                candidate_is_exact(q, j);
                assert(seen@.contains(j));
                assert(good(j));
            }
        }
        let list: Vec<u32> = select_neighbors::<A>(
            self.store,
            best.as_slice(),
            self.cap(layer),
        );
        let next: Vec<u32> = to_ids(best.as_slice());
        proof {
            sorted_is(best@, best@);
            selected_are_candidates(self.store@, best@, share(self.m as int, layer as int));
            assert forall|i: int| 0 <= i < list@.len() implies (#[trigger] list@[i]) != id
                && sits_at(self.levels@, list@[i], layer as int) by {
                assert(ids(best@).contains(list@[i]));
                let j = choose|j: int| 0 <= j < ids(best@).len() && ids(best@)[j] == list@[i];
                assert(good(id_in(best@[j]) as u32));
            }
            assert forall|i: int| 0 <= i < next@.len() implies (#[trigger] next@[i]) != id
                && sits_at(self.levels@, next@[i], layer as int) by {
                assert(good(id_in(best@[i]) as u32));
            }
            if entries@.len() > 0 && entries@[0] != id {
                outcome_has_a_result(
                    q,
                    reads_of(g, layer as int),
                    entries@,
                    good,
                    best@,
                    seen@,
                    0,
                );
                kept_is_diverse(
                    self.store@,
                    best@,
                    share(self.m as int, layer as int),
                    best@.len() as int,
                );
            }
            assert(is_outcome(q, reads_of(g, layer as int), entries@, best@, seen@));
        }
        (list, next)
    }

    /// Connects a node to one more neighbor.
    pub(crate) fn connect_at<A: Arithmetic>(
        &self,
        links: &mut Vec<Vec<Vec<u32>>>,
        node: u32,
        neighbor: u32,
        layer: usize,
    )
        requires
            self.wf(),
            graph_fits(self.levels@, self.m as int, links_of(old(links)@)),
            node != neighbor,
            sits_at(self.levels@, node, layer as int),
            sits_at(self.levels@, neighbor, layer as int),
        ensures
            links_of(final(links)@) == connected_at(
                self.store@,
                self.m as int,
                links_of(old(links)@),
                node,
                neighbor,
                layer as int,
            ),
            graph_fits(self.levels@, self.m as int, links_of(final(links)@)),
    {
        let ghost before = links_of(links@);
        let ghost i = node as int;
        proof {
            assert(node_fits(self.levels@, self.m as int, i, before[i]));
            assert(before[i] == layers_of(links@[i]@));
            assert(list_fits(
                self.levels@,
                self.m as int,
                i,
                layer as int,
                before[i][layer as int],
            ));
            connecting_fits(
                self.store@,
                self.levels@,
                self.m as int,
                before,
                node,
                neighbor,
                layer as int,
            );
        }
        let cap: usize = self.cap(layer);
        let lists: &mut Vec<Vec<u32>> = &mut links[node as usize];
        let list: &mut Vec<u32> = &mut lists[layer];
        connect::<A>(self.store, node, list, neighbor, cap);
        proof {
            let after = links_of(links@);
            let r = connected_at(
                self.store@,
                self.m as int,
                before,
                node,
                neighbor,
                layer as int,
            );
            assert(after.len() == r.len());
            assert forall|j: int| 0 <= j < r.len() implies after[j] == r[j] by {
                assert(after[j] =~= r[j]);
            }
            assert(after =~= r);
        }
    }

    /// Connects a node and each node of a list, both ways.
    fn join<A: Arithmetic>(
        &self,
        links: &mut Vec<Vec<Vec<u32>>>,
        id: u32,
        list: &[u32],
        layer: usize,
    )
        requires
            self.wf(),
            graph_fits(self.levels@, self.m as int, links_of(old(links)@)),
            sits_at(self.levels@, id, layer as int),
            forall|i: int|
                0 <= i < list@.len() ==> (#[trigger] list@[i]) != id && sits_at(
                    self.levels@,
                    list@[i],
                    layer as int,
                ),
        ensures
            links_of(final(links)@) == joined(
                self.store@,
                self.m as int,
                links_of(old(links)@),
                id,
                list@,
                layer as int,
                list@.len() as int,
            ),
            graph_fits(self.levels@, self.m as int, links_of(final(links)@)),
    {
        let ghost before = links_of(links@);
        let mut i: usize = 0;
        while i < list.len()
            invariant
                i <= list@.len(),
                self.wf(),
                graph_fits(self.levels@, self.m as int, links_of(links@)),
                sits_at(self.levels@, id, layer as int),
                forall|i: int|
                    0 <= i < list@.len() ==> (#[trigger] list@[i]) != id && sits_at(
                        self.levels@,
                        list@[i],
                        layer as int,
                    ),
                links_of(links@) == joined(
                    self.store@,
                    self.m as int,
                    before,
                    id,
                    list@,
                    layer as int,
                    i as int,
                ),
            decreases list@.len() - i,
        {
            let nb: u32 = list[i];
            self.connect_at::<A>(links, id, nb, layer);
            self.connect_at::<A>(links, nb, id, layer);
            i += 1;
        }
    }

    /// Links a node, with nobody else at work.
    pub(crate) fn link<A: Arithmetic>(
        &self,
        links: &mut Vec<Vec<Vec<u32>>>,
        id: u32,
        entry: u32,
        max_level: usize,
    )
        requires
            self.wf(),
            graph_fits(self.levels@, self.m as int, links_of(old(links)@)),
            id < self.store@.len(),
            sits_at(self.levels@, entry, max_level as int),
        ensures
            links_of(final(links)@) == linked(
                self.store@,
                self.m as int,
                self.ef as int,
                links_of(old(links)@),
                self.levels@[id as int] as int,
                id,
                entry,
                max_level as int,
            ),
            graph_fits(self.levels@, self.m as int, links_of(final(links)@)),
    {
        let level: usize = self.levels[id as usize];
        let cur: u32 = self.land::<A>(links, id, entry, max_level, level);
        let top: usize = if level <= max_level {
            level
        } else {
            max_level
        };
        let mut entries: Vec<u32> = vec![cur];
        assert(entries@ =~= seq![cur]);
        let ghost goal = linked(
            self.store@,
            self.m as int,
            self.ef as int,
            links_of(links@),
            level as int,
            id,
            entry,
            max_level as int,
        );
        let height: usize = links[id as usize].len();
        proof {
            let before = links_of(links@);
            assert(node_fits(self.levels@, self.m as int, id as int, before[id as int]));
            assert(height == level + 1);
        }
        let mut below: usize = top + 1;
        while below > 0
            invariant
                self.wf(),
                below <= top + 1,
                top <= level,
                level == self.levels@[id as int],
                id < self.store@.len(),
                graph_fits(self.levels@, self.m as int, links_of(links@)),
                sits_at(self.levels@, cur, top as int),
                forall|i: int|
                    0 <= i < entries@.len() ==> sits_at(
                        self.levels@,
                        #[trigger] entries@[i],
                        below - 1,
                    ),
                goal == linked_below(
                    self.store@,
                    self.m as int,
                    self.ef as int,
                    links_of(links@),
                    id,
                    cur,
                    entries@,
                    below - 1,
                ),
            decreases below,
        {
            below -= 1;
            let plain: Plain = Plain { links: &*links };
            proof {
                plain_keeps(&plain, self.levels@, self.m as int, below as int);
            }
            let (list, next) = self.plan::<A, Plain>(&plain, id, entries.as_slice(), below);
            let ghost q = quest(
                self.store@,
                row(self.store@.data, self.store@.dim, id as int),
                None,
                Some(id),
                self.ef as int,
            );
            proof {
                let (best, seen) = choose|best: Seq<u128>, seen: Seq<u32>| #[trigger]
                    is_outcome(q, reads_of(&plain, below as int), entries@, best, seen)
                        && list@ == selected(self.store@, best, share(self.m as int, below as int))
                        && next@ == ids(best);
                plain_outcome(q, &plain, below as int, entries@, best, seen);
                assert(best == found(
                    self.store@,
                    self.ef as int,
                    links_of(links@),
                    id,
                    below as int,
                    entries@,
                ));
                assert((best.len() == 0) == (next@.len() == 0));
            }
            self.join::<A>(links, id, list.as_slice(), below);
            entries = next;
            if entries.len() == 0 {
                entries = vec![cur];
                assert(entries@ =~= seq![cur]);
            }
        }
    }

    /// Descends to the layer above which a node has no place.
    fn land<A: Arithmetic>(
        &self,
        links: &Vec<Vec<Vec<u32>>>,
        id: u32,
        entry: u32,
        max_level: usize,
        level: usize,
    ) -> (r: u32)
        requires
            self.wf(),
            graph_fits(self.levels@, self.m as int, links_of(links@)),
            id < self.store@.len(),
            sits_at(self.levels@, entry, max_level as int),
        ensures
            r == landing(
                node_key(self.store@, row(self.store@.data, self.store@.dim, id as int)),
                Some(id),
                links_of(links@),
                max_level as int,
                level + 1,
                entry,
            ),
            sits_at(self.levels@, r, if level < max_level { level + 1 } else { max_level as int }),
    {
        let v: &[u32] = self.store.vector(id as usize);
        let ghost key = node_key(self.store@, v@);
        let plain: Plain = Plain { links };
        let mut cur: u32 = entry;
        let mut layer: usize = max_level;
        while layer > level
            invariant
                self.wf(),
                graph_fits(self.levels@, self.m as int, links_of(links@)),
                plain.links@ == links@,
                v@.len() == self.store@.dim,
                key == node_key(self.store@, v@),
                layer <= max_level,
                level <= max_level ==> level <= layer,
                level > max_level ==> layer == max_level,
                sits_at(
                    self.levels@,
                    cur,
                    if layer < max_level { layer + 1 } else { max_level as int },
                ),
                landing(
                    key,
                    Some(id),
                    links_of(links@),
                    max_level as int,
                    level + 1,
                    entry,
                ) == landing(key, Some(id), links_of(links@), layer as int, level + 1, cur),
            decreases layer,
        {
            proof {
                plain_keeps(&plain, self.levels@, self.m as int, layer as int);
            }
            let next: u32 = greedy_descend::<A, Plain>(
                self.store,
                &plain,
                v,
                cur,
                layer,
                Some(id),
                Ghost(layer_nodes(self.levels@, layer as int)),
            );
            proof {
                plain_descent(&plain, layer as int, key, Some(id), cur, next);
            }
            cur = next;
            layer -= 1;
        }
        cur
    }
}

/// Whether a list of neighbors fits.
fn is_list_fitting(levels: &[usize], m: usize, node: usize, layer: usize, list: &[u32]) -> (r: bool)
    requires
        2 * m <= usize::MAX,
    ensures
        r == list_fits(levels@, m as int, node as int, layer as int, list@),
{
    let cap: usize = if layer == 0 {
        m * 2
    } else {
        m
    };
    if list.len() > cap {
        return false;
    }
    let mut i: usize = 0;
    while i < list.len()
        invariant
            i <= list@.len() <= cap,
            cap == share(m as int, layer as int),
            forall|j: int|
                0 <= j < i ==> (#[trigger] list@[j]) != node && sits_at(
                    levels@,
                    list@[j],
                    layer as int,
                ),
        decreases list@.len() - i,
    {
        let id: usize = list[i] as usize;
        if id == node || id >= levels.len() || levels[id] < layer {
            assert(!(list@[i as int] != node && sits_at(levels@, list@[i as int], layer as int)));
            return false;
        }
        i += 1;
    }
    true
}

/// Whether the lists of a node fit.
fn is_node_fitting(levels: &[usize], m: usize, node: usize, lists: &Vec<Vec<u32>>) -> (r: bool)
    requires
        2 * m <= usize::MAX,
        node < levels@.len(),
    ensures
        r == node_fits(levels@, m as int, node as int, layers_of(lists@)),
{
    let n: usize = lists.len();
    if n == 0 || n - 1 != levels[node] {
        return false;
    }
    let mut i: usize = 0;
    while i < n
        invariant
            i <= n,
            n == lists@.len(),
            2 * m <= usize::MAX,
            forall|l: int|
                0 <= l < i ==> list_fits(
                    levels@,
                    m as int,
                    node as int,
                    l,
                    #[trigger] layers_of(lists@)[l],
                ),
        decreases n - i,
    {
        if !is_list_fitting(levels, m, node, i, lists[i].as_slice()) {
            assert(!list_fits(
                levels@,
                m as int,
                node as int,
                i as int,
                layers_of(lists@)[i as int],
            ));
            return false;
        }
        i += 1;
    }
    true
}

/// Whether every node fits.
pub(crate) fn is_graph_fitting(levels: &[usize], m: usize, links: &Vec<Vec<Vec<u32>>>) -> (r: bool)
    requires
        2 * m <= usize::MAX,
    ensures
        r == graph_fits(levels@, m as int, links_of(links@)),
{
    let n: usize = links.len();
    if n != levels.len() {
        return false;
    }
    let mut i: usize = 0;
    while i < n
        invariant
            i <= n,
            n == links@.len(),
            n == levels@.len(),
            2 * m <= usize::MAX,
            forall|j: int|
                0 <= j < i ==> node_fits(levels@, m as int, j, #[trigger] links_of(links@)[j]),
        decreases n - i,
    {
        if !is_node_fitting(levels, m, i, &links[i]) {
            assert(!node_fits(levels@, m as int, i as int, links_of(links@)[i as int]));
            return false;
        }
        i += 1;
    }
    true
}

/// The ids of candidates.
pub(crate) fn to_ids(candidates: &[u128]) -> (r: Vec<u32>)
    requires
        forall|i: int| 0 <= i < candidates@.len() ==> id_in(#[trigger] candidates@[i]) <= u32::MAX,
    ensures
        r@ == ids(candidates@),
{
    let mut r: Vec<u32> = Vec::new();
    let mut i: usize = 0;
    while i < candidates.len()
        invariant
            i <= candidates@.len(),
            r@.len() == i,
            forall|j: int| 0 <= j < i ==> r@[j] == ids(candidates@)[j],
        decreases candidates@.len() - i,
    {
        r.push(to_id(candidates[i]) as u32);
        i += 1;
    }
    assert(r@ =~= ids(candidates@));
    r
}

} // verus!
