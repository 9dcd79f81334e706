//! Approximate search in a layered navigable graph.
//!
//! Every node has a level. It has a list of neighbors in each layer up to that; the lowest
//! layer holds all nodes. A search descends greedily through the upper layers, from the
//! entry point, and explores the lowest one best-first.

use vstd::prelude::*;
use crate::arith::Arithmetic;
use crate::beam::{candidate_is_exact, Beam, Quest};
use crate::binary32::all_finite;
use crate::descent::{greedy_descend, plain_descent};
use crate::distance::{natural, natural_of};
use crate::flat::{FlatIndex, FlatView};
use crate::graph::{
    adjacency, layers_of, links_of, node_key, plain_outcome, quest, search_layer, Plain,
};
use crate::growth::{has_neighbors, lower, Ground};
use crate::linking::linking_gives_neighbors;
use crate::metric::Metric;
use crate::parallel::{run, PoolUnavailable};
use crate::ranked::{first, id_in, key_in, to_id, to_key};
use crate::rng::{draw, state_after, SplitMix, GOLDEN};
use crate::rows::{
    capacity, covers, mask, row, row_at, row_count, row_fits, rows_counted,
};
use crate::shared::link_all;
use crate::topk::{
    distance_reported, id_reported, report, report_rows, reports, reports_rows, slot,
};
use crate::wiring::{
    graph_fits, is_graph_fitting, landing, landing_in_parts, layer_nodes, linked, list_fits,
    node_fits, plain_keeps, sits_at, Site,
};

verus! {

/// How a graph is built and searched.
#[derive(Clone, Copy, Debug)]
pub struct HnswParams {
    /// How many neighbors a node keeps in each upper layer; in the lowest one twice as many.
    pub m: usize,
    /// How many candidates are kept while a node is linked.
    pub ef_construction: usize,
    /// How many candidates are kept in a search that does not say.
    pub ef_search: usize,
    /// Where the levels of the nodes come from.
    pub seed: u64,
}

impl Default for HnswParams {
    fn default() -> (r: Self)
        ensures
            r == (HnswParams { m: 16, ef_construction: 200, ef_search: 64, seed: 0x5EED }),
    {
        HnswParams { m: 16, ef_construction: 200, ef_search: 64, seed: 0x5EED }
    }
}

/// What a graph index holds.
#[verifier::ext_equal]
pub struct HnswView {
    pub params: HnswParams,
    pub ml: u64,
    pub store: FlatView,
    pub links: Seq<Seq<Seq<u32>>>,
    pub levels: Seq<usize>,
    pub entry: Option<u32>,
    pub max_level: usize,
    pub rng_state: u64,
}

impl HnswView {
    /// How many vectors there are.
    pub open spec fn len(self) -> int {
        self.store.len()
    }

    /// What holds of every graph index. Each vector is a node with a level. In each layer up
    /// to its level a node has neighbors: other nodes of that layer, no more than its share.
    /// The entry point is a node with the highest level of all.
    pub open spec fn fits(self) -> bool {
        &&& self.store.fits()
        &&& 0 <= self.len() <= 0x1_0000_0000
        &&& self.params.m >= 2
        &&& 2 * self.params.m <= usize::MAX
        &&& self.params.ef_construction >= 1
        &&& self.levels.len() == self.len()
        &&& graph_fits(self.levels, self.params.m as int, self.links)
        &&& self.max_level <= u16::MAX
        &&& forall|i: int| 0 <= i < self.levels.len() ==> #[trigger] self.levels[i] <= self.max_level
        &&& match self.entry {
            Some(e) => e < self.len() && self.levels[e as int] == self.max_level,
            None => self.len() == 0 && self.max_level == 0,
        }
    }

    /// The index with more vectors, whose nodes have levels but no neighbors yet. The first
    /// node of all is the entry point.
    pub open spec fn grown(self, vectors: Seq<u32>, levels: Seq<usize>) -> HnswView {
        HnswView {
            store: FlatView { data: self.store.data + vectors, ..self.store },
            links: self.links + Seq::new(levels.len(), |i: int| bare(levels[i])),
            levels: self.levels + levels,
            entry: if self.entry is None {
                Some(0)
            } else {
                self.entry
            },
            max_level: if self.entry is None {
                levels[0]
            } else {
                self.max_level
            },
            rng_state: state_after(self.rng_state, levels.len()),
            ..self
        }
    }

    /// What the graph grows from when the index became `grown` by more vectors.
    pub open spec fn ground(self, grown: HnswView) -> Ground {
        Ground {
            store: grown.store,
            levels: grown.levels,
            m: self.params.m as int,
            ef: self.params.ef_construction as int,
            first: grown.len() - self.to_link(grown.len() - self.len()),
            start: grown.entry->0,
            before: grown.links,
        }
    }

    /// How many of so many more nodes have to be linked.
    pub open spec fn to_link(self, count: int) -> int {
        if self.entry is None {
            count - 1
        } else {
            count
        }
    }

    /// The index after a node was linked. If it is higher than all others it is the entry
    /// point from now on.
    pub open spec fn with_linked(self, id: u32) -> HnswView {
        let level = self.levels[id as int];
        HnswView {
            links: linked(
                self.store,
                self.params.m as int,
                self.params.ef_construction as int,
                self.links,
                level as int,
                id,
                self.entry->0,
                self.max_level as int,
            ),
            entry: if level > self.max_level {
                Some(id)
            } else {
                self.entry
            },
            max_level: if level > self.max_level {
                level
            } else {
                self.max_level
            },
            ..self
        }
    }

    /// The node of the lowest layer from which a search explores.
    pub open spec fn start(self, query: Seq<u32>) -> u32 {
        landing(
            node_key(self.store, query),
            None,
            self.links,
            self.max_level as int,
            1,
            self.entry->0,
        )
    }

    /// What is searched for with a query.
    pub open spec fn quest(self, query: Seq<u32>, k: int, ef: int, filter: Option<Seq<bool>>) -> Quest {
        quest(
            self.store,
            query,
            filter,
            None,
            if ef >= k {
                ef
            } else {
                k
            },
        )
    }

    /// Where the exploration of the lowest layer ends.
    pub open spec fn explored(
        self,
        query: Seq<u32>,
        k: int,
        ef: int,
        filter: Option<Seq<bool>>,
    ) -> Beam {
        self.quest(query, k, ef, filter).outcome(
            adjacency(self.links, 0),
            seq![self.start(query)],
        )
    }

    /// The `k` nearest nodes that a search finds, best first.
    pub open spec fn nearest(
        self,
        query: Seq<u32>,
        k: int,
        ef: int,
        filter: Option<Seq<bool>>,
    ) -> Seq<u128> {
        match self.entry {
            Some(_) => first(self.explored(query, k, ef, filter).best, k),
            None => Seq::empty(),
        }
    }

    /// Step `i` of the descent through the upper layers: the layer, the node at which the
    /// descent left it, and how near that is.
    pub open spec fn descent_step(self, query: Seq<u32>, i: int) -> (u32, u32, u32) {
        let layer = self.max_level - i;
        let key = node_key(self.store, query);
        let at = landing(key, None, self.links, self.max_level as int, layer, self.entry->0);
        (layer as u32, at, natural_of(self.store.metric, key(at)))
    }

    /// A node that was seen in the lowest layer, and how near it is.
    pub open spec fn sight(self, query: Seq<u32>, id: u32) -> (u32, u32, u32) {
        (0, id, natural_of(self.store.metric, node_key(self.store, query)(id)))
    }

    /// The steps of a search: those of the descent, then at most `max_trace` of the nodes
    /// seen in the lowest layer, evenly spread over the order in which they were seen.
    pub open spec fn trace(
        self,
        query: Seq<u32>,
        k: int,
        ef: int,
        max_trace: int,
    ) -> Seq<(u32, u32, u32)> {
        let seen = evenly(self.explored(query, k, ef, None).seen, max_trace);
        Seq::new(self.max_level as nat, |i: int| self.descent_step(query, i)) + Seq::new(
            seen.len(),
            |i: int| self.sight(query, seen[i]),
        )
    }
}

/// The lists of a node without neighbors.
pub open spec fn bare(level: usize) -> Seq<Seq<u32>> {
    Seq::new((level + 1) as nat, |l: int| Seq::empty())
}

/// What a node's level is made of: the upper bits of a draw.
pub open spec fn level_sample(rng_state: u64, i: nat) -> u64 {
    draw(rng_state, i) >> 11
}

/// A graph that fits still does when there are nodes without neighbors besides.
pub proof fn growing_fits(levels: Seq<usize>, more: Seq<usize>, m: int, links: Seq<Seq<Seq<u32>>>)
    requires
        graph_fits(levels, m, links),
        m >= 0,
    ensures
        graph_fits(
            levels + more,
            m,
            links + Seq::new(more.len(), |i: int| bare(more[i])),
        ),
{
    let all = levels + more;
    let r = links + Seq::new(more.len(), |i: int| bare(more[i]));
    assert forall|i: int| 0 <= i < r.len() implies node_fits(all, m, i, #[trigger] r[i]) by {
        if i < links.len() {
            assert(node_fits(levels, m, i, links[i]));
            assert forall|l: int| 0 <= l < r[i].len() implies list_fits(
                all,
                m,
                i,
                l,
                #[trigger] r[i][l],
            ) by {
                let list = links[i][l];
                assert(list_fits(levels, m, i, l, list));
                assert forall|j: int| 0 <= j < list.len() implies (#[trigger] list[j]) != i
                    && sits_at(all, list[j], l) by {
                    assert(sits_at(levels, list[j], l));
                }
            }
        } else {
            assert(r[i] == bare(more[i - links.len()]));
        }
    }
}

/// Which of `len` places is the `i`th of `cap` that are spread evenly over them.
pub open spec fn even_place(i: int, len: int, cap: int) -> int {
    i * (len - 1) / if cap > 1 {
        cap - 1
    } else {
        1
    }
}

/// At most `cap` elements of a sequence, spread evenly.
pub open spec fn evenly(s: Seq<u32>, cap: int) -> Seq<u32> {
    if s.len() <= cap {
        s
    } else {
        Seq::new(cap as nat, |i: int| s[even_place(i, s.len() as int, cap)])
    }
}

/// The `i`th of evenly spread places is one of the places.
pub proof fn even_place_fits(i: int, len: int, cap: int)
    requires
        0 <= i < cap < len,
    ensures
        0 <= even_place(i, len, cap) < len,
        i == 0 ==> even_place(i, len, cap) == 0,
        i == cap - 1 && cap > 1 ==> even_place(i, len, cap) == len - 1,
{
    let d = if cap > 1 {
        cap - 1
    } else {
        1
    };
    assert(0 <= i * (len - 1) <= d * (len - 1)) by (nonlinear_arith)
        requires
            0 <= i <= d,
            len >= 1,
    ;
    assert(0 <= (i * (len - 1)) / d <= len - 1) by (nonlinear_arith)
        requires
            0 <= i * (len - 1) <= d * (len - 1),
            d >= 1,
    ;
    if i == 0 {
        assert((i * (len - 1)) / d == 0) by (nonlinear_arith)
            requires
                i == 0,
                d >= 1,
        ;
    }
    if i == cap - 1 && cap > 1 {
        assert((i * (len - 1)) / d == len - 1) by (nonlinear_arith)
            requires
                i == d,
                d >= 1,
        ;
    }
}

/// A sample has at most `cap` elements. It has the first element, and with more than one place
/// the last one too.
pub proof fn sample_is_capped(s: Seq<u32>, cap: int)
    requires
        cap >= 0,
    ensures
        evenly(s, cap).len() <= cap,
        evenly(s, cap).len() <= s.len(),
        s.len() > 0 && cap > 0 ==> evenly(s, cap)[0] == s[0],
        s.len() > 0 && cap > 1 ==> evenly(s, cap).last() == s.last(),
{
    if s.len() > cap && cap > 0 {
        even_place_fits(0, s.len() as int, cap);
        even_place_fits(cap - 1, s.len() as int, cap);
    }
}

/// At most `cap` elements, spread evenly.
pub fn even_sample(items: &[u32], cap: usize) -> (r: Vec<u32>)
    ensures
        r@ == evenly(items@, cap as int),
{
    let len: usize = items.len();
    let mut r: Vec<u32> = Vec::new();
    if len <= cap {
        r.extend_from_slice(items);
        assert(r@ =~= items@);
        return r;
    }
    if cap == 0 {
        assert(r@ =~= evenly(items@, 0));
        return r;
    }
    let gaps: usize = if cap > 1 {
        cap - 1
    } else {
        1
    };
    let mut i: usize = 0;
    while i < cap
        invariant
            i <= cap,
            0 < cap < len,
            len == items@.len(),
            gaps == if cap > 1 {
                cap - 1
            } else {
                1
            },
            r@.len() == i,
            forall|j: int| 0 <= j < i ==> #[trigger] r@[j] == evenly(items@, cap as int)[j],
        decreases cap - i,
    {
        proof {
            even_place_fits(i as int, len as int, cap as int);
            assert(i * (len - 1) <= u64::MAX * u64::MAX) by (nonlinear_arith)
                requires
                    0 <= i <= u64::MAX,
                    0 <= len - 1 <= u64::MAX,
            ;
        }
        let place: u128 = i as u128 * (len - 1) as u128 / gaps as u128;
        r.push(items[place as usize]);
        i += 1;
    }
    assert(r@ =~= evenly(items@, cap as int));
    r
}

/// The lists of a node without neighbors.
fn bare_lists(level: usize) -> (r: Vec<Vec<u32>>)
    requires
        level <= u16::MAX,
    ensures
        layers_of(r@) == bare(level),
{
    let mut r: Vec<Vec<u32>> = Vec::new();
    r.push(Vec::new());
    let mut i: usize = 0;
    while i < level
        invariant
            i <= level,
            r@.len() == i + 1,
            forall|l: int| 0 <= l < r@.len() ==> (#[trigger] r@[l])@ == Seq::<u32>::empty(),
        decreases level - i,
    {
        r.push(Vec::new());
        i += 1;
    }
    assert(layers_of(r@) =~= bare(level));
    r
}

/// The sum of the first `n` numbers.
pub open spec fn total(s: Seq<usize>, n: int) -> int
    decreases n,
{
    if n <= 0 {
        0
    } else {
        total(s, n - 1) + s[n - 1]
    }
}

/// The sum of the first `n` rows.
pub open spec fn total_of_all(s: Seq<Seq<usize>>, n: int) -> int
    decreases n,
{
    if n <= 0 {
        0
    } else {
        total_of_all(s, n - 1) + total(s[n - 1], s[n - 1].len() as int)
    }
}

/// Each list of a node has room for its neighbors.
pub open spec fn have_room(rooms: Seq<usize>, lists: Seq<Seq<u32>>) -> bool {
    &&& rooms.len() == lists.len()
    &&& forall|l: int|
        0 <= l < lists.len() ==> lists[l].len() <= #[trigger] rooms[l] <= isize::MAX / 4
}

/// Each list of each node has room for its neighbors.
pub open spec fn all_have_room(rooms: Seq<Seq<usize>>, links: Seq<Seq<Seq<u32>>>) -> bool {
    &&& rooms.len() == links.len()
    &&& forall|i: int| 0 <= i < links.len() ==> have_room(#[trigger] rooms[i], links[i])
}

/// A number of bytes, as far as a machine integer can say.
pub open spec fn at_most_max(n: int) -> int {
    if n <= usize::MAX {
        n
    } else {
        usize::MAX as int
    }
}

proof fn total_of_same(s: Seq<usize>, t: Seq<usize>, n: int)
    requires
        n <= s.len(),
        n <= t.len(),
        forall|i: int| 0 <= i < n ==> s[i] == t[i],
    ensures
        total(s, n) == total(t, n),
    decreases n,
{
    if n > 0 {
        total_of_same(s, t, n - 1);
    }
}

proof fn total_of_more(s: Seq<usize>, x: usize)
    ensures
        total(s.push(x), s.len() as int + 1) == total(s, s.len() as int) + x,
{
    total_of_same(s.push(x), s, s.len() as int);
}

proof fn total_of_all_same(s: Seq<Seq<usize>>, t: Seq<Seq<usize>>, n: int)
    requires
        n <= s.len(),
        n <= t.len(),
        forall|i: int| 0 <= i < n ==> s[i] == t[i],
    ensures
        total_of_all(s, n) == total_of_all(t, n),
    decreases n,
{
    if n > 0 {
        total_of_all_same(s, t, n - 1);
    }
}

proof fn total_of_one_more(s: Seq<Seq<usize>>, x: Seq<usize>)
    ensures
        total_of_all(s.push(x), s.len() as int + 1) == total_of_all(s, s.len() as int) + total(
            x,
            x.len() as int,
        ),
{
    total_of_all_same(s.push(x), s, s.len() as int);
}

/// How many numbers a list has room for.
///
/// Trusted: `Vec::capacity` is no less than the length, and no vector has more than
/// `isize::MAX` bytes. How much it is between these is up to the allocator.
#[verifier::external_body]
fn allocated(list: &Vec<u32>) -> (r: usize)
    ensures
        list@.len() <= r <= isize::MAX / 4,
{
    list.capacity()
}

/// `f` may become of an index `o` to which vectors are added: the vectors and the levels drawn
/// for them are behind those before; each new node but the first of all has neighbors in every
/// layer that was there before it and that it reaches; each list is what connections made of the
/// one before, each of a new node with one that it selected from what it found in the layer, and
/// by these each new node is joined, both ways, with all that it selected; and the entry point is
/// the one before unless a new node is higher. With one node to link, or none, there is one such
/// `f`.
pub open spec fn added<L: Fn(u64, u64) -> u16>(
    o: HnswView,
    vectors: Seq<u32>,
    level_of: L,
    f: HnswView,
) -> bool {
    let count = vectors.len() as int / o.store.dim;
    let new = f.levels.skip(o.len());
    let g = o.grown(vectors, new);
    &&& f.fits()
    &&& count == 0 ==> f == o
    &&& count > 0 ==> {
        &&& f.len() == o.len() + count
        &&& new.len() == count
        &&& f.levels == o.levels + new
        &&& are_drawn(new, level_of, o.rng_state, o.ml)
        &&& f == (HnswView { links: f.links, entry: f.entry, max_level: f.max_level, ..g })
        &&& forall|i: int|
            o.len() <= i < f.len() && 0 < i ==> has_neighbors(
                #[trigger] f.links[i],
                lower(f.levels[i], g.max_level),
            )
        &&& o.ground(g).all_linked(f.links)
        &&& f.max_level == g.max_level ==> f.entry == g.entry
        &&& o.to_link(count) == 0 ==> f == g
        &&& o.to_link(count) == 1 ==> f == g.with_linked((f.len() - 1) as u32)
    }
}

/// The levels of `count` more nodes came from `level_of`.
pub open spec fn are_drawn<L: Fn(u64, u64) -> u16>(
    new: Seq<usize>,
    level_of: L,
    rng_state: u64,
    ml: u64,
) -> bool {
    forall|i: nat|
        i < new.len() ==> new[i as int] <= u16::MAX && call_ensures(
            level_of,
            (#[trigger] level_sample(rng_state, i), ml),
            new[i as int] as u16,
        )
}

proof fn levels_fit_in_16_bits<L: Fn(u64, u64) -> u16>(
    levels: Seq<usize>,
    new: Seq<usize>,
    level_of: L,
    rng_state: u64,
    ml: u64,
)
    requires
        forall|i: int| 0 <= i < levels.len() ==> #[trigger] levels[i] <= u16::MAX,
        are_drawn(new, level_of, rng_state, ml),
    ensures
        forall|i: int|
            0 <= i < (levels + new).len() ==> #[trigger] (levels + new)[i] <= u16::MAX,
{
    assert forall|i: int| 0 <= i < (levels + new).len() implies #[trigger] (levels + new)[i]
        <= u16::MAX by {
        if i >= levels.len() {
            let k = (i - levels.len()) as nat;
            let s = level_sample(rng_state, k);
            assert(new[k as int] <= u16::MAX);
        }
    }
}

/// Draws levels for `count` more nodes, which have no neighbors yet.
fn sprout<L: Fn(u64, u64) -> u16>(
    levels: &mut Vec<usize>,
    links: &mut Vec<Vec<Vec<u32>>>,
    count: usize,
    rng_state: u64,
    ml: u64,
    level_of: &L,
) -> (r: u64)
    requires
        forall|sample: u64| #[trigger] call_requires(*level_of, (sample, ml)),
    ensures
        r == state_after(rng_state, count as nat),
        final(levels)@.len() == old(levels)@.len() + count,
        ({
            let new = final(levels)@.skip(old(levels)@.len() as int);
            &&& final(levels)@ == old(levels)@ + new
            &&& are_drawn(new, *level_of, rng_state, ml)
            &&& links_of(final(links)@) == links_of(old(links)@) + Seq::new(
                new.len(),
                |j: int| bare(new[j]),
            )
        }),
{
    let ghost levels0 = levels@;
    let ghost links0 = links_of(links@);
    let mut rng: SplitMix = SplitMix { state: rng_state };
    let ghost mut new: Seq<usize> = Seq::empty();
    let mut i: usize = 0;
    assert(links_of(links@) =~= links0 + Seq::new(new.len(), |j: int| bare(new[j])));
    while i < count
        invariant
            i <= count,
            rng.state == state_after(rng_state, i as nat),
            forall|sample: u64| #[trigger] call_requires(*level_of, (sample, ml)),
            new.len() == i,
            levels@ == levels0 + new,
            are_drawn(new, *level_of, rng_state, ml),
            links_of(links@) == links0 + Seq::new(new.len(), |j: int| bare(new[j])),
        decreases count - i,
    {
        let sample: u64 = rng.next_u64() >> 11;
        assert(sample == level_sample(rng_state, i as nat));
        let level: usize = level_of(sample, ml) as usize;
        let ghost before = links_of(links@);
        let ghost was = new;
        levels.push(level);
        links.push(bare_lists(level));
        proof {
            new = was.push(level);
            assert(levels@ =~= levels0 + new);
            assert(links_of(links@) =~= before.push(bare(level)));
            assert(links_of(links@) =~= links0 + Seq::new(new.len(), |j: int| bare(new[j])));
            assert forall|j: nat| j < new.len() implies new[j as int] <= u16::MAX && call_ensures(
                *level_of,
                (#[trigger] level_sample(rng_state, j), ml),
                new[j as int] as u16,
            ) by {
                if j < i {
                    assert(new[j as int] == was[j as int]);
                }
            }
        }
        i += 1;
    }
    assert(levels@.skip(levels0.len() as int) =~= new);
    rng.state
}

/// Links all nodes from `first` on.
fn wire<A: Arithmetic>(
    params: &HnswParams,
    store: &FlatIndex,
    levels: &Vec<usize>,
    links: Vec<Vec<Vec<u32>>>,
    first: usize,
    entry: u32,
    max_level: usize,
    ground: Ghost<Ground>,
) -> (r: (Vec<Vec<Vec<u32>>>, u32, usize))
    requires
        params.m >= 2,
        2 * params.m <= usize::MAX,
        params.ef_construction >= 1,
        store@.len() <= 0x1_0000_0000,
        levels@.len() == store@.len(),
        graph_fits(levels@, params.m as int, links_of(links@)),
        ground@.store == store@,
        ground@.levels == levels@,
        ground@.m == params.m,
        ground@.ef == params.ef_construction,
        ground@.start == entry,
        ground@.first == first <= levels@.len(),
        ground@.before == links_of(links@),
        entry < levels@.len(),
        entry < first,
        levels@[entry as int] == max_level,
        forall|i: int| 0 <= i < first ==> #[trigger] levels@[i] <= max_level,
    ensures
        graph_fits(levels@, params.m as int, links_of(r.0@)),
        ground@.all_linked(links_of(r.0@)),
        r.1 == entry || r.2 > max_level,
        r.1 < levels@.len(),
        levels@[r.1 as int] == r.2,
        forall|i: int| 0 <= i < levels@.len() ==> #[trigger] levels@[i] <= r.2,
        forall|i: int|
            first <= i < levels@.len() ==> has_neighbors(
                #[trigger] links_of(r.0@)[i],
                lower(levels@[i], max_level),
            ),
        first == levels@.len() ==> r == (links, entry, max_level),
        first == levels@.len() - 1 ==> {
            let id = first as u32;
            let level = levels@[first as int];
            &&& links_of(r.0@) == linked(
                store@,
                params.m as int,
                params.ef_construction as int,
                links_of(links@),
                level as int,
                id,
                entry,
                max_level as int,
            )
            &&& r.1 == if level > max_level {
                id
            } else {
                entry
            }
            &&& r.2 == if level > max_level {
                level
            } else {
                max_level
            }
        },
{
    let n: usize = levels.len();
    let site: Site = Site { store, levels, m: params.m, ef: params.ef_construction };
    proof {
        ground@.starts();
    }
    if n - first == 0 {
        (links, entry, max_level)
    } else if n - first == 1 {
        let mut links: Vec<Vec<Vec<u32>>> = links;
        let id: u32 = first as u32;
        let level: usize = levels[first];
        proof {
            linking_gives_neighbors(
                store@,
                levels@,
                params.m as int,
                params.ef_construction as int,
                links_of(links@),
                id,
                entry,
                max_level as int,
            );
            let h = ground@.linking_grows(ground@.nothing(), links_of(links@), id, entry);
        }
        site.link::<A>(&mut links, id, entry, max_level);
        if level > max_level {
            (links, id, level)
        } else {
            (links, entry, max_level)
        }
    } else {
        let (links, point, top) = link_all::<A>(&site, links, first, entry, max_level, ground);
        let (point, top) = highest(levels, point, top);
        (links, point, top)
    }
}

/// The node with the highest level: the given one, unless another is higher. After nodes were
/// linked at once it is the given one, but that no lock can tell.
fn highest(levels: &Vec<usize>, entry: u32, max_level: usize) -> (r: (u32, usize))
    requires
        entry < levels@.len(),
        levels@[entry as int] == max_level,
        levels@.len() <= 0x1_0000_0000,
    ensures
        r.0 < levels@.len(),
        levels@[r.0 as int] == r.1,
        r.0 == entry || r.1 > max_level,
        forall|i: int| 0 <= i < levels@.len() ==> #[trigger] levels@[i] <= r.1,
{
    let mut point: u32 = entry;
    let mut top: usize = max_level;
    let mut i: usize = 0;
    while i < levels.len()
        invariant
            i <= levels@.len() <= 0x1_0000_0000,
            point < levels@.len(),
            levels@[point as int] == top,
            point == entry && top == max_level || top > max_level,
            forall|j: int| 0 <= j < i ==> #[trigger] levels@[j] <= top,
        decreases levels@.len() - i,
    {
        if levels[i] > top {
            top = levels[i];
            point = i as u32;
        }
        i += 1;
    }
    (point, top)
}

/// Approximate vector index over a layered navigable graph.
pub struct Hnsw {
    params: HnswParams,
    ml: u64,
    store: FlatIndex,
    links: Vec<Vec<Vec<u32>>>,
    levels: Vec<usize>,
    entry_point: Option<u32>,
    max_level: usize,
    rng_state: u64,
}

impl View for Hnsw {
    type V = HnswView;

    closed spec fn view(&self) -> HnswView {
        HnswView {
            params: self.params,
            ml: self.ml,
            store: self.store@,
            links: links_of(self.links@),
            levels: self.levels@,
            entry: self.entry_point,
            max_level: self.max_level,
            rng_state: self.rng_state,
        }
    }
}

impl Hnsw {
    #[verifier::type_invariant]
    pub closed spec fn wf(self) -> bool {
        self@.fits()
    }

    /// What holds of every index.
    pub proof fn wf_means(self)
        requires
            self.wf(),
        ensures
            self@.fits(),
    {
    }

    /// Creates an empty index for vectors of length `dim`. `ml` is the factor from the
    /// logarithm of a draw to the level of a node, `1 / ln(m)`, as the bits of a
    /// double-precision number; the index only hands it on.
    pub fn new(dim: usize, metric: Metric, params: HnswParams, ml: u64) -> (r: Self)
        requires
            dim > 0,
            params.m >= 2,
            2 * params.m <= usize::MAX,
            params.ef_construction >= 1,
            params.ef_search >= 1,
        ensures
            r@ == (HnswView {
                params,
                ml,
                store: FlatView { dim: dim as int, metric, data: Seq::empty() },
                links: Seq::empty(),
                levels: Seq::empty(),
                entry: None,
                max_level: 0,
                rng_state: params.seed.wrapping_mul(GOLDEN).wrapping_add(1),
            }),
            r@.fits(),
    {
        let store: FlatIndex = FlatIndex::new(dim, metric);
        let links: Vec<Vec<Vec<u32>>> = Vec::new();
        let levels: Vec<usize> = Vec::new();
        proof {
            assert(links_of(links@) =~= Seq::empty());
            assert(levels@ =~= Seq::empty());
            rows_counted(0, dim as int);
        }
        Hnsw {
            params,
            ml,
            store,
            links,
            levels,
            entry_point: None,
            max_level: 0,
            rng_state: params.seed.wrapping_mul(GOLDEN).wrapping_add(1),
        }
    }

    /// The length of the vectors.
    pub fn dim(&self) -> (r: usize)
        ensures
            r == self@.store.dim,
            r > 0,
    {
        self.store.dim()
    }

    /// How many vectors there are.
    pub fn len(&self) -> (r: usize)
        ensures
            r == self@.len(),
    {
        self.store.len()
    }

    /// Whether there is no vector.
    pub fn is_empty(&self) -> (r: bool)
        ensures
            r == (self@.len() == 0),
    {
        self.store.len() == 0
    }

    /// The metric that vectors are ranked by.
    pub fn metric(&self) -> (r: Metric)
        ensures
            r == self@.store.metric,
    {
        self.store.metric()
    }

    /// How the graph is built and searched.
    pub fn params(&self) -> (r: HnswParams)
        ensures
            r == self@.params,
    {
        self.params
    }

    /// The factor that levels are made with.
    pub fn ml(&self) -> (r: u64)
        ensures
            r == self@.ml,
    {
        self.ml
    }

    /// The state of the generator that levels are drawn from.
    pub fn rng_state(&self) -> (r: u64)
        ensures
            r == self@.rng_state,
    {
        self.rng_state
    }

    /// The vectors, one after the other.
    pub fn data(&self) -> (r: &[u32])
        ensures
            r@ == self@.store.data,
    {
        self.store.data()
    }

    /// The node from which searches start.
    pub fn entry_point(&self) -> (r: Option<u32>)
        ensures
            r == self@.entry,
    {
        self.entry_point
    }

    /// The highest level of all nodes.
    pub fn max_level(&self) -> (r: usize)
        ensures
            r == self@.max_level,
    {
        self.max_level
    }

    /// The level of each node.
    pub fn levels(&self) -> (r: &[usize])
        ensures
            r@ == self@.levels,
    {
        self.levels.as_slice()
    }

    /// The neighbors of each node in each layer.
    pub fn links(&self) -> (r: &[Vec<Vec<u32>>])
        ensures
            links_of(r@) == self@.links,
    {
        self.links.as_slice()
    }

    /// Sets how many candidates are kept in a search that does not say.
    pub fn set_ef_search(&mut self, ef: usize)
        ensures
            final(self)@ == (HnswView {
                params: HnswParams { ef_search: ef, ..old(self)@.params },
                ..old(self)@
            }),
    {
        proof {
            use_type_invariant(&*self);
        }
        self.params.ef_search = ef;
    }

    /// Descends through the layers from `top` down to `bottom`.
    fn descend<A: Arithmetic>(&self, query: &[u32], from: u32, top: usize, bottom: usize) -> (r:
        u32)
        requires
            self@.fits(),
            query@.len() == self@.store.dim,
            sits_at(self@.levels, from, top as int),
            1 <= bottom,
        ensures
            r == landing(
                node_key(self@.store, query@),
                None,
                self@.links,
                top as int,
                bottom as int,
                from,
            ),
            sits_at(self@.levels, r, if top >= bottom { bottom as int } else { top as int }),
    {
        let ghost key = node_key(self@.store, query@);
        let ghost levels = self@.levels;
        let plain: Plain = Plain { links: &self.links };
        let mut cur: u32 = from;
        let mut layer: usize = top;
        while layer >= bottom
            invariant
                self@.fits(),
                query@.len() == self@.store.dim,
                key == node_key(self@.store, query@),
                levels == self@.levels,
                plain.links@ == self.links@,
                1 <= bottom,
                layer <= top,
                top >= bottom ==> layer + 1 >= bottom,
                sits_at(levels, cur, if layer < top { layer + 1 } else { top as int }),
                landing(
                    key,
                    None,
                    self@.links,
                    top as int,
                    bottom as int,
                    from,
                ) == landing(key, None, self@.links, layer as int, bottom as int, cur),
            decreases layer,
        {
            proof {
                plain_keeps(&plain, levels, self.params.m as int, layer as int);
            }
            let next: u32 = greedy_descend::<A, Plain>(
                &self.store,
                &plain,
                query,
                cur,
                layer,
                None,
                Ghost(layer_nodes(levels, layer as int)),
            );
            proof {
                plain_descent(&plain, layer as int, key, None, cur, next);
            }
            cur = next;
            layer -= 1;
        }
        cur
    }

    /// Explores the lowest layer from a node: the results, nearest first, and the nodes seen.
    fn explore<A: Arithmetic>(
        &self,
        query: &[u32],
        start: u32,
        k: usize,
        ef: usize,
        filter: Option<&[bool]>,
    ) -> (r: (Vec<u128>, Vec<u32>))
        requires
            self@.fits(),
            query@.len() == self@.store.dim,
            covers(mask(filter), self@.len()),
            self@.entry is Some,
            start < self@.len(),
            start == self@.start(query@),
        ensures
            r.0@ == self@.explored(query@, k as int, ef as int, mask(filter)).best,
            r.1@ == self@.explored(query@, k as int, ef as int, mask(filter)).seen,
            forall|i: int| 0 <= i < r.1@.len() ==> (#[trigger] r.1@[i]) < self@.len(),
            forall|i: int| 0 <= i < r.0@.len() ==> id_in(#[trigger] r.0@[i]) <= u32::MAX,
    {
        let wide: usize = if ef >= k {
            ef
        } else {
            k
        };
        let plain: Plain = Plain { links: &self.links };
        let entry: Vec<u32> = vec![start];
        assert(entry@ =~= seq![start]);
        proof {
            plain_keeps(&plain, self@.levels, self.params.m as int, 0);
        }
        let ghost good = layer_nodes(self@.levels, 0);
        let ghost q = self@.quest(query@, k as int, ef as int, mask(filter));
        let (best, seen) = search_layer::<A, Plain>(
            &self.store,
            &plain,
            query,
            entry.as_slice(),
            wide,
            0,
            filter,
            None,
            Ghost(good),
        );
        proof {
            plain_outcome(q, &plain, 0, entry@, best@, seen@);
            assert forall|i: int| 0 <= i < seen@.len() implies (#[trigger] seen@[i])
                < self@.len() by {
                assert(seen@.contains(seen@[i]));
                assert(good(seen@[i]));
            }
            assert forall|i: int| 0 <= i < best@.len() implies id_in(#[trigger] best@[i])
                <= u32::MAX by {
                assert(best@.contains(best@[i]));
                let j = choose|j: u32| seen@.contains(j) && best@[i] == #[trigger] q.candidate(j);
                candidate_is_exact(q, j);
            }
        }
        (best, seen)
    }

    /// The results of a search, best first; more than `k` if the search was wider.
    fn find<A: Arithmetic>(&self, query: &[u32], k: usize, ef: usize, filter: Option<&[bool]>) -> (r:
        Vec<u128>)
        requires
            query@.len() == self@.store.dim,
            covers(mask(filter), self@.len()),
        ensures
            first(r@, k as int) == self@.nearest(query@, k as int, ef as int, mask(filter)),
    {
        proof {
            use_type_invariant(self);
        }
        match self.entry_point {
            Some(entry) => {
                let start: u32 = self.descend::<A>(query, entry, self.max_level, 1);
                let (best, _seen) = self.explore::<A>(query, start, k, ef, filter);
                best
            },
            None => Vec::new(),
        }
    }

    /// Top-`k` for a single query, best first, keeping at least `ef` candidates on the way.
    /// Places that are left get id `-1`.
    pub fn search<A: Arithmetic>(
        &self,
        query: &[u32],
        k: usize,
        ef: usize,
        out_ids: &mut [i64],
        out_dists: &mut [u32],
    )
        requires
            query@.len() == self@.store.dim,
            all_finite(query@),
            k > 0 ==> old(out_ids)@.len() == k && old(out_dists)@.len() == k,
        ensures
            reports(
                self@.store.metric,
                self@.nearest(query@, k as int, ef as int, None),
                0,
                k as int,
                final(out_ids)@,
                final(out_dists)@,
                old(out_ids)@,
                old(out_dists)@,
            ),
    {
        self.search_impl::<A>(query, k, ef, None, out_ids, out_dists);
    }

    /// Top-`k` among the vectors whose entry in `filter` is `true`. The search walks through
    /// the others too, but does not return them.
    pub fn search_filtered<A: Arithmetic>(
        &self,
        query: &[u32],
        k: usize,
        ef: usize,
        filter: &[bool],
        out_ids: &mut [i64],
        out_dists: &mut [u32],
    )
        requires
            query@.len() == self@.store.dim,
            all_finite(query@),
            filter@.len() == self@.len(),
            k > 0 ==> old(out_ids)@.len() == k && old(out_dists)@.len() == k,
        ensures
            reports(
                self@.store.metric,
                self@.nearest(query@, k as int, ef as int, Some(filter@)),
                0,
                k as int,
                final(out_ids)@,
                final(out_dists)@,
                old(out_ids)@,
                old(out_dists)@,
            ),
    {
        self.search_impl::<A>(query, k, ef, Some(filter), out_ids, out_dists);
    }

    /// Top-`k` for a single query, among the vectors that pass the filter if there is one.
    pub fn search_impl<A: Arithmetic>(
        &self,
        query: &[u32],
        k: usize,
        ef: usize,
        filter: Option<&[bool]>,
        out_ids: &mut [i64],
        out_dists: &mut [u32],
    )
        requires
            query@.len() == self@.store.dim,
            all_finite(query@),
            covers(mask(filter), self@.len()),
            k > 0 ==> old(out_ids)@.len() == k && old(out_dists)@.len() == k,
        ensures
            reports(
                self@.store.metric,
                self@.nearest(query@, k as int, ef as int, mask(filter)),
                0,
                k as int,
                final(out_ids)@,
                final(out_dists)@,
                old(out_ids)@,
                old(out_dists)@,
            ),
    {
        if k > 0 {
            let best: Vec<u128> = self.find::<A>(query, k, ef, filter);
            report::<A>(self.store.metric(), best.as_slice(), 0, k, out_ids, out_dists);
        }
    }

    /// Top-`k` for a single query, with the steps that led to it: for each the layer, the
    /// node and how near it is. Of the nodes seen in the lowest layer at most `max_trace`
    /// are among the steps; the last number is how many there were.
    pub fn search_traced<A: Arithmetic>(
        &self,
        query: &[u32],
        k: usize,
        ef: usize,
        max_trace: usize,
    ) -> (r: (Vec<(u32, u32)>, Vec<(u32, u32, u32)>, usize))
        requires
            query@.len() == self@.store.dim,
            all_finite(query@),
        ensures
            k == 0 || self@.entry is None ==> r.0@.len() == 0 && r.1@.len() == 0 && r.2 == 0,
            k > 0 && self@.entry is Some ==> {
                let best = self@.nearest(query@, k as int, ef as int, None);
                &&& r.0@ == Seq::new(
                    best.len(),
                    |j: int|
                        (
                            id_in(best[j]) as u32,
                            natural_of(self@.store.metric, key_in(best[j])),
                        ),
                )
                &&& r.1@ == self@.trace(query@, k as int, ef as int, max_trace as int)
                &&& r.2 == self@.explored(query@, k as int, ef as int, None).seen.len()
            },
    {
        proof {
            use_type_invariant(self);
        }
        let mut results: Vec<(u32, u32)> = Vec::new();
        let mut trace: Vec<(u32, u32, u32)> = Vec::new();
        if k == 0 {
            return (results, trace, 0);
        }
        let entry: u32 = match self.entry_point {
            Some(e) => e,
            None => {
                return (results, trace, 0);
            },
        };
        let metric: Metric = self.store.metric();
        let ghost key = node_key(self@.store, query@);
        let mut cur: u32 = entry;
        let mut layer: usize = self.max_level;
        while layer >= 1
            invariant
                self@.fits(),
                query@.len() == self@.store.dim,
                key == node_key(self@.store, query@),
                metric == self@.store.metric,
                self@.entry == Some(entry),
                layer <= self@.max_level,
                sits_at(self@.levels, cur, layer as int),
                cur == landing(
                    key,
                    None,
                    self@.links,
                    self@.max_level as int,
                    layer + 1,
                    entry,
                ),
                trace@ == Seq::new(
                    (self@.max_level - layer) as nat,
                    |i: int| self@.descent_step(query@, i),
                ),
            decreases layer,
        {
            proof {
                landing_in_parts(
                    key,
                    None,
                    self@.links,
                    self@.max_level as int,
                    layer as int,
                    layer as int,
                    entry,
                );
            }
            cur = self.descend::<A>(query, cur, layer, layer);
            let d: u32 = self.store.key_to::<A>(query, cur as usize);
            assert(d == key(cur));
            let ghost before = trace@;
            trace.push((layer as u32, cur, natural::<A>(metric, d)));
            layer -= 1;
            assert(trace@ =~= Seq::new(
                (self@.max_level - layer) as nat,
                |i: int| self@.descent_step(query@, i),
            ));
        }
        let (best, seen) = self.explore::<A>(query, cur, k, ef, None);
        let sample: Vec<u32> = even_sample(seen.as_slice(), max_trace);
        let ghost descent = trace@;
        proof {
            if seen@.len() > max_trace {
                assert forall|i: int| 0 <= i < sample@.len() implies (#[trigger] sample@[i])
                    < self@.len() by {
                    even_place_fits(i, seen@.len() as int, max_trace as int);
                    assert(seen@[even_place(i, seen@.len() as int, max_trace as int)]
                        < self@.len());
                }
            }
        }
        let mut i: usize = 0;
        while i < sample.len()
            invariant
                i <= sample@.len(),
                self@.fits(),
                query@.len() == self@.store.dim,
                key == node_key(self@.store, query@),
                metric == self@.store.metric,
                forall|j: int| 0 <= j < sample@.len() ==> (#[trigger] sample@[j]) < self@.len(),
                trace@ == descent + Seq::new(i as nat, |j: int| self@.sight(query@, sample@[j])),
            decreases sample@.len() - i,
        {
            let id: u32 = sample[i];
            assert(sample@[i as int] < self@.len());
            let d: u32 = self.store.key_to::<A>(query, id as usize);
            assert(d == key(id));
            trace.push((0, id, natural::<A>(metric, d)));
            i += 1;
            assert(trace@ =~= descent + Seq::new(
                i as nat,
                |j: int| self@.sight(query@, sample@[j]),
            ));
        }
        let ghost found = self@.nearest(query@, k as int, ef as int, None);
        let ghost all = Seq::new(
            found.len(),
            |j: int|
                (id_in(found[j]) as u32, natural_of(self@.store.metric, key_in(found[j]))),
        );
        let take: usize = if k <= best.len() {
            k
        } else {
            best.len()
        };
        let mut j: usize = 0;
        while j < take
            invariant
                j <= take <= best@.len(),
                take == found.len(),
                metric == self@.store.metric,
                forall|i: int| 0 <= i < best@.len() ==> id_in(#[trigger] best@[i]) <= u32::MAX,
                forall|i: int| 0 <= i < take ==> #[trigger] found[i] == best@[i],
                all == Seq::new(
                    found.len(),
                    |j: int|
                        (
                            id_in(found[j]) as u32,
                            natural_of(self@.store.metric, key_in(found[j])),
                        ),
                ),
                results@ == all.take(j as int),
            decreases take - j,
        {
            let c: u128 = best[j];
            assert(found[j as int] == c);
            results.push((to_id(c) as u32, natural::<A>(metric, to_key(c))));
            j += 1;
            assert(results@ =~= all.take(j as int));
        }
        assert(results@ =~= all);
        (results, trace, seen.len())
    }

    /// Adds vectors, one after the other; they get the next ids.
    ///
    /// The level of a node is what `level_of` makes of a draw and of the factor that the
    /// index was created with. All nodes are linked at once, on the shared threads, so with
    /// more than one the graph depends on which came first; with one it does not. Whatever the
    /// order, each new node comes down from an entry point, searches each layer, in lists as they
    /// are then, and is joined, both ways, with all the neighbors that it selects from what it
    /// found; each list is what these connections, one after the other, made of the list before.
    /// Every new node but the first of all has neighbors in each layer that was there before and
    /// that it reaches. The entry point is the one before unless a new node is higher.
    pub fn add<A: Arithmetic, L: Fn(u64, u64) -> u16>(&mut self, vectors: &[u32], level_of: L)
        requires
            vectors@.len() as int % old(self)@.store.dim == 0,
            all_finite(vectors@),
            old(self)@.store.data.len() + vectors@.len() <= capacity(),
            old(self)@.len() + vectors@.len() as int / old(self)@.store.dim <= 0x1_0000_0000,
            forall|sample: u64| #[trigger] call_requires(level_of, (sample, old(self)@.ml)),
        ensures
            added(old(self)@, vectors@, level_of, final(self)@),
    {
        proof {
            use_type_invariant(&*self);
        }
        let ghost o = self@;
        let dim: usize = self.store.dim();
        let count: usize = vectors.len() / dim;
        proof {
            row_count(vectors@.len() as int, dim as int);
        }
        if count == 0 {
            assert(vectors@.len() == 0) by (nonlinear_arith)
                requires
                    vectors@.len() == count * dim,
                    count == 0,
            ;
            return;
        }
        let start: usize = self.store.len();
        let mut index: Hnsw = Hnsw {
            params: self.params,
            ml: self.ml,
            store: FlatIndex::new(dim, self.store.metric()),
            links: Vec::new(),
            levels: Vec::new(),
            entry_point: None,
            max_level: 0,
            rng_state: self.rng_state,
        };
        std::mem::swap(&mut index, self);
        let Hnsw {
            params,
            ml,
            mut store,
            mut links,
            mut levels,
            entry_point,
            max_level,
            rng_state,
        } = index;
        store.add(vectors);
        let rng_state: u64 = sprout(&mut levels, &mut links, count, rng_state, ml, &level_of);
        let (entry, top, first) = match entry_point {
            Some(e) => (e, max_level, start),
            None => (0u32, levels[start], start + 1),
        };
        let ghost new = levels@.skip(start as int);
        let ghost g = o.grown(vectors@, new);
        proof {
            growing_fits(o.levels, new, params.m as int, o.links);
            levels_fit_in_16_bits::<L>(o.levels, new, level_of, o.rng_state, o.ml);
            assert(links_of(links@) == g.links);
            assert(levels@[entry as int] == top);
        }
        let ground: Ghost<Ground> = Ghost(o.ground(g));
        let (links, entry, top) = wire::<A>(
            &params,
            &store,
            &levels,
            links,
            first,
            entry,
            top,
            ground,
        );
        proof {
            let f = HnswView {
                params,
                ml,
                store: store@,
                links: links_of(links@),
                levels: levels@,
                entry: Some(entry),
                max_level: top,
                rng_state,
            };
            use_type_invariant(&store);
            store.wf_means();
            assert(f.fits());
            assert(o.to_link(count as int) == 0 ==> f =~= g);
            assert(o.to_link(count as int) == 1 ==> f =~= g.with_linked((f.len() - 1) as u32));
        }
        *self = Hnsw {
            params,
            ml,
            store,
            links,
            levels,
            entry_point: Some(entry),
            max_level: top,
            rng_state,
        };
    }

    /// Top-`k` for a batch of queries, one after the other; the results are rows of `k`. Runs
    /// on the shared threads for `num_threads == 0`, and else on as many threads of its own;
    /// where these cannot be had, the outputs are as they were.
    pub fn search_batch<A: Arithmetic>(
        &self,
        queries: &[u32],
        k: usize,
        ef: usize,
        out_ids: &mut [i64],
        out_dists: &mut [u32],
        num_threads: usize,
    ) -> (r: Result<(), PoolUnavailable>)
        requires
            k > 0 ==> {
                let rows = queries@.len() as int / self@.store.dim;
                &&& queries@.len() as int % self@.store.dim == 0
                &&& all_finite(queries@)
                &&& old(out_ids)@.len() == rows * k
                &&& old(out_dists)@.len() == rows * k
            },
        ensures
            k == 0 || num_threads == 0 ==> r is Ok,
            r is Ok && k > 0 ==> reports_rows(
                self@.store.metric,
                |q: int|
                    self@.nearest(row(queries@, self@.store.dim, q), k as int, ef as int, None),
                queries@.len() as int / self@.store.dim,
                k as int,
                final(out_ids)@,
                final(out_dists)@,
                old(out_ids)@,
                old(out_dists)@,
            ),
            r is Err || k == 0 ==> final(out_ids)@ == old(out_ids)@ && final(out_dists)@ == old(
                out_dists,
            )@,
    {
        self.search_batch_impl::<A>(queries, k, ef, None, out_ids, out_dists, num_threads)
    }

    /// Batch version of [`Hnsw::search_filtered`]: the one `filter` applies to every query.
    pub fn search_batch_filtered<A: Arithmetic>(
        &self,
        queries: &[u32],
        k: usize,
        ef: usize,
        filter: &[bool],
        out_ids: &mut [i64],
        out_dists: &mut [u32],
        num_threads: usize,
    ) -> (r: Result<(), PoolUnavailable>)
        requires
            filter@.len() == self@.len(),
            k > 0 ==> {
                let rows = queries@.len() as int / self@.store.dim;
                &&& queries@.len() as int % self@.store.dim == 0
                &&& all_finite(queries@)
                &&& old(out_ids)@.len() == rows * k
                &&& old(out_dists)@.len() == rows * k
            },
        ensures
            k == 0 || num_threads == 0 ==> r is Ok,
            r is Ok && k > 0 ==> reports_rows(
                self@.store.metric,
                |q: int|
                    self@.nearest(
                        row(queries@, self@.store.dim, q),
                        k as int,
                        ef as int,
                        Some(filter@),
                    ),
                queries@.len() as int / self@.store.dim,
                k as int,
                final(out_ids)@,
                final(out_dists)@,
                old(out_ids)@,
                old(out_dists)@,
            ),
            r is Err || k == 0 ==> final(out_ids)@ == old(out_ids)@ && final(out_dists)@ == old(
                out_dists,
            )@,
    {
        self.search_batch_impl::<A>(queries, k, ef, Some(filter), out_ids, out_dists, num_threads)
    }

    /// Top-`k` for each query of a batch, among the vectors that pass the filter if there is
    /// one.
    pub fn search_batch_impl<A: Arithmetic>(
        &self,
        queries: &[u32],
        k: usize,
        ef: usize,
        filter: Option<&[bool]>,
        out_ids: &mut [i64],
        out_dists: &mut [u32],
        num_threads: usize,
    ) -> (r: Result<(), PoolUnavailable>)
        requires
            covers(mask(filter), self@.len()),
            k > 0 ==> {
                let rows = queries@.len() as int / self@.store.dim;
                &&& queries@.len() as int % self@.store.dim == 0
                &&& all_finite(queries@)
                &&& old(out_ids)@.len() == rows * k
                &&& old(out_dists)@.len() == rows * k
            },
        ensures
            k == 0 || num_threads == 0 ==> r is Ok,
            r is Ok && k > 0 ==> reports_rows(
                self@.store.metric,
                |q: int|
                    self@.nearest(
                        row(queries@, self@.store.dim, q),
                        k as int,
                        ef as int,
                        mask(filter),
                    ),
                queries@.len() as int / self@.store.dim,
                k as int,
                final(out_ids)@,
                final(out_dists)@,
                old(out_ids)@,
                old(out_dists)@,
            ),
            r is Err || k == 0 ==> final(out_ids)@ == old(out_ids)@ && final(out_dists)@ == old(
                out_dists,
            )@,
    {
        if k == 0 {
            return Ok(());
        }
        let dim: usize = self.dim();
        let rows: usize = queries.len() / dim;
        proof {
            row_count(queries@.len() as int, dim as int);
        }
        let found = |q: usize| -> (v: Vec<u128>)
            requires
                q < rows,
                dim == self@.store.dim,
                dim > 0,
                rows * dim <= queries@.len(),
                covers(mask(filter), self@.len()),
            ensures
                first(v@, k as int) == self@.nearest(
                    row(queries@, self@.store.dim, q as int),
                    k as int,
                    ef as int,
                    mask(filter),
                ),
            {
                proof {
                    row_fits(q as int, rows as int, dim as int);
                }
                self.find::<A>(row_at(queries, dim, q), k, ef, filter)
            };
        match run(num_threads, rows, found) {
            Ok(best) => {
                let ghost all = |q: int| best@[q]@;
                let ghost goal = |q: int|
                    self@.nearest(
                        row(queries@, self@.store.dim, q),
                        k as int,
                        ef as int,
                        mask(filter),
                    );
                proof {
                    assert forall|q: int| 0 <= q < rows implies first(
                        #[trigger] all(q),
                        k as int,
                    ) == goal(q) by {
                        let u = q as usize;
                        assert(call_ensures(found, (u,), best@[u as int]));
                    }
                }
                report_rows::<A>(
                    self.store.metric(),
                    &best,
                    k,
                    out_ids,
                    out_dists,
                    Ghost(all),
                );
                proof {
                    assert forall|q: int, j: int| 0 <= q < rows && 0 <= j < k implies
                        #[trigger] slot(out_ids@, k as int, q, j) == id_reported(goal(q), j) by {
                        assert(first(all(q), k as int) == goal(q));
                    }
                    assert forall|q: int, j: int| 0 <= q < rows && 0 <= j < k implies
                        #[trigger] slot(out_dists@, k as int, q, j) == distance_reported(
                        self@.store.metric,
                        goal(q),
                        j,
                    ) by {
                        assert(first(all(q), k as int) == goal(q));
                    }
                }
                Ok(())
            },
            Err(e) => Err(e),
        }
    }

    /// Bytes held by the vectors and by the lists of neighbors. A list holds what it has
    /// room for, which is up to the allocator.
    pub fn memory_bytes(&self) -> (r: usize)
        ensures
            exists|rooms: Seq<Seq<usize>>| #[trigger]
                all_have_room(rooms, self@.links) && r == at_most_max(
                    4 * self@.store.data.len() + 4 * total_of_all(rooms, rooms.len() as int),
                ),
    {
        let ghost data = self@.store.data.len() as int;
        let mut bytes: usize = self.store.memory_bytes();
        let ghost links = self@.links;
        let ghost mut rooms: Seq<Seq<usize>> = Seq::empty();
        let mut i: usize = 0;
        while i < self.links.len()
            invariant
                i <= self.links@.len(),
                links == links_of(self.links@),
                rooms.len() == i,
                forall|j: int| 0 <= j < i ==> have_room(#[trigger] rooms[j], links[j]),
                total_of_all(rooms, i as int) >= 0,
                bytes == at_most_max(4 * data + 4 * total_of_all(rooms, i as int)),
            decreases self.links@.len() - i,
        {
            let lists: &Vec<Vec<u32>> = &self.links[i];
            assert(links[i as int] == layers_of(lists@));
            let ghost before = total_of_all(rooms, i as int);
            let ghost mut room: Seq<usize> = Seq::empty();
            let mut l: usize = 0;
            while l < lists.len()
                invariant
                    l <= lists@.len(),
                    room.len() == l,
                    forall|j: int|
                        0 <= j < l ==> lists@[j]@.len() <= #[trigger] room[j] <= isize::MAX / 4,
                    total(room, l as int) >= 0,
                    before >= 0,
                    bytes == at_most_max(4 * data + 4 * (before + total(room, l as int))),
                decreases lists@.len() - l,
            {
                let some: usize = allocated(&lists[l]);
                bytes = bytes.saturating_add(some * 4);
                proof {
                    total_of_more(room, some);
                    room = room.push(some);
                }
                l += 1;
            }
            proof {
                total_of_one_more(rooms, room);
                rooms = rooms.push(room);
                assert(have_room(rooms[i as int], links[i as int]));
            }
            i += 1;
        }
        assert(all_have_room(rooms, links));
        bytes
    }

    /// The index with these parts, if they belong together: `m_max0` and `m_max` are the
    /// shares that follow from `params`, `n` is how many vectors there are, and what holds of
    /// every index holds.
    pub fn from_parts(
        dim: usize,
        metric: Metric,
        params: HnswParams,
        m_max0: usize,
        m_max: usize,
        ml: u64,
        data: Vec<u32>,
        links: Vec<Vec<Vec<u32>>>,
        levels: Vec<usize>,
        entry_point: Option<u32>,
        max_level: usize,
        rng_state: u64,
        n: usize,
    ) -> (r: Option<Self>)
        ensures
            ({
                let v = HnswView {
                    params,
                    ml,
                    store: FlatView { dim: dim as int, metric, data: data@ },
                    links: links_of(links@),
                    levels: levels@,
                    entry: entry_point,
                    max_level,
                    rng_state,
                };
                &&& r is Some <==> v.fits() && m_max0 == 2 * params.m && m_max == params.m
                    && v.len() == n
                &&& r matches Some(x) ==> x@ == v
            }),
    {
        let ghost v = HnswView {
            params,
            ml,
            store: FlatView { dim: dim as int, metric, data: data@ },
            links: links_of(links@),
            levels: levels@,
            entry: entry_point,
            max_level,
            rng_state,
        };
        if params.m < 2 || params.m > usize::MAX / 2 || params.ef_construction < 1 {
            return None;
        }
        if m_max0 != 2 * params.m || m_max != params.m {
            return None;
        }
        if n as u64 > 0x1_0000_0000 || levels.len() != n || max_level > u16::MAX as usize {
            return None;
        }
        let store: FlatIndex = match FlatIndex::from_parts(dim, metric, n, data) {
            Some(x) => x,
            None => {
                proof {
                    if dim > 0 && v.len() == n && v.fits() {
                        assert(n * dim == data@.len());
                    }
                }
                return None;
            },
        };
        proof {
            rows_counted(n as int, dim as int);
        }
        if !is_graph_fitting(levels.as_slice(), params.m, &links) {
            return None;
        }
        let mut i: usize = 0;
        while i < levels.len()
            invariant
                i <= levels@.len(),
                levels@ == v.levels,
                max_level == v.max_level,
                forall|j: int| 0 <= j < i ==> #[trigger] levels@[j] <= max_level,
            decreases levels@.len() - i,
        {
            if levels[i] > max_level {
                assert(!(levels@[i as int] <= max_level));
                return None;
            }
            i += 1;
        }
        match entry_point {
            Some(e) => {
                if e as usize >= n || levels[e as usize] != max_level {
                    return None;
                }
            },
            None => {
                if n != 0 || max_level != 0 {
                    return None;
                }
            },
        }
        Some(
            Hnsw {
                params,
                ml,
                store,
                links,
                levels,
                entry_point,
                max_level,
                rng_state,
            },
        )
    }
}

} // verus!
