//! Search in one layer of a navigable graph.

use vstd::prelude::*;
use crate::arith::Arithmetic;
use crate::beam::{
    offered_all_is_sound, popped_is_sound, search_ends_once, seeded_is_sound, seen_is_bounded,
    start_is_sound, Beam, Quest, Search,
};
use crate::flat::{FlatIndex, FlatView};
use crate::ranked::{first, inserted};
use crate::rows::{covers, is_passing, mask, passes};

verus! {

/// The neighbors of each node in one layer; a node that is not in the layer has none.
pub open spec fn adjacency(links: Seq<Seq<Seq<u32>>>, layer: int) -> spec_fn(u32) -> Seq<u32> {
    |node: u32|
        if 0 <= layer < links[node as int].len() {
            links[node as int][layer]
        } else {
            Seq::empty()
        }
}

/// The neighbor lists of a node, layer by layer.
pub open spec fn layers_of(v: Seq<Vec<u32>>) -> Seq<Seq<u32>> {
    Seq::new(v.len(), |l: int| v[l]@)
}

/// The neighbor lists of all nodes.
pub open spec fn links_of(v: Seq<Vec<Vec<u32>>>) -> Seq<Seq<Seq<u32>>> {
    Seq::new(v.len(), |i: int| layers_of(v[i]@))
}

/// What can be read of a graph, which others may be changing.
pub(crate) trait Graph {
    /// The neighbors of a node in a layer may read as `list`.
    spec fn may_read(&self, node: u32, layer: int, list: Seq<u32>) -> bool;

    /// The node is there.
    spec fn has(&self, node: u32) -> bool;

    /// Reads the neighbors of a node in a layer.
    fn read(&self, node: u32, layer: usize, list: &mut Vec<u32>)
        requires
            self.has(node),
        ensures
            self.may_read(node, layer as int, final(list)@),
    ;
}

/// A graph that nobody changes.
pub(crate) struct Plain<'a> {
    pub links: &'a Vec<Vec<Vec<u32>>>,
}

impl Graph for Plain<'_> {
    open spec fn may_read(&self, node: u32, layer: int, list: Seq<u32>) -> bool {
        list == adjacency(links_of(self.links@), layer)(node)
    }

    open spec fn has(&self, node: u32) -> bool {
        node < self.links@.len()
    }

    fn read(&self, node: u32, layer: usize, list: &mut Vec<u32>) {
        list.clear();
        let lists: &Vec<Vec<u32>> = &self.links[node as usize];
        if layer < lists.len() {
            list.extend_from_slice(lists[layer].as_slice());
        }
        proof {
            assert(links_of(self.links@)[node as int] == layers_of(lists@));
            assert(list@ =~= adjacency(links_of(self.links@), layer as int)(node));
        }
    }
}

/// What is searched for with a query.
pub open spec fn quest(
    store: FlatView,
    query: Seq<u32>,
    filter: Option<Seq<bool>>,
    exclude: Option<u32>,
    ef: int,
) -> Quest {
    Quest { key: node_key(store, query), passes: passes(filter), exclude, ef }
}

/// The key of each node for a query.
pub open spec fn node_key(store: FlatView, query: Seq<u32>) -> spec_fn(u32) -> u32 {
    |id: u32| store.keys(query)(id as int)
}

/// What the neighbors of each node in one layer may read as.
pub(crate) open spec fn reads_of<G: Graph>(g: &G, layer: int) -> spec_fn(u32, Seq<u32>) -> bool {
    |node: u32, list: Seq<u32>| g.may_read(node, layer, list)
}

/// Expansion `i` came before the search was over, and read what its neighbors may read as.
pub open spec fn is_legal_step(
    q: Quest,
    reads: spec_fn(u32, Seq<u32>) -> bool,
    b: Beam,
    lists: Seq<Seq<u32>>,
    i: int,
) -> bool {
    let p = q.played(b, lists.take(i));
    !q.is_done(p) && reads(q.next(p), lists[i])
}

/// A search that expanded nodes with these neighbors was not over before, and read what they
/// may read as.
pub open spec fn is_legal(
    q: Quest,
    reads: spec_fn(u32, Seq<u32>) -> bool,
    b: Beam,
    lists: Seq<Seq<u32>>,
) -> bool {
    forall|i: int| 0 <= i < lists.len() ==> #[trigger] is_legal_step(q, reads, b, lists, i)
}

/// `best` and `seen` are where a search from `entry` on may end.
pub open spec fn is_outcome(
    q: Quest,
    reads: spec_fn(u32, Seq<u32>) -> bool,
    entry: Seq<u32>,
    best: Seq<u128>,
    seen: Seq<u32>,
) -> bool {
    exists|lists: Seq<Seq<u32>>| {
        let r = q.played(q.start(entry), lists);
        &&& #[trigger] is_legal(q, reads, q.start(entry), lists)
        &&& q.is_done(r)
        &&& best == r.best
        &&& seen == r.seen
    }
}

/// Neighbors of good nodes are good, and good nodes are there.
pub(crate) open spec fn keeps<G: Graph>(
    g: &G,
    layer: int,
    n: int,
    good: spec_fn(u32) -> bool,
) -> bool {
    &&& forall|id: u32| #[trigger] good(id) ==> id < n && g.has(id)
    &&& forall|id: u32, list: Seq<u32>|
        good(id) && #[trigger] g.may_read(id, layer, list) ==> forall|i: int|
            0 <= i < list.len() ==> good(#[trigger] list[i])
}

/// One more expansion.
pub proof fn legal_grows(
    q: Quest,
    reads: spec_fn(u32, Seq<u32>) -> bool,
    b: Beam,
    lists: Seq<Seq<u32>>,
    list: Seq<u32>,
)
    requires
        is_legal(q, reads, b, lists),
        !q.is_done(q.played(b, lists)),
        reads(q.next(q.played(b, lists)), list),
    ensures
        is_legal(q, reads, b, lists.push(list)),
        q.played(b, lists.push(list)) == q.expanded(q.played(b, lists), list),
{
    let more = lists.push(list);
    assert(more.drop_last() =~= lists);
    assert forall|k: int| 0 <= k < more.len() implies #[trigger] is_legal_step(
        q,
        reads,
        b,
        more,
        k,
    ) by {
        if k < lists.len() {
            assert(is_legal_step(q, reads, b, lists, k));
            assert(more.take(k) =~= lists.take(k));
        } else {
            assert(more.take(k) =~= lists);
        }
    }
}

/// A search among good nodes sees no more than there are.
proof fn sound_is_bounded(q: Quest, b: Beam, good: spec_fn(u32) -> bool, n: int)
    requires
        q.is_sound(b, good),
        n >= 0,
        forall|id: u32| #[trigger] good(id) ==> id < n,
    ensures
        b.seen.len() <= n,
{
    assert forall|id: u32| #[trigger] b.seen.contains(id) implies id < n by {
        assert(good(id));
    }
    seen_is_bounded(b.seen, n);
}

/// The new ones among the first `n` nodes of a list.
spec fn fresh_in(q: Quest, b: Beam, list: Seq<u32>, n: int) -> Seq<u32>
    decreases n,
{
    if n <= 0 {
        Seq::empty()
    } else if q.is_new(q.offered_all(b, list, n - 1), list[n - 1]) {
        fresh_in(q, b, list, n - 1).push(list[n - 1])
    } else {
        fresh_in(q, b, list, n - 1)
    }
}

/// A search after the first `n` of some nodes that it has seen were weighed.
spec fn weighed(q: Quest, b: Beam, ids: Seq<u32>, n: int) -> Beam
    decreases n,
{
    if n <= 0 {
        b
    } else {
        let p = weighed(q, b, ids, n - 1);
        let id = ids[n - 1];
        if !q.is_wanted(p, (q.key)(id)) {
            p
        } else {
            Beam {
                seen: p.seen,
                open: inserted(p.open, q.candidate(id)),
                best: if (q.passes)(id as int) {
                    first(inserted(p.best, q.candidate(id)), q.ef)
                } else {
                    p.best
                },
            }
        }
    }
}

/// Nodes that come later do not count.
proof fn weighed_before(q: Quest, b: Beam, ids: Seq<u32>, id: u32, n: int)
    requires
        n <= ids.len(),
    ensures
        weighed(q, b, ids.push(id), n) == weighed(q, b, ids, n),
    decreases n,
{
    if n > 0 {
        weighed_before(q, b, ids, id, n - 1);
    }
}

/// To offer nodes is to see them all, and then to weigh those that were new.
proof fn offered_in_turn(q: Quest, b: Beam, list: Seq<u32>, n: int)
    requires
        0 <= n <= list.len(),
    ensures
        ({
            let ids = fresh_in(q, b, list, n);
            let w = weighed(q, b, ids, ids.len() as int);
            &&& q.offered_all(b, list, n).open == w.open
            &&& q.offered_all(b, list, n).best == w.best
        }),
    decreases n,
{
    if n > 0 {
        offered_in_turn(q, b, list, n - 1);
        let ids = fresh_in(q, b, list, n - 1);
        weighed_before(q, b, ids, list[n - 1], ids.len() as int);
    }
}

/// Offers the nodes of a list to a search: it sees them all, and then weighs those that were new.
fn offer_all<A: Arithmetic>(
    store: &FlatIndex,
    search: &mut Search,
    query: &[u32],
    list: &[u32],
    ef: usize,
    filter: Option<&[bool]>,
    exclude: Option<u32>,
    fresh: &mut Vec<u32>,
    keys: &mut Vec<u32>,
    Ghost(good): Ghost<spec_fn(u32) -> bool>,
)
    requires
        query@.len() == store@.dim,
        covers(mask(filter), store@.len()),
        forall|id: u32| #[trigger] good(id) ==> id < store@.len(),
        forall|k: int| 0 <= k < list@.len() ==> good(#[trigger] list@[k]),
        old(search).wf(),
        old(search).room() == store@.len(),
        old(search)@.best.len() <= ef,
        quest(store@, query@, mask(filter), exclude, ef as int).is_sound(old(search)@, good),
    ensures
        final(search).wf(),
        final(search).room() == store@.len(),
        final(search)@ == quest(store@, query@, mask(filter), exclude, ef as int).offered_all(
            old(search)@,
            list@,
            list@.len() as int,
        ),
        quest(store@, query@, mask(filter), exclude, ef as int).is_sound(final(search)@, good),
        final(search)@.best.len() <= ef,
        final(search)@.seen.len() + old(search)@.open.len() >= old(search)@.seen.len()
            + final(search)@.open.len(),
{
    let ghost q = quest(store@, query@, mask(filter), exclude, ef as int);
    let ghost b = search@;
    fresh.clear();
    let mut i: usize = 0;
    while i < list.len()
        invariant
            i <= list@.len(),
            q.exclude == exclude,
            forall|id: u32| #[trigger] good(id) ==> id < store@.len(),
            forall|k: int| 0 <= k < list@.len() ==> good(#[trigger] list@[k]),
            search.wf(),
            search.room() == store@.len(),
            search@.seen == q.offered_all(b, list@, i as int).seen,
            search@.open == b.open,
            search@.best == b.best,
            fresh@ == fresh_in(q, b, list@, i as int),
            forall|k: int| 0 <= k < fresh@.len() ==> (#[trigger] fresh@[k]) < store@.len(),
        decreases list@.len() - i,
    {
        let nb: u32 = list[i];
        assert(good(list@[i as int]));
        if search.see(nb, exclude) {
            fresh.push(nb);
        }
        i += 1;
    }
    let ghost seen = search@.seen;
    store.keys_to::<A>(query, fresh.as_slice(), keys);
    let mut j: usize = 0;
    while j < fresh.len()
        invariant
            j <= fresh@.len(),
            keys@.len() == fresh@.len(),
            forall|k: int| 0 <= k < fresh@.len() ==> (#[trigger] fresh@[k]) < store@.len(),
            forall|k: int|
                0 <= k < fresh@.len() ==> #[trigger] keys@[k] == store@.keys(query@)(
                    fresh@[k] as int,
                ),
            covers(mask(filter), store@.len()),
            q == quest(store@, query@, mask(filter), exclude, ef as int),
            search.wf(),
            search.room() == store@.len(),
            search@.seen == seen,
            search@.open == weighed(q, b, fresh@, j as int).open,
            search@.best == weighed(q, b, fresh@, j as int).best,
            search@.best.len() <= ef,
        decreases fresh@.len() - j,
    {
        let nb: u32 = fresh[j];
        let d: u32 = keys[j];
        assert(d == (q.key)(nb));
        if search.wants(d, ef) {
            let pass: bool = is_passing(filter, nb as usize);
            search.keep(d, nb, pass, ef);
        }
        j += 1;
    }
    proof {
        offered_in_turn(q, b, list@, list@.len() as int);
        offered_all_is_sound(q, b, list@, list@.len() as int, good);
        assert(search@ =~= q.offered_all(b, list@, list@.len() as int));
    }
}

/// Searches a layer from the nodes `entry` on: the results, nearest first, and the nodes
/// seen.
pub(crate) fn search_layer<A: Arithmetic, G: Graph>(
    store: &FlatIndex,
    g: &G,
    query: &[u32],
    entry: &[u32],
    ef: usize,
    layer: usize,
    filter: Option<&[bool]>,
    exclude: Option<u32>,
    Ghost(good): Ghost<spec_fn(u32) -> bool>,
) -> (r: (Vec<u128>, Vec<u32>))
    requires
        query@.len() == store@.dim,
        covers(mask(filter), store@.len()),
        keeps(g, layer as int, store@.len(), good),
        forall|i: int| 0 <= i < entry@.len() ==> good(#[trigger] entry@[i]),
    ensures
        is_outcome(
            quest(store@, query@, mask(filter), exclude, ef as int),
            reads_of(g, layer as int),
            entry@,
            r.0@,
            r.1@,
        ),
        quest(store@, query@, mask(filter), exclude, ef as int).is_sound(
            Beam { seen: r.1@, open: Seq::empty(), best: r.0@ },
            good,
        ),
        r.0@.len() <= ef,
{
    let ghost q = quest(store@, query@, mask(filter), exclude, ef as int);
    let count: usize = store.len();
    let ghost n = count as int;
    let mut search: Search = Search::new(count);
    let mut i: usize = 0;
    while i < entry.len()
        invariant
            i <= entry@.len(),
            query@.len() == store@.dim,
            n == store@.len(),
            covers(mask(filter), n),
            q == quest(store@, query@, mask(filter), exclude, ef as int),
            forall|id: u32| #[trigger] good(id) ==> id < n,
            forall|j: int| 0 <= j < entry@.len() ==> good(#[trigger] entry@[j]),
            search.wf(),
            search.room() == store@.len(),
            search@ == q.seeded_with(entry@, i as int),
            q.is_sound(search@, good),
        decreases entry@.len() - i,
    {
        let e: u32 = entry[i];
        assert(good(entry@[i as int]));
        proof {
            seeded_is_sound(q, search@, e, good);
        }
        if search.see(e, exclude) {
            let d: u32 = store.key_to::<A>(query, e as usize);
            assert(d == (q.key)(e));
            let pass: bool = is_passing(filter, e as usize);
            search.open_node(d, e, pass);
        }
        i += 1;
    }
    search.trim(ef);
    proof {
        start_is_sound(q, entry@, good);
        assert(search@ =~= q.start(entry@));
    }
    let ghost b0 = q.start(entry@);
    let ghost mut lists: Seq<Seq<u32>> = Seq::empty();
    let mut list: Vec<u32> = Vec::new();
    let mut fresh: Vec<u32> = Vec::new();
    let mut keys: Vec<u32> = Vec::new();
    let ghost mut end = search@;
    loop
        invariant_except_break
            search@ == q.played(b0, lists),
            end == search@,
        invariant
            query@.len() == store@.dim,
            n == store@.len(),
            n >= 0,
            covers(mask(filter), n),
            q == quest(store@, query@, mask(filter), exclude, ef as int),
            b0 == q.start(entry@),
            keeps(g, layer as int, n, good),
            search.wf(),
            search.room() == store@.len(),
            q.is_sound(end, good),
            end.best.len() <= ef,
            is_legal(q, reads_of(g, layer as int), b0, lists),
        ensures
            end == q.played(b0, lists),
            q.is_done(end),
            search@.best == end.best,
            search@.seen == end.seen,
        decreases n - search@.seen.len() + search@.open.len(),
    {
        let ghost b = search@;
        proof {
            sound_is_bounded(q, b, good, n);
        }
        match search.pop(ef) {
            None => {
                break;
            },
            Some(node) => {
                proof {
                    popped_is_sound(q, b, good);
                    assert(node == q.next(b));
                    assert(good(node));
                }
                g.read(node, layer, &mut list);
                let ghost b1 = search@;
                proof {
                    assert(g.may_read(node, layer as int, list@));
                    assert forall|j: int| 0 <= j < list@.len() implies good(#[trigger] list@[j]) by {
                    }
                }
                offer_all::<A>(
                    store,
                    &mut search,
                    query,
                    list.as_slice(),
                    ef,
                    filter,
                    exclude,
                    &mut fresh,
                    &mut keys,
                    Ghost(good),
                );
                proof {
                    legal_grows(q, reads_of(g, layer as int), b0, lists, list@);
                    lists = lists.push(list@);
                    end = search@;
                    sound_is_bounded(q, end, good, n);
                }
            },
        }
    }
    let r: (Vec<u128>, Vec<u32>) = search.finish();
    proof {
        assert(r.0@ == end.best);
        assert(r.1@ == end.seen);
        let t = Beam { seen: r.1@, open: Seq::empty(), best: r.0@ };
        assert forall|c: u128| #[trigger] t.best.contains(c) implies q.is_of(t, c) by {
            let id = choose|id: u32| end.seen.contains(id) && c == #[trigger] q.candidate(id);
            assert(t.seen.contains(id) && c == q.candidate(id));
        }
    }
    r
}

/// In a graph that nobody changes a search ends in one place.
pub(crate) proof fn plain_outcome(
    q: Quest,
    g: &Plain,
    layer: int,
    entry: Seq<u32>,
    best: Seq<u128>,
    seen: Seq<u32>,
)
    requires
        is_outcome(q, reads_of(g, layer), entry, best, seen),
    ensures
        q.outcome(adjacency(links_of(g.links@), layer), entry).best == best,
        q.outcome(adjacency(links_of(g.links@), layer), entry).seen == seen,
        q.ends(
            adjacency(links_of(g.links@), layer),
            entry,
            q.outcome(adjacency(links_of(g.links@), layer), entry),
        ),
{
    let graph = adjacency(links_of(g.links@), layer);
    let b = q.start(entry);
    let lists = choose|lists: Seq<Seq<u32>>| {
        let r = q.played(b, lists);
        &&& #[trigger] is_legal(q, reads_of(g, layer), b, lists)
        &&& q.is_done(r)
        &&& best == r.best
        &&& seen == r.seen
    };
    plain_run(q, g, layer, b, lists, lists.len());
    assert(lists.take(lists.len() as int) =~= lists);
    search_ends_once(q, graph, entry, q.played(b, lists));
}

proof fn plain_run(
    q: Quest,
    g: &Plain,
    layer: int,
    b: Beam,
    lists: Seq<Seq<u32>>,
    n: nat,
)
    requires
        is_legal(q, reads_of(g, layer), b, lists),
        n <= lists.len(),
    ensures
        q.run(adjacency(links_of(g.links@), layer), b, n) == q.played(b, lists.take(n as int)),
    decreases n,
{
    if n > 0 {
        let m = (n - 1) as nat;
        plain_run(q, g, layer, b, lists, m);
        assert(is_legal_step(q, reads_of(g, layer), b, lists, m as int));
        assert(lists.take(n as int).drop_last() =~= lists.take(m as int));
        assert(lists.take(n as int).last() == lists[m as int]);
    }
}

} // verus!
