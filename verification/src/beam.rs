//! Best-first search with a bounded result.
//!
//! The search keeps the nodes it has seen, those it has yet to expand and the best ones
//! found. It expands the nearest open node until that is farther than the worst of a full
//! result, or none is open.

use vstd::prelude::*;
use crate::binary32::{is_lt, lt, MAX};
use crate::heap::{MaxHeap, MinHeap};
use crate::ranked::{
    ascending, first, id_in, inserted, inserted_contains, inserted_is_ascending,
    inserted_is_distinct, key_in, rank, rank_is_exact, to_id, to_key, to_rank,
};

verus! {

/// What is searched for: the key of each node, which nodes may be results, which one is
/// left out altogether, and how many results there may be.
pub struct Quest {
    pub key: spec_fn(u32) -> u32,
    pub passes: spec_fn(int) -> bool,
    pub exclude: Option<u32>,
    pub ef: int,
}

/// Where a search stands: the nodes seen, in the order in which they were, the open ones and
/// the best ones, both nearest first.
#[verifier::ext_equal]
pub struct Beam {
    pub seen: Seq<u32>,
    pub open: Seq<u128>,
    pub best: Seq<u128>,
}

impl Quest {
    /// The candidate of a node.
    pub open spec fn candidate(self, id: u32) -> u128 {
        rank((self.key)(id), id as u64)
    }

    /// Whether a node is new to a search.
    pub open spec fn is_new(self, b: Beam, id: u32) -> bool {
        self.exclude != Some(id) && !b.seen.contains(id)
    }

    /// A search that has seen nothing.
    pub open spec fn nothing() -> Beam {
        Beam { seen: Seq::empty(), open: Seq::empty(), best: Seq::empty() }
    }

    /// A node to start from: it is open, and a result if it passes.
    pub open spec fn seeded(self, b: Beam, id: u32) -> Beam {
        if self.is_new(b, id) {
            Beam {
                seen: b.seen.push(id),
                open: inserted(b.open, self.candidate(id)),
                best: if (self.passes)(id as int) {
                    inserted(b.best, self.candidate(id))
                } else {
                    b.best
                },
            }
        } else {
            b
        }
    }

    /// The first `n` nodes to start from.
    pub open spec fn seeded_with(self, entry: Seq<u32>, n: int) -> Beam
        decreases n,
    {
        if n <= 0 {
            Self::nothing()
        } else {
            self.seeded(self.seeded_with(entry, n - 1), entry[n - 1])
        }
    }

    /// The start of a search: of the nodes to start from, at most `ef` are results.
    pub open spec fn start(self, entry: Seq<u32>) -> Beam {
        let b = self.seeded_with(entry, entry.len() as int);
        Beam { best: first(b.best, self.ef), ..b }
    }

    /// The key of the worst result.
    pub open spec fn worst(self, b: Beam) -> u32 {
        if b.best.len() == 0 {
            MAX
        } else {
            key_in(b.best.last())
        }
    }

    /// Whether a node with a key is worth keeping.
    pub open spec fn is_wanted(self, b: Beam, key: u32) -> bool {
        lt(key, self.worst(b)) || b.best.len() < self.ef
    }

    /// A neighbor: if it is new, it is seen; if it is wanted too, it is open, and a result if
    /// it passes, in place of the worst where there are too many.
    pub open spec fn offered(self, b: Beam, id: u32) -> Beam {
        if !self.is_new(b, id) {
            b
        } else if !self.is_wanted(b, (self.key)(id)) {
            Beam { seen: b.seen.push(id), ..b }
        } else {
            Beam {
                seen: b.seen.push(id),
                open: inserted(b.open, self.candidate(id)),
                best: if (self.passes)(id as int) {
                    first(inserted(b.best, self.candidate(id)), self.ef)
                } else {
                    b.best
                },
            }
        }
    }

    /// The first `n` neighbors of a list.
    pub open spec fn offered_all(self, b: Beam, list: Seq<u32>, n: int) -> Beam
        decreases n,
    {
        if n <= 0 {
            b
        } else {
            self.offered(self.offered_all(b, list, n - 1), list[n - 1])
        }
    }

    /// Whether the search is over.
    pub open spec fn is_done(self, b: Beam) -> bool {
        b.open.len() == 0 || (lt(self.worst(b), key_in(b.open[0])) && b.best.len() >= self.ef)
    }

    /// The node to expand next.
    pub open spec fn next(self, b: Beam) -> u32 {
        id_in(b.open[0]) as u32
    }

    /// The search after its next node, which has these neighbors, was expanded.
    pub open spec fn expanded(self, b: Beam, list: Seq<u32>) -> Beam {
        self.offered_all(Beam { open: b.open.drop_first(), ..b }, list, list.len() as int)
    }

    /// The search after nodes with these neighbors were expanded.
    pub open spec fn played(self, b: Beam, lists: Seq<Seq<u32>>) -> Beam
        decreases lists.len(),
    {
        if lists.len() == 0 {
            b
        } else {
            self.expanded(self.played(b, lists.drop_last()), lists.last())
        }
    }

    /// The search after `steps` nodes were expanded, or when it is over, in a graph.
    pub open spec fn run(self, graph: spec_fn(u32) -> Seq<u32>, b: Beam, steps: nat) -> Beam
        decreases steps,
    {
        if steps == 0 {
            b
        } else {
            let p = self.run(graph, b, (steps - 1) as nat);
            if self.is_done(p) {
                p
            } else {
                self.expanded(p, graph(self.next(p)))
            }
        }
    }

    /// `r` is where the search of a graph ends.
    pub open spec fn ends(self, graph: spec_fn(u32) -> Seq<u32>, entry: Seq<u32>, r: Beam) -> bool {
        self.is_done(r) && exists|steps: nat| r == #[trigger] self.run(graph, self.start(entry), steps)
    }

    /// Where the search of a graph ends, if it does.
    pub open spec fn outcome(self, graph: spec_fn(u32) -> Seq<u32>, entry: Seq<u32>) -> Beam {
        choose|r: Beam| self.ends(graph, entry, r)
    }

    /// A candidate is of a node that was seen.
    pub open spec fn is_of(self, b: Beam, c: u128) -> bool {
        exists|id: u32| b.seen.contains(id) && c == #[trigger] self.candidate(id)
    }

    /// What every search keeps: no node is seen twice, all are good, and the open nodes and
    /// the results, each in order and without repetition, are among them; results pass.
    pub open spec fn is_sound(self, b: Beam, good: spec_fn(u32) -> bool) -> bool {
        &&& b.seen.no_duplicates()
        &&& forall|id: u32| #[trigger] b.seen.contains(id) ==> good(id) && self.exclude != Some(id)
        &&& ascending(b.open)
        &&& ascending(b.best)
        &&& b.open.no_duplicates()
        &&& b.best.no_duplicates()
        &&& forall|c: u128| #[trigger] b.open.contains(c) ==> self.is_of(b, c)
        &&& forall|c: u128| #[trigger]
            b.best.contains(c) ==> self.is_of(b, c) && (self.passes)(id_in(c) as int)
    }
}

/// A search that is over stays where it is.
proof fn run_stays(q: Quest, graph: spec_fn(u32) -> Seq<u32>, b: Beam, m: nat, n: nat)
    requires
        m <= n,
        q.is_done(q.run(graph, b, m)),
    ensures
        q.run(graph, b, n) == q.run(graph, b, m),
    decreases n,
{
    if m < n {
        run_stays(q, graph, b, m, (n - 1) as nat);
    }
}

/// A search ends in one place.
pub proof fn search_ends_once(
    q: Quest,
    graph: spec_fn(u32) -> Seq<u32>,
    entry: Seq<u32>,
    r: Beam,
)
    requires
        q.ends(graph, entry, r),
    ensures
        q.outcome(graph, entry) == r,
{
    let s = q.outcome(graph, entry);
    let b = q.start(entry);
    assert(q.ends(graph, entry, s));
    let m = choose|m: nat| r == #[trigger] q.run(graph, b, m);
    let n = choose|n: nat| s == #[trigger] q.run(graph, b, n);
    if m <= n {
        run_stays(q, graph, b, m, n);
    } else {
        run_stays(q, graph, b, n, m);
    }
}

/// The candidate of a node names the node.
pub proof fn candidate_is_exact(q: Quest, id: u32)
    ensures
        id_in(q.candidate(id)) as u32 == id,
        id_in(q.candidate(id)) == id as u64,
        key_in(q.candidate(id)) == (q.key)(id),
{
    rank_is_exact((q.key)(id), id as u64);
}

/// A new node does not have a candidate yet.
proof fn new_is_absent(q: Quest, b: Beam, id: u32, c: u128)
    requires
        !b.seen.contains(id),
        q.is_of(b, c),
    ensures
        c != q.candidate(id),
{
    let i = choose|i: u32| b.seen.contains(i) && c == #[trigger] q.candidate(i);
    candidate_is_exact(q, i);
    candidate_is_exact(q, id);
}

/// The first elements are among the elements.
pub proof fn first_contains(s: Seq<u128>, n: int, c: u128)
    requires
        first(s, n).contains(c),
        n >= 0,
    ensures
        s.contains(c),
{
    let t = first(s, n);
    let i = choose|i: int| 0 <= i < t.len() && t[i] == c;
    assert(s[i] == c);
}

/// What a candidate set keeps when a new node joins it.
proof fn joined_is_sound(q: Quest, b: Beam, s: Seq<u128>, id: u32)
    requires
        !b.seen.contains(id),
        ascending(s),
        s.no_duplicates(),
        forall|c: u128| #[trigger] s.contains(c) ==> q.is_of(b, c),
    ensures
        ascending(inserted(s, q.candidate(id))),
        inserted(s, q.candidate(id)).no_duplicates(),
        forall|c: u128| #[trigger]
            inserted(s, q.candidate(id)).contains(c) <==> s.contains(c) || c == q.candidate(id),
{
    let x = q.candidate(id);
    inserted_is_ascending(s, x);
    assert(!s.contains(x)) by {
        if s.contains(x) {
            new_is_absent(q, b, id, x);
        }
    }
    inserted_is_distinct(s, x);
    assert forall|c: u128| #[trigger] inserted(s, x).contains(c) <==> s.contains(c) || c == x by {
        inserted_contains(s, x, c);
    }
}

/// Seeing one more node.
proof fn seen_grows(q: Quest, b: Beam, id: u32)
    ensures
        forall|i: u32| #[trigger] b.seen.push(id).contains(i) <==> b.seen.contains(i) || i == id,
        forall|c: u128, open: Seq<u128>, best: Seq<u128>|
            q.is_of(b, c) ==> #[trigger] q.is_of(Beam { seen: b.seen.push(id), open, best }, c),
        forall|open: Seq<u128>, best: Seq<u128>|
            #[trigger] q.is_of(Beam { seen: b.seen.push(id), open, best }, q.candidate(id)),
{
    let s = b.seen.push(id);
    assert forall|i: u32| #[trigger] s.contains(i) <==> b.seen.contains(i) || i == id by {
        if b.seen.contains(i) {
            let j = choose|j: int| 0 <= j < b.seen.len() && b.seen[j] == i;
            assert(s[j] == i);
        }
        if i == id {
            assert(s[b.seen.len() as int] == id);
        }
        if s.contains(i) {
            let j = choose|j: int| 0 <= j < s.len() && s[j] == i;
            if j < b.seen.len() {
                assert(b.seen[j] == i);
            }
        }
    }
    assert forall|c: u128, open: Seq<u128>, best: Seq<u128>| q.is_of(b, c) implies #[trigger] q.is_of(
        Beam { seen: s, open, best },
        c,
    ) by {
        let i = choose|i: u32| b.seen.contains(i) && c == #[trigger] q.candidate(i);
        assert(s.contains(i) && c == q.candidate(i));
    }
}

pub proof fn seeded_is_sound(q: Quest, b: Beam, id: u32, good: spec_fn(u32) -> bool)
    requires
        q.is_sound(b, good),
        good(id),
    ensures
        q.is_sound(q.seeded(b, id), good),
{
    if q.is_new(b, id) {
        candidate_is_exact(q, id);
        seen_grows(q, b, id);
        joined_is_sound(q, b, b.open, id);
        joined_is_sound(q, b, b.best, id);
    }
}

pub proof fn offered_is_sound(q: Quest, b: Beam, id: u32, good: spec_fn(u32) -> bool)
    requires
        q.is_sound(b, good),
        q.ef >= 0,
        good(id),
    ensures
        q.is_sound(q.offered(b, id), good),
        b.best.len() <= q.ef ==> q.offered(b, id).best.len() <= q.ef,
        q.offered(b, id).seen.len() + b.open.len() >= b.seen.len() + q.offered(b, id).open.len(),
{
    if q.is_new(b, id) {
        candidate_is_exact(q, id);
        seen_grows(q, b, id);
        if q.is_wanted(b, (q.key)(id)) {
            joined_is_sound(q, b, b.open, id);
            joined_is_sound(q, b, b.best, id);
            inserted_is_ascending(b.open, q.candidate(id));
            let r = q.offered(b, id);
            assert forall|c: u128| #[trigger] r.best.contains(c) implies q.is_of(r, c) && (
            q.passes)(id_in(c) as int) by {
                if (q.passes)(id as int) {
                    first_contains(inserted(b.best, q.candidate(id)), q.ef, c);
                }
            }
        }
    }
}

pub proof fn start_is_sound(q: Quest, entry: Seq<u32>, good: spec_fn(u32) -> bool)
    requires
        q.ef >= 0,
        forall|i: int| 0 <= i < entry.len() ==> good(#[trigger] entry[i]),
    ensures
        q.is_sound(q.start(entry), good),
        q.start(entry).best.len() <= q.ef,
{
    seeded_with_is_sound(q, entry, entry.len() as int, good);
    let b = q.seeded_with(entry, entry.len() as int);
    let r = q.start(entry);
    assert forall|c: u128| #[trigger] r.best.contains(c) implies q.is_of(r, c) && (q.passes)(
        id_in(c) as int,
    ) by {
        first_contains(b.best, q.ef, c);
        let i = choose|i: u32| b.seen.contains(i) && c == #[trigger] q.candidate(i);
        assert(r.seen.contains(i) && c == q.candidate(i));
    }
    assert forall|c: u128| #[trigger] r.open.contains(c) implies q.is_of(r, c) by {
        let i = choose|i: u32| b.seen.contains(i) && c == #[trigger] q.candidate(i);
        assert(r.seen.contains(i) && c == q.candidate(i));
    }
}

pub proof fn seeded_with_is_sound(q: Quest, entry: Seq<u32>, n: int, good: spec_fn(u32) -> bool)
    requires
        0 <= n <= entry.len(),
        forall|i: int| 0 <= i < entry.len() ==> good(#[trigger] entry[i]),
    ensures
        q.is_sound(q.seeded_with(entry, n), good),
    decreases n,
{
    if n > 0 {
        seeded_with_is_sound(q, entry, n - 1, good);
        seeded_is_sound(q, q.seeded_with(entry, n - 1), entry[n - 1], good);
    }
}

/// Taking the nearest open node out.
pub proof fn popped_is_sound(q: Quest, b: Beam, good: spec_fn(u32) -> bool)
    requires
        q.is_sound(b, good),
        b.open.len() > 0,
    ensures
        q.is_sound(Beam { open: b.open.drop_first(), ..b }, good),
        b.seen.contains(q.next(b)),
        good(q.next(b)),
        b.open[0] == q.candidate(q.next(b)),
        key_in(b.open[0]) == (q.key)(q.next(b)),
{
    let r = Beam { open: b.open.drop_first(), ..b };
    assert forall|c: u128| #[trigger] r.open.contains(c) implies q.is_of(r, c) by {
        let i = choose|i: int| 0 <= i < r.open.len() && r.open[i] == c;
        assert(b.open[i + 1] == c);
        assert(b.open.contains(c));
        let j = choose|j: u32| b.seen.contains(j) && c == #[trigger] q.candidate(j);
        assert(r.seen.contains(j) && c == q.candidate(j));
    }
    assert forall|c: u128| #[trigger] r.best.contains(c) implies q.is_of(r, c) by {
        let j = choose|j: u32| b.seen.contains(j) && c == #[trigger] q.candidate(j);
        assert(r.seen.contains(j) && c == q.candidate(j));
    }
    assert(b.open.contains(b.open[0]));
    let j = choose|j: u32| b.seen.contains(j) && b.open[0] == #[trigger] q.candidate(j);
    candidate_is_exact(q, j);
}

/// Expanding a node whose neighbors are good.
pub proof fn expanded_is_sound(q: Quest, b: Beam, list: Seq<u32>, good: spec_fn(u32) -> bool)
    requires
        q.is_sound(b, good),
        q.ef >= 0,
        b.open.len() > 0,
        forall|i: int| 0 <= i < list.len() ==> good(#[trigger] list[i]),
    ensures
        q.is_sound(q.expanded(b, list), good),
        b.best.len() <= q.ef ==> q.expanded(b, list).best.len() <= q.ef,
        q.expanded(b, list).seen.len() + b.open.len() > b.seen.len() + q.expanded(
            b,
            list,
        ).open.len(),
{
    popped_is_sound(q, b, good);
    offered_all_is_sound(
        q,
        Beam { open: b.open.drop_first(), ..b },
        list,
        list.len() as int,
        good,
    );
}

pub proof fn offered_all_is_sound(
    q: Quest,
    b: Beam,
    list: Seq<u32>,
    n: int,
    good: spec_fn(u32) -> bool,
)
    requires
        q.is_sound(b, good),
        q.ef >= 0,
        0 <= n <= list.len(),
        forall|i: int| 0 <= i < list.len() ==> good(#[trigger] list[i]),
    ensures
        q.is_sound(q.offered_all(b, list, n), good),
        b.best.len() <= q.ef ==> q.offered_all(b, list, n).best.len() <= q.ef,
        q.offered_all(b, list, n).seen.len() + b.open.len() >= b.seen.len() + q.offered_all(
            b,
            list,
            n,
        ).open.len(),
    decreases n,
{
    if n > 0 {
        offered_all_is_sound(q, b, list, n - 1, good);
        offered_is_sound(q, q.offered_all(b, list, n - 1), list[n - 1], good);
    }
}

/// A sound search has seen no more nodes than there are.
pub proof fn seen_is_bounded(s: Seq<u32>, n: int)
    requires
        s.no_duplicates(),
        forall|id: u32| #[trigger] s.contains(id) ==> id < n,
        n >= 0,
    ensures
        s.len() <= n,
{
    let t = s.map_values(|x: u32| x as int);
    assert(t.no_duplicates()) by {
        assert forall|i: int, j: int| 0 <= i < t.len() && 0 <= j < t.len() && i != j implies t[i]
            != t[j] by {
            assert(s[i] != s[j]);
        }
    }
    t.unique_seq_to_set();
    vstd::set_lib::lemma_int_range(0, n);
    assert(t.to_set().subset_of(vstd::set_lib::set_int_range(0, n))) by {
        assert forall|x: int| t.to_set().contains(x) implies 0 <= x < n by {
            let i = choose|i: int| 0 <= i < t.len() && t[i] == x;
            assert(s.contains(s[i]));
        }
    }
    vstd::set_lib::lemma_len_subset(t.to_set(), vstd::set_lib::set_int_range(0, n));
}

/// A search under way.
pub struct Search {
    visited: Vec<bool>,
    seen: Vec<u32>,
    open: MinHeap,
    best: MaxHeap,
}

impl View for Search {
    type V = Beam;

    closed spec fn view(&self) -> Beam {
        Beam { seen: self.seen@, open: self.open@, best: self.best@ }
    }
}

impl Search {
    /// The visited nodes are those that were seen.
    pub closed spec fn wf(&self) -> bool {
        forall|id: u32|
            id < self.visited@.len() ==> (#[trigger] self.visited@[id as int]
                <==> self.seen@.contains(id))
    }

    /// How many nodes there are to see.
    pub closed spec fn room(&self) -> int {
        self.visited@.len() as int
    }

    /// A search of `n` nodes that has seen nothing.
    pub fn new(n: usize) -> (r: Self)
        ensures
            r.wf(),
            r.room() == n,
            r@ == Quest::nothing(),
    {
        let r = Search {
            visited: vec![false; n],
            seen: Vec::new(),
            open: MinHeap::new(),
            best: MaxHeap::new(),
        };
        assert(r@ =~= Quest::nothing());
        r
    }

    /// Sees a node, and says whether it was new.
    #[inline]
    pub fn see(&mut self, id: u32, exclude: Option<u32>) -> (r: bool)
        requires
            old(self).wf(),
            id < old(self).room(),
        ensures
            final(self).wf(),
            final(self).room() == old(self).room(),
            r == (exclude != Some(id) && !old(self)@.seen.contains(id)),
            !r ==> final(self)@ == old(self)@,
            r ==> final(self)@ == (Beam { seen: old(self)@.seen.push(id), ..old(self)@ }),
    {
        if let Some(e) = exclude {
            if e == id {
                return false;
            }
        }
        if self.has_seen(id) {
            return false;
        }
        let ghost before = self.seen@;
        let ghost was = self.visited@;
        self.visited.set(id as usize, true);
        self.seen.push(id);
        proof {
            assert forall|i: u32| i < self.visited@.len() implies (
            #[trigger] self.visited@[i as int] <==> self.seen@.contains(i)) by {
                assert(was[i as int] <==> before.contains(i));
                if before.contains(i) {
                    let j = choose|j: int| 0 <= j < before.len() && before[j] == i;
                    assert(self.seen@[j] == i);
                }
                assert(self.seen@[before.len() as int] == id);
                if self.seen@.contains(i) && i != id {
                    let j = choose|j: int| 0 <= j < self.seen@.len() && self.seen@[j] == i;
                    assert(before[j] == i);
                }
            }
        }
        true
    }

    /// Whether a node was seen.
    #[inline]
    pub fn has_seen(&self, id: u32) -> (r: bool)
        requires
            self.wf(),
            id < self.room(),
        ensures
            r == self@.seen.contains(id),
    {
        assert(self.visited@[id as int] <==> self.seen@.contains(id));
        self.visited[id as usize]
    }

    /// Opens a node that was just seen, and makes it a result if it passes.
    #[inline]
    pub fn open_node(&mut self, key: u32, id: u32, pass: bool)
        requires
            old(self).wf(),
        ensures
            final(self).wf(),
            final(self).room() == old(self).room(),
            final(self)@ == (Beam {
                seen: old(self)@.seen,
                open: inserted(old(self)@.open, rank(key, id as u64)),
                best: if pass {
                    inserted(old(self)@.best, rank(key, id as u64))
                } else {
                    old(self)@.best
                },
            }),
    {
        let c: u128 = to_rank(key, id as u64);
        self.open.push(c);
        if pass {
            self.best.push(c);
        }
    }

    /// Opens a node that was just seen, and makes it a result if it passes, in place of the worst
    /// where there are `ef`.
    #[inline]
    pub fn keep(&mut self, key: u32, id: u32, pass: bool, ef: usize)
        requires
            old(self).wf(),
            old(self)@.best.len() <= ef,
        ensures
            final(self).wf(),
            final(self).room() == old(self).room(),
            final(self)@ == (Beam {
                seen: old(self)@.seen,
                open: inserted(old(self)@.open, rank(key, id as u64)),
                best: if pass {
                    first(inserted(old(self)@.best, rank(key, id as u64)), ef as int)
                } else {
                    old(self)@.best
                },
            }),
    {
        let c: u128 = to_rank(key, id as u64);
        self.open.push(c);
        if pass {
            self.best.push_within(c, ef);
        }
    }

    /// Drops the worst results until there are at most `ef`.
    pub fn trim(&mut self, ef: usize)
        requires
            old(self).wf(),
        ensures
            final(self).wf(),
            final(self).room() == old(self).room(),
            final(self)@ == (Beam { best: first(old(self)@.best, ef as int), ..old(self)@ }),
    {
        let ghost b0 = self@;
        let ghost room = self.room();
        while self.best.len() > ef
            invariant
                self.wf(),
                self.room() == room,
                self@.seen == b0.seen,
                self@.open == b0.open,
                self@.best.len() <= b0.best.len(),
                self@.best == b0.best.take(self@.best.len() as int),
                self@.best.len() < b0.best.len() ==> self@.best.len() >= ef,
            decreases self@.best.len(),
        {
            let ghost before = self@.best;
            let _ = self.best.pop();
            assert(self@.best =~= b0.best.take(self@.best.len() as int));
        }
        assert(self@.best =~= first(b0.best, ef as int));
    }

    /// Whether a node with a key is worth keeping.
    #[inline]
    pub fn wants(&self, key: u32, ef: usize) -> (r: bool)
        ensures
            r == (lt(
                key,
                if self@.best.len() == 0 {
                    MAX
                } else {
                    key_in(self@.best.last())
                },
            ) || self@.best.len() < ef),
    {
        let worst: u32 = match self.best.peek() {
            Some(c) => to_key(c),
            None => MAX,
        };
        is_lt(key, worst) || self.best.len() < ef
    }

    /// Takes the nearest open node out, unless the search is over.
    pub fn pop(&mut self, ef: usize) -> (r: Option<u32>)
        requires
            old(self).wf(),
        ensures
            final(self).wf(),
            final(self).room() == old(self).room(),
            ({
                let b = old(self)@;
                let worst = if b.best.len() == 0 {
                    MAX
                } else {
                    key_in(b.best.last())
                };
                if b.open.len() == 0 || (lt(worst, key_in(b.open[0])) && b.best.len() >= ef) {
                    r is None && final(self)@.seen == b.seen && final(self)@.best == b.best
                } else {
                    r == Some(id_in(b.open[0]) as u32) && final(self)@ == (Beam {
                        open: b.open.drop_first(),
                        ..b
                    })
                }
            }),
    {
        match self.open.pop() {
            None => None,
            Some(c) => {
                let worst: u32 = match self.best.peek() {
                    Some(w) => to_key(w),
                    None => MAX,
                };
                if is_lt(worst, to_key(c)) && self.best.len() >= ef {
                    None
                } else {
                    Some(to_id(c) as u32)
                }
            },
        }
    }

    /// The results, nearest first, and the nodes seen, in the order in which they were.
    pub fn finish(self) -> (r: (Vec<u128>, Vec<u32>))
        ensures
            r.0@ == self@.best,
            r.1@ == self@.seen,
    {
        (self.best.into_sorted_vec(), self.seen)
    }
}

} // verus!
