//! How far a search in a graph index reaches, and when it is exact.

use vstd::prelude::*;
use vstd::set_lib::{lemma_int_range, lemma_len_subset, lemma_subset_equality, set_int_range};
use crate::beam::{
    candidate_is_exact, offered_all_is_sound, popped_is_sound, search_ends_once, Beam, Quest,
};
use crate::exactness::scan_depends_on_who_passes;
use crate::exploration::{
    all_good, is_closed, is_path, run_is_sound, search_ends, wide_search_finds_what_can_be_reached,
};
use crate::graph::adjacency;
use crate::hnsw::HnswView;
use crate::linking::layers_are_closed;
use crate::ranked::{ascending_of_same, id_in, inserted_is_ascending, rank};
use crate::recall::{nodes, start_is_a_node};
use crate::rows::passes;
use crate::topk::{
    all_are_taken, best_are_candidates, best_are_the_first, best_of, is_candidate, passing,
};

verus! {

/// Two searches are for the same, as far as good nodes go; the second may keep more results.
pub open spec fn agree(q: Quest, r: Quest, good: spec_fn(u32) -> bool) -> bool {
    &&& q.key == r.key
    &&& q.exclude == r.exclude
    &&& 0 <= q.ef <= r.ef
    &&& forall|id: u32| good(id) ==> #[trigger] (q.passes)(id as int) == (r.passes)(id as int)
}

/// A search has not dropped a result that a search which keeps more would not.
pub open spec fn has_room(q: Quest, r: Quest, b: Beam) -> bool {
    q.ef == r.ef || b.best.len() < q.ef
}

proof fn seeds_agree(q: Quest, r: Quest, entry: Seq<u32>, n: int, good: spec_fn(u32) -> bool)
    requires
        agree(q, r, good),
        all_good(entry, good),
        0 <= n <= entry.len(),
    ensures
        q.seeded_with(entry, n) == r.seeded_with(entry, n),
    decreases n,
{
    if n > 0 {
        seeds_agree(q, r, entry, n - 1, good);
        assert(good(entry[n - 1]));
        assert((q.passes)(entry[n - 1] as int) == (r.passes)(entry[n - 1] as int));
    }
}

proof fn offers_agree(
    q: Quest,
    r: Quest,
    b: Beam,
    list: Seq<u32>,
    n: int,
    good: spec_fn(u32) -> bool,
)
    requires
        agree(q, r, good),
        q.is_sound(b, good),
        b.best.len() <= q.ef,
        all_good(list, good),
        0 <= n <= list.len(),
        has_room(q, r, q.offered_all(b, list, n)),
    ensures
        q.offered_all(b, list, n) == r.offered_all(b, list, n),
        b.best.len() <= q.offered_all(b, list, n).best.len(),
    decreases n,
{
    if n > 0 {
        let id = list[n - 1];
        let p = q.offered_all(b, list, n - 1);
        offered_all_is_sound(q, b, list, n - 1, good);
        inserted_is_ascending(p.best, q.candidate(id));
        assert(p.best.len() <= q.offered(p, id).best.len());
        offers_agree(q, r, b, list, n - 1, good);
        assert(good(id));
        assert((q.passes)(id as int) == (r.passes)(id as int));
        assert(q.candidate(id) == r.candidate(id));
        assert(q.is_wanted(p, (q.key)(id)) == r.is_wanted(p, (q.key)(id)));
    }
}

proof fn runs_agree(
    q: Quest,
    r: Quest,
    graph: spec_fn(u32) -> Seq<u32>,
    entry: Seq<u32>,
    good: spec_fn(u32) -> bool,
    n: int,
    steps: nat,
)
    requires
        agree(q, r, good),
        is_closed(graph, good, n),
        all_good(entry, good),
        has_room(q, r, q.run(graph, q.start(entry), steps)),
    ensures
        q.run(graph, q.start(entry), steps) == r.run(graph, r.start(entry), steps),
        q.is_done(q.run(graph, q.start(entry), steps)) == r.is_done(
            q.run(graph, q.start(entry), steps),
        ),
    decreases steps,
{
    if steps == 0 {
        seeds_agree(q, r, entry, entry.len() as int, good);
    } else {
        let m = (steps - 1) as nat;
        let p = q.run(graph, q.start(entry), m);
        run_is_sound(q, graph, entry, good, n, m);
        if q.is_done(p) {
            runs_agree(q, r, graph, entry, good, n, m);
        } else {
            popped_is_sound(q, p, good);
            let x = q.next(p);
            let list = graph(x);
            let b = Beam { open: p.open.drop_first(), ..p };
            assert forall|i: int| 0 <= i < list.len() implies good(#[trigger] list[i]) by {
                assert(good(graph(x)[i]));
            }
            offers_agree(q, r, b, list, list.len() as int, good);
            runs_agree(q, r, graph, entry, good, n, m);
        }
    }
}

/// Searches for the same, as far as good nodes go, end in the same place, if the second keeps
/// no more results or the first has room for more.
pub proof fn searches_agree(
    q: Quest,
    r: Quest,
    graph: spec_fn(u32) -> Seq<u32>,
    entry: Seq<u32>,
    good: spec_fn(u32) -> bool,
    n: int,
)
    requires
        agree(q, r, good),
        n >= 0,
        is_closed(graph, good, n),
        all_good(entry, good),
        has_room(q, r, q.outcome(graph, entry)),
    ensures
        q.outcome(graph, entry) == r.outcome(graph, entry),
{
    search_ends(q, graph, entry, good, n);
    let e = q.outcome(graph, entry);
    let steps = choose|steps: nat| e == #[trigger] q.run(graph, q.start(entry), steps);
    runs_agree(q, r, graph, entry, good, n, steps);
    assert(e == r.run(graph, r.start(entry), steps));
    assert(r.ends(graph, entry, e));
    search_ends_once(r, graph, entry, e);
}

/// A filter that all vectors pass changes nothing.
pub proof fn full_filter_changes_no_walk(
    v: HnswView,
    query: Seq<u32>,
    k: int,
    ef: int,
    all: Seq<bool>,
)
    requires
        v.fits(),
        k >= 0,
        ef >= 0,
        v.len() <= all.len(),
        forall|i: int| 0 <= i < all.len() ==> #[trigger] all[i],
    ensures
        v.nearest(query, k, ef, Some(all)) == v.nearest(query, k, ef, None),
{
    if v.entry is Some {
        let q = v.quest(query, k, ef, Some(all));
        let r = v.quest(query, k, ef, None);
        start_is_a_node(v, query);
        layers_are_closed(v.levels, v.params.m as int, v.links, 0);
        assert forall|id: u32| nodes(v)(id) implies #[trigger] (q.passes)(id as int) == (r.passes)(
            id as int,
        ) by {
            assert(all[id as int]);
        }
        searches_agree(
            q,
            r,
            adjacency(v.links, 0),
            seq![v.start(query)],
            nodes(v),
            v.len(),
        );
    }
}

/// The numbers below `n` that pass.
spec fn those_passing(pass: spec_fn(int) -> bool, n: int) -> Set<int> {
    set_int_range(0, n).filter(pass)
}

/// There are as many as are counted.
proof fn passing_counts(pass: spec_fn(int) -> bool, n: int)
    requires
        n >= 0,
    ensures
        those_passing(pass, n).finite(),
        those_passing(pass, n).len() == passing(pass, n),
    decreases n,
{
    lemma_int_range(0, n);
    if n > 0 {
        passing_counts(pass, n - 1);
        let s = those_passing(pass, n - 1);
        if pass(n - 1) {
            assert(those_passing(pass, n) =~= s.insert(n - 1));
        } else {
            assert(those_passing(pass, n) =~= s);
        }
    } else {
        assert(those_passing(pass, n) =~= Set::empty());
    }
}

/// As many results as there are good nodes that pass are all of these.
proof fn enough_are_all(q: Quest, b: Beam, good: spec_fn(u32) -> bool, n: int, x: u32)
    requires
        q.is_sound(b, good),
        0 <= n <= 0x1_0000_0000,
        forall|id: u32| #[trigger] good(id) ==> id < n,
        b.best.len() >= passing(|i: int| good(i as u32) && (q.passes)(i), n),
        good(x),
        (q.passes)(x as int),
    ensures
        b.best.contains(q.candidate(x)),
{
    let pass = |i: int| good(i as u32) && (q.passes)(i);
    let all = those_passing(pass, n);
    let ids = b.best.map_values(|c: u128| id_in(c) as int);
    passing_counts(pass, n);
    assert forall|i: int| 0 <= i < ids.len() implies all.contains(#[trigger] ids[i]) && b.best[i]
        == q.candidate(ids[i] as u32) by {
        assert(b.best.contains(b.best[i]));
        let j = choose|j: u32| b.seen.contains(j) && b.best[i] == #[trigger] q.candidate(j);
        candidate_is_exact(q, j);
        assert(good(j));
        assert(ids[i] == j);
        assert(pass(j as int));
    }
    assert(ids.no_duplicates()) by {
        assert forall|i: int, j: int| 0 <= i < ids.len() && 0 <= j < ids.len() && i != j implies ids[i]
            != ids[j] by {
            assert(b.best[i] == q.candidate(ids[i] as u32));
            assert(b.best[j] == q.candidate(ids[j] as u32));
            assert(b.best[i] != b.best[j]);
        }
    }
    ids.unique_seq_to_set();
    assert(ids.to_set().subset_of(all)) by {
        assert forall|y: int| ids.to_set().contains(y) implies all.contains(y) by {
            let i = choose|i: int| 0 <= i < ids.len() && ids[i] == y;
            assert(all.contains(ids[i]));
        }
    }
    lemma_len_subset(ids.to_set(), all);
    lemma_subset_equality(ids.to_set(), all);
    assert(good(x as int as u32));
    assert(pass(x as int));
    assert(all.contains(x as int));
    assert(ids.to_set().contains(x as int));
    let i = choose|i: int| 0 <= i < ids.len() && ids[i] == x;
    assert(b.best[i] == q.candidate(ids[i] as u32));
    assert(b.best.contains(b.best[i]));
}

/// A way through the lowest layer leads from one node to another.
pub open spec fn leads_to(v: HnswView, from: u32, to: u32) -> bool {
    exists|path: Seq<u32>| #[trigger]
        is_path(adjacency(v.links, 0), None, path) && path[0] == from && path.last() == to
}

/// A search for a query can reach a node.
pub open spec fn can_reach(v: HnswView, query: Seq<u32>) -> spec_fn(u32) -> bool {
    |id: u32| leads_to(v, v.start(query), id)
}

/// The vectors that pass and can be reached.
pub open spec fn within_reach(v: HnswView, query: Seq<u32>, filter: Option<Seq<bool>>) -> spec_fn(
    int,
) -> bool {
    |i: int| can_reach(v, query)(i as u32) && passes(filter)(i)
}

/// What a search can reach are nodes, and neighbors of what it can reach.
proof fn reach_is_closed(v: HnswView, query: Seq<u32>)
    requires
        v.fits(),
        v.entry is Some,
    ensures
        is_closed(adjacency(v.links, 0), can_reach(v, query), v.len()),
        can_reach(v, query)(v.start(query)),
{
    let graph = adjacency(v.links, 0);
    let good = can_reach(v, query);
    let from = v.start(query);
    start_is_a_node(v, query);
    layers_are_closed(v.levels, v.params.m as int, v.links, 0);
    assert forall|id: u32| #[trigger] good(id) implies id < v.len() by {
        let path = choose|path: Seq<u32>| #[trigger]
            is_path(graph, None, path) && path[0] == from && path.last() == id;
        path_stays(graph, nodes(v), v.len(), path, path.len() - 1);
    }
    assert forall|id: u32, i: int| good(id) && 0 <= i < graph(id).len() implies good(
        #[trigger] graph(id)[i],
    ) by {
        let path = choose|path: Seq<u32>| #[trigger]
            is_path(graph, None, path) && path[0] == from && path.last() == id;
        let next = graph(id)[i];
        let longer = path.push(next);
        assert(graph(id).contains(next));
        assert forall|j: int| #![trigger longer[j]] 0 < j < longer.len() implies graph(
            longer[j - 1],
        ).contains(longer[j]) by {
            if j < path.len() {
                assert(graph(path[j - 1]).contains(path[j]));
            }
        }
        assert(is_path(graph, None, longer));
    }
    assert(is_path(graph, None, seq![from]));
    assert(seq![from].last() == from);
}

/// A way from a good node leads to good nodes.
proof fn path_stays(
    graph: spec_fn(u32) -> Seq<u32>,
    good: spec_fn(u32) -> bool,
    n: int,
    path: Seq<u32>,
    i: int,
)
    requires
        is_closed(graph, good, n),
        is_path(graph, None, path),
        good(path[0]),
        0 <= i < path.len(),
    ensures
        good(path[i]),
    decreases i,
{
    if i > 0 {
        path_stays(graph, good, n, path, i - 1);
        let list = graph(path[i - 1]);
        assert(list.contains(path[i]));
        let j = choose|j: int| 0 <= j < list.len() && list[j] == path[i];
        assert(good(graph(path[i - 1])[j]));
    }
}

/// A search that keeps as many results as there are vectors that pass and that it can reach
/// keeps all of these.
proof fn all_within_reach_are_kept(
    v: HnswView,
    query: Seq<u32>,
    k: int,
    ef: int,
    filter: Option<Seq<bool>>,
    id: u32,
)
    requires
        v.fits(),
        v.entry is Some,
        k >= 1,
        k >= passing(within_reach(v, query, filter), v.len()) || ef >= passing(
            within_reach(v, query, filter),
            v.len(),
        ),
        within_reach(v, query, filter)(id as int),
    ensures
        v.explored(query, k, ef, filter).best.contains(
            v.quest(query, k, ef, filter).candidate(id),
        ),
{
    let q = v.quest(query, k, ef, filter);
    let graph = adjacency(v.links, 0);
    let entry = seq![v.start(query)];
    let good = can_reach(v, query);
    let n = v.len();
    reach_is_closed(v, query);
    assert(all_good(entry, good));
    search_ends(q, graph, entry, good, n);
    let b = v.explored(query, k, ef, filter);
    if b.best.len() >= q.ef {
        assert(within_reach(v, query, filter) =~= (|i: int| good(i as u32) && (q.passes)(i)));
        enough_are_all(q, b, good, n, id);
    } else {
        let wide = Quest {
            ef: if q.ef >= n {
                q.ef
            } else {
                n
            },
            ..q
        };
        searches_agree(q, wide, graph, entry, good, n);
        let path = choose|path: Seq<u32>| #[trigger]
            is_path(graph, None, path) && path[0] == v.start(query) && path.last() == id;
        assert(entry[0] == path[0]);
        wide_search_finds_what_can_be_reached(wide, graph, entry, good, n, path);
        assert(wide.candidate(id) == q.candidate(id));
    }
}

/// A search that keeps as many results as there are vectors that pass and that it can reach is
/// exact on these: what it returns are the nearest `k` of them, as a scan of all vectors would
/// return them.
pub proof fn search_is_exact_within_reach(
    v: HnswView,
    query: Seq<u32>,
    k: int,
    ef: int,
    filter: Option<Seq<bool>>,
)
    requires
        v.fits(),
        v.entry is Some,
        k >= 1,
        k >= passing(within_reach(v, query, filter), v.len()) || ef >= passing(
            within_reach(v, query, filter),
            v.len(),
        ),
    ensures
        v.nearest(query, k, ef, filter) == best_of(
            v.store.keys(query),
            within_reach(v, query, filter),
            v.len(),
            k,
        ),
{
    let q = v.quest(query, k, ef, filter);
    let graph = adjacency(v.links, 0);
    let entry = seq![v.start(query)];
    let good = can_reach(v, query);
    let n = v.len();
    let keys = v.store.keys(query);
    let pass = within_reach(v, query, filter);
    let room = if k > n {
        k
    } else {
        n + 1
    };
    reach_is_closed(v, query);
    search_ends(q, graph, entry, good, n);
    let b = v.explored(query, k, ef, filter);
    let all = best_of(keys, pass, n, room);
    best_are_candidates(keys, pass, n, room);
    best_are_the_first(keys, pass, n, k, room);
    assert forall|c: u128| #[trigger] b.best.contains(c) <==> all.contains(c) by {
        if b.best.contains(c) {
            let j = choose|j: u32| b.seen.contains(j) && c == #[trigger] q.candidate(j);
            candidate_is_exact(q, j);
            assert(good(j));
            assert(j as int as u32 == j);
            assert(pass(j as int));
            all_are_taken(keys, pass, n, room, j as int);
        }
        if all.contains(c) {
            assert(is_candidate(keys, pass, n, c));
            let i = choose|i: int| 0 <= i < n && pass(i) && c == #[trigger] rank(keys(i), i as u64);
            let id = i as u32;
            assert(id as int == i);
            all_within_reach_are_kept(v, query, k, ef, filter, id);
            assert(q.candidate(id) == c);
        }
    }
    ascending_of_same(b.best, all);
}

/// Every node leads to every other.
pub open spec fn is_connected(v: HnswView) -> bool {
    forall|a: u32, b: u32| a < v.len() && b < v.len() ==> #[trigger] leads_to(v, a, b)
}

/// A search of a connected graph that keeps as many results as there are vectors is exact: it
/// finds what a search of an exact index with the same vectors finds, and so reports the same
/// in every place.
pub proof fn wide_search_is_exact(
    v: HnswView,
    query: Seq<u32>,
    k: int,
    ef: int,
    filter: Option<Seq<bool>>,
)
    requires
        v.fits(),
        is_connected(v),
        k >= 1,
        k >= v.len() || ef >= v.len(),
    ensures
        v.nearest(query, k, ef, filter) == v.store.nearest(query, k, filter),
{
    if v.entry is Some {
        let pass = within_reach(v, query, filter);
        start_is_a_node(v, query);
        passing_counts(pass, v.len());
        lemma_int_range(0, v.len());
        lemma_len_subset(those_passing(pass, v.len()), set_int_range(0, v.len()));
        search_is_exact_within_reach(v, query, k, ef, filter);
        assert forall|i: int| 0 <= i < v.len() implies #[trigger] pass(i) == passes(filter)(i) by {
            assert(leads_to(v, v.start(query), i as u32));
        }
        scan_depends_on_who_passes(v.store.keys(query), pass, passes(filter), v.len(), k);
    }
}

} // verus!
