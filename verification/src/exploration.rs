//! What a best-first search is worth.

use vstd::prelude::*;
use crate::beam::{
    candidate_is_exact, expanded_is_sound, offered_all_is_sound, offered_is_sound,
    popped_is_sound, search_ends_once, seeded_with_is_sound, seen_is_bounded, start_is_sound,
    Beam, Quest,
};
use crate::binary32::{lt, nan, total_place_respects_lt};
use crate::graph::{is_legal, is_outcome};
use crate::ranked::{
    ascending, first, id_in, inserted, inserted_contains, inserted_is_ascending,
    inserted_is_below, key_in, rank_order,
};

verus! {

/// Neighbors of good nodes are good, and good nodes are below `n`.
pub open spec fn is_closed(
    graph: spec_fn(u32) -> Seq<u32>,
    good: spec_fn(u32) -> bool,
    n: int,
) -> bool {
    &&& forall|id: u32| #[trigger] good(id) ==> id < n
    &&& forall|id: u32, i: int|
        good(id) && 0 <= i < graph(id).len() ==> good(#[trigger] graph(id)[i])
}

/// The nodes that a search starts from are good.
pub open spec fn all_good(entry: Seq<u32>, good: spec_fn(u32) -> bool) -> bool {
    forall|i: int| 0 <= i < entry.len() ==> good(#[trigger] entry[i])
}

/// A search that is sound stays so.
pub proof fn run_is_sound(
    q: Quest,
    graph: spec_fn(u32) -> Seq<u32>,
    entry: Seq<u32>,
    good: spec_fn(u32) -> bool,
    n: int,
    steps: nat,
)
    requires
        q.ef >= 0,
        is_closed(graph, good, n),
        all_good(entry, good),
    ensures
        q.is_sound(q.run(graph, q.start(entry), steps), good),
        q.run(graph, q.start(entry), steps).best.len() <= q.ef,
    decreases steps,
{
    if steps == 0 {
        start_is_sound(q, entry, good);
    } else {
        run_is_sound(q, graph, entry, good, n, (steps - 1) as nat);
        let p = q.run(graph, q.start(entry), (steps - 1) as nat);
        if !q.is_done(p) {
            popped_is_sound(q, p, good);
            let x = q.next(p);
            assert forall|i: int| 0 <= i < graph(x).len() implies good(#[trigger] graph(x)[i]) by {}
            expanded_is_sound(q, p, graph(x), good);
        }
    }
}

/// A search ends, whatever the graph.
pub proof fn search_ends(
    q: Quest,
    graph: spec_fn(u32) -> Seq<u32>,
    entry: Seq<u32>,
    good: spec_fn(u32) -> bool,
    n: int,
)
    requires
        q.ef >= 0,
        n >= 0,
        is_closed(graph, good, n),
        all_good(entry, good),
    ensures
        q.ends(graph, entry, q.outcome(graph, entry)),
        q.is_sound(q.outcome(graph, entry), good),
        q.outcome(graph, entry).best.len() <= q.ef,
        exists|steps: nat| q.outcome(graph, entry) == #[trigger] q.run(graph, q.start(entry), steps),
{
    search_ends_after(q, graph, entry, good, n, 0);
    let steps = choose|steps: nat| q.is_done(#[trigger] q.run(graph, q.start(entry), steps));
    let r = q.run(graph, q.start(entry), steps);
    assert(q.ends(graph, entry, r));
    search_ends_once(q, graph, entry, r);
    run_is_sound(q, graph, entry, good, n, steps);
}

proof fn search_ends_after(
    q: Quest,
    graph: spec_fn(u32) -> Seq<u32>,
    entry: Seq<u32>,
    good: spec_fn(u32) -> bool,
    n: int,
    steps: nat,
)
    requires
        q.ef >= 0,
        n >= 0,
        is_closed(graph, good, n),
        all_good(entry, good),
    ensures
        exists|more: nat| q.is_done(#[trigger] q.run(graph, q.start(entry), more)),
    decreases
            n - q.run(graph, q.start(entry), steps).seen.len() + q.run(
                graph,
                q.start(entry),
                steps,
            ).open.len(),
{
    let b = q.run(graph, q.start(entry), steps);
    run_is_sound(q, graph, entry, good, n, steps);
    seen_is_below(q, b, good, n);
    if !q.is_done(b) {
        popped_is_sound(q, b, good);
        let x = q.next(b);
        assert forall|i: int| 0 <= i < graph(x).len() implies good(#[trigger] graph(x)[i]) by {}
        expanded_is_sound(q, b, graph(x), good);
        run_is_sound(q, graph, entry, good, n, steps + 1);
        assert(q.run(graph, q.start(entry), steps + 1) == q.expanded(b, graph(x)));
        seen_is_below(q, q.expanded(b, graph(x)), good, n);
        search_ends_after(q, graph, entry, good, n, steps + 1);
    }
}

proof fn seen_is_below(q: Quest, b: Beam, good: spec_fn(u32) -> bool, n: int)
    requires
        q.is_sound(b, good),
        n >= 0,
        forall|id: u32| #[trigger] good(id) ==> id < n,
    ensures
        b.seen.len() <= n,
{
    assert forall|id: u32| #[trigger] b.seen.contains(id) implies id < n by {
        assert(good(id));
    }
    seen_is_bounded(b.seen, n);
}

/// No key of a good node is a NaN.
pub open spec fn has_numbers(q: Quest, good: spec_fn(u32) -> bool) -> bool {
    forall|id: u32| good(id) ==> !nan(#[trigger] (q.key)(id))
}

/// A node that was seen and passes is a result, or the results are full and it is no nearer
/// than the worst of them.
pub open spec fn is_result_or_worse(q: Quest, b: Beam, id: u32) -> bool {
    b.best.contains(q.candidate(id)) || (b.best.len() >= q.ef && !lt((q.key)(id), q.worst(b)))
}

/// The results are the best of what was seen.
pub open spec fn keeps_best(q: Quest, b: Beam) -> bool {
    forall|id: u32| #[trigger]
        b.seen.contains(id) && (q.passes)(id as int) ==> is_result_or_worse(q, b, id)
}

/// Of two candidates in order, the later is not nearer, and what is nearer than the earlier is
/// nearer than the later.
pub proof fn order_of_keys(q: Quest, x: u32, y: u32, k: u32)
    requires
        !nan((q.key)(x)),
        !nan((q.key)(y)),
        q.candidate(x) <= q.candidate(y),
    ensures
        !lt((q.key)(y), (q.key)(x)),
        lt(k, (q.key)(x)) ==> lt(k, (q.key)(y)),
{
    let (a, b) = ((q.key)(x), (q.key)(y));
    rank_order(a, x as u64, b, y as u64);
    rank_order(b, y as u64, a, x as u64);
    total_place_respects_lt(b, a);
}

/// Of candidates in order, one is among the first `ef`, or no nearer than the last of these.
proof fn kept_or_worse(q: Quest, b: Beam, t: Seq<u128>, x: u32, good: spec_fn(u32) -> bool)
    requires
        has_numbers(q, good),
        good(x),
        forall|id: u32| #[trigger] b.seen.contains(id) ==> good(id),
        q.ef >= 1,
        ascending(t),
        forall|c: u128| #[trigger] t.contains(c) ==> q.is_of(b, c),
        t.contains(q.candidate(x)),
    ensures
        first(t, q.ef).contains(q.candidate(x)) || (first(t, q.ef).len() >= q.ef && !lt(
            (q.key)(x),
            key_in(first(t, q.ef).last()),
        )),
{
    let c = q.candidate(x);
    let i = choose|i: int| 0 <= i < t.len() && t[i] == c;
    if t.len() > q.ef {
        if i < q.ef {
            assert(t.take(q.ef)[i] == c);
        } else {
            let w = t[q.ef - 1];
            assert(t.contains(w));
            let y = choose|y: u32| b.seen.contains(y) && w == #[trigger] q.candidate(y);
            candidate_is_exact(q, y);
            assert(good(y));
            order_of_keys(q, y, x, 0);
        }
    }
}

/// Before any is dropped, every node that passes is a result.
pub proof fn seeded_keeps_all(q: Quest, entry: Seq<u32>, n: int, good: spec_fn(u32) -> bool)
    requires
        0 <= n <= entry.len(),
        all_good(entry, good),
    ensures
        forall|id: u32| #[trigger]
            q.seeded_with(entry, n).seen.contains(id) && (q.passes)(id as int)
                ==> q.seeded_with(entry, n).best.contains(q.candidate(id)),
        forall|i: int|
            0 <= i < n && q.exclude != Some(#[trigger] entry[i]) ==> q.seeded_with(
                entry,
                n,
            ).seen.contains(entry[i]),
    decreases n,
{
    if n > 0 {
        seeded_keeps_all(q, entry, n - 1, good);
        let b = q.seeded_with(entry, n - 1);
        let e = entry[n - 1];
        let r = q.seeded_with(entry, n);
        assert forall|i: int| 0 <= i < n && q.exclude != Some(#[trigger] entry[i]) implies r.seen.contains(
            entry[i],
        ) by {
            if q.is_new(b, e) {
                push_contains(b.seen, e, entry[i]);
            }
        }
        assert forall|id: u32| #[trigger] r.seen.contains(id) && (q.passes)(
            id as int,
        ) implies r.best.contains(q.candidate(id)) by {
            if q.is_new(b, e) {
                push_contains(b.seen, e, id);
                if (q.passes)(e as int) {
                    inserted_contains(b.best, q.candidate(e), q.candidate(id));
                }
            }
        }
    }
}

/// What is in a sequence with one more element.
pub proof fn push_contains(s: Seq<u32>, x: u32, y: u32)
    ensures
        s.push(x).contains(y) <==> s.contains(y) || x == y,
{
    if s.contains(y) {
        let i = choose|i: int| 0 <= i < s.len() && s[i] == y;
        assert(s.push(x)[i] == y);
    }
    assert(s.push(x)[s.len() as int] == x);
    if s.push(x).contains(y) {
        let i = choose|i: int| 0 <= i < s.push(x).len() && s.push(x)[i] == y;
        if i < s.len() {
            assert(s[i] == y);
        }
    }
}

/// The results at the start are the best of what was seen.
pub proof fn start_keeps_best(q: Quest, entry: Seq<u32>, good: spec_fn(u32) -> bool)
    requires
        has_numbers(q, good),
        q.ef >= 1,
        all_good(entry, good),
    ensures
        keeps_best(q, q.start(entry)),
{
    let n = entry.len() as int;
    let b = q.seeded_with(entry, n);
    let r = q.start(entry);
    seeded_with_is_sound(q, entry, n, good);
    seeded_keeps_all(q, entry, n, good);
    assert forall|id: u32| #[trigger] r.seen.contains(id) && (q.passes)(
        id as int,
    ) implies is_result_or_worse(q, r, id) by {
        assert(b.seen.contains(id));
        kept_or_worse(q, b, b.best, id, good);
    }
}

proof fn offered_keeps_best(q: Quest, b: Beam, id: u32, good: spec_fn(u32) -> bool)
    requires
        has_numbers(q, good),
        q.ef >= 1,
        q.is_sound(b, good),
        b.best.len() <= q.ef,
        keeps_best(q, b),
        good(id),
    ensures
        keeps_best(q, q.offered(b, id)),
{
    let r = q.offered(b, id);
    let c = q.candidate(id);
    let t = inserted(b.best, c);
    if q.is_new(b, id) {
        offered_is_sound(q, b, id, good);
        inserted_is_ascending(b.best, c);
        inserted_is_below(b.best, c);
        assert forall|x: u32| #[trigger] r.seen.contains(x) && (q.passes)(
            x as int,
        ) implies is_result_or_worse(q, r, x) by {
            push_contains(b.seen, id, x);
            inserted_contains(b.best, c, q.candidate(x));
            if q.is_wanted(b, (q.key)(id)) && (q.passes)(id as int) {
                let all = Beam { seen: b.seen.push(id), open: b.open, best: t };
                assert forall|d: u128| #[trigger] t.contains(d) implies q.is_of(all, d) by {
                    inserted_contains(b.best, c, d);
                    if d == c {
                        push_contains(b.seen, id, id);
                        assert(all.seen.contains(id) && d == q.candidate(id));
                    } else {
                        let y = choose|y: u32| b.seen.contains(y) && d == #[trigger] q.candidate(y);
                        push_contains(b.seen, id, y);
                        assert(all.seen.contains(y) && d == q.candidate(y));
                    }
                }
                if t.contains(q.candidate(x)) {
                    assert forall|y: u32| #[trigger] all.seen.contains(y) implies good(y) by {
                        push_contains(b.seen, id, y);
                    }
                    kept_or_worse(q, all, t, x, good);
                } else {
                    // it was left out before, and the worst result has not got worse
                    assert(b.seen.contains(x));
                    assert(is_result_or_worse(q, b, x));
                    let e = q.ef - 1;
                    assert(b.best.len() == q.ef);
                    assert(t[e] <= b.best[e]);
                    assert(t.contains(t[e]));
                    assert(b.best.contains(b.best[e]));
                    let y = choose|y: u32| all.seen.contains(y) && t[e] == #[trigger] q.candidate(y);
                    let z = choose|z: u32|
                        b.seen.contains(z) && b.best[e] == #[trigger] q.candidate(z);
                    candidate_is_exact(q, y);
                    candidate_is_exact(q, z);
                    push_contains(b.seen, id, y);
                    assert(good(y) && good(z));
                    order_of_keys(q, y, z, (q.key)(x));
                }
            } else {
                assert(r.best == b.best);
                if x != id {
                    assert(b.seen.contains(x));
                    assert(is_result_or_worse(q, b, x));
                }
            }
        }
    }
}

/// They stay so.
pub proof fn offered_all_keeps_best(
    q: Quest,
    b: Beam,
    list: Seq<u32>,
    n: int,
    good: spec_fn(u32) -> bool,
)
    requires
        has_numbers(q, good),
        q.ef >= 1,
        q.is_sound(b, good),
        b.best.len() <= q.ef,
        keeps_best(q, b),
        0 <= n <= list.len(),
        all_good(list, good),
    ensures
        keeps_best(q, q.offered_all(b, list, n)),
    decreases n,
{
    if n > 0 {
        offered_all_keeps_best(q, b, list, n - 1, good);
        offered_all_is_sound(q, b, list, n - 1, good);
        offered_keeps_best(q, q.offered_all(b, list, n - 1), list[n - 1], good);
    }
}

proof fn run_keeps_best(
    q: Quest,
    graph: spec_fn(u32) -> Seq<u32>,
    entry: Seq<u32>,
    good: spec_fn(u32) -> bool,
    n: int,
    steps: nat,
)
    requires
        has_numbers(q, good),
        q.ef >= 1,
        is_closed(graph, good, n),
        all_good(entry, good),
    ensures
        keeps_best(q, q.run(graph, q.start(entry), steps)),
    decreases steps,
{
    if steps == 0 {
        start_keeps_best(q, entry, good);
    } else {
        let m = (steps - 1) as nat;
        run_keeps_best(q, graph, entry, good, n, m);
        run_is_sound(q, graph, entry, good, n, m);
        let p = q.run(graph, q.start(entry), m);
        if !q.is_done(p) {
            popped_is_sound(q, p, good);
            let x = q.next(p);
            let list = graph(x);
            assert forall|i: int| 0 <= i < list.len() implies good(#[trigger] list[i]) by {
                assert(good(graph(x)[i]));
            }
            let b = Beam { open: p.open.drop_first(), ..p };
            assert forall|id: u32| #[trigger] b.seen.contains(id) && (q.passes)(
                id as int,
            ) implies is_result_or_worse(q, b, id) by {
                assert(p.seen.contains(id));
                assert(is_result_or_worse(q, p, id));
            }
            offered_all_keeps_best(q, b, list, list.len() as int, good);
        }
    }
}

/// The results of a search are the best of all nodes that it saw and that pass: any other of
/// these is no nearer than the worst result, and there is another only if the results are
/// full.
pub proof fn results_are_the_best_seen(
    q: Quest,
    graph: spec_fn(u32) -> Seq<u32>,
    entry: Seq<u32>,
    good: spec_fn(u32) -> bool,
    n: int,
)
    requires
        has_numbers(q, good),
        q.ef >= 1,
        n >= 0,
        is_closed(graph, good, n),
        all_good(entry, good),
    ensures
        keeps_best(q, q.outcome(graph, entry)),
{
    search_ends(q, graph, entry, good, n);
    let steps = choose|steps: nat|
        q.outcome(graph, entry) == #[trigger] q.run(graph, q.start(entry), steps);
    run_keeps_best(q, graph, entry, good, n, steps);
}

/// There is a result as soon as a node that passes is among those that the search starts
/// from.
pub proof fn some_result_is_found(
    q: Quest,
    graph: spec_fn(u32) -> Seq<u32>,
    entry: Seq<u32>,
    good: spec_fn(u32) -> bool,
    n: int,
    i: int,
)
    requires
        q.ef >= 1,
        n >= 0,
        is_closed(graph, good, n),
        all_good(entry, good),
        0 <= i < entry.len(),
        q.exclude != Some(entry[i]),
        (q.passes)(entry[i] as int),
    ensures
        q.outcome(graph, entry).best.len() > 0,
{
    seeded_keeps_all(q, entry, entry.len() as int, good);
    let b = q.seeded_with(entry, entry.len() as int);
    assert(b.seen.contains(entry[i]));
    assert(b.best.contains(q.candidate(entry[i])));
    assert(q.start(entry).best.len() > 0);
    search_ends(q, graph, entry, good, n);
    let steps = choose|steps: nat|
        q.outcome(graph, entry) == #[trigger] q.run(graph, q.start(entry), steps);
    run_keeps_a_result(q, graph, q.start(entry), steps);
}

/// The same of a search whose lists may be changing.
pub proof fn outcome_has_a_result(
    q: Quest,
    reads: spec_fn(u32, Seq<u32>) -> bool,
    entry: Seq<u32>,
    good: spec_fn(u32) -> bool,
    best: Seq<u128>,
    seen: Seq<u32>,
    i: int,
)
    requires
        q.ef >= 1,
        all_good(entry, good),
        is_outcome(q, reads, entry, best, seen),
        0 <= i < entry.len(),
        q.exclude != Some(entry[i]),
        (q.passes)(entry[i] as int),
    ensures
        best.len() > 0,
{
    seeded_keeps_all(q, entry, entry.len() as int, good);
    let b = q.seeded_with(entry, entry.len() as int);
    assert(b.seen.contains(entry[i]));
    assert(b.best.contains(q.candidate(entry[i])));
    assert(q.start(entry).best.len() > 0);
    let lists = choose|lists: Seq<Seq<u32>>| {
        let r = q.played(q.start(entry), lists);
        &&& #[trigger] is_legal(q, reads, q.start(entry), lists)
        &&& q.is_done(r)
        &&& best == r.best
        &&& seen == r.seen
    };
    play_keeps_a_result(q, q.start(entry), lists);
}

proof fn play_keeps_a_result(q: Quest, b: Beam, lists: Seq<Seq<u32>>)
    requires
        q.ef >= 1,
        b.best.len() > 0,
    ensures
        q.played(b, lists).best.len() > 0,
    decreases lists.len(),
{
    if lists.len() > 0 {
        play_keeps_a_result(q, b, lists.drop_last());
        let p = q.played(b, lists.drop_last());
        offers_keep_a_result(
            q,
            Beam { open: p.open.drop_first(), ..p },
            lists.last(),
            lists.last().len() as int,
        );
    }
}

proof fn run_keeps_a_result(q: Quest, graph: spec_fn(u32) -> Seq<u32>, b: Beam, steps: nat)
    requires
        q.ef >= 1,
        b.best.len() > 0,
    ensures
        q.run(graph, b, steps).best.len() > 0,
    decreases steps,
{
    if steps > 0 {
        run_keeps_a_result(q, graph, b, (steps - 1) as nat);
        let p = q.run(graph, b, (steps - 1) as nat);
        if !q.is_done(p) {
            let list = graph(q.next(p));
            offers_keep_a_result(
                q,
                Beam { open: p.open.drop_first(), ..p },
                list,
                list.len() as int,
            );
        }
    }
}

proof fn offers_keep_a_result(q: Quest, b: Beam, list: Seq<u32>, n: int)
    requires
        q.ef >= 1,
        b.best.len() > 0,
    ensures
        q.offered_all(b, list, n).best.len() > 0,
    decreases n,
{
    if n > 0 {
        offers_keep_a_result(q, b, list, n - 1);
        let p = q.offered_all(b, list, n - 1);
        inserted_contains(p.best, q.candidate(list[n - 1]), 0);
    }
}

/// The neighbors of a node were all seen, but for the one that is left out.
pub open spec fn is_exhausted(q: Quest, graph: spec_fn(u32) -> Seq<u32>, b: Beam, id: u32) -> bool {
    forall|i: int|
        0 <= i < graph(id).len() ==> b.seen.contains(#[trigger] graph(id)[i]) || q.exclude == Some(
            graph(id)[i],
        )
}

/// Every node that was seen is open, or its neighbors were seen too; and if it passes it is a
/// result.
pub open spec fn misses_none(q: Quest, graph: spec_fn(u32) -> Seq<u32>, b: Beam) -> bool {
    &&& forall|id: u32| #[trigger]
        b.seen.contains(id) ==> b.open.contains(q.candidate(id)) || is_exhausted(q, graph, b, id)
    &&& forall|id: u32| #[trigger]
        b.seen.contains(id) && (q.passes)(id as int) ==> b.best.contains(q.candidate(id))
}

/// There are no more results than nodes that were seen.
proof fn results_were_seen(q: Quest, b: Beam, good: spec_fn(u32) -> bool)
    requires
        q.is_sound(b, good),
    ensures
        b.best.len() <= b.seen.len(),
{
    let ids = b.best.map_values(|c: u128| id_in(c) as u32);
    assert forall|i: int| 0 <= i < ids.len() implies b.seen.contains(ids[i]) && b.best[i]
        == q.candidate(#[trigger] ids[i]) by {
        assert(b.best.contains(b.best[i]));
        let j = choose|j: u32| b.seen.contains(j) && b.best[i] == #[trigger] q.candidate(j);
        candidate_is_exact(q, j);
    }
    assert(ids.no_duplicates()) by {
        assert forall|i: int, j: int| 0 <= i < ids.len() && 0 <= j < ids.len() && i != j implies ids[i]
            != ids[j] by {
            assert(b.best[i] == q.candidate(ids[i]));
            assert(b.best[j] == q.candidate(ids[j]));
            assert(b.best[i] != b.best[j]);
        }
    }
    ids.unique_seq_to_set();
    b.seen.unique_seq_to_set();
    assert(ids.to_set().subset_of(b.seen.to_set())) by {
        assert forall|x: u32| ids.to_set().contains(x) implies b.seen.to_set().contains(x) by {
            let i = choose|i: int| 0 <= i < ids.len() && ids[i] == x;
            assert(b.seen.contains(ids[i]));
        }
    }
    vstd::set_lib::lemma_len_subset(ids.to_set(), b.seen.to_set());
}

/// What a wide search gains from one neighbor: it is seen, and if it is new it is open and, if
/// it passes, a result.
pub open spec fn is_gain(q: Quest, b: Beam, r: Beam) -> bool {
    &&& forall|id: u32| #[trigger] b.seen.contains(id) ==> r.seen.contains(id)
    &&& forall|c: u128| #[trigger] b.open.contains(c) ==> r.open.contains(c)
    &&& forall|c: u128| #[trigger] b.best.contains(c) ==> r.best.contains(c)
    &&& forall|id: u32| #[trigger]
        r.seen.contains(id) && !b.seen.contains(id) ==> r.open.contains(q.candidate(id)) && ((
        q.passes)(id as int) ==> r.best.contains(q.candidate(id)))
}

proof fn wide_offer_gains(q: Quest, b: Beam, id: u32, good: spec_fn(u32) -> bool, n: int)
    requires
        q.is_sound(b, good),
        n >= 0,
        q.ef >= n,
        forall|x: u32| #[trigger] good(x) ==> x < n,
        good(id),
    ensures
        is_gain(q, b, q.offered(b, id)),
        q.offered(b, id).seen.contains(id) || q.exclude == Some(id),
{
    let r = q.offered(b, id);
    let c = q.candidate(id);
    if q.is_new(b, id) {
        offered_is_sound(q, b, id, good);
        seen_is_below(q, r, good, n);
        results_were_seen(q, b, good);
        assert(b.best.len() < q.ef);
        inserted_contains(b.best, c, c);
        inserted_contains(b.open, c, c);
        assert forall|x: u32| #[trigger] r.seen.contains(x) <==> b.seen.contains(x) || x == id by {
            push_contains(b.seen, id, x);
        }
        assert forall|d: u128| #[trigger] b.open.contains(d) implies r.open.contains(d) by {
            inserted_contains(b.open, c, d);
        }
        assert forall|d: u128| #[trigger] b.best.contains(d) implies r.best.contains(d) by {
            inserted_contains(b.best, c, d);
        }
        assert(r.seen.contains(id));
    }
}

proof fn wide_offers_gain(
    q: Quest,
    b: Beam,
    list: Seq<u32>,
    k: int,
    good: spec_fn(u32) -> bool,
    n: int,
)
    requires
        q.is_sound(b, good),
        n >= 0,
        q.ef >= n,
        forall|x: u32| #[trigger] good(x) ==> x < n,
        all_good(list, good),
        0 <= k <= list.len(),
    ensures
        is_gain(q, b, q.offered_all(b, list, k)),
        forall|i: int|
            0 <= i < k ==> q.offered_all(b, list, k).seen.contains(#[trigger] list[i]) || q.exclude
                == Some(list[i]),
    decreases k,
{
    if k > 0 {
        wide_offers_gain(q, b, list, k - 1, good, n);
        offered_all_is_sound(q, b, list, k - 1, good);
        let p = q.offered_all(b, list, k - 1);
        wide_offer_gains(q, p, list[k - 1], good, n);
        let r = q.offered(p, list[k - 1]);
        assert forall|i: int| 0 <= i < k implies r.seen.contains(#[trigger] list[i]) || q.exclude
            == Some(list[i]) by {
            if i < k - 1 {
                assert(p.seen.contains(list[i]) || q.exclude == Some(list[i]));
            }
        }
        assert forall|id: u32| #[trigger]
            r.seen.contains(id) && !b.seen.contains(id) implies r.open.contains(q.candidate(id))
            && ((q.passes)(id as int) ==> r.best.contains(q.candidate(id))) by {
            if p.seen.contains(id) {
                assert(p.open.contains(q.candidate(id)));
            }
        }
    }
}

proof fn wide_run_misses_none(
    q: Quest,
    graph: spec_fn(u32) -> Seq<u32>,
    entry: Seq<u32>,
    good: spec_fn(u32) -> bool,
    n: int,
    steps: nat,
)
    requires
        n >= 0,
        q.ef >= n,
        is_closed(graph, good, n),
        all_good(entry, good),
    ensures
        misses_none(q, graph, q.run(graph, q.start(entry), steps)),
        forall|i: int|
            0 <= i < entry.len() && q.exclude != Some(#[trigger] entry[i]) ==> q.run(
                graph,
                q.start(entry),
                steps,
            ).seen.contains(entry[i]),
    decreases steps,
{
    let r = q.run(graph, q.start(entry), steps);
    if steps == 0 {
        let k = entry.len() as int;
        let b = q.seeded_with(entry, k);
        seeded_with_is_sound(q, entry, k, good);
        seeded_keeps_all(q, entry, k, good);
        seeded_opens_all(q, entry, k);
        seen_is_below(q, b, good, n);
        results_were_seen(q, b, good);
        assert(r.best == b.best);
        assert forall|id: u32| #[trigger] r.seen.contains(id) implies r.open.contains(
            q.candidate(id),
        ) by {
            assert(b.seen.contains(id));
        }
        assert forall|id: u32| #[trigger] r.seen.contains(id) && (q.passes)(
            id as int,
        ) implies r.best.contains(q.candidate(id)) by {
            assert(b.seen.contains(id));
        }
    } else {
        let m = (steps - 1) as nat;
        let p = q.run(graph, q.start(entry), m);
        wide_run_misses_none(q, graph, entry, good, n, m);
        run_is_sound(q, graph, entry, good, n, m);
        if !q.is_done(p) {
            popped_is_sound(q, p, good);
            let x = q.next(p);
            let list = graph(x);
            assert forall|i: int| 0 <= i < list.len() implies good(#[trigger] list[i]) by {
                assert(good(graph(x)[i]));
            }
            let b = Beam { open: p.open.drop_first(), ..p };
            wide_offers_gain(q, b, list, list.len() as int, good, n);
            assert forall|id: u32| #[trigger] r.seen.contains(id) implies r.open.contains(
                q.candidate(id),
            ) || is_exhausted(q, graph, r, id) by {
                if id == x {
                    assert forall|i: int| 0 <= i < graph(id).len() implies r.seen.contains(
                        #[trigger] graph(id)[i],
                    ) || q.exclude == Some(graph(id)[i]) by {
                        assert(r.seen.contains(list[i]) || q.exclude == Some(list[i]));
                    }
                } else if p.seen.contains(id) {
                    if p.open.contains(q.candidate(id)) {
                        let j = choose|j: int|
                            0 <= j < p.open.len() && p.open[j] == q.candidate(id);
                        candidate_is_exact(q, id);
                        candidate_is_exact(q, x);
                        assert(j > 0);
                        assert(b.open[j - 1] == q.candidate(id));
                        assert(b.open.contains(q.candidate(id)));
                    } else {
                        assert(is_exhausted(q, graph, p, id));
                        assert forall|i: int| 0 <= i < graph(id).len() implies r.seen.contains(
                            #[trigger] graph(id)[i],
                        ) || q.exclude == Some(graph(id)[i]) by {
                            assert(p.seen.contains(graph(id)[i]) || q.exclude == Some(graph(id)[i]));
                            assert(b.seen.contains(graph(id)[i]) || q.exclude == Some(graph(id)[i]));
                        }
                    }
                } else {
                    assert(!b.seen.contains(id));
                }
            }
            assert forall|id: u32| #[trigger] r.seen.contains(id) && (q.passes)(
                id as int,
            ) implies r.best.contains(q.candidate(id)) by {
                if p.seen.contains(id) {
                    assert(b.best.contains(q.candidate(id)));
                } else {
                    assert(!b.seen.contains(id));
                }
            }
            assert forall|i: int|
                0 <= i < entry.len() && q.exclude != Some(#[trigger] entry[i]) implies r.seen.contains(
                entry[i],
            ) by {
                assert(b.seen.contains(entry[i]));
            }
        }
    }
}

/// Every node that a search starts from is open.
pub proof fn seeded_opens_all(q: Quest, entry: Seq<u32>, n: int)
    requires
        0 <= n <= entry.len(),
    ensures
        forall|id: u32| #[trigger]
            q.seeded_with(entry, n).seen.contains(id) ==> q.seeded_with(entry, n).open.contains(
                q.candidate(id),
            ),
    decreases n,
{
    if n > 0 {
        seeded_opens_all(q, entry, n - 1);
        let b = q.seeded_with(entry, n - 1);
        let e = entry[n - 1];
        let r = q.seeded_with(entry, n);
        assert forall|id: u32| #[trigger] r.seen.contains(id) implies r.open.contains(
            q.candidate(id),
        ) by {
            if q.is_new(b, e) {
                push_contains(b.seen, e, id);
                inserted_contains(b.open, q.candidate(e), q.candidate(id));
            }
        }
    }
}

/// A search that keeps as many results as there are nodes sees all neighbors of what it sees,
/// and returns all of it that passes.
pub proof fn wide_search_misses_none(
    q: Quest,
    graph: spec_fn(u32) -> Seq<u32>,
    entry: Seq<u32>,
    good: spec_fn(u32) -> bool,
    n: int,
)
    requires
        n >= 0,
        q.ef >= n,
        is_closed(graph, good, n),
        all_good(entry, good),
    ensures
        ({
            let r = q.outcome(graph, entry);
            &&& forall|id: u32| #[trigger] r.seen.contains(id) ==> is_exhausted(q, graph, r, id)
            &&& forall|id: u32| #[trigger]
                r.seen.contains(id) && (q.passes)(id as int) ==> r.best.contains(q.candidate(id))
            &&& forall|i: int|
                0 <= i < entry.len() && q.exclude != Some(#[trigger] entry[i]) ==> r.seen.contains(
                    entry[i],
                )
        }),
{
    search_ends(q, graph, entry, good, n);
    let r = q.outcome(graph, entry);
    let steps = choose|steps: nat| r == #[trigger] q.run(graph, q.start(entry), steps);
    wide_run_misses_none(q, graph, entry, good, n, steps);
    results_were_seen(q, r, good);
    seen_is_below(q, r, good, n);
    assert forall|id: u32| #[trigger] r.seen.contains(id) implies is_exhausted(q, graph, r, id) by {
        if r.open.len() > 0 {
            assert(good(id));
            assert forall|i: int| 0 <= i < graph(id).len() implies r.seen.contains(
                #[trigger] graph(id)[i],
            ) by {
                assert(good(graph(id)[i]));
                all_are_seen(r.seen, n, graph(id)[i]);
            }
        } else {
            assert(!r.open.contains(q.candidate(id)));
        }
    }
    assert(q.is_done(r));
}

/// As many different numbers below `n` as there are are all of them.
proof fn all_are_seen(s: Seq<u32>, n: int, x: u32)
    requires
        s.no_duplicates(),
        s.len() >= n,
        forall|id: u32| #[trigger] s.contains(id) ==> id < n,
        x < n,
    ensures
        s.contains(x),
{
    if !s.contains(x) {
        let t = s.push(x);
        assert(t.no_duplicates()) by {
            assert forall|i: int, j: int| 0 <= i < t.len() && 0 <= j < t.len() && i != j implies t[i]
                != t[j] by {
                if i < s.len() {
                    assert(s.contains(s[i]));
                }
                if j < s.len() {
                    assert(s.contains(s[j]));
                }
            }
        }
        assert forall|id: u32| #[trigger] t.contains(id) implies id < n by {
            push_contains(s, x, id);
        }
        seen_is_bounded(t, n);
    }
}

/// A way through a graph: each node is a neighbor of the one before it, and none is the one
/// that is left out.
pub open spec fn is_path(graph: spec_fn(u32) -> Seq<u32>, exclude: Option<u32>, path: Seq<u32>) -> bool {
    &&& path.len() > 0
    &&& forall|i: int| 0 <= i < path.len() ==> exclude != Some(#[trigger] path[i])
    &&& forall|i: int| #![trigger path[i]]
        0 < i < path.len() ==> graph(path[i - 1]).contains(path[i])
}

/// A search that keeps as many results as there are nodes returns every node that passes and
/// that some way from where it starts leads to.
pub proof fn wide_search_finds_what_can_be_reached(
    q: Quest,
    graph: spec_fn(u32) -> Seq<u32>,
    entry: Seq<u32>,
    good: spec_fn(u32) -> bool,
    n: int,
    path: Seq<u32>,
)
    requires
        n >= 0,
        q.ef >= n,
        is_closed(graph, good, n),
        all_good(entry, good),
        is_path(graph, q.exclude, path),
        entry.contains(path[0]),
    ensures
        q.outcome(graph, entry).seen.contains(path.last()),
        (q.passes)(path.last() as int) ==> q.outcome(graph, entry).best.contains(
            q.candidate(path.last()),
        ),
    decreases path.len(),
{
    wide_search_misses_none(q, graph, entry, good, n);
    let r = q.outcome(graph, entry);
    if path.len() == 1 {
        let i = choose|i: int| 0 <= i < entry.len() && entry[i] == path[0];
        assert(q.exclude != Some(entry[i]));
    } else {
        let p = path.drop_last();
        assert forall|i: int| 0 <= i < p.len() implies q.exclude != Some(#[trigger] p[i]) by {
            assert(q.exclude != Some(path[i]));
        }
        assert forall|i: int| #![trigger p[i]] 0 < i < p.len() implies graph(p[i - 1]).contains(
            p[i],
        ) by {
            assert(graph(path[i - 1]).contains(path[i]));
        }
        wide_search_finds_what_can_be_reached(q, graph, entry, good, n, p);
        let x = p.last();
        let y = path.last();
        assert(graph(path[path.len() - 2]).contains(path[path.len() - 1]));
        let list = graph(x);
        let i = choose|i: int| 0 <= i < list.len() && list[i] == y;
        assert(is_exhausted(q, graph, r, x));
        assert(r.seen.contains(graph(x)[i]) || q.exclude == Some(graph(x)[i]));
        assert(q.exclude != Some(path[path.len() - 1]));
    }
}

} // verus!
