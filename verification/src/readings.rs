//! How thorough a search is in a graph that others are changing.

use vstd::prelude::*;
use crate::beam::{
    candidate_is_exact, offered_all_is_sound, popped_is_sound, start_is_sound,
    Beam, Quest,
};
use crate::binary32::{lt, nan};
use crate::coming::{
    come_down, courses_come_down_through_what_was_made, layers_may_read_as, may_read_as,
};
use crate::descent::{is_descent, is_look, is_walk, step, step_is_nearest, walked};
use crate::exploration::{
    all_good, has_numbers, is_result_or_worse, keeps_best, offered_all_keeps_best, order_of_keys,
    push_contains, seeded_keeps_all, seeded_opens_all, start_keeps_best,
};
use crate::flat::FlatView;
use crate::graph::{is_legal, is_legal_step, is_outcome};
use crate::growth::{both, connected_all, lower, Course, Ground};
use crate::hnsw::{added, bare, growing_fits, HnswView};
use crate::pruning::{are_of, is_selection, nearness, selected_is_selection};
use crate::ranked::{ascending, id_in, inserted_contains, rank};
use crate::select::ids;
use crate::thorough::{beyond_stays, has_node, has_or_no_nearer, is_beyond};
use crate::wiring::{layer_nodes, list_fits, share, sits_at};

verus! {

/// The nodes of a list were all seen, but for the one that is left out.
pub open spec fn are_seen(q: Quest, b: Beam, list: Seq<u32>) -> bool {
    forall|i: int|
        0 <= i < list.len() ==> b.seen.contains(#[trigger] list[i]) || q.exclude == Some(list[i])
}

/// What the neighbors of a node may read as was all seen.
pub open spec fn is_read_out(
    q: Quest,
    reads: spec_fn(u32, Seq<u32>) -> bool,
    b: Beam,
    x: u32,
) -> bool {
    exists|list: Seq<u32>| reads(x, list) && #[trigger] are_seen(q, b, list)
}

proof fn offer_reads_on(
    q: Quest,
    reads: spec_fn(u32, Seq<u32>) -> bool,
    b: Beam,
    id: u32,
    good: spec_fn(u32) -> bool,
    x: u32,
)
    requires
        has_numbers(q, good),
        q.ef >= 1,
        q.is_sound(b, good),
        b.best.len() <= q.ef,
        good(id),
        forall|y: u32| #[trigger]
            b.seen.contains(y) && y != x ==> b.open.contains(q.candidate(y)) || is_read_out(
                q,
                reads,
                b,
                y,
            ) || is_beyond(q, b, (q.key)(y)),
    ensures
        forall|y: u32| #[trigger]
            q.offered(b, id).seen.contains(y) && y != x ==> q.offered(b, id).open.contains(
                q.candidate(y),
            ) || is_read_out(q, reads, q.offered(b, id), y) || is_beyond(
                q,
                q.offered(b, id),
                (q.key)(y),
            ),
        forall|y: u32| #[trigger] b.seen.contains(y) ==> q.offered(b, id).seen.contains(y),
        q.offered(b, id).seen.contains(id) || q.exclude == Some(id),
{
    let r = q.offered(b, id);
    let c = q.candidate(id);
    if q.is_new(b, id) {
        assert forall|y: u32| #[trigger] r.seen.contains(y) <==> b.seen.contains(y) || y == id by {
            push_contains(b.seen, id, y);
        }
        assert(r.seen.contains(id));
        assert forall|y: u32| #[trigger] r.seen.contains(y) && y != x implies r.open.contains(
            q.candidate(y),
        ) || is_read_out(q, reads, r, y) || is_beyond(q, r, (q.key)(y)) by {
            if q.is_wanted(b, (q.key)(id)) {
                inserted_contains(b.open, c, q.candidate(y));
            }
            if y == id {
            } else {
                assert(b.seen.contains(y));
                if is_read_out(q, reads, b, y) {
                    let list = choose|list: Seq<u32>|
                        reads(y, list) && #[trigger] are_seen(q, b, list);
                    assert forall|i: int| 0 <= i < list.len() implies r.seen.contains(
                        #[trigger] list[i],
                    ) || q.exclude == Some(list[i]) by {
                        assert(b.seen.contains(list[i]) || q.exclude == Some(list[i]));
                    }
                    assert(reads(y, list) && are_seen(q, r, list));
                }
                if is_beyond(q, b, (q.key)(y)) {
                    beyond_stays(q, b, id, good, (q.key)(y));
                }
            }
        }
    }
}

proof fn offers_read_on(
    q: Quest,
    reads: spec_fn(u32, Seq<u32>) -> bool,
    b: Beam,
    list: Seq<u32>,
    n: int,
    good: spec_fn(u32) -> bool,
    x: u32,
)
    requires
        has_numbers(q, good),
        q.ef >= 1,
        q.is_sound(b, good),
        b.best.len() <= q.ef,
        all_good(list, good),
        0 <= n <= list.len(),
        forall|y: u32| #[trigger]
            b.seen.contains(y) && y != x ==> b.open.contains(q.candidate(y)) || is_read_out(
                q,
                reads,
                b,
                y,
            ) || is_beyond(q, b, (q.key)(y)),
    ensures
        forall|y: u32| #[trigger]
            q.offered_all(b, list, n).seen.contains(y) && y != x ==> q.offered_all(
                b,
                list,
                n,
            ).open.contains(q.candidate(y)) || is_read_out(
                q,
                reads,
                q.offered_all(b, list, n),
                y,
            ) || is_beyond(q, q.offered_all(b, list, n), (q.key)(y)),
        forall|y: u32| #[trigger]
            b.seen.contains(y) ==> q.offered_all(b, list, n).seen.contains(y),
        forall|i: int|
            0 <= i < n ==> q.offered_all(b, list, n).seen.contains(#[trigger] list[i]) || q.exclude
                == Some(list[i]),
    decreases n,
{
    if n > 0 {
        offers_read_on(q, reads, b, list, n - 1, good, x);
        offered_all_is_sound(q, b, list, n - 1, good);
        let p = q.offered_all(b, list, n - 1);
        assert(good(list[n - 1]));
        offer_reads_on(q, reads, p, list[n - 1], good, x);
        let r = q.offered_all(b, list, n);
        assert forall|i: int| 0 <= i < n implies r.seen.contains(#[trigger] list[i]) || q.exclude
            == Some(list[i]) by {
            if i < n - 1 {
                assert(p.seen.contains(list[i]) || q.exclude == Some(list[i]));
            }
        }
    }
}

/// Neighbors of good nodes read as good nodes.
pub open spec fn reads_good(
    reads: spec_fn(u32, Seq<u32>) -> bool,
    good: spec_fn(u32) -> bool,
) -> bool {
    forall|x: u32, list: Seq<u32>| good(x) && #[trigger] reads(x, list) ==> all_good(list, good)
}

/// A search under way is sound, its results are the best of what it saw, and each node that it saw
/// is open, or what its neighbors read as was seen, or it is beyond the worst result.
#[verifier::rlimit(40)]
proof fn play_reads_on(
    q: Quest,
    reads: spec_fn(u32, Seq<u32>) -> bool,
    entry: Seq<u32>,
    good: spec_fn(u32) -> bool,
    lists: Seq<Seq<u32>>,
    n: int,
)
    requires
        has_numbers(q, good),
        q.ef >= 1,
        all_good(entry, good),
        reads_good(reads, good),
        is_legal(q, reads, q.start(entry), lists),
        0 <= n <= lists.len(),
    ensures
        ({
            let r = q.played(q.start(entry), lists.take(n));
            &&& q.is_sound(r, good)
            &&& r.best.len() <= q.ef
            &&& keeps_best(q, r)
            &&& forall|y: u32| #[trigger]
                r.seen.contains(y) ==> r.open.contains(q.candidate(y)) || is_read_out(
                    q,
                    reads,
                    r,
                    y,
                ) || is_beyond(q, r, (q.key)(y))
            &&& forall|i: int|
                0 <= i < entry.len() && q.exclude != Some(#[trigger] entry[i]) ==> r.seen.contains(
                    entry[i],
                )
        }),
    decreases n,
{
    let b0 = q.start(entry);
    let r = q.played(b0, lists.take(n));
    if n == 0 {
        assert(lists.take(0) =~= Seq::empty());
        let k = entry.len() as int;
        let b = q.seeded_with(entry, k);
        start_is_sound(q, entry, good);
        start_keeps_best(q, entry, good);
        seeded_keeps_all(q, entry, k, good);
        seeded_opens_all(q, entry, k);
        assert forall|y: u32| #[trigger] r.seen.contains(y) implies r.open.contains(
            q.candidate(y),
        ) by {
            assert(b.seen.contains(y));
        }
    } else {
        play_reads_on(q, reads, entry, good, lists, n - 1);
        assert(lists.take(n).drop_last() =~= lists.take(n - 1));
        assert(lists.take(n).last() == lists[n - 1]);
        let p = q.played(b0, lists.take(n - 1));
        assert(is_legal_step(q, reads, b0, lists, n - 1));
        let list = lists[n - 1];
        let x = q.next(p);
        popped_is_sound(q, p, good);
        assert(reads(x, list));
        assert(all_good(list, good));
        let b = Beam { open: p.open.drop_first(), ..p };
        assert forall|y: u32| #[trigger] b.seen.contains(y) && y != x implies b.open.contains(
            q.candidate(y),
        ) || is_read_out(q, reads, b, y) || is_beyond(q, b, (q.key)(y)) by {
            assert(p.seen.contains(y));
            if p.open.contains(q.candidate(y)) {
                let j = choose|j: int| 0 <= j < p.open.len() && p.open[j] == q.candidate(y);
                candidate_is_exact(q, y);
                candidate_is_exact(q, x);
                assert(j > 0);
                assert(b.open[j - 1] == q.candidate(y));
            } else if is_read_out(q, reads, p, y) {
                let l = choose|l: Seq<u32>| reads(y, l) && #[trigger] are_seen(q, p, l);
                assert forall|i: int| 0 <= i < l.len() implies b.seen.contains(#[trigger] l[i])
                    || q.exclude == Some(l[i]) by {
                    assert(p.seen.contains(l[i]) || q.exclude == Some(l[i]));
                }
                assert(are_seen(q, b, l));
            }
        }
        assert forall|id: u32| #[trigger] b.seen.contains(id) && (q.passes)(
            id as int,
        ) implies is_result_or_worse(q, b, id) by {
            assert(p.seen.contains(id));
            assert(is_result_or_worse(q, p, id));
        }
        let m = list.len() as int;
        offered_all_is_sound(q, b, list, m, good);
        offered_all_keeps_best(q, b, list, m, good);
        offers_read_on(q, reads, b, list, m, good, x);
        assert(r == q.offered_all(b, list, m));
        assert(are_seen(q, r, list));
        assert(is_read_out(q, reads, r, x));
        assert forall|i: int|
            0 <= i < entry.len() && q.exclude != Some(#[trigger] entry[i]) implies r.seen.contains(
            entry[i],
        ) by {
            assert(p.seen.contains(entry[i]));
            assert(b.seen.contains(entry[i]));
        }
    }
}

/// `best` is what a thorough search of a layer finds for node `id`, with room for `ef`, where the
/// lists of neighbors read as they may: other nodes, nearest first; the nodes that it starts from,
/// and what the neighbors of each that is nearer than the worst read as, or of all if there is room
/// for more, are among them, or there is no room and they are no nearer than the worst.
pub open spec fn is_search_over(
    store: FlatView,
    reads: spec_fn(u32, Seq<u32>) -> bool,
    id: u32,
    ef: int,
    entries: Seq<u32>,
    best: Seq<u128>,
) -> bool {
    let key = nearness(store, id);
    &&& best.len() <= ef
    &&& are_of(key, best)
    &&& ascending(best)
    &&& best.no_duplicates()
    &&& !has_node(best, id)
    &&& forall|e: u32| #[trigger]
        entries.contains(e) && e != id ==> has_or_no_nearer(best, ef, key, e)
    &&& forall|x: u32| #[trigger]
        has_node(best, x) && (best.len() < ef || lt(
            key(x as int),
            key(id_in(best.last()) as int),
        )) ==> exists|list: Seq<u32>| #[trigger]
            reads(x, list) && forall|y: u32| #[trigger]
                list.contains(y) && y != id ==> has_or_no_nearer(best, ef, key, y)
}

/// What a new node may find is what a thorough search finds.
#[verifier::rlimit(40)]
proof fn findings_are_thorough(
    ground: Ground,
    id: u32,
    layer: int,
    entries: Seq<u32>,
    best: Seq<u128>,
)
    requires
        ground.ef >= 1,
        layer >= 0,
        all_good(entries, layer_nodes(ground.levels, layer)),
        ground.may_find(id, layer, entries, best),
        forall|i: int|
            0 <= i < ground.levels.len() ==> !nan(#[trigger] nearness(ground.store, id)(i)),
    ensures
        is_search_over(ground.store, ground.reads(layer), id, ground.ef, entries, best),
        forall|i: int| 0 <= i < best.len() ==> sits_at(ground.levels, #[trigger] ids(best)[i], layer),
{
    let key = nearness(ground.store, id);
    let q = ground.quest(id);
    let ef = ground.ef;
    let reads = ground.reads(layer);
    let good = layer_nodes(ground.levels, layer);
    assert(has_numbers(q, good)) by {
        assert forall|i: u32| good(i) implies !nan(#[trigger] (q.key)(i)) by {
            assert(!nan(key(i as int)));
        }
    }
    assert(reads_good(reads, good)) by {
        assert forall|x: u32, list: Seq<u32>| good(x) && #[trigger] reads(x, list) implies all_good(
            list,
            good,
        ) by {
            assert(list_fits(ground.levels, ground.m, x as int, layer, list));
        }
    }
    let seen = choose|seen: Seq<u32>| #[trigger] is_outcome(q, reads, entries, best, seen);
    let lists = choose|lists: Seq<Seq<u32>>| {
        let r = q.played(q.start(entries), lists);
        &&& #[trigger] is_legal(q, reads, q.start(entries), lists)
        &&& q.is_done(r)
        &&& best == r.best
        &&& seen == r.seen
    };
    let b = q.played(q.start(entries), lists);
    play_reads_on(q, reads, entries, good, lists, lists.len() as int);
    assert(lists.take(lists.len() as int) =~= lists);
    assert forall|i: int| 0 <= i < best.len() implies b.seen.contains(
        #[trigger] ids(best)[i],
    ) && best[i] == q.candidate(ids(best)[i]) && id_in(best[i]) == ids(best)[i] && good(
        ids(best)[i],
    ) by {
        assert(b.best.contains(best[i]));
        let j = choose|j: u32| b.seen.contains(j) && best[i] == #[trigger] q.candidate(j);
        candidate_is_exact(q, j);
        assert(good(j));
    }
    assert forall|i: int| 0 <= i < best.len() implies #[trigger] best[i] == rank(
        key(id_in(best[i]) as int),
        id_in(best[i]),
    ) && id_in(best[i]) <= u32::MAX by {
        assert(best[i] == q.candidate(ids(best)[i]));
    }
    if has_node(best, id) {
        let j = choose|j: int| 0 <= j < best.len() && id_in(#[trigger] best[j]) == id;
        assert(b.seen.contains(ids(best)[j]));
    }
    if best.len() > 0 {
        candidate_is_exact(q, ids(best)[best.len() - 1]);
        assert(best[best.len() - 1] == q.candidate(ids(best)[best.len() - 1]));
        assert(q.worst(b) == key(id_in(best.last()) as int));
    }
    assert forall|y: u32| #[trigger] b.seen.contains(y) implies has_or_no_nearer(
        best,
        ef,
        key,
        y,
    ) by {
        assert(is_result_or_worse(q, b, y));
        if b.best.contains(q.candidate(y)) {
            candidate_is_exact(q, y);
            let p = choose|p: int| 0 <= p < best.len() && best[p] == q.candidate(y);
            assert(id_in(best[p]) == y);
        }
    }
    assert forall|e: u32| #[trigger] entries.contains(e) && e != id implies has_or_no_nearer(
        best,
        ef,
        key,
        e,
    ) by {
        let i = choose|i: int| 0 <= i < entries.len() && entries[i] == e;
        assert(b.seen.contains(entries[i]));
    }
    assert forall|x: u32| #[trigger]
        has_node(best, x) && (best.len() < ef || lt(
            key(x as int),
            key(id_in(best.last()) as int),
        )) implies exists|list: Seq<u32>| #[trigger]
        reads(x, list) && forall|y: u32| #[trigger]
            list.contains(y) && y != id ==> has_or_no_nearer(best, ef, key, y) by {
        let j = choose|j: int| 0 <= j < best.len() && id_in(#[trigger] best[j]) == x;
        assert(b.seen.contains(ids(best)[j]));
        assert(ids(best)[j] == x);
        assert((q.key)(x) == key(x as int));
        if b.open.contains(q.candidate(x)) {
            let p = choose|p: int| 0 <= p < b.open.len() && b.open[p] == q.candidate(x);
            let o = b.open[0];
            assert(b.open.contains(o));
            let y = choose|y: u32| b.seen.contains(y) && o == #[trigger] q.candidate(y);
            candidate_is_exact(q, y);
            candidate_is_exact(q, x);
            assert(good(x) && good(y));
            assert(b.open[0] <= b.open[p]);
            order_of_keys(q, y, x, q.worst(b));
            assert(q.is_done(b));
        }
        assert(is_read_out(q, reads, b, x));
        let list = choose|list: Seq<u32>| reads(x, list) && #[trigger] are_seen(q, b, list);
        assert forall|y: u32| #[trigger] list.contains(y) && y != id implies has_or_no_nearer(
            best,
            ef,
            key,
            y,
        ) by {
            let i = choose|i: int| 0 <= i < list.len() && list[i] == y;
            assert(b.seen.contains(list[i]));
        }
        assert(reads(x, list));
    }
}

/// A descent through what may be read stays in its layer.
proof fn walk_stays(
    reads: spec_fn(u32, Seq<u32>) -> bool,
    key: spec_fn(u32) -> u32,
    exclude: Option<u32>,
    from: u32,
    lists: Seq<Seq<u32>>,
    good: spec_fn(u32) -> bool,
    n: int,
)
    requires
        is_walk(reads, key, exclude, from, lists),
        reads_good(reads, good),
        good(from),
        0 <= n <= lists.len(),
    ensures
        good(walked(key, exclude, from, lists.take(n))),
    decreases n,
{
    if n == 0 {
        assert(lists.take(0) =~= Seq::empty());
    } else {
        walk_stays(reads, key, exclude, from, lists, good, n - 1);
        let p = walked(key, exclude, from, lists.take(n - 1));
        assert(is_look(reads, key, exclude, from, lists, n - 1));
        let list = lists[n - 1];
        assert(all_good(list, good));
        assert(lists.take(n).drop_last() =~= lists.take(n - 1));
        assert(lists.take(n).last() == list);
        step_is_nearest(key, exclude, list, list.len() as int, p);
        let r = step(key, exclude, list, p);
        if r != p {
            let i = choose|i: int| 0 <= i < list.len() && list[i] == r;
            assert(good(list[i]));
        }
    }
}

proof fn landing_is_a_node(ground: Ground, id: u32, from: u32, top: int, bottom: int, to: u32)
    requires
        bottom >= 0,
        sits_at(ground.levels, from, top),
        ground.may_land(id, from, top, bottom, to),
    ensures
        sits_at(
            ground.levels,
            to,
            if top >= bottom {
                bottom
            } else {
                top
            },
        ),
    decreases top - bottom + 1,
{
    if top >= bottom {
        let reads = ground.reads(bottom);
        let key = ground.key(id);
        let at = choose|at: u32|
            ground.may_land(id, from, top, bottom + 1, at) && #[trigger] is_descent(
                reads,
                key,
                Some(id),
                at,
                to,
            );
        landing_is_a_node(ground, id, from, top, bottom + 1, at);
        let good = layer_nodes(ground.levels, bottom);
        assert(reads_good(reads, good)) by {
            assert forall|x: u32, list: Seq<u32>| good(x) && #[trigger] reads(
                x,
                list,
            ) implies all_good(list, good) by {
                assert(list_fits(ground.levels, ground.m, x as int, bottom, list));
            }
        }
        let lists = choose|lists: Seq<Seq<u32>>| #[trigger]
            is_walk(reads, key, Some(id), at, lists) && to == walked(key, Some(id), at, lists);
        assert(good(at));
        walk_stays(reads, key, Some(id), at, lists, good, lists.len() as int);
        assert(lists.take(lists.len() as int) =~= lists);
        assert(good(to));
    }
}

/// The nodes that search `d` of some starts from: where the descent ended, or what the search
/// before found.
pub open spec fn begun_from(best: Seq<Seq<u128>>, cur: u32, d: int) -> Seq<u32> {
    if d <= 0 || best[d - 1].len() == 0 {
        seq![cur]
    } else {
        ids(best[d - 1])
    }
}

proof fn course_is_thorough(ground: Ground, id: u32, c: Course, n: int)
    requires
        ground.is_course(id, c),
        ground.ef >= 1,
        id < ground.levels.len(),
        0 <= n <= c.found.len(),
        forall|i: int|
            0 <= i < ground.levels.len() ==> !nan(#[trigger] nearness(ground.store, id)(i)),
    ensures
        forall|d: int|
            0 <= d < n ==> is_search_over(
                ground.store,
                ground.reads(ground.layer(id, c, d)),
                id,
                ground.ef,
                begun_from(c.found, c.cur, d),
                #[trigger] c.found[d],
            ),
        forall|d: int, i: int|
            0 <= d < n && 0 <= i < c.found[d].len() ==> sits_at(
                ground.levels,
                #[trigger] ids(c.found[d])[i],
                ground.layer(id, c, d),
            ),
        sits_at(ground.levels, c.cur, ground.top(id, c.entry)),
    decreases n,
{
    let top = ground.top(id, c.entry);
    landing_is_a_node(
        ground,
        id,
        c.entry,
        ground.levels[c.entry as int] as int,
        ground.levels[id as int] + 1,
        c.cur,
    );
    if n > 0 {
        course_is_thorough(ground, id, c, n - 1);
        let d = n - 1;
        let l = ground.layer(id, c, d);
        let entries = c.entries(d);
        assert(entries =~= begun_from(c.found, c.cur, d));
        assert(all_good(entries, layer_nodes(ground.levels, l))) by {
            assert forall|i: int| 0 <= i < entries.len() implies layer_nodes(ground.levels, l)(
                #[trigger] entries[i],
            ) by {
                if d > 0 && c.found[d - 1].len() > 0 {
                    assert(sits_at(ground.levels, ids(c.found[d - 1])[i], l + 1));
                }
            }
        }
        assert(ground.may_find(id, l, entries, c.found[d]));
        findings_are_thorough(ground, id, l, entries, c.found[d]);
    }
}

/// Adding vectors at once. Each new node comes down to some node and searches, from there on and
/// thoroughly, each layer that it reaches and that was there before, in lists as they may read; it
/// selects from what it found; and it is connected with all that it selected, both ways. There is
/// one history of connections for all nodes, and each list is what these made of the list before.
#[verifier::rlimit(40)]
pub proof fn adding_joins_all<L: Fn(u64, u64) -> u16>(
    o: HnswView,
    vectors: Seq<u32>,
    level_of: L,
    f: HnswView,
) -> (history: Seq<Seq<Seq<u32>>>)
    requires
        o.fits(),
        added(o, vectors, level_of, f),
        vectors.len() as int / o.store.dim > 0,
    ensures
        history.len() == f.links.len(),
        forall|i: int, l: int|
            #![trigger f.links[i][l]]
            0 <= i < f.links.len() && 0 <= l < f.links[i].len() ==> f.links[i][l] == connected_all(
                f.store,
                i as u32,
                if i < o.links.len() {
                    o.links[i][l]
                } else {
                    Seq::empty()
                },
                history[i][l],
                allowance(o.params.m as int, l),
            ),
        forall|id: u32|
            o.levels.len() <= id < f.levels.len() && 0 < id ==> #[trigger] joined_by(
                o,
                f,
                history,
                id,
            ),
{
    let new = f.levels.skip(o.len());
    let g = o.grown(vectors, new);
    let ground = o.ground(g);
    let history = choose|history: Seq<Seq<Seq<u32>>>| #[trigger]
        ground.made(history, f.links) && forall|i: int|
            ground.first <= i < ground.levels.len() ==> #[trigger] ground.was_linked(
                history,
                i as u32,
            );
    growing_fits(o.levels, new, o.params.m as int, o.links);
    assert forall|i: int, l: int|
        #![trigger f.links[i][l]]
        0 <= i < f.links.len() && 0 <= l < f.links[i].len() implies f.links[i][l] == connected_all(
        f.store,
        i as u32,
        if i < o.links.len() {
            o.links[i][l]
        } else {
            Seq::empty()
        },
        history[i][l],
        allowance(o.params.m as int, l),
    ) by {
        assert(ground.made_node(i, history[i], f.links[i]));
        assert(ground.makes(i, l, history[i][l], f.links[i][l]));
        if i >= o.links.len() {
            assert(g.links[i] == bare(new[i - o.links.len()]));
        }
    }
    assert forall|id: u32|
        o.levels.len() <= id < f.levels.len() && 0 < id implies #[trigger] joined_by(
        o,
        f,
        history,
        id,
    ) by {
        assert(ground.was_linked(history, (id as int) as u32));
        assert forall|x: int| 0 <= x < f.levels.len() implies #[trigger] g.links[x] == grown_links(
            o,
            f,
        )[x] by {
            if x >= o.links.len() {
                assert(g.links[x] == bare(new[x - o.links.len()]));
                assert(g.links[x] =~= grown_links(o, f)[x]);
            }
        }
        linked_is_joined(o, f, ground, history, id);
    }
    history
}

/// A new node that was linked is joined.
proof fn linked_is_joined(
    o: HnswView,
    f: HnswView,
    ground: Ground,
    history: Seq<Seq<Seq<u32>>>,
    id: u32,
)
    requires
        ground.was_linked(history, id),
        id < f.levels.len(),
        ground.store == f.store,
        ground.levels == f.levels,
        ground.m == o.params.m,
        ground.ef == o.params.ef_construction,
        ground.ef >= 1,
        ground.m >= 1,
        ground.start == match o.entry {
            Some(x) => x,
            None => 0u32,
        },
        ground.first >= o.levels.len(),
        ground.levels[ground.start as int] == level_before(o, f),
        forall|x: int|
            0 <= x < f.levels.len() ==> #[trigger] ground.before[x] == grown_links(o, f)[x],
    ensures
        joined_by(o, f, history, id),
{
    let c = choose|c: Course| #[trigger]
        ground.is_full_course(id, c) && forall|d: int|
            0 <= d < c.found.len() ==> #[trigger] ground.is_joined(history, id, c, d);
    if forall|i: int| 0 <= i < f.levels.len() ==> !nan(#[trigger] nearness(f.store, id)(i)) {
        course_is_thorough(ground, id, c, c.found.len() as int);
        assert forall|d: int| 0 <= d < c.found.len() implies #[trigger] joined_in(
            o,
            f,
            history,
            id,
            c.cur,
            c.found,
            d,
        ) by {
            assert(is_search_over(
                ground.store,
                ground.reads(ground.layer(id, c, d)),
                id,
                ground.ef,
                begun_from(c.found, c.cur, d),
                c.found[d],
            ));
            assert(ground.is_joined(history, id, c, d));
            layer_is_joined(o, f, ground, history, id, c, d);
        }
        let stops = courses_come_down_through_what_was_made(
            ground,
            grown_links(o, f),
            id,
            c.entry,
            f.levels[c.entry as int] as int,
            f.levels[id as int] + 1,
            c.cur,
        );
        assert(is_entry(o, f, stops[0]));
        assert(reaches_down(o, f, id, c.cur, c.found));
    }
}

proof fn layer_is_joined(
    o: HnswView,
    f: HnswView,
    ground: Ground,
    history: Seq<Seq<Seq<u32>>>,
    id: u32,
    c: Course,
    d: int,
)
    requires
        ground.is_full_course(id, c),
        0 <= d < c.found.len(),
        is_search_over(
            ground.store,
            ground.reads(ground.layer(id, c, d)),
            id,
            ground.ef,
            begun_from(c.found, c.cur, d),
            c.found[d],
        ),
        forall|i: int|
            0 <= i < c.found[d].len() ==> sits_at(
                ground.levels,
                #[trigger] ids(c.found[d])[i],
                ground.layer(id, c, d),
            ),
        ground.is_joined(history, id, c, d),
        ground.store == f.store,
        ground.levels == f.levels,
        ground.m == o.params.m,
        ground.ef == o.params.ef_construction,
        ground.m >= 1,
        forall|x: int|
            0 <= x < f.levels.len() ==> #[trigger] ground.before[x] == grown_links(o, f)[x],
    ensures
        joined_in(o, f, history, id, c.cur, c.found, d),
{
    let l = ground.layer(id, c, d);
    let best = c.found[d];
    let cap = share(ground.m, l);
    weaker_readings(
        f.store,
        ground.reads(l),
        may_read_as(f.store, grown_links(o, f), cap, l),
        id,
        ground.ef,
        begun_from(c.found, c.cur, d),
        best,
        ground,
        l,
        ground.before,
        grown_links(o, f),
    );
    selected_is_selection(f.store, nearness(f.store, id), best, cap);
    let list = ground.chosen(id, c, d);
    assert forall|x: u32| #[trigger] list.contains(x) implies history[id as int][l].contains(x)
        && history[x as int][l].contains(id) by {
        assert(both(history, id, l, x));
    }
    assert(is_selection(f.store, nearness(f.store, id), ids(best), cap, list));
    assert(l == c.found.len() - 1 - d);
    assert(cap == allowance(o.params.m as int, l));
}

/// How many neighbors a node may have in a layer.
pub open spec fn allowance(m: int, layer: int) -> int {
    if layer == 0 {
        2 * m
    } else {
        m
    }
}

/// The lists before vectors were added, and none for the new nodes.
pub open spec fn grown_links(o: HnswView, f: HnswView) -> Seq<Seq<Seq<u32>>> {
    Seq::new(
        f.levels.len(),
        |i: int|
            if i < o.links.len() {
                o.links[i]
            } else {
                Seq::new((f.levels[i] + 1) as nat, |l: int| Seq::empty())
            },
    )
}

/// New node `id` searched a layer, search `d` of those that found `best`, and was connected with
/// all that it selected from what it found.
pub open spec fn joined_in(
    o: HnswView,
    f: HnswView,
    history: Seq<Seq<Seq<u32>>>,
    id: u32,
    cur: u32,
    best: Seq<Seq<u128>>,
    d: int,
) -> bool {
    let l = best.len() - 1 - d;
    let cap = allowance(o.params.m as int, l);
    &&& is_search_over(
        f.store,
        may_read_as(f.store, grown_links(o, f), cap, l),
        id,
        o.params.ef_construction as int,
        begun_from(best, cur, d),
        best[d],
    )
    &&& exists|list: Seq<u32>| #[trigger]
        is_selection(f.store, nearness(f.store, id), ids(best[d]), cap, list) && forall|x: u32|
            #[trigger]
            list.contains(x) ==> history[id as int][l].contains(x) && history[x as int][l].contains(
                id,
            )
}

/// New node `id` searched all layers that it reaches and that were there before, and was connected
/// with what it selected, unless some key is not a number.
pub open spec fn joined_by(
    o: HnswView,
    f: HnswView,
    history: Seq<Seq<Seq<u32>>>,
    id: u32,
) -> bool {
    (forall|i: int| 0 <= i < f.levels.len() ==> !nan(#[trigger] nearness(f.store, id)(i)))
        ==> exists|cur: u32, best: Seq<Seq<u128>>|
        {
            &&& #[trigger] reaches_down(o, f, id, cur, best)
            &&& forall|d: int|
                0 <= d < best.len() ==> #[trigger] joined_in(o, f, history, id, cur, best, d)
        }
}

/// There is a search for each layer, from the highest that a new node is linked in down to the
/// lowest; and that is no lower than the node and the layers that were there before allow. Above it
/// the node came down greedily from an entry point: the one before, or a new node that is higher.
pub open spec fn reaches_down(
    o: HnswView,
    f: HnswView,
    id: u32,
    cur: u32,
    best: Seq<Seq<u128>>,
) -> bool {
    &&& cur < f.levels.len()
    &&& best.len() <= f.levels[id as int] + 1
    &&& best.len() > lower(f.levels[id as int], level_before(o, f))
    &&& exists|stops: Seq<u32>| #[trigger]
        come_down(
            layers_may_read_as(f.store, grown_links(o, f), o.params.m as int),
            nearness(f.store, id),
            id,
            f.levels[stops[0] as int] as int,
            stops,
        ) && is_entry(o, f, stops[0]) && stops[0] != id && stops.last() == cur && stops.len()
            == if f.levels[stops[0] as int] > f.levels[id as int] {
            f.levels[stops[0] as int] - f.levels[id as int] + 1
        } else {
            1
        } && best.len() == lower(f.levels[id as int], f.levels[stops[0] as int]) + 1
}

/// The highest level before vectors are linked.
pub open spec fn level_before(o: HnswView, f: HnswView) -> usize {
    if o.entry is Some {
        o.max_level
    } else {
        f.levels[0]
    }
}

/// A node is the entry point before vectors are linked, or a new one that is higher.
pub open spec fn is_entry(o: HnswView, f: HnswView, e: u32) -> bool {
    &&& e < f.levels.len()
    &&& {
        ||| e == match o.entry {
            Some(x) => x,
            None => 0u32,
        }
        ||| o.levels.len() <= e && f.levels[e as int] > level_before(o, f)
    }
}

/// A search that is thorough in what may be read is so in what more may be read.
proof fn weaker_readings(
    store: FlatView,
    reads: spec_fn(u32, Seq<u32>) -> bool,
    more: spec_fn(u32, Seq<u32>) -> bool,
    id: u32,
    ef: int,
    entries: Seq<u32>,
    best: Seq<u128>,
    ground: Ground,
    layer: int,
    links: Seq<Seq<Seq<u32>>>,
    same: Seq<Seq<Seq<u32>>>,
)
    requires
        is_search_over(store, reads, id, ef, entries, best),
        reads == ground.reads(layer),
        ground.store == store,
        ground.before == links,
        more == may_read_as(store, same, share(ground.m, layer), layer),
        forall|x: int| 0 <= x < ground.levels.len() ==> #[trigger] links[x] == same[x],
        forall|i: int| 0 <= i < best.len() ==> sits_at(ground.levels, #[trigger] ids(best)[i], layer),
    ensures
        is_search_over(store, more, id, ef, entries, best),
{
    let key = nearness(store, id);
    assert forall|x: u32| #[trigger]
        has_node(best, x) && (best.len() < ef || lt(
            key(x as int),
            key(id_in(best.last()) as int),
        )) implies exists|list: Seq<u32>| #[trigger]
        more(x, list) && forall|y: u32| #[trigger]
            list.contains(y) && y != id ==> has_or_no_nearer(best, ef, key, y) by {
        let j = choose|j: int| 0 <= j < best.len() && id_in(#[trigger] best[j]) == x;
        assert(sits_at(ground.levels, ids(best)[j], layer));
        assert(ids(best)[j] == x);
        let list = choose|list: Seq<u32>| #[trigger]
            reads(x, list) && forall|y: u32| #[trigger]
                list.contains(y) && y != id ==> has_or_no_nearer(best, ef, key, y);
        let w = choose|w: Seq<u32>| #[trigger] ground.can_make(x as int, layer, w, list);
        assert(links[x as int] == same[x as int]);
        assert(list == connected_all(
            store,
            x,
            same[x as int][layer],
            w,
            share(ground.m, layer),
        ));
        assert(more(x, list));
    }
}

} // verus!
