//! Greedy descent: from a node to the neighbor that is nearer, until there is none.

use vstd::prelude::*;
use crate::arith::Arithmetic;
use crate::binary32::{is_lt, lt, place};
use crate::flat::FlatIndex;
use crate::graph::{adjacency, keeps, links_of, node_key, reads_of, Graph, Plain};

verus! {

/// The node that is strictly nearer than all that came before it, among `at` and the first
/// `n` nodes of a list.
pub open spec fn nearer(
    key: spec_fn(u32) -> u32,
    exclude: Option<u32>,
    list: Seq<u32>,
    n: int,
    at: u32,
) -> u32
    decreases n,
{
    if n <= 0 {
        at
    } else {
        let p = nearer(key, exclude, list, n - 1, at);
        if exclude != Some(list[n - 1]) && lt(key(list[n - 1]), key(p)) {
            list[n - 1]
        } else {
            p
        }
    }
}

/// The node that one look around a node with these neighbors leads to.
pub open spec fn step(
    key: spec_fn(u32) -> u32,
    exclude: Option<u32>,
    list: Seq<u32>,
    at: u32,
) -> u32 {
    nearer(key, exclude, list, list.len() as int, at)
}

/// Where the descent in a graph from a node ends.
pub open spec fn descended(
    key: spec_fn(u32) -> u32,
    exclude: Option<u32>,
    graph: spec_fn(u32) -> Seq<u32>,
    at: u32,
) -> u32
    decreases place(key(at)) + 0x8000_0000,
{
    let next = step(key, exclude, graph(at), at);
    if lt(key(next), key(at)) {
        descended(key, exclude, graph, next)
    } else {
        at
    }
}

/// One look around either leads strictly nearer, or stays; it stays only where no neighbor
/// is nearer.
pub proof fn step_is_nearest(
    key: spec_fn(u32) -> u32,
    exclude: Option<u32>,
    list: Seq<u32>,
    n: int,
    at: u32,
)
    requires
        0 <= n <= list.len(),
    ensures
        ({
            let r = nearer(key, exclude, list, n, at);
            &&& r == at || (lt(key(r), key(at)) && exclude != Some(r) && list.contains(r))
            &&& forall|i: int|
                0 <= i < n && exclude != Some(#[trigger] list[i]) ==> !lt(key(list[i]), key(r))
        }),
    decreases n,
{
    if n > 0 {
        step_is_nearest(key, exclude, list, n - 1, at);
        assert(list.contains(list[n - 1]));
    }
}

/// The descent ends at a node that no neighbor of it is nearer than, and no farther than
/// where it began.
pub proof fn descent_ends_at_a_minimum(
    key: spec_fn(u32) -> u32,
    exclude: Option<u32>,
    graph: spec_fn(u32) -> Seq<u32>,
    at: u32,
)
    ensures
        ({
            let r = descended(key, exclude, graph, at);
            &&& r == at || lt(key(r), key(at))
            &&& forall|i: int|
                0 <= i < graph(r).len() && exclude != Some(#[trigger] graph(r)[i]) ==> !lt(
                    key(graph(r)[i]),
                    key(r),
                )
        }),
    decreases place(key(at)) + 0x8000_0000,
{
    let next = step(key, exclude, graph(at), at);
    step_is_nearest(key, exclude, graph(at), graph(at).len() as int, at);
    if lt(key(next), key(at)) {
        descent_ends_at_a_minimum(key, exclude, graph, next);
    }
}

/// Where a descent that saw these neighbor lists stands.
pub open spec fn walked(
    key: spec_fn(u32) -> u32,
    exclude: Option<u32>,
    from: u32,
    lists: Seq<Seq<u32>>,
) -> u32
    decreases lists.len(),
{
    if lists.len() == 0 {
        from
    } else {
        step(key, exclude, lists.last(), walked(key, exclude, from, lists.drop_last()))
    }
}

/// A descent does not end at the node that is left out unless it began there.
pub proof fn walk_avoids(
    key: spec_fn(u32) -> u32,
    exclude: Option<u32>,
    from: u32,
    lists: Seq<Seq<u32>>,
)
    requires
        exclude != Some(from),
    ensures
        exclude != Some(walked(key, exclude, from, lists)),
    decreases lists.len(),
{
    if lists.len() > 0 {
        walk_avoids(key, exclude, from, lists.drop_last());
        let at = walked(key, exclude, from, lists.drop_last());
        step_is_nearest(key, exclude, lists.last(), lists.last().len() as int, at);
    }
}

/// Look `i` read what its neighbors may read as, and led nearer unless it was the last.
pub open spec fn is_look(
    reads: spec_fn(u32, Seq<u32>) -> bool,
    key: spec_fn(u32) -> u32,
    exclude: Option<u32>,
    from: u32,
    lists: Seq<Seq<u32>>,
    i: int,
) -> bool {
    let p = walked(key, exclude, from, lists.take(i));
    &&& reads(p, lists[i])
    &&& lt(key(step(key, exclude, lists[i], p)), key(p)) <==> i < lists.len() - 1
}

/// These lists may be seen on the way.
pub open spec fn is_walk(
    reads: spec_fn(u32, Seq<u32>) -> bool,
    key: spec_fn(u32) -> u32,
    exclude: Option<u32>,
    from: u32,
    lists: Seq<Seq<u32>>,
) -> bool {
    &&& lists.len() > 0
    &&& forall|i: int|
        0 <= i < lists.len() ==> #[trigger] is_look(reads, key, exclude, from, lists, i)
}

/// `to` is where a descent from `from` may end.
pub open spec fn is_descent(
    reads: spec_fn(u32, Seq<u32>) -> bool,
    key: spec_fn(u32) -> u32,
    exclude: Option<u32>,
    from: u32,
    to: u32,
) -> bool {
    exists|lists: Seq<Seq<u32>>| #[trigger]
        is_walk(reads, key, exclude, from, lists) && to == walked(key, exclude, from, lists)
}

/// In a graph that nobody changes the descent from a node ends in one place.
pub(crate) proof fn plain_descent(
    g: &Plain,
    layer: int,
    key: spec_fn(u32) -> u32,
    exclude: Option<u32>,
    from: u32,
    to: u32,
)
    requires
        is_descent(reads_of(g, layer), key, exclude, from, to),
    ensures
        to == descended(key, exclude, adjacency(links_of(g.links@), layer), from),
{
    let lists = choose|lists: Seq<Seq<u32>>| #[trigger]
        is_walk(reads_of(g, layer), key, exclude, from, lists) && to == walked(key, exclude, from, lists);
    plain_walk(g, layer, key, exclude, from, lists, 0);
    assert(lists.take(0) =~= Seq::empty());
}

/// The rest of a walk.
proof fn plain_walk(
    g: &Plain,
    layer: int,
    key: spec_fn(u32) -> u32,
    exclude: Option<u32>,
    from: u32,
    lists: Seq<Seq<u32>>,
    i: int,
)
    requires
        is_walk(reads_of(g, layer), key, exclude, from, lists),
        0 <= i < lists.len(),
    ensures
        walked(key, exclude, from, lists) == descended(
            key,
            exclude,
            adjacency(links_of(g.links@), layer),
            walked(key, exclude, from, lists.take(i)),
        ),
    decreases lists.len() - i,
{
    let p = walked(key, exclude, from, lists.take(i));
    assert(is_look(reads_of(g, layer), key, exclude, from, lists, i));
    step_is_nearest(key, exclude, lists[i], lists[i].len() as int, p);
    assert(lists.take(i + 1).drop_last() =~= lists.take(i));
    assert(lists.take(i + 1).last() == lists[i]);
    if i < lists.len() - 1 {
        plain_walk(g, layer, key, exclude, from, lists, i + 1);
    } else {
        assert(lists.take(i + 1) =~= lists);
    }
}

/// One more look.
pub proof fn walk_grows(
    key: spec_fn(u32) -> u32,
    exclude: Option<u32>,
    from: u32,
    lists: Seq<Seq<u32>>,
    list: Seq<u32>,
)
    ensures
        walked(key, exclude, from, lists.push(list)) == step(
            key,
            exclude,
            list,
            walked(key, exclude, from, lists),
        ),
        forall|i: int|
            0 <= i < lists.len() ==> lists.push(list).take(i) == #[trigger] lists.take(i),
        lists.push(list).take(lists.len() as int) == lists,
{
    assert(lists.push(list).drop_last() =~= lists);
    assert forall|i: int| 0 <= i < lists.len() implies lists.push(list).take(i)
        == #[trigger] lists.take(i) by {
        assert(lists.push(list).take(i) =~= lists.take(i));
    }
    assert(lists.push(list).take(lists.len() as int) =~= lists);
}

/// Descends in a layer from the node `entry`.
pub(crate) fn greedy_descend<A: Arithmetic, G: Graph>(
    store: &FlatIndex,
    g: &G,
    query: &[u32],
    entry: u32,
    layer: usize,
    exclude: Option<u32>,
    Ghost(good): Ghost<spec_fn(u32) -> bool>,
) -> (r: u32)
    requires
        query@.len() == store@.dim,
        keeps(g, layer as int, store@.len(), good),
        good(entry),
    ensures
        good(r),
        is_descent(reads_of(g, layer as int), node_key(store@, query@), exclude, entry, r),
        exclude != Some(entry) ==> exclude != Some(r),
{
    let ghost key = node_key(store@, query@);
    let ghost l = layer as int;
    let mut best: u32 = entry;
    let mut best_key: u32 = store.key_to::<A>(query, entry as usize);
    let mut list: Vec<u32> = Vec::new();
    let mut keys: Vec<u32> = Vec::new();
    let ghost mut lists: Seq<Seq<u32>> = Seq::empty();
    loop
        invariant
            query@.len() == store@.dim,
            key == node_key(store@, query@),
            l == layer as int,
            keeps(g, l, store@.len(), good),
            good(best),
            best_key == key(best),
            best == walked(key, exclude, entry, lists),
            forall|i: int|
                0 <= i < lists.len() ==> {
                    let p = walked(key, exclude, entry, #[trigger] lists.take(i));
                    g.may_read(p, l, lists[i]) && lt(
                        key(step(key, exclude, lists[i], p)),
                        key(p),
                    )
                },
        decreases place(best_key) + 0x8000_0000,
    {
        let ghost at = best;
        let mut improved: bool = false;
        g.read(best, layer, &mut list);
        assert(g.may_read(at, l, list@));
        assert forall|k: int| 0 <= k < list@.len() implies (#[trigger] list@[k]) < store@.len() by {
            assert(good(list@[k]));
        }
        store.keys_to::<A>(query, list.as_slice(), &mut keys);
        let mut j: usize = 0;
        while j < list.len()
            invariant
                j <= list@.len(),
                key == node_key(store@, query@),
                keys@.len() == list@.len(),
                forall|k: int|
                    0 <= k < list@.len() ==> #[trigger] keys@[k] == store@.keys(query@)(
                        list@[k] as int,
                    ),
                forall|id: u32| #[trigger] good(id) ==> id < store@.len(),
                forall|k: int| 0 <= k < list@.len() ==> good(#[trigger] list@[k]),
                good(best),
                best_key == key(best),
                best == nearer(key, exclude, list@, j as int, at),
                improved <==> lt(best_key, key(at)),
                !improved ==> best == at,
            decreases list@.len() - j,
        {
            let nb: u32 = list[j];
            assert(good(list@[j as int]));
            let skip: bool = match exclude {
                Some(e) => e == nb,
                None => false,
            };
            if !skip {
                let d: u32 = keys[j];
                assert(d == key(nb));
                if is_lt(d, best_key) {
                    best_key = d;
                    best = nb;
                    improved = true;
                }
            }
            j += 1;
        }
        let ghost before = lists;
        proof {
            walk_grows(key, exclude, entry, before, list@);
            step_is_nearest(key, exclude, list@, list@.len() as int, at);
            lists = before.push(list@);
        }
        if !improved {
            proof {
                assert forall|i: int| 0 <= i < lists.len() implies #[trigger] is_look(
                    reads_of(g, l),
                    key,
                    exclude,
                    entry,
                    lists,
                    i,
                ) by {
                    if i < before.len() {
                        assert(lists.take(i) == before.take(i));
                    }
                }
                assert(is_walk(reads_of(g, l), key, exclude, entry, lists));
                if exclude != Some(entry) {
                    walk_avoids(key, exclude, entry, lists);
                }
            }
            return best;
        }
        proof {
            assert forall|i: int| 0 <= i < lists.len() implies {
                let p = walked(key, exclude, entry, #[trigger] lists.take(i));
                g.may_read(p, l, lists[i]) && lt(key(step(key, exclude, lists[i], p)), key(p))
            } by {
                if i < before.len() {
                    assert(lists.take(i) == before.take(i));
                }
            }
        }
    }
}

} // verus!
