//! Many nodes linked at once.
//!
//! Each node's lists are behind a lock of their own, so what a search reads may change while
//! it runs. What holds of the lists of one node whatever the order of events is kept by its lock:
//! they fit, and are what connections made of those before, each to a node that selected this one
//! or that this one selected. Beside the lists the lock holds a record of these connections.
//!
//! What several locks hold together no lock can say. So each node hands back what it selected,
//! and when all are done the records are held against that: each node was joined, both ways, with
//! all that it selected.

use vstd::prelude::*;
use vstd::rwlock::{ReadHandle, RwLock, RwLockPredicate};
use crate::arith::Arithmetic;
use crate::descent::{greedy_descend, is_descent};
use crate::graph::{is_outcome, keeps, layers_of, links_of, node_key, reads_of, Graph};
use crate::growth::{
    both, connections_bring_no_others, extending_twice, extends, has_neighbors, lower, noted,
    nothing_more, onward, times, times_are_counted, Course, Ground,
};
use crate::parallel::par_map;
use crate::select::{connect, connected, ids, selected};
use crate::wiring::{
    fitting_grows, graph_fits, layer_nodes, list_fits, node_fits, share, sits_at, Site,
};

verus! {

/// The lists of a node, and the connections that they were made by, layer by layer.
pub struct Lists {
    pub links: Vec<Vec<u32>>,
    pub record: Vec<Vec<u32>>,
}

/// The lists of a node fit, and are what the recorded connections made of those before.
pub struct NodeRule {
    pub node: int,
    pub ground: Ground,
}

impl RwLockPredicate<Box<Lists>> for NodeRule {
    open spec fn inv(self, v: Box<Lists>) -> bool {
        &&& node_fits(self.ground.levels, self.ground.m, self.node, layers_of(v.links@))
        &&& self.ground.made_node(self.node, layers_of(v.record@), layers_of(v.links@))
    }
}

/// The entry point is a node that may be it, with its level.
pub struct EntryRule {
    pub ground: Ground,
}

impl RwLockPredicate<(u32, usize)> for EntryRule {
    open spec fn inv(self, v: (u32, usize)) -> bool {
        &&& self.ground.may_enter(v.0)
        &&& self.ground.levels[v.0 as int] == v.1
    }
}

/// The lists of all nodes, each behind its lock.
pub(crate) open spec fn locks_fit(
    locks: Seq<RwLock<Box<Lists>, NodeRule>>,
    ground: Ground,
) -> bool {
    &&& locks.len() == ground.levels.len()
    &&& forall|i: int|
        0 <= i < locks.len() ==> (#[trigger] locks[i]).pred() == (NodeRule { node: i, ground })
}

/// The graph grows where nodes are linked.
pub(crate) open spec fn grows_at(ground: Ground, site: &Site) -> bool {
    &&& ground.store == site.store@
    &&& ground.levels == site.levels@
    &&& ground.m == site.m
    &&& ground.ef == site.ef
}

/// A graph that others are changing.
pub(crate) struct Locked<'a> {
    pub locks: &'a Vec<RwLock<Box<Lists>, NodeRule>>,
    pub ground: Ghost<Ground>,
}

impl Graph for Locked<'_> {
    open spec fn may_read(&self, node: u32, layer: int, list: Seq<u32>) -> bool {
        self.ground@.may_read(node, layer, list)
    }

    open spec fn has(&self, node: u32) -> bool {
        &&& node < self.locks@.len()
        &&& self.ground@.m >= 0
        &&& locks_fit(self.locks@, self.ground@)
    }

    fn read(&self, node: u32, layer: usize, list: &mut Vec<u32>) {
        list.clear();
        assert(self.locks@[node as int].pred() == (NodeRule {
            node: node as int,
            ground: self.ground@,
        }));
        let handle: ReadHandle<Box<Lists>, NodeRule> = self.locks[node as usize].acquire_read();
        let kept: &Box<Lists> = handle.borrow();
        let lists: &Vec<Vec<u32>> = &kept.links;
        if layer < lists.len() {
            assert(list_fits(
                self.ground@.levels,
                self.ground@.m,
                node as int,
                layer as int,
                layers_of(lists@)[layer as int],
            ));
            list.extend_from_slice(lists[layer].as_slice());
            proof {
                assert(list@ =~= lists@[layer as int]@);
                let more = layers_of(kept.record@)[layer as int];
                assert(self.ground@.makes(
                    node as int,
                    layer as int,
                    more,
                    layers_of(lists@)[layer as int],
                ));
                self.ground@.grown_may_be_read(node, layer as int, more, list@);
            }
        }
        handle.release_read();
    }
}

/// In a locked graph neighbors in a layer are nodes of the layer.
proof fn locked_keeps(g: &Locked, layer: int)
    requires
        locks_fit(g.locks@, g.ground@),
        g.ground@.m >= 0,
        layer >= 0,
    ensures
        keeps(g, layer, g.ground@.levels.len() as int, layer_nodes(g.ground@.levels, layer)),
{
}

/// How often a node is in a list.
fn how_often(list: &Vec<u32>, x: u32) -> (r: usize)
    ensures
        r == times(list@, x),
{
    let mut r: usize = 0;
    let mut i: usize = 0;
    assert(list@.take(0) =~= Seq::empty());
    while i < list.len()
        invariant
            r <= i <= list@.len(),
            r == times(list@.take(i as int), x),
        decreases list@.len() - i,
    {
        proof {
            times_are_counted(list@.take(i as int), x, list@[i as int]);
            assert(list@.take(i + 1) =~= list@.take(i as int).push(list@[i as int]));
        }
        if list[i] == x {
            r += 1;
        }
        i += 1;
    }
    assert(list@.take(i as int) =~= list@);
    r
}

/// How many of two nodes are new.
fn how_fresh(node: u32, neighbor: u32, first: usize) -> (r: usize)
    ensures
        forall|ground: Ground|
            ground.first == first ==> r == #[trigger] ground.fresh(node as int, neighbor),
{
    let a: usize = if node as usize >= first {
        1
    } else {
        0
    };
    let b: usize = if neighbor as usize >= first {
        1
    } else {
        0
    };
    a + b
}

/// Whether two lists are the same.
fn is_same(a: &Vec<u32>, b: &Vec<u32>) -> (r: bool)
    ensures
        r == (a@ == b@),
{
    if a.len() != b.len() {
        return false;
    }
    let mut i: usize = 0;
    while i < a.len()
        invariant
            i <= a@.len(),
            a@.len() == b@.len(),
            forall|j: int| 0 <= j < i ==> a@[j] == b@[j],
        decreases a@.len() - i,
    {
        if a[i] != b[i] {
            return false;
        }
        i += 1;
    }
    assert(a@ =~= b@);
    true
}

/// A node whose connection to one more neighbor is made and recorded keeps its rule.
proof fn rule_stays(
    ground: Ground,
    node: u32,
    neighbor: u32,
    layer: int,
    lists: Box<Lists>,
    more: Box<Lists>,
)
    requires
        (NodeRule { node: node as int, ground }).inv(lists),
        sits_at(ground.levels, node, layer),
        layer >= 0,
        ground.m >= 1,
        ground.allows(node as int, layer, neighbor),
        times(layers_of(lists.record@)[layer], neighbor) < ground.fresh(node as int, neighbor),
        layers_of(more.record@) == layers_of(lists.record@).update(
            layer,
            layers_of(lists.record@)[layer].push(neighbor),
        ),
        layers_of(more.links@) == layers_of(lists.links@).update(
            layer,
            connected(
                ground.store,
                node,
                layers_of(lists.links@)[layer],
                neighbor,
                share(ground.m, layer),
            ),
        ),
    ensures
        (NodeRule { node: node as int, ground }).inv(more),
{
    let levels = ground.levels;
    let m = ground.m;
    let i = node as int;
    let before = layers_of(lists.links@);
    let history = layers_of(lists.record@);
    let after = layers_of(more.links@);
    let now = layers_of(more.record@);
    assert(node_fits(levels, m, i, before));
    assert(ground.made_node(i, history, before));
    assert(list_fits(levels, m, i, layer, before[layer]));
    fitting_grows(ground.store, levels, m, node, before[layer], neighbor, layer);
    assert(ground.makes(i, layer, history[layer], before[layer]));
    ground.list_grows(node, layer, history[layer], before[layer], neighbor);
    assert forall|l: int| 0 <= l < after.len() implies list_fits(
        levels,
        m,
        i,
        l,
        #[trigger] after[l],
    ) by {
        assert(list_fits(levels, m, i, l, before[l]));
    }
    assert(node_fits(levels, m, i, after));
    assert forall|l: int| 0 <= l < after.len() implies ground.makes(
        i,
        l,
        now[l],
        #[trigger] after[l],
    ) by {
        assert(ground.makes(i, l, history[l], before[l]));
    }
    assert(ground.made_node(i, now, after));
}

/// A list of neighbors, and what becomes of it with one more.
struct Draft {
    now: Vec<u32>,
    next: Vec<u32>,
}

/// Connects a node to one more neighbor, if that is not recorded as often as it may be. What was
/// worked out for the list as it is need not be worked out again.
fn connect_held<A: Arithmetic>(
    site: &Site,
    lists: Box<Lists>,
    node: u32,
    neighbor: u32,
    layer: usize,
    first: usize,
    draft: Option<Draft>,
    Ghost(ground): Ghost<Ground>,
) -> (r: Box<Lists>)
    requires
        site.wf(),
        grows_at(ground, site),
        ground.first == first,
        sits_at(site.levels@, node, layer as int),
        ground.allows(node as int, layer as int, neighbor),
        (NodeRule { node: node as int, ground }).inv(lists),
        draft matches Some(d) ==> d.next@ == connected(
            site.store@,
            node,
            d.now@,
            neighbor,
            share(site.m as int, layer as int),
        ),
    ensures
        (NodeRule { node: node as int, ground }).inv(r),
{
    let ghost levels = site.levels@;
    let ghost m = site.m as int;
    let ghost i = node as int;
    let ghost old_lists = lists;
    let mut lists: Box<Lists> = lists;
    proof {
        assert(node_fits(levels, m, i, layers_of(lists.links@)));
        assert(ground.made_node(i, layers_of(lists.record@), layers_of(lists.links@)));
    }
    // each of the two that is new connects them once, but that no lock can tell
    if how_often(&lists.record[layer], neighbor) >= how_fresh(node, neighbor, first) {
        return lists;
    }
    let ghost before = layers_of(lists.links@);
    let ghost history = layers_of(lists.record@);
    proof {
        assert(times(history[layer as int], neighbor) < ground.fresh(i, neighbor));
        assert(list_fits(levels, m, i, layer as int, before[layer as int]));
    }
    let list: &mut Vec<u32> = &mut lists.links[layer];
    let mut ready: bool = false;
    if let Some(d) = draft {
        if is_same(list, &d.now) {
            *list = d.next;
            ready = true;
        }
    }
    if !ready {
        connect::<A>(site.store, node, list, neighbor, site.cap(layer));
    }
    let note: &mut Vec<u32> = &mut lists.record[layer];
    note.push(neighbor);
    proof {
        let after = layers_of(lists.links@);
        let more = layers_of(lists.record@);
        assert(more =~= history.update(layer as int, history[layer as int].push(neighbor)));
        assert(after =~= before.update(
            layer as int,
            connected(site.store@, node, before[layer as int], neighbor, share(m, layer as int)),
        ));
        rule_stays(ground, node, neighbor, layer as int, old_lists, lists);
    }
    lists
}

/// Connects a node to one more neighbor. Where neighbors have to be selected for that, this is
/// done before the lock is taken, and again if the list has changed by then.
fn connect_shared<A: Arithmetic>(
    site: &Site,
    locks: &Vec<RwLock<Box<Lists>, NodeRule>>,
    node: u32,
    neighbor: u32,
    layer: usize,
    first: usize,
    Ghost(ground): Ghost<Ground>,
)
    requires
        site.wf(),
        grows_at(ground, site),
        locks_fit(locks@, ground),
        ground.first == first,
        sits_at(site.levels@, node, layer as int),
        ground.allows(node as int, layer as int, neighbor),
{
    let ghost levels = site.levels@;
    let ghost m = site.m as int;
    let ghost i = node as int;
    let cap: usize = site.cap(layer);
    let lock: &RwLock<Box<Lists>, NodeRule> = &locks[node as usize];
    assert(lock.pred() == (NodeRule { node: i, ground }));
    let (lists, handle) = lock.acquire_write();
    assert(node_fits(levels, m, i, layers_of(lists.links@)));
    if lists.links[layer].len() < cap {
        let lists: Box<Lists> = connect_held::<A>(
            site,
            lists,
            node,
            neighbor,
            layer,
            first,
            None,
            Ghost(ground),
        );
        handle.release_write(lists);
        return;
    }
    handle.release_write(lists);
    let graph: Locked = Locked { locks, ground: Ghost(ground) };
    let mut now: Vec<u32> = Vec::new();
    graph.read(node, layer, &mut now);
    assert(list_fits(levels, m, i, layer as int, now@));
    let mut next: Vec<u32> = Vec::with_capacity(now.len() + 1);
    next.extend_from_slice(now.as_slice());
    assert(next@ =~= now@);
    connect::<A>(site.store, node, &mut next, neighbor, cap);
    let (lists, handle) = lock.acquire_write();
    let lists: Box<Lists> = connect_held::<A>(
        site,
        lists,
        node,
        neighbor,
        layer,
        first,
        Some(Draft { now, next }),
        Ghost(ground),
    );
    handle.release_write(lists);
}

/// Connects a node to all that it selected in a layer.
fn connect_own<A: Arithmetic>(
    site: &Site,
    locks: &Vec<RwLock<Box<Lists>, NodeRule>>,
    id: u32,
    list: &Vec<u32>,
    layer: usize,
    first: usize,
    Ghost(ground): Ghost<Ground>,
)
    requires
        site.wf(),
        grows_at(ground, site),
        locks_fit(locks@, ground),
        ground.first == first,
        sits_at(site.levels@, id, layer as int),
        forall|i: int|
            0 <= i < list@.len() ==> ground.allows(id as int, layer as int, #[trigger] list@[i]),
{
    let lock: &RwLock<Box<Lists>, NodeRule> = &locks[id as usize];
    assert(lock.pred() == (NodeRule { node: id as int, ground }));
    let (held, handle) = lock.acquire_write();
    let mut lists: Box<Lists> = held;
    let mut i: usize = 0;
    while i < list.len()
        invariant
            i <= list@.len(),
            site.wf(),
            grows_at(ground, site),
            ground.first == first,
            sits_at(site.levels@, id, layer as int),
            forall|i: int|
                0 <= i < list@.len() ==> ground.allows(
                    id as int,
                    layer as int,
                    #[trigger] list@[i],
                ),
            (NodeRule { node: id as int, ground }).inv(lists),
        decreases list@.len() - i,
    {
        assert(ground.allows(id as int, layer as int, list@[i as int]));
        lists = connect_held::<A>(site, lists, id, list[i], layer, first, None, Ghost(ground));
        i += 1;
    }
    handle.release_write(lists);
}

/// A new node selects another in a layer that both reach.
pub(crate) open spec fn picks(ground: Ground, id: u32, layer: int, x: u32) -> bool {
    &&& x != id
    &&& ground.first <= id
    &&& sits_at(ground.levels, id, layer)
    &&& sits_at(ground.levels, x, layer)
    &&& ground.may_select(id, layer, x)
}

/// This is what a new node selects on a course down to the lowest layer, from the highest layer
/// down.
pub(crate) open spec fn is_plan_on(
    ground: Ground,
    id: u32,
    plan: Seq<Seq<u32>>,
    c: Course,
) -> bool {
    &&& ground.is_full_course(id, c)
    &&& plan.len() == c.found.len()
    &&& forall|d: int| 0 <= d < plan.len() ==> #[trigger] plan[d] == ground.chosen(id, c, d)
}

/// This is what a new node selects, from the highest layer down that it is linked in. There is
/// something in each layer.
pub(crate) open spec fn is_plan(ground: Ground, id: u32, plan: Seq<Seq<u32>>) -> bool {
    &&& exists|c: Course| #[trigger] is_plan_on(ground, id, plan, c)
    &&& lower(ground.levels[id as int], ground.levels[ground.start as int]) < plan.len()
        <= ground.levels[id as int] + 1
    &&& forall|d: int| 0 <= d < plan.len() ==> (#[trigger] plan[d]).len() > 0
    &&& forall|d: int, j: int|
        0 <= d < plan.len() && 0 <= j < plan[d].len() ==> picks(
            ground,
            id,
            plan.len() - 1 - d,
            #[trigger] plan[d][j],
        )
}

/// Links a node, while others are linked: what it selected, from the highest layer down.
fn link_shared<A: Arithmetic>(
    site: &Site,
    locks: &Vec<RwLock<Box<Lists>, NodeRule>>,
    entry: &RwLock<(u32, usize), EntryRule>,
    id: u32,
    start: u32,
    first: usize,
    Ghost(ground): Ghost<Ground>,
) -> (r: Vec<Vec<u32>>)
    requires
        site.wf(),
        grows_at(ground, site),
        locks_fit(locks@, ground),
        entry.pred().ground == ground,
        ground.start == start < first,
        ground.first == first,
        ground.first <= id < site.store@.len(),
    ensures
        is_plan(ground, id, layers_of(r@)),
{
    let ghost levels = site.levels@;
    let v: &[u32] = site.store.vector(id as usize);
    let level: usize = site.levels[id as usize];
    let graph: Locked = Locked { locks, ground: Ghost(ground) };
    let handle: ReadHandle<(u32, usize), EntryRule> = entry.acquire_read();
    let point: (u32, usize) = *handle.borrow();
    handle.release_read();
    // a node is no entry point before it is linked, but that no lock can tell
    let from: u32 = if point.0 == id {
        start
    } else {
        point.0
    };
    let max_level: usize = site.levels[from as usize];
    let ghost key = ground.key(id);
    let mut cur: u32 = from;
    let mut layer: usize = max_level;
    while layer > level
        invariant
            site.wf(),
            levels == site.levels@,
            grows_at(ground, site),
            locks_fit(locks@, ground),
            graph.locks@ == locks@,
            graph.ground@ == ground,
            v@.len() == site.store@.dim,
            key == node_key(site.store@, v@),
            key == ground.key(id),
            ground.may_land(id, from, max_level as int, layer + 1, cur),
            level > max_level ==> cur == from,
            cur != id,
            layer <= max_level,
            level <= max_level ==> level <= layer,
            level > max_level ==> layer == max_level,
            sits_at(levels, cur, if layer < max_level { layer + 1 } else { max_level as int }),
        decreases layer,
    {
        let ghost at = cur;
        proof {
            locked_keeps(&graph, layer as int);
        }
        cur = greedy_descend::<A, Locked>(
            site.store,
            &graph,
            v,
            cur,
            layer,
            Some(id),
            Ghost(layer_nodes(levels, layer as int)),
        );
        proof {
            assert(reads_of(&graph, layer as int) =~= ground.reads(layer as int));
            assert(is_descent(ground.reads(layer as int), key, Some(id), at, cur));
        }
        layer -= 1;
    }
    assert(ground.may_descend(id, from, cur));
    let top: usize = if level <= max_level {
        level
    } else {
        max_level
    };
    let mut entries: Vec<u32> = vec![cur];
    assert(entries@ =~= seq![cur]);
    let mut plan: Vec<Vec<u32>> = Vec::new();
    let ghost mut c = Course { entry: from, cur, found: Seq::empty() };
    let mut done: bool = false;
    let mut at: usize = top;
    while !done
        invariant
            site.wf(),
            levels == site.levels@,
            grows_at(ground, site),
            locks_fit(locks@, ground),
            graph.locks@ == locks@,
            graph.ground@ == ground,
            ground.first == first <= id < site.store@.len(),
            level == levels[id as int],
            at <= top <= level,
            top == ground.top(id, from),
            cur != id,
            c.entry == from,
            c.cur == cur,
            ground.is_course(id, c),
            c.found.len() == plan@.len(),
            plan@.len() == top - at + if done { 1int } else { 0 },
            done ==> at == 0,
            !done ==> entries@ == c.entries(plan@.len() as int),
            forall|d: int|
                0 <= d < plan@.len() ==> (#[trigger] plan@[d])@ == ground.chosen(id, c, d),
            forall|d: int| 0 <= d < plan@.len() ==> (#[trigger] plan@[d])@.len() > 0,
            forall|d: int, j: int|
                0 <= d < plan@.len() && 0 <= j < plan@[d]@.len() ==> picks(
                    ground,
                    id,
                    top - d,
                    #[trigger] plan@[d]@[j],
                ),
            sits_at(levels, cur, top as int),
            entries@.len() > 0,
            forall|i: int|
                0 <= i < entries@.len() ==> (#[trigger] entries@[i]) != id && sits_at(
                    levels,
                    entries@[i],
                    at as int,
                ),
        decreases at + if done { 0int } else { 1 },
    {
        proof {
            locked_keeps(&graph, at as int);
        }
        let (list, next) = site.plan::<A, Locked>(&graph, id, entries.as_slice(), at);
        let ghost (best, seen) = choose|best: Seq<u128>, seen: Seq<u32>| #[trigger]
            is_outcome(ground.quest(id), reads_of(&graph, at as int), entries@, best, seen)
                && list@ == selected(site.store@, best, share(site.m as int, at as int))
                && next@ == ids(best);
        proof {
            assert(reads_of(&graph, at as int) =~= ground.reads(at as int));
            assert(ground.may_find(id, at as int, entries@, best));
            assert(entries@[0] != id);
            ground.course_goes_on(id, c, best);
            let e = Course { found: c.found.push(best), ..c };
            assert(list@ == ground.chosen(id, e, plan@.len() as int));
            assert forall|i: int| 0 <= i < list@.len() implies picks(
                ground,
                id,
                at as int,
                #[trigger] list@[i],
            ) by {
                reveal(Ground::may_select);
                assert(list@.contains(list@[i]));
                assert(ground.is_course(id, e));
            }
            assert forall|d: int| 0 <= d < plan@.len() implies (#[trigger] plan@[d])@
                == ground.chosen(id, e, d) by {
                assert(ground.chosen(id, e, d) == ground.chosen(id, c, d));
            }
            c = e;
        }
        assert forall|i: int| 0 <= i < list@.len() implies ground.allows(
            id as int,
            at as int,
            #[trigger] list@[i],
        ) by {
            assert(picks(ground, id, at as int, list@[i]));
        }
        connect_own::<A>(site, locks, id, &list, at, first, Ghost(ground));
        let mut i: usize = 0;
        while i < list.len()
            invariant
                i <= list@.len(),
                site.wf(),
                levels == site.levels@,
                grows_at(ground, site),
                locks_fit(locks@, ground),
                ground.first == first,
                forall|i: int|
                    0 <= i < list@.len() ==> picks(ground, id, at as int, #[trigger] list@[i]),
            decreases list@.len() - i,
        {
            let nb: u32 = list[i];
            assert(picks(ground, id, at as int, list@[i as int]));
            connect_shared::<A>(site, locks, nb, id, at, first, Ghost(ground));
            i += 1;
        }
        plan.push(list);
        entries = next;
        if entries.len() == 0 {
            entries = vec![cur];
        }
        assert(entries@ =~= onward(best, cur));
        if at == 0 {
            done = true;
        } else {
            at -= 1;
        }
    }
    if level > max_level {
        let (now, handle) = entry.acquire_write();
        if level > now.1 {
            handle.release_write((id, level));
        } else {
            handle.release_write(now);
        }
    }
    proof {
        let p = layers_of(plan@);
        assert(is_plan_on(ground, id, p, c));
        assert forall|d: int, j: int| 0 <= d < p.len() && 0 <= j < p[d].len() implies picks(
            ground,
            id,
            p.len() - 1 - d,
            #[trigger] p[d][j],
        ) by {
            assert(picks(ground, id, top - d, plan@[d]@[j]));
        }
    }
    plan
}

/// No connections in so many layers.
fn blank(n: usize) -> (r: Vec<Vec<u32>>)
    ensures
        layers_of(r@) == Seq::new(n as nat, |l: int| Seq::<u32>::empty()),
{
    let mut r: Vec<Vec<u32>> = Vec::new();
    let mut i: usize = 0;
    while i < n
        invariant
            i <= n,
            r@.len() == i,
            forall|l: int| 0 <= l < i ==> (#[trigger] r@[l])@ == Seq::<u32>::empty(),
        decreases n - i,
    {
        r.push(Vec::new());
        i += 1;
    }
    assert(layers_of(r@) =~= Seq::new(n as nat, |l: int| Seq::<u32>::empty()));
    r
}

/// Puts the lists of each node behind a lock.
fn lock_all(
    links: Vec<Vec<Vec<u32>>>,
    Ghost(ground): Ghost<Ground>,
) -> (r: Vec<RwLock<Box<Lists>, NodeRule>>)
    requires
        graph_fits(ground.levels, ground.m, links_of(links@)),
        ground.before == links_of(links@),
    ensures
        locks_fit(r@, ground),
{
    proof {
        ground.starts();
    }
    let ghost levels = ground.levels;
    let ghost m = ground.m;
    let ghost all = links_of(links@);
    let mut rest: Vec<Vec<Vec<u32>>> = links;
    let mut locks: Vec<RwLock<Box<Lists>, NodeRule>> = Vec::new();
    let n: usize = rest.len();
    let mut i: usize = 0;
    while i < n
        invariant
            i <= n,
            n == rest@.len(),
            n == all.len(),
            levels == ground.levels,
            m == ground.m,
            graph_fits(levels, m, all),
            all == ground.before,
            ground.made(ground.nothing(), all),
            locks@.len() == i,
            forall|j: int|
                0 <= j < i ==> (#[trigger] locks@[j]).pred() == (NodeRule { node: j, ground }),
            forall|j: int| i <= j < n ==> layers_of((#[trigger] rest@[j])@) == all[j],
        decreases n - i,
    {
        assert(node_fits(levels, m, i as int, all[i as int]));
        assert(ground.made_node(i as int, ground.nothing()[i as int], all[i as int]));
        let mut lists: Vec<Vec<u32>> = Vec::new();
        assert(layers_of(rest@[i as int]@) == all[i as int]);
        std::mem::swap(&mut lists, &mut rest[i]);
        let record: Vec<Vec<u32>> = blank(lists.len());
        assert(layers_of(record@) =~= ground.nothing()[i as int]);
        let lock: RwLock<Box<Lists>, NodeRule> = RwLock::new(
            Box::new(Lists { links: lists, record }),
            Ghost(NodeRule { node: i as int, ground }),
        );
        locks.push(lock);
        i += 1;
    }
    locks
}

/// Takes the lists and the record of each node out again.
fn unlock_all(locks: Vec<RwLock<Box<Lists>, NodeRule>>, Ghost(ground): Ghost<Ground>) -> (r: (
    Vec<Vec<Vec<u32>>>,
    Vec<Vec<Vec<u32>>>,
))
    requires
        locks_fit(locks@, ground),
        ground.before.len() == ground.levels.len(),
    ensures
        graph_fits(ground.levels, ground.m, links_of(r.0@)),
        ground.made(links_of(r.1@), links_of(r.0@)),
{
    let mut rest: Vec<RwLock<Box<Lists>, NodeRule>> = locks;
    let n: usize = rest.len();
    let mut back: Vec<Box<Lists>> = Vec::new();
    let mut i: usize = n;
    while i > 0
        invariant
            i <= n,
            n == ground.levels.len(),
            rest@.len() == i,
            back@.len() == n - i,
            forall|j: int|
                0 <= j < i ==> (#[trigger] rest@[j]).pred() == (NodeRule { node: j, ground }),
            forall|j: int|
                0 <= j < n - i ==> (NodeRule { node: n - 1 - j, ground }).inv(#[trigger] back@[j]),
        decreases i,
    {
        i -= 1;
        assert(rest@[i as int].pred() == (NodeRule { node: i as int, ground }));
        match rest.pop() {
            Some(lock) => {
                let lists: Box<Lists> = lock.into_inner();
                back.push(lists);
            },
            None => {},
        }
    }
    let mut links: Vec<Vec<Vec<u32>>> = Vec::new();
    let mut records: Vec<Vec<Vec<u32>>> = Vec::new();
    let mut j: usize = 0;
    while j < n
        invariant
            j <= n,
            n == ground.levels.len(),
            back@.len() == n - j,
            links@.len() == j,
            records@.len() == j,
            forall|l: int|
                0 <= l < n - j ==> (NodeRule { node: n - 1 - l, ground }).inv(#[trigger] back@[l]),
            forall|l: int|
                0 <= l < j ==> node_fits(
                    ground.levels,
                    ground.m,
                    l,
                    layers_of((#[trigger] links@[l])@),
                ) && ground.made_node(l, layers_of(records@[l]@), layers_of(links@[l]@)),
        decreases n - j,
    {
        assert((NodeRule { node: j as int, ground }).inv(back@[n - 1 - j]));
        match back.pop() {
            Some(lists) => {
                let Lists { links: list, record } = *lists;
                links.push(list);
                records.push(record);
            },
            None => {},
        }
        j += 1;
    }
    assert forall|l: int| 0 <= l < links_of(links@).len() implies node_fits(
        ground.levels,
        ground.m,
        l,
        #[trigger] links_of(links@)[l],
    ) && ground.made_node(l, links_of(records@)[l], links_of(links@)[l]) by {
        assert(links_of(links@)[l] == layers_of(links@[l]@));
    }
    (links, records)
}

/// Whether a list holds a node.
fn holds(list: &Vec<u32>, x: u32) -> (r: bool)
    ensures
        r == list@.contains(x),
{
    let mut i: usize = 0;
    while i < list.len()
        invariant
            i <= list@.len(),
            forall|j: int| 0 <= j < i ==> list@[j] != x,
        decreases list@.len() - i,
    {
        if list[i] == x {
            assert(list@[i as int] == x);
            return true;
        }
        i += 1;
    }
    false
}

/// Records one more connection.
fn note(records: &mut Vec<Vec<Vec<u32>>>, node: usize, layer: usize, neighbor: u32)
    requires
        node < old(records)@.len(),
        layer < old(records)@[node as int]@.len(),
    ensures
        links_of(final(records)@) == noted(
            links_of(old(records)@),
            node as int,
            layer as int,
            neighbor,
        ),
{
    let ghost before = links_of(records@);
    let lists: &mut Vec<Vec<u32>> = &mut records[node];
    let list: &mut Vec<u32> = &mut lists[layer];
    list.push(neighbor);
    proof {
        let after = links_of(records@);
        let r = noted(before, node as int, layer as int, neighbor);
        assert forall|j: int| 0 <= j < r.len() implies after[j] == r[j] by {
            assert(after[j] =~= r[j]);
        }
        assert(after =~= r);
    }
}

/// Connects a node to one more neighbor unless it was.
fn connect_once<A: Arithmetic>(
    site: &Site,
    links: &mut Vec<Vec<Vec<u32>>>,
    records: &mut Vec<Vec<Vec<u32>>>,
    node: u32,
    neighbor: u32,
    layer: usize,
    Ghost(ground): Ghost<Ground>,
)
    requires
        site.wf(),
        grows_at(ground, site),
        graph_fits(site.levels@, site.m as int, links_of(old(links)@)),
        ground.made(links_of(old(records)@), links_of(old(links)@)),
        sits_at(site.levels@, node, layer as int),
        ground.allows(node as int, layer as int, neighbor),
    ensures
        graph_fits(site.levels@, site.m as int, links_of(final(links)@)),
        ground.made(links_of(final(records)@), links_of(final(links)@)),
        extends(links_of(old(records)@), links_of(final(records)@)),
        links_of(final(records)@)[node as int][layer as int].contains(neighbor),
{
    let ghost h = links_of(records@);
    let ghost g = links_of(links@);
    let ghost i = node as int;
    proof {
        assert(node_fits(site.levels@, site.m as int, i, g[i]));
        assert(ground.made_node(i, h[i], g[i]));
        assert(h[i] == layers_of(records@[i]@));
        assert(h[i][layer as int] == records@[i]@[layer as int]@);
    }
    proof {
        nothing_more(h);
    }
    if !holds(&records[node as usize][layer], neighbor) {
        proof {
            times_are_counted(h[i][layer as int], neighbor, neighbor);
            ground.graph_grows(h, g, node, neighbor, layer as int);
        }
        site.connect_at::<A>(links, node, neighbor, layer);
        note(records, node as usize, layer, neighbor);
    }
}

/// A node is connected, both ways, with all of a plan.
#[verifier::opaque]
pub(crate) open spec fn follows(
    history: Seq<Seq<Seq<u32>>>,
    id: u32,
    plan: Seq<Seq<u32>>,
) -> bool {
    forall|d: int, j: int|
        0 <= d < plan.len() && 0 <= j < plan[d].len() ==> both(
            history,
            id,
            plan.len() - 1 - d,
            #[trigger] plan[d][j],
        )
}

/// A plan that was followed stays so.
proof fn following_stays(
    ground: Ground,
    history: Seq<Seq<Seq<u32>>>,
    links: Seq<Seq<Seq<u32>>>,
    now: Seq<Seq<Seq<u32>>>,
    id: u32,
    plan: Seq<Seq<u32>>,
)
    requires
        ground.made(history, links),
        graph_fits(ground.levels, ground.m, links),
        extends(history, now),
        is_plan(ground, id, plan),
        follows(history, id, plan),
    ensures
        follows(now, id, plan),
{
    reveal(follows);
    assert forall|d: int, j: int| 0 <= d < plan.len() && 0 <= j < plan[d].len() implies both(
        now,
        id,
        plan.len() - 1 - d,
        #[trigger] plan[d][j],
    ) by {
        let x = plan[d][j];
        assert(picks(ground, id, plan.len() - 1 - d, x));
        ground.both_stays(history, links, now, id, plan.len() - 1 - d, x);
    }
}

/// Whether a node is connected, both ways, with all of its plan.
fn is_followed(
    records: &Vec<Vec<Vec<u32>>>,
    id: u32,
    plan: &Vec<Vec<u32>>,
    Ghost(ground): Ghost<Ground>,
) -> (r: bool)
    requires
        is_plan(ground, id, layers_of(plan@)),
        records@.len() == ground.levels.len(),
        forall|i: int|
            0 <= i < records@.len() ==> (#[trigger] records@[i])@.len() == ground.levels[i] + 1,
    ensures
        r ==> follows(links_of(records@), id, layers_of(plan@)),
{
    let ghost h = links_of(records@);
    let ghost p = layers_of(plan@);
    let n: usize = plan.len();
    let mut d: usize = 0;
    while d < n
        invariant
            d <= n,
            n == plan@.len(),
            p == layers_of(plan@),
            h == links_of(records@),
            is_plan(ground, id, p),
            records@.len() == ground.levels.len(),
            forall|i: int|
                0 <= i < records@.len() ==> (#[trigger] records@[i])@.len() == ground.levels[i] + 1,
            forall|e: int, j: int|
                0 <= e < d && 0 <= j < p[e].len() ==> both(h, id, n - 1 - e, #[trigger] p[e][j]),
        decreases n - d,
    {
        let layer: usize = n - 1 - d;
        let list: &Vec<u32> = &plan[d];
        assert(p[d as int] == list@);
        let mut j: usize = 0;
        while j < list.len()
            invariant
                d < n,
                j <= list@.len(),
                n == plan@.len(),
                p == layers_of(plan@),
                p[d as int] == list@,
                layer == n - 1 - d,
                h == links_of(records@),
                is_plan(ground, id, p),
                records@.len() == ground.levels.len(),
                forall|i: int|
                    0 <= i < records@.len() ==> (#[trigger] records@[i])@.len() == ground.levels[i]
                        + 1,
                forall|e: int, i: int|
                    0 <= e <= d && 0 <= i < p[e].len() && (e < d || i < j) ==> both(
                        h,
                        id,
                        n - 1 - e,
                        #[trigger] p[e][i],
                    ),
            decreases list@.len() - j,
        {
            let x: u32 = list[j];
            assert(picks(ground, id, layer as int, p[d as int][j as int]));
            assert(records@[id as int]@.len() > layer);
            assert(records@[x as int]@.len() > layer);
            if !holds(&records[id as usize][layer], x) || !holds(&records[x as usize][layer], id) {
                return false;
            }
            assert(h[id as int][layer as int] == records@[id as int]@[layer as int]@);
            assert(h[x as int][layer as int] == records@[x as int]@[layer as int]@);
            j += 1;
        }
        d += 1;
    }
    proof {
        reveal(follows);
    }
    true
}

/// Joins a node, both ways, with all of its plan that it was not joined with.
fn follow<A: Arithmetic>(
    site: &Site,
    links: &mut Vec<Vec<Vec<u32>>>,
    records: &mut Vec<Vec<Vec<u32>>>,
    id: u32,
    plan: &Vec<Vec<u32>>,
    Ghost(ground): Ghost<Ground>,
)
    requires
        site.wf(),
        grows_at(ground, site),
        graph_fits(site.levels@, site.m as int, links_of(old(links)@)),
        ground.made(links_of(old(records)@), links_of(old(links)@)),
        is_plan(ground, id, layers_of(plan@)),
    ensures
        graph_fits(site.levels@, site.m as int, links_of(final(links)@)),
        ground.made(links_of(final(records)@), links_of(final(links)@)),
        extends(links_of(old(records)@), links_of(final(records)@)),
        follows(links_of(final(records)@), id, layers_of(plan@)),
{
    let ghost h0 = links_of(records@);
    let ghost g0 = links_of(links@);
    proof {
        nothing_more(h0);
    }
    let ghost p = layers_of(plan@);
    let n: usize = plan.len();
    let mut d: usize = 0;
    while d < n
        invariant
            d <= n,
            n == plan@.len(),
            p == layers_of(plan@),
            site.wf(),
            grows_at(ground, site),
            graph_fits(site.levels@, site.m as int, links_of(links@)),
            ground.made(links_of(records@), links_of(links@)),
            is_plan(ground, id, p),
            ground.made(h0, g0),
            extends(h0, links_of(records@)),
            forall|e: int, j: int|
                0 <= e < d && 0 <= j < p[e].len() ==> both(
                    links_of(records@),
                    id,
                    n - 1 - e,
                    #[trigger] p[e][j],
                ),
        decreases n - d,
    {
        let layer: usize = n - 1 - d;
        let list: &Vec<u32> = &plan[d];
        assert(p[d as int] == list@);
        let mut j: usize = 0;
        while j < list.len()
            invariant
                d < n,
                j <= list@.len(),
                n == plan@.len(),
                p == layers_of(plan@),
                p[d as int] == list@,
                layer == n - 1 - d,
                site.wf(),
                grows_at(ground, site),
                graph_fits(site.levels@, site.m as int, links_of(links@)),
                ground.made(links_of(records@), links_of(links@)),
                is_plan(ground, id, p),
                ground.made(h0, g0),
                extends(h0, links_of(records@)),
                forall|e: int, i: int|
                    0 <= e <= d && 0 <= i < p[e].len() && (e < d || i < j) ==> both(
                        links_of(records@),
                        id,
                        n - 1 - e,
                        #[trigger] p[e][i],
                    ),
            decreases list@.len() - j,
        {
            let x: u32 = list[j];
            let ghost h = links_of(records@);
            let ghost g = links_of(links@);
            assert(picks(ground, id, layer as int, p[d as int][j as int]));
            connect_once::<A>(site, links, records, id, x, layer, Ghost(ground));
            let ghost a = links_of(records@);
            let ghost b = links_of(links@);
            connect_once::<A>(site, links, records, x, id, layer, Ghost(ground));
            proof {
                let now = links_of(records@);
                ground.shapes_agree(h0, g0, h, g);
                ground.shapes_agree(h, g, a, b);
                extending_twice(h, a, now);
                extending_twice(h0, h, now);
                assert forall|e: int, i: int|
                    0 <= e <= d && 0 <= i < p[e].len() && (e < d || i < j + 1) implies both(
                    now,
                    id,
                    n - 1 - e,
                    #[trigger] p[e][i],
                ) by {
                    assert(picks(ground, id, n - 1 - e, p[e][i]));
                    if e < d || i < j {
                        ground.both_stays(h, g, now, id, n - 1 - e, p[e][i]);
                    } else {
                        ground.link_stays(a, b, now, id, layer as int, x);
                    }
                }
            }
            j += 1;
        }
        d += 1;
    }
    proof {
        reveal(follows);
    }
}

/// Holds the records against the plans: each node from `first` on is joined, both ways, with all
/// that it selected.
fn follow_all<A: Arithmetic>(
    site: &Site,
    links: &mut Vec<Vec<Vec<u32>>>,
    records: &mut Vec<Vec<Vec<u32>>>,
    first: usize,
    plans: &Vec<Vec<Vec<u32>>>,
    Ghost(ground): Ghost<Ground>,
)
    requires
        site.wf(),
        grows_at(ground, site),
        graph_fits(site.levels@, site.m as int, links_of(old(links)@)),
        ground.made(links_of(old(records)@), links_of(old(links)@)),
        ground.first == first <= site.levels@.len(),
        plans@.len() == site.levels@.len() - first,
        forall|i: int|
            0 <= i < plans@.len() ==> is_plan(
                ground,
                (first + i) as u32,
                layers_of((#[trigger] plans@[i])@),
            ),
    ensures
        graph_fits(site.levels@, site.m as int, links_of(final(links)@)),
        ground.made(links_of(final(records)@), links_of(final(links)@)),
        forall|i: int|
            0 <= i < plans@.len() ==> follows(
                links_of(final(records)@),
                (first + i) as u32,
                layers_of((#[trigger] plans@[i])@),
            ),
{
    let n: usize = plans.len();
    proof {
        assert forall|i: int| 0 <= i < records@.len() implies (#[trigger] records@[i])@.len()
            == ground.levels[i] + 1 by {
            assert(links_of(records@)[i] == layers_of(records@[i]@));
            assert(node_fits(site.levels@, site.m as int, i, links_of(links@)[i]));
            assert(ground.made_node(i, links_of(records@)[i], links_of(links@)[i]));
        }
    }
    let followed: Vec<bool> = all_followed(records, first, plans, Ghost(ground));
    let mut i: usize = 0;
    while i < n
        invariant
            i <= n,
            n == plans@.len(),
            n == followed@.len(),
            site.wf(),
            grows_at(ground, site),
            graph_fits(site.levels@, site.m as int, links_of(links@)),
            ground.made(links_of(records@), links_of(links@)),
            first + n == site.levels@.len(),
            forall|j: int|
                0 <= j < n ==> is_plan(
                    ground,
                    (first + j) as u32,
                    layers_of((#[trigger] plans@[j])@),
                ),
            forall|j: int|
                0 <= j < n && (j < i || followed@[j]) ==> follows(
                    links_of(records@),
                    (first + j) as u32,
                    layers_of((#[trigger] plans@[j])@),
                ),
        decreases n - i,
    {
        let ghost h = links_of(records@);
        let ghost g = links_of(links@);
        assert(is_plan(ground, (first + i) as u32, layers_of(plans@[i as int]@)));
        if !followed[i] {
            follow::<A>(site, links, records, (first + i) as u32, &plans[i], Ghost(ground));
            proof {
                assert forall|j: int| 0 <= j < n && (j < i + 1 || followed@[j]) implies follows(
                    links_of(records@),
                    (first + j) as u32,
                    layers_of((#[trigger] plans@[j])@),
                ) by {
                    if j != i {
                        following_stays(
                            ground,
                            h,
                            g,
                            links_of(records@),
                            (first + j) as u32,
                            layers_of(plans@[j]@),
                        );
                    }
                }
            }
        }
        i += 1;
    }
}

/// Which nodes from `first` on are connected, both ways, with all of their plans.
fn all_followed(
    records: &Vec<Vec<Vec<u32>>>,
    first: usize,
    plans: &Vec<Vec<Vec<u32>>>,
    ground: Ghost<Ground>,
) -> (r: Vec<bool>)
    requires
        first + plans@.len() == ground@.levels.len() <= 0x1_0000_0000,
        forall|i: int|
            0 <= i < plans@.len() ==> is_plan(
                ground@,
                (first + i) as u32,
                layers_of((#[trigger] plans@[i])@),
            ),
        records@.len() == ground@.levels.len(),
        forall|i: int|
            0 <= i < records@.len() ==> (#[trigger] records@[i])@.len() == ground@.levels[i] + 1,
    ensures
        r@.len() == plans@.len(),
        forall|i: int|
            0 <= i < plans@.len() && r@[i] ==> follows(
                links_of(records@),
                (first + i) as u32,
                layers_of((#[trigger] plans@[i])@),
            ),
{
    let n: usize = plans.len();
    let look = |i: usize| -> (r: bool)
        requires
            i < n,
            n == plans@.len(),
            first + n == ground@.levels.len(),
            first + n <= 0x1_0000_0000,
            is_plan(ground@, (first + i) as u32, layers_of(plans@[i as int]@)),
            records@.len() == ground@.levels.len(),
            forall|i: int|
                0 <= i < records@.len() ==> (#[trigger] records@[i])@.len() == ground@.levels[i]
                    + 1,
        ensures
            r ==> follows(links_of(records@), (first + i) as u32, layers_of(plans@[i as int]@)),
        { is_followed(records, (first + i) as u32, &plans[i], ground) };
    let r: Vec<bool> = par_map(n, look);
    assert forall|i: int| 0 <= i < plans@.len() && r@[i] implies follows(
        links_of(records@),
        (first + i) as u32,
        layers_of((#[trigger] plans@[i])@),
    ) by {
        assert(call_ensures(look, (i as usize,), r@[i as usize as int]));
    }
    r
}

/// A node that followed its plan was linked, and has neighbors.
proof fn following_links(
    ground: Ground,
    history: Seq<Seq<Seq<u32>>>,
    links: Seq<Seq<Seq<u32>>>,
    id: u32,
    plan: Seq<Seq<u32>>,
)
    requires
        ground.m >= 1,
        ground.made(history, links),
        graph_fits(ground.levels, ground.m, links),
        graph_fits(ground.levels, ground.m, ground.before),
        id < ground.levels.len(),
        is_plan(ground, id, plan),
        follows(history, id, plan),
    ensures
        ground.was_linked(history, id),
        has_neighbors(
            links[id as int],
            lower(ground.levels[id as int], ground.levels[ground.start as int]),
        ),
{
    reveal(follows);
    let i = id as int;
    let n = plan.len() as int;
    let c = choose|c: Course| #[trigger] is_plan_on(ground, id, plan, c);
    assert forall|d: int| 0 <= d < c.found.len() implies #[trigger] ground.is_joined(
        history,
        id,
        c,
        d,
    ) by {
        let l = ground.layer(id, c, d);
        assert(plan[d] == ground.chosen(id, c, d));
        assert forall|x: u32| #[trigger] ground.chosen(id, c, d).contains(x) implies sits_at(
            ground.levels,
            x,
            l,
        ) && both(history, id, l, x) by {
            let j = choose|j: int| 0 <= j < plan[d].len() && plan[d][j] == x;
            assert(picks(ground, id, n - 1 - d, plan[d][j]));
            assert(both(history, id, n - 1 - d, plan[d][j]));
        }
    }
    assert(ground.is_full_course(id, c));
    assert(node_fits(ground.levels, ground.m, i, links[i]));
    assert(node_fits(ground.levels, ground.m, i, ground.before[i]));
    assert(ground.made_node(i, history[i], links[i]));
    assert forall|l: int|
        0 <= l <= lower(
            ground.levels[i],
            ground.levels[ground.start as int],
        ) implies (#[trigger] links[i][l]).len() > 0 by {
        let d = n - 1 - l;
        assert(plan[d].len() > 0);
        assert(both(history, id, n - 1 - d, plan[d][0]));
        assert(history[i][l].contains(plan[d][0]));
        assert(ground.makes(i, l, history[i][l], links[i][l]));
        assert(list_fits(ground.levels, ground.m, i, l, ground.before[i][l]));
        connections_bring_no_others(
            ground.store,
            id,
            ground.before[i][l],
            history[i][l],
            share(ground.m, l),
        );
    }
}

/// Links all nodes from `first` on, at once. The lists are what connections made of those
/// before, by which each of these nodes was joined with all that it selected. The entry point is
/// the one before, or a new node that is higher.
pub(crate) fn link_all<A: Arithmetic>(
    site: &Site,
    links: Vec<Vec<Vec<u32>>>,
    first: usize,
    entry: u32,
    max_level: usize,
    ground: Ghost<Ground>,
) -> (r: (Vec<Vec<Vec<u32>>>, u32, usize))
    requires
        site.wf(),
        grows_at(ground@, site),
        graph_fits(site.levels@, site.m as int, links_of(links@)),
        ground@.before == links_of(links@),
        ground@.first == first <= site.levels@.len(),
        ground@.start == entry < first,
        site.levels@[entry as int] == max_level,
    ensures
        graph_fits(site.levels@, site.m as int, links_of(r.0@)),
        ground@.all_linked(links_of(r.0@)),
        forall|i: int|
            first <= i < site.levels@.len() ==> has_neighbors(
                #[trigger] links_of(r.0@)[i],
                lower(site.levels@[i], max_level),
            ),
        r.1 < site.levels@.len(),
        site.levels@[r.1 as int] == r.2,
        r.1 == entry || r.1 >= first && r.2 > max_level,
{
    let n: usize = site.levels.len();
    let rule: Ghost<EntryRule> = Ghost(EntryRule { ground: ground@ });
    let locks: Vec<RwLock<Box<Lists>, NodeRule>> = lock_all(links, ground);
    let point: RwLock<(u32, usize), EntryRule> = RwLock::new((entry, max_level), rule);
    let link = |i: usize| -> (plan: Vec<Vec<u32>>)
        requires
            i < n - first,
            ground@.first == first <= n,
            ground@.start == entry < first,
            n == site.store@.len(),
            site.wf(),
            grows_at(ground@, site),
            locks_fit(locks@, ground@),
            point.pred() == rule@,
            rule@ == (EntryRule { ground: ground@ }),
        ensures
            is_plan(ground@, (first + i) as u32, layers_of(plan@)),
        {
            link_shared::<A>(site, &locks, &point, (first + i) as u32, entry, first, ground)
        };
    let plans: Vec<Vec<Vec<u32>>> = par_map(n - first, link);
    proof {
        assert forall|i: int| 0 <= i < plans@.len() implies is_plan(
            ground@,
            (first + i) as u32,
            layers_of((#[trigger] plans@[i])@),
        ) by {
            assert(call_ensures(link, (i as usize,), plans@[i as usize as int]));
        }
    }
    let (point, top) = point.into_inner();
    let (links, records) = unlock_all(locks, ground);
    let mut links: Vec<Vec<Vec<u32>>> = links;
    let mut records: Vec<Vec<Vec<u32>>> = records;
    follow_all::<A>(site, &mut links, &mut records, first, &plans, ground);
    proof {
        let h = links_of(records@);
        let g = links_of(links@);
        assert forall|i: int| first <= i < n implies #[trigger] ground@.was_linked(h, i as u32)
            && has_neighbors(g[i], lower(site.levels@[i], max_level)) by {
            let plan = layers_of(plans@[i - first]@);
            assert((first + (i - first)) as u32 == i as u32);
            following_links(ground@, h, g, i as u32, plan);
        }
        assert forall|i: int| first <= i < site.levels@.len() implies has_neighbors(
            #[trigger] links_of(links@)[i],
            lower(site.levels@[i], max_level),
        ) by {
            assert(ground@.was_linked(h, i as u32));
        }
        assert(ground@.made(h, g));
    }
    (links, point, top)
}

} // verus!
