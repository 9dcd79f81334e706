//! Binary heaps of candidates.

use vstd::prelude::*;
use vstd::relations::sorted_by;
use vstd::seq_lib::group_to_multiset_ensures;
use crate::ranked::{
    ascending, ascending_is_unique, first, inserted, inserted_is_ascending, le, le_is_total,
};

verus! {

/// A heap with the largest candidate on top.
pub struct MaxHeap {
    data: Vec<u128>,
}

/// Every element but the one at `i` is at most its parent, and the children of `i` are at
/// most the parent of `i`.
spec fn ordered_but_above(s: Seq<u128>, i: int) -> bool {
    &&& forall|j: int| 0 < j < s.len() && j != i ==> #[trigger] s[j] <= s[(j - 1) / 2]
    &&& i > 0 ==> forall|j: int|
        0 < j < s.len() && (j - 1) / 2 == i ==> #[trigger] s[j] <= s[(i - 1) / 2]
}

/// Every element but the children of the one at `i` is at most its parent, and the children
/// of `i` are at most the parent of `i`.
spec fn ordered_but_below(s: Seq<u128>, i: int) -> bool {
    &&& forall|j: int| 0 < j < s.len() && (j - 1) / 2 != i ==> #[trigger] s[j] <= s[(j - 1) / 2]
    &&& i > 0 ==> forall|j: int|
        0 < j < s.len() && (j - 1) / 2 == i ==> #[trigger] s[j] <= s[(i - 1) / 2]
}

/// Every element is at most its parent.
spec fn ordered(s: Seq<u128>) -> bool {
    forall|j: int| 0 < j < s.len() ==> #[trigger] s[j] <= s[(j - 1) / 2]
}

spec fn swapped(s: Seq<u128>, i: int, j: int) -> Seq<u128> {
    s.update(i, s[j]).update(j, s[i])
}

proof fn swapped_same(s: Seq<u128>, i: int, j: int)
    requires
        0 <= i < s.len(),
        0 <= j < s.len(),
        i != j,
    ensures
        swapped(s, i, j).to_multiset() == s.to_multiset(),
{
    broadcast use group_to_multiset_ensures;

    let t = s.update(i, s[j]);
    assert(t.to_multiset() == s.to_multiset().insert(s[j]).remove(s[i]));
    assert(t.update(j, s[i]).to_multiset() == t.to_multiset().insert(s[i]).remove(t[j]));
    assert(s.to_multiset().count(s[i]) > 0);
    assert(s.to_multiset().count(s[j]) > 0);
    assert(swapped(s, i, j).to_multiset() =~= s.to_multiset());
}

proof fn top_is_largest(s: Seq<u128>, j: int)
    requires
        ordered(s),
        0 <= j < s.len(),
    ensures
        s[j] <= s[0],
    decreases j,
{
    if j > 0 {
        top_is_largest(s, (j - 1) / 2);
    }
}

/// An element that is no less than its children is where it belongs.
proof fn settles(s: Seq<u128>, i: int)
    requires
        0 <= i < s.len(),
        ordered_but_below(s, i),
        2 * i + 1 < s.len() ==> s[2 * i + 1] <= s[i],
        2 * i + 2 < s.len() ==> s[2 * i + 2] <= s[i],
    ensures
        ordered(s),
{
    assert forall|j: int| 0 < j < s.len() implies #[trigger] s[j] <= s[(j - 1) / 2] by {
        if (j - 1) / 2 == i {
            assert(j == 2 * i + 1 || j == 2 * i + 2);
        }
    }
}

/// An element that is less than one of its children changes places with the larger one.
proof fn sinks(s: Seq<u128>, i: int, c: int)
    requires
        0 <= i < c < s.len(),
        c == 2 * i + 1 || c == 2 * i + 2,
        ordered_but_below(s, i),
        s[i] <= s[c],
        s[2 * i + 1] <= s[c],
        2 * i + 2 < s.len() ==> s[2 * i + 2] <= s[c],
    ensures
        ordered_but_below(swapped(s, i, c), c),
        swapped(s, i, c).to_multiset() == s.to_multiset(),
{
    swapped_same(s, i, c);
    let d = swapped(s, i, c);
    assert forall|j: int| 0 < j < d.len() && (j - 1) / 2 != c implies #[trigger] d[j] <= d[(j - 1)
        / 2] by {
        let q = (j - 1) / 2;
        if q == i {
            assert(j == 2 * i + 1 || j == 2 * i + 2);
        } else if j == i {
            assert(s[c] <= s[(i - 1) / 2]);
        } else {
            assert(s[j] <= s[q]);
        }
    }
    assert forall|j: int| 0 < j < d.len() && (j - 1) / 2 == c implies #[trigger] d[j] <= d[(c - 1)
        / 2] by {
        assert(s[j] <= s[c]);
    }
}

/// An element that is larger than its parent changes places with it.
proof fn rises(s: Seq<u128>, i: int, p: int)
    requires
        0 <= p < i < s.len(),
        p == (i - 1) / 2,
        ordered_but_above(s, i),
        s[p] <= s[i],
    ensures
        ordered_but_above(swapped(s, p, i), p),
        swapped(s, p, i).to_multiset() == s.to_multiset(),
{
    swapped_same(s, p, i);
    let d = swapped(s, p, i);
    assert forall|j: int| 0 < j < d.len() && j != p implies #[trigger] d[j] <= d[(j - 1) / 2] by {
        let q = (j - 1) / 2;
        if j != i {
            assert(s[j] <= s[q]);
            if q == i {
                assert(s[j] <= s[p]);
            }
        }
    }
    if p > 0 {
        assert(s[p] <= s[(p - 1) / 2]);
        assert forall|j: int| 0 < j < d.len() && (j - 1) / 2 == p implies #[trigger] d[j] <= d[(p
            - 1) / 2] by {
            if j != i {
                assert(s[j] <= s[p]);
            }
        }
    }
}

/// Lets `x` take the place of the first element and moves it down to where it belongs.
fn sift_down(data: &mut Vec<u128>, x: u128)
    requires
        old(data)@.len() > 0,
        ordered_but_below(old(data)@.update(0, x), 0),
    ensures
        ordered(final(data)@),
        final(data)@.to_multiset() == old(data)@.update(0, x).to_multiset(),
{
    let n: usize = data.len();
    let ghost m0 = data@.update(0, x).to_multiset();
    let mut i: usize = 0;
    loop
        invariant_except_break
            ordered_but_below(data@.update(i as int, x), i as int),
        invariant
            i < n,
            n == data@.len(),
            data@.update(i as int, x).to_multiset() == m0,
        ensures
            ordered(data@.update(i as int, x)),
        decreases n - i,
    {
        if i >= n / 2 {
            break;
        }
        let ghost t = data@.update(i as int, x);
        let l: usize = 2 * i + 1;
        let left: u128 = data[l];
        let right: u128 = if l + 1 < n {
            data[l + 1]
        } else {
            left
        };
        let c: usize = if right > left {
            l + 1
        } else {
            l
        };
        let y: u128 = if right > left {
            right
        } else {
            left
        };
        if x >= y {
            proof {
                settles(t, i as int);
            }
            break;
        }
        data.set(i, y);
        proof {
            assert(data@.update(c as int, x) =~= swapped(t, i as int, c as int));
            sinks(t, i as int, c as int);
        }
        i = c;
    }
    data.set(i, x);
}

impl View for MaxHeap {
    type V = Seq<u128>;

    /// The contents in ascending order.
    closed spec fn view(&self) -> Seq<u128> {
        self.data@.sort_by(le())
    }
}

impl MaxHeap {
    #[verifier::type_invariant]
    spec fn inv(self) -> bool {
        ordered(self.data@)
    }

    proof fn view_sorts(self)
        ensures
            ascending(self@),
            self@.to_multiset() == self.data@.to_multiset(),
            self@.len() == self.data@.len(),
    {
        broadcast use group_to_multiset_ensures;

        le_is_total();
        self.data@.lemma_sort_by_ensures(le());
        assert(self@.to_multiset().len() == self@.len());
        assert(self.data@.to_multiset().len() == self.data@.len());
        assert(sorted_by(self@, le()));
        assert forall|i: int, j: int| 0 <= i <= j < self@.len() implies self@[i] <= self@[j] by {
            if i < j {
                assert(le()(self@[i], self@[j]));
            }
        }
    }

    proof fn top_is_last(self)
        requires
            ordered(self.data@),
            self.data@.len() > 0,
        ensures
            self@.last() == self.data@[0],
    {
        broadcast use group_to_multiset_ensures;

        self.view_sorts();
        let s = self.data@;
        let t = self@;
        assert(s.to_multiset().count(s[0]) > 0);
        assert(t.contains(s[0]));
        assert(t.to_multiset().count(t.last()) > 0);
        assert(s.contains(t.last()));
        let j = choose|j: int| 0 <= j < s.len() && s[j] == t.last();
        top_is_largest(s, j);
    }

    /// An empty heap.
    pub fn new() -> (r: Self)
        ensures
            r@ == Seq::<u128>::empty(),
    {
        let r = MaxHeap { data: Vec::new() };
        proof {
            r.view_sorts();
            assert(r@ =~= Seq::<u128>::empty());
        }
        r
    }

    /// How many candidates there are.
    #[inline]
    pub fn len(&self) -> (r: usize)
        ensures
            r == self@.len(),
            ascending(self@),
    {
        proof {
            self.view_sorts();
        }
        self.data.len()
    }

    /// The largest candidate.
    #[inline]
    pub fn peek(&self) -> (r: Option<u128>)
        ensures
            ascending(self@),
            self@.len() == 0 ==> r is None,
            self@.len() > 0 ==> r == Some(self@.last()),
    {
        proof {
            use_type_invariant(self);
            self.view_sorts();
            if self@.len() > 0 {
                self.top_is_last();
            }
        }
        if self.data.len() == 0 {
            None
        } else {
            Some(self.data[0])
        }
    }

    /// Adds a candidate.
    pub fn push(&mut self, x: u128)
        ensures
            final(self)@ == inserted(old(self)@, x),
            ascending(final(self)@),
    {
        proof {
            use_type_invariant(&*self);
            self.view_sorts();
        }
        let ghost before = self@;
        let ghost s0 = self.data@;
        let mut data: Vec<u128> = Vec::new();
        std::mem::swap(&mut data, &mut self.data);
        data.push(x);
        let mut i: usize = data.len() - 1;
        proof {
            broadcast use group_to_multiset_ensures;

            assert(data@.update(i as int, x) =~= data@);
        }
        while i > 0
            invariant_except_break
                ordered_but_above(data@.update(i as int, x), i as int),
            invariant
                i < data@.len(),
                data@.update(i as int, x).to_multiset() == s0.to_multiset().insert(x),
            ensures
                ordered(data@.update(i as int, x)),
            decreases i,
        {
            let p: usize = (i - 1) / 2;
            let y: u128 = data[p];
            if y >= x {
                break;
            }
            let ghost t = data@.update(i as int, x);
            data.set(i, y);
            proof {
                assert(data@.update(p as int, x) =~= swapped(t, p as int, i as int));
                rises(t, i as int, p as int);
            }
            i = p;
        }
        data.set(i, x);
        self.data = data;
        proof {
            self.view_sorts();
            inserted_is_ascending(before, x);
            ascending_is_unique(self@, inserted(before, x));
        }
    }

    /// Lets a candidate take the place of the largest, which is larger.
    fn replace_top(&mut self, x: u128)
        requires
            old(self)@.len() > 0,
            x < old(self)@.last(),
        ensures
            final(self)@ == inserted(old(self)@.drop_last(), x),
            ascending(final(self)@),
    {
        proof {
            use_type_invariant(&*self);
            self.view_sorts();
            self.top_is_last();
        }
        let ghost before = self@;
        let ghost s0 = self.data@;
        let ghost rest = before.drop_last();
        let mut data: Vec<u128> = Vec::new();
        std::mem::swap(&mut data, &mut self.data);
        proof {
            broadcast use group_to_multiset_ensures;

            let t = s0.update(0, x);
            assert(before =~= rest.push(before.last()));
            assert(t.to_multiset() == s0.to_multiset().insert(x).remove(s0[0]));
            assert(before.to_multiset() == rest.to_multiset().insert(before.last()));
            assert(t.to_multiset() =~= rest.to_multiset().insert(x));
            assert forall|j: int| 0 < j < t.len() && (j - 1) / 2 != 0 implies #[trigger] t[j] <= t[(j
                - 1) / 2] by {
                assert(s0[j] <= s0[(j - 1) / 2]);
            }
        }
        sift_down(&mut data, x);
        self.data = data;
        proof {
            self.view_sorts();
            assert(ascending(rest));
            inserted_is_ascending(rest, x);
            ascending_is_unique(self@, inserted(rest, x));
        }
    }

    /// Adds a candidate to at most `n`, of which the smallest `n` are kept.
    #[inline]
    pub fn push_within(&mut self, x: u128, n: usize)
        requires
            old(self)@.len() <= n,
        ensures
            final(self)@ == first(inserted(old(self)@, x), n as int),
            ascending(final(self)@),
    {
        let ghost before = self@;
        proof {
            self.view_sorts();
            inserted_is_ascending(before, x);
        }
        if self.data.len() < n {
            self.push(x);
            assert(self@ =~= first(inserted(before, x), n as int));
            return;
        }
        if let Some(top) = self.peek() {
            if x < top {
                self.replace_top(x);
                assert(inserted(before, x) == inserted(before.drop_last(), x).push(before.last()));
                assert(self@ =~= first(inserted(before, x), n as int));
                return;
            }
        }
        assert(before =~= first(inserted(before, x), n as int));
    }

    /// Takes the largest candidate out.
    pub fn pop(&mut self) -> (r: Option<u128>)
        ensures
            ascending(final(self)@),
            old(self)@.len() == 0 ==> r is None && final(self)@ == old(self)@,
            old(self)@.len() > 0 ==> r == Some(old(self)@.last()) && final(self)@ == old(
                self,
            )@.drop_last(),
    {
        let top: Option<u128> = self.peek();
        proof {
            use_type_invariant(&*self);
            self.view_sorts();
        }
        let ghost before = self@;
        let ghost s0 = self.data@;
        if self.data.len() == 0 {
            return None;
        }
        proof {
            self.top_is_last();
        }
        let mut data: Vec<u128> = Vec::new();
        std::mem::swap(&mut data, &mut self.data);
        let last: u128 = data[data.len() - 1];
        let _ = data.pop();
        let n: usize = data.len();
        let ghost rest = before.drop_last();
        proof {
            broadcast use group_to_multiset_ensures;

            assert(s0 =~= data@.push(last));
            assert(before =~= rest.push(before.last()));
            assert(s0.to_multiset() == data@.to_multiset().insert(last));
            assert(before.to_multiset() == rest.to_multiset().insert(before.last()));
        }
        if n > 0 {
            let ghost t0 = data@;
            proof {
                broadcast use group_to_multiset_ensures;

                let t = t0.update(0, last);
                assert(t0[0] == before.last());
                assert(t.to_multiset() == t0.to_multiset().insert(last).remove(t0[0]));
                assert(t.to_multiset() =~= rest.to_multiset());
                assert forall|j: int| 0 < j < t.len() && (j - 1) / 2 != 0 implies #[trigger] t[j]
                    <= t[(j - 1) / 2] by {
                    assert(s0[j] <= s0[(j - 1) / 2]);
                }
            }
            sift_down(&mut data, last);
        }
        self.data = data;
        proof {
            self.view_sorts();
            broadcast use group_to_multiset_ensures;

            if n == 0 {
                assert(self@ =~= rest);
            }
            ascending_is_unique(self@, rest);
        }
        top
    }

    /// The candidates in ascending order.
    pub fn into_sorted_vec(self) -> (r: Vec<u128>)
        ensures
            r@ == self@,
            ascending(r@),
    {
        let mut heap = self;
        let ghost all = heap@;
        let mut n: usize = heap.len();
        let mut out: Vec<u128> = vec![0; n];
        while n > 0
            invariant
                n == heap@.len(),
                n <= all.len(),
                out@.len() == all.len(),
                heap@ == all.take(n as int),
                forall|i: int| n <= i < all.len() ==> #[trigger] out@[i] == all[i],
            decreases n,
        {
            let top: Option<u128> = heap.pop();
            if let Some(x) = top {
                out.set(n - 1, x);
            }
            n -= 1;
            assert(all.take(n + 1).drop_last() =~= all.take(n as int));
        }
        assert(out@ =~= all);
        out
    }
}

/// Candidates in the opposite order.
pub open spec fn mirrored(s: Seq<u128>) -> Seq<u128> {
    Seq::new(s.len(), |i: int| (u128::MAX - s[s.len() - 1 - i]) as u128)
}

proof fn mirrored_inserted(s: Seq<u128>, x: u128)
    requires
        ascending(s),
    ensures
        mirrored(inserted(s, x)) == inserted(mirrored(s), (u128::MAX - x) as u128),
        ascending(mirrored(s)),
    decreases s.len(),
{
    let y = (u128::MAX - x) as u128;
    let a = mirrored(inserted(s, x));
    let b = inserted(mirrored(s), y);
    inserted_is_ascending(s, x);
    assert(ascending(mirrored(s)));
    inserted_is_ascending(mirrored(s), y);
    mirrored_same(inserted(s, x));
    mirrored_same(s);
    assert(inserted(s, x).to_multiset() == s.to_multiset().insert(x));
    assert forall|v: u128| a.to_multiset().count(v) == b.to_multiset().count(v) by {
        let w = (u128::MAX - v) as u128;
        assert(a.to_multiset().count(v) == inserted(s, x).to_multiset().count(w));
        assert(mirrored(s).to_multiset().count(v) == s.to_multiset().count(w));
    }
    assert(a.to_multiset() =~= b.to_multiset());
    ascending_is_unique(a, b);
}

proof fn mirrored_same(s: Seq<u128>)
    ensures
        forall|v: u128|
            #[trigger] mirrored(s).to_multiset().count(v) == s.to_multiset().count(
                (u128::MAX - v) as u128,
            ),
    decreases s.len(),
{
    broadcast use group_to_multiset_ensures;

    if s.len() == 0 {
        assert(s =~= Seq::<u128>::empty());
        assert(mirrored(s) =~= Seq::<u128>::empty());
        assert(s.to_multiset().len() == 0);
        assert forall|v: u128| #[trigger] mirrored(s).to_multiset().count(v) == s.to_multiset().count(
            (u128::MAX - v) as u128,
        ) by {
            assert(!mirrored(s).contains(v));
            assert(!s.contains((u128::MAX - v) as u128));
        }
    } else {
        let t = s.drop_last();
        let y = (u128::MAX - s.last()) as u128;
        mirrored_same(t);
        assert(s =~= t.push(s.last()));
        assert(mirrored(s) =~= mirrored(t).insert(0, y));
        assert(mirrored(s).to_multiset() == mirrored(t).to_multiset().insert(y));
        assert(s.to_multiset() == t.to_multiset().insert(s.last()));
    }
}

/// A heap with the smallest candidate on top.
pub struct MinHeap {
    heap: MaxHeap,
}

impl View for MinHeap {
    type V = Seq<u128>;

    /// The contents in ascending order.
    closed spec fn view(&self) -> Seq<u128> {
        mirrored(self.heap@)
    }
}

impl MinHeap {
    /// An empty heap.
    pub fn new() -> (r: Self)
        ensures
            r@ == Seq::<u128>::empty(),
    {
        let r = MinHeap { heap: MaxHeap::new() };
        assert(r@ =~= Seq::<u128>::empty());
        r
    }

    /// Adds a candidate.
    #[inline]
    pub fn push(&mut self, x: u128)
        ensures
            final(self)@ == inserted(old(self)@, x),
            ascending(final(self)@),
    {
        let y: u128 = u128::MAX - x;
        proof {
            self.heap.view_sorts();
            mirrored_inserted(self.heap@, y);
            inserted_is_ascending(mirrored(self.heap@), x);
        }
        self.heap.push(y);
    }

    /// Takes the smallest candidate out.
    #[inline]
    pub fn pop(&mut self) -> (r: Option<u128>)
        ensures
            ascending(final(self)@),
            old(self)@.len() == 0 ==> r is None && final(self)@ == old(self)@,
            old(self)@.len() > 0 ==> r == Some(old(self)@[0]) && final(self)@ == old(
                self,
            )@.drop_first(),
    {
        let ghost before = self@;
        let ghost h = self.heap@;
        let top: Option<u128> = self.heap.pop();
        proof {
            if h.len() > 0 {
                assert(self@ =~= before.drop_first());
            }
        }
        match top {
            Some(y) => Some(u128::MAX - y),
            None => None,
        }
    }
}

} // verus!
