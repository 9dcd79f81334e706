//! How indexes are laid out as bytes.
//!
//! Integers have a fixed number of bytes, the lowest first. A list is its length, in eight
//! bytes, then its elements. Everything else is its fields, one after the other, so what
//! starts with the bytes of something starts with the bytes of nothing else of that kind.

use vstd::prelude::*;

verus! {

/// Why bytes are no index.
#[derive(Clone, Copy, Debug, PartialEq, Eq, Structural)]
pub enum LoadError {
    /// They do not start with the parts of an index.
    Malformed,
    /// The parts do not belong together.
    Inconsistent,
}

/// An integer in `n` bytes, the lowest first.
pub open spec fn le(x: int, n: nat) -> Seq<u8>
    decreases n,
{
    if n == 0 {
        Seq::empty()
    } else {
        seq![(x % 256) as u8] + le(x / 256, (n - 1) as nat)
    }
}

/// Elements one after the other.
pub open spec fn items<T>(f: spec_fn(T) -> Seq<u8>, s: Seq<T>) -> Seq<u8>
    decreases s.len(),
{
    if s.len() == 0 {
        Seq::empty()
    } else {
        f(s[0]) + items(f, s.drop_first())
    }
}

/// A list: its length, then its elements.
pub open spec fn list<T>(f: spec_fn(T) -> Seq<u8>, s: Seq<T>) -> Seq<u8> {
    le(s.len() as int, 8) + items(f, s)
}

/// A byte.
pub open spec fn byte() -> spec_fn(u8) -> Seq<u8> {
    |x: u8| seq![x]
}

/// A 32-bit number.
pub open spec fn word() -> spec_fn(u32) -> Seq<u8> {
    |x: u32| le(x as int, 4)
}

/// A count.
pub open spec fn count() -> spec_fn(usize) -> Seq<u8> {
    |x: usize| le(x as int, 8)
}

/// A list of 32-bit numbers.
pub open spec fn words() -> spec_fn(Seq<u32>) -> Seq<u8> {
    |s: Seq<u32>| list(word(), s)
}

/// A list of lists of 32-bit numbers.
pub open spec fn word_lists() -> spec_fn(Seq<Seq<u32>>) -> Seq<u8> {
    |s: Seq<Seq<u32>>| list(words(), s)
}

/// A 32-bit number that may be missing: a byte that says whether it is there, and if so the
/// number.
pub open spec fn maybe_word(x: Option<u32>) -> Seq<u8> {
    match x {
        None => seq![0u8],
        Some(w) => seq![1u8] + le(w as int, 4),
    }
}

/// Bytes start with others.
pub open spec fn starts(bytes: Seq<u8>, with: Seq<u8>) -> bool {
    with.len() <= bytes.len() && bytes.take(with.len() as int) == with
}

/// What can be told from the bytes that follow it.
pub open spec fn is_delimited<T>(f: spec_fn(T) -> Seq<u8>, ok: spec_fn(T) -> bool) -> bool {
    forall|x: T, y: T, s: Seq<u8>, t: Seq<u8>|
        ok(x) && ok(y) && #[trigger] (f(x) + s) == #[trigger] (f(y) + t) ==> x == y && s == t
}

/// Bytes that start with others are these and a rest.
pub proof fn starts_means(bytes: Seq<u8>, with: Seq<u8>)
    requires
        starts(bytes, with),
    ensures
        bytes == with + bytes.skip(with.len() as int),
{
    assert(bytes =~= with + bytes.skip(with.len() as int));
}

/// Equal bytes that start with parts of one length have equal parts, and equal rests.
proof fn same_parts(a: Seq<u8>, s: Seq<u8>, b: Seq<u8>, t: Seq<u8>)
    requires
        a + s == b + t,
        a.len() == b.len(),
    ensures
        a == b,
        s == t,
{
    assert(a =~= (a + s).take(a.len() as int));
    assert(b =~= (b + t).take(b.len() as int));
    assert(s =~= (a + s).skip(a.len() as int));
    assert(t =~= (b + t).skip(b.len() as int));
}

/// The first of several parts can be taken off.
pub proof fn peel(a: Seq<u8>, b: Seq<u8>, rest: Seq<u8>)
    ensures
        (a + b) + rest == a + (b + rest),
{
    assert((a + b) + rest =~= a + (b + rest));
}

pub proof fn le_has_length(x: int, n: nat)
    ensures
        le(x, n).len() == n,
    decreases n,
{
    if n > 0 {
        le_has_length(x / 256, (n - 1) as nat);
    }
}

/// How many integers fit in `n` bytes.
pub open spec fn le_range(n: nat) -> int
    decreases n,
{
    if n == 0 {
        1
    } else {
        256 * le_range((n - 1) as nat)
    }
}

/// The bytes of an integer name it.
pub proof fn le_is_exact(x: int, y: int, n: nat)
    requires
        le(x, n) == le(y, n),
        0 <= x < le_range(n),
        0 <= y < le_range(n),
    ensures
        x == y,
    decreases n,
{
    if n > 0 {
        let m = (n - 1) as nat;
        assert(le(x, n)[0] == (x % 256) as u8);
        assert(le(y, n)[0] == (y % 256) as u8);
        assert(x % 256 == y % 256);
        assert(le(x, n).drop_first() =~= le(x / 256, m));
        assert(le(y, n).drop_first() =~= le(y / 256, m));
        le_is_exact(x / 256, y / 256, m);
    }
}

/// Integers in a fixed number of bytes.
pub proof fn le_delimits(x: int, y: int, n: nat, s: Seq<u8>, t: Seq<u8>)
    requires
        le(x, n) + s == le(y, n) + t,
        0 <= x < le_range(n),
        0 <= y < le_range(n),
    ensures
        x == y,
        s == t,
{
    le_has_length(x, n);
    le_has_length(y, n);
    same_parts(le(x, n), s, le(y, n), t);
    le_is_exact(x, y, n);
}

/// The ranges in use.
pub proof fn le_ranges()
    ensures
        le_range(4) == 0x1_0000_0000,
        le_range(8) == 0x1_0000_0000_0000_0000,
{
    reveal_with_fuel(le_range, 9);
}

pub proof fn byte_delimits()
    ensures
        is_delimited(byte(), |x: u8| true),
{
    assert forall|x: u8, y: u8, s: Seq<u8>, t: Seq<u8>| #[trigger] (byte()(x) + s)
        == #[trigger] (byte()(y) + t) implies x == y && s == t by {
        same_parts(seq![x], s, seq![y], t);
        assert(seq![x][0] == seq![y][0]);
    }
}

pub proof fn word_delimits()
    ensures
        is_delimited(word(), |x: u32| true),
{
    le_ranges();
    assert forall|x: u32, y: u32, s: Seq<u8>, t: Seq<u8>| #[trigger] (word()(x) + s)
        == #[trigger] (word()(y) + t) implies x == y && s == t by {
        le_delimits(x as int, y as int, 4, s, t);
    }
}

pub proof fn count_delimits()
    ensures
        is_delimited(count(), |x: usize| true),
{
    le_ranges();
    assert forall|x: usize, y: usize, s: Seq<u8>, t: Seq<u8>| #[trigger] (count()(x) + s)
        == #[trigger] (count()(y) + t) implies x == y && s == t by {
        le_delimits(x as int, y as int, 8, s, t);
    }
}

/// Equally many elements.
proof fn items_delimit<T>(
    f: spec_fn(T) -> Seq<u8>,
    ok: spec_fn(T) -> bool,
    a: Seq<T>,
    b: Seq<T>,
    s: Seq<u8>,
    t: Seq<u8>,
)
    requires
        is_delimited(f, ok),
        forall|i: int| 0 <= i < a.len() ==> ok(#[trigger] a[i]),
        forall|i: int| 0 <= i < b.len() ==> ok(#[trigger] b[i]),
        a.len() == b.len(),
        items(f, a) + s == items(f, b) + t,
    ensures
        a == b,
        s == t,
    decreases a.len(),
{
    if a.len() == 0 {
        assert(items(f, a) + s =~= s);
        assert(items(f, b) + t =~= t);
        assert(a =~= b);
    } else {
        let a1 = a.drop_first();
        let b1 = b.drop_first();
        let s1 = items(f, a1) + s;
        let t1 = items(f, b1) + t;
        assert(items(f, a) + s =~= f(a[0]) + s1);
        assert(items(f, b) + t =~= f(b[0]) + t1);
        assert(ok(a[0]) && ok(b[0]));
        assert(a[0] == b[0] && s1 == t1);
        assert forall|i: int| 0 <= i < a1.len() implies ok(#[trigger] a1[i]) by {
            assert(ok(a[i + 1]));
        }
        assert forall|i: int| 0 <= i < b1.len() implies ok(#[trigger] b1[i]) by {
            assert(ok(b[i + 1]));
        }
        items_delimit(f, ok, a1, b1, s, t);
        assert(a =~= seq![a[0]] + a1);
        assert(b =~= seq![b[0]] + b1);
    }
}

/// Lists whose length fits in eight bytes.
pub proof fn list_delimits<T>(
    f: spec_fn(T) -> Seq<u8>,
    ok: spec_fn(T) -> bool,
    a: Seq<T>,
    b: Seq<T>,
    s: Seq<u8>,
    t: Seq<u8>,
)
    requires
        is_delimited(f, ok),
        forall|i: int| 0 <= i < a.len() ==> ok(#[trigger] a[i]),
        forall|i: int| 0 <= i < b.len() ==> ok(#[trigger] b[i]),
        a.len() <= usize::MAX,
        b.len() <= usize::MAX,
        list(f, a) + s == list(f, b) + t,
    ensures
        a == b,
        s == t,
{
    le_ranges();
    let n = le(a.len() as int, 8);
    let m = le(b.len() as int, 8);
    assert(list(f, a) + s =~= n + (items(f, a) + s));
    assert(list(f, b) + t =~= m + (items(f, b) + t));
    le_delimits(a.len() as int, b.len() as int, 8, items(f, a) + s, items(f, b) + t);
    items_delimit(f, ok, a, b, s, t);
}

/// Lists of bytes.
pub proof fn byte_list_delimits(a: Seq<u8>, b: Seq<u8>, s: Seq<u8>, t: Seq<u8>)
    requires
        a.len() <= usize::MAX,
        b.len() <= usize::MAX,
        list(byte(), a) + s == list(byte(), b) + t,
    ensures
        a == b,
        s == t,
{
    byte_delimits();
    list_delimits(byte(), |x: u8| true, a, b, s, t);
}

/// Lists of 32-bit numbers.
pub proof fn word_list_delimits(a: Seq<u32>, b: Seq<u32>, s: Seq<u8>, t: Seq<u8>)
    requires
        a.len() <= usize::MAX,
        b.len() <= usize::MAX,
        list(word(), a) + s == list(word(), b) + t,
    ensures
        a == b,
        s == t,
{
    word_delimits();
    list_delimits(word(), |x: u32| true, a, b, s, t);
}

/// Lists of counts.
pub proof fn count_list_delimits(a: Seq<usize>, b: Seq<usize>, s: Seq<u8>, t: Seq<u8>)
    requires
        a.len() <= usize::MAX,
        b.len() <= usize::MAX,
        list(count(), a) + s == list(count(), b) + t,
    ensures
        a == b,
        s == t,
{
    count_delimits();
    list_delimits(count(), |x: usize| true, a, b, s, t);
}

/// Lists of lists of lists of 32-bit numbers.
pub proof fn nested_list_delimits(
    a: Seq<Seq<Seq<u32>>>,
    b: Seq<Seq<Seq<u32>>>,
    s: Seq<u8>,
    t: Seq<u8>,
)
    requires
        a.len() <= usize::MAX,
        b.len() <= usize::MAX,
        forall|i: int| 0 <= i < a.len() ==> short_lists()(#[trigger] a[i]),
        forall|i: int| 0 <= i < b.len() ==> short_lists()(#[trigger] b[i]),
        list(word_lists(), a) + s == list(word_lists(), b) + t,
    ensures
        a == b,
        s == t,
{
    word_lists_delimit();
    list_delimits(word_lists(), short_lists(), a, b, s, t);
}

/// Lists that memory can hold.
pub open spec fn short<T>() -> spec_fn(Seq<T>) -> bool {
    |s: Seq<T>| s.len() <= usize::MAX
}

/// Lists of lists that memory can hold.
pub open spec fn short_lists() -> spec_fn(Seq<Seq<u32>>) -> bool {
    |s: Seq<Seq<u32>>|
        s.len() <= usize::MAX && forall|i: int|
            0 <= i < s.len() ==> (#[trigger] s[i]).len() <= usize::MAX
}

pub proof fn words_delimit()
    ensures
        is_delimited(words(), short()),
{
    word_delimits();
    assert forall|x: Seq<u32>, y: Seq<u32>, s: Seq<u8>, t: Seq<u8>|
        short()(x) && short()(y) && #[trigger] (words()(x) + s) == #[trigger] (words()(y)
            + t) implies x == y && s == t by {
        list_delimits(word(), |x: u32| true, x, y, s, t);
    }
}

pub proof fn word_lists_delimit()
    ensures
        is_delimited(word_lists(), short_lists()),
{
    words_delimit();
    assert forall|x: Seq<Seq<u32>>, y: Seq<Seq<u32>>, s: Seq<u8>, t: Seq<u8>|
        short_lists()(x) && short_lists()(y) && #[trigger] (word_lists()(x) + s)
            == #[trigger] (word_lists()(y) + t) implies x == y && s == t by {
        list_delimits(words(), short(), x, y, s, t);
    }
}

pub proof fn maybe_word_delimits(x: Option<u32>, y: Option<u32>, s: Seq<u8>, t: Seq<u8>)
    requires
        maybe_word(x) + s == maybe_word(y) + t,
    ensures
        x == y,
        s == t,
{
    le_ranges();
    let a = maybe_word(x) + s;
    let b = maybe_word(y) + t;
    assert(a[0] == b[0]);
    match (x, y) {
        (None, None) => {
            same_parts(maybe_word(x), s, maybe_word(y), t);
        },
        (Some(v), Some(w)) => {
            assert(a =~= seq![1u8] + (le(v as int, 4) + s));
            assert(b =~= seq![1u8] + (le(w as int, 4) + t));
            same_parts(seq![1u8], le(v as int, 4) + s, seq![1u8], le(w as int, 4) + t);
            le_delimits(v as int, w as int, 4, s, t);
        },
        _ => {
            assert(a[0] == maybe_word(x)[0]);
            assert(b[0] == maybe_word(y)[0]);
        },
    }
}

} // verus!
