//! What a benchmark makes of its measurements, and of what it reads about the machine.

use vstd::arithmetic::div_mod::{lemma_fundamental_div_mod, lemma_mod_bound};
use vstd::multiset::Multiset;
use vstd::prelude::*;
use vstd::relations::total_ordering;
use vstd::seq_lib::{
    group_to_multiset_ensures, lemma_sorted_unique, to_multiset_build, to_multiset_insert,
    to_multiset_len,
};
use crate::integral::added_up;
use crate::text::{push_signed, signed};

verus! {

/// Times from the shortest to the longest.
pub open spec fn in_order(times: Seq<u64>) -> Seq<u64> {
    times.sort_by(|a: u64, b: u64| a <= b)
}

/// The middle one of the times; of an even number of them the mean of the middle two.
pub open spec fn middle(times: Seq<u64>) -> int {
    let s = in_order(times);
    let n = s.len() as int;
    if n % 2 == 1 {
        s[n / 2] as int
    } else {
        (s[n / 2 - 1] + s[n / 2]) / 2
    }
}

/// Sorts times.
fn sort(times: &[u64]) -> (r: Vec<u64>)
    ensures
        r@ == in_order(times@),
        r@.len() == times@.len(),
{
    let ghost leq = |a: u64, b: u64| a <= b;
    let mut r: Vec<u64> = Vec::new();
    let mut i: usize = 0;
    assert(times@.take(0) =~= r@);
    while i < times.len()
        invariant
            i <= times@.len(),
            r@.len() == i,
            forall|a: int, b: int| 0 <= a < b < r@.len() ==> r@[a] <= r@[b],
            r@.to_multiset() == times@.take(i as int).to_multiset(),
        decreases times@.len() - i,
    {
        let t: u64 = times[i];
        let mut p: usize = 0;
        while p < r.len() && r[p] <= t
            invariant
                p <= r@.len(),
                forall|a: int| 0 <= a < p ==> #[trigger] r@[a] <= t,
            decreases r@.len() - p,
        {
            p += 1;
        }
        proof {
            to_multiset_insert(r@, p as int, t);
            to_multiset_build(times@.take(i as int), t);
            assert(times@.take(i + 1) =~= times@.take(i as int).push(t));
        }
        r.insert(p, t);
        i += 1;
    }
    proof {
        assert(times@.take(i as int) =~= times@);
        assert(total_ordering(leq));
        times@.lemma_sort_by_ensures(leq);
        assert(in_order(times@) == times@.sort_by(leq));
        assert forall|a: int, b: int| 0 <= a < b < r@.len() implies #[trigger] leq(r@[a], r@[b]) by {
        }
        lemma_sorted_unique(r@, times@.sort_by(leq), leq);
    }
    r
}

/// The median of times.
pub fn median(times: &[u64]) -> (r: u64)
    requires
        times@.len() > 0,
    ensures
        r == middle(times@),
{
    let s: Vec<u64> = sort(times);
    let n: usize = s.len();
    if n % 2 == 1 {
        s[n / 2]
    } else {
        ((s[n / 2 - 1] as u128 + s[n / 2] as u128) / 2) as u64
    }
}

/// An id is among the results of query `q`.
pub open spec fn among(ids: Seq<i64>, k: int, q: int, id: i64) -> bool {
    exists|j: int| q * k <= j < (q + 1) * k && #[trigger] ids[j] == id
}

/// How many of the first `n` results are also among the other results of their query.
pub open spec fn agreeing(theirs: Seq<i64>, ours: Seq<i64>, k: int, n: int) -> int
    decreases n,
{
    if n <= 0 {
        0
    } else {
        agreeing(theirs, ours, k, n - 1) + if among(theirs, k, (n - 1) / k, ours[n - 1]) {
            1int
        } else {
            0
        }
    }
}

/// Results agree with themselves.
pub proof fn same_results_agree(ids: Seq<i64>, k: int, n: int)
    requires
        k > 0,
        0 <= n <= ids.len(),
    ensures
        agreeing(ids, ids, k, n) == n,
    decreases n,
{
    if n > 0 {
        same_results_agree(ids, k, n - 1);
        let i = n - 1;
        lemma_fundamental_div_mod(i, k);
        lemma_mod_bound(i, k);
        assert((i / k) * k <= i < (i / k + 1) * k) by (nonlinear_arith)
            requires
                i == k * (i / k) + i % k,
                0 <= i % k < k,
        ;
        assert(among(ids, k, i / k, ids[i]));
    }
}

/// How many of `ours`, which has `k` results for each query, are also among `theirs` for the
/// same query.
pub fn agreement(theirs: &[i64], ours: &[i64], k: usize) -> (r: usize)
    requires
        theirs@.len() == ours@.len(),
        k > 0 ==> ours@.len() as int % k as int == 0,
        k == 0 ==> ours@.len() == 0,
    ensures
        r == agreeing(theirs@, ours@, k as int, ours@.len() as int),
        r <= ours@.len(),
{
    let mut r: usize = 0;
    let mut i: usize = 0;
    while i < ours.len()
        invariant
            i <= ours@.len(),
            theirs@.len() == ours@.len(),
            k > 0 ==> ours@.len() as int % k as int == 0,
            k == 0 ==> ours@.len() == 0,
            r == agreeing(theirs@, ours@, k as int, i as int),
            r <= i,
        decreases ours@.len() - i,
    {
        let q: usize = i / k;
        proof {
            let n = ours@.len() as int;
            lemma_fundamental_div_mod(i as int, k as int);
            lemma_fundamental_div_mod(n, k as int);
            lemma_mod_bound(i as int, k as int);
            assert(q * k <= i && (q + 1) * k <= n) by (nonlinear_arith)
                requires
                    i == k * q + i % k,
                    0 <= i as int % k as int,
                    k > 0,
                    n == k * (n / k as int) + 0,
                    i < n,
            ;
            assert((q + 1) * k == q * k + k) by (nonlinear_arith);
        }
        let start: usize = q * k;
        if occurs(theirs, start, start + k, ours[i]) {
            assert(among(theirs@, k as int, q as int, ours@[i as int]));
            r += 1;
        }
        i += 1;
    }
    r
}

/// Whether an id occurs from one place to another.
fn occurs(ids: &[i64], from: usize, to: usize, id: i64) -> (r: bool)
    requires
        from <= to <= ids@.len(),
    ensures
        r == exists|j: int| from <= j < to && #[trigger] ids@[j] == id,
{
    let mut j: usize = from;
    while j < to
        invariant
            from <= j <= to <= ids@.len(),
            forall|l: int| from <= l < j ==> #[trigger] ids@[l] != id,
        decreases to - j,
    {
        if ids[j] == id {
            return true;
        }
        j += 1;
    }
    false
}

/// `a / b`, rounded towards zero.
pub open spec fn truncated(a: int, b: int) -> int {
    if a >= 0 {
        a / b
    } else {
        -((-a) / b)
    }
}

/// A version number of CUDA, where 12080 is 12.8.
pub open spec fn version_text(v: int) -> Seq<char> {
    let major = truncated(v, 1000);
    signed(major) + seq!['.'] + signed(truncated(v - 1000 * major, 10))
}

/// `a / b`, rounded towards zero.
fn truncate(a: i64, b: i64) -> (r: i64)
    requires
        a > i64::MIN,
        b > 0,
    ensures
        r == truncated(a as int, b as int),
{
    if a >= 0 {
        a / b
    } else {
        -((-a) / b)
    }
}

/// A version number of CUDA as text.
pub fn format_cuda_version(v: i32) -> (r: String)
    ensures
        r@ == version_text(v as int),
{
    let major: i64 = truncate(v as i64, 1000);
    let minor: i64 = truncate(v as i64 - 1000 * major, 10);
    let mut r: String = String::new();
    push_signed(&mut r, major);
    r.push('.');
    push_signed(&mut r, minor);
    assert(r@ =~= version_text(v as int));
    r
}

/// Where a name ends that is closed with a zero, or that fills all the room there is.
pub fn name_length(bytes: &[u8], room: usize) -> (r: usize)
    requires
        room <= bytes@.len(),
    ensures
        r <= room,
        r < room ==> bytes@[r as int] == 0,
        forall|i: int| 0 <= i < r ==> #[trigger] bytes@[i] != 0,
{
    let mut i: usize = 0;
    while i < room
        invariant
            i <= room <= bytes@.len(),
            forall|j: int| 0 <= j < i ==> #[trigger] bytes@[j] != 0,
        decreases room - i,
    {
        if bytes[i] == 0 {
            return i;
        }
        i += 1;
    }
    room
}

/// A word stands at a place of a text.
pub open spec fn stands_at(text: Seq<u8>, word: Seq<u8>, i: int) -> bool {
    0 <= i && i + word.len() <= text.len() && text.subrange(i, i + word.len()) == word
}

/// Where a word stands in a text for the first time.
pub fn find(text: &[u8], word: &[u8]) -> (r: Option<usize>)
    ensures
        match r {
            Some(i) => stands_at(text@, word@, i as int) && forall|j: int|
                0 <= j < i ==> !stands_at(text@, word@, j),
            None => forall|j: int| !stands_at(text@, word@, j),
        },
{
    let n: usize = text.len();
    let m: usize = word.len();
    if m > n {
        return None;
    }
    let mut i: usize = 0;
    while i <= n - m
        invariant
            i <= n - m + 1,
            m <= n,
            n == text@.len(),
            m == word@.len(),
            forall|j: int| 0 <= j < i ==> !stands_at(text@, word@, j),
        decreases n - i,
    {
        let mut l: usize = 0;
        while l < m && text[i + l] == word[l]
            invariant
                l <= m,
                i <= n - m,
                n == text@.len(),
                m == word@.len(),
                forall|j: int| 0 <= j < l ==> text@[i + j] == #[trigger] word@[j],
            decreases m - l,
        {
            l += 1;
        }
        if l == m {
            assert(text@.subrange(i as int, i + m) =~= word@);
            return Some(i);
        }
        proof {
            if stands_at(text@, word@, i as int) {
                assert(text@.subrange(i as int, i + m)[l as int] == text@[i + l]);
            }
        }
        i += 1;
    }
    None
}

/// A letter in lower case.
pub open spec fn lower(b: u8) -> u8 {
    if 65 <= b <= 90 {
        (b + 32) as u8
    } else {
        b
    }
}

/// The word `model name`.
pub open spec fn model_word() -> Seq<u8> {
    seq![109, 111, 100, 101, 108, 32, 110, 97, 109, 101]
}

/// Where the line that begins at a place ends.
pub open spec fn line_end(text: Seq<u8>, from: int) -> int
    decreases text.len() - from,
{
    if from < 0 || from >= text.len() || text[from] == 10 {
        from
    } else {
        line_end(text, from + 1)
    }
}

/// Where the first colon stands from one place to another, or the other place.
pub open spec fn colon(text: Seq<u8>, from: int, to: int) -> int
    decreases to - from,
{
    if from >= to || text[from] == 58 {
        from
    } else {
        colon(text, from + 1, to)
    }
}

/// A line begins with the word `model name`, in whatever case.
pub open spec fn is_model_line(text: Seq<u8>, from: int, to: int) -> bool {
    from + 10 <= to && forall|j: int|
        0 <= j < 10 ==> lower(text[from + j]) == #[trigger] model_word()[j]
}

/// What stands behind the colon in the first line from a place on that begins with `model
/// name` and has a colon.
pub open spec fn model_from(text: Seq<u8>, from: int) -> Option<(int, int)>
    decreases text.len() + 1 - from,
    when 0 <= from
{
    let to = line_end(text, from);
    let at = colon(text, from, to);
    if from >= text.len() || !(from <= to <= text.len()) {
        None
    } else if is_model_line(text, from, to) && at < to {
        Some((at + 1, to))
    } else {
        model_from(text, to + 1)
    }
}

/// From where to where the name of the processor stands in `/proc/cpuinfo`.
pub fn model_name(text: &[u8]) -> (r: Option<(usize, usize)>)
    ensures
        r == match model_from(text@, 0) {
            Some((from, to)) => Some((from as usize, to as usize)),
            None => None,
        },
        r matches Some((from, to)) ==> from <= to <= text@.len(),
{
    let word: [u8; 10] = [109, 111, 100, 101, 108, 32, 110, 97, 109, 101];
    assert(word@ =~= model_word());
    let n: usize = text.len();
    let mut from: usize = 0;
    while from < n
        invariant
            n == text@.len(),
            from <= n + 1,
            word@ == model_word(),
            model_from(text@, 0) == model_from(text@, from as int),
        decreases n + 1 - from,
    {
        let mut to: usize = from;
        while to < n && text[to] != 10
            invariant
                n == text@.len(),
                from <= to <= n,
                line_end(text@, from as int) == line_end(text@, to as int),
            decreases n - to,
        {
            to += 1;
        }
        let mut at: usize = from;
        while at < to && text[at] != 58
            invariant
                n == text@.len(),
                from <= at <= to <= n,
                colon(text@, from as int, to as int) == colon(text@, at as int, to as int),
            decreases to - at,
        {
            at += 1;
        }
        let mut l: usize = 0;
        while l < 10 && l < to - from && lower_case(text[from + l]) == word[l]
            invariant
                n == text@.len(),
                from <= to <= n,
                l <= 10,
                l <= to - from,
                word@ == model_word(),
                forall|j: int|
                    0 <= j < l ==> lower(text@[from + j]) == #[trigger] model_word()[j],
            decreases 10 - l,
        {
            l += 1;
        }
        if l == 10 && at < to {
            return Some((at + 1, to));
        }
        proof {
            if is_model_line(text@, from as int, to as int) && l < 10 {
                assert(lower(text@[from + l]) == model_word()[l as int]);
            }
        }
        if to >= n {
            proof {
                reveal_with_fuel(model_from, 2);
            }
            return None;
        }
        from = to + 1;
    }
    None
}

/// A letter in lower case.
fn lower_case(b: u8) -> (r: u8)
    ensures
        r == lower(b),
{
    if 65 <= b && b <= 90 {
        b + 32
    } else {
        b
    }
}

/// How many of some times are no longer than `t`.
pub open spec fn no_longer(times: Seq<u64>, t: u64) -> int
    decreases times.len(),
{
    if times.len() == 0 {
        0
    } else {
        no_longer(times.drop_last(), t) + if times.last() <= t {
            1int
        } else {
            0
        }
    }
}

/// How many of some times are no shorter than `t`.
pub open spec fn no_shorter(times: Seq<u64>, t: u64) -> int
    decreases times.len(),
{
    if times.len() == 0 {
        0
    } else {
        no_shorter(times.drop_last(), t) + if times.last() >= t {
            1int
        } else {
            0
        }
    }
}

proof fn counts_of_multiset(s: Seq<u64>, t: u64)
    ensures
        no_longer(s, t) == s.to_multiset().filter(|x: u64| x <= t).len(),
        no_shorter(s, t) == s.to_multiset().filter(|x: u64| x >= t).len(),
    decreases s.len(),
{
    let f = |x: u64| x <= t;
    let g = |x: u64| x >= t;
    if s.len() == 0 {
        to_multiset_len(s);
        assert(s.to_multiset() =~= Multiset::empty());
        assert(s.to_multiset().filter(f) =~= Multiset::empty());
        assert(s.to_multiset().filter(g) =~= Multiset::empty());
    } else {
        let p = s.drop_last();
        let x = s.last();
        counts_of_multiset(p, t);
        to_multiset_build(p, x);
        assert(p.push(x) =~= s);
        let m = p.to_multiset();
        assert(m.insert(x).filter(f) =~= if f(x) {
            m.filter(f).insert(x)
        } else {
            m.filter(f)
        });
        assert(m.insert(x).filter(g) =~= if g(x) {
            m.filter(g).insert(x)
        } else {
            m.filter(g)
        });
    }
}

proof fn counts_in_order(s: Seq<u64>, j: int)
    requires
        forall|a: int, b: int| 0 <= a <= b < s.len() ==> s[a] <= s[b],
        0 <= j < s.len(),
    ensures
        no_longer(s, s[j]) >= j + 1,
        no_shorter(s, s[j]) >= s.len() - j,
    decreases s.len(),
{
    let p = s.drop_last();
    if j < p.len() {
        counts_in_order(p, j);
        assert(p[j] == s[j]);
        counts_are_positive(p, s[j]);
        assert(s.last() >= s[j]);
    } else {
        all_no_longer(s, s[j], s.len() as int);
        counts_are_positive(p, s[j]);
    }
}

proof fn counts_are_positive(s: Seq<u64>, t: u64)
    ensures
        no_longer(s, t) >= 0,
        no_shorter(s, t) >= 0,
    decreases s.len(),
{
    if s.len() > 0 {
        counts_are_positive(s.drop_last(), t);
    }
}

proof fn all_no_longer(s: Seq<u64>, t: u64, n: int)
    requires
        n == s.len(),
        forall|a: int| 0 <= a < s.len() ==> #[trigger] s[a] <= t,
    ensures
        no_longer(s, t) == n,
    decreases n,
{
    if n > 0 {
        all_no_longer(s.drop_last(), t, n - 1);
    }
}

/// The median is in the middle: it is the mean, rounded down, of two of the times, such that half
/// of them or more are no longer than the one and half or more are no shorter than the other. Of
/// an odd number of times both are the same; of an even number they are two different ones, or one
/// that is there twice.
pub proof fn median_is_in_the_middle(times: Seq<u64>) -> (r: (u64, u64))
    requires
        times.len() > 0,
    ensures
        times.contains(r.0),
        times.contains(r.1),
        r.0 <= r.1,
        middle(times) == (r.0 + r.1) / 2,
        2 * no_longer(times, r.0) >= times.len(),
        2 * no_shorter(times, r.1) >= times.len(),
        times.len() % 2 == 1 ==> r.0 == r.1,
        times.len() % 2 == 0 && r.0 == r.1 ==> times.to_multiset().count(r.0) >= 2,
{
    broadcast use group_to_multiset_ensures;

    let leq = |a: u64, b: u64| a <= b;
    let s = in_order(times);
    assert(total_ordering(leq));
    times.lemma_sort_by_ensures(leq);
    assert(s == times.sort_by(leq));
    let n = s.len() as int;
    assert(s.to_multiset().len() == times.to_multiset().len());
    assert forall|a: int, b: int| 0 <= a <= b < s.len() implies s[a] <= s[b] by {
        if a < b {
            assert(leq(s[a], s[b]));
        }
    }
    let i = if n % 2 == 1 {
        n / 2
    } else {
        n / 2 - 1
    };
    let j = n / 2;
    let (x, y) = (s[i], s[j]);
    counts_in_order(s, i);
    counts_in_order(s, j);
    counts_of_multiset(s, x);
    counts_of_multiset(s, y);
    counts_of_multiset(times, x);
    counts_of_multiset(times, y);
    assert(s.contains(x) && s.contains(y));
    assert(times.to_multiset().count(x) > 0 && times.to_multiset().count(y) > 0);
    if n % 2 == 0 && x == y {
        let t = s.remove(i);
        assert(t[j - 1] == y);
        assert(t.contains(y));
        assert(t.to_multiset().count(y) > 0);
        assert(t.to_multiset() =~= s.to_multiset().remove(s[i]));
    }
    (x, y)
}

/// Agreement counts, over all results, those that are also among the other results of the same
/// query: with `k` results for each, result `i` is of query `i / k`.
pub proof fn agreement_is_counted(theirs: Seq<i64>, ours: Seq<i64>, k: int, n: int)
    requires
        k > 0,
        n >= 0,
    ensures
        agreeing(theirs, ours, k, n) == added_up(
            |i: int|
                if exists|j: int| i / k * k <= j < i / k * k + k && #[trigger] theirs[j] == ours[i] {
                    1int
                } else {
                    0
                },
            n,
        ),
        0 <= agreeing(theirs, ours, k, n) <= n,
    decreases n,
{
    if n > 0 {
        agreement_is_counted(theirs, ours, k, n - 1);
        let i = n - 1;
        assert((i / k + 1) * k == i / k * k + k) by (nonlinear_arith);
        let a = among(theirs, k, i / k, ours[i]);
        let b = exists|j: int| i / k * k <= j < i / k * k + k && #[trigger] theirs[j] == ours[i];
        assert(a == b);
    }
}

/// A version number is read in thousands and tens.
pub proof fn versions_are_read(major: int, minor: int, rest: int)
    requires
        major >= 0,
        0 <= minor < 100,
        0 <= rest < 10,
    ensures
        version_text(1000 * major + 10 * minor + rest) == signed(major) + seq!['.'] + signed(minor),
{
    let v = 1000 * major + 10 * minor + rest;
    assert(v / 1000 == major);
    assert((v - 1000 * major) / 10 == minor);
}

proof fn line_is_ended(text: Seq<u8>, from: int)
    requires
        0 <= from <= text.len(),
    ensures
        from <= line_end(text, from) <= text.len(),
        forall|j: int| from <= j < line_end(text, from) ==> #[trigger] text[j] != 10,
        line_end(text, from) < text.len() ==> text[line_end(text, from)] == 10,
    decreases text.len() - from,
{
    if from < text.len() && text[from] != 10 {
        line_is_ended(text, from + 1);
    }
}

proof fn colon_is_first(text: Seq<u8>, from: int, to: int)
    requires
        from <= to,
    ensures
        from <= colon(text, from, to) <= to,
        forall|j: int| from <= j < colon(text, from, to) ==> #[trigger] text[j] != 58,
        colon(text, from, to) < to ==> text[colon(text, from, to)] == 58,
    decreases to - from,
{
    if from < to && text[from] != 58 {
        colon_is_first(text, from + 1, to);
    }
}

/// A line begins at `from`, ends at `to`, begins with `model name` in whatever case, and has its
/// first colon at `at`.
pub open spec fn names_model(text: Seq<u8>, from: int, at: int, to: int) -> bool {
    &&& 0 <= from
    &&& from + 10 <= to <= text.len()
    &&& from == 0 || text[from - 1] == 10
    &&& forall|j: int| from <= j < to ==> #[trigger] text[j] != 10
    &&& to < text.len() ==> text[to] == 10
    &&& forall|j: int|
        0 <= j < 10 ==> {
            let c = #[trigger] text[from + j];
            let w = seq![109u8, 111, 100, 101, 108, 32, 110, 97, 109, 101][j];
            c == w || 65 <= c <= 90 && c + 32 == w
        }
    &&& from <= at < to
    &&& text[at] == 58
    &&& forall|j: int| from <= j < at ==> #[trigger] text[j] != 58
}

/// The name of the processor is what follows the first colon of a line that begins with `model
/// name`, up to the end of the line.
pub proof fn model_follows_its_colon(text: Seq<u8>, from: int) -> (r: int)
    requires
        0 <= from,
        from == 0 || from <= text.len() && text[from - 1] == 10 || from > text.len(),
        model_from(text, from) is Some,
    ensures
        from <= r,
        ({
            let (a, b) = model_from(text, from).unwrap();
            names_model(text, r, a - 1, b)
        }),
    decreases text.len() + 1 - from,
{
    let to = line_end(text, from);
    if from <= text.len() {
        line_is_ended(text, from);
        colon_is_first(text, from, to);
    }
    let at = colon(text, from, to);
    if is_model_line(text, from, to) && at < to {
        assert forall|j: int| 0 <= j < 10 implies {
            let c = #[trigger] text[from + j];
            let w = seq![109u8, 111, 100, 101, 108, 32, 110, 97, 109, 101][j];
            c == w || 65 <= c <= 90 && c + 32 == w
        } by {
            assert(lower(text[from + j]) == model_word()[j]);
        }
        from
    } else {
        model_follows_its_colon(text, to + 1)
    }
}

} // verus!
