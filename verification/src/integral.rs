//! Vectors of whole numbers.
//!
//! Rounding does not come into sums and products of whole numbers that are not too large. So on
//! them distances are what they are in mathematics, and what an index does can be said in
//! integers alone.

use vstd::arithmetic::power2::{
    lemma2_to64, lemma_pow2_adds, lemma_pow2_pos, lemma_pow2_unfold, pow2,
};
use vstd::prelude::*;
use crate::arith::{
    difference, exponent, is_product, is_root, is_sum, nearest, product, product_is, root_is,
    significand, sum, sum_is, unit, units, units_increase, units_of_zero, units_step, value,
};
use crate::binary32::{finite, magnitude, negative, opposite, INFINITY, SIGN};
use crate::distance::{
    across_lanes, coordinate_product, inner_product_of, key_of, l2_sqr_of, lane_sum, natural_of,
    squared_difference, total, with_rest, LANES,
};
use crate::geometry::{product_exists, sum_exists};
use crate::metric::Metric;

verus! {

/// Whole numbers below this one have no gaps.
pub const EXACT: u32 = 0x100_0000;

/// The absolute value of an integer.
pub open spec fn size(n: int) -> int {
    if n < 0 {
        -n
    } else {
        n
    }
}

/// A number is the whole number `n`.
pub open spec fn is_int(b: u32, n: int) -> bool {
    finite(b) && value(b) == n * unit()
}

/// The numbers of a sequence are these whole numbers.
pub open spec fn are_ints(s: Seq<u32>, n: Seq<int>) -> bool {
    &&& s.len() == n.len()
    &&& forall|i: int| 0 <= i < s.len() ==> is_int(#[trigger] s[i], n[i])
}

/// `t(0) + t(1) + ... + t(n - 1)`.
pub open spec fn added_up(t: spec_fn(int) -> int, n: int) -> int
    decreases n,
{
    if n <= 0 {
        0
    } else {
        added_up(t, n - 1) + t(n - 1)
    }
}

/// The absolute values of terms.
pub open spec fn sizes(t: spec_fn(int) -> int) -> spec_fn(int) -> int {
    |i: int| size(t(i))
}

/// A magnitude is next to itself.
pub proof fn nearest_is_exact(den: int, m: int)
    requires
        den > 0,
        0 <= m < INFINITY,
    ensures
        nearest(den * units(m), den, m),
{
    let u = units(m);
    let w = units(m + 1);
    units_step(m);
    lemma_pow2_pos(exponent(m));
    assert(2 * (den * u) < den * (u + w)) by (nonlinear_arith)
        requires
            den > 0,
            u < w,
    ;
    if m > 0 {
        let v = units(m - 1);
        units_step(m - 1);
        lemma_pow2_pos(exponent(m - 1));
        assert(2 * (den * u) > den * (v + u)) by (nonlinear_arith)
            requires
                den > 0,
                v < u,
        ;
    }
}

/// A whole number times a power of two has a magnitude; its significand is made longer by `j`
/// bits at first.
pub proof fn scaled(n: int, j: nat, b: nat) -> (m: int)
    requires
        0 < n < EXACT,
        n * pow2(j) < EXACT,
        j <= 23,
        23 <= b <= 220,
    ensures
        0 < m < INFINITY,
        units(m) == n * pow2(b),
    decreases 23 - j,
{
    lemma2_to64();
    lemma_pow2_pos(j);
    let p = pow2(j) as int;
    let s = n * p;
    assert(s >= p) by (nonlinear_arith)
        requires
            s == n * p,
            n >= 1,
            p > 0,
    ;
    if s < 0x80_0000 {
        if j == 23 {
            assert(pow2(23) == 0x80_0000);
        }
        lemma_pow2_unfold((j + 1) as nat);
        assert(n * (2 * p) == 2 * s) by (nonlinear_arith)
            requires
                s == n * p,
        ;
        scaled(n, (j + 1) as nat, b)
    } else {
        let e = (b - j) as nat;
        let m = (e + 1) * 0x80_0000 + (s - 0x80_0000);
        assert(m / 0x80_0000 == e + 1 && m % 0x80_0000 == s - 0x80_0000) by (nonlinear_arith)
            requires
                m == (e + 1) * 0x80_0000 + (s - 0x80_0000),
                0x80_0000 <= s < 0x100_0000,
                e >= 0,
        ;
        assert(significand(m) == s);
        assert(exponent(m) == e);
        lemma_pow2_adds(j, e);
        assert((j + e) as nat == b);
        let q = pow2(e) as int;
        assert(s * q == n * (p * q)) by (nonlinear_arith)
            requires
                s == n * p,
        ;
        m
    }
}

/// A whole number that is not too large has a magnitude.
pub proof fn magnitude_of(n: int) -> (m: int)
    requires
        0 <= n < EXACT,
    ensures
        0 <= m < INFINITY,
        units(m) == n * unit(),
        m == 0 <==> n == 0,
{
    units_of_zero();
    if n == 0 {
        assert(n * unit() == 0) by (nonlinear_arith)
            requires
                n == 0,
        ;
        0
    } else {
        lemma2_to64();
        assert(pow2(0) == 1);
        assert(n * pow2(0) == n);
        scaled(n, 0, 149)
    }
}

/// A number is one whole number at most, and zero only as one of the zeros.
pub proof fn int_means(b: u32, n: int)
    requires
        is_int(b, n),
    ensures
        units(magnitude(b)) == size(n) * unit(),
        magnitude(b) == 0 <==> n == 0,
        n != 0 ==> negative(b) == (n < 0),
        forall|m: int| is_int(b, m) ==> m == n,
{
    units_of_zero();
    lemma_pow2_pos(149);
    let u = unit();
    if magnitude(b) > 0 {
        units_increase(0, magnitude(b));
    }
    assert(n > 0 ==> n * u > 0) by (nonlinear_arith)
        requires
            u > 0,
    ;
    assert(n < 0 ==> n * u < 0) by (nonlinear_arith)
        requires
            u > 0,
    ;
    assert(n == 0 ==> n * u == 0) by (nonlinear_arith);
    assert((-n) * u == -(n * u)) by (nonlinear_arith);
    assert forall|m: int| is_int(b, m) implies m == n by {
        assert(m * u == n * u ==> m == n) by (nonlinear_arith)
            requires
                u > 0,
        ;
    }
}

/// Zero is a whole number.
pub proof fn zero_is_int(b: u32)
    requires
        magnitude(b) == 0,
    ensures
        is_int(b, 0),
{
    units_of_zero();
    assert(0 * unit() == 0);
}

/// Sums of whole numbers are exact.
pub proof fn sum_is_exact(a: u32, b: u32, x: int, y: int)
    requires
        is_int(a, x),
        is_int(b, y),
        size(x + y) < EXACT,
    ensures
        is_int(sum(a, b), x + y),
{
    let u = unit();
    lemma_pow2_pos(149);
    let s = value(a) + value(b);
    assert(s == (x + y) * u) by (nonlinear_arith)
        requires
            s == x * u + y * u,
    ;
    let m = magnitude_of(size(x + y));
    assert((-(x + y)) * u == -((x + y) * u)) by (nonlinear_arith);
    assert(x + y > 0 ==> (x + y) * u > 0) by (nonlinear_arith)
        requires
            u > 0,
    ;
    assert(x + y < 0 ==> (x + y) * u < 0) by (nonlinear_arith)
        requires
            u > 0,
    ;
    if x + y == 0 {
        assert((x + y) * u == 0) by (nonlinear_arith)
            requires
                x + y == 0,
        ;
        let r = if negative(a) && negative(b) {
            SIGN
        } else {
            0
        };
        assert(is_sum(a, b, r));
        sum_is(a, b, r);
        zero_is_int(r);
    } else {
        let r = if x + y < 0 {
            (m + SIGN) as u32
        } else {
            m as u32
        };
        assert(magnitude(r) == m);
        nearest_is_exact(1, m);
        assert(1 * units(m) == units(m));
        assert(is_sum(a, b, r));
        sum_is(a, b, r);
    }
}

/// Products of whole numbers are exact.
pub proof fn product_is_exact(a: u32, b: u32, x: int, y: int)
    requires
        is_int(a, x),
        is_int(b, y),
        size(x * y) < EXACT,
    ensures
        is_int(product(a, b), x * y),
{
    let u = unit();
    lemma_pow2_pos(149);
    int_means(a, x);
    int_means(b, y);
    let (p, q) = (size(x), size(y));
    assert(p * q == size(x * y)) by (nonlinear_arith)
        requires
            p == size(x),
            q == size(y),
    ;
    let m = magnitude_of(p * q);
    let minus = negative(a) != negative(b);
    let r = if minus {
        (m + SIGN) as u32
    } else {
        m as u32
    };
    assert(magnitude(r) == m);
    assert((p * u) * (q * u) == u * ((p * q) * u)) by (nonlinear_arith);
    nearest_is_exact(u, m);
    assert(is_product(a, b, r));
    product_is(a, b, r);
    if x * y == 0 {
        assert(m == 0);
        zero_is_int(r);
    } else {
        assert(x != 0 && y != 0) by (nonlinear_arith)
            requires
                x * y != 0,
        ;
        assert((x * y < 0) == ((x < 0) != (y < 0))) by (nonlinear_arith)
            requires
                x != 0,
                y != 0,
        ;
        let z = x * y;
        assert((-z) * u == -(z * u)) by (nonlinear_arith);
    }
}

/// Differences of whole numbers are exact.
pub proof fn difference_is_exact(a: u32, b: u32, x: int, y: int)
    requires
        is_int(a, x),
        is_int(b, y),
        size(x - y) < EXACT,
    ensures
        is_int(difference(a, b), x - y),
{
    assert((-y) * unit() == -(y * unit())) by (nonlinear_arith);
    assert(is_int(opposite(b), -y));
    sum_is_exact(a, opposite(b), x, -y);
}

/// Terms of a group at a place, as integers.
spec fn lane_int(t: spec_fn(int) -> int, lane: int, groups: int) -> int {
    added_up(|g: int| t(g * LANES + lane), groups)
}

/// The first `lanes` terms of a group, as integers.
spec fn group_int(t: spec_fn(int) -> int, group: int, lanes: int) -> int {
    added_up(|l: int| t(group * LANES + l), lanes)
}

/// Sums over the first `lanes` places, as integers.
spec fn across_int(t: spec_fn(int) -> int, lanes: int, groups: int) -> int {
    added_up(|l: int| lane_int(t, l, groups), lanes)
}

/// A sum is no larger than that of the absolute values.
pub proof fn sizes_bound(t: spec_fn(int) -> int, n: int)
    ensures
        size(added_up(t, n)) <= added_up(sizes(t), n),
        added_up(sizes(t), n) >= 0,
    decreases n,
{
    if n > 0 {
        sizes_bound(t, n - 1);
    }
}

/// Fewer terms that are not negative add up to less.
pub proof fn fewer_are_less(t: spec_fn(int) -> int, i: int, n: int)
    requires
        i <= n,
        forall|j: int| 0 <= j < n ==> #[trigger] t(j) >= 0,
    ensures
        added_up(t, i) <= added_up(t, n),
    decreases n - i,
{
    if i < n {
        fewer_are_less(t, i, n - 1);
        if n > 0 {
            assert(t(n - 1) >= 0);
        }
    }
}

/// One of terms that are not negative is no more than all.
pub proof fn one_is_less(t: spec_fn(int) -> int, i: int, n: int)
    requires
        0 <= i < n,
        forall|j: int| 0 <= j < n ==> #[trigger] t(j) >= 0,
    ensures
        t(i) <= added_up(t, n),
{
    fewer_are_less(t, i + 1, n);
    fewer_are_less(t, 0, i);
}

/// One more group.
proof fn across_grows(t: spec_fn(int) -> int, lanes: int, groups: int)
    requires
        groups > 0,
        lanes >= 0,
    ensures
        across_int(t, lanes, groups) == across_int(t, lanes, groups - 1) + group_int(
            t,
            groups - 1,
            lanes,
        ),
    decreases lanes,
{
    if lanes > 0 {
        across_grows(t, lanes - 1, groups);
        assert(lane_int(t, lanes - 1, groups) == lane_int(t, lanes - 1, groups - 1) + t(
            (groups - 1) * LANES + (lanes - 1),
        ));
    }
}

/// The terms of a group follow those before it.
proof fn group_follows(t: spec_fn(int) -> int, from: int, group: int, lanes: int)
    requires
        lanes >= 0,
        group >= 0,
        from == group * LANES,
    ensures
        added_up(t, from + lanes) == added_up(t, from) + group_int(t, group, lanes),
    decreases lanes,
{
    if lanes > 0 {
        group_follows(t, from, group, lanes - 1);
    }
}

/// All places of all groups are all terms.
proof fn places_are_all(t: spec_fn(int) -> int, groups: int)
    requires
        groups >= 0,
    ensures
        across_int(t, LANES as int, groups) == added_up(t, groups * LANES),
    decreases groups,
{
    if groups == 0 {
        zeros_add_up(|l: int| lane_int(t, l, 0), LANES as int);
    } else {
        places_are_all(t, groups - 1);
        across_grows(t, LANES as int, groups);
        group_follows(t, (groups - 1) * LANES, groups - 1, LANES as int);
    }
}

proof fn zeros_add_up(t: spec_fn(int) -> int, n: int)
    requires
        forall|i: int| 0 <= i < n ==> #[trigger] t(i) == 0,
    ensures
        added_up(t, n) == 0,
    decreases n,
{
    if n > 0 {
        zeros_add_up(t, n - 1);
        assert(t(n - 1) == 0);
    }
}

/// Sums of the same terms.
pub proof fn same_add_up(s: spec_fn(int) -> int, t: spec_fn(int) -> int, n: int)
    requires
        forall|i: int| 0 <= i < n ==> #[trigger] s(i) == t(i),
    ensures
        added_up(s, n) == added_up(t, n),
    decreases n,
{
    if n > 0 {
        same_add_up(s, t, n - 1);
        assert(s(n - 1) == t(n - 1));
    }
}

proof fn lane_is_exact(
    term: spec_fn(int) -> u32,
    t: spec_fn(int) -> int,
    len: int,
    lane: int,
    groups: int,
)
    requires
        forall|i: int| 0 <= i < len ==> is_int(#[trigger] term(i), t(i)),
        0 <= lane < LANES,
        0 <= groups,
        groups * LANES <= len,
        lane_int(sizes(t), lane, groups) < EXACT,
    ensures
        is_int(lane_sum(term, lane, groups), lane_int(t, lane, groups)),
    decreases groups,
{
    let f = |g: int| t(g * LANES + lane);
    let h = |g: int| sizes(t)(g * LANES + lane);
    assert(h =~= sizes(f));
    sizes_bound(f, groups);
    if groups > 0 {
        assert(h(groups - 1) >= 0);
        lane_is_exact(term, t, len, lane, groups - 1);
        let i = (groups - 1) * LANES + lane;
        assert(is_int(term(i), t(i)));
        sum_is_exact(lane_sum(term, lane, groups - 1), term(i), lane_int(t, lane, groups - 1), t(i));
    } else {
        zero_is_int(0);
    }
}

proof fn across_is_exact(
    term: spec_fn(int) -> u32,
    t: spec_fn(int) -> int,
    len: int,
    lanes: int,
    groups: int,
)
    requires
        forall|i: int| 0 <= i < len ==> is_int(#[trigger] term(i), t(i)),
        0 <= lanes <= LANES,
        0 <= groups,
        groups * LANES <= len,
        across_int(sizes(t), LANES as int, groups) < EXACT,
    ensures
        is_int(across_lanes(term, lanes, groups), across_int(t, lanes, groups)),
        size(across_int(t, lanes, groups)) <= across_int(sizes(t), lanes, groups),
    decreases lanes,
{
    let h = |l: int| lane_int(sizes(t), l, groups);
    assert forall|l: int| 0 <= l < LANES implies #[trigger] h(l) >= 0 && size(
        lane_int(t, l, groups),
    ) <= h(l) by {
        let f = |g: int| t(g * LANES + l);
        assert((|g: int| sizes(t)(g * LANES + l)) =~= sizes(f));
        sizes_bound(f, groups);
    }
    if lanes > 0 {
        let l = lanes - 1;
        across_is_exact(term, t, len, l, groups);
        one_is_less(h, l, LANES as int);
        fewer_are_less(h, lanes, LANES as int);
        assert(h(l) >= 0 && size(lane_int(t, l, groups)) <= h(l));
        lane_is_exact(term, t, len, l, groups);
        sum_is_exact(
            across_lanes(term, l, groups),
            lane_sum(term, l, groups),
            across_int(t, l, groups),
            lane_int(t, l, groups),
        );
    } else {
        zero_is_int(0);
    }
}

proof fn rest_is_exact(
    term: spec_fn(int) -> u32,
    t: spec_fn(int) -> int,
    len: int,
    end: int,
)
    requires
        forall|i: int| 0 <= i < len ==> is_int(#[trigger] term(i), t(i)),
        len >= 0,
        (len / LANES as int) * LANES <= end <= len,
        added_up(sizes(t), len) < EXACT,
    ensures
        is_int(with_rest(term, len, end), added_up(t, end)),
    decreases end,
{
    let groups = len / LANES as int;
    sizes_bound(t, end);
    fewer_are_less(sizes(t), end, len);
    if end == groups * LANES {
        places_are_all(t, groups);
        places_are_all(sizes(t), groups);
        across_is_exact(term, t, len, LANES as int, groups);
    } else {
        rest_is_exact(term, t, len, end - 1);
        assert(is_int(term(end - 1), t(end - 1)));
        sum_is_exact(with_rest(term, len, end - 1), term(end - 1), added_up(t, end - 1), t(end - 1));
    }
}

/// Whole terms add up to their sum, all of them.
pub proof fn total_is_exact(term: spec_fn(int) -> u32, t: spec_fn(int) -> int, len: int)
    requires
        forall|i: int| 0 <= i < len ==> is_int(#[trigger] term(i), t(i)),
        len >= 0,
        added_up(sizes(t), len) < EXACT,
    ensures
        is_int(total(term, len), added_up(t, len)),
{
    rest_is_exact(term, t, len, len);
}

/// The product of two vectors of whole numbers at a coordinate.
pub open spec fn products(x: Seq<int>, y: Seq<int>) -> spec_fn(int) -> int {
    |i: int| x[i] * y[i]
}

/// The squared difference of two vectors of whole numbers at a coordinate.
pub open spec fn squares(x: Seq<int>, y: Seq<int>) -> spec_fn(int) -> int {
    |i: int| (x[i] - y[i]) * (x[i] - y[i])
}

/// The dot product of two vectors of whole numbers is the sum of the products of all
/// coordinates, if that is not too large.
pub proof fn inner_product_is_exact(a: Seq<u32>, b: Seq<u32>, x: Seq<int>, y: Seq<int>)
    requires
        a.len() == b.len(),
        are_ints(a, x),
        are_ints(b, y),
        added_up(sizes(products(x, y)), a.len() as int) < EXACT,
    ensures
        is_int(inner_product_of(a, b), added_up(products(x, y), a.len() as int)),
{
    let n = a.len() as int;
    let t = products(x, y);
    let term = coordinate_product(a, b);
    assert forall|i: int| 0 <= i < n implies is_int(#[trigger] term(i), t(i)) by {
        assert(is_int(a[i], x[i]) && is_int(b[i], y[i]));
        one_is_less(sizes(t), i, n);
        product_is_exact(a[i], b[i], x[i], y[i]);
    }
    total_is_exact(term, t, n);
}

/// The squared distance of two vectors of whole numbers is the sum of the squared differences of
/// all coordinates, if that is not too large.
pub proof fn l2_is_exact(a: Seq<u32>, b: Seq<u32>, x: Seq<int>, y: Seq<int>)
    requires
        a.len() == b.len(),
        are_ints(a, x),
        are_ints(b, y),
        added_up(squares(x, y), a.len() as int) < EXACT,
    ensures
        is_int(l2_sqr_of(a, b), added_up(squares(x, y), a.len() as int)),
{
    let n = a.len() as int;
    let t = squares(x, y);
    let term = squared_difference(a, b);
    assert forall|i: int| #[trigger] sizes(t)(i) == t(i) by {
        let d = x[i] - y[i];
        assert(d * d >= 0) by (nonlinear_arith);
    }
    assert(sizes(t) =~= t);
    assert forall|i: int| 0 <= i < n implies is_int(#[trigger] term(i), t(i)) by {
        assert(is_int(a[i], x[i]) && is_int(b[i], y[i]));
        let d = x[i] - y[i];
        assert(t(i) == d * d);
        one_is_less(sizes(t), i, n);
        assert(size(d) <= d * d) by (nonlinear_arith)
            requires
                true,
        ;
        difference_is_exact(a[i], b[i], x[i], y[i]);
        product_is_exact(difference(a[i], b[i]), difference(a[i], b[i]), d, d);
    }
    total_is_exact(term, t, n);
}

/// The keys of vectors of whole numbers: the squared distance, or the dot product with its sign
/// changed.
pub proof fn keys_are_exact(metric: Metric, a: Seq<u32>, b: Seq<u32>, x: Seq<int>, y: Seq<int>)
    requires
        a.len() == b.len(),
        are_ints(a, x),
        are_ints(b, y),
        match metric {
            Metric::L2 => added_up(squares(x, y), a.len() as int) < EXACT,
            Metric::InnerProduct => added_up(sizes(products(x, y)), a.len() as int) < EXACT,
        },
    ensures
        match metric {
            Metric::L2 => is_int(key_of(metric, a, b), added_up(squares(x, y), a.len() as int)),
            Metric::InnerProduct => is_int(
                key_of(metric, a, b),
                -added_up(products(x, y), a.len() as int),
            ),
        },
{
    match metric {
        Metric::L2 => {
            l2_is_exact(a, b, x, y);
        },
        Metric::InnerProduct => {
            inner_product_is_exact(a, b, x, y);
            let s = added_up(products(x, y), a.len() as int);
            assert((-s) * unit() == -(s * unit())) by (nonlinear_arith);
        },
    }
}

/// What is reported: a squared distance that is a square gives its root, and a similarity is the
/// dot product itself.
pub proof fn reports_are_exact(key: u32, n: int)
    requires
        0 <= n < EXACT,
    ensures
        is_int(key, n * n) ==> is_int(natural_of(Metric::L2, key), n),
        is_int(key, -n) ==> is_int(natural_of(Metric::InnerProduct, key), n),
        is_int(key, n) ==> is_int(natural_of(Metric::InnerProduct, key), -n),
{
    let u = unit();
    lemma_pow2_pos(149);
    assert((-n) * u == -(n * u)) by (nonlinear_arith);
    if is_int(key, n * n) {
        int_means(key, n * n);
        assert(n * n >= 0) by (nonlinear_arith);
        let m = magnitude_of(n);
        if n == 0 {
            assert(magnitude(key) == 0);
            assert(is_root(key, key));
            root_is(key, key);
        } else {
            assert(n * n > 0) by (nonlinear_arith)
                requires
                    n > 0,
            ;
            let r = m as u32;
            assert(magnitude(r) == m);
            let w = n * u;
            let num = units(magnitude(key)) * u;
            assert(num == w * w) by (nonlinear_arith)
                requires
                    num == ((n * n) * u) * u,
                    w == n * u,
            ;
            units_step(m);
            lemma_pow2_pos(exponent(m));
            let s = w + units(m + 1);
            assert(4 * (w * w) < s * s) by (nonlinear_arith)
                requires
                    s > 2 * w,
                    w >= 0,
            ;
            units_step(m - 1);
            lemma_pow2_pos(exponent(m - 1));
            let t = units(m - 1) + w;
            assert(4 * (w * w) > t * t) by (nonlinear_arith)
                requires
                    0 <= t < 2 * w,
            ;
            assert(is_root(key, r));
            root_is(key, r);
        }
    }
}

/// Which numbers are finite, told by their bits.
pub proof fn finite_means(b: u32)
    ensures
        finite(b) <==> b as int % 0x8000_0000 < 0x7f80_0000,
{
}

/// No magnitude is nearer to a fraction than the one next to it.
proof fn nearest_is_nearest(num: int, den: int, m: int, k: int)
    requires
        den > 0,
        nearest(num, den, m),
        0 <= k < INFINITY,
    ensures
        m < INFINITY ==> size(num - den * units(m)) <= size(num - den * units(k)),
{
    let (a, b) = (units(m), units(k));
    if m < INFINITY && k > m {
        let c = units(m + 1);
        if m + 1 < k {
            units_increase(m + 1, k);
        }
        units_increase(m, k);
        assert(den * c <= den * b && den * (a + c) == den * a + den * c && den * a <= den * b)
            by (nonlinear_arith)
            requires
                den > 0,
                c <= b,
                a <= b,
        ;
    } else if m < INFINITY && k < m {
        let c = units(m - 1);
        if k < m - 1 {
            units_increase(k, m - 1);
        }
        units_increase(k, m);
        assert(den * b <= den * c && den * (c + a) == den * c + den * a && den * b <= den * a)
            by (nonlinear_arith)
            requires
                den > 0,
                b <= c,
                b <= a,
        ;
    }
}

/// A number that is not negative is nearer to one that is not, than its opposite is.
proof fn sign_is_nearest(num: int, den: int, m: int, z: u32)
    requires
        den > 0,
        num >= 0,
        nearest(num, den, m),
        m < INFINITY,
        finite(z),
    ensures
        size(num - den * units(m)) <= size(num - den * value(z)),
        size(-num - den * (-units(m))) <= size(-num - den * value(z)),
{
    let k = magnitude(z);
    nearest_is_nearest(num, den, m, k);
    let b = units(k);
    units_of_zero();
    if k > 0 {
        units_increase(0, k);
    }
    assert(den * b >= 0 && den * (-b) == -(den * b) && den * (-units(m)) == -(den * units(m)))
        by (nonlinear_arith)
        requires
            den > 0,
            b >= 0,
    ;
}

/// A sum is the number next to the exact sum: no finite number is nearer.
pub proof fn sum_is_nearest(a: u32, b: u32, z: u32)
    requires
        finite(a),
        finite(b),
        finite(z),
        finite(sum(a, b)),
    ensures
        size(value(a) + value(b) - value(sum(a, b))) <= size(value(a) + value(b) - value(z)),
{
    sum_exists(a, b);
    let s = value(a) + value(b);
    let r = sum(a, b);
    units_of_zero();
    if s != 0 {
        let t = size(s);
        sign_is_nearest(t, 1, magnitude(r), z);
        assert(1 * units(magnitude(r)) == units(magnitude(r)) && 1 * value(z) == value(z));
        assert(1 * (-units(magnitude(r))) == -units(magnitude(r)));
    }
}

/// A product is the number next to the exact product: no finite number is nearer. Values count
/// the smallest number, so a product of two counts its square.
pub proof fn product_is_nearest(a: u32, b: u32, z: u32)
    requires
        finite(a),
        finite(b),
        finite(z),
        finite(product(a, b)),
    ensures
        size(value(a) * value(b) - unit() * value(product(a, b))) <= size(
            value(a) * value(b) - unit() * value(z),
        ),
{
    product_exists(a, b);
    lemma_pow2_pos(149);
    units_of_zero();
    let (x, y) = (units(magnitude(a)), units(magnitude(b)));
    if magnitude(a) > 0 {
        units_increase(0, magnitude(a));
    }
    if magnitude(b) > 0 {
        units_increase(0, magnitude(b));
    }
    assert(x * y >= 0 && (-x) * y == -(x * y) && x * (-y) == -(x * y) && (-x) * (-y) == x * y)
        by (nonlinear_arith)
        requires
            x >= 0,
            y >= 0,
    ;
    sign_is_nearest(x * y, unit(), magnitude(product(a, b)), z);
}

} // verus!
