//! What holds of distances.

use vstd::arithmetic::power2::{lemma_pow2_adds, lemma_pow2_pos, pow2};
use vstd::prelude::*;
use crate::arith::{
    difference, exponent, is_product, is_root, is_sum, midpoints_increase, nearest, nearest_root,
    nearest_unique, product, product_is, root, root_is, significand, sum, sum_is, unit, units,
    units_increase, units_of_zero, units_step, value,
};
use crate::binary32::{
    all_finite, finite, infinite, lt, magnitude, nan, negative, opposite, opposite_reverses, place,
    INFINITY, NAN, SIGN,
};
use crate::distance::{
    across_lanes, coordinate_product, key_of, l2_sqr_of, lane_sum, natural_of, squared_difference,
    total, with_rest, LANES,
};
use crate::metric::Metric;

verus! {

/// There is a magnitude next to every fraction.
pub proof fn nearest_exists(num: int, den: int)
    requires
        num >= 0,
        den > 0,
    ensures
        exists|m: int| nearest(num, den, m),
{
    nearest_exists_from(num, den, 0);
}

proof fn nearest_exists_from(num: int, den: int, m: int)
    requires
        den > 0,
        0 <= m <= INFINITY,
        m > 0 ==> {
            let s = den * (units(m - 1) + units(m));
            2 * num > s || (2 * num == s && m % 2 == 0)
        },
    ensures
        exists|r: int| nearest(num, den, r),
    decreases INFINITY - m,
{
    if !nearest(num, den, m) {
        nearest_exists_from(num, den, m + 1);
    }
}

/// A sum is what it should be.
pub proof fn sum_exists(a: u32, b: u32)
    ensures
        is_sum(a, b, sum(a, b)),
{
    if nan(a) || nan(b) {
        assert(is_sum(a, b, NAN));
    } else if infinite(a) {
        let r = if infinite(b) && a != b {
            NAN
        } else {
            a
        };
        assert(is_sum(a, b, r));
    } else if infinite(b) {
        assert(is_sum(a, b, b));
    } else {
        let s = value(a) + value(b);
        if s == 0 {
            let r = if negative(a) && negative(b) {
                SIGN
            } else {
                0
            };
            assert(is_sum(a, b, r));
        } else {
            let t = if s < 0 {
                -s
            } else {
                s
            };
            nearest_exists(t, 1);
            let m = choose|m: int| nearest(t, 1, m);
            let r = if s < 0 {
                (m + SIGN) as u32
            } else {
                m as u32
            };
            assert(magnitude(r) == m);
            assert(is_sum(a, b, r));
        }
    }
}

/// A product is what it should be.
pub proof fn product_exists(a: u32, b: u32)
    ensures
        is_product(a, b, product(a, b)),
{
    let minus = negative(a) != negative(b);
    if nan(a) || nan(b) || (infinite(a) && magnitude(b) == 0) || (magnitude(a) == 0 && infinite(
        b,
    )) {
        assert(is_product(a, b, NAN));
    } else if infinite(a) || infinite(b) {
        let r = if minus {
            (INFINITY + SIGN) as u32
        } else {
            INFINITY
        };
        assert(is_product(a, b, r));
    } else {
        lemma_pow2_pos(149);
        units_are_positive(magnitude(a));
        units_are_positive(magnitude(b));
        let x = units(magnitude(a));
        let y = units(magnitude(b));
        assert(x * y >= 0) by (nonlinear_arith)
            requires
                x >= 0,
                y >= 0,
        ;
        let z = x * y;
        nearest_exists(z, unit());
        let m = choose|m: int| nearest(z, unit(), m);
        let r = if minus {
            (m + SIGN) as u32
        } else {
            m as u32
        };
        assert(magnitude(r) == m);
        assert(is_product(a, b, r));
    }
}

proof fn units_are_positive(m: int)
    requires
        0 <= m < INFINITY,
    ensures
        units(m) >= 0,
        m > 0 ==> units(m) > 0,
{
    units_step(m);
    if m > 0 {
        units_step(m - 1);
    }
}

/// Neither a NaN nor negative.
pub open spec fn is_natural(x: u32) -> bool {
    !nan(x) && !negative(x)
}

/// The sum of two numbers that are not negative is none either.
pub proof fn sum_is_natural(a: u32, b: u32)
    requires
        is_natural(a),
        is_natural(b),
    ensures
        is_natural(sum(a, b)),
{
    sum_exists(a, b);
    if finite(a) && finite(b) {
        units_are_positive(magnitude(a));
        units_are_positive(magnitude(b));
    }
}

/// The difference of finite numbers is not a NaN.
pub proof fn difference_is_a_number(a: u32, b: u32)
    requires
        finite(a),
        finite(b),
    ensures
        !nan(difference(a, b)),
{
    sum_exists(a, opposite(b));
}

/// A square is not negative.
pub proof fn square_is_natural(d: u32)
    requires
        !nan(d),
    ensures
        is_natural(product(d, d)),
{
    product_exists(d, d);
}

/// What is left of a finite number when it is taken from itself.
pub proof fn difference_of_same(a: u32)
    requires
        finite(a),
    ensures
        difference(a, a) == 0,
{
    assert(value(a) + value(opposite(a)) == 0);
    assert(is_sum(a, opposite(a), 0));
    sum_is(a, opposite(a), 0);
}

proof fn zeros()
    ensures
        product(0, 0) == 0,
        sum(0, 0) == 0,
{
    lemma_pow2_pos(149);
    units_of_zero();
    let u = unit();
    assert(u * (units(0) + units(1)) == u) by (nonlinear_arith)
        requires
            units(0) == 0,
            units(1) == 1,
    ;
    assert(units(0) * units(0) == 0) by (nonlinear_arith)
        requires
            units(0) == 0,
    ;
    assert(nearest(units(0) * units(0), u, 0));
    assert(is_product(0, 0, 0));
    product_is(0, 0, 0);
    assert(is_sum(0, 0, 0));
    sum_is(0, 0, 0);
}

/// Terms that are not negative have a sum that is not negative.
pub proof fn total_is_natural(term: spec_fn(int) -> u32, len: int)
    requires
        len >= 0,
        forall|i: int| 0 <= i < len ==> is_natural(#[trigger] term(i)),
    ensures
        is_natural(total(term, len)),
{
    rest_is_natural(term, len, len);
}

/// So is each sum on the way.
pub proof fn lane_is_natural(term: spec_fn(int) -> u32, len: int, lane: int, groups: int)
    requires
        forall|i: int| 0 <= i < len ==> is_natural(#[trigger] term(i)),
        0 <= lane < LANES,
        groups * LANES <= len,
    ensures
        is_natural(lane_sum(term, lane, groups)),
    decreases groups,
{
    if groups > 0 {
        lane_is_natural(term, len, lane, groups - 1);
        assert(is_natural(term((groups - 1) * LANES + lane)));
        sum_is_natural(lane_sum(term, lane, groups - 1), term((groups - 1) * LANES + lane));
    }
}

/// So is each sum on the way.
pub proof fn across_is_natural(term: spec_fn(int) -> u32, len: int, lanes: int, groups: int)
    requires
        forall|i: int| 0 <= i < len ==> is_natural(#[trigger] term(i)),
        lanes <= LANES,
        groups * LANES <= len,
    ensures
        is_natural(across_lanes(term, lanes, groups)),
    decreases lanes,
{
    if lanes > 0 {
        across_is_natural(term, len, lanes - 1, groups);
        lane_is_natural(term, len, lanes - 1, groups);
        sum_is_natural(
            across_lanes(term, lanes - 1, groups),
            lane_sum(term, lanes - 1, groups),
        );
    }
}

/// So is each sum on the way.
pub proof fn rest_is_natural(term: spec_fn(int) -> u32, len: int, end: int)
    requires
        len >= 0,
        end <= len,
        forall|i: int| 0 <= i < len ==> is_natural(#[trigger] term(i)),
    ensures
        is_natural(with_rest(term, len, end)),
    decreases end,
{
    let groups = len / LANES as int;
    if end <= 0 || end <= groups * LANES {
        across_is_natural(term, len, LANES as int, groups);
    } else {
        rest_is_natural(term, len, end - 1);
        assert(is_natural(term(end - 1)));
        sum_is_natural(with_rest(term, len, end - 1), term(end - 1));
    }
}

/// Terms that are all zero add up to zero.
pub proof fn total_of_zeros(term: spec_fn(int) -> u32, len: int)
    requires
        len >= 0,
        forall|i: int| 0 <= i < len ==> #[trigger] term(i) == 0,
    ensures
        total(term, len) == 0,
{
    rest_of_zeros(term, len, len);
}

proof fn lane_of_zeros(term: spec_fn(int) -> u32, len: int, lane: int, groups: int)
    requires
        forall|i: int| 0 <= i < len ==> #[trigger] term(i) == 0,
        0 <= lane < LANES,
        groups * LANES <= len,
    ensures
        lane_sum(term, lane, groups) == 0,
    decreases groups,
{
    if groups > 0 {
        lane_of_zeros(term, len, lane, groups - 1);
        assert(term((groups - 1) * LANES + lane) == 0);
        zeros();
    }
}

proof fn across_of_zeros(term: spec_fn(int) -> u32, len: int, lanes: int, groups: int)
    requires
        forall|i: int| 0 <= i < len ==> #[trigger] term(i) == 0,
        lanes <= LANES,
        groups * LANES <= len,
    ensures
        across_lanes(term, lanes, groups) == 0,
    decreases lanes,
{
    if lanes > 0 {
        across_of_zeros(term, len, lanes - 1, groups);
        lane_of_zeros(term, len, lanes - 1, groups);
        zeros();
    }
}

proof fn rest_of_zeros(term: spec_fn(int) -> u32, len: int, end: int)
    requires
        len >= 0,
        end <= len,
        forall|i: int| 0 <= i < len ==> #[trigger] term(i) == 0,
    ensures
        with_rest(term, len, end) == 0,
    decreases end,
{
    let groups = len / LANES as int;
    if end <= 0 || end <= groups * LANES {
        across_of_zeros(term, len, LANES as int, groups);
    } else {
        rest_of_zeros(term, len, end - 1);
        assert(term(end - 1) == 0);
        zeros();
    }
}

/// The squared distance of finite vectors is neither negative nor a NaN. It may be infinite.
pub proof fn l2_is_natural(a: Seq<u32>, b: Seq<u32>)
    requires
        a.len() == b.len(),
        all_finite(a),
        all_finite(b),
    ensures
        is_natural(l2_sqr_of(a, b)),
{
    let term = squared_difference(a, b);
    assert forall|i: int| 0 <= i < a.len() implies is_natural(#[trigger] term(i)) by {
        assert(finite(a[i]) && finite(b[i]));
        difference_is_a_number(a[i], b[i]);
        square_is_natural(difference(a[i], b[i]));
    }
    total_is_natural(term, a.len() as int);
}

/// A finite vector is at distance zero from itself.
pub proof fn l2_of_same_is_zero(a: Seq<u32>)
    requires
        all_finite(a),
    ensures
        l2_sqr_of(a, a) == 0,
        natural_of(Metric::L2, l2_sqr_of(a, a)) == 0,
{
    let term = squared_difference(a, a);
    assert forall|i: int| 0 <= i < a.len() implies #[trigger] term(i) == 0 by {
        assert(finite(a[i]));
        difference_of_same(a[i]);
        zeros();
    }
    total_of_zeros(term, a.len() as int);
    assert(is_root(0, 0));
    root_is(0, 0);
}

/// A product does not depend on the order of its factors.
pub proof fn product_commutes(a: u32, b: u32)
    ensures
        product(a, b) == product(b, a),
{
    product_exists(a, b);
    let x = units(magnitude(a));
    let y = units(magnitude(b));
    assert(x * y == y * x) by (nonlinear_arith);
    assert(is_product(b, a, product(a, b)));
    product_is(b, a, product(a, b));
}

/// A square depends on the magnitude alone.
pub proof fn square_ignores_sign(d: u32, e: u32)
    requires
        magnitude(d) == magnitude(e),
    ensures
        product(d, d) == product(e, e),
{
    product_exists(d, d);
    assert(is_product(e, e, product(d, d)));
    product_is(e, e, product(d, d));
}

/// The difference of two numbers has one magnitude, whichever is taken from the other.
proof fn difference_ignores_order(a: u32, b: u32)
    ensures
        magnitude(difference(a, b)) == magnitude(difference(b, a)),
{
    sum_exists(a, opposite(b));
    sum_exists(b, opposite(a));
    if finite(a) && finite(b) {
        let s = value(a) + value(opposite(b));
        let t = value(b) + value(opposite(a));
        assert(s == -t);
        if s != 0 {
            let u = if s < 0 {
                -s
            } else {
                s
            };
            nearest_unique(
                u,
                1,
                magnitude(difference(a, b)),
                magnitude(difference(b, a)),
            );
        }
    }
}

/// Both distances are symmetric.
pub proof fn keys_are_symmetric(metric: Metric, a: Seq<u32>, b: Seq<u32>)
    requires
        a.len() == b.len(),
    ensures
        key_of(metric, a, b) == key_of(metric, b, a),
{
    let (f, g) = (squared_difference(a, b), squared_difference(b, a));
    assert forall|i: int| #[trigger] f(i) == g(i) by {
        difference_ignores_order(a[i], b[i]);
        square_ignores_sign(difference(a[i], b[i]), difference(b[i], a[i]));
    }
    assert(f =~= g);
    let (p, q) = (coordinate_product(a, b), coordinate_product(b, a));
    assert forall|i: int| #[trigger] p(i) == q(i) by {
        product_commutes(a[i], b[i]);
    }
    assert(p =~= q);
}

/// The number that would follow the largest one is far larger than one.
pub proof fn one_is_small()
    ensures
        4 * unit() <= units(INFINITY as int),
{
    lemma_pow2_adds(149, 105);
    lemma_pow2_pos(105);
    lemma_pow2_pos(149);
    let p = pow2(149) as int;
    let q = pow2(105) as int;
    assert(exponent(INFINITY as int) == 254);
    assert(significand(INFINITY as int) == 0x80_0000);
    assert(4 * p <= 0x80_0000 * (p * q)) by (nonlinear_arith)
        requires
            p > 0,
            q >= 1,
    ;
}

/// There is a magnitude next to the square root of every finite number.
proof fn nearest_root_exists(x: int, num: int, m: int)
    requires
        0 <= x < units(INFINITY as int),
        num == x * unit(),
        0 <= m < INFINITY,
        m > 0 ==> {
            let s = units(m - 1) + units(m);
            4 * num > s * s || (4 * num == s * s && m % 2 == 0)
        },
    ensures
        exists|r: int| nearest_root(num, r),
    decreases INFINITY - m,
{
    if !nearest_root(num, m) {
        if m == INFINITY - 1 {
            let s = units(m) + units(m + 1);
            let u = units(INFINITY as int);
            let one = unit();
            units_are_positive(m);
            one_is_small();
            lemma_pow2_pos(149);
            assert(4 * (x * one) < s * s) by (nonlinear_arith)
                requires
                    0 <= x < u,
                    0 < one,
                    4 * one <= u,
                    s >= u,
            ;
            assert(nearest_root(num, m));
        } else {
            nearest_root_exists(x, num, m + 1);
        }
    }
}

/// A square root is what it should be.
pub proof fn root_exists(a: u32)
    ensures
        is_root(a, root(a)),
{
    if nan(a) {
        assert(is_root(a, NAN));
    } else if magnitude(a) == 0 {
        assert(is_root(a, a));
    } else if negative(a) {
        assert(is_root(a, NAN));
    } else if infinite(a) {
        assert(is_root(a, a));
    } else {
        let x = units(magnitude(a));
        units_are_positive(magnitude(a));
        units_increase(magnitude(a), INFINITY as int);
        let num = x * unit();
        nearest_root_exists(x, num, 0);
        let m = choose|m: int| nearest_root(num, m);
        let r = m as u32;
        assert(magnitude(r) == m);
        assert(is_root(a, r));
    }
}

/// Square roots are in the order of the numbers.
pub proof fn roots_keep_order(a: u32, b: u32)
    requires
        is_natural(a),
        is_natural(b),
        place(a) <= place(b),
    ensures
        is_natural(root(a)),
        is_natural(root(b)),
        place(root(a)) <= place(root(b)),
{
    root_exists(a);
    root_exists(b);
    if 0 < magnitude(a) && finite(b) {
        let x = units(magnitude(a));
        let y = units(magnitude(b));
        let m = magnitude(root(a));
        let k = magnitude(root(b));
        if a < b {
            units_increase(magnitude(a), magnitude(b));
        }
        lemma_pow2_pos(149);
        let one = unit();
        assert(x * one <= y * one) by (nonlinear_arith)
            requires
                x <= y,
                one > 0,
        ;
        if k < m {
            midpoints_increase(k, m);
            let s = units(k) + units(k + 1);
            let t = units(m - 1) + units(m);
            assert(s * s <= t * t) by (nonlinear_arith)
                requires
                    0 < s <= t,
            ;
            if k + 1 < m {
                assert(s * s < t * t) by (nonlinear_arith)
                    requires
                        0 < s < t,
                ;
            }
        }
    }
}

/// What is reported is in the order of the keys: distances grow with them, similarities fall.
pub proof fn natural_keeps_order(metric: Metric, a: u32, b: u32)
    requires
        !nan(a),
        !nan(b),
        metric == Metric::L2 ==> is_natural(a) && is_natural(b),
        !lt(b, a),
    ensures
        match metric {
            Metric::L2 => !lt(natural_of(metric, b), natural_of(metric, a)),
            Metric::InnerProduct => !lt(natural_of(metric, a), natural_of(metric, b)),
        },
{
    if metric == Metric::L2 {
        roots_keep_order(a, b);
    } else {
        opposite_reverses(b, a);
    }
}

} // verus!
