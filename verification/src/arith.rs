//! Arithmetic on single-precision numbers.
//!
//! What each operation returns is stated exactly, as IEEE 754 has it with rounding to
//! nearest, ties to even: the result is the representable number next to the exact one.
//! An index works over any [`Arithmetic`]; [`crate::soft::Soft`] is one that needs nothing
//! but integers.

use vstd::arithmetic::power2::{lemma_pow2_pos, lemma_pow2_unfold, pow2};
use vstd::prelude::*;
use crate::binary32::{finite, infinite, magnitude, nan, negative, INFINITY, NAN, SIGN};

verus! {

/// The significand of the number with magnitude `m`.
pub open spec fn significand(m: int) -> int {
    if m < 0x80_0000 {
        m
    } else {
        0x80_0000 + m % 0x80_0000
    }
}

/// The exponent of the number with magnitude `m`, counted from that of the smallest number.
pub open spec fn exponent(m: int) -> nat {
    if m < 0x80_0000 {
        0
    } else {
        (m / 0x80_0000 - 1) as nat
    }
}

/// How many times the smallest positive number the number with magnitude `m` is. The
/// infinity stands for the number that would follow the largest one.
pub open spec fn units(m: int) -> int {
    significand(m) * pow2(exponent(m))
}

/// A finite number as a multiple of the smallest positive number.
pub open spec fn value(b: u32) -> int {
    if negative(b) {
        -units(magnitude(b))
    } else {
        units(magnitude(b))
    }
}

/// How many smallest positive numbers there are in one.
pub open spec fn unit() -> int {
    pow2(149) as int
}

/// `m` is the magnitude next to `num / den` units; of two that are equally near, the even
/// one.
pub open spec fn nearest(num: int, den: int, m: int) -> bool {
    &&& 0 <= m <= INFINITY
    &&& m < INFINITY ==> {
        let s = den * (units(m) + units(m + 1));
        2 * num < s || (2 * num == s && m % 2 == 0)
    }
    &&& m > 0 ==> {
        let s = den * (units(m - 1) + units(m));
        2 * num > s || (2 * num == s && m % 2 == 0)
    }
}

/// `m` is the magnitude next to the square root of `num` units times units; of two that
/// are equally near, the even one.
pub open spec fn nearest_root(num: int, m: int) -> bool {
    &&& 0 <= m < INFINITY
    &&& {
        let s = units(m) + units(m + 1);
        4 * num < s * s || (4 * num == s * s && m % 2 == 0)
    }
    &&& m > 0 ==> {
        let s = units(m - 1) + units(m);
        4 * num > s * s || (4 * num == s * s && m % 2 == 0)
    }
}

/// `r` is `a + b`.
pub open spec fn is_sum(a: u32, b: u32, r: u32) -> bool {
    if nan(a) || nan(b) {
        r == NAN
    } else if infinite(a) {
        r == (if infinite(b) && a != b {
            NAN
        } else {
            a
        })
    } else if infinite(b) {
        r == b
    } else {
        let s = value(a) + value(b);
        if s == 0 {
            r == (if negative(a) && negative(b) {
                SIGN
            } else {
                0
            })
        } else {
            &&& negative(r) == (s < 0)
            &&& nearest(if s < 0 {
                -s
            } else {
                s
            }, 1, magnitude(r))
        }
    }
}

/// `r` is `a * b`.
pub open spec fn is_product(a: u32, b: u32, r: u32) -> bool {
    if nan(a) || nan(b) || (infinite(a) && magnitude(b) == 0) || (magnitude(a) == 0 && infinite(
        b,
    )) {
        r == NAN
    } else {
        &&& negative(r) == (negative(a) != negative(b))
        &&& if infinite(a) || infinite(b) {
            magnitude(r) == INFINITY
        } else {
            nearest(units(magnitude(a)) * units(magnitude(b)), unit(), magnitude(r))
        }
    }
}

/// `r` is `a / b`.
pub open spec fn is_quotient(a: u32, b: u32, r: u32) -> bool {
    if nan(a) || nan(b) || (infinite(a) && infinite(b)) || (magnitude(a) == 0 && magnitude(b)
        == 0) {
        r == NAN
    } else {
        &&& negative(r) == (negative(a) != negative(b))
        &&& if infinite(a) || magnitude(b) == 0 {
            magnitude(r) == INFINITY
        } else if infinite(b) {
            magnitude(r) == 0
        } else {
            nearest(units(magnitude(a)) * unit(), units(magnitude(b)), magnitude(r))
        }
    }
}

/// `r` is the square root of `a`.
pub open spec fn is_root(a: u32, r: u32) -> bool {
    if nan(a) {
        r == NAN
    } else if magnitude(a) == 0 {
        r == a
    } else if negative(a) {
        r == NAN
    } else if infinite(a) {
        r == a
    } else {
        !negative(r) && nearest_root(units(magnitude(a)) * unit(), magnitude(r))
    }
}

/// `r` is the number next to the integer `n`.
pub open spec fn is_whole(n: u64, r: u32) -> bool {
    !negative(r) && nearest(n * unit(), 1, magnitude(r))
}

/// `a + b`.
pub open spec fn sum(a: u32, b: u32) -> u32 {
    choose|r: u32| is_sum(a, b, r)
}

/// `a - b`.
pub open spec fn difference(a: u32, b: u32) -> u32 {
    sum(a, crate::binary32::opposite(b))
}

/// `a * b`.
pub open spec fn product(a: u32, b: u32) -> u32 {
    choose|r: u32| is_product(a, b, r)
}

/// `a / b`.
pub open spec fn quotient(a: u32, b: u32) -> u32 {
    choose|r: u32| is_quotient(a, b, r)
}

/// The square root of `a`.
pub open spec fn root(a: u32) -> u32 {
    choose|r: u32| is_root(a, r)
}

/// The number next to the integer `n`.
pub open spec fn whole(n: u64) -> u32 {
    choose|r: u32| is_whole(n, r)
}

/// The operations an index computes with.
pub trait Arithmetic {
    /// `a + b`.
    fn add(a: u32, b: u32) -> (r: u32)
        ensures
            r == sum(a, b),
    ;

    /// `a * b`.
    fn mul(a: u32, b: u32) -> (r: u32)
        ensures
            r == product(a, b),
    ;

    /// `a / b`.
    fn div(a: u32, b: u32) -> (r: u32)
        ensures
            r == quotient(a, b),
    ;

    /// The square root of `a`.
    fn sqrt(a: u32) -> (r: u32)
        ensures
            r == root(a),
    ;

    /// The number next to the integer `n`.
    fn from_count(n: u64) -> (r: u32)
        requires
            n < 0x2000_0000_0000_0000,
        ensures
            r == whole(n),
    ;
}

/// Magnitudes count the multiples of the smallest number in order.
pub proof fn units_step(m: int)
    requires
        0 <= m < INFINITY,
    ensures
        units(m) + pow2(exponent(m)) == units(m + 1),
        pow2(exponent(m)) > 0,
        units(m) >= 0,
{
    lemma_pow2_pos(exponent(m));
    let p = pow2(exponent(m)) as int;
    assert(significand(m) * p >= 0) by (nonlinear_arith)
        requires
            significand(m) >= 0,
            p >= 0,
    ;
    if exponent(m + 1) == exponent(m) {
        assert(significand(m + 1) == significand(m) + 1);
        assert((significand(m) + 1) * p == significand(m) * p + p) by (nonlinear_arith);
    } else {
        assert(exponent(m + 1) == exponent(m) + 1);
        lemma_pow2_unfold(exponent(m + 1));
        assert(significand(m) == 0xff_ffff);
        assert(significand(m + 1) == 0x80_0000);
    }
}

/// The magnitude of zero is no units.
pub proof fn units_of_zero()
    ensures
        units(0) == 0,
        units(1) == 1,
{
    let p = pow2(exponent(0)) as int;
    let s = significand(0);
    assert(s * p == 0) by (nonlinear_arith)
        requires
            s == 0,
    ;
    units_step(0);
    vstd::arithmetic::power2::lemma2_to64();
}

/// A larger magnitude is a larger number.
pub proof fn units_increase(m: int, k: int)
    requires
        0 <= m < k <= INFINITY,
    ensures
        units(m) < units(k),
    decreases k - m,
{
    units_step(k - 1);
    if m < k - 1 {
        units_increase(m, k - 1);
    }
}

/// Between two midpoints there is one magnitude.
pub proof fn midpoints_increase(m: int, k: int)
    requires
        0 <= m < k <= INFINITY,
    ensures
        units(m) + units(m + 1) <= units(k - 1) + units(k),
        m + 1 < k ==> units(m) + units(m + 1) < units(k - 1) + units(k),
        units(m) + units(m + 1) > 0,
{
    units_step(m);
    if m + 1 < k {
        units_increase(m, k - 1);
        units_increase(m + 1, k);
    }
}

proof fn nearest_below(num: int, den: int, m: int, k: int)
    requires
        den > 0,
        0 <= m < k <= INFINITY,
    ensures
        !nearest(num, den, m) || !nearest(num, den, k),
{
    midpoints_increase(m, k);
    let s = units(m) + units(m + 1);
    let t = units(k - 1) + units(k);
    if m + 1 < k {
        assert(den * s < den * t) by (nonlinear_arith)
            requires
                den > 0,
                s < t,
        ;
    } else {
        assert(den * s == den * t);
    }
}

/// Only one magnitude is nearest.
pub proof fn nearest_unique(num: int, den: int, m: int, k: int)
    requires
        den > 0,
        nearest(num, den, m),
        nearest(num, den, k),
    ensures
        m == k,
{
    if m < k {
        nearest_below(num, den, m, k);
    } else if k < m {
        nearest_below(num, den, k, m);
    }
}

proof fn nearest_root_below(num: int, m: int, k: int)
    requires
        0 <= m < k < INFINITY,
    ensures
        !nearest_root(num, m) || !nearest_root(num, k),
{
    midpoints_increase(m, k);
    let s = units(m) + units(m + 1);
    let t = units(k - 1) + units(k);
    if m + 1 < k {
        assert(s * s < t * t) by (nonlinear_arith)
            requires
                0 < s < t,
        ;
    } else {
        assert(s * s == t * t);
    }
}

/// Only one magnitude is nearest to a square root.
pub proof fn nearest_root_unique(num: int, m: int, k: int)
    requires
        nearest_root(num, m),
        nearest_root(num, k),
    ensures
        m == k,
{
    if m < k {
        nearest_root_below(num, m, k);
    } else if k < m {
        nearest_root_below(num, k, m);
    }
}

/// A sum is one number.
pub proof fn sum_is(a: u32, b: u32, r: u32)
    requires
        is_sum(a, b, r),
    ensures
        sum(a, b) == r,
{
    let c = sum(a, b);
    assert(is_sum(a, b, c));
    if !nan(a) && !nan(b) && !infinite(a) && !infinite(b) {
        let s = value(a) + value(b);
        if s != 0 {
            let t = if s < 0 {
                -s
            } else {
                s
            };
            nearest_unique(t, 1, magnitude(r), magnitude(c));
        }
    }
}

/// A product is one number.
pub proof fn product_is(a: u32, b: u32, r: u32)
    requires
        is_product(a, b, r),
    ensures
        product(a, b) == r,
{
    let c = product(a, b);
    assert(is_product(a, b, c));
    lemma_pow2_pos(149);
    if finite(a) && finite(b) {
        nearest_unique(
            units(magnitude(a)) * units(magnitude(b)),
            unit(),
            magnitude(r),
            magnitude(c),
        );
    }
}

/// A quotient is one number.
pub proof fn quotient_is(a: u32, b: u32, r: u32)
    requires
        is_quotient(a, b, r),
    ensures
        quotient(a, b) == r,
{
    let c = quotient(a, b);
    assert(is_quotient(a, b, c));
    if finite(a) && finite(b) && magnitude(b) != 0 {
        units_increase(0, magnitude(b));
        nearest_unique(
            units(magnitude(a)) * unit(),
            units(magnitude(b)),
            magnitude(r),
            magnitude(c),
        );
    }
}

/// A square root is one number.
pub proof fn root_is(a: u32, r: u32)
    requires
        is_root(a, r),
    ensures
        root(a) == r,
{
    let c = root(a);
    assert(is_root(a, c));
    if finite(a) && magnitude(a) != 0 && !negative(a) {
        nearest_root_unique(units(magnitude(a)) * unit(), magnitude(r), magnitude(c));
    }
}

/// One number is next to an integer.
pub proof fn whole_is(n: u64, r: u32)
    requires
        is_whole(n, r),
    ensures
        whole(n) == r,
{
    let c = whole(n);
    assert(is_whole(n, c));
    nearest_unique(n * unit(), 1, magnitude(r), magnitude(c));
}

} // verus!
