//! Single-precision numbers as their bit patterns.
//!
//! A number is held as the `u32` of its IEEE 754 binary32 encoding. Everything that the
//! encoding alone decides (which numbers are finite, how two of them compare, what the
//! opposite of a number is) is integer work and stands here; arithmetic proper is in
//! [`crate::arith`].

use vstd::prelude::*;

verus! {

/// The sign bit; as a number it is minus zero.
pub const SIGN: u32 = 0x8000_0000;

/// The magnitude of the infinities. Every larger magnitude is that of a NaN.
pub const INFINITY: u32 = 0x7f80_0000;

/// The NaN that arithmetic returns.
pub const NAN: u32 = 0x7fc0_0000;

/// The largest finite number.
pub const MAX: u32 = 0x7f7f_ffff;

/// The smallest (most negative) finite number.
pub const MIN: u32 = 0xff7f_ffff;

/// One.
pub const ONE: u32 = 0x3f80_0000;

/// Whether the sign bit is set.
pub open spec fn negative(b: u32) -> bool {
    b >= SIGN
}

/// The bits below the sign bit. They grow with the absolute value.
pub open spec fn magnitude(b: u32) -> int {
    if negative(b) {
        b - SIGN
    } else {
        b as int
    }
}

/// Not a number.
pub open spec fn nan(b: u32) -> bool {
    magnitude(b) > INFINITY
}

/// One of the two infinities.
pub open spec fn infinite(b: u32) -> bool {
    magnitude(b) == INFINITY
}

/// Neither an infinity nor a NaN.
pub open spec fn finite(b: u32) -> bool {
    magnitude(b) < INFINITY
}

/// Every number of a sequence is finite.
pub open spec fn all_finite(s: Seq<u32>) -> bool {
    forall|i: int| 0 <= i < s.len() ==> finite(#[trigger] s[i])
}

/// The place of a number among the numbers: both zeros are at 0, the negative numbers are
/// below. Of two numbers that are not NaN, the one at the lower place is the lesser.
pub open spec fn place(b: u32) -> int {
    if negative(b) {
        -magnitude(b)
    } else {
        magnitude(b)
    }
}

/// `a < b`. A NaN is neither less nor greater than anything.
pub open spec fn lt(a: u32, b: u32) -> bool {
    !nan(a) && !nan(b) && place(a) < place(b)
}

/// `a >= b`. A NaN is neither less nor greater than anything.
pub open spec fn ge(a: u32, b: u32) -> bool {
    !nan(a) && !nan(b) && place(a) >= place(b)
}

/// The number with the opposite sign.
pub open spec fn opposite(b: u32) -> u32 {
    if negative(b) {
        (b - SIGN) as u32
    } else {
        (b + SIGN) as u32
    }
}

/// The place of a number in the total order of IEEE 754, counted from 0: negative NaNs,
/// minus infinity, negative numbers, minus zero, zero, positive numbers, infinity, NaNs.
pub open spec fn total_place(b: u32) -> u32 {
    if negative(b) {
        (u32::MAX - b) as u32
    } else {
        (b + SIGN) as u32
    }
}

/// The number at a place of the total order.
pub open spec fn at_total_place(p: u32) -> u32 {
    if p >= SIGN {
        (p - SIGN) as u32
    } else {
        (u32::MAX - p) as u32
    }
}

/// The total order has one number at each place.
pub proof fn total_place_is_exact(b: u32)
    ensures
        at_total_place(total_place(b)) == b,
        total_place(at_total_place(b)) == b,
{
}

/// Wherever two numbers compare as less, the total order agrees.
pub proof fn total_place_respects_lt(a: u32, b: u32)
    ensures
        lt(a, b) ==> total_place(a) < total_place(b),
        !nan(a) && !nan(b) && total_place(a) < total_place(b) ==> lt(a, b) || place(a) == place(b),
{
}

/// Taking the opposite twice gives the number back, and reverses the order of numbers.
pub proof fn opposite_reverses(a: u32, b: u32)
    ensures
        opposite(opposite(a)) == a,
        lt(a, b) <==> lt(opposite(b), opposite(a)),
{
}

/// Whether a number is finite.
#[inline]
pub fn is_finite(b: u32) -> (r: bool)
    ensures
        r == finite(b),
{
    if b >= SIGN {
        b - SIGN < INFINITY
    } else {
        b < INFINITY
    }
}

/// Whether all numbers of a slice are finite.
pub fn is_all_finite(s: &[u32]) -> (r: bool)
    ensures
        r == all_finite(s@),
{
    let n: usize = s.len();
    for i in 0..n
        invariant
            n == s@.len(),
            forall|j: int| 0 <= j < i ==> finite(#[trigger] s@[j]),
    {
        if !is_finite(s[i]) {
            assert(!finite(s@[i as int]));
            return false;
        }
    }
    true
}

/// The place of a number that is not NaN, as an integer; `None` for a NaN.
#[inline]
fn place_of(b: u32) -> (r: Option<i64>)
    ensures
        r is Some <==> !nan(b),
        r matches Some(p) ==> p == place(b),
{
    if b >= SIGN {
        let m: u32 = b - SIGN;
        if m > INFINITY {
            None
        } else {
            Some(-(m as i64))
        }
    } else if b > INFINITY {
        None
    } else {
        Some(b as i64)
    }
}

/// `a < b`.
#[inline]
pub fn is_lt(a: u32, b: u32) -> (r: bool)
    ensures
        r == lt(a, b),
{
    match (place_of(a), place_of(b)) {
        (Some(p), Some(q)) => p < q,
        _ => false,
    }
}

/// `a >= b`.
#[inline]
pub fn is_ge(a: u32, b: u32) -> (r: bool)
    ensures
        r == ge(a, b),
{
    match (place_of(a), place_of(b)) {
        (Some(p), Some(q)) => p >= q,
        _ => false,
    }
}

/// The number with the opposite sign.
#[inline]
pub fn negate(b: u32) -> (r: u32)
    ensures
        r == opposite(b),
{
    if b >= SIGN {
        b - SIGN
    } else {
        b + SIGN
    }
}

/// The place of a number in the total order.
#[inline]
pub fn to_total_place(b: u32) -> (r: u32)
    ensures
        r == total_place(b),
{
    if b >= SIGN {
        u32::MAX - b
    } else {
        b + SIGN
    }
}

/// The number at a place of the total order.
#[inline]
pub fn from_total_place(p: u32) -> (r: u32)
    ensures
        r == at_total_place(p),
{
    if p >= SIGN {
        p - SIGN
    } else {
        u32::MAX - p
    }
}

} // verus!
