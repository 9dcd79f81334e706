//! Single-precision arithmetic in integers.

use vstd::arithmetic::power2::{
    lemma2_to64, lemma_pow2_adds, lemma_pow2_pos, lemma_pow2_strictly_increases, lemma_pow2_unfold,
    pow2,
};
use vstd::bits::{lemma_u64_shl_is_mul, lemma_u64_shr_is_div};
use vstd::prelude::*;
use vstd::std_specs::bits::axiom_u64_leading_zeros;
use crate::arith::{
    exponent, is_product, is_quotient, is_root, is_sum, nearest, product_is, quotient_is,
    root_is, significand, sum_is, unit, units, units_increase, units_of_zero, units_step, value,
    whole_is, Arithmetic,
};
use crate::binary32::{finite, magnitude, negative, INFINITY, NAN, SIGN};

verus! {

/// Arithmetic in integers alone.
pub struct Soft;

/// `2^e`, or one where `e` is negative.
spec fn up(e: int) -> int {
    if e > 0 {
        pow2(e as nat) as int
    } else {
        1
    }
}

/// What `c` says of an exact number: `c(s)` has the sign of twice the number minus `s`. The
/// number is `n * 2^e`, or, where `sticky`, lies strictly between that and `(n + 1) * 2^e`.
spec fn tells(c: spec_fn(int) -> int, n: int, e: int, sticky: bool) -> bool {
    &&& forall|s: int| #![trigger c(s)] 0 <= s && s * up(-e) < 2 * n * up(e) ==> c(s) > 0
    &&& forall|s: int| #![trigger c(s)]
        0 <= s && s * up(-e) == 2 * n * up(e) ==> (if sticky {
            c(s) > 0
        } else {
            c(s) == 0
        })
    &&& forall|s: int| #![trigger c(s)] 0 <= s && s * up(-e) >= 2 * (n + 1) * up(e) ==> c(s) < 0
    &&& !sticky ==> forall|s: int| #![trigger c(s)] 0 <= s && s * up(-e) > 2 * n * up(e) ==> c(s) < 0
}

/// `m` is the magnitude next to the number that `c` tells of.
spec fn nearest_by(c: spec_fn(int) -> int, m: int) -> bool {
    &&& 0 <= m <= INFINITY
    &&& m < INFINITY ==> {
        let v = c(units(m) + units(m + 1));
        v < 0 || (v == 0 && m % 2 == 0)
    }
    &&& m > 0 ==> {
        let v = c(units(m - 1) + units(m));
        v > 0 || (v == 0 && m % 2 == 0)
    }
}

proof fn up_pos(e: int)
    ensures
        up(e) >= 1,
{
    if e > 0 {
        lemma_pow2_pos(e as nat);
    }
}

/// The number of bits of a positive integer.
fn bit_length(n: u64) -> (r: u64)
    requires
        n > 0,
    ensures
        1 <= r <= 64,
        pow2((r - 1) as nat) <= n,
        r < 64 ==> n < pow2(r as nat),
{
    let z: u32 = n.leading_zeros();
    proof {
        axiom_u64_leading_zeros(n);
        let t = (63 - z) as u64;
        assert((n >> t) & 1u64 != 0u64);
        assert((n >> t) != 0u64) by (bit_vector)
            requires
                (n >> t) & 1u64 != 0u64,
        ;
        lemma_u64_shr_is_div(n, t);
        lemma_pow2_pos(t as nat);
        let p = pow2(t as nat) as int;
        assert(n as int >= p) by (nonlinear_arith)
            requires
                n as int / p != 0,
                p > 0,
                n >= 0,
        ;
        if z > 0 {
            let u = (64 - z) as u64;
            assert(n >> u == 0);
            lemma_u64_shr_is_div(n, u);
            lemma_pow2_pos(u as nat);
            let q = pow2(u as nat) as int;
            assert((n as int) < q) by (nonlinear_arith)
                requires
                    n as int / q == 0,
                    q > 0,
            ;
        }
    }
    64 - z as u64
}

/// The magnitude with significand `q` and exponent `e`.
proof fn magnitude_of(q: int, e: int)
    requires
        0 <= q < 0x100_0000,
        q >= 0x80_0000 || e == 0,
        0 <= e <= 253,
    ensures
        0 <= e * 0x80_0000 + q < INFINITY,
        units(e * 0x80_0000 + q) == q * up(e),
        units(e * 0x80_0000 + q + 1) == (q + 1) * up(e),
        (e * 0x80_0000 + q) % 2 == q % 2,
{
    let m = e * 0x80_0000 + q;
    lemma2_to64();
    assert(significand(m) == q);
    assert(exponent(m) == e);
    units_step(m);
    assert((q + 1) * up(e) == q * up(e) + up(e)) by (nonlinear_arith);
}

/// An exact number is next to itself.
proof fn exact_is_nearest(c: spec_fn(int) -> int, n: int, e: int, m: int)
    requires
        0 <= m < INFINITY,
        tells(c, n, e, false),
        units(m) * up(-e) == n * up(e),
    ensures
        nearest_by(c, m),
{
    up_pos(-e);
    let p = up(-e);
    units_step(m);
    let u = units(m);
    let hi = u + units(m + 1);
    assert(hi * p > 2 * (u * p)) by (nonlinear_arith)
        requires
            hi > 2 * u,
            p >= 1,
    ;
    assert(2 * (n * up(e)) == 2 * n * up(e)) by (nonlinear_arith);
    if m > 0 {
        units_step(m - 1);
        let lo = units(m - 1) + u;
        assert(lo * p < 2 * (u * p)) by (nonlinear_arith)
            requires
                lo < 2 * u,
                p >= 1,
        ;
    }
}

/// Rounding away the low bits.
proof fn rounded_is_nearest(
    c: spec_fn(int) -> int,
    n: int,
    e: int,
    sticky: bool,
    s: nat,
    q: int,
    rem: int,
    up_one: bool,
)
    requires
        tells(c, n, e, sticky),
        n > 0,
        s >= 1,
        n == q * pow2(s) + rem,
        0 <= rem < pow2(s),
        0 <= e + s <= 253,
        0 <= q < 0x100_0000,
        q >= 0x80_0000 || e + s == 0,
        up_one == (2 * rem > pow2(s) || (2 * rem == pow2(s) && (sticky || q % 2 == 1))),
    ensures
        nearest_by(
            c,
            (e + s) * 0x80_0000 + q + if up_one {
                1int
            } else {
                0
            },
        ),
{
    let f = e + s;
    let m = f * 0x80_0000 + q;
    let p = up(-e);
    let g = up(e);
    let h = pow2(s) as int;
    up_pos(-e);
    up_pos(e);
    lemma_pow2_pos(s);
    magnitude_of(q, f);
    // one step at the new exponent is 2^s steps at the old one
    assert(up(f) * p == h * g) by {
        if e >= 0 {
            lemma_pow2_adds(s, e as nat);
            lemma2_to64();
            assert(p == 1);
            assert(up(f) == pow2(f as nat));
            assert(g == pow2(e as nat));
        } else {
            lemma_pow2_adds(f as nat, (-e) as nat);
            lemma2_to64();
            assert(g == 1);
            assert(up(f) == pow2(f as nat));
        }
    }
    let u = units(m);
    assert(u * p == q * (h * g)) by (nonlinear_arith)
        requires
            u == q * up(f),
            up(f) * p == h * g,
    ;
    let v = units(m + 1);
    assert(v * p == (q + 1) * (h * g)) by (nonlinear_arith)
        requires
            v == (q + 1) * up(f),
            up(f) * p == h * g,
    ;
    assert(2 * n * g == 2 * (q * (h * g)) + 2 * (rem * g)) by (nonlinear_arith)
        requires
            n == q * h + rem,
    ;
    assert((q + 1) * (h * g) == q * (h * g) + h * g) by (nonlinear_arith);
    assert((u + v) * p == u * p + v * p) by (nonlinear_arith);
    let mid = u + v;
    assert(mid * p == 2 * (q * (h * g)) + h * g);
    units_step(m);
    if !up_one {
        if 2 * rem == h {
            assert(2 * (rem * g) == h * g) by (nonlinear_arith)
                requires
                    2 * rem == h,
            ;
            assert(c(mid) == 0);
        } else {
            assert(2 * rem + 1 <= h);
            if s == 1 {
                lemma2_to64();
            } else {
                lemma_pow2_unfold(s);
            }
            assert(h % 2 == 0);
            assert(2 * (n + 1) * g <= mid * p) by (nonlinear_arith)
                requires
                    2 * n * g == 2 * (q * (h * g)) + 2 * (rem * g),
                    mid * p == 2 * (q * (h * g)) + h * g,
                    2 * rem + 2 <= h,
                    g >= 1,
            ;
            assert(c(mid) < 0);
        }
        if m > 0 {
            units_step(m - 1);
            let lo = units(m - 1) + u;
            assert(lo * p < 2 * n * g) by (nonlinear_arith)
                requires
                    lo < 2 * u,
                    p >= 1,
                    u * p == q * (h * g),
                    2 * n * g == 2 * (q * (h * g)) + 2 * (rem * g),
                    rem >= 0,
                    g >= 1,
            ;
            assert(c(lo) > 0);
        }
    } else {
        if 2 * rem == h {
            assert(2 * (rem * g) == h * g) by (nonlinear_arith)
                requires
                    2 * rem == h,
            ;
            assert(c(mid) >= 0);
            assert(sticky ==> c(mid) > 0);
        } else {
            assert(mid * p < 2 * n * g) by (nonlinear_arith)
                requires
                    2 * n * g == 2 * (q * (h * g)) + 2 * (rem * g),
                    mid * p == 2 * (q * (h * g)) + h * g,
                    2 * rem > h,
                    g >= 1,
            ;
            assert(c(mid) > 0);
        }
        if m + 1 < INFINITY {
            units_step(m + 1);
            let hi = v + units(m + 2);
            assert(hi * p >= 2 * (n + 1) * g) by (nonlinear_arith)
                requires
                    hi > 2 * v,
                    p >= 1,
                    v * p == q * (h * g) + h * g,
                    2 * n * g == 2 * (q * (h * g)) + 2 * (rem * g),
                    rem + 1 <= h,
                    g >= 1,
            ;
            assert(c(hi) < 0);
        }
    }
}

/// A number beyond the largest one.
proof fn too_large(c: spec_fn(int) -> int, n: int, e: int, sticky: bool, q: int, f: int)
    requires
        tells(c, n, e, sticky),
        n * up(e) >= q * up(f),
        q >= 0x80_0000,
        f >= 254,
        e >= 0,
    ensures
        nearest_by(c, INFINITY as int),
{
    let i = INFINITY as int;
    let u = units(i);
    assert(significand(i) == 0x80_0000 && exponent(i) == 254);
    units_step(i - 1);
    let lo = units(i - 1) + u;
    if f > 254 {
        lemma_pow2_strictly_increases(254, f as nat);
    }
    assert(q * up(f) >= u) by (nonlinear_arith)
        requires
            q >= 0x80_0000,
            up(f) >= pow2(254),
            u == 0x80_0000 * pow2(254),
    ;
    assert(2 * n * up(e) == 2 * (n * up(e))) by (nonlinear_arith);
    assert(c(lo) > 0);
}

/// A number below half of the smallest one.
proof fn too_small(c: spec_fn(int) -> int, n: int, e: int, sticky: bool)
    requires
        tells(c, n, e, sticky),
        0 <= n < 0x4000_0000_0000_0000,
        e <= -64,
    ensures
        nearest_by(c, 0),
{
    lemma2_to64();
    if -e > 64 {
        lemma_pow2_strictly_increases(64, (-e) as nat);
    }
    assert(pow2(64) == 0x1_0000_0000_0000_0000) by {
        vstd::arithmetic::power2::lemma2_to64_rest();
    }
    units_step(0);
    units_of_zero();
    assert(1 * up(-e) >= 2 * (n + 1) * up(e));
    assert(c(1) < 0);
}

/// Cuts off the low `s` bits: what is left, what was cut off, and half of one step.
fn cut(n: u64, s: u64) -> (r: (u64, u64, u64))
    requires
        1 <= s <= 63,
    ensures
        n == r.0 * pow2(s as nat) + r.1,
        0 <= r.1 < pow2(s as nat),
        2 * r.2 == pow2(s as nat),
        pow2(s as nat) >= 2,
{
    let q: u64 = n >> s;
    proof {
        lemma2_to64();
        vstd::arithmetic::power2::lemma2_to64_rest();
        lemma_pow2_pos((s - 1) as nat);
        lemma_pow2_unfold(s as nat);
        lemma_u64_shr_is_div(n, s);
        let h = pow2(s as nat) as int;
        vstd::arithmetic::div_mod::lemma_fundamental_div_mod(n as int, h);
        vstd::arithmetic::div_mod::lemma_mod_bound(n as int, h);
        assert(h * q == q * h) by (nonlinear_arith);
        lemma_u64_shl_is_mul(q, s);
        lemma_pow2_strictly_increases((s - 1) as nat, 63);
        lemma_u64_shl_is_mul(1, (s - 1) as u64);
    }
    (q, n - (q << s), 1u64 << (s - 1))
}

/// Shifts a significand left without losing bits.
fn raise(n: u64, len: u64, t: u64) -> (q: u64)
    requires
        1 <= len,
        len + t <= 24,
        pow2((len - 1) as nat) <= n < pow2(len as nat),
    ensures
        q == n * pow2(t as nat),
        q < 0x100_0000,
        len + t == 24 ==> q >= 0x80_0000,
{
    proof {
        lemma2_to64();
        let h = pow2(t as nat) as int;
        lemma_pow2_pos(t as nat);
        lemma_pow2_adds((len - 1) as nat, t as nat);
        lemma_pow2_adds(len as nat, t as nat);
        let a = pow2((len - 1) as nat) as int;
        let b = pow2(len as nat) as int;
        assert(a * h <= n * h < b * h) by (nonlinear_arith)
            requires
                a <= n < b,
                h >= 1,
        ;
        if len + t < 24 {
            lemma_pow2_strictly_increases((len + t) as nat, 24);
        }
        lemma_u64_shl_is_mul(n, t);
    }
    n << t
}

/// Where every bit fits: the magnitude of the number that `c` tells of.
fn pack_exact(n: u64, len: u64, e: i64, Ghost(c): Ghost<spec_fn(int) -> int>) -> (m: u32)
    requires
        0 <= e <= 1000,
        1 <= len <= 24,
        pow2((len - 1) as nat) <= n < pow2(len as nat),
        tells(c, n as int, e as int, false),
    ensures
        nearest_by(c, m as int),
{
    let room: u64 = 24 - len;
    let t: u64 = if (room as i64) < e {
        room
    } else {
        e as u64
    };
    let q: u64 = raise(n, len, t);
    let f: i64 = e - t as i64;
    proof {
        lemma2_to64();
        lemma_pow2_adds(t as nat, f as nat);
        let h = pow2(t as nat) as int;
        assert((n * h) * up(f as int) == n * (h * up(f as int))) by (nonlinear_arith);
        assert(q * up(f as int) == n * up(e as int));
    }
    if f > 253 {
        proof {
            too_large(c, n as int, e as int, false, q as int, f as int);
        }
        return INFINITY;
    }
    proof {
        magnitude_of(q as int, f as int);
        exact_is_nearest(c, n as int, e as int, f * 0x80_0000 + q);
    }
    (f as u32) * 0x80_0000 + q as u32
}

/// The magnitude next to the number that `c` tells of.
fn pack(n: u64, e: i64, sticky: bool, Ghost(c): Ghost<spec_fn(int) -> int>) -> (m: u32)
    requires
        0 < n < 0x4000_0000_0000_0000,
        -1000 <= e <= 1000,
        sticky ==> n >= 0x100_0000,
        tells(c, n as int, e as int, sticky),
    ensures
        nearest_by(c, m as int),
{
    let len: u64 = bit_length(n);
    proof {
        lemma2_to64();
        vstd::arithmetic::power2::lemma2_to64_rest();
        if len - 1 > 62 {
            lemma_pow2_strictly_increases(62, (len - 1) as nat);
        }
    }
    let drop: i64 = if len as i64 - 24 > -e {
        len as i64 - 24
    } else {
        -e
    };
    if drop <= 0 {
        proof {
            if len < 24 {
                lemma_pow2_strictly_increases(len as nat, 24);
            }
        }
        return pack_exact(n, len, e, Ghost(c));
    }
    if drop >= 64 {
        proof {
            too_small(c, n as int, e as int, sticky);
        }
        return 0;
    }
    let s: u64 = drop as u64;
    let (q, rem, half) = cut(n, s);
    let f: i64 = e + drop;
    proof {
        let h = pow2(s as nat) as int;
        // q has at most 24 bits, and exactly 24 where only they are kept
        lemma_pow2_adds(24, s as nat);
        if len < 24 + s {
            lemma_pow2_strictly_increases(len as nat, (24 + s) as nat);
        }
        assert(q < 0x100_0000) by (nonlinear_arith)
            requires
                n == q * h + rem,
                rem >= 0,
                n < 0x100_0000 * h,
                h >= 1,
        ;
        if f > 0 {
            assert(s == len - 24);
            lemma_pow2_adds(23, s as nat);
            assert(q >= 0x80_0000) by (nonlinear_arith)
                requires
                    n == q * h + rem,
                    rem < h,
                    n >= 0x80_0000 * h,
                    h >= 1,
            ;
        }
    }
    if f > 253 {
        proof {
            let h = pow2(s as nat) as int;
            let g = up(e as int);
            lemma_pow2_adds(s as nat, e as nat);
            up_pos(e as int);
            assert(n * g >= q * (h * g)) by (nonlinear_arith)
                requires
                    n == q * h + rem,
                    rem >= 0,
                    g >= 1,
            ;
            too_large(c, n as int, e as int, sticky, q as int, f as int);
        }
        return INFINITY;
    }
    let up_one: bool = rem > half || (rem == half && (sticky || q % 2 == 1));
    proof {
        rounded_is_nearest(
            c,
            n as int,
            e as int,
            sticky,
            s as nat,
            q as int,
            rem as int,
            up_one,
        );
        magnitude_of(q as int, f as int);
    }
    let m: u32 = (f as u32) * 0x80_0000 + q as u32;
    if up_one {
        m + 1
    } else {
        m
    }
}

/// Whether the sign bit is set, and the bits below it.
fn split(b: u32) -> (r: (bool, u32))
    ensures
        r.0 == negative(b),
        r.1 == magnitude(b),
{
    if b >= SIGN {
        (true, b - SIGN)
    } else {
        (false, b)
    }
}

/// The number with a sign and a magnitude.
fn joined(neg: bool, m: u32) -> (r: u32)
    requires
        m <= INFINITY,
    ensures
        negative(r) == neg,
        magnitude(r) == m,
{
    if neg {
        m + SIGN
    } else {
        m
    }
}

/// Significand and exponent of a finite magnitude.
fn parts(m: u32) -> (r: (u64, i64))
    requires
        m < INFINITY,
    ensures
        r.0 == significand(m as int),
        r.1 == exponent(m as int),
        0 <= r.0 < 0x100_0000,
        0 <= r.1 <= 253,
        r.1 > 0 ==> r.0 >= 0x80_0000,
        r.0 == 0 <==> m == 0,
        units(m as int) == r.0 * up(r.1 as int),
{
    proof {
        lemma2_to64();
    }
    if m < 0x80_0000 {
        (m as u64, 0)
    } else {
        ((0x80_0000 + m % 0x80_0000) as u64, (m / 0x80_0000 - 1) as i64)
    }
}

/// Shifting a significand left keeps all its bits.
proof fn lemma_u64_shl_is_mul_bounded(n: u64, t: u64)
    requires
        n < 0x100_0000,
        t <= 36,
    ensures
        n << t == n * pow2(t as nat),
        n * pow2(t as nat) < 0x1000_0000_0000_0000,
        pow2(t as nat) >= 1,
{
    lemma2_to64();
    vstd::arithmetic::power2::lemma2_to64_rest();
    lemma_pow2_pos(t as nat);
    let h = pow2(t as nat) as int;
    if t < 36 {
        lemma_pow2_strictly_increases(t as nat, 36);
    }
    assert(n * h <= 0xff_ffff * 0x10_0000_0000) by (nonlinear_arith)
        requires
            n <= 0xff_ffff,
            0 <= h <= 0x10_0000_0000,
    ;
    lemma_u64_shl_is_mul(n, t);
}

/// What tells of a number that is `n * 2^e`.
proof fn tells_exact(n: int, e: int, num: int, den: int)
    requires
        den > 0,
        num * up(-e) == n * up(e) * den,
    ensures
        tells(|s: int| 2 * num - den * s, n, e, false),
{
    let c = |s: int| 2 * num - den * s;
    let p = up(-e);
    let g = up(e);
    up_pos(e);
    up_pos(-e);
    assert forall|s: int| #![trigger c(s)] true implies c(s) * p == den * (2 * n * g - s * p) by {
        assert((2 * num - den * s) * p == den * (2 * n * g - s * p)) by (nonlinear_arith)
            requires
                num * p == n * g * den,
        ;
    }
    assert forall|s: int| #![trigger c(s)] s * p < 2 * n * g implies c(s) > 0 by {
        let v = c(s);
        let d = 2 * n * g - s * p;
        assert(v * p == den * d);
        assert(v > 0) by (nonlinear_arith)
            requires
                v * p == den * d,
                d > 0,
                den > 0,
                p >= 1,
        ;
    }
    assert forall|s: int| #![trigger c(s)] s * p == 2 * n * g implies c(s) == 0 by {
        let v = c(s);
        let d = 2 * n * g - s * p;
        assert(v * p == den * d);
        assert(v == 0) by (nonlinear_arith)
            requires
                v * p == den * d,
                d == 0,
                p >= 1,
        ;
    }
    assert forall|s: int| #![trigger c(s)] s * p > 2 * n * g implies c(s) < 0 by {
        let v = c(s);
        let d = 2 * n * g - s * p;
        assert(v * p == den * d);
        assert(v < 0) by (nonlinear_arith)
            requires
                v * p == den * d,
                d < 0,
                den > 0,
                p >= 1,
        ;
    }
    assert(2 * (n + 1) * g == 2 * n * g + 2 * g) by (nonlinear_arith);
}

/// Nearness told of by a difference is nearness.
proof fn nearest_from(num: int, den: int, m: int)
    requires
        nearest_by(|s: int| 2 * num - den * s, m),
    ensures
        nearest(num, den, m),
{
    let c = |s: int| 2 * num - den * s;
    if m < INFINITY {
        let s = units(m) + units(m + 1);
        assert(c(s) == 2 * num - den * s);
    }
    if m > 0 {
        let s = units(m - 1) + units(m);
        assert(c(s) == 2 * num - den * s);
    }
}

/// Rounds `n * 2^e`.
fn round(n: u64, e: i64, Ghost(num): Ghost<int>, Ghost(den): Ghost<int>) -> (m: u32)
    requires
        0 < n < 0x4000_0000_0000_0000,
        -1000 <= e <= 1000,
        den > 0,
        num * up(-e as int) == n * up(e as int) * den,
    ensures
        nearest(num, den, m as int),
{
    let ghost c = |s: int| 2 * num - den * s;
    proof {
        tells_exact(n as int, e as int, num, den);
    }
    let m: u32 = pack(n, e, false, Ghost(c));
    proof {
        nearest_from(num, den, m as int);
    }
    m
}

/// Next to a number, one that is far smaller does not count.
proof fn far_apart(m: int, k: int, s: int)
    requires
        0 <= k <= m < INFINITY,
        exponent(m) > exponent(k) + 36,
        s == units(m) + units(k) || s == units(m) - units(k),
    ensures
        nearest(s, 1, m),
{
    let e = exponent(m) as int;
    units_step(m);
    units_step(m - 1);
    units_step(k);
    lemma_pow2_pos(exponent(k));
    assert(exponent(m - 1) >= e - 1);
    lemma_pow2_unfold(exponent(m));
    if exponent(m - 1) != (e - 1) as nat {
        assert(exponent(m - 1) == e);
    }
    // 2^24 smaller steps are less than one larger step
    let p = pow2(exponent(k)) as int;
    let q = pow2(exponent(m)) as int;
    lemma2_to64();
    vstd::arithmetic::power2::lemma2_to64_rest();
    lemma_pow2_adds(36, exponent(k));
    lemma_pow2_strictly_increases(36 + exponent(k), exponent(m));
    assert(q > 0x10_0000_0000 * p);
    assert(units(k) < 0x100_0000 * p) by (nonlinear_arith)
        requires
            units(k) == significand(k) * p,
            significand(k) < 0x100_0000,
            p >= 1,
    ;
}

/// Powers of two on both sides of an exponent.
proof fn balanced(x: nat, y: nat)
    ensures
        pow2(x) * up(y - x) == pow2(y) * up(x - y),
{
    if x < y {
        lemma_pow2_adds(x, (y - x) as nat);
    } else if y < x {
        lemma_pow2_adds(y, (x - y) as nat);
    }
}

/// What tells of a quotient with a remainder.
proof fn tells_division(
    q: int,
    r: int,
    b: int,
    e: int,
    num: int,
    den: int,
    k: int,
    l: int,
)
    requires
        k > 0,
        l > 0,
        0 <= r < b,
        num * k == l * ((q * b + r) * up(e)),
        den * k == l * (b * up(-e)),
    ensures
        tells(|s: int| 2 * num - den * s, q, e, r > 0),
{
    let c = |s: int| 2 * num - den * s;
    let p = up(-e);
    let g = up(e);
    up_pos(e);
    up_pos(-e);
    assert forall|s: int| #![trigger c(s)] true implies c(s) * k == l * (b * (2 * q * g - s * p) + 2
        * r * g) by {
        assert((2 * num - den * s) * k == 2 * (num * k) - s * (den * k)) by (nonlinear_arith);
        let x = b * (q * g);
        let y = r * g;
        let z = b * p;
        assert((q * b + r) * g == x + y) by (nonlinear_arith)
            requires
                x == b * (q * g),
                y == r * g,
        ;
        assert(b * (2 * q * g - s * p) == 2 * x - s * z) by (nonlinear_arith)
            requires
                x == b * (q * g),
                z == b * p,
        ;
        assert(2 * r * g == 2 * y) by (nonlinear_arith)
            requires
                y == r * g,
        ;
        assert(2 * (l * (x + y)) - s * (l * z) == l * (2 * x - s * z + 2 * y)) by (nonlinear_arith);
    }
    assert forall|s: int| #![trigger c(s)] s * p < 2 * q * g implies c(s) > 0 by {
        let v = c(s);
        let d = 2 * q * g - s * p;
        let w = b * d + 2 * r * g;
        assert(v * k == l * w);
        assert(w > 0) by (nonlinear_arith)
            requires
                w == b * d + 2 * r * g,
                d > 0,
                b > 0,
                r >= 0,
                g >= 1,
        ;
        assert(v > 0) by (nonlinear_arith)
            requires
                v * k == l * w,
                w > 0,
                l > 0,
                k > 0,
        ;
    }
    assert forall|s: int| #![trigger c(s)] s * p == 2 * q * g implies (if r > 0 {
        c(s) > 0
    } else {
        c(s) == 0
    }) by {
        let v = c(s);
        let w = 2 * r * g;
        assert(b * (2 * q * g - s * p) == 0) by (nonlinear_arith)
            requires
                s * p == 2 * q * g,
        ;
        assert(v * k == l * w);
        if r > 0 {
            assert(w > 0) by (nonlinear_arith)
                requires
                    w == 2 * r * g,
                    r > 0,
                    g >= 1,
            ;
            assert(v > 0) by (nonlinear_arith)
                requires
                    v * k == l * w,
                    w > 0,
                    l > 0,
                    k > 0,
            ;
        } else {
            assert(w == 0) by (nonlinear_arith)
                requires
                    w == 2 * r * g,
                    r == 0,
            ;
            assert(v == 0) by (nonlinear_arith)
                requires
                    v * k == l * w,
                    w == 0,
                    k > 0,
            ;
        }
    }
    assert forall|s: int| #![trigger c(s)] (s * p >= 2 * (q + 1) * g || (r == 0 && s * p > 2 * q
        * g)) implies c(s) < 0 by {
        let v = c(s);
        let d = 2 * q * g - s * p;
        let w = b * d + 2 * r * g;
        assert(v * k == l * w);
        assert(2 * (q + 1) * g == 2 * q * g + 2 * g) by (nonlinear_arith);
        if r == 0 {
            assert(d < 0);
            assert(w < 0) by (nonlinear_arith)
                requires
                    w == b * d + 2 * r * g,
                    d < 0,
                    b > 0,
                    r == 0,
            ;
        } else {
            assert(w < 0) by (nonlinear_arith)
                requires
                    w == b * d + 2 * r * g,
                    d <= -2 * g,
                    b > r,
                    r >= 0,
                    g >= 1,
            ;
        }
        assert(v < 0) by (nonlinear_arith)
            requires
                v * k == l * w,
                w < 0,
                l > 0,
                k > 0,
        ;
    }
}

/// What tells of a square root with a remainder.
proof fn tells_square_root(q: int, r: int, e: int, num: int)
    requires
        q >= 0,
        e >= 0,
        0 <= r,
        q * q + r < (q + 1) * (q + 1),
        num == (q * q + r) * (up(e) * up(e)),
    ensures
        tells(|s: int| 4 * num - s * s, q, e, r > 0),
{
    let c = |s: int| 4 * num - s * s;
    let p = up(-e);
    let g = up(e);
    up_pos(e);
    assert(p == 1);
    let f = 2 * q * g;
    assert(4 * num == f * f + 4 * (r * (g * g))) by (nonlinear_arith)
        requires
            num == (q * q + r) * (g * g),
            f == 2 * q * g,
    ;
    assert(g * g >= 1) by (nonlinear_arith)
        requires
            g >= 1,
    ;
    assert(r * (g * g) >= r) by (nonlinear_arith)
        requires
            r >= 0,
            g * g >= 1,
    ;
    assert(r == 0 ==> r * (g * g) == 0) by (nonlinear_arith);
    assert forall|s: int| #![trigger c(s)] 0 <= s < f implies c(s) > 0 by {
        assert(s * s < f * f) by (nonlinear_arith)
            requires
                0 <= s < f,
        ;
    }
    assert forall|s: int| #![trigger c(s)] r == 0 && s > f implies c(s) < 0 by {
        assert(f >= 0) by (nonlinear_arith)
            requires
                f == 2 * q * g,
                q >= 0,
                g >= 1,
        ;
        assert(s * s > f * f) by (nonlinear_arith)
            requires
                s > f,
                f >= 0,
        ;
    }
    let h = 2 * (q + 1) * g;
    assert(4 * num < h * h) by (nonlinear_arith)
        requires
            num == (q * q + r) * (g * g),
            q * q + r < (q + 1) * (q + 1),
            h == 2 * (q + 1) * g,
            g >= 1,
    ;
    assert(h >= 0) by (nonlinear_arith)
        requires
            h == 2 * (q + 1) * g,
            q >= 0,
            g >= 1,
    ;
    assert forall|s: int| #![trigger c(s)] s >= h implies c(s) < 0 by {
        assert(s * s >= h * h) by (nonlinear_arith)
            requires
                s >= h,
                h >= 0,
        ;
    }
}

/// The integer square root.
fn integer_root(n: u64) -> (q: u64)
    requires
        n < 0x4000_0000_0000_0000,
    ensures
        q * q <= n < (q + 1) * (q + 1),
        q < 0x8000_0000,
{
    let mut lo: u64 = 0;
    let mut hi: u64 = 0x8000_0000;
    while lo + 1 < hi
        invariant
            lo < hi <= 0x8000_0000,
            lo * lo <= n < hi * hi,
        decreases hi - lo,
    {
        let mid: u64 = lo + (hi - lo) / 2;
        assert(mid * mid < 0x8000_0000 * 0x8000_0000) by (nonlinear_arith)
            requires
                0 <= mid < 0x8000_0000,
        ;
        if mid * mid <= n {
            lo = mid;
        } else {
            hi = mid;
        }
    }
    lo
}

/// A significand shifted left until it has 24 bits, and by how much.
fn normal(n: u64) -> (r: (u64, i64))
    requires
        0 < n < 0x100_0000,
    ensures
        0x80_0000 <= r.0 < 0x100_0000,
        0 <= r.1 <= 23,
        r.0 == n * pow2(r.1 as nat),
{
    let len: u64 = bit_length(n);
    proof {
        lemma2_to64();
        if len > 25 {
            lemma_pow2_strictly_increases(24, (len - 1) as nat);
        }
    }
    let t: u64 = 24 - len;
    (raise(n, len, t), t as i64)
}

impl Soft {
    fn mul_finite(a: u32, b: u32) -> (r: u32)
        requires
            finite(a),
            finite(b),
        ensures
            is_product(a, b, r),
    {
        let (na, ma) = split(a);
        let (nb, mb) = split(b);
        let (sa, ea) = parts(ma);
        let (sb, eb) = parts(mb);
        let neg: bool = na != nb;
        let ghost num = units(ma as int) * units(mb as int);
        let ghost den = unit();
        proof {
            lemma_pow2_pos(149);
            units_of_zero();
        }
        if ma == 0 || mb == 0 {
            proof {
                assert(num == 0) by (nonlinear_arith)
                    requires
                        num == units(ma as int) * units(mb as int),
                        units(ma as int) == 0 || units(mb as int) == 0,
                ;
                assert(nearest(num, den, 0));
            }
            return joined(neg, 0);
        }
        assert(0 < sa * sb <= 0xff_ffff * 0xff_ffff) by (nonlinear_arith)
            requires
                0 < sa <= 0xff_ffff,
                0 < sb <= 0xff_ffff,
        ;
        let n: u64 = sa * sb;
        let e: i64 = ea + eb - 149;
        proof {
            lemma2_to64();
            let x = pow2((ea + eb) as nat) as int;
            let y = pow2(149) as int;
            let p = up(-e as int);
            let g = up(e as int);
            lemma_pow2_adds(ea as nat, eb as nat);
            assert(num == n * x) by (nonlinear_arith)
                requires
                    num == (sa * up(ea as int)) * (sb * up(eb as int)),
                    x == up(ea as int) * up(eb as int),
                    n == sa * sb,
            ;
            balanced((ea + eb) as nat, 149);
            assert(num * p == n * g * den) by (nonlinear_arith)
                requires
                    num == n * x,
                    x * p == y * g,
                    den == y,
            ;
        }
        let m: u32 = round(n, e, Ghost(num), Ghost(den));
        joined(neg, m)
    }

    fn div_finite(a: u32, b: u32) -> (r: u32)
        requires
            finite(a),
            finite(b),
            magnitude(b) != 0,
        ensures
            is_quotient(a, b, r),
    {
        let (na, ma) = split(a);
        let (nb, mb) = split(b);
        let (sa, ea) = parts(ma);
        let (sb, eb) = parts(mb);
        let neg: bool = na != nb;
        let ghost num = units(ma as int) * unit();
        let ghost den = units(mb as int);
        proof {
            units_of_zero();
            units_increase(0, mb as int);
        }
        if ma == 0 {
            proof {
                assert(num == 0) by (nonlinear_arith)
                    requires
                        num == units(ma as int) * unit(),
                        units(ma as int) == 0,
                ;
                assert(nearest(num, den, 0));
            }
            return joined(neg, 0);
        }
        let (n1, t) = normal(sa);
        proof {
            lemma_u64_shl_is_mul_bounded(n1, 36);
            lemma2_to64();
            vstd::arithmetic::power2::lemma2_to64_rest();
        }
        let top: u64 = n1 << 36u64;
        let q: u64 = top / sb;
        let rest: u64 = top % sb;
        let e: i64 = ea - t - eb + 113;
        let ghost c = |s: int| 2 * num - den * s;
        proof {
            assert(top == q * sb + rest) by (nonlinear_arith)
                requires
                    q == top / sb,
                    rest == top % sb,
                    sb > 0,
            ;
            assert(q >= 0x100_0000 && q <= top) by (nonlinear_arith)
                requires
                    top == q * sb + rest,
                    rest < sb,
                    0 < sb <= 0xff_ffff,
                    top >= 0x80_0000 * 0x10_0000_0000,
            ;
            let x = (ea + 149) as nat;
            let y = (eb + t + 36) as nat;
            balanced(x, y);
            let p = up(-e as int);
            let g = up(e as int);
            up_pos(-e as int);
            let h = pow2(t as nat) as int;
            let w = h * 0x10_0000_0000;
            lemma_pow2_pos(t as nat);
            lemma_pow2_pos(y);
            lemma_pow2_adds(ea as nat, 149);
            lemma_pow2_adds(eb as nat, t as nat);
            lemma_pow2_adds((eb + t) as nat, 36);
            assert(w * p > 0) by (nonlinear_arith)
                requires
                    w == h * 0x10_0000_0000,
                    h > 0,
                    p >= 1,
            ;
            let px = pow2(x) as int;
            let py = pow2(y) as int;
            let pa = up(ea as int);
            let pb = up(eb as int);
            let z = unit();
            assert(num * w == top * px) by (nonlinear_arith)
                requires
                    num == (sa * pa) * z,
                    px == pa * z,
                    w == h * 0x10_0000_0000,
                    top == (sa * h) * 0x10_0000_0000,
            ;
            assert(num * (w * p) == py * ((q * sb + rest) * g)) by (nonlinear_arith)
                requires
                    num * w == top * px,
                    px * p == py * g,
                    top == q * sb + rest,
            ;
            assert(den * (w * p) == py * (sb * p)) by (nonlinear_arith)
                requires
                    den == sb * pb,
                    py == (pb * h) * 0x10_0000_0000,
                    w == h * 0x10_0000_0000,
            ;
            tells_division(q as int, rest as int, sb as int, e as int, num, den, w * p, py);
        }
        let m: u32 = pack(q, e, rest > 0, Ghost(c));
        proof {
            nearest_from(num, den, m as int);
        }
        joined(neg, m)
    }

    fn sqrt_finite(a: u32) -> (r: u32)
        requires
            0 < a < INFINITY,
        ensures
            is_root(a, r),
    {
        let (sa, ea) = parts(a);
        let ghost num = units(a as int) * unit();
        let (n1, t) = normal(sa);
        let f: i64 = ea - t + 149;
        let odd: bool = f % 2 != 0;
        let n2: u64 = if odd {
            n1 * 2
        } else {
            n1
        };
        let f2: i64 = if odd {
            f - 1
        } else {
            f
        };
        proof {
            lemma2_to64();
            vstd::arithmetic::power2::lemma2_to64_rest();
            assert(n2 * 0x10_0000_0000 < 0x4000_0000_0000_0000);
            lemma_u64_shl_is_mul(n2, 36);
        }
        let top: u64 = n2 << 36u64;
        let q: u64 = integer_root(top);
        let rest: u64 = top - q * q;
        let e: i64 = (f2 - 36) / 2;
        let ghost c = |s: int| 4 * num - s * s;
        proof {
            assert(q >= 0x100_0000) by (nonlinear_arith)
                requires
                    top < (q + 1) * (q + 1),
                    top >= 0x80_0000 * 0x10_0000_0000,
                    q >= 0,
            ;
            assert(q < 0x4000_0000_0000_0000);
            // num = n1 * 2^f = n2 * 2^f2 = top * 2^(2 e)
            let pa = up(ea as int);
            let z = unit();
            let h = pow2(t as nat) as int;
            lemma_pow2_adds(ea as nat, 149);
            lemma_pow2_adds(t as nat, f as nat);
            assert(pow2((ea + 149) as nat) == h * pow2(f as nat));
            let pf = pow2(f as nat) as int;
            assert(num == n1 * pf) by (nonlinear_arith)
                requires
                    num == (sa * pa) * z,
                    pa * z == h * pf,
                    n1 == sa * h,
            ;
            let pf2 = pow2(f2 as nat) as int;
            if odd {
                lemma_pow2_unfold(f as nat);
            }
            assert(num == n2 * pf2) by (nonlinear_arith)
                requires
                    num == n1 * pf,
                    (n2 == n1 * 2 && pf == 2 * pf2) || (n2 == n1 && pf == pf2),
            ;
            assert(f2 == 36 + (e + e));
            lemma_pow2_adds(36, (e + e) as nat);
            lemma_pow2_adds(e as nat, e as nat);
            let g = up(e as int);
            assert(num == top * (g * g)) by (nonlinear_arith)
                requires
                    num == n2 * pf2,
                    pf2 == 0x10_0000_0000 * (g * g),
                    top == n2 * 0x10_0000_0000,
            ;
            tells_square_root(q as int, rest as int, e as int, num);
        }
        let m: u32 = pack(q, e, rest > 0, Ghost(c));
        proof {
            let lo = units(m as int - 1) + units(m as int);
            let hi = units(m as int) + units(m as int + 1);
            assert(c(lo) == 4 * num - lo * lo);
            assert(c(hi) == 4 * num - hi * hi);
            // the root of a finite number is finite
            if m == INFINITY {
                units_step(INFINITY - 1);
                units_step(INFINITY - 2);
                let u = units(INFINITY as int);
                assert(significand(INFINITY as int) == 0x80_0000);
                assert(exponent(INFINITY as int) == 254);
                units_increase(a as int, INFINITY as int);
                lemma_pow2_strictly_increases(149, 254);
                assert(4 * num < u * u) by (nonlinear_arith)
                    requires
                        num == units(a as int) * unit(),
                        0 <= units(a as int) < u,
                        u == 0x80_0000 * pow2(254),
                        0 <= unit() < pow2(254),
                ;
                assert(lo * lo >= u * u) by (nonlinear_arith)
                    requires
                        lo >= u,
                        u >= 0,
                ;
            }
        }
        m
    }
    fn add_finite(a: u32, b: u32) -> (r: u32)
        requires
            finite(a),
            finite(b),
        ensures
            is_sum(a, b, r),
    {
        let (na, ma) = split(a);
        let (nb, mb) = split(b);
        let (nh, mh, nl, ml) = if ma >= mb {
            (na, ma, nb, mb)
        } else {
            (nb, mb, na, ma)
        };
        let (sh, eh) = parts(mh);
        let (sl, el) = parts(ml);
        let ghost s = value(a) + value(b);
        let ghost t = if s < 0 {
            -s
        } else {
            s
        };
        proof {
            if ml < mh {
                units_increase(ml as int, mh as int);
            }
            units_of_zero();
            if ml > 0 {
                units_increase(0, ml as int);
            }
            if mh > 0 {
                units_increase(0, mh as int);
            }
            assert(t == if nh == nl {
                units(mh as int) + units(ml as int)
            } else {
                units(mh as int) - units(ml as int)
            });
        }
        let d: i64 = eh - el;
        if d > 36 {
            proof {
                far_apart(mh as int, ml as int, t);
                assert(ml < mh);
                assert(s != 0);
            }
            return joined(nh, mh);
        }
        proof {
            lemma_u64_shl_is_mul_bounded(sh, d as u64);
        }
        let high: u64 = sh << (d as u64);
        let n: u64 = if nh == nl {
            high + sl
        } else {
            proof {
                let h = pow2(d as nat) as int;
                let p = up(el as int);
                up_pos(el as int);
                lemma_pow2_adds(d as nat, el as nat);
                lemma2_to64();
                assert((sh * h) * p == units(mh as int)) by {
                    assert((sh * h) * p == sh * (h * p)) by (nonlinear_arith);
                }
                assert(high >= sl) by (nonlinear_arith)
                    requires
                        high * p >= sl * p,
                        p >= 1,
                ;
            }
            high - sl
        };
        proof {
            let h = pow2(d as nat) as int;
            let p = up(el as int);
            up_pos(el as int);
            lemma_pow2_adds(d as nat, el as nat);
            lemma2_to64();
            assert((sh * h) * p == sh * (h * p)) by (nonlinear_arith);
            assert((high + sl) * p == high * p + sl * p) by (nonlinear_arith);
            assert((high - sl) * p == high * p - sl * p) by (nonlinear_arith);
            assert(t == n * p);
            assert(n == 0 <==> t == 0) by (nonlinear_arith)
                requires
                    t == n * p,
                    p >= 1,
            ;
        }
        if n == 0 {
            return if na && nb {
                SIGN
            } else {
                0
            };
        }
        let m: u32 = round(n, el, Ghost(t), Ghost(1));
        joined(nh, m)
    }
}

impl Arithmetic for Soft {
    fn add(a: u32, b: u32) -> (r: u32) {
        let (na, ma) = split(a);
        let (nb, mb) = split(b);
        let r: u32 = if ma > INFINITY || mb > INFINITY {
            NAN
        } else if ma == INFINITY {
            if mb == INFINITY && na != nb {
                NAN
            } else {
                a
            }
        } else if mb == INFINITY {
            b
        } else {
            Soft::add_finite(a, b)
        };
        proof {
            sum_is(a, b, r);
        }
        r
    }

    fn mul(a: u32, b: u32) -> (r: u32) {
        let (na, ma) = split(a);
        let (nb, mb) = split(b);
        let r: u32 = if ma > INFINITY || mb > INFINITY || (ma == INFINITY && mb == 0) || (ma == 0
            && mb == INFINITY) {
            NAN
        } else if ma == INFINITY || mb == INFINITY {
            joined(na != nb, INFINITY)
        } else {
            Soft::mul_finite(a, b)
        };
        proof {
            product_is(a, b, r);
        }
        r
    }

    fn div(a: u32, b: u32) -> (r: u32) {
        let (na, ma) = split(a);
        let (nb, mb) = split(b);
        let r: u32 = if ma > INFINITY || mb > INFINITY || (ma == INFINITY && mb == INFINITY) || (ma
            == 0 && mb == 0) {
            NAN
        } else if ma == INFINITY || mb == 0 {
            joined(na != nb, INFINITY)
        } else if mb == INFINITY {
            joined(na != nb, 0)
        } else {
            Soft::div_finite(a, b)
        };
        proof {
            quotient_is(a, b, r);
        }
        r
    }

    fn sqrt(a: u32) -> (r: u32) {
        let (na, ma) = split(a);
        let r: u32 = if ma > INFINITY {
            NAN
        } else if ma == 0 {
            a
        } else if na {
            NAN
        } else if ma == INFINITY {
            a
        } else {
            Soft::sqrt_finite(a)
        };
        proof {
            root_is(a, r);
        }
        r
    }

    fn from_count(n: u64) -> (r: u32) {
        let ghost num = n * unit();
        let r: u32 = if n == 0 {
            proof {
                units_of_zero();
            }
            0
        } else {
            round(n, 149, Ghost(num), Ghost(1))
        };
        proof {
            whole_is(n, r);
        }
        r
    }
}

} // verus!
