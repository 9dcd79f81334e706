//! The SplitMix64 pseudo-random generator.

use vstd::arithmetic::div_mod::{
    lemma_add_mod_noop, lemma_fundamental_div_mod, lemma_mod_multiples_vanish, lemma_small_mod,
};
use vstd::prelude::*;

verus! {

/// What is added to the state at each draw.
pub const GOLDEN: u64 = 0x9E37_79B9_7F4A_7C15;

/// The state after a draw.
pub open spec fn advanced(state: u64) -> u64 {
    state.wrapping_add(GOLDEN)
}

/// What a draw that leaves a state behind gives.
pub open spec fn scrambled(state: u64) -> u64 {
    let a = (state ^ (state >> 30)).wrapping_mul(0xBF58_476D_1CE4_E5B9);
    let b = (a ^ (a >> 27)).wrapping_mul(0x94D0_49BB_1331_11EB);
    b ^ (b >> 31)
}

/// The state after `n` draws.
pub open spec fn state_after(state: u64, n: nat) -> u64
    decreases n,
{
    if n == 0 {
        state
    } else {
        advanced(state_after(state, (n - 1) as nat))
    }
}

/// Draw `n`, counted from 0.
pub open spec fn draw(state: u64, n: nat) -> u64 {
    scrambled(state_after(state, n + 1))
}

/// A product with an odd number, of which all but the lowest 64 bits are dropped, tells what
/// was multiplied: `c * inverse` is one above a multiple of two to the 64th.
proof fn odd_factors_tell(x: int, y: int, c: int, inverse: int, q: int)
    requires
        0 <= x < 0x1_0000_0000_0000_0000,
        0 <= y < 0x1_0000_0000_0000_0000,
        c * inverse == q * 0x1_0000_0000_0000_0000 + 1,
        (x * c) % 0x1_0000_0000_0000_0000 == (y * c) % 0x1_0000_0000_0000_0000,
    ensures
        x == y,
{
    let m = 0x1_0000_0000_0000_0000int;
    let (s, t) = ((x * c) / m, (y * c) / m);
    lemma_fundamental_div_mod(x * c, m);
    lemma_fundamental_div_mod(y * c, m);
    let d = x - y;
    let w = s - t;
    assert(d * c == m * w) by (nonlinear_arith)
        requires
            x * c == m * s + (x * c) % m,
            y * c == m * t + (y * c) % m,
            (x * c) % m == (y * c) % m,
            d == x - y,
            w == s - t,
    ;
    assert(d * (c * inverse) == m * (w * inverse)) by (nonlinear_arith)
        requires
            d * c == m * w,
    ;
    assert(d == m * (w * inverse - d * q)) by (nonlinear_arith)
        requires
            d * (q * m + 1) == m * (w * inverse),
    ;
    let z = w * inverse - d * q;
    assert(z == 0) by (nonlinear_arith)
        requires
            d == m * z,
            -m < d < m,
            m > 0,
    ;
}

/// States differ by how often there was a draw.
proof fn state_is_counted(state: u64, n: nat)
    ensures
        state_after(state, n) == (state + n * GOLDEN) % 0x1_0000_0000_0000_0000,
    decreases n,
{
    let m = 0x1_0000_0000_0000_0000int;
    if n > 0 {
        state_is_counted(state, (n - 1) as nat);
        let p = state + (n - 1) * GOLDEN;
        assert(p + GOLDEN == state + n * GOLDEN) by (nonlinear_arith)
            requires
                p == state + (n - 1) * GOLDEN,
        ;
        lemma_add_mod_noop(p, GOLDEN as int, m);
        lemma_small_mod(GOLDEN as nat, m as nat);
        let s = state_after(state, (n - 1) as nat);
        assert(s == p % m);
        assert(advanced(s) == (s + GOLDEN) % m);
    } else {
        lemma_small_mod(state as nat, m as nat);
        assert(0 * GOLDEN == 0);
    }
}

/// No two states are scrambled to the same number.
proof fn scrambling_tells(x: u64, y: u64)
    requires
        scrambled(x) == scrambled(y),
    ensures
        x == y,
{
    let (p, q) = (x ^ (x >> 30), y ^ (y >> 30));
    let (a, b) = (p.wrapping_mul(0xBF58_476D_1CE4_E5B9), q.wrapping_mul(0xBF58_476D_1CE4_E5B9));
    let (r, s) = (a ^ (a >> 27), b ^ (b >> 27));
    let (c, d) = (r.wrapping_mul(0x94D0_49BB_1331_11EB), s.wrapping_mul(0x94D0_49BB_1331_11EB));
    assert(c == d) by (bit_vector)
        requires
            c ^ (c >> 31) == d ^ (d >> 31),
    ;
    odd_factors_tell(
        r as int,
        s as int,
        0x94D0_49BB_1331_11EB,
        0x3196_42B2_D24D_8EC3,
        0x1CD3_36ED_A85F_1453,
    );
    assert(a == b) by (bit_vector)
        requires
            a ^ (a >> 27) == b ^ (b >> 27),
    ;
    odd_factors_tell(
        p as int,
        q as int,
        0xBF58_476D_1CE4_E5B9,
        0x96DE_1B17_3F11_9089,
        0x70C3_BCA7_8F27_F46C,
    );
    assert(x == y) by (bit_vector)
        requires
            x ^ (x >> 30) == y ^ (y >> 30),
    ;
}

/// A generator does not repeat itself: of its first two to the 64th draws no two are the same.
pub proof fn draws_differ(state: u64, i: nat, j: nat)
    requires
        i <= u64::MAX,
        j <= u64::MAX,
        i != j,
    ensures
        draw(state, i) != draw(state, j),
{
    if draw(state, i) == draw(state, j) {
        let m = 0x1_0000_0000_0000_0000int;
        let (a, b) = ((i + 1) as nat, (j + 1) as nat);
        scrambling_tells(state_after(state, a), state_after(state, b));
        state_is_counted(state, a);
        state_is_counted(state, b);
        let (x, y) = (a * GOLDEN, b * GOLDEN);
        // the state at the start cancels out
        let (s, t) = ((state + x) / m, (state + y) / m);
        lemma_fundamental_div_mod(state + x, m);
        lemma_fundamental_div_mod(state + y, m);
        let (g, h) = (i * GOLDEN, j * GOLDEN);
        assert(x == g + GOLDEN && y == h + GOLDEN) by (nonlinear_arith)
            requires
                x == (i + 1) * GOLDEN,
                y == (j + 1) * GOLDEN,
                g == i * GOLDEN,
                h == j * GOLDEN,
        ;
        assert(g == m * (s - t) + h);
        lemma_mod_multiples_vanish(s - t, h, m);
        odd_factors_tell(
            i as int,
            j as int,
            GOLDEN as int,
            0xF1DE_83E1_9937_733D,
            0x957B_BF35_006E_D677,
        );
    }
}

/// What draw `n` is: the state is the one at the start and `n + 1` times a step, and is mixed by
/// two products and three shifts, all in 64 bits.
pub proof fn draw_is_mixed(state: u64, n: nat)
    ensures
        draw(state, n) == ({
            let m = 0x1_0000_0000_0000_0000int;
            let z = ((state + (n + 1) * 0x9E37_79B9_7F4A_7C15) % m) as u64;
            let a = (((z ^ (z >> 30)) * 0xBF58_476D_1CE4_E5B9) % m) as u64;
            let b = (((a ^ (a >> 27)) * 0x94D0_49BB_1331_11EB) % m) as u64;
            b ^ (b >> 31)
        }),
{
    state_is_counted(state, (n + 1) as nat);
}

/// A draw after some is a later draw from the start.
pub proof fn draws_go_on(state: u64, a: nat, b: nat)
    ensures
        state_after(state_after(state, a), b) == state_after(state, a + b),
        draw(state_after(state, a), b) == draw(state, a + b),
    decreases b,
{
    if b > 0 {
        draws_go_on(state, a, (b - 1) as nat);
        assert((a + b - 1) as nat == a + (b - 1) as nat);
        assert(state_after(state_after(state, a), b) == advanced(
            state_after(state_after(state, a), (b - 1) as nat),
        ));
    }
    assert(state_after(state_after(state, a), b + 1) == advanced(
        state_after(state_after(state, a), b),
    ));
    assert((a + b + 1 - 1) as nat == a + b);
}

/// A generator.
pub struct SplitMix {
    pub state: u64,
}

impl SplitMix {
    /// The next 64 bits.
    #[inline]
    pub fn next_u64(&mut self) -> (r: u64)
        ensures
            final(self).state == advanced(old(self).state),
            r == scrambled(final(self).state),
    {
        self.state = self.state.wrapping_add(GOLDEN);
        let z: u64 = self.state;
        let a: u64 = (z ^ (z >> 30)).wrapping_mul(0xBF58_476D_1CE4_E5B9);
        let b: u64 = (a ^ (a >> 27)).wrapping_mul(0x94D0_49BB_1331_11EB);
        b ^ (b >> 31)
    }

    /// A number below `n`.
    #[inline]
    pub fn below(&mut self, n: usize) -> (r: usize)
        requires
            n > 0,
        ensures
            final(self).state == advanced(old(self).state),
            r == scrambled(final(self).state) % n as u64,
            r < n,
    {
        (self.next_u64() % n as u64) as usize
    }
}

} // verus!
