use proxima::arith::Arithmetic;
use proxima::binary32::{INFINITY, NAN};
use proxima::soft::Soft;

/// What the processor returns, with one NaN for all.
fn bits(x: f32) -> u32 {
    let b = x.to_bits();
    if b & 0x7fff_ffff > INFINITY {
        NAN
    } else {
        b
    }
}

fn next(state: &mut u64) -> u64 {
    *state = state.wrapping_add(0x9E3779B97F4A7C15);
    let mut z = *state;
    z = (z ^ (z >> 30)).wrapping_mul(0xBF58476D1CE4E5B9);
    z = (z ^ (z >> 27)).wrapping_mul(0x94D049BB133111EB);
    z ^ (z >> 31)
}

/// Numbers at which rounding, overflow and the special cases turn.
const CORNERS: [u32; 24] = [
    0, 1, 2, 3, 0x007f_ffff, 0x0080_0000, 0x0080_0001, 0x3f80_0000, 0x3f80_0001, 0x3fff_ffff,
    0x4000_0000, 0x4b80_0000, 0x4b7f_ffff, 0x7f00_0000, 0x7f7f_ffff, 0x7f80_0000, 0x7fc0_0000,
    0x8000_0000, 0x8000_0001, 0x8080_0000, 0xbf80_0000, 0xff7f_ffff, 0xff80_0000, 0xffc0_0000,
];

fn check_pair(a: u32, b: u32) {
    let (x, y) = (f32::from_bits(a), f32::from_bits(b));
    assert_eq!(Soft::add(a, b), bits(x + y), "{a:#x} + {b:#x}");
    assert_eq!(Soft::mul(a, b), bits(x * y), "{a:#x} * {b:#x}");
    assert_eq!(Soft::div(a, b), bits(x / y), "{a:#x} / {b:#x}");
}

#[test]
fn soft_arithmetic_agrees_with_the_processor_at_the_corners() {
    for &a in &CORNERS {
        for &b in &CORNERS {
            check_pair(a, b);
        }
        assert_eq!(Soft::sqrt(a), bits(f32::from_bits(a).sqrt()), "sqrt {a:#x}");
        assert_eq!(Soft::from_count(a as u64), bits(a as f32), "count {a}");
    }
}

#[test]
fn soft_arithmetic_agrees_with_the_processor_on_random_numbers() {
    let mut s = 1u64;
    for _ in 0..2_000_000 {
        let z = next(&mut s);
        let (a, b) = (z as u32, (z >> 32) as u32);
        check_pair(a, b);
        // numbers of a similar size, so that sums cancel and round
        let c = (a & 0x8fff_ffff) | 0x3000_0000;
        let d = (b & 0x8fff_ffff) | 0x3000_0000;
        check_pair(c, d);
        assert_eq!(Soft::sqrt(a), bits(f32::from_bits(a).sqrt()), "sqrt {a:#x}");
        let n = z >> (3 + b % 61);
        assert_eq!(Soft::from_count(n), bits(n as f32), "count {n}");
    }
}
