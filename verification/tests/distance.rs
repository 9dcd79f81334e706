use proxima::arith::Arithmetic;
use proxima::binary32::{INFINITY, NAN};
use proxima::distance::{inner_product, key, l2_sqr, natural, padding};
use proxima::soft::Soft;
use proxima::Metric;

/// Arithmetic as the processor does it, with one NaN for all.
struct Native;

fn number(x: f32) -> u32 {
    let b = x.to_bits();
    if b & 0x7fff_ffff > INFINITY {
        NAN
    } else {
        b
    }
}

impl Arithmetic for Native {
    fn add(a: u32, b: u32) -> u32 {
        number(f32::from_bits(a) + f32::from_bits(b))
    }

    fn mul(a: u32, b: u32) -> u32 {
        number(f32::from_bits(a) * f32::from_bits(b))
    }

    fn div(a: u32, b: u32) -> u32 {
        number(f32::from_bits(a) / f32::from_bits(b))
    }

    fn sqrt(a: u32) -> u32 {
        number(f32::from_bits(a).sqrt())
    }

    fn from_count(n: u64) -> u32 {
        number(n as f32)
    }
}

fn bits(v: &[f32]) -> Vec<u32> {
    v.iter().map(|x| x.to_bits()).collect()
}

fn floats(v: &[u32]) -> Vec<f32> {
    v.iter().map(|&b| f32::from_bits(b)).collect()
}

fn l2(a: &[f32], b: &[f32]) -> f32 {
    f32::from_bits(l2_sqr::<Native>(&bits(a), &bits(b)))
}

fn ip(a: &[f32], b: &[f32]) -> f32 {
    f32::from_bits(inner_product::<Native>(&bits(a), &bits(b)))
}

fn l2_naive(a: &[f32], b: &[f32]) -> f32 {
    a.iter().zip(b).map(|(x, y)| (x - y) * (x - y)).sum()
}

fn ip_naive(a: &[f32], b: &[f32]) -> f32 {
    a.iter().zip(b).map(|(x, y)| x * y).sum()
}

#[test]
fn kernels_match_naive_across_lengths() {
    for len in [1usize, 3, 7, 8, 9, 16, 17, 31, 64, 100] {
        let a: Vec<f32> = (0..len).map(|i| (i as f32 * 0.37).sin()).collect();
        let b: Vec<f32> = (0..len).map(|i| (i as f32 * 0.91 + 1.0).cos()).collect();
        assert!((l2(&a, &b) - l2_naive(&a, &b)).abs() < 1e-3, "l2 len {len}");
        assert!((ip(&a, &b) - ip_naive(&a, &b)).abs() < 1e-3, "ip len {len}");
    }
}

#[test]
fn l2_zero_for_identical() {
    let a = [1.0f32, -2.0, 3.5, 4.0, 0.0, 9.9, 7.0, 8.0, 1.0];
    assert!(l2(&a, &a).abs() < 1e-5);
}

#[test]
fn both_arithmetics_give_the_same_kernels() {
    for len in [1usize, 3, 7, 8, 9, 16, 17, 31, 64, 100] {
        let a: Vec<u32> = (0..len).map(|i| (i as f32 * 0.37).sin().to_bits()).collect();
        let b: Vec<u32> = (0..len).map(|i| (i as f32 * 0.91 + 1.0).cos().to_bits()).collect();
        assert_eq!(l2_sqr::<Native>(&a, &b), l2_sqr::<Soft>(&a, &b));
        assert_eq!(inner_product::<Native>(&a, &b), inner_product::<Soft>(&a, &b));
    }
}

#[test]
fn exact_kernels_and_keys() {
    let a = bits(&[1.0, 2.0, 3.0]);
    let b = bits(&[4.0, 6.0, 3.0]);
    assert_eq!(l2_sqr::<Soft>(&a, &b), 25.0f32.to_bits());
    assert_eq!(inner_product::<Soft>(&a, &b), 25.0f32.to_bits());
    assert_eq!(key::<Soft>(Metric::L2, &a, &b), 25.0f32.to_bits());
    assert_eq!(key::<Soft>(Metric::InnerProduct, &a, &b), (-25.0f32).to_bits());
    assert_eq!(natural::<Soft>(Metric::L2, 25.0f32.to_bits()), 5.0f32.to_bits());
    assert_eq!(natural::<Soft>(Metric::InnerProduct, (-25.0f32).to_bits()), 25.0f32.to_bits());
    assert_eq!(floats(&[padding(Metric::L2), padding(Metric::InnerProduct)]), [f32::MAX, f32::MIN]);
}

#[test]
fn empty_vectors_are_at_zero() {
    assert_eq!(l2_sqr::<Soft>(&[], &[]), 0);
    assert_eq!(inner_product::<Soft>(&[], &[]), 0);
}

#[test]
fn distances_are_symmetric() {
    let a = bits(&[1.5, -2.25, 1e20, 3e-39, 7.0, 0.1, -0.3, 9.0, 2.0]);
    let b = bits(&[-0.5, 4.75, -3e19, 1e-39, 0.7, 0.2, 0.9, -9.5, 3.0]);
    assert_eq!(l2_sqr::<Soft>(&a, &b), l2_sqr::<Soft>(&b, &a));
    assert_eq!(inner_product::<Soft>(&a, &b), inner_product::<Soft>(&b, &a));
}
