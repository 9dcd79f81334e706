use std::collections::HashSet;

use proxima::arith::Arithmetic;
use proxima::binary32::{INFINITY, NAN};
use proxima::distance::{inner_product, l2_sqr};
use proxima::format::LoadError;
use proxima::soft::Soft;
use proxima::{FlatIndex, Metric};

/// Arithmetic as the processor does it, with one NaN for all.
struct Native;

fn number(x: f32) -> u32 {
    let b = x.to_bits();
    if b & 0x7fff_ffff > INFINITY {
        NAN
    } else {
        b
    }
}

impl Arithmetic for Native {
    fn add(a: u32, b: u32) -> u32 {
        number(f32::from_bits(a) + f32::from_bits(b))
    }

    fn mul(a: u32, b: u32) -> u32 {
        number(f32::from_bits(a) * f32::from_bits(b))
    }

    fn div(a: u32, b: u32) -> u32 {
        number(f32::from_bits(a) / f32::from_bits(b))
    }

    fn sqrt(a: u32) -> u32 {
        number(f32::from_bits(a).sqrt())
    }

    fn from_count(n: u64) -> u32 {
        number(n as f32)
    }
}

fn bits(v: &[f32]) -> Vec<u32> {
    v.iter().map(|x| x.to_bits()).collect()
}

fn floats(v: &[u32]) -> Vec<f32> {
    v.iter().map(|&b| f32::from_bits(b)).collect()
}

fn gen(n: usize, dim: usize, seed: u64) -> Vec<u32> {
    let mut s = seed;
    (0..n * dim)
        .map(|_| {
            s = s.wrapping_add(0x9E3779B97F4A7C15);
            let mut z = s;
            z = (z ^ (z >> 30)).wrapping_mul(0xBF58476D1CE4E5B9);
            z = (z ^ (z >> 27)).wrapping_mul(0x94D049BB133111EB);
            z ^= z >> 31;
            ((z as f32 / u64::MAX as f32) * 2.0 - 1.0).to_bits()
        })
        .collect()
}

#[test]
fn self_is_nearest_l2() {
    let (n, dim) = (200usize, 16usize);
    let data = gen(n, dim, 42);
    let mut idx = FlatIndex::new(dim, Metric::L2);
    idx.add(&data);
    assert_eq!(idx.len(), n);

    let mut ids = [0i64; 1];
    let mut dists = [0u32; 1];
    for i in 0..n {
        idx.search::<Native>(&data[i * dim..(i + 1) * dim], 1, &mut ids, &mut dists);
        assert_eq!(ids[0], i as i64, "vector {i} should be its own NN");
        assert!(f32::from_bits(dists[0]).abs() < 1e-3, "self distance ~0");
    }
}

#[test]
fn topk_sorted_and_matches_reference_l2() {
    let (n, dim, k) = (1000usize, 24usize, 10usize);
    let data = gen(n, dim, 7);
    let q = gen(1, dim, 999);
    let mut idx = FlatIndex::new(dim, Metric::L2);
    idx.add(&data);

    let mut ids = vec![0i64; k];
    let mut out = vec![0u32; k];
    idx.search::<Native>(&q, k, &mut ids, &mut out);
    let dists = floats(&out);

    for j in 1..k {
        assert!(dists[j] >= dists[j - 1] - 1e-4, "ascending L2");
    }
    let mut best = f32::MAX;
    for i in 0..n {
        let d = f32::from_bits(l2_sqr::<Native>(&q, &data[i * dim..(i + 1) * dim])).sqrt();
        if d < best {
            best = d;
        }
    }
    assert!((dists[0] - best).abs() < 1e-3, "top-1 distance matches reference");
}

#[test]
fn batch_matches_single_ip() {
    let (n, dim, k, nq) = (500usize, 12usize, 5usize, 33usize);
    let data = gen(n, dim, 3);
    let queries = gen(nq, dim, 88);
    let mut idx = FlatIndex::new(dim, Metric::InnerProduct);
    idx.add(&data);

    let mut bids = vec![0i64; nq * k];
    let mut bd = vec![0u32; nq * k];
    assert!(idx.search_batch::<Native>(&queries, k, &mut bids, &mut bd, 4).is_ok());

    for qi in 0..nq {
        let mut sids = vec![0i64; k];
        let mut sb = vec![0u32; k];
        idx.search::<Native>(&queries[qi * dim..(qi + 1) * dim], k, &mut sids, &mut sb);
        assert_eq!(&bids[qi * k..(qi + 1) * k], &sids[..], "batch == single (ids)");
        let sd = floats(&sb);
        for j in 1..k {
            assert!(sd[j] <= sd[j - 1] + 1e-4, "descending IP similarity");
        }
        assert_eq!(&bd[qi * k..(qi + 1) * k], &sb[..]);
    }
}

#[test]
fn padding_when_fewer_than_k() {
    let dim = 4;
    let mut idx = FlatIndex::new(dim, Metric::L2);
    idx.add(&bits(&[0.0, 0.0, 0.0, 0.0, 1.0, 1.0, 1.0, 1.0]));
    let mut ids = vec![0i64; 5];
    let mut dists = vec![0u32; 5];
    idx.search::<Native>(&bits(&[0.0, 0.0, 0.0, 0.0]), 5, &mut ids, &mut dists);
    assert_eq!(ids[0], 0);
    assert_eq!(&ids[2..], &[-1, -1, -1], "trailing ids padded with -1");
    assert_eq!(floats(&dists), [0.0, 2.0, f32::MAX, f32::MAX, f32::MAX]);
}

#[test]
fn filtered_search_only_returns_matching_ids_and_matches_reference() {
    let (n, dim, k) = (2000usize, 24usize, 10usize);
    let data = gen(n, dim, 11);
    let q = gen(1, dim, 456);
    let mut idx = FlatIndex::new(dim, Metric::InnerProduct);
    idx.add(&data);

    let filter: Vec<bool> = (0..n).map(|i| i % 2 == 0).collect();
    let mut ids = vec![0i64; k];
    let mut out = vec![0u32; k];
    idx.search_filtered::<Native>(&q, k, &filter, &mut ids, &mut out);
    let dists = floats(&out);

    for &id in &ids {
        assert!(id >= 0 && id % 2 == 0, "result {id} must satisfy the filter");
    }
    for j in 1..k {
        assert!(dists[j] <= dists[j - 1] + 1e-4, "descending IP similarity");
    }

    let mut scored: Vec<(i64, f32)> = (0..n)
        .filter(|i| i % 2 == 0)
        .map(|i| {
            let s = inner_product::<Native>(&q, &data[i * dim..(i + 1) * dim]);
            (i as i64, f32::from_bits(s))
        })
        .collect();
    scored.sort_by(|a, b| b.1.total_cmp(&a.1));
    let expect: HashSet<i64> = scored[..k].iter().map(|(id, _)| *id).collect();
    let got: HashSet<i64> = ids.into_iter().collect();
    assert_eq!(got, expect, "filtered top-k must match a brute-force scan of only the filtered subset");
}

#[test]
fn filtered_search_pads_when_fewer_matches_than_k() {
    let dim = 4;
    let mut idx = FlatIndex::new(dim, Metric::L2);
    idx.add(&bits(&[0.0, 0.0, 0.0, 0.0, 1.0, 1.0, 1.0, 1.0, 2.0, 2.0, 2.0, 2.0]));
    let filter = [true, false, false];
    let mut ids = vec![0i64; 5];
    let mut dists = vec![0u32; 5];
    idx.search_filtered::<Native>(&bits(&[0.0, 0.0, 0.0, 0.0]), 5, &filter, &mut ids, &mut dists);
    assert_eq!(ids[0], 0);
    assert_eq!(&ids[1..], &[-1, -1, -1, -1], "only one match exists; rest padded");
}

#[test]
fn flat_batches_on_any_number_of_threads_agree() {
    let (n, dim, k, nq) = (300usize, 9usize, 4usize, 17usize);
    let mut idx = FlatIndex::new(dim, Metric::L2);
    idx.add(&gen(n, dim, 5));
    let queries = gen(nq, dim, 6);
    let filter: Vec<bool> = (0..n).map(|i| i % 3 == 1).collect();
    let mut all = Vec::new();
    for threads in [0usize, 1, 3] {
        let (mut ids, mut dists) = (vec![7i64; nq * k], vec![7u32; nq * k]);
        let r = idx.search_batch_filtered::<Native>(&queries, k, &filter, &mut ids, &mut dists, threads);
        assert_eq!(r, Ok(()));
        assert!(ids.iter().all(|&id| id % 3 == 1));
        all.push((ids, dists));
    }
    assert_eq!(all[0], all[1]);
    assert_eq!(all[0], all[2]);
}

#[test]
fn flat_search_without_results_leaves_the_outputs() {
    let mut idx = FlatIndex::new(2, Metric::L2);
    idx.add(&bits(&[1.0, 2.0]));
    let (mut ids, mut dists) = ([9i64; 2], [9u32; 2]);
    idx.search::<Soft>(&bits(&[0.0, 0.0]), 0, &mut ids, &mut dists);
    assert_eq!((ids, dists), ([9; 2], [9; 2]));
    assert_eq!(idx.search_batch::<Soft>(&[], 0, &mut ids, &mut dists, 2), Ok(()));
    assert_eq!((ids, dists), ([9; 2], [9; 2]));
}

#[test]
fn flat_ids_follow_on_each_other() {
    let mut idx = FlatIndex::new(2, Metric::L2);
    assert!(idx.is_empty());
    idx.add(&bits(&[1.0, 2.0, 3.0, 4.0]));
    idx.add(&bits(&[5.0, 6.0]));
    assert_eq!((idx.len(), idx.dim(), idx.metric()), (3, 2, Metric::L2));
    assert_eq!(floats(idx.data()), [1.0, 2.0, 3.0, 4.0, 5.0, 6.0]);
    assert_eq!(floats(idx.vector(2)), [5.0, 6.0]);
    assert_eq!(idx.memory_bytes(), 24);
}

#[test]
fn flat_bytes_are_laid_out_as_documented() {
    let mut idx = FlatIndex::new(2, Metric::InnerProduct);
    idx.add(&bits(&[1.0, -2.0]));
    let mut expect: Vec<u8> = Vec::new();
    expect.extend(2u64.to_le_bytes());
    expect.extend(1u32.to_le_bytes());
    expect.extend(1u64.to_le_bytes());
    expect.extend(2u64.to_le_bytes());
    expect.extend(1.0f32.to_le_bytes());
    expect.extend((-2.0f32).to_le_bytes());
    assert_eq!(idx.to_bytes(), expect);
}

#[test]
fn flat_save_and_load() {
    let (n, dim) = (50usize, 6usize);
    let mut idx = FlatIndex::new(dim, Metric::L2);
    idx.add(&gen(n, dim, 8));
    let mut bytes = idx.to_bytes();
    bytes.push(77);
    let back = FlatIndex::from_bytes(&bytes).ok().unwrap();
    assert_eq!((back.len(), back.dim(), back.metric()), (n, dim, Metric::L2));
    assert_eq!(back.data(), idx.data());
    assert_eq!(back.to_bytes(), idx.to_bytes());
}

#[test]
fn flat_load_turns_down_what_is_no_index() {
    let mut idx = FlatIndex::new(2, Metric::L2);
    idx.add(&bits(&[1.0, 2.0]));
    let good = idx.to_bytes();
    assert_eq!(FlatIndex::from_bytes(&[]).err(), Some(LoadError::Malformed));
    assert_eq!(FlatIndex::from_bytes(&good[..good.len() - 1]).err(), Some(LoadError::Malformed));
    let mut metric = good.clone();
    metric[8] = 2;
    assert_eq!(FlatIndex::from_bytes(&metric).err(), Some(LoadError::Malformed));
    let mut dim = good.clone();
    dim[0] = 0;
    assert_eq!(FlatIndex::from_bytes(&dim).err(), Some(LoadError::Inconsistent));
    let mut n = good.clone();
    n[12] = 2;
    assert_eq!(FlatIndex::from_bytes(&n).err(), Some(LoadError::Inconsistent));
}

#[test]
fn a_stored_vector_is_at_distance_zero() {
    let (n, dim) = (50usize, 9usize);
    let data = gen(n, dim, 5);
    let mut idx = FlatIndex::new(dim, Metric::L2);
    idx.add(&data);
    for i in 0..n {
        let (mut ids, mut dists) = ([0i64; 3], [0u32; 3]);
        idx.search::<Soft>(&data[i * dim..(i + 1) * dim], 3, &mut ids, &mut dists);
        assert_eq!((ids[0], dists[0]), (i as i64, 0));
    }
}

#[test]
fn a_filter_that_all_pass_changes_nothing() {
    let (n, dim, k) = (80usize, 5usize, 7usize);
    for metric in [Metric::L2, Metric::InnerProduct] {
        let mut idx = FlatIndex::new(dim, metric);
        idx.add(&gen(n, dim, 6));
        let q = gen(1, dim, 7);
        let (mut ids, mut dists) = (vec![0i64; k], vec![0u32; k]);
        idx.search::<Native>(&q, k, &mut ids, &mut dists);
        let (mut fids, mut fdists) = (vec![0i64; k], vec![0u32; k]);
        idx.search_filtered::<Native>(&q, k, &vec![true; n], &mut fids, &mut fdists);
        assert_eq!((ids, dists), (fids, fdists));
    }
}

#[test]
fn vectors_added_in_parts_are_added_at_once() {
    let (n, dim) = (10usize, 4usize);
    let data = gen(n, dim, 8);
    let (mut whole, mut parts) =
        (FlatIndex::new(dim, Metric::L2), FlatIndex::new(dim, Metric::L2));
    whole.add(&data);
    parts.add(&data[..3 * dim]);
    parts.add(&data[3 * dim..]);
    assert_eq!(whole.to_bytes(), parts.to_bytes());
}

#[test]
fn reports_are_in_order() {
    let (n, dim) = (60usize, 6usize);
    for metric in [Metric::L2, Metric::InnerProduct] {
        let mut idx = FlatIndex::new(dim, metric);
        idx.add(&gen(n, dim, 9));
        let (mut ids, mut dists) = (vec![0i64; n], vec![0u32; n]);
        idx.search::<Soft>(&gen(1, dim, 10), n, &mut ids, &mut dists);
        let dists = floats(&dists);
        for j in 1..n {
            match metric {
                Metric::L2 => assert!(dists[j - 1] <= dists[j]),
                Metric::InnerProduct => assert!(dists[j - 1] >= dists[j]),
            }
        }
    }
}

#[test]
fn a_nan_gives_way_to_a_number() {
    let mut idx = FlatIndex::new(1, Metric::L2);
    idx.add(&bits(&[f32::NAN, 1.0]));
    let (mut ids, mut d) = ([0i64; 1], [0u32; 1]);
    idx.search::<Native>(&bits(&[0.0]), 1, &mut ids, &mut d);
    assert_eq!((ids, floats(&d)), ([1], vec![1.0]));
    let (mut ids, mut d) = ([0i64; 2], [0u32; 2]);
    idx.search::<Soft>(&bits(&[0.0]), 2, &mut ids, &mut d);
    assert_eq!(ids, [1, 0]);
}
