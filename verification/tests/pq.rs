use std::collections::HashSet;

use proxima::arith::Arithmetic;
use proxima::binary32::{INFINITY, NAN};
use proxima::format::LoadError;
use proxima::kmeans::kmeans;
use proxima::pq::ProductQuantizer;
use proxima::rng::SplitMix;
use proxima::soft::Soft;
use proxima::{FlatIndex, Metric, PqIndex, PqParams};

/// Arithmetic as the processor does it, with one NaN for all.
struct Native;

fn number(x: f32) -> u32 {
    let b = x.to_bits();
    if b & 0x7fff_ffff > INFINITY {
        NAN
    } else {
        b
    }
}

impl Arithmetic for Native {
    fn add(a: u32, b: u32) -> u32 {
        number(f32::from_bits(a) + f32::from_bits(b))
    }

    fn mul(a: u32, b: u32) -> u32 {
        number(f32::from_bits(a) * f32::from_bits(b))
    }

    fn div(a: u32, b: u32) -> u32 {
        number(f32::from_bits(a) / f32::from_bits(b))
    }

    fn sqrt(a: u32) -> u32 {
        number(f32::from_bits(a).sqrt())
    }

    fn from_count(n: u64) -> u32 {
        number(n as f32)
    }
}

fn bits(v: &[f32]) -> Vec<u32> {
    v.iter().map(|x| x.to_bits()).collect()
}

fn floats(v: &[u32]) -> Vec<f32> {
    v.iter().map(|&b| f32::from_bits(b)).collect()
}

fn gen(n: usize, dim: usize, seed: u64) -> Vec<u32> {
    let mut s = SplitMix { state: seed };
    (0..n * dim)
        .map(|_| ((s.next_u64() as f32 / u64::MAX as f32) * 2.0 - 1.0).to_bits())
        .collect()
}

fn recall(m: usize, k: usize) -> f64 {
    let (n, dim) = (3000usize, 32usize);
    let data = gen(n, dim, 1);
    let params = PqParams { m, train_iters: 20, train_sample: 0, ..Default::default() };
    let mut pq = PqIndex::train::<Native>(&data, dim, Metric::L2, params);
    pq.add::<Native>(&data);

    let mut flat = FlatIndex::new(dim, Metric::L2);
    flat.add(&data);

    let queries = gen(150, dim, 77);
    let nq = 150;
    let mut hit = 0usize;
    for qi in 0..nq {
        let q = &queries[qi * dim..(qi + 1) * dim];
        let (mut pids, mut pd) = (vec![0i64; k], vec![0u32; k]);
        pq.search::<Native>(q, k, &mut pids, &mut pd);
        let (mut fids, mut fd) = (vec![0i64; k], vec![0u32; k]);
        flat.search::<Native>(q, k, &mut fids, &mut fd);
        let truth: HashSet<i64> = fids.into_iter().collect();
        for id in pids {
            if id >= 0 && truth.contains(&id) {
                hit += 1;
            }
        }
    }
    hit as f64 / (nq * k) as f64
}

#[test]
fn pq_beats_random_and_improves_with_m() {
    let r4 = recall(4, 10);
    let r8 = recall(8, 10);
    assert!(r8 > 0.2, "recall@10 with m=8 was {r8:.3}");
    assert!(r8 > r4, "more subspaces should improve recall: m4={r4:.3} m8={r8:.3}");
}

#[test]
fn pq_recall_at_100_is_high() {
    let r = recall(8, 100);
    assert!(r > 0.6, "recall@100 with m=8 was {r:.3}");
}

#[test]
fn compression_ratio() {
    let (n, dim) = (2000usize, 64usize);
    let data = gen(n, dim, 5);
    let mut pq = PqIndex::train::<Native>(
        &data,
        dim,
        Metric::L2,
        PqParams { m: 8, ..Default::default() },
    );
    pq.add::<Native>(&data);
    assert_eq!(pq.codes().len(), n * 8);
    assert!(pq.raw_bytes() as f64 / (n * 8) as f64 > 30.0);
}

#[test]
fn filtered_search_only_returns_matching_ids_and_recall_holds() {
    let (n, dim, k) = (3000usize, 32usize, 10usize);
    let data = gen(n, dim, 1);
    let params = PqParams { m: 8, train_iters: 20, train_sample: 0, ..Default::default() };
    let mut pq = PqIndex::train::<Native>(&data, dim, Metric::L2, params);
    pq.add::<Native>(&data);
    let mut flat = FlatIndex::new(dim, Metric::L2);
    flat.add(&data);

    let filter: Vec<bool> = (0..n).map(|i| i % 4 == 0).collect();
    let queries = gen(100, dim, 77);
    let mut hit = 0usize;
    for qi in 0..100 {
        let q = &queries[qi * dim..(qi + 1) * dim];
        let (mut pids, mut pd) = (vec![0i64; k], vec![0u32; k]);
        pq.search_filtered::<Native>(q, k, &filter, &mut pids, &mut pd);
        for &id in &pids {
            assert!(id < 0 || filter[id as usize], "result {id} must satisfy the filter");
        }
        let (mut fids, mut fd) = (vec![0i64; k], vec![0u32; k]);
        flat.search_filtered::<Native>(q, k, &filter, &mut fids, &mut fd);
        let truth: HashSet<i64> = fids.into_iter().collect();
        for id in pids {
            if id >= 0 && truth.contains(&id) {
                hit += 1;
            }
        }
    }
    let r = hit as f64 / (100 * k) as f64;
    assert!(r > 0.2, "filtered recall@10 was {r:.3}");
}

/// Four vectors in two parts, each part at one of two places.
fn corners() -> Vec<u32> {
    bits(&[
        0.0, 0.0, 0.0, 0.0, //
        0.0, 0.0, 4.0, 4.0, //
        8.0, 8.0, 0.0, 0.0, //
        8.0, 8.0, 4.0, 4.0,
    ])
}

fn small(metric: Metric) -> PqIndex {
    let params = PqParams { m: 2, nbits: 1, train_iters: 10, train_sample: 0, seed: 1 };
    let mut pq = PqIndex::train::<Soft>(&corners(), 4, metric, params);
    pq.add::<Soft>(&corners());
    pq
}

#[test]
fn places_of_their_own_are_found_exactly() {
    let pq = small(Metric::L2);
    assert_eq!((pq.dim(), pq.m(), pq.nbits(), pq.len(), pq.is_empty()), (4, 2, 1, 4, false));
    assert_eq!((pq.metric(), pq.memory_bytes(), pq.raw_bytes()), (Metric::L2, 8 + 32, 64));
    let mut ids = [0i64; 5];
    let mut d = [0u32; 5];
    pq.search::<Soft>(&bits(&[8.0, 8.0, 4.0, 4.0]), 5, &mut ids, &mut d);
    assert_eq!(ids, [3, 2, 1, 0, -1]);
    assert_eq!(
        floats(&d),
        [0.0, 32.0f32.sqrt(), 128.0f32.sqrt(), 160.0f32.sqrt(), f32::MAX]
    );
    let pq = small(Metric::InnerProduct);
    pq.search_filtered::<Soft>(
        &bits(&[1.0, 0.0, 0.0, 1.0]),
        5,
        &[true, true, false, true],
        &mut ids,
        &mut d,
    );
    assert_eq!(ids, [3, 1, 0, -1, -1]);
    assert_eq!(floats(&d), [12.0, 4.0, 0.0, f32::MIN, f32::MIN]);
}

#[test]
fn codes_name_the_nearest_centroids() {
    let pq = small(Metric::L2);
    let q: &ProductQuantizer = pq.quantizer();
    let mut out = [9u8; 3];
    for (i, v) in corners().chunks(4).enumerate() {
        q.encode_into::<Soft>(v, &mut out);
        assert_eq!(&out[..2], &pq.codes()[2 * i..2 * i + 2]);
        assert_eq!(out[2], 9);
        for sub in 0..2 {
            let c = (sub * 2 + out[sub] as usize) * 2;
            assert_eq!(&q.codebooks()[c..c + 2], &v[sub * 2..sub * 2 + 2]);
        }
    }
    let table = q.adc_table::<Soft>(&corners()[..4], Metric::L2);
    assert_eq!(table.len(), 4);
    for sub in 0..2 {
        for c in 0..2 {
            let x = f32::from_bits(q.codebooks()[(sub * 2 + c) * 2]);
            assert_eq!(f32::from_bits(table[sub * 2 + c]), 2.0 * x * x);
        }
    }
}

#[test]
fn clusters_move_to_their_means() {
    let data = bits(&[0.0, 1.0, 2.0, 10.0, 11.0, 12.0]);
    let mut c = floats(&kmeans::<Soft>(&data, 6, 1, 2, 20, 3));
    c.sort_by(f32::total_cmp);
    assert_eq!(c, [1.0, 11.0]);
    // without a round the centroids are points, none twice
    for seed in 0..50 {
        let c = floats(&kmeans::<Soft>(&data, 6, 1, 6, 0, seed));
        let distinct: HashSet<u32> = c.iter().map(|x| x.to_bits()).collect();
        assert_eq!(distinct.len(), 6);
    }
}

#[test]
fn deserted_centroids_move_to_a_point() {
    // only two different points, so some of four centroids have none
    let data = bits(&[5.0, 5.0, 5.0, 5.0, 7.0, 7.0]);
    for seed in 0..20 {
        let c = floats(&kmeans::<Native>(&data, 6, 1, 4, 7, seed));
        assert!(c.iter().all(|x| *x == 5.0 || *x == 7.0));
    }
}

#[test]
fn both_arithmetics_train_the_same_index() {
    let (n, dim) = (80usize, 8usize);
    let data = gen(n, dim, 3);
    let params = PqParams { m: 4, nbits: 4, train_iters: 5, train_sample: 40, seed: 9 };
    let mut a = PqIndex::train::<Native>(&data, dim, Metric::L2, params);
    let mut b = PqIndex::train::<Soft>(&data, dim, Metric::L2, params);
    a.add::<Native>(&data);
    b.add::<Soft>(&data);
    assert_eq!(a.to_bytes(), b.to_bytes());
}

#[test]
fn training_depends_on_how_many_vectors_are_used() {
    let (n, dim, k) = (60usize, 4usize, 8usize);
    let data = gen(n, dim, 5);
    let books = |train_sample: usize| {
        let params = PqParams { m: 2, nbits: 3, train_iters: 4, train_sample, seed: 7 };
        ProductQuantizer::train::<Native>(&data, dim, params).codebooks().to_vec()
    };
    assert_eq!(books(0).len(), k * dim);
    assert_eq!(books(0), books(n));
    assert_eq!(books(0), books(n + 1));
    assert_eq!(books(1), books(k));
    assert_eq!(books(k - 1), books(k));
    assert_ne!(books(0), books(k));
}

#[test]
fn pq_batches_agree_with_single_searches() {
    let (n, dim, k, nq) = (400usize, 8usize, 5usize, 11usize);
    let data = gen(n, dim, 3);
    let params = PqParams { m: 4, nbits: 5, ..Default::default() };
    let mut pq = PqIndex::train::<Native>(&data, dim, Metric::InnerProduct, params);
    pq.add::<Native>(&data[..200 * dim]);
    pq.add::<Native>(&data[200 * dim..]);
    assert_eq!(pq.len(), n);
    let queries = gen(nq, dim, 4);
    let filter: Vec<bool> = (0..n).map(|i| i % 7 == 0).collect();
    for threads in [0usize, 2] {
        let (mut ids, mut d) = (vec![0i64; nq * k], vec![0u32; nq * k]);
        assert_eq!(pq.search_batch::<Native>(&queries, k, &mut ids, &mut d, threads), Ok(()));
        let (mut fids, mut fd) = (vec![0i64; nq * k], vec![0u32; nq * k]);
        let r = pq.search_batch_filtered::<Native>(&queries, k, &filter, &mut fids, &mut fd, threads);
        assert_eq!(r, Ok(()));
        for q in 0..nq {
            let query = &queries[q * dim..(q + 1) * dim];
            let (mut one, mut od) = (vec![0i64; k], vec![0u32; k]);
            pq.search::<Native>(query, k, &mut one, &mut od);
            assert_eq!((&ids[q * k..(q + 1) * k], &d[q * k..(q + 1) * k]), (&one[..], &od[..]));
            pq.search_filtered::<Native>(query, k, &filter, &mut one, &mut od);
            assert_eq!((&fids[q * k..(q + 1) * k], &fd[q * k..(q + 1) * k]), (&one[..], &od[..]));
        }
    }
}

#[test]
fn pq_defaults() {
    let p = PqParams::default();
    assert_eq!(
        (p.m, p.nbits, p.train_iters, p.train_sample, p.seed),
        (8, 8, 25, 50_000, 0x5EED)
    );
}

#[test]
fn pq_save_and_load() {
    let pq = small(Metric::InnerProduct);
    let bytes = pq.to_bytes();
    let mut expect: Vec<u8> = Vec::new();
    expect.extend(1u32.to_le_bytes());
    for x in [4u64, 2, 2, 2, 8] {
        expect.extend(x.to_le_bytes());
    }
    for &x in pq.quantizer().codebooks() {
        expect.extend(x.to_le_bytes());
    }
    expect.extend(8u64.to_le_bytes());
    expect.extend(pq.codes());
    expect.extend(4u64.to_le_bytes());
    assert_eq!(bytes, expect);
    let back = PqIndex::from_bytes(&bytes).ok().unwrap();
    assert_eq!(back.to_bytes(), bytes);
    assert_eq!((back.nbits(), back.len()), (1, 4));
}

#[test]
fn pq_load_turns_down_what_is_no_index() {
    let good = small(Metric::L2).to_bytes();
    assert_eq!(PqIndex::from_bytes(&good[..good.len() - 1]).err(), Some(LoadError::Malformed));
    let mut metric = good.clone();
    metric[0] = 3;
    assert_eq!(PqIndex::from_bytes(&metric).err(), Some(LoadError::Malformed));
    // the length of vectors, the number of centroids, a code, and how many there are
    let codes = 4 + 5 * 8 + 8 * 4 + 8;
    for (at, value) in [(4usize, 5u8), (28, 3), (codes, 2), (codes + 8, 3)] {
        let mut bad = good.clone();
        assert_ne!(bad[at], value);
        bad[at] = value;
        assert_eq!(PqIndex::from_bytes(&bad).err(), Some(LoadError::Inconsistent));
    }
}

#[test]
fn as_many_clusters_as_points_are_the_points() {
    let (n, d) = (40usize, 3usize);
    let data = gen(n, d, 31);
    let mut rows: Vec<&[u32]> = data.chunks(d).collect();
    rows.sort();
    for seed in 0..4u64 {
        for iters in [0usize, 1, 5] {
            let book = kmeans::<Native>(&data, n, d, n, iters, seed);
            let mut centroids: Vec<&[u32]> = book.chunks(d).collect();
            centroids.sort();
            assert_eq!(centroids, rows);
        }
    }
}
