use std::collections::HashSet;

use proxima::arith::Arithmetic;
use proxima::binary32::{INFINITY, NAN};
use proxima::format::LoadError;
use proxima::hnsw::even_sample;
use proxima::ranked::to_rank;
use proxima::select::select_neighbors;
use proxima::soft::Soft;
use proxima::{FlatIndex, Hnsw, HnswParams, Metric};

/// Arithmetic as the processor does it, with one NaN for all.
struct Native;

fn number(x: f32) -> u32 {
    let b = x.to_bits();
    if b & 0x7fff_ffff > INFINITY {
        NAN
    } else {
        b
    }
}

impl Arithmetic for Native {
    fn add(a: u32, b: u32) -> u32 {
        number(f32::from_bits(a) + f32::from_bits(b))
    }

    fn mul(a: u32, b: u32) -> u32 {
        number(f32::from_bits(a) * f32::from_bits(b))
    }

    fn div(a: u32, b: u32) -> u32 {
        number(f32::from_bits(a) / f32::from_bits(b))
    }

    fn sqrt(a: u32) -> u32 {
        number(f32::from_bits(a).sqrt())
    }

    fn from_count(n: u64) -> u32 {
        number(n as f32)
    }
}

fn bits(v: &[f32]) -> Vec<u32> {
    v.iter().map(|x| x.to_bits()).collect()
}

fn floats(v: &[u32]) -> Vec<f32> {
    v.iter().map(|&b| f32::from_bits(b)).collect()
}

fn gen(n: usize, dim: usize, seed: u64) -> Vec<u32> {
    let mut s = seed;
    (0..n * dim)
        .map(|_| {
            s = s.wrapping_add(0x9E3779B97F4A7C15);
            let mut z = s;
            z = (z ^ (z >> 30)).wrapping_mul(0xBF58476D1CE4E5B9);
            z = (z ^ (z >> 27)).wrapping_mul(0x94D049BB133111EB);
            z ^= z >> 31;
            ((z as f32 / u64::MAX as f32) * 2.0 - 1.0).to_bits()
        })
        .collect()
}

/// The level that a draw leads to.
fn level(sample: u64, ml: u64) -> u16 {
    let u = (sample as f64 / (1u64 << 53) as f64).max(f64::MIN_POSITIVE);
    (-u.ln() * f64::from_bits(ml)) as u16
}

fn build(dim: usize, metric: Metric, params: HnswParams) -> Hnsw {
    Hnsw::new(dim, metric, params, (1.0 / (params.m as f64).ln()).to_bits())
}

fn recall(metric: Metric, n: usize, dim: usize, k: usize, ef: usize) -> f64 {
    let data = gen(n, dim, 1);
    let mut hnsw = build(dim, metric, HnswParams { ef_search: ef, ..Default::default() });
    hnsw.add::<Native, _>(&data, level);
    assert_eq!(hnsw.len(), n);

    let mut flat = FlatIndex::new(dim, metric);
    flat.add(&data);

    let queries = gen(200, dim, 99);
    let nq = 200;
    let mut hit = 0usize;
    let mut total = 0usize;
    for qi in 0..nq {
        let q = &queries[qi * dim..(qi + 1) * dim];
        let (mut hids, mut hd) = (vec![0i64; k], vec![0u32; k]);
        hnsw.search::<Native>(q, k, ef, &mut hids, &mut hd);
        let (mut fids, mut fd) = (vec![0i64; k], vec![0u32; k]);
        flat.search::<Native>(q, k, &mut fids, &mut fd);
        let truth: HashSet<i64> = fids.into_iter().collect();
        for id in hids {
            if id >= 0 && truth.contains(&id) {
                hit += 1;
            }
        }
        total += k;
    }
    hit as f64 / total as f64
}

#[test]
fn high_recall_inner_product() {
    let r = recall(Metric::InnerProduct, 5000, 32, 10, 100);
    assert!(r > 0.95, "recall@10 was {r:.3}, expected > 0.95");
}

#[test]
fn high_recall_l2() {
    let r = recall(Metric::L2, 5000, 32, 10, 100);
    assert!(r > 0.95, "recall@10 was {r:.3}, expected > 0.95");
}

#[test]
fn higher_ef_improves_recall() {
    let low = recall(Metric::L2, 4000, 48, 10, 16);
    let high = recall(Metric::L2, 4000, 48, 10, 200);
    assert!(high >= low, "ef=200 recall {high:.3} should be >= ef=16 recall {low:.3}");
    assert!(high > 0.95);
}

#[test]
fn incremental_add_matches_total() {
    let (n, dim) = (3000usize, 32usize);
    let data = gen(n, dim, 5);
    let mut hnsw = build(dim, Metric::L2, HnswParams::default());
    hnsw.add::<Native, _>(&data[..1500 * dim], level);
    hnsw.add::<Native, _>(&data[1500 * dim..], level);
    assert_eq!(hnsw.len(), n);
    let mut ids = vec![0i64; 5];
    let mut d = vec![0u32; 5];
    hnsw.search::<Native>(&data[7 * dim..8 * dim], 5, 64, &mut ids, &mut d);
    assert_eq!(ids[0], 7, "a stored vector is its own nearest neighbor");
}

#[test]
fn handles_small_and_empty() {
    let mut h = build(4, Metric::L2, HnswParams::default());
    let (mut ids, mut d) = (vec![0i64; 5], vec![0u32; 5]);
    h.search::<Native>(&bits(&[0.0, 0.0, 0.0, 0.0]), 5, 16, &mut ids, &mut d);
    assert!(ids.iter().all(|&x| x == -1));
    h.add::<Native, _>(&bits(&[1.0, 0.0, 0.0, 0.0, 0.0, 1.0, 0.0, 0.0]), level);
    h.search::<Native>(&bits(&[1.0, 0.0, 0.0, 0.0]), 5, 16, &mut ids, &mut d);
    assert_eq!(ids[0], 0);
    assert_eq!(ids[2], -1);
}

#[test]
fn filtered_search_only_returns_matching_ids() {
    let (n, dim, k, ef) = (5000usize, 32usize, 10usize, 100usize);
    let data = gen(n, dim, 1);
    let mut hnsw = build(dim, Metric::InnerProduct, HnswParams::default());
    hnsw.add::<Native, _>(&data, level);

    let filter: Vec<bool> = (0..n).map(|i| i % 10 == 0).collect();
    let queries = gen(50, dim, 42);
    for qi in 0..50 {
        let q = &queries[qi * dim..(qi + 1) * dim];
        let (mut ids, mut d) = (vec![0i64; k], vec![0u32; k]);
        hnsw.search_filtered::<Native>(q, k, ef, &filter, &mut ids, &mut d);
        for &id in &ids {
            if id >= 0 {
                assert!(filter[id as usize], "result id {id} must satisfy the filter");
            }
        }
    }
}

#[test]
fn filtered_search_recall_vs_exact_filtered_ground_truth() {
    let (n, dim, k, ef) = (5000usize, 32usize, 10usize, 200usize);
    let data = gen(n, dim, 3);
    let mut hnsw = build(dim, Metric::L2, HnswParams { ef_search: ef, ..Default::default() });
    hnsw.add::<Native, _>(&data, level);
    let mut flat = FlatIndex::new(dim, Metric::L2);
    flat.add(&data);

    let filter: Vec<bool> = (0..n).map(|i| i % 5 == 0).collect();
    let queries = gen(100, dim, 7);
    let mut hit = 0usize;
    let mut total = 0usize;
    for qi in 0..100 {
        let q = &queries[qi * dim..(qi + 1) * dim];
        let (mut hids, mut hd) = (vec![0i64; k], vec![0u32; k]);
        hnsw.search_filtered::<Native>(q, k, ef, &filter, &mut hids, &mut hd);
        let (mut fids, mut fd) = (vec![0i64; k], vec![0u32; k]);
        flat.search_filtered::<Native>(q, k, &filter, &mut fids, &mut fd);
        let truth: HashSet<i64> = fids.into_iter().collect();
        for id in hids {
            if id >= 0 && truth.contains(&id) {
                hit += 1;
            }
        }
        total += k;
    }
    let r = hit as f64 / total as f64;
    assert!(r > 0.9, "filtered recall@10 was {r:.3}, expected > 0.9");
}

#[test]
fn traced_search_matches_untraced_search() {
    let (n, dim, k, ef) = (2000usize, 32usize, 10usize, 64usize);
    let mut hnsw = build(
        dim,
        Metric::InnerProduct,
        HnswParams { ef_search: ef, ..Default::default() },
    );
    hnsw.add::<Native, _>(&gen(n, dim, 11), level);

    let query = gen(1, dim, 77);
    let (mut ids, mut out) = (vec![0i64; k], vec![0u32; k]);
    hnsw.search::<Native>(&query, k, ef, &mut ids, &mut out);
    let dists = floats(&out);

    let (traced_results, trace, total_visited) = hnsw.search_traced::<Native>(&query, k, ef, 1000);
    let traced_ids: Vec<i64> = traced_results.iter().map(|&(id, _)| id as i64).collect();
    let traced_dists: Vec<f32> = traced_results.iter().map(|&(_, d)| f32::from_bits(d)).collect();
    assert_eq!(ids, traced_ids, "search_traced must find the same ids as search");
    for (a, b) in dists.iter().zip(traced_dists.iter()) {
        assert!((a - b).abs() < 1e-4, "scores must match: {a} vs {b}");
    }
    assert!(!trace.is_empty(), "trace should record at least the entry point");
    assert!(total_visited > 0);
    for &(_, id, _) in &trace {
        assert!((id as usize) < n, "trace must only contain real node ids");
    }
}

#[test]
fn traced_search_trace_is_capped() {
    let (n, dim, ef) = (5000usize, 32usize, 200usize);
    let mut hnsw = build(dim, Metric::L2, HnswParams { ef_search: ef, ..Default::default() });
    hnsw.add::<Native, _>(&gen(n, dim, 3), level);

    let query = gen(1, dim, 5);
    let (_, trace, total_visited) = hnsw.search_traced::<Native>(&query, 10, ef, 5);
    let layer0_steps = trace.iter().filter(|&&(layer, _, _)| layer == 0).count();
    assert!(layer0_steps <= 5, "layer-0 trace must respect max_trace, got {layer0_steps}");
    assert!(total_visited >= layer0_steps, "total_visited must be at least the sampled layer-0 steps");
}

#[test]
fn traced_search_on_empty_index() {
    let h = build(8, Metric::L2, HnswParams::default());
    let (results, trace, total_visited) = h.search_traced::<Native>(&bits(&[0.0; 8]), 5, 16, 40);
    assert!(results.is_empty());
    assert!(trace.is_empty());
    assert_eq!(total_visited, 0);
}

#[test]
fn no_self_loops_after_parallel_build() {
    for seed in 1..=5u64 {
        let (n, dim) = (20000usize, 16usize);
        let data = gen(n, dim, seed);
        let mut h = build(
            dim,
            Metric::L2,
            HnswParams { m: 8, ef_construction: 100, ..Default::default() },
        );
        h.add::<Native, _>(&data, level);
        for (id, layers) in h.links().iter().enumerate() {
            for (layer, nbrs) in layers.iter().enumerate() {
                assert!(
                    !nbrs.contains(&(id as u32)),
                    "node {id} contains itself as a neighbor on layer {layer} (seed {seed})"
                );
            }
        }
    }
}

#[test]
fn no_links_above_node_level_after_parallel_build() {
    for seed in 1..=4u64 {
        let (n, dim) = (10000usize, 16usize);
        let data = gen(n, dim, seed);
        let mut h = build(
            dim,
            Metric::L2,
            HnswParams { m: 4, ef_construction: 200, seed, ..Default::default() },
        );
        h.add::<Native, _>(&data, level);
        assert!(
            h.max_level() >= 2,
            "seed {seed} only reached level {}, too flat to exercise entry-point growth",
            h.max_level()
        );
        assert_eq!(h.links().len(), h.levels().len(), "seed {seed}");
        for (id, layers) in h.links().iter().enumerate() {
            assert!(
                layers.len() <= h.levels()[id] + 1,
                "node {id} holds {} adjacency layers but sits at level {} (seed {seed})",
                layers.len(),
                h.levels()[id]
            );
        }
        let ep = h.entry_point().expect("a populated index must have an entry point") as usize;
        assert!(
            h.max_level() <= h.levels()[ep],
            "entry point {ep} sits at level {} but max_level is {} (seed {seed})",
            h.levels()[ep],
            h.max_level()
        );
    }
}

#[test]
fn every_list_keeps_to_its_share() {
    let (n, dim) = (3000usize, 8usize);
    let m = 5;
    let mut h = build(dim, Metric::L2, HnswParams { m, ef_construction: 40, ..Default::default() });
    h.add::<Native, _>(&gen(n, dim, 2), level);
    for (id, layers) in h.links().iter().enumerate() {
        assert_eq!(layers.len(), h.levels()[id] + 1);
        for (layer, list) in layers.iter().enumerate() {
            assert!(list.len() <= if layer == 0 { 2 * m } else { m });
            for &nb in list {
                assert!((nb as usize) < n && h.levels()[nb as usize] >= layer);
            }
        }
    }
    let top = h.levels().iter().copied().max();
    assert_eq!(top, Some(h.max_level()));
}

#[test]
fn one_vector_at_a_time_gives_one_graph() {
    let (n, dim) = (300usize, 6usize);
    let data = gen(n, dim, 21);
    let params = HnswParams { m: 4, ef_construction: 20, ..Default::default() };
    let mut a = build(dim, Metric::L2, params);
    let mut b = build(dim, Metric::L2, params);
    for v in data.chunks(dim) {
        a.add::<Native, _>(v, level);
        b.add::<Soft, _>(v, level);
    }
    assert_eq!(a.to_bytes(), b.to_bytes());
    let (mut ids, mut d) = ([0i64; 1], [0u32; 1]);
    for i in 0..n {
        a.search::<Native>(&data[i * dim..(i + 1) * dim], 1, 50, &mut ids, &mut d);
        assert_eq!((ids[0], d[0]), (i as i64, 0));
    }
}

#[test]
fn two_nodes_link_to_each_other() {
    let mut h = build(1, Metric::L2, HnswParams::default());
    h.add::<Soft, _>(&bits(&[0.0, 3.0]), |_, _| 0);
    assert_eq!(h.links(), [vec![vec![1]], vec![vec![0]]]);
    assert_eq!((h.entry_point(), h.max_level()), (Some(0), 0));
    h.add::<Soft, _>(&bits(&[1.0]), |_, _| 2);
    assert_eq!((h.entry_point(), h.max_level()), (Some(2), 2));
    // node 1 is nearer to node 2 than to node 0, so node 2 keeps both
    assert_eq!(h.links()[2], [vec![0, 1], vec![], vec![]]);
    assert_eq!(h.links()[0], [vec![1, 2]]);
}

#[test]
fn levels_come_from_the_draws() {
    let mut h = build(1, Metric::L2, HnswParams { seed: 0, ..Default::default() });
    let mut state = 0u64.wrapping_mul(0x9E3779B97F4A7C15).wrapping_add(1);
    assert_eq!(h.rng_state(), state);
    let mut expect = Vec::new();
    for _ in 0..5 {
        state = state.wrapping_add(0x9E3779B97F4A7C15);
        let mut z = state;
        z = (z ^ (z >> 30)).wrapping_mul(0xBF58476D1CE4E5B9);
        z = (z ^ (z >> 27)).wrapping_mul(0x94D049BB133111EB);
        z ^= z >> 31;
        expect.push(((z >> 11) % 3) as usize);
    }
    h.add::<Native, _>(&bits(&[0.0, 1.0, 2.0, 3.0, 4.0]), |sample, _| (sample % 3) as u16);
    assert_eq!(h.levels(), expect);
    assert_eq!(h.rng_state(), state);
}

#[test]
fn batch_search_agrees_with_single_search() {
    let (n, dim, k, nq) = (1500usize, 10usize, 6usize, 23usize);
    let mut h = build(dim, Metric::L2, HnswParams::default());
    h.add::<Native, _>(&gen(n, dim, 4), level);
    let queries = gen(nq, dim, 12);
    let filter: Vec<bool> = (0..n).map(|i| i % 2 == 1).collect();
    for threads in [0usize, 2] {
        let (mut ids, mut d) = (vec![0i64; nq * k], vec![0u32; nq * k]);
        assert_eq!(h.search_batch::<Native>(&queries, k, 40, &mut ids, &mut d, threads), Ok(()));
        let (mut fids, mut fd) = (vec![0i64; nq * k], vec![0u32; nq * k]);
        let r = h.search_batch_filtered::<Native>(&queries, k, 40, &filter, &mut fids, &mut fd, threads);
        assert_eq!(r, Ok(()));
        for q in 0..nq {
            let query = &queries[q * dim..(q + 1) * dim];
            let (mut one, mut od) = (vec![0i64; k], vec![0u32; k]);
            h.search::<Native>(query, k, 40, &mut one, &mut od);
            assert_eq!((&ids[q * k..(q + 1) * k], &d[q * k..(q + 1) * k]), (&one[..], &od[..]));
            h.search_filtered::<Native>(query, k, 40, &filter, &mut one, &mut od);
            assert_eq!((&fids[q * k..(q + 1) * k], &fd[q * k..(q + 1) * k]), (&one[..], &od[..]));
            assert!(one.iter().all(|&id| id % 2 == 1));
        }
    }
}

#[test]
fn a_wide_search_of_a_connected_graph_is_exact() {
    let (n, dim, k) = (400usize, 5usize, 12usize);
    let data = gen(n, dim, 31);
    let mut h = build(dim, Metric::L2, HnswParams::default());
    h.add::<Native, _>(&data, level);
    let mut flat = FlatIndex::new(dim, Metric::L2);
    flat.add(&data);
    for q in gen(20, dim, 32).chunks(dim) {
        let (_, _, seen) = h.search_traced::<Native>(q, k, n, 0);
        assert_eq!(seen, n);
        let (mut a, mut ad) = (vec![0i64; k], vec![0u32; k]);
        let (mut b, mut bd) = (vec![0i64; k], vec![0u32; k]);
        h.search::<Native>(q, k, n, &mut a, &mut ad);
        flat.search::<Native>(q, k, &mut b, &mut bd);
        assert_eq!((a, ad), (b, bd));
    }
}

#[test]
fn traces_begin_at_the_top_and_end_at_the_bottom() {
    let (n, dim) = (2000usize, 8usize);
    let mut h = build(dim, Metric::L2, HnswParams { m: 4, ..Default::default() });
    h.add::<Native, _>(&gen(n, dim, 13), level);
    let query = gen(1, dim, 14);
    let (results, trace, seen) = h.search_traced::<Native>(&query, 5, 30, 7);
    assert_eq!(results.len(), 5);
    let layers: Vec<u32> = trace.iter().map(|t| t.0).collect();
    let mut expect: Vec<u32> = (1..=h.max_level() as u32).rev().collect();
    expect.extend([0; 7]);
    assert_eq!(layers, expect);
    let (_, all, _) = h.search_traced::<Native>(&query, 5, 30, usize::MAX);
    assert_eq!(all.len(), h.max_level() + seen);
    assert_eq!(all[h.max_level()], trace[h.max_level()]);
    assert_eq!(all.last(), trace.last());
    assert!(h.search_traced::<Native>(&query, 0, 30, 7).1.is_empty());
}

#[test]
fn even_samples_are_spread_evenly() {
    let items: Vec<u32> = (100..110).collect();
    assert_eq!(even_sample(&items, 0), []);
    assert_eq!(even_sample(&items, 1), [100]);
    assert_eq!(even_sample(&items, 4), [100, 103, 106, 109]);
    assert_eq!(even_sample(&items, 10), items);
    assert_eq!(even_sample(&items, 11), items);
    assert_eq!(even_sample(&[], 3), []);
}

#[test]
fn defaults_and_getters() {
    let p = HnswParams::default();
    assert_eq!((p.m, p.ef_construction, p.ef_search, p.seed), (16, 200, 64, 0x5EED));
    let mut h = build(3, Metric::InnerProduct, p);
    assert_eq!((h.dim(), h.len(), h.is_empty(), h.metric()), (3, 0, true, Metric::InnerProduct));
    assert_eq!(h.memory_bytes(), 0);
    h.set_ef_search(7);
    assert_eq!(h.params().ef_search, 7);
    h.add::<Native, _>(&gen(100, 3, 1), level);
    let edges: usize = h.links().iter().flatten().map(|l| l.len()).sum();
    assert!(h.memory_bytes() >= 4 * (300 + edges));
    assert_eq!(h.data(), gen(100, 3, 1));
}

#[test]
fn hnsw_save_and_load() {
    let (n, dim) = (500usize, 6usize);
    let mut h = build(dim, Metric::InnerProduct, HnswParams { m: 3, ..Default::default() });
    h.add::<Native, _>(&gen(n, dim, 8), level);
    let bytes = h.to_bytes();
    let mut back = Hnsw::from_bytes(&bytes).ok().unwrap();
    assert_eq!(back.to_bytes(), bytes);
    assert_eq!(back.links(), h.links());
    assert_eq!(back.ml(), (1.0 / 3.0f64.ln()).to_bits());
    let query = gen(1, dim, 9);
    assert_eq!(
        h.search_traced::<Native>(&query, 5, 20, 10),
        back.search_traced::<Native>(&query, 5, 20, 10)
    );
    h.add::<Native, _>(&query, level);
    back.add::<Native, _>(&query, level);
    assert_eq!(back.to_bytes(), h.to_bytes());
}

#[test]
fn hnsw_bytes_are_laid_out_as_documented() {
    let params = HnswParams { m: 2, ef_construction: 3, ef_search: 4, seed: 5 };
    let mut h = Hnsw::new(1, Metric::InnerProduct, params, 99);
    h.add::<Soft, _>(&bits(&[1.5]), |_, _| 1);
    let mut expect: Vec<u8> = Vec::new();
    expect.extend(1u64.to_le_bytes());
    expect.extend(1u32.to_le_bytes());
    for x in [2u64, 3, 4, 5, 4, 2, 99] {
        expect.extend(x.to_le_bytes());
    }
    expect.extend(1u64.to_le_bytes());
    expect.extend(1.5f32.to_le_bytes());
    for x in [1u64, 2, 0, 0] {
        expect.extend(x.to_le_bytes());
    }
    expect.extend(1u64.to_le_bytes());
    expect.extend(1u64.to_le_bytes());
    expect.push(1);
    expect.extend(0u32.to_le_bytes());
    expect.extend(1u64.to_le_bytes());
    expect.extend(h.rng_state().to_le_bytes());
    expect.extend(1u64.to_le_bytes());
    assert_eq!(h.to_bytes(), expect);
}

#[test]
fn hnsw_load_turns_down_what_is_no_index() {
    let params = HnswParams { m: 2, ef_construction: 3, ef_search: 4, seed: 5 };
    let mut h = Hnsw::new(1, Metric::L2, params, 99);
    h.add::<Soft, _>(&bits(&[1.5, 2.5]), |_, _| 0);
    let good = h.to_bytes();
    assert!(Hnsw::from_bytes(&good).is_ok());
    assert_eq!(Hnsw::from_bytes(&good[..10]).err(), Some(LoadError::Malformed));
    let mut metric = good.clone();
    metric[8] = 7;
    assert_eq!(Hnsw::from_bytes(&metric).err(), Some(LoadError::Malformed));
    // m, the share in the lowest layer, and a neighbor that is the node itself
    for (at, value) in [(12usize, 1u8), (44, 5), (108, 0)] {
        let mut bad = good.clone();
        assert_ne!(bad[at], value);
        bad[at] = value;
        assert_eq!(Hnsw::from_bytes(&bad).err(), Some(LoadError::Inconsistent));
    }
}

#[test]
fn every_new_node_has_neighbors_in_the_layers_before_it() {
    let (n, dim) = (3000usize, 8usize);
    let mut h = build(dim, Metric::L2, HnswParams { m: 2, ..Default::default() });
    h.add::<Native, _>(&gen(n, dim, 12), level);
    let tops = [h.levels()[0], h.max_level()];
    h.add::<Native, _>(&gen(n, dim, 13), level);
    for id in 1..2 * n {
        let top = h.levels()[id].min(tops[id / n]);
        for layer in 0..=top {
            assert!(!h.links()[id][layer].is_empty(), "node {id} is alone in layer {layer}");
        }
    }
    assert_eq!(h.max_level(), *h.levels().iter().max().unwrap());
}

#[test]
fn nodes_linked_at_once_are_joined_with_what_they_select() {
    // from 2.0 and from 3.0 on, 0.0 lies behind 1.0, so neither selects it
    for seed in 0..20 {
        let params = HnswParams { m: 2, ef_construction: 4, ef_search: 4, seed };
        let mut h = Hnsw::new(1, Metric::L2, params, 0);
        h.add::<Native, _>(&bits(&[0.0, 1.0]), |_, _| 0);
        h.add::<Native, _>(&bits(&[2.0, 3.0]), |_, _| 0);
        assert_eq!(h.links()[0], vec![vec![1u32]]);
        assert!(h.links()[1][0].contains(&0) && h.links()[1][0].contains(&2));
        assert!(h.links()[2][0].contains(&1));
        assert!(!h.links()[3][0].contains(&0) && !h.links()[3][0].is_empty());
    }
}

#[test]
fn where_there_is_room_links_go_both_ways() {
    let (n, dim) = (30usize, 4usize);
    for seed in 0..10 {
        let mut h = build(dim, Metric::L2, HnswParams { m: 32, ..Default::default() });
        h.add::<Native, _>(&gen(n, dim, 100 + seed), level);
        for (id, lists) in h.links().iter().enumerate() {
            for (layer, list) in lists.iter().enumerate() {
                for &x in list {
                    assert!(h.links()[x as usize][layer].contains(&(id as u32)));
                }
            }
        }
        // so every node is found from the entry point on
        let mut seen: HashSet<u32> = HashSet::new();
        let mut open = vec![h.entry_point().unwrap()];
        while let Some(id) = open.pop() {
            if seen.insert(id) {
                open.extend(h.links()[id as usize][0].iter());
            }
        }
        assert_eq!(seen.len(), n);
    }
}

#[test]
fn old_nodes_are_connected_to_new_ones_only() {
    let (n, dim) = (400usize, 4usize);
    let mut h = build(dim, Metric::L2, HnswParams { m: 3, ..Default::default() });
    h.add::<Native, _>(&gen(n, dim, 21), level);
    let before = h.links().to_vec();
    h.add::<Native, _>(&gen(n, dim, 22), level);
    for (old, now) in before.iter().zip(h.links()) {
        for (a, b) in old.iter().zip(now) {
            assert!(b.iter().all(|x| *x as usize >= n || a.contains(x)));
        }
    }
}

#[test]
fn neighbors_are_selected_nearest_first() {
    let mut store = FlatIndex::new(1, Metric::L2);
    store.add(&bits(&[1.0, 1.5, -2.0]));
    let c = |d: f32, id: u64| to_rank(d.to_bits(), id);
    let candidates = [c(4.0, 2), c(2.25, 1), c(1.0, 0)];
    assert_eq!(select_neighbors::<Native>(&store, &candidates, 2), [0, 2]);
    assert_eq!(select_neighbors::<Soft>(&store, &candidates, 1), [0]);
    assert_eq!(select_neighbors::<Soft>(&store, &candidates, 0), []);
    assert_eq!(select_neighbors::<Soft>(&store, &[], 2), []);
}

#[test]
fn levels_do_not_depend_on_how_vectors_are_added() {
    let (n, dim) = (500usize, 4usize);
    let data = gen(n, dim, 21);
    let params = HnswParams { m: 3, ..Default::default() };
    let mut whole = build(dim, Metric::L2, params);
    whole.add::<Native, _>(&data, level);
    for step in [1usize, 7, 250] {
        let mut parts = build(dim, Metric::L2, params);
        for part in data.chunks(step * dim) {
            parts.add::<Native, _>(part, level);
        }
        assert_eq!(parts.len(), whole.len());
        assert_eq!(parts.data(), whole.data());
        assert_eq!(parts.levels(), whole.levels());
        assert_eq!(parts.max_level(), whole.max_level());
        assert_eq!(parts.rng_state(), whole.rng_state());
    }
}

#[test]
fn a_filter_that_all_nodes_pass_changes_nothing() {
    let (n, dim, k) = (400usize, 6usize, 9usize);
    let mut h = build(dim, Metric::InnerProduct, HnswParams::default());
    h.add::<Native, _>(&gen(n, dim, 22), level);
    let q = gen(1, dim, 23);
    let (mut ids, mut d) = (vec![0i64; k], vec![0u32; k]);
    h.search::<Native>(&q, k, 20, &mut ids, &mut d);
    let (mut fids, mut fd) = (vec![0i64; k], vec![0u32; k]);
    h.search_filtered::<Native>(&q, k, 20, &vec![true; n], &mut fids, &mut fd);
    assert_eq!((ids, d), (fids, fd));
}

#[test]
fn a_wide_search_reports_what_an_exact_index_reports() {
    let (n, dim, k) = (300usize, 5usize, 12usize);
    let data = gen(n, dim, 24);
    let mut h = build(dim, Metric::L2, HnswParams::default());
    for v in data.chunks(dim) {
        h.add::<Native, _>(v, level);
    }
    let mut flat = FlatIndex::new(dim, Metric::L2);
    flat.add(&data);
    let filter: Vec<bool> = (0..n).map(|i| i % 3 != 0).collect();
    for q in gen(20, dim, 25).chunks(dim) {
        let (mut ids, mut d) = (vec![0i64; k], vec![0u32; k]);
        h.search::<Native>(q, k, n, &mut ids, &mut d);
        let (mut fids, mut fd) = (vec![0i64; k], vec![0u32; k]);
        flat.search::<Native>(q, k, &mut fids, &mut fd);
        assert_eq!((&ids, &d), (&fids, &fd));
        h.search_filtered::<Native>(q, k, n, &filter, &mut ids, &mut d);
        flat.search_filtered::<Native>(q, k, &filter, &mut fids, &mut fd);
        assert_eq!((ids, d), (fids, fd));
    }
}
