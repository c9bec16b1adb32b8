use rand::rngs::StdRng;
use rand::{Rng, SeedableRng};
use umap_core::bandwidth::{Move, Probe, Reading, Search};
use umap_core::fuzzy::{directed_edges, symmetrize, Link};
use umap_core::knn::nearest_neighbors;
use umap_core::params::{plan_umap, Plan, UmapParams};
use umap_core::schedule::{Schedule, Step};
use umap_core::single::ordered_key;

// A complete layout run in single precision, with every discrete decision
// taken by the library.

fn soft_count(dists: &[f32], rho: f32, sigma: f32) -> f32 {
    dists.iter().map(|d| if *d > rho { (-((d - rho) / sigma)).exp() } else { 1.0 }).sum()
}

fn bandwidth(dists: &[f32], rho: f32, target: f32) -> f32 {
    let (mut lo, mut hi) = (0.0f32, 1.0f32);
    let mut sigma = hi;
    let mut search = Search::new(64);
    loop {
        let at = match search.probe() {
            Probe::Upper => hi,
            Probe::Middle => 0.5 * (lo + hi),
            Probe::Nothing => break,
        };
        let val = soft_count(dists, rho, at);
        let reading = Reading { above: val > target, close: (val - target).abs() < 1e-5 };
        match search.resolve(reading) {
            Move::DoubleUpper => {
                hi *= 2.0;
                sigma = hi;
            }
            Move::Hold => sigma = hi,
            Move::LowerUpper => {
                hi = at;
                sigma = at;
            }
            Move::RaiseLower => {
                lo = at;
                sigma = at;
            }
            Move::Settle => sigma = at,
            Move::Rest => {}
        }
    }
    sigma.max(1e-8)
}

fn separation(y: &[Vec<f32>], i: usize, j: usize) -> (Vec<f32>, f32) {
    let diff: Vec<f32> = y[i].iter().zip(&y[j]).map(|(a, b)| a - b).collect();
    let dist = diff.iter().map(|v| v * v).sum::<f32>().sqrt();
    (diff, dist)
}

fn fuzzy_graph(data: &[Vec<f32>], k: usize, mix: f32) -> (Vec<Link>, Vec<f32>) {
    let n = data.len();
    let norms: Vec<f32> = data.iter().map(|r| r.iter().map(|x| x * x).sum::<f32>().sqrt()).collect();
    let mut indices = Vec::new();
    let mut dists = Vec::new();
    for i in 0..n {
        let row: Vec<f32> = (0..n)
            .map(|j| {
                let dot: f32 = data[i].iter().zip(&data[j]).map(|(a, b)| a * b).sum();
                1.0 - dot / (norms[i] * norms[j]).max(1e-8)
            })
            .collect();
        let keys: Vec<i32> = row.iter().map(|d| ordered_key(d.to_bits())).collect();
        let near = nearest_neighbors(&keys, i, k);
        dists.push(near.iter().map(|&j| row[j]).collect::<Vec<f32>>());
        indices.push(near);
    }
    let target = (k as f32).log2();
    let rhos: Vec<f32> = dists.iter().map(|d| d[0].max(0.0)).collect();
    let sigmas: Vec<f32> = (0..n).map(|i| bandwidth(&dists[i], rhos[i], target)).collect();

    let (found, slots) = directed_edges(&indices);
    let mut edges = Vec::new();
    let mut strengths = Vec::new();
    for (e, &(i, j)) in found.iter().enumerate() {
        let d = dists[i][slots[e]];
        let p = if d - rhos[i] > 0.0 { (-((d - rhos[i]) / (sigmas[i] + 1e-8))).exp() } else { 1.0 };
        if p != 0.0 {
            edges.push((i, j));
            strengths.push(p);
        }
    }
    let links = symmetrize(n, &edges);
    let weights: Vec<f32> = links
        .iter()
        .map(|l| {
            let pij = l.forward.map_or(0.0, |e| strengths[e]);
            let pji = l.backward.map_or(0.0, |e| strengths[e]);
            mix * (pij + pji - pij * pji) + (1.0 - mix) * 0.5 * (pij + pji)
        })
        .collect();
    (links, weights)
}

fn reduce(data: &[Vec<f32>], dims: usize, params: &UmapParams) -> Vec<Vec<f32>> {
    let n = data.len();
    let k = match plan_umap(n, dims, params).unwrap() {
        Plan::Zeros => return vec![vec![0.0; dims]; n],
        Plan::Fit { neighbors } => neighbors,
    };
    let (links, weights) = fuzzy_graph(data, k, f32::from_bits(params.set_op_mix_ratio));

    let mut rng = StdRng::seed_from_u64(params.random_state);
    let mut y: Vec<Vec<f32>> =
        (0..n).map(|_| (0..dims).map(|_| rng.gen::<f32>() * 1e-3 - 5e-4).collect()).collect();
    let a = 1.5769f32 / f32::from_bits(params.spread).max(1e-3);
    let b = 0.8951f32
        * (0.1 / f32::from_bits(params.min_dist).max(1e-3)).powf(0.5).clamp(0.3, 3.0);
    let lr = f32::from_bits(params.learning_rate);
    let rep = f32::from_bits(params.repulsion_strength);
    let heads: Vec<usize> = links.iter().map(|l| l.i).collect();
    let mut schedule =
        Schedule::new(n, heads, params.n_epochs, params.negative_sample_rate).unwrap();
    loop {
        match schedule.advance(&mut rng) {
            Step::Done => break,
            Step::Skip => {}
            Step::Attract { edge } => {
                let (i, j) = (links[edge].i, links[edge].j);
                let (diff, r) = separation(&y, i, j);
                if r > 0.0 {
                    let q = 1.0 / (1.0 + a * r.powf(2.0 * b));
                    let c = 2.0 * b * a * r.powf(2.0 * b - 2.0) * q * q;
                    for d in 0..dims {
                        y[i][d] -= lr * weights[edge] * c * diff[d];
                        y[j][d] += lr * weights[edge] * c * diff[d];
                    }
                }
            }
            Step::Repel { from, to } => {
                let (diff, r) = separation(&y, from, to);
                let q = 1.0 / (1.0 + a * r.powf(2.0 * b));
                let c = rep * 2.0 * b / (1e-3 + r) * q * (1.0 - q);
                for d in 0..dims {
                    y[from][d] += lr * c * diff[d];
                    y[to][d] -= lr * c * diff[d];
                }
            }
        }
    }
    y
}

#[test]
fn layout_of_few_rows_is_zero() {
    let p = UmapParams::default();
    assert_eq!(reduce(&[vec![1.0, 0.0], vec![0.0, 1.0]], 2, &p), vec![vec![0.0, 0.0]; 2]);
    assert_eq!(reduce(&[], 2, &p), Vec::<Vec<f32>>::new());
}

#[test]
fn layout_repeats_with_the_seed() {
    let mut rng = StdRng::seed_from_u64(7);
    let data: Vec<Vec<f32>> =
        (0..30).map(|_| (0..16).map(|_| rng.gen::<f32>() - 0.5).collect()).collect();
    let p = UmapParams { n_epochs: 20, ..UmapParams::default() };
    let first = reduce(&data, 2, &p);
    let second = reduce(&data, 2, &p);
    assert_eq!(first.len(), 30);
    assert!(first.iter().all(|r| r.len() == 2));
    let bits = |y: &Vec<Vec<f32>>| -> Vec<u32> { y.iter().flatten().map(|v| v.to_bits()).collect() };
    assert_eq!(bits(&first), bits(&second));
    let other = reduce(&data, 2, &UmapParams { random_state: 43, ..p });
    assert_ne!(bits(&first), bits(&other));
}

#[test]
fn fuzzy_graph_of_two_clusters_joins_rows_within_a_cluster_only() {
    let mut data: Vec<Vec<f32>> = Vec::new();
    for i in 0..20 {
        let mut row = vec![0.0f32; 5];
        row[if i < 10 { 0 } else { 1 }] = 1.0;
        data.push(row);
    }
    let (links, weights) = fuzzy_graph(&data, 15, 1.0);
    assert_eq!(links.len(), 2 * 10 * 9);
    for (l, w) in links.iter().zip(&weights) {
        assert_ne!(l.i, l.j);
        assert_eq!(l.i < 10, l.j < 10);
        assert!(0.0 < *w && *w <= 1.0);
        let back = links.iter().position(|m| m.i == l.j && m.j == l.i).unwrap();
        assert_eq!(weights[back].to_bits(), w.to_bits());
    }
    let y = reduce(&data, 2, &UmapParams::default());
    assert_eq!(y.len(), 20);
    assert!(y.iter().flatten().all(|v| v.is_finite()));
}

#[test]
fn fuzzy_graph_weights_lie_between_zero_and_one() {
    let mut rng = StdRng::seed_from_u64(11);
    let data: Vec<Vec<f32>> =
        (0..40).map(|_| (0..8).map(|_| rng.gen::<f32>() - 0.5).collect()).collect();
    for mix in [0.0f32, 0.5, 1.0] {
        let (links, weights) = fuzzy_graph(&data, 6, mix);
        assert!(!links.is_empty());
        for (l, w) in links.iter().zip(&weights) {
            assert_ne!(l.i, l.j);
            assert!(0.0 < *w && *w <= 1.0);
        }
    }
}
