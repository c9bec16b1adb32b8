use rand::rngs::StdRng;
use rand::SeedableRng;
use umap_core::error::ReduceError;
use umap_core::fuzzy::{directed_edges, symmetrize, Link};
use umap_core::params::{check_pca, plan_umap, Plan, UmapParams};
use umap_core::schedule::{Cursor, Schedule, Step};

#[test]
fn symmetrize_pairs_each_direction_with_its_reverse() {
    let edges = vec![(0, 1), (1, 0), (1, 2), (3, 0)];
    let links = symmetrize(4, &edges);
    assert_eq!(
        links,
        vec![
            Link { i: 0, j: 1, forward: Some(0), backward: Some(1) },
            Link { i: 0, j: 3, forward: None, backward: Some(3) },
            Link { i: 1, j: 0, forward: Some(1), backward: Some(0) },
            Link { i: 1, j: 2, forward: Some(2), backward: None },
            Link { i: 2, j: 1, forward: None, backward: Some(2) },
            Link { i: 3, j: 0, forward: Some(3), backward: None },
        ]
    );
}

#[test]
fn symmetrized_set_is_symmetric_without_self_edges() {
    let edges = vec![(0, 2), (2, 4), (4, 0), (1, 3), (3, 1), (0, 2), (5, 5), (2, 0)];
    let links = symmetrize(6, &edges);
    for l in &links {
        assert_ne!(l.i, l.j);
        let back = links.iter().find(|m| m.i == l.j && m.j == l.i).unwrap();
        assert_eq!(back.forward, l.backward);
        assert_eq!(back.backward, l.forward);
    }
    assert_eq!(links.len(), 8);
    assert!(links.len() <= 2 * edges.len());
}

#[test]
fn symmetrize_edge_cases() {
    // A later duplicate replaces an earlier one.
    let links = symmetrize(2, &vec![(0, 1), (0, 1)]);
    assert_eq!(
        links,
        vec![
            Link { i: 0, j: 1, forward: Some(1), backward: None },
            Link { i: 1, j: 0, forward: None, backward: Some(1) },
        ]
    );
    // Self edges and rows out of range take no part.
    assert_eq!(symmetrize(2, &vec![(1, 1), (0, 2), (7, 0)]), Vec::<Link>::new());
    assert_eq!(symmetrize(0, &vec![(0, 1)]), Vec::<Link>::new());
    assert_eq!(symmetrize(3, &Vec::new()), Vec::<Link>::new());
}

#[test]
fn directed_edges_follow_the_neighbour_table() {
    let indices = vec![vec![1, 2], vec![1, 0], vec![0, 1]];
    let (edges, slots) = directed_edges(&indices);
    assert_eq!(edges, vec![(0, 1), (0, 2), (1, 0), (2, 0), (2, 1)]);
    assert_eq!(slots, vec![0, 1, 1, 0, 1]);
    let (e, s) = directed_edges(&Vec::new());
    assert!(e.is_empty() && s.is_empty());
}

#[test]
fn schedule_walks_edges_then_epochs() {
    let mut s = Schedule::new(4, vec![0, 2], 2, 1).unwrap();
    assert!(s.has_next());
    assert!(!s.needs_draw());
    assert_eq!(s.step_with(9), Step::Attract { edge: 0 });
    assert!(s.needs_draw());
    assert_eq!(s.step_with(3), Step::Repel { from: 0, to: 3 });
    assert_eq!(s.step_with(0), Step::Attract { edge: 1 });
    assert_eq!(s.step_with(2), Step::Skip);
    assert_eq!(s.step_with(0), Step::Attract { edge: 0 });
    assert_eq!(s.step_with(0), Step::Skip);
    assert_eq!(s.step_with(0), Step::Attract { edge: 1 });
    assert_eq!(s.step_with(1), Step::Repel { from: 2, to: 1 });
    assert!(!s.has_next());
    assert!(!s.needs_draw());
    assert_eq!(s.step_with(0), Step::Done);
    assert_eq!(s.step_with(0), Step::Done);
}

#[test]
fn schedule_takes_epochs_times_edges_times_stages_steps() {
    let mut rng = StdRng::seed_from_u64(42);
    let mut s = Schedule::new(10, vec![0, 1, 2, 3, 4, 5, 6], 3, 5).unwrap();
    let mut steps = 0usize;
    let mut attracts = Vec::new();
    loop {
        match s.advance(&mut rng) {
            Step::Done => break,
            Step::Attract { edge } => attracts.push(edge),
            Step::Repel { from, to } => {
                assert!(from < 10 && to < 10 && from != to);
            }
            Step::Skip => {}
        }
        steps += 1;
    }
    assert_eq!(steps, 3 * 7 * 6);
    let once: Vec<usize> = (0..7).collect();
    assert_eq!(attracts, [once.clone(), once.clone(), once].concat());
    assert_eq!(s.advance(&mut rng), Step::Done);
}

#[test]
fn schedule_draws_repeat_with_the_seed() {
    let run = |seed: u64| {
        let mut rng = StdRng::seed_from_u64(seed);
        let mut s = Schedule::new(50, vec![3, 9, 27], 4, 3).unwrap();
        let mut out = Vec::new();
        loop {
            let step = s.advance(&mut rng);
            if step == Step::Done {
                break;
            }
            out.push(step);
        }
        out
    };
    let a = run(42);
    assert_eq!(a, run(42));
    assert_ne!(a, run(43));
    // The draws are not all one value: the generator is really asked.
    let tos: Vec<usize> = a
        .iter()
        .filter_map(|s| match s {
            Step::Repel { to, .. } => Some(*to),
            _ => None,
        })
        .collect();
    assert!(tos.iter().any(|t| *t != tos[0]));
}

#[test]
fn schedule_edge_cases() {
    assert!(Schedule::new(3, vec![0, 3], 1, 1).is_none());
    let mut none = Schedule::new(3, Vec::new(), 5, 2).unwrap();
    assert!(!none.has_next());
    assert_eq!(none.step_with(0), Step::Done);
    let mut zero_epochs = Schedule::new(3, vec![0, 1], 0, 2).unwrap();
    assert_eq!(zero_epochs.step_with(0), Step::Done);
    let mut no_negatives = Schedule::new(3, vec![0, 1], 1, 0).unwrap();
    assert_eq!(no_negatives.step_with(0), Step::Attract { edge: 0 });
    assert_eq!(no_negatives.step_with(0), Step::Attract { edge: 1 });
    assert_eq!(no_negatives.step_with(0), Step::Done);
    let _ = Cursor { epoch: 0, edge: 0, stage: 0 };
}

#[test]
fn default_params() {
    let p = UmapParams::default();
    assert_eq!(p.n_neighbors, 15);
    assert_eq!(p.n_epochs, 200);
    assert_eq!(f32::from_bits(p.min_dist), 0.1);
    assert_eq!(f32::from_bits(p.spread), 1.0);
    assert_eq!(f32::from_bits(p.learning_rate), 1.0);
    assert_eq!(p.negative_sample_rate, 5);
    assert_eq!(f32::from_bits(p.set_op_mix_ratio), 1.0);
    assert_eq!(f32::from_bits(p.repulsion_strength), 1.0);
    assert_eq!(p.random_state, 42);
    assert_eq!(p.check(), Ok(()));
}

#[test]
fn params_out_of_range_are_refused() {
    let ok = UmapParams::default();
    let bad = [
        UmapParams { n_neighbors: 1, ..ok },
        UmapParams { n_epochs: 0, ..ok },
        UmapParams { min_dist: 0.0f32.to_bits(), ..ok },
        UmapParams { min_dist: (-0.1f32).to_bits(), ..ok },
        UmapParams { spread: 0.0f32.to_bits(), ..ok },
        UmapParams { learning_rate: f32::NAN.to_bits(), ..ok },
        UmapParams { set_op_mix_ratio: 1.5f32.to_bits(), ..ok },
        UmapParams { set_op_mix_ratio: (-0.5f32).to_bits(), ..ok },
        UmapParams { repulsion_strength: (-1.0f32).to_bits(), ..ok },
    ];
    for p in bad {
        assert_eq!(p.check(), Err(ReduceError::Config));
        assert_eq!(plan_umap(10, 2, &p), Err(ReduceError::Config));
    }
    let edge = UmapParams { set_op_mix_ratio: 0.0f32.to_bits(), negative_sample_rate: 0, n_neighbors: 2, ..ok };
    assert_eq!(edge.check(), Ok(()));
}

#[test]
fn umap_plan_small_inputs_give_zeros() {
    let p = UmapParams::default();
    assert_eq!(plan_umap(0, 2, &p), Ok(Plan::Zeros));
    assert_eq!(plan_umap(1, 3, &p), Ok(Plan::Zeros));
    assert_eq!(plan_umap(2, 2, &p), Ok(Plan::Zeros));
    assert_eq!(plan_umap(3, 2, &p), Ok(Plan::Fit { neighbors: 2 }));
    assert_eq!(plan_umap(16, 2, &p), Ok(Plan::Fit { neighbors: 15 }));
    assert_eq!(plan_umap(30, 3, &p), Ok(Plan::Fit { neighbors: 15 }));
    assert_eq!(plan_umap(5, 2, &p), Ok(Plan::Fit { neighbors: 4 }));
}

#[test]
fn umap_plan_refuses_other_dims() {
    let p = UmapParams::default();
    assert_eq!(plan_umap(10, 0, &p), Err(ReduceError::Shape));
    assert_eq!(plan_umap(10, 1, &p), Err(ReduceError::Shape));
    assert_eq!(plan_umap(10, 4, &p), Err(ReduceError::Shape));
    assert_eq!(plan_umap(0, 4, &p), Err(ReduceError::Shape));
    let bad = UmapParams { n_neighbors: 0, ..p };
    assert_eq!(plan_umap(10, 5, &bad), Err(ReduceError::Shape));
}

#[test]
fn pca_request_checks() {
    assert_eq!(check_pca(4, 3, 1), Ok(()));
    assert_eq!(check_pca(4, 3, 2), Ok(()));
    assert_eq!(check_pca(4, 3, 3), Ok(()));
    assert_eq!(check_pca(4, 3, 0), Err(ReduceError::Shape));
    assert_eq!(check_pca(4, 3, 4), Err(ReduceError::Shape));
    assert_eq!(check_pca(0, 3, 2), Err(ReduceError::Shape));
    assert_eq!(check_pca(4, 0, 2), Err(ReduceError::Shape));
}
