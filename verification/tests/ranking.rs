use umap_core::knn::{knn_indices, nearest_neighbors};
use umap_core::order::{goes_before, rank};
use umap_core::search::top_k_by_score;
use umap_core::single::{is_above_zero, is_within_unit, ordered_key, ordered_keys};

fn key(x: f32) -> i32 {
    ordered_key(x.to_bits())
}

#[test]
fn key_grows_with_the_number() {
    let xs: [f32; 11] = [
        f32::NEG_INFINITY,
        -3.5e10,
        -1.0,
        -1.0e-40,
        0.0,
        1.0e-45,
        1.0e-40,
        0.25,
        1.0,
        7.0e20,
        f32::INFINITY,
    ];
    for w in xs.windows(2) {
        assert!(key(w[0]) < key(w[1]), "{} before {}", w[0], w[1]);
    }
}

#[test]
fn key_exact_values() {
    assert_eq!(key(0.0), 0);
    assert_eq!(key(-0.0), 0);
    assert_eq!(key(1.0), 0x3F80_0000);
    assert_eq!(key(-1.0), -0x3F80_0000);
    assert_eq!(key(f32::INFINITY), 0x7F80_0000);
    assert_eq!(key(f32::NEG_INFINITY), -0x7F80_0000);
    assert_eq!(key(f32::NAN), i32::MAX);
    assert_eq!(ordered_key(0xFFC0_0000), i32::MAX);
    assert_eq!(ordered_key(0x7FFF_FFFF), i32::MAX);
    assert_eq!(key(f32::MIN_POSITIVE), 0x0080_0000);
}

#[test]
fn keys_of_a_list() {
    let bits = vec![1.0f32.to_bits(), (-2.0f32).to_bits(), 0.0f32.to_bits()];
    assert_eq!(ordered_keys(&bits), vec![0x3F80_0000, -0x4000_0000, 0]);
    assert_eq!(ordered_keys(&Vec::new()), Vec::<i32>::new());
}

#[test]
fn sign_and_range_tests_on_bits() {
    assert!(is_above_zero(0.1f32.to_bits()));
    assert!(is_above_zero(f32::INFINITY.to_bits()));
    assert!(is_above_zero(1));
    assert!(!is_above_zero(0.0f32.to_bits()));
    assert!(!is_above_zero((-0.0f32).to_bits()));
    assert!(!is_above_zero((-0.1f32).to_bits()));
    assert!(!is_above_zero(f32::NAN.to_bits()));
    assert!(is_within_unit(0.0f32.to_bits()));
    assert!(is_within_unit((-0.0f32).to_bits()));
    assert!(is_within_unit(0.5f32.to_bits()));
    assert!(is_within_unit(1.0f32.to_bits()));
    assert!(!is_within_unit(1.0000001f32.to_bits()));
    assert!(!is_within_unit((-0.5f32).to_bits()));
    assert!(!is_within_unit(f32::NAN.to_bits()));
}

#[test]
fn goes_before_breaks_ties_by_position() {
    let keys = vec![5, 3, 5];
    assert!(goes_before(&keys, false, 1, 0));
    assert!(!goes_before(&keys, false, 0, 1));
    assert!(goes_before(&keys, false, 0, 2));
    assert!(!goes_before(&keys, false, 2, 0));
    assert!(goes_before(&keys, true, 0, 1));
    assert!(goes_before(&keys, true, 0, 2));
    assert!(!goes_before(&keys, true, 0, 0));
}

#[test]
fn rank_sorts_the_given_positions() {
    let keys = vec![40, 10, 30, 10, 20];
    assert_eq!(rank(&keys, false, &vec![4, 3, 2, 1, 0]), vec![1, 3, 4, 2, 0]);
    assert_eq!(rank(&keys, true, &vec![4, 3, 2, 1, 0]), vec![0, 2, 4, 1, 3]);
    assert_eq!(rank(&keys, false, &vec![2, 4]), vec![4, 2]);
    assert_eq!(rank(&keys, false, &Vec::new()), Vec::<usize>::new());
}

#[test]
fn top_k_is_sorted_descending_and_has_min_k_n_entries() {
    let scores: Vec<f32> = vec![0.1, 0.9, -0.3, 0.9, 0.5, 0.0, -0.0];
    let keys: Vec<i32> = scores.iter().map(|s| key(*s)).collect();
    let hits = top_k_by_score(&keys, 3);
    assert_eq!(hits, vec![1, 3, 4]);
    let all = top_k_by_score(&keys, 100);
    assert_eq!(all, vec![1, 3, 4, 0, 5, 6, 2]);
    for w in all.windows(2) {
        assert!(scores[w[0]] >= scores[w[1]]);
    }
    assert_eq!(top_k_by_score(&keys, 0), Vec::<usize>::new());
    assert_eq!(top_k_by_score(&keys, 7).len(), 7);
    assert_eq!(top_k_by_score(&Vec::new(), 5), Vec::<usize>::new());
}

#[test]
fn top_k_finds_the_exact_match_first() {
    // 100 records on a circle; the query is record 37's own vector.
    let vecs: Vec<[f32; 2]> = (0..100)
        .map(|i| {
            let t = i as f32 * 0.031;
            [t.cos(), t.sin()]
        })
        .collect();
    let q = vecs[37];
    let keys: Vec<i32> = vecs
        .iter()
        .map(|v| {
            let dot = v[0] * q[0] + v[1] * q[1];
            let na = (v[0] * v[0] + v[1] * v[1]).sqrt();
            let nb = (q[0] * q[0] + q[1] * q[1]).sqrt();
            key(dot / (na * nb).max(1e-8))
        })
        .collect();
    let hits = top_k_by_score(&keys, 5);
    assert_eq!(hits.len(), 5);
    assert_eq!(hits[0], 37);
    let best = {
        let v = vecs[hits[0]];
        (v[0] * q[0] + v[1] * q[1]) / ((v[0] * v[0] + v[1] * v[1]).sqrt() * (q[0] * q[0] + q[1] * q[1]).sqrt()).max(1e-8)
    };
    assert!((best - 1.0).abs() < 1e-5);
}

#[test]
fn nearest_neighbors_skip_the_row_itself() {
    let keys = vec![0, 7, 3, 3, 9];
    assert_eq!(nearest_neighbors(&keys, 0, 2), vec![2, 3]);
    assert_eq!(nearest_neighbors(&keys, 0, 4), vec![2, 3, 1, 4]);
    assert_eq!(nearest_neighbors(&keys, 2, 3), vec![0, 3, 1]);
    assert_eq!(nearest_neighbors(&keys, 4, 0), Vec::<usize>::new());
    // The key at the row itself is not read.
    let odd = vec![100, 7, 3, 3, 9];
    assert_eq!(nearest_neighbors(&odd, 0, 2), vec![2, 3]);
}

#[test]
fn knn_table_rows_are_ascending_and_exclude_self() {
    let pts: Vec<f32> = vec![0.0, 1.0, 1.5, 4.0, 4.1];
    let n = pts.len();
    let table: Vec<Vec<i32>> = (0..n)
        .map(|i| (0..n).map(|j| key((pts[i] - pts[j]).abs())).collect())
        .collect();
    let idx = knn_indices(&table, 2);
    assert_eq!(idx, vec![vec![1, 2], vec![2, 0], vec![1, 0], vec![4, 2], vec![3, 2]]);
    for (i, row) in idx.iter().enumerate() {
        assert_ne!(row[0], i);
        assert!(table[i][row[0]] <= table[i][row[1]]);
    }
}
