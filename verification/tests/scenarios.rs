//! Concrete scenarios with exact expected values, the documented edge cases,
//! and a round-trip check over permutations of one point set.

use kd_tree::{
    kd_nearest, kd_nearests, kd_sort, kd_sort_by, kd_within_by_cmp, kd_within_radius,
    squared_distance, EmptyTreeError,
};

fn pts3() -> Vec<Vec<i64>> {
    vec![vec![10, 20, 30], vec![30, 10, 20], vec![20, 30, 10]]
}

#[test]
fn test_scenario_nearest() {
    let mut kdtree = pts3();
    kd_sort(&mut kdtree, 3);
    let found = kd_nearest(&kdtree, &vec![31, 9, 21], 3).unwrap();
    assert_eq!(kdtree[found.item], vec![30, 10, 20]);
    assert_eq!(found.squared_distance, 3);
}

#[test]
fn test_scenario_nearests() {
    let mut kdtree = pts3();
    kd_sort(&mut kdtree, 3);
    let found = kd_nearests(&kdtree, &vec![15, 25, 18], 2, 3);
    assert_eq!(found.len(), 2);
    assert_eq!(kdtree[found[0].item], vec![20, 30, 10]);
    assert_eq!(kdtree[found[1].item], vec![10, 20, 30]);
    assert_eq!(found[0].squared_distance, 114);
    assert_eq!(found[1].squared_distance, 194);
}

#[test]
fn test_scenario_within() {
    let mut kdtree = pts3();
    kd_sort(&mut kdtree, 3);
    let found = kd_within_by_cmp(&kdtree, &vec![10, 10, 10], &vec![30, 30, 30], 3);
    assert_eq!(found.len(), 3);
    for p in pts3() {
        assert!(found.iter().any(|&i| kdtree[i] == p));
    }
}

#[test]
fn test_scenario_within_radius() {
    let mut kdtree = pts3();
    kd_sort(&mut kdtree, 3);
    let found = kd_within_radius(&kdtree, &vec![20, 15, 25], 15, 3);
    assert_eq!(found.len(), 2);
    assert!(found.iter().any(|&i| kdtree[i] == vec![10, 20, 30]));
    assert!(found.iter().any(|&i| kdtree[i] == vec![30, 10, 20]));
}

#[test]
fn test_nearests_zero() {
    let mut kdtree = pts3();
    kd_sort(&mut kdtree, 3);
    let found = kd_nearests(&kdtree, &vec![31, 9, 21], 0, 3);
    assert!(found.is_empty());
}

#[test]
fn test_nearest_empty_tree() {
    let kdtree: Vec<Vec<i64>> = Vec::new();
    assert_eq!(kd_nearest(&kdtree, &vec![0, 0, 0], 3), Err(EmptyTreeError));
}

#[test]
fn test_squared_distance_exact() {
    assert_eq!(squared_distance(&vec![1, 2, 3], &vec![4, 6, 3], 3), 25);
    assert_eq!(squared_distance(&vec![-5, 0], &vec![5, -1], 2), 101);
    assert_eq!(squared_distance(&vec![7], &vec![7], 1), 0);
}

fn check_kd_invariant(tree: &[Vec<i64>], axis: usize, dim: usize) {
    if tree.len() < 2 {
        return;
    }
    let mid = tree.len() / 2;
    for i in 0..mid {
        assert!(tree[i][axis] <= tree[mid][axis]);
    }
    for i in mid + 1..tree.len() {
        assert!(tree[i][axis] >= tree[mid][axis]);
    }
    check_kd_invariant(&tree[..mid], (axis + 1) % dim, dim);
    check_kd_invariant(&tree[mid + 1..], (axis + 1) % dim, dim);
}

fn lattice_points(count: usize) -> Vec<Vec<i64>> {
    // A fixed, thoroughly unsorted point set.
    (0..count)
        .map(|i| {
            let i = i as i64;
            vec![(i * 37) % 101, (i * 53) % 97, (i * 71) % 89]
        })
        .collect()
}

#[test]
fn test_invariant_after_sort() {
    let mut kdtree = lattice_points(200);
    kd_sort(&mut kdtree, 3);
    check_kd_invariant(&kdtree, 0, 3);
}

#[test]
fn test_invariant_after_sort_by() {
    let mut kdtree = lattice_points(150);
    kd_sort_by(&mut kdtree, 3);
    check_kd_invariant(&kdtree, 0, 3);
}

#[test]
fn test_sort_keeps_points() {
    let unsorted = lattice_points(120);
    let mut kdtree = unsorted.clone();
    kd_sort(&mut kdtree, 3);
    let mut before = unsorted;
    let mut after = kdtree;
    before.sort();
    after.sort();
    assert_eq!(before, after);
}

#[test]
fn test_permutation_round_trip() {
    let base = lattice_points(60);
    let mut reversed: Vec<Vec<i64>> = base.iter().rev().cloned().collect();
    let mut rotated: Vec<Vec<i64>> = base[20..]
        .iter()
        .chain(base[..20].iter())
        .cloned()
        .collect();
    kd_sort(&mut reversed, 3);
    kd_sort(&mut rotated, 3);
    let query = vec![40, 40, 40];

    let n1 = kd_nearest(&reversed, &query, 3).unwrap();
    let n2 = kd_nearest(&rotated, &query, 3).unwrap();
    assert_eq!(n1.squared_distance, n2.squared_distance);

    let k1: Vec<i64> = kd_nearests(&reversed, &query, 7, 3)
        .iter()
        .map(|e| e.squared_distance)
        .collect();
    let k2: Vec<i64> = kd_nearests(&rotated, &query, 7, 3)
        .iter()
        .map(|e| e.squared_distance)
        .collect();
    assert_eq!(k1, k2);

    let box1 = point_set(&reversed, &kd_within_by_cmp(&reversed, &vec![10, 10, 10], &vec![60, 60, 60], 3));
    let box2 = point_set(&rotated, &kd_within_by_cmp(&rotated, &vec![10, 10, 10], &vec![60, 60, 60], 3));
    assert_eq!(box1, box2);

    let ball1 = point_set(&reversed, &kd_within_radius(&reversed, &query, 30, 3));
    let ball2 = point_set(&rotated, &kd_within_radius(&rotated, &query, 30, 3));
    assert_eq!(ball1, ball2);
}

fn point_set(tree: &[Vec<i64>], indices: &[usize]) -> Vec<Vec<i64>> {
    let mut points: Vec<Vec<i64>> = indices.iter().map(|&i| tree[i].clone()).collect();
    points.sort();
    points
}

#[test]
fn test_nearests_more_than_len() {
    let mut kdtree = pts3();
    kd_sort(&mut kdtree, 3);
    let found = kd_nearests(&kdtree, &vec![0, 0, 0], 10, 3);
    assert_eq!(found.len(), 3);
    for i in 1..found.len() {
        assert!(found[i - 1].squared_distance <= found[i].squared_distance);
    }
}

#[test]
fn test_duplicate_points() {
    let mut kdtree = vec![vec![5, 5], vec![5, 5], vec![5, 5], vec![1, 1]];
    kd_sort(&mut kdtree, 2);
    let found = kd_nearests(&kdtree, &vec![5, 5], 3, 2);
    assert_eq!(found.len(), 3);
    assert_eq!(found[0].squared_distance, 0);
    assert_eq!(found[1].squared_distance, 0);
    assert_eq!(found[2].squared_distance, 0);
    assert_ne!(found[0].item, found[1].item);
    assert_ne!(found[0].item, found[2].item);
    assert_ne!(found[1].item, found[2].item);
    let ball = kd_within_radius(&kdtree, &vec![5, 5], 1, 2);
    assert_eq!(ball.len(), 3);
}

#[test]
fn test_within_degenerate_box() {
    let mut kdtree = pts3();
    kd_sort(&mut kdtree, 3);
    let found = kd_within_by_cmp(&kdtree, &vec![20, 30, 10], &vec![20, 30, 10], 3);
    assert_eq!(found.len(), 1);
    assert_eq!(kdtree[found[0]], vec![20, 30, 10]);
}

#[test]
fn test_nearest_exact_match() {
    let mut kdtree = lattice_points(80);
    kd_sort(&mut kdtree, 3);
    let query = kdtree[40].clone();
    let found = kd_nearest(&kdtree, &query, 3).unwrap();
    assert_eq!(found.squared_distance, 0);
    assert_eq!(kdtree[found.item], query);
}

#[test]
fn test_nearests_one_agrees_with_nearest() {
    let mut kdtree = lattice_points(90);
    kd_sort(&mut kdtree, 3);
    let query = vec![50, 3, 77];
    let single = kd_nearest(&kdtree, &query, 3).unwrap();
    let list = kd_nearests(&kdtree, &query, 1, 3);
    assert_eq!(list.len(), 1);
    assert_eq!(list[0].squared_distance, single.squared_distance);
}

#[test]
fn test_single_point() {
    let mut kdtree = vec![vec![3, -4, 12]];
    kd_sort(&mut kdtree, 3);
    let found = kd_nearest(&kdtree, &vec![0, 0, 0], 3).unwrap();
    assert_eq!(found.item, 0);
    assert_eq!(found.squared_distance, 169);
}
