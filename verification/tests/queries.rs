//! Randomized query tests: each query result is checked against a
//! brute-force scan of the same points.

use kd_tree::{kd_nearest, kd_nearests, kd_sort, kd_within_by_cmp, kd_within_radius};
use rand::RngExt;

const N: usize = 10000;
const QUERIES: usize = 100;

fn sq_dist3(p: &[i64], q: &[i64]) -> i64 {
    let dx = p[0] - q[0];
    let dy = p[1] - q[1];
    let dz = p[2] - q[2];
    dx * dx + dy * dy + dz * dz
}

fn random3d_generator() -> impl FnMut() -> Vec<i64> {
    let mut rng = rand::rng();
    move || {
        vec![
            rng.random_range(0..=1_000_000i64),
            rng.random_range(0..=1_000_000i64),
            rng.random_range(0..=1_000_000i64),
        ]
    }
}

fn random3d_10th_generator() -> impl FnMut() -> Vec<i64> {
    // Coordinates on a coarse grid, so that ties are common.
    let mut rng = rand::rng();
    move || {
        vec![
            i64::from(rng.random_range(0u8..=10u8)) * 100_000,
            i64::from(rng.random_range(0u8..=10u8)) * 100_000,
            i64::from(rng.random_range(0u8..=10u8)) * 100_000,
        ]
    }
}

fn vec_of(count: usize, mut f: impl FnMut(usize) -> Vec<i64>) -> Vec<Vec<i64>> {
    let mut items = Vec::with_capacity(count);
    for i in 0..count {
        items.push(f(i));
    }
    items
}

#[test]
fn test_nearest() {
    let mut gen3d = random3d_generator();
    let mut kdtree = vec_of(N, |_| gen3d());
    kd_sort(&mut kdtree, 3);
    for _ in 0..QUERIES {
        let query = gen3d();
        let found = kd_nearest(&kdtree, &query, 3).unwrap();
        let expected = kdtree.iter().map(|p| sq_dist3(p, &query)).min().unwrap();
        assert_eq!(found.squared_distance, expected);
        assert_eq!(sq_dist3(&kdtree[found.item], &query), expected);
    }
}

#[test]
fn test_nearests() {
    test_nearests_by(random3d_generator());
    test_nearests_by(random3d_10th_generator());
}

fn test_nearests_by(mut gen3d: impl FnMut() -> Vec<i64>) {
    let mut kdtree = vec_of(N, |_| gen3d());
    kd_sort(&mut kdtree, 3);
    const NUM: usize = 5;
    for _ in 0..QUERIES {
        let query = gen3d();
        let neighborhood = kd_nearests(&kdtree, &query, NUM, 3);
        assert_eq!(neighborhood.len(), NUM);
        for i in 1..neighborhood.len() {
            assert!(neighborhood[i - 1].squared_distance <= neighborhood[i].squared_distance);
        }
        for a in 0..neighborhood.len() {
            assert_eq!(
                sq_dist3(&kdtree[neighborhood[a].item], &query),
                neighborhood[a].squared_distance
            );
            for b in a + 1..neighborhood.len() {
                assert_ne!(neighborhood[a].item, neighborhood[b].item);
            }
        }
        let neighborhood_radius = neighborhood
            .iter()
            .map(|entry| entry.squared_distance)
            .max()
            .unwrap();
        let neighborhood_contains = |i: usize| neighborhood.iter().any(|entry| entry.item == i);
        assert!((0..kdtree.len())
            .all(|i| neighborhood_contains(i) || neighborhood_radius <= sq_dist3(&kdtree[i], &query)));
    }
}

#[test]
fn test_within() {
    let mut gen3d = random3d_generator();
    let mut kdtree = vec_of(N, |_| gen3d());
    kd_sort(&mut kdtree, 3);
    for _ in 0..QUERIES {
        let mut p1 = gen3d();
        let mut p2 = gen3d();
        for k in 0..3 {
            if p1[k] > p2[k] {
                std::mem::swap(&mut p1[k], &mut p2[k]);
            }
        }
        let found = kd_within_by_cmp(&kdtree, &p1, &p2, 3);
        for &i in &found {
            assert!((0..3).all(|k| p1[k] <= kdtree[i][k] && kdtree[i][k] <= p2[k]));
        }
        let count = kdtree
            .iter()
            .filter(|p| (0..3).all(|k| p1[k] <= p[k] && p[k] <= p2[k]))
            .count();
        assert_eq!(found.len(), count);
    }
}

#[test]
fn test_within_radius() {
    let mut gen3d = random3d_generator();
    let mut kdtree = vec_of(N, |_| gen3d());
    kd_sort(&mut kdtree, 3);
    const RADIUS: i64 = 100_000;
    for _ in 0..QUERIES {
        let query = gen3d();
        let found = kd_within_radius(&kdtree, &query, RADIUS, 3);
        for &i in &found {
            assert!(sq_dist3(&kdtree[i], &query) < RADIUS * RADIUS);
        }
        let count = kdtree
            .iter()
            .filter(|p| sq_dist3(p, &query) < RADIUS * RADIUS)
            .count();
        assert_eq!(found.len(), count);
    }
}
