use geo_index::kdtree::{KDTreeBuilder, KDTreeRef, OwnedKDTree};

fn build(points: &[(i32, i32)], node_size: u16) -> OwnedKDTree {
    let mut b = KDTreeBuilder::new(node_size);
    for &(x, y) in points {
        b.add(x, y);
    }
    b.finish()
}

fn sorted(mut v: Vec<u32>) -> Vec<u32> {
    v.sort();
    v
}

fn brute_force_range(
    points: &[(i32, i32)],
    min_x: i32,
    min_y: i32,
    max_x: i32,
    max_y: i32,
) -> Vec<u32> {
    let mut out = Vec::new();
    for (i, &(x, y)) in points.iter().enumerate() {
        if min_x <= x && x <= max_x && min_y <= y && y <= max_y {
            out.push(i as u32);
        }
    }
    out
}

fn brute_force_within_sq(points: &[(i32, i32)], qx: i32, qy: i32, r2: u128) -> Vec<u32> {
    let mut out = Vec::new();
    for (i, &(x, y)) in points.iter().enumerate() {
        let dx = (x as i64 - qx as i64).unsigned_abs() as u128;
        let dy = (y as i64 - qy as i64).unsigned_abs() as u128;
        if dx * dx + dy * dy <= r2 {
            out.push(i as u32);
        }
    }
    out
}

fn pseudo_points(n: usize, seed: u64) -> Vec<(i32, i32)> {
    let mut s = seed;
    let mut next = move || {
        s = s
            .wrapping_mul(6364136223846793005)
            .wrapping_add(1442695040888963407);
        ((s >> 33) as i32).rem_euclid(1000) - 500
    };
    (0..n).map(|_| (next(), next())).collect()
}

#[test]
fn five_points_range_query() {
    let points = [(0, 0), (1, 1), (2, 2), (3, 3), (4, 4)];
    let tree = build(&points, 2);
    // the owned tree and a reference over its buffer answer alike
    let got = sorted(tree.range(1, 1, 3, 3));
    assert_eq!(got, vec![1, 2, 3]);
    let r = tree.as_kdtree_ref();
    let got = sorted(r.range(1, 1, 3, 3));
    assert_eq!(got, vec![1, 2, 3]);
}

#[test]
fn five_points_radius_query() {
    let points = [(0, 0), (1, 1), (2, 2), (3, 3), (4, 4)];
    let tree = build(&points, 2);
    let r = tree.as_kdtree_ref();
    // A radius of 1.5 around (2, 2): for whole-number coordinates the test
    // "squared distance <= 2.25" is the same as "squared distance <= 2".
    let got = sorted(r.within_sq(2, 2, 2));
    assert_eq!(got, vec![1, 2, 3]);
}

#[test]
fn whole_number_radius_query() {
    let points = [(0, 0), (3, 0), (0, 4), (5, 0), (2, 2)];
    let tree = build(&points, 2);
    let r = tree.as_kdtree_ref();
    // Points at distance exactly r are included.
    let got = sorted(r.within(0, 0, 5));
    assert_eq!(got, vec![0, 1, 2, 3, 4]);
    let got = sorted(r.within(0, 0, 4));
    assert_eq!(got, vec![0, 1, 2, 4]);
    let got = sorted(r.within(0, 0, 2));
    assert_eq!(got, vec![0]);
}

#[test]
fn round_trip_reproduces_arrays() {
    let points = pseudo_points(57, 7);
    let tree = build(&points, 4);
    let owned_entries = tree.as_kdtree_ref().entries_vec();
    let bytes = tree.into_inner();
    let reopened = KDTreeRef::try_new(&bytes).expect("a built buffer must validate");
    assert_eq!(reopened.entries_vec(), owned_entries);
    assert_eq!(reopened.num_items(), 57);
    assert_eq!(reopened.node_size(), 4);
}

#[test]
fn empty_tree_queries_are_empty() {
    let tree = build(&[], 2);
    let r = tree.as_kdtree_ref();
    assert_eq!(r.range(-10, -10, 10, 10), Vec::<u32>::new());
    assert_eq!(r.within_sq(0, 0, 1_000_000), Vec::<u32>::new());
    let bytes = tree.into_inner();
    assert_eq!(bytes.len(), 8);
    let reopened = KDTreeRef::try_new(&bytes).unwrap();
    assert_eq!(reopened.num_items(), 0);
}

#[test]
fn range_matches_brute_force() {
    let points = pseudo_points(200, 1);
    let tree = build(&points, 8);
    let r = tree.as_kdtree_ref();
    for &(min_x, min_y, max_x, max_y) in &[
        (-500, -500, 500, 500),
        (0, 0, 100, 100),
        (-250, -100, -50, 300),
        (37, 41, 37, 41),
        (400, 400, 499, 499),
        (10, -10, 9, 10),
    ] {
        let got = sorted(r.range(min_x, min_y, max_x, max_y));
        let want = brute_force_range(&points, min_x, min_y, max_x, max_y);
        assert_eq!(got, want, "box {:?}", (min_x, min_y, max_x, max_y));
    }
}

#[test]
fn within_matches_brute_force() {
    let points = pseudo_points(200, 2);
    let tree = build(&points, 8);
    let r = tree.as_kdtree_ref();
    for &(qx, qy, r2) in &[
        (0, 0, 0),
        (0, 0, 10_000),
        (-300, 250, 40_000),
        (480, -480, 1_000_000),
        (5, 5, 2),
    ] {
        let got = sorted(r.within_sq(qx, qy, r2));
        let want = brute_force_within_sq(&points, qx, qy, r2);
        assert_eq!(got, want, "circle {:?}", (qx, qy, r2));
    }
}

#[test]
fn duplicate_coordinates_are_all_reported() {
    let points = [(1, 1), (1, 1), (1, 1), (2, 2), (1, 1)];
    let tree = build(&points, 2);
    let r = tree.as_kdtree_ref();
    let got = sorted(r.range(1, 1, 1, 1));
    assert_eq!(got, vec![0, 1, 2, 4]);
}

#[test]
fn indices_are_a_permutation() {
    for node_size in [2u16, 3, 7, 64, 65535] {
        let points = pseudo_points(101, u64::from(node_size));
        let tree = build(&points, node_size);
        let r = tree.as_kdtree_ref();
        let mut ids: Vec<u32> = (0..101).map(|i| r.index_at(i)).collect();
        ids.sort();
        let expect: Vec<u32> = (0..101).collect();
        assert_eq!(ids, expect, "node_size {}", node_size);
    }
}

#[test]
fn packed_entries_pair_points_with_indices() {
    let points = pseudo_points(64, 3);
    let tree = build(&points, 4);
    let r = tree.as_kdtree_ref();
    for e in r.entries_vec() {
        let (x, y) = points[e.2 as usize];
        assert_eq!((e.0, e.1), (x, y));
    }
}

#[test]
fn negative_coordinates_round_trip() {
    let points = [(-2147483648, 2147483647), (-1, -1), (0, 0)];
    let tree = build(&points, 2);
    let bytes = tree.into_inner();
    let r = KDTreeRef::try_new(&bytes).unwrap();
    let mut entries = r.entries_vec();
    entries.sort_by_key(|e| e.2);
    assert_eq!(entries[0], (-2147483648, 2147483647, 0));
    assert_eq!(entries[1], (-1, -1, 1));
    assert_eq!(entries[2], (0, 0, 2));
}
