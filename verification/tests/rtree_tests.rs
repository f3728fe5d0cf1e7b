use geo_index::rtree::{OwnedRTree, RTreeBuilder};

fn build(boxes: &[(i32, i32, i32, i32)], node_size: u16) -> OwnedRTree {
    let mut b = RTreeBuilder::new(node_size);
    for &(min_x, min_y, max_x, max_y) in boxes {
        b.add(min_x, min_y, max_x, max_y);
    }
    b.finish()
}

fn sorted(mut v: Vec<u32>) -> Vec<u32> {
    v.sort();
    v
}

fn intersects(a: (i32, i32, i32, i32), b: (i32, i32, i32, i32)) -> bool {
    a.0 <= b.2 && b.0 <= a.2 && a.1 <= b.3 && b.1 <= a.3
}

fn pseudo_boxes(n: usize, seed: u64) -> Vec<(i32, i32, i32, i32)> {
    let mut s = seed;
    let mut next = move || {
        s = s
            .wrapping_mul(6364136223846793005)
            .wrapping_add(1442695040888963407);
        ((s >> 33) as i32).rem_euclid(1000) - 500
    };
    (0..n)
        .map(|_| {
            let x = next();
            let y = next();
            let w = next().rem_euclid(40);
            let h = next().rem_euclid(40);
            (x, y, x + w, y + h)
        })
        .collect()
}

#[test]
fn search_matches_brute_force() {
    let boxes = pseudo_boxes(150, 9);
    let tree = build(&boxes, 4);
    for &q in &[
        (-500, -500, 500, 500),
        (0, 0, 50, 50),
        (-300, 100, -100, 300),
        (499, 499, 499, 499),
        (600, 600, 700, 700),
    ] {
        let got = sorted(tree.search(q.0, q.1, q.2, q.3));
        let want: Vec<u32> = boxes
            .iter()
            .enumerate()
            .filter(|&(_, &b)| intersects(b, q))
            .map(|(i, _)| i as u32)
            .collect();
        assert_eq!(got, want, "query {:?}", q);
    }
}

#[test]
fn parent_boxes_are_exact_unions() {
    for node_size in [2u16, 3, 5, 16] {
        let boxes = pseudo_boxes(77, u64::from(node_size));
        let tree = build(&boxes, node_size);
        let ns = node_size as usize;
        for l in 0..tree.level_count() - 1 {
            let (start, count) = tree.level_bounds(l);
            let (pstart, pcount) = tree.level_bounds(l + 1);
            assert_eq!(pstart, start + count);
            for k in 0..pcount {
                let lo = k * ns;
                let hi = ((k + 1) * ns).min(count);
                assert!(lo < count);
                let mut u = tree.node_box(start + lo);
                for c in lo + 1..hi {
                    let b = tree.node_box(start + c);
                    u = (u.0.min(b.0), u.1.min(b.1), u.2.max(b.2), u.3.max(b.3));
                }
                assert_eq!(tree.node_box(pstart + k), u, "level {} parent {}", l, k);
            }
        }
    }
}

#[test]
fn levels_shrink_to_a_single_root() {
    let boxes = pseudo_boxes(100, 5);
    let tree = build(&boxes, 4);
    let top = tree.level_count() - 1;
    assert_eq!(tree.level_bounds(0), (0, 100));
    assert_eq!(tree.level_bounds(top).1, 1);
    assert_eq!(tree.num_items(), 100);
    // every leaf carries its original box under its original index, and
    // the indices are a permutation
    let mut ids: Vec<u32> = (0..100).map(|i| tree.leaf_id(i)).collect();
    for i in 0..100 {
        assert_eq!(tree.node_box(i), boxes[tree.leaf_id(i) as usize]);
    }
    ids.sort();
    assert!(ids.iter().enumerate().all(|(i, &v)| v == i as u32));
    // leaves are packed by non-decreasing horizontal centre
    for i in 1..100 {
        let a = tree.node_box(i - 1);
        let b = tree.node_box(i);
        assert!(a.0 as i64 + a.2 as i64 <= b.0 as i64 + b.2 as i64);
    }
}

#[test]
fn empty_and_single_rtree() {
    let empty = build(&[], 2);
    assert_eq!(empty.num_items(), 0);
    assert_eq!(empty.search(-100, -100, 100, 100), Vec::<u32>::new());

    let one = build(&[(5, 5, 10, 10)], 2);
    assert_eq!(one.num_items(), 1);
    assert_eq!(one.search(0, 0, 5, 5), vec![0]);
    assert_eq!(one.search(11, 11, 20, 20), Vec::<u32>::new());
    // touching edges count as intersecting
    assert_eq!(one.search(10, 10, 12, 12), vec![0]);
}

fn box_point_dist_sq(b: (i32, i32, i32, i32), qx: i32, qy: i32) -> u128 {
    let gx: u128 = if qx < b.0 {
        (b.0 as i64 - qx as i64) as u128
    } else if qx > b.2 {
        (qx as i64 - b.2 as i64) as u128
    } else {
        0
    };
    let gy: u128 = if qy < b.1 {
        (b.1 as i64 - qy as i64) as u128
    } else if qy > b.3 {
        (qy as i64 - b.3 as i64) as u128
    } else {
        0
    };
    gx * gx + gy * gy
}

#[test]
fn neighbors_match_brute_force() {
    let boxes = pseudo_boxes(60, 11);
    let tree = build(&boxes, 4);
    for &(qx, qy, k) in &[
        (0, 0, 1usize),
        (0, 0, 5),
        (-400, 400, 10),
        (250, -100, 60),
        (0, 0, 100),
        (7, 7, 0),
    ] {
        let got = tree.neighbors(qx, qy, k);
        let take = k.min(60);
        assert_eq!(got.len(), take, "query {:?}", (qx, qy, k));
        // every reported pair is a real leaf with its real distance,
        // and no leaf is reported twice
        let mut seen = Vec::new();
        for &(id, d) in &got {
            assert!(!seen.contains(&id));
            seen.push(id);
            assert_eq!(box_point_dist_sq(boxes[id as usize], qx, qy), d);
        }
        // the reported distances are exactly the smallest ones
        let mut all: Vec<u128> = boxes
            .iter()
            .map(|&b| box_point_dist_sq(b, qx, qy))
            .collect();
        all.sort();
        let mut got_d: Vec<u128> = got.iter().map(|&(_, d)| d).collect();
        got_d.sort();
        assert_eq!(got_d, all[..take].to_vec(), "query {:?}", (qx, qy, k));
    }
}

#[test]
fn nearest_neighbor_inside_a_box_is_at_distance_zero() {
    let boxes = [(0, 0, 10, 10), (20, 20, 30, 30), (-5, -5, -1, -1)];
    let tree = build(&boxes, 2);
    let got = tree.neighbors(5, 5, 1);
    assert_eq!(got, vec![(0, 0)]);
    let got = tree.neighbors(32, 30, 1);
    // two units right of the nearest box: squared distance four
    assert_eq!(got, vec![(1, 4)]);
}
