use raytracer::coord::Coord;
use raytracer::octree::{depth_for, Octree};
use raytracer::render::nearest_hit;

type Region = [f64; 6];

fn overlaps(a: Region, b: Region) -> bool {
    !(a[1] < b[0] || a[0] > b[1] || a[3] < b[2] || a[2] > b[3] || a[5] < b[4] || a[4] > b[5])
}

fn split(r: Region, i: u8) -> Region {
    let o = Coord::octant(i);
    let (w, d, h) = ((r[1] - r[0]) / 2.0, (r[3] - r[2]) / 2.0, (r[5] - r[4]) / 2.0);
    let (x, y, z) = (o.x() as f64, o.y() as f64, o.z() as f64);
    [
        r[0] + w * x,
        r[0] + w * x + w,
        r[2] + d * y,
        r[2] + d * y + d,
        r[4] + h * z,
        r[4] + h * z + h,
    ]
}

/// A ray parallel to the z axis through (x, y) meets a box iff (x, y) lies in
/// its footprint.
fn down_ray(x: f64, y: f64) -> impl Fn(Region) -> bool {
    move |r: Region| r[0] <= x && x <= r[1] && r[2] <= y && y <= r[3]
}

fn sorted(mut v: Vec<usize>) -> Vec<usize> {
    v.sort();
    v.dedup();
    v
}

const UNIT: Region = [0.0, 1.0, 0.0, 1.0, 0.0, 1.0];

#[test]
fn test_creation() {
    let tree: Octree<Region, usize> = Octree::new(1, UNIT);
    assert!(tree.get_faces(&down_ray(0.5, 0.5)).is_empty());
}

#[test]
fn insert_then_query_finds_item() {
    // one triangle's bounds in the lower corner of the unit cube
    let items: Vec<Region> = vec![[0.1, 0.3, 0.1, 0.3, 0.0, 0.0]];
    let fits = |t: usize, r: Region| overlaps(items[t], r);
    let mut tree: Octree<Region, usize> = Octree::new(2, UNIT);
    tree.insert(0, &fits, &split);
    assert_eq!(tree.get_faces(&down_ray(0.2, 0.2)), vec![0]);
    assert!(tree.get_faces(&down_ray(0.9, 0.9)).is_empty());
}

#[test]
fn empty_build_answers_nothing() {
    let items: Vec<usize> = vec![];
    let fits = |_t: usize, _r: Region| true;
    let tree: Octree<Region, usize> = Octree::build(&items, [0.0; 6], 0, &fits, &split);
    for (x, y) in [(0.0, 0.0), (0.5, 0.5), (-3.0, 7.0)] {
        assert!(tree.get_faces(&down_ray(x, y)).is_empty());
    }
}

#[test]
fn missed_root_prunes_everything() {
    let items: Vec<Region> = vec![[0.1, 0.3, 0.1, 0.3, 0.0, 0.0], [0.6, 0.9, 0.6, 0.9, 0.5, 0.5]];
    let ids: Vec<usize> = vec![0, 1];
    let fits = |t: usize, r: Region| overlaps(items[t], r);
    let tree = Octree::build(&ids, UNIT, 2, &fits, &split);
    assert!(tree.get_faces(&down_ray(2.0, 2.0)).is_empty());
}

#[test]
fn straddling_item_is_stored_in_every_overlapping_child() {
    // spans the split plane x = 0.5: lands in both halves along x
    let items: Vec<Region> = vec![[0.4, 0.6, 0.1, 0.2, 0.1, 0.2]];
    let fits = |t: usize, r: Region| overlaps(items[t], r);
    let mut tree: Octree<Region, usize> = Octree::new(1, UNIT);
    tree.insert(0, &fits, &split);
    assert_eq!(tree.get_faces(&down_ray(0.45, 0.15)), vec![0]);
    assert_eq!(tree.get_faces(&down_ray(0.55, 0.15)), vec![0]);
    // a ray along the split line meets both children that hold the item
    assert_eq!(tree.get_faces(&down_ray(0.5, 0.15)), vec![0, 0]);
}

#[test]
fn leaf_root_returns_whole_list() {
    let items: Vec<Region> = vec![[0.1, 0.2, 0.1, 0.2, 0.1, 0.2], [0.8, 0.9, 0.8, 0.9, 0.8, 0.9]];
    let fits = |t: usize, r: Region| overlaps(items[t], r);
    let ids: Vec<usize> = vec![0, 1];
    let tree = Octree::build(&ids, UNIT, 0, &fits, &split);
    // no pruning inside a leaf
    assert_eq!(tree.get_faces(&down_ray(0.15, 0.15)), vec![0, 1]);
}

#[test]
fn indexed_query_matches_full_scan() {
    let mut items: Vec<Region> = Vec::new();
    for i in 0..40 {
        let x = (i % 7) as f64 / 7.0;
        let y = (i % 5) as f64 / 5.0;
        let z = (i % 3) as f64 / 3.0;
        items.push([x, x + 0.1, y, y + 0.15, z, z + 0.05]);
    }
    let ids: Vec<usize> = (0..items.len()).collect();
    let root = [0.0, 1.1, 0.0, 1.15, 0.0, 1.05];
    let fits = |t: usize, r: Region| overlaps(items[t], r);
    let tree = Octree::build(&ids, root, 2, &fits, &split);
    for gx in 0..12 {
        for gy in 0..12 {
            let (x, y) = (gx as f64 / 10.0 + 0.013, gy as f64 / 10.0 + 0.027);
            let scan: Vec<usize> = ids
                .iter()
                .copied()
                .filter(|&t| {
                    let b = items[t];
                    b[0] <= x && x <= b[1] && b[2] <= y && y <= b[3]
                })
                .collect();
            let found = sorted(tree.get_faces(&down_ray(x, y)));
            for t in &scan {
                assert!(found.contains(t));
            }
            for t in &found {
                assert!(ids.contains(t));
            }
            // a downward ray from z = 10 meets each box at its top face
            let dist = |t: usize| {
                let b = items[t];
                if b[0] <= x && x <= b[1] && b[2] <= y && y <= b[3] {
                    Some(10.0 - b[5])
                } else {
                    None
                }
            };
            let closer = |a: f64, b: f64| a < b;
            assert_eq!(
                nearest_hit(&tree.get_faces(&down_ray(x, y)), &dist, &closer),
                nearest_hit(&ids, &dist, &closer)
            );
        }
    }
}

#[test]
fn depth_rounds_point_four_log2() {
    let cases: [(usize, u8); 14] = [
        (0, 0),
        (1, 0),
        (2, 0),
        (3, 1),
        (8, 1),
        (13, 1),
        (14, 2),
        (64, 2),
        (76, 2),
        (77, 3),
        (430, 3),
        (431, 4),
        (1000, 4),
        (usize::MAX, 26),
    ];
    for (n, d) in cases {
        assert_eq!(depth_for(n), d, "count {}", n);
    }
}

#[test]
fn depth_matches_the_float_formula() {
    for n in 1..5000usize {
        let expected = (1.2 * (n as f64).log(8.0)).round() as u8;
        assert_eq!(depth_for(n), expected, "count {}", n);
    }
}

#[test]
fn leaf_insert_appends_at_end() {
    let fits = |_t: usize, _r: Region| true;
    let mut tree: Octree<Region, usize> = Octree::new(0, UNIT);
    for t in [2, 0, 1, 0] {
        tree.insert(t, &fits, &split);
    }
    assert_eq!(tree.get_faces(&down_ray(0.5, 0.5)), vec![2, 0, 1, 0]);
}

#[test]
fn leaves_keep_input_order() {
    // both items sit in the same low corner octant
    let items: Vec<Region> = vec![[0.1, 0.2, 0.1, 0.2, 0.1, 0.2], [0.15, 0.3, 0.1, 0.3, 0.1, 0.3]];
    let fits = |t: usize, r: Region| overlaps(items[t], r);
    let a = Octree::build(&vec![1, 0], UNIT, 1, &fits, &split);
    assert_eq!(a.get_faces(&down_ray(0.17, 0.15)), vec![1, 0]);
    let b = Octree::build(&vec![0, 1], UNIT, 1, &fits, &split);
    assert_eq!(b.get_faces(&down_ray(0.17, 0.15)), vec![0, 1]);
}

#[test]
fn build_order_does_not_matter() {
    let mut items: Vec<Region> = Vec::new();
    for i in 0..30 {
        let x = (i % 6) as f64 / 6.0;
        let y = (i % 4) as f64 / 4.0;
        items.push([x, x + 0.2, y, y + 0.1, 0.3, 0.6]);
    }
    let fits = |t: usize, r: Region| overlaps(items[t], r);
    let forward: Vec<usize> = (0..items.len()).collect();
    let backward: Vec<usize> = (0..items.len()).rev().collect();
    let root = [0.0, 1.2, 0.0, 1.1, 0.0, 1.0];
    let a = Octree::build(&forward, root, 2, &fits, &split);
    let b = Octree::build(&backward, root, 2, &fits, &split);
    for gx in 0..13 {
        for gy in 0..12 {
            let ray = down_ray(gx as f64 / 10.0 + 0.011, gy as f64 / 10.0 + 0.023);
            let mut fa = a.get_faces(&ray);
            let mut fb = b.get_faces(&ray);
            fa.sort();
            fb.sort();
            assert_eq!(fa, fb);
        }
    }
}
