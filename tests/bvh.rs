use reflection::bvh::{bucket_count, compute_primitive_split_i, Axis, BVH, BVHNode};
use reflection::primitive::PrimitiveRef;

/// Boxes on a line, as `(lo, hi)` intervals.
fn merge(a: &(i32, i32), b: &(i32, i32)) -> (i32, i32) {
    (a.0.min(b.0), a.1.max(b.1))
}

/// Leaves 0..3 at [0,1], [2,3], [10,11]; built children-first as ((0 1) 2).
fn sample_tree() -> BVH<(i32, i32)> {
    let mut t = BVH::empty();
    let a = t.push_leaf((0, 1), PrimitiveRef(0));
    let b = t.push_leaf((2, 3), PrimitiveRef(1));
    let ab = t.push_binary(a, b, &merge);
    let c = t.push_leaf((10, 11), PrimitiveRef(2));
    t.push_binary(ab, c, &merge);
    t.reverse();
    t
}

fn leaves_hit_by(t: &BVH<(i32, i32)>, lo: i32, hi: i32) -> Option<Vec<usize>> {
    let hit = |b: &(i32, i32)| b.0 <= hi && lo <= b.1;
    let leaf_boxes = [(0, 1), (2, 3), (10, 11)];
    let find = |p: PrimitiveRef| if hit(&leaf_boxes[p.0]) { Some(vec![p.0]) } else { None };
    let comp = |mut a: Vec<usize>, b: Vec<usize>| {
        a.extend(b);
        a
    };
    t.find_intersection(&hit, &find, &comp)
}

#[test]
fn reverse_puts_root_first() {
    let t = sample_tree();
    assert_eq!(t.len(), 5);
    assert_eq!(*t.top(), (0, 11));
}

#[test]
fn traversal_combines_hit_leaves() {
    let t = sample_tree();
    assert_eq!(leaves_hit_by(&t, 0, 100), Some(vec![0, 1, 2]));
    assert_eq!(leaves_hit_by(&t, 2, 10), Some(vec![1, 2]));
    assert_eq!(leaves_hit_by(&t, 1, 2), Some(vec![0, 1]));
}

#[test]
fn traversal_prunes_missed_boxes() {
    let t = sample_tree();
    assert_eq!(leaves_hit_by(&t, 5, 8), None);
    assert_eq!(leaves_hit_by(&t, 20, 30), None);
}

#[test]
fn traversal_picks_closest() {
    let t = sample_tree();
    let hit = |_: &(i32, i32)| true;
    let dist = [7u32, 3, 5];
    let find = |p: PrimitiveRef| Some((dist[p.0], p.0));
    let comp = |a: (u32, usize), b: (u32, usize)| if a.0 < b.0 { a } else { b };
    assert_eq!(t.find_intersection(&hit, &find, &comp), Some((3, 1)));
}

#[test]
fn empty_hierarchy_finds_nothing() {
    let mut t: BVH<(i32, i32)> = BVH::empty();
    t.reverse();
    let hit = |_: &(i32, i32)| true;
    let find = |p: PrimitiveRef| Some(p.0);
    let comp = |a: usize, _b: usize| a;
    assert_eq!(t.find_intersection(&hit, &find, &comp), None);
}

#[test]
fn single_leaf_is_root() {
    let mut t = BVH::empty();
    t.push_leaf((4, 6), PrimitiveRef(9));
    t.reverse();
    assert_eq!(*t.top(), (4, 6));
    let hit = |_: &(i32, i32)| false;
    let find = |p: PrimitiveRef| Some(p.0);
    let comp = |a: usize, _b: usize| a;
    assert_eq!(t.find_intersection(&hit, &find, &comp), Some(9));
}

#[test]
fn node_reverse_rewrites_children() {
    let n: BVHNode<u8> = BVHNode::Binary { aabb: 1, left: 0, right: 2 };
    match n.reverse(5) {
        BVHNode::Binary { left, right, .. } => assert_eq!((left, right), (4, 2)),
        BVHNode::Leaf { .. } => panic!("a binary node stays binary"),
    }
    let l: BVHNode<u8> = BVHNode::Leaf { aabb: 3, primitive: PrimitiveRef(1) };
    assert_eq!(*l.reverse(5).aabb(), 3);
}

#[test]
fn bucket_count_is_twice_ceil_log2() {
    assert_eq!(bucket_count(0), 1);
    assert_eq!(bucket_count(1), 1);
    assert_eq!(bucket_count(2), 2);
    assert_eq!(bucket_count(3), 4);
    assert_eq!(bucket_count(4), 4);
    assert_eq!(bucket_count(5), 6);
    assert_eq!(bucket_count(200), 16);
    assert_eq!(bucket_count(1024), 20);
    assert_eq!(bucket_count(1025), 22);
    assert_eq!(bucket_count(usize::MAX), 128);
}

#[test]
fn split_at_first_crossing() {
    assert_eq!(compute_primitive_split_i(&vec![false, false, true, true]), 2);
    assert_eq!(compute_primitive_split_i(&vec![false, true]), 1);
    assert_eq!(compute_primitive_split_i(&vec![true, false, true, false, true]), 2);
}

#[test]
fn split_falls_back_to_median() {
    assert_eq!(compute_primitive_split_i(&vec![true; 5]), 2);
    assert_eq!(compute_primitive_split_i(&vec![false; 4]), 2);
    assert_eq!(compute_primitive_split_i(&vec![true, false]), 1);
}

#[test]
fn axis_indices() {
    assert_eq!(Axis::X.to_index(), 0);
    assert_eq!(Axis::Y.to_index(), 1);
    assert_eq!(Axis::Z.to_index(), 2);
}

type Item = (PrimitiveRef, (i32, i32));

/// Sorts intervals by midpoint and cuts at the first midpoint at or past the
/// middle of their spread.
fn partition_by_midpoint(mut v: Vec<Item>) -> (Vec<Item>, Vec<Item>) {
    v.sort_by_key(|(_, b)| b.0 + b.1);
    let lo = v.iter().map(|(_, b)| b.0 + b.1).min().unwrap();
    let hi = v.iter().map(|(_, b)| b.0 + b.1).max().unwrap();
    let line = lo + (hi - lo + 1) / 2;
    let past: Vec<bool> = v.iter().map(|(_, b)| b.0 + b.1 >= line).collect();
    let right = v.split_off(compute_primitive_split_i(&past));
    (v, right)
}

/// Puts everything on one side, so the build has to cut in the middle.
fn partition_one_sided(v: Vec<Item>) -> (Vec<Item>, Vec<Item>) {
    (v, Vec::new())
}

fn all_hits(t: &BVH<(i32, i32)>) -> Option<Vec<usize>> {
    let hit = |_: &(i32, i32)| true;
    let find = |p: PrimitiveRef| Some(vec![p.0]);
    let comp = |mut a: Vec<usize>, b: Vec<usize>| {
        a.extend(b);
        a
    };
    t.find_intersection(&hit, &find, &comp)
}

#[test]
fn build_covers_every_primitive_once() {
    let boxes = [(5, 6), (0, 1), (9, 12), (2, 3), (7, 7)];
    let items: Vec<Item> = boxes.iter().enumerate().map(|(i, b)| (PrimitiveRef(i), *b)).collect();
    let t = BVH::new(items, &partition_by_midpoint, &merge);
    assert_eq!(t.len(), 9);
    assert_eq!(*t.top(), (0, 12));
    let mut found = all_hits(&t).unwrap();
    found.sort();
    assert_eq!(found, vec![0, 1, 2, 3, 4]);
}

#[test]
fn build_falls_back_to_middle_cut() {
    let boxes = [(0, 1), (2, 3), (4, 5), (6, 7)];
    let items: Vec<Item> = boxes.iter().enumerate().map(|(i, b)| (PrimitiveRef(i), *b)).collect();
    let t = BVH::new(items, &partition_one_sided, &merge);
    assert_eq!(t.len(), 7);
    assert_eq!(*t.top(), (0, 7));
    // the root's children cover the first two and the last two
    let hit_left = |b: &(i32, i32)| b.0 <= 3;
    let find = |p: PrimitiveRef| Some(vec![p.0]);
    let comp = |mut a: Vec<usize>, b: Vec<usize>| {
        a.extend(b);
        a
    };
    assert_eq!(t.find_intersection(&hit_left, &find, &comp), Some(vec![0, 1]));
    assert_eq!(all_hits(&t), Some(vec![0, 1, 2, 3]));
}

#[test]
fn build_of_nothing_is_empty() {
    let t = BVH::new(Vec::new(), &partition_by_midpoint, &merge);
    assert_eq!(t.len(), 0);
}

#[test]
fn build_of_one_is_a_leaf() {
    let t = BVH::new(vec![(PrimitiveRef(4), (3, 8))], &partition_by_midpoint, &merge);
    assert_eq!(t.len(), 1);
    assert_eq!(*t.top(), (3, 8));
}

/// A small deterministic generator for test data.
struct Lcg(u64);

impl Lcg {
    fn next(&mut self, bound: u64) -> u64 {
        self.0 = self.0.wrapping_mul(6364136223846793005).wrapping_add(1442695040888963407);
        (self.0 >> 33) % bound
    }
}

#[test]
fn closest_hit_matches_linear_scan() {
    let mut rng = Lcg(42);
    let boxes: Vec<(i32, i32)> = (0..200)
        .map(|_| {
            let lo = rng.next(10_000) as i32;
            (lo, lo + 1 + rng.next(50) as i32)
        })
        .collect();
    let items: Vec<Item> = boxes.iter().enumerate().map(|(i, b)| (PrimitiveRef(i), *b)).collect();
    let t = BVH::new(items, &partition_by_midpoint, &merge);
    assert_eq!(t.len(), 399);

    for _ in 0..10_000 {
        // a query is a ray along the line from `from` towards larger values
        let from = rng.next(10_100) as i32 - 50;
        let hit = |b: &(i32, i32)| b.1 >= from;
        let find = |p: PrimitiveRef| {
            let b = boxes[p.0];
            if b.1 >= from { Some((b.0.max(from), p.0)) } else { None }
        };
        let comp = |a: (i32, usize), b: (i32, usize)| if a < b { a } else { b };
        let oracle = boxes
            .iter()
            .enumerate()
            .filter(|(_, b)| b.1 >= from)
            .map(|(i, b)| (b.0.max(from), i))
            .min();
        assert_eq!(t.find_intersection(&hit, &find, &comp), oracle);
    }
}

#[test]
fn build_is_deterministic() {
    let boxes = [(3, 9), (0, 2), (5, 5), (8, 20), (1, 4), (6, 7)];
    let items: Vec<Item> = boxes.iter().enumerate().map(|(i, b)| (PrimitiveRef(i), *b)).collect();
    let a = BVH::new(items.clone(), &partition_by_midpoint, &merge);
    let b = BVH::new(items, &partition_by_midpoint, &merge);
    for from in -2..22 {
        let hit = |x: &(i32, i32)| x.1 >= from;
        let find = |p: PrimitiveRef| if boxes[p.0].1 >= from { Some(vec![p.0]) } else { None };
        let comp = |mut x: Vec<usize>, y: Vec<usize>| {
            x.extend(y);
            x
        };
        assert_eq!(a.find_intersection(&hit, &find, &comp), b.find_intersection(&hit, &find, &comp));
    }
}

/// Puts everything on the right, so the build has to cut in the middle.
fn partition_all_right(v: Vec<Item>) -> (Vec<Item>, Vec<Item>) {
    (Vec::new(), v)
}

#[test]
fn build_cuts_odd_sets_in_the_middle() {
    let boxes = [(0, 1), (2, 3), (4, 5), (6, 7), (8, 9)];
    let items: Vec<Item> = boxes.iter().enumerate().map(|(i, b)| (PrimitiveRef(i), *b)).collect();
    let t = BVH::new(items, &partition_all_right, &merge);
    assert_eq!(t.len(), 9);
    assert_eq!(*t.top(), (0, 9));
    // the left child holds the first two, the right child the other three
    let hit_left = |b: &(i32, i32)| b.1 <= 3 || *b == (0, 9);
    let find = |p: PrimitiveRef| Some(vec![p.0]);
    let comp = |mut a: Vec<usize>, b: Vec<usize>| {
        a.extend(b);
        a
    };
    assert_eq!(t.find_intersection(&hit_left, &find, &comp), Some(vec![0, 1]));
    assert_eq!(all_hits(&t), Some(vec![0, 1, 2, 3, 4]));
}
