use parallel_collision_detection::aabb::{Point3, AABB};
use parallel_collision_detection::broad::leaf_pairs;
use parallel_collision_detection::par_bvh::{parallel_broad_phase_check, parallel_build_bvh};
use parallel_collision_detection::pipeline::{parallel_candidate_pairs, serial_candidate_pairs};
use parallel_collision_detection::srl_bvh::{serial_broad_phase_check, serial_build_bvh};
use parallel_collision_detection::srl_bvh::widest_axis;
use parallel_collision_detection::structs::{bounding_box, BVHNode};

/// Lattice units per unit of length.
const SCALE: i64 = 1000;

fn bx(min: (i64, i64, i64), max: (i64, i64, i64)) -> AABB {
    AABB::new(Point3::new(min.0, min.1, min.2), Point3::new(max.0, max.1, max.2))
}

/// A cube of side `side` (in lattice units) centered at `c`.
fn cube(c: (i64, i64, i64), side: i64) -> AABB {
    let h = side / 2;
    bx((c.0 - h, c.1 - h, c.2 - h), (c.0 + h, c.1 + h, c.2 + h))
}

fn sorted(mut v: Vec<(usize, usize)>) -> Vec<(usize, usize)> {
    v.sort();
    v
}

fn oracle(aabbs: &[AABB]) -> Vec<(usize, usize)> {
    let mut out = Vec::new();
    for i in 0..aabbs.len() {
        for j in i + 1..aabbs.len() {
            if aabbs[i].intersects(&aabbs[j]) {
                out.push((i, j));
            }
        }
    }
    out
}

fn overlapping(aabbs: &[AABB], pairs: &[(usize, usize)]) -> Vec<(usize, usize)> {
    sorted(pairs.iter().copied().filter(|&(i, j)| aabbs[i].intersects(&aabbs[j])).collect())
}

/// Checks what every candidate list must satisfy against the all-pairs oracle.
fn check_candidates(aabbs: &[AABB], pairs: &[(usize, usize)]) {
    for &(i, j) in pairs {
        assert!(i < j && j < aabbs.len());
    }
    let s = sorted(pairs.to_vec());
    for w in s.windows(2) {
        assert_ne!(w[0], w[1]);
    }
    assert_eq!(overlapping(aabbs, pairs), oracle(aabbs));
}

fn leaves(node: &BVHNode, out: &mut Vec<Vec<usize>>) {
    match node {
        BVHNode::Leaf(l) => out.push(l.shape_indices.clone()),
        BVHNode::Internal(n) => {
            leaves(&n.left, out);
            leaves(&n.right, out);
        }
    }
}

fn check_tree(node: &BVHNode, aabbs: &[AABB]) {
    match node {
        BVHNode::Leaf(l) => {
            for &i in &l.shape_indices {
                assert_eq!(l.aabb.union(&aabbs[i]), l.aabb);
            }
        }
        BVHNode::Internal(n) => {
            assert_eq!(n.aabb, n.left.aabb_ref().union(n.right.aabb_ref()));
            assert_eq!(n.aabb.union(n.left.aabb_ref()), n.aabb);
            assert_eq!(n.aabb.union(n.right.aabb_ref()), n.aabb);
            let axis = widest_axis(&n.aabb);
            let mid = n.aabb.center_twice(axis);
            let (mut ls, mut rs) = (Vec::new(), Vec::new());
            leaves(&n.left, &mut ls);
            leaves(&n.right, &mut rs);
            assert!(ls.iter().flatten().all(|&i| aabbs[i].center_twice(axis) < mid));
            assert!(rs.iter().flatten().all(|&i| aabbs[i].center_twice(axis) >= mid));
            check_tree(&n.left, aabbs);
            check_tree(&n.right, aabbs);
        }
    }
}

/// The spatial-median split of `idx` leaves one side empty.
fn unsplittable(idx: &Vec<usize>, aabbs: &Vec<AABB>) -> bool {
    let b = bounding_box(idx, 0, idx.len(), aabbs);
    let axis = widest_axis(&b);
    let mid = b.center_twice(axis);
    let below = idx.iter().filter(|&&i| aabbs[i].center_twice(axis) < mid).count();
    below == 0 || below == idx.len()
}

/// Deterministic pseudo-random numbers in `0..m`.
struct Lcg(u64);

impl Lcg {
    fn next(&mut self, m: i64) -> i64 {
        self.0 = self.0.wrapping_mul(6364136223846793005).wrapping_add(1442695040888963407);
        ((self.0 >> 33) % (m as u64)) as i64
    }
}

fn random_boxes(n: usize, lo: i64, hi: i64, max_side: i64, seed: u64) -> Vec<AABB> {
    let mut r = Lcg(seed);
    (0..n)
        .map(|_| {
            let x = lo + r.next(hi - lo);
            let y = lo + r.next(hi - lo);
            let z = lo + r.next(hi - lo);
            bx((x, y, z), (x + 1 + r.next(max_side), y + 1 + r.next(max_side), z + 1 + r.next(max_side)))
        })
        .collect()
}

#[test]
fn leaf_pairs_lists_ordered_pairs_once() {
    let r = leaf_pairs(&vec![3, 1, 5], &vec![4, 1, 2]);
    assert_eq!(sorted(r), vec![(1, 2), (1, 4), (3, 4)]);
    assert!(leaf_pairs(&vec![], &vec![1, 2]).is_empty());
    let same = leaf_pairs(&vec![0, 1, 2], &vec![0, 1, 2]);
    assert_eq!(sorted(same), vec![(0, 1), (0, 2), (1, 2)]);
}

#[test]
fn two_overlapping_cubes_give_one_pair() {
    let aabbs = vec![cube((0, 0, 0), SCALE), cube((SCALE / 2, 0, 0), SCALE)];
    assert_eq!(serial_candidate_pairs(&aabbs, 1), vec![(0, 1)]);
    assert_eq!(parallel_candidate_pairs(&aabbs, 1), vec![(0, 1)]);
}

#[test]
fn two_distant_cubes_give_no_pair() {
    let aabbs = vec![cube((0, 0, 0), SCALE), cube((3 * SCALE, 0, 0), SCALE)];
    assert!(serial_candidate_pairs(&aabbs, 1).is_empty());
    assert!(parallel_candidate_pairs(&aabbs, 1).is_empty());
}

#[test]
fn separated_shapes_give_no_pair() {
    let aabbs: Vec<AABB> = (0..100)
        .map(|k| cube(((k % 10) * 3 * SCALE, (k / 10) * 3 * SCALE, 0), SCALE))
        .collect();
    assert!(serial_candidate_pairs(&aabbs, 1).is_empty());
    assert!(parallel_candidate_pairs(&aabbs, 1).is_empty());
    for cut_off in [2, 4, 8] {
        let s = serial_candidate_pairs(&aabbs, cut_off);
        let p = parallel_candidate_pairs(&aabbs, cut_off);
        assert!(overlapping(&aabbs, &s).is_empty());
        assert!(overlapping(&aabbs, &p).is_empty());
        assert!(s.len() <= 100 * (cut_off - 1) / 2);
    }
}

#[test]
fn stacked_cubes_give_consecutive_pairs() {
    let aabbs: Vec<AABB> = (0..100).map(|k| cube((k * 9 * SCALE / 10, 0, 0), SCALE)).collect();
    let expected: Vec<(usize, usize)> = (0..99).map(|i| (i, i + 1)).collect();
    assert_eq!(sorted(serial_candidate_pairs(&aabbs, 1)), expected);
    assert_eq!(sorted(parallel_candidate_pairs(&aabbs, 1)), expected);
    for cut_off in [4, 16, 100] {
        assert_eq!(overlapping(&aabbs, &serial_candidate_pairs(&aabbs, cut_off)), expected);
        assert_eq!(overlapping(&aabbs, &parallel_candidate_pairs(&aabbs, cut_off)), expected);
    }
}

#[test]
fn random_boxes_match_the_all_pairs_oracle() {
    let mut aabbs = random_boxes(100, -SCALE, 0, SCALE / 2, 7);
    aabbs.extend(random_boxes(100, 0, SCALE, SCALE / 2, 11));
    for cut_off in [1, 3, 8, 300] {
        let s = serial_candidate_pairs(&aabbs, cut_off);
        let p = parallel_candidate_pairs(&aabbs, cut_off);
        check_candidates(&aabbs, &s);
        check_candidates(&aabbs, &p);
        assert_eq!(sorted(s), sorted(p));
    }
}

#[test]
fn coincident_shapes_pair_with_each_other() {
    let n = 30;
    let aabbs: Vec<AABB> = (0..n).map(|_| cube((0, 0, 0), SCALE)).collect();
    let pairs = serial_candidate_pairs(&aabbs, 1);
    assert_eq!(pairs.len(), n * (n - 1) / 2);
    assert_eq!(sorted(pairs), oracle(&aabbs));
    assert_eq!(parallel_candidate_pairs(&aabbs, 1).len(), n * (n - 1) / 2);
    let mut idx: Vec<usize> = (0..n).collect();
    let tree = serial_build_bvh(&mut idx, &aabbs, 1);
    assert!(tree.is_leaf());
    assert_eq!(tree.leaf_indices().unwrap().len(), n);
}

#[test]
fn no_or_one_shape_gives_no_pair() {
    let none: Vec<AABB> = Vec::new();
    assert!(serial_candidate_pairs(&none, 1).is_empty());
    assert!(parallel_candidate_pairs(&none, 1).is_empty());
    let one = vec![cube((0, 0, 0), SCALE)];
    assert!(serial_candidate_pairs(&one, 1).is_empty());
    assert!(parallel_candidate_pairs(&one, 0).is_empty());
    let mut idx: Vec<usize> = Vec::new();
    let tree = serial_build_bvh(&mut idx, &none, 4);
    assert!(tree.is_leaf());
    assert!(tree.leaf_indices().unwrap().is_empty());
}

#[test]
fn large_cut_off_gives_one_leaf() {
    let aabbs = random_boxes(50, 0, 10 * SCALE, SCALE, 3);
    let mut idx: Vec<usize> = (0..50).collect();
    let tree = serial_build_bvh(&mut idx, &aabbs, 50);
    assert!(tree.is_leaf());
    assert_eq!(tree.leaf_indices().unwrap(), &(0..50).collect::<Vec<_>>());
    let pairs = serial_broad_phase_check(&tree, &tree);
    assert_eq!(pairs.len(), 50 * 49 / 2);
    let mut idx2: Vec<usize> = (0..50).collect();
    let tree2 = parallel_build_bvh(&mut idx2, &aabbs, 64);
    assert!(tree2.is_leaf());
}

#[test]
fn unit_cut_off_expands_fully() {
    let aabbs: Vec<AABB> = (0..64).map(|k| cube((k * 2 * SCALE, (k % 5) * SCALE, 0), SCALE)).collect();
    let mut idx: Vec<usize> = (0..64).collect();
    let tree = serial_build_bvh(&mut idx, &aabbs, 1);
    let mut ls = Vec::new();
    leaves(&tree, &mut ls);
    assert_eq!(ls.len(), 64);
    assert!(ls.iter().all(|l| l.len() == 1));
    check_tree(&tree, &aabbs);
}

#[test]
fn leaves_partition_the_input() {
    let aabbs = random_boxes(3000, 0, 50 * SCALE, SCALE, 5);
    for cut_off in [1, 4, 32] {
        let mut idx: Vec<usize> = (0..3000).rev().collect();
        let serial = serial_build_bvh(&mut idx, &aabbs, cut_off);
        let mut sorted_idx = idx.clone();
        sorted_idx.sort();
        assert_eq!(sorted_idx, (0..3000).collect::<Vec<_>>());
        let mut ls = Vec::new();
        leaves(&serial, &mut ls);
        assert_eq!(idx, ls.concat());
        let mut all: Vec<usize> = ls.iter().flatten().copied().collect();
        all.sort();
        assert_eq!(all, (0..3000).collect::<Vec<_>>());
        assert!(ls.iter().all(|l| l.len() <= cut_off || unsplittable(l, &aabbs)));
        check_tree(&serial, &aabbs);

        let mut pidx: Vec<usize> = (0..3000).rev().collect();
        let par = parallel_build_bvh(&mut pidx, &aabbs, cut_off);
        let mut pls = Vec::new();
        leaves(&par, &mut pls);
        assert_eq!(pidx, pls.concat());
        let mut pall: Vec<usize> = pls.iter().flatten().copied().collect();
        pall.sort();
        assert_eq!(pall, (0..3000).collect::<Vec<_>>());
        check_tree(&par, &aabbs);
    }
}

#[test]
fn serial_and_parallel_pipelines_agree() {
    let aabbs = random_boxes(4000, 0, 40 * SCALE, 2 * SCALE, 9);
    let s = serial_candidate_pairs(&aabbs, 4);
    let p = parallel_candidate_pairs(&aabbs, 4);
    check_candidates(&aabbs, &s);
    check_candidates(&aabbs, &p);
    assert_eq!(sorted(s), sorted(p));
}

#[test]
fn running_twice_gives_the_same_pairs() {
    let aabbs = random_boxes(500, 0, 20 * SCALE, 2 * SCALE, 13);
    assert_eq!(sorted(serial_candidate_pairs(&aabbs, 2)), sorted(serial_candidate_pairs(&aabbs, 2)));
    assert_eq!(sorted(parallel_candidate_pairs(&aabbs, 2)), sorted(parallel_candidate_pairs(&aabbs, 2)));
}

#[test]
fn shuffled_indices_give_the_same_overlapping_pairs() {
    let aabbs = random_boxes(400, 0, 15 * SCALE, 2 * SCALE, 21);
    let mut a: Vec<usize> = (0..400).collect();
    let mut b: Vec<usize> = (0..400).map(|k| (k * 37 + 11) % 400).collect();
    let ta = serial_build_bvh(&mut a, &aabbs, 3);
    let tb = parallel_build_bvh(&mut b, &aabbs, 3);
    let ra = serial_broad_phase_check(&ta, &ta);
    let rb = parallel_broad_phase_check(&tb, &tb);
    check_candidates(&aabbs, &ra);
    check_candidates(&aabbs, &rb);
    assert_eq!(sorted(ra), sorted(rb));
}

#[test]
fn broad_phase_of_two_trees_pairs_across_them() {
    let aabbs = vec![
        cube((0, 0, 0), SCALE),
        cube((5 * SCALE, 0, 0), SCALE),
        cube((SCALE / 2, 0, 0), SCALE),
        cube((5 * SCALE, SCALE / 2, 0), SCALE),
    ];
    let mut left = vec![0, 1];
    let mut right = vec![2, 3];
    let t1 = serial_build_bvh(&mut left, &aabbs, 1);
    let t2 = serial_build_bvh(&mut right, &aabbs, 1);
    assert_eq!(sorted(serial_broad_phase_check(&t1, &t2)), vec![(0, 2), (1, 3)]);
    assert_eq!(sorted(parallel_broad_phase_check(&t1, &t2)), vec![(0, 2), (1, 3)]);
    assert!(serial_broad_phase_check(&t2, &t1).is_empty());
}

#[test]
fn unit_cut_off_keeps_an_unsplittable_pair_together() {
    // both centers lie at or above the median of the enclosing box on x
    let aabbs = vec![bx((0, 0, 0), (10, 1, 1)), bx((6, 0, 0), (10, 1, 1)), bx((40, 0, 0), (41, 1, 1))];
    let mut idx = vec![0, 1];
    let tree = serial_build_bvh(&mut idx, &aabbs, 1);
    assert!(tree.is_leaf());
    assert_eq!(tree.leaf_indices().unwrap(), &vec![0, 1]);
    let mut all = vec![0, 1, 2];
    let tree = parallel_build_bvh(&mut all, &aabbs, 1);
    let mut ls = Vec::new();
    leaves(&tree, &mut ls);
    ls.sort();
    assert_eq!(ls, vec![vec![0, 1], vec![2]]);
    assert_eq!(sorted(serial_broad_phase_check(&tree, &tree)), vec![(0, 1)]);
}

#[test]
fn children_and_leaf_indices_expose_the_tree() {
    let aabbs = vec![cube((0, 0, 0), SCALE), cube((10 * SCALE, 0, 0), SCALE)];
    let mut idx = vec![1, 0];
    let tree = serial_build_bvh(&mut idx, &aabbs, 1);
    assert!(!tree.is_leaf());
    assert!(tree.leaf_indices().is_none());
    let (l, r) = tree.children().unwrap();
    assert_eq!(l.leaf_indices().unwrap(), &vec![0]);
    assert_eq!(r.leaf_indices().unwrap(), &vec![1]);
    assert!(l.children().is_none());
    assert_eq!(idx, vec![0, 1]);
    assert_eq!(*tree.aabb_ref(), l.union_aabb(r));
    assert!(!l.intersects(r));
    assert!(tree.intersects(l));
}

#[test]
fn extreme_coordinates_split_without_overflow() {
    let aabbs = vec![
        bx((i64::MIN, i64::MIN, i64::MIN), (i64::MIN + 10, i64::MIN + 10, i64::MIN + 10)),
        bx((i64::MAX - 10, i64::MAX - 10, i64::MAX - 10), (i64::MAX, i64::MAX, i64::MAX)),
        bx((i64::MIN, 0, 0), (i64::MAX, 1, 1)),
        bx((-5, -5, -5), (5, 5, 5)),
    ];
    let s = serial_candidate_pairs(&aabbs, 1);
    let p = parallel_candidate_pairs(&aabbs, 1);
    check_candidates(&aabbs, &s);
    check_candidates(&aabbs, &p);
    assert_eq!(sorted(s), sorted(p));
    assert_eq!(oracle(&aabbs), vec![(2, 3)]);
}

#[test]
fn one_leaf_build_keeps_the_index_order() {
    let aabbs = random_boxes(20, 0, 10 * SCALE, SCALE, 17);
    let order: Vec<usize> = vec![7, 3, 19, 0, 12, 5, 1, 18, 2, 9, 4, 6, 8, 10, 11, 13, 14, 15, 16, 17];
    let mut idx = order.clone();
    let tree = serial_build_bvh(&mut idx, &aabbs, 20);
    assert_eq!(idx, order);
    assert_eq!(tree.leaf_indices().unwrap(), &order);
    let mut pidx = order.clone();
    let ptree = parallel_build_bvh(&mut pidx, &aabbs, 25);
    assert_eq!(pidx, order);
    assert_eq!(ptree.leaf_indices().unwrap(), &order);
}

#[test]
fn traversals_agree_when_an_index_repeats() {
    let aabbs = vec![cube((0, 0, 0), SCALE), cube((SCALE / 4, 0, 0), SCALE), cube((20 * SCALE, 0, 0), SCALE)];
    // index 1 stands twice, so the tree lists it in two leaves
    let mut idx = vec![0, 1, 2, 1];
    let tree = serial_build_bvh(&mut idx, &aabbs, 1);
    let s = sorted(serial_broad_phase_check(&tree, &tree));
    let p = sorted(parallel_broad_phase_check(&tree, &tree));
    assert_eq!(s, p);
    assert_eq!(s, vec![(0, 1), (0, 1)]);
}
