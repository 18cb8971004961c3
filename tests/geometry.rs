use parallel_collision_detection::aabb::{Point3, AABB};
use parallel_collision_detection::srl_bvh::{serial_longest_extent_axis, serial_split_at_axis, widest_axis};
use parallel_collision_detection::par_bvh::{parallel_longest_extent_axis, parallel_split_at_axis};
use parallel_collision_detection::structs::{bounding_box, BVHLeafNode};

fn bx(min: (i64, i64, i64), max: (i64, i64, i64)) -> AABB {
    AABB::new(Point3::new(min.0, min.1, min.2), Point3::new(max.0, max.1, max.2))
}

#[test]
fn intersects_is_symmetric_and_reflexive() {
    let a = bx((0, 0, 0), (10, 10, 10));
    let b = bx((5, 5, 5), (20, 20, 20));
    let c = bx((11, 0, 0), (12, 1, 1));
    assert!(a.intersects(&a));
    assert!(a.intersects(&b) && b.intersects(&a));
    assert!(!a.intersects(&c) && !c.intersects(&a));
    assert!(!b.intersects(&c) && !c.intersects(&b));
    let d = bx((12, 6, 6), (30, 7, 7));
    assert!(b.intersects(&d) && d.intersects(&b));
}

#[test]
fn touching_boxes_intersect() {
    let a = bx((0, 0, 0), (10, 10, 10));
    let b = bx((10, 0, 0), (20, 10, 10));
    assert!(a.intersects(&b));
    let c = bx((0, 11, 0), (10, 20, 10));
    assert!(!a.intersects(&c));
    let d = bx((0, 0, -5), (10, 10, -1));
    assert!(!a.intersects(&d));
}

#[test]
fn union_takes_componentwise_bounds() {
    let a = bx((0, 5, -3), (10, 6, 2));
    let b = bx((-4, 7, 0), (3, 9, 8));
    let u = a.union(&b);
    assert_eq!(u, bx((-4, 5, -3), (10, 9, 8)));
    assert_eq!(a.union(&a), a);
}

#[test]
fn center_is_kept_doubled() {
    let a = bx((-3, 0, 4), (4, 10, 4));
    assert_eq!(a.center_twice(0), 1);
    assert_eq!(a.center_twice(1), 10);
    assert_eq!(a.center_twice(2), 8);
    let big = bx((i64::MAX - 1, i64::MIN, 0), (i64::MAX, i64::MIN + 1, 0));
    assert_eq!(big.center_twice(0), 2 * (i64::MAX as i128) - 1);
    assert_eq!(big.center_twice(1), 2 * (i64::MIN as i128) + 1);
}

#[test]
fn leaf_box_encloses_its_shapes() {
    let aabbs = vec![bx((0, 0, 0), (1, 1, 1)), bx((5, -2, 3), (6, 0, 4)), bx((-7, 8, 0), (-6, 9, 1))];
    let leaf = BVHLeafNode::new(vec![0, 2], &aabbs);
    assert_eq!(leaf.aabb, bx((-7, 0, 0), (1, 9, 1)));
    assert_eq!(leaf.shape_indices, vec![0, 2]);
    assert_eq!(bounding_box(&vec![0, 1, 2], 1, 3, &aabbs), bx((-7, -2, 0), (6, 9, 4)));
}

#[test]
fn longest_axis_and_median() {
    let aabbs = vec![bx((0, 0, 0), (2, 2, 2)), bx((10, 1, 1), (12, 3, 3))];
    // x extent 12, y extent 3, z extent 3
    assert_eq!(serial_longest_extent_axis(&vec![0, 1], &aabbs), (0, 12));
    assert_eq!(parallel_longest_extent_axis(&vec![0, 1], &aabbs), (0, 12));
    let tall = vec![bx((0, 0, 0), (1, 7, 1)), bx((0, 0, 0), (1, 1, 9))];
    assert_eq!(serial_longest_extent_axis(&vec![0, 1], &tall), (2, 9));
}

#[test]
fn axis_ties_prefer_y_over_x_and_z_over_both() {
    assert_eq!(widest_axis(&bx((0, 0, 0), (4, 4, 4))), 2);
    assert_eq!(widest_axis(&bx((0, 0, 0), (4, 3, 4))), 2);
    assert_eq!(widest_axis(&bx((0, 0, 0), (5, 3, 4))), 0);
    assert_eq!(widest_axis(&bx((0, 0, 0), (4, 5, 5))), 2);
    assert_eq!(widest_axis(&bx((0, 0, 0), (4, 4, 3))), 1);
    assert_eq!(widest_axis(&bx((0, 0, 0), (0, 2, 2))), 2);
    let flat = vec![bx((0, 0, 0), (0, 2, 2))];
    assert_eq!(serial_longest_extent_axis(&vec![0], &flat), (2, 2));
    assert_eq!(parallel_longest_extent_axis(&vec![0], &flat), (2, 2));
}

#[test]
fn split_puts_lower_centers_first() {
    let aabbs: Vec<AABB> = (0..6).map(|k| bx((k * 10, 0, 0), (k * 10 + 2, 2, 2))).collect();
    let mut idx = vec![5, 0, 4, 1, 3, 2];
    // centers twice: 2, 22, 42, 62, 82, 102 for shapes 0..6
    let mid = serial_split_at_axis(&mut idx, &aabbs, 0, 50);
    assert_eq!(mid, 3);
    let mut low = idx[..3].to_vec();
    let mut high = idx[3..].to_vec();
    low.sort();
    high.sort();
    assert_eq!(low, vec![0, 1, 2]);
    assert_eq!(high, vec![3, 4, 5]);
}

#[test]
fn split_with_an_empty_side_keeps_order() {
    let aabbs: Vec<AABB> = (0..4).map(|k| bx((k, 0, 0), (k + 1, 1, 1))).collect();
    let mut idx = vec![2, 0, 3, 1];
    assert_eq!(serial_split_at_axis(&mut idx, &aabbs, 0, -100), 0);
    assert_eq!(idx, vec![2, 0, 3, 1]);
    assert_eq!(serial_split_at_axis(&mut idx, &aabbs, 0, 100), 4);
    assert_eq!(idx, vec![2, 0, 3, 1]);
}

#[test]
fn parallel_split_matches_serial_on_a_long_list() {
    let n: usize = 5000;
    let aabbs: Vec<AABB> = (0..n as i64).map(|k| {
        let x = (k * 7919) % 10007;
        bx((x, 0, 0), (x + 3, 1, 1))
    }).collect();
    let mut a: Vec<usize> = (0..n).collect();
    let mut b: Vec<usize> = (0..n).collect();
    let m1 = serial_split_at_axis(&mut a, &aabbs, 0, 10007);
    let m2 = parallel_split_at_axis(&mut b, &aabbs, 0, 10007);
    assert_eq!(m1, m2);
    for k in 0..n {
        let below = |i: usize| aabbs[i].center_twice(0) < 10007;
        assert_eq!(below(b[k]), k < m2);
    }
    let mut sa = a[..m1].to_vec();
    let mut sb = b[..m2].to_vec();
    sa.sort();
    sb.sort();
    assert_eq!(sa, sb);
    let mut all = b.clone();
    all.sort();
    assert_eq!(all, (0..n).collect::<Vec<_>>());
}
