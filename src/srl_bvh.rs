//! Building the hierarchy by spatial-median splits, on one thread.
use vstd::prelude::*;
use crate::aabb::{AABB, center_twice, box_union};
use crate::broad::{
    broad_phase_result, leaf_pairs, lemma_broad_disjoint, lemma_broad_leaves, lemma_broad_split_first,
    lemma_broad_split_second, pairs_reached, lemma_reached_disjoint,
    lemma_reached_leaves, lemma_reached_split_first, lemma_reached_split_second,
    lemma_reached_by_child, lemma_reached_split_both, reached_pairs, lemma_concat_multiset,
    lemma_empty_multiset,
};
use crate::structs::{
    BVHNode, BVHInternalNode, BVHLeafNode, enclosing, indices_in_range, all_valid, bounding_box,
    lemma_enclosing_concat, lemma_enclosing_perm,
};

verus! {

broadcast use vstd::seq_lib::group_to_multiset_ensures;

/// The axis on which `b` is widest; on a tie Y wins over X, and Z wins over X and Y.
pub open spec fn longest_axis(b: AABB) -> int {
    let ex = b.max_coords.x - b.min_coords.x;
    let ey = b.max_coords.y - b.min_coords.y;
    let ez = b.max_coords.z - b.min_coords.z;
    if ez >= ex && ez >= ey {
        2
    } else if ey >= ex {
        1
    } else {
        0
    }
}

/// The center of box `i` lies below the split plane at `mid_twice / 2` on `axis`.
pub open spec fn below(aabbs: Seq<AABB>, i: usize, axis: int, mid_twice: int) -> bool {
    center_twice(aabbs[i as int], axis) < mid_twice
}

/// Twice the spatial median of `idx` on its longest axis.
pub open spec fn split_plane(idx: Seq<usize>, aabbs: Seq<AABB>) -> int {
    center_twice(enclosing(idx, aabbs), longest_axis(enclosing(idx, aabbs)))
}

/// The spatial-median split of `idx` leaves one side empty.
pub open spec fn unsplittable(idx: Seq<usize>, aabbs: Seq<AABB>) -> bool {
    let axis = longest_axis(enclosing(idx, aabbs));
    let mid = split_plane(idx, aabbs);
    (forall|k: int| 0 <= k < idx.len() ==> below(aabbs, #[trigger] idx[k], axis, mid))
        || (forall|k: int| 0 <= k < idx.len() ==> !below(aabbs, #[trigger] idx[k], axis, mid))
}

impl BVHNode {
    /// Every leaf holds at most `cut_off` indices, or cannot be split; every internal node
    /// holds more.
    pub open spec fn leaves_small(self, cut_off: usize, aabbs: Seq<AABB>) -> bool
        decreases self,
    {
        match self {
            BVHNode::Internal(n) => {
                &&& self.leaves().len() > cut_off
                &&& n.left.leaves_small(cut_off, aabbs)
                &&& n.right.leaves_small(cut_off, aabbs)
            },
            BVHNode::Leaf(l) => l.shape_indices@.len() <= cut_off || unsplittable(
                l.shape_indices@,
                aabbs,
            ),
        }
    }

    /// Every internal node splits at the spatial median of its box on the box's widest axis:
    /// its left subtree holds the indices whose centers lie below that plane, its right
    /// subtree the others.
    pub open spec fn median_split(self, aabbs: Seq<AABB>) -> bool
        decreases self,
    {
        match self {
            BVHNode::Internal(n) => {
                let axis = longest_axis(n.aabb);
                let mid = center_twice(n.aabb, axis);
                &&& forall|k: int|
                    0 <= k < n.left.leaves().len() ==> below(aabbs, #[trigger] n.left.leaves()[k], axis, mid)
                &&& forall|k: int|
                    0 <= k < n.right.leaves().len() ==> !below(aabbs, #[trigger] n.right.leaves()[k], axis, mid)
                &&& n.left.median_split(aabbs)
                &&& n.right.median_split(aabbs)
            },
            BVHNode::Leaf(_) => true,
        }
    }
}

/// What building a hierarchy over `idx` yields: `out` is the index list as the build left
/// it, the leaves' index lists joined from left to right, and `t` the tree.
pub open spec fn build_result(
    idx: Seq<usize>,
    out: Seq<usize>,
    aabbs: Seq<AABB>,
    cut_off: usize,
    t: BVHNode,
) -> bool {
    &&& out.to_multiset() == idx.to_multiset()
    &&& out == t.leaves()
    &&& t.leaves().to_multiset() == idx.to_multiset()
    &&& t.wf(aabbs)
    &&& t.median_split(aabbs)
    &&& t.leaves_small(cut_off, aabbs)
    &&& (t is Leaf) == (idx.len() <= cut_off || unsplittable(idx, aabbs))
    &&& t is Leaf ==> t.leaves() == idx
}

/// The widest axis of the boxes of `aabb_indices`, with twice the spatial median on it.
pub fn serial_longest_extent_axis(aabb_indices: &Vec<usize>, all_aabbs: &Vec<AABB>) -> (r: (
    usize,
    i128,
))
    requires
        indices_in_range(aabb_indices@, all_aabbs@.len() as int),
        all_valid(all_aabbs@),
    ensures
        r.0 == longest_axis(enclosing(aabb_indices@, all_aabbs@)),
        r.1 == split_plane(aabb_indices@, all_aabbs@),
{
    let b = bounding_box(aabb_indices, 0, aabb_indices.len(), all_aabbs);
    assert(aabb_indices@.subrange(0, aabb_indices@.len() as int) =~= aabb_indices@);
    let axis = widest_axis(&b);
    (axis, b.center_twice(axis))
}

/// The axis on which `b` is widest, ties broken as `longest_axis` says.
pub fn widest_axis(b: &AABB) -> (axis: usize)
    ensures
        axis == longest_axis(*b),
{
    let ex = b.max_coords.x as i128 - b.min_coords.x as i128;
    let ey = b.max_coords.y as i128 - b.min_coords.y as i128;
    let ez = b.max_coords.z as i128 - b.min_coords.z as i128;
    if ez >= ex && ez >= ey {
        2
    } else if ey >= ex {
        1
    } else {
        0
    }
}

proof fn lemma_swap_multiset(s: Seq<usize>, i: int, j: int)
    requires
        0 <= i < s.len(),
        0 <= j < s.len(),
    ensures
        s.update(i, s[j]).update(j, s[i]).to_multiset() == s.to_multiset(),
{
    broadcast use vstd::multiset::group_multiset_axioms;

    let s1 = s.update(i, s[j]);
    assert(s1.to_multiset() == s.to_multiset().insert(s[j]).remove(s[i]));
    assert(s1.update(j, s[i]).to_multiset() == s1.to_multiset().insert(s[i]).remove(s1[j]));
    assert(s1.update(j, s[i]).to_multiset() =~= s.to_multiset());
}

/// `out` reorders `orig` so that its first `mid` indices, and no others, have centers
/// below the plane; a split that leaves a side empty keeps the order.
pub open spec fn split_result(orig: Seq<usize>, out: Seq<usize>, aabbs: Seq<AABB>, axis: int, midpoint: int, mid: int) -> bool {
    &&& out.to_multiset() == orig.to_multiset()
    &&& mid <= out.len()
    &&& forall|k: int| 0 <= k < mid ==> below(aabbs, #[trigger] out[k], axis, midpoint)
    &&& forall|k: int| mid <= k < out.len() ==> !below(aabbs, #[trigger] out[k], axis, midpoint)
    &&& mid == 0 || mid == out.len() ==> out == orig
}

/// Reorders `aabb_indices` in place so that the indices whose centers lie below the split
/// plane come first; returns how many there are.
pub fn serial_split_at_axis(
    aabb_indices: &mut Vec<usize>,
    all_aabbs: &Vec<AABB>,
    axis: usize,
    midpoint: i128,
) -> (mid: usize)
    requires
        axis < 3,
        indices_in_range(old(aabb_indices)@, all_aabbs@.len() as int),
    ensures
        split_result(old(aabb_indices)@, final(aabb_indices)@, all_aabbs@, axis as int, midpoint as int, mid as int),
{
    let ghost orig = aabb_indices@;
    let n = aabb_indices.len();
    let mut i: usize = 0;
    let mut j: usize = 0;
    while i < n
        invariant
            j <= i <= n,
            n == aabb_indices@.len(),
            n == orig.len(),
            axis < 3,
            indices_in_range(orig, all_aabbs@.len() as int),
            aabb_indices@.to_multiset() == orig.to_multiset(),
            forall|k: int| i <= k < n ==> aabb_indices@[k] == orig[k],
            forall|k: int| 0 <= k < j ==> below(all_aabbs@, #[trigger] aabb_indices@[k], axis as int, midpoint as int),
            forall|k: int|
                j <= k < i ==> !below(all_aabbs@, #[trigger] aabb_indices@[k], axis as int, midpoint as int),
            j == 0 || j == i ==> aabb_indices@ == orig,
        decreases n - i,
    {
        let idx = aabb_indices[i];
        assert(idx == orig[i as int]);
        if all_aabbs[idx].center_twice(axis) < midpoint {
            let other = aabb_indices[j];
            proof {
                lemma_swap_multiset(aabb_indices@, i as int, j as int);
            }
            aabb_indices.set(i, other);
            aabb_indices.set(j, idx);
            j = j + 1;
        }
        i = i + 1;
    }
    j
}

/// Builds the hierarchy over `aabb_indices`, reordering them in place; leaves hold at most
/// `cut_off_size` indices unless their spatial-median split leaves one side empty.
pub fn serial_build_bvh(aabb_indices: &mut Vec<usize>, all_aabbs: &Vec<AABB>, cut_off_size: usize) -> (r: Box<BVHNode>)
    requires
        indices_in_range(old(aabb_indices)@, all_aabbs@.len() as int),
        all_valid(all_aabbs@),
    ensures
        build_result(old(aabb_indices)@, final(aabb_indices)@, all_aabbs@, cut_off_size, *r),
    decreases old(aabb_indices)@.len(),
{
    if aabb_indices.len() <= cut_off_size {
        let leaf = BVHLeafNode::new(aabb_indices.clone(), all_aabbs);
        return Box::new(BVHNode::Leaf(leaf));
    }
    let ghost orig = aabb_indices@;
    let (axis, midpoint) = serial_longest_extent_axis(aabb_indices, all_aabbs);
    let mid = serial_split_at_axis(aabb_indices, all_aabbs, axis, midpoint);
    proof {
        lemma_split_empty_side(orig, aabb_indices@, all_aabbs@, mid as int);
    }
    if mid == 0 || mid == aabb_indices.len() {
        let leaf = BVHLeafNode::new(aabb_indices.clone(), all_aabbs);
        return Box::new(BVHNode::Leaf(leaf));
    }
    let ghost parted = aabb_indices@;
    let mut right = aabb_indices.split_off(mid);
    proof {
        lemma_perm_in_range(orig, parted, all_aabbs@.len() as int);
        lemma_parts_in_range(parted, mid as int, all_aabbs@.len() as int);
    }
    let left_tree = serial_build_bvh(aabb_indices, all_aabbs, cut_off_size);
    let right_tree = serial_build_bvh(&mut right, all_aabbs, cut_off_size);
    let ghost left_out = aabb_indices@;
    let ghost right_out = right@;
    aabb_indices.append(&mut right);
    let aabb = left_tree.union_aabb(&right_tree);
    proof {
        lemma_join_parts(orig, parted, mid as int, left_out, right_out, left_tree.leaves(), right_tree.leaves());
        lemma_median_node(orig, parted, mid as int, *left_tree, *right_tree, all_aabbs@);
    }
    Box::new(BVHNode::Internal(BVHInternalNode::new(aabb, left_tree, right_tree)))
}

/// Descends `s1` and `s2` together and emits every pair `(i, j)`, `i < j`, of indices from
/// leaves of `s1` and `s2` whose boxes overlap.
pub fn serial_broad_phase_check(s1: &BVHNode, s2: &BVHNode) -> (r: Vec<(usize, usize)>)
    ensures
        broad_phase_result(*s1, *s2, r@),
        pairs_reached(*s1, *s2, r@),
        r@.to_multiset() == reached_pairs(*s1, *s2),
    decreases *s1, *s2,
{
    if !s1.intersects(s2) {
        proof {
            lemma_broad_disjoint(*s1, *s2);
            lemma_reached_disjoint(*s1, *s2);
            lemma_empty_multiset();
        }
        let out: Vec<(usize, usize)> = Vec::new();
        assert(out@ =~= Seq::<(usize, usize)>::empty());
        return out;
    }
    match (s1, s2) {
        (BVHNode::Leaf(l1), BVHNode::Leaf(l2)) => {
            let out = leaf_pairs(&l1.shape_indices, &l2.shape_indices);
            proof {
                lemma_broad_leaves(*s1, *s2, out@);
                lemma_reached_leaves(*s1, *s2, out@);
            }
            out
        },
        (BVHNode::Leaf(_), BVHNode::Internal(n2)) => {
            let mut left = serial_broad_phase_check(s1, &n2.left);
            let mut right = serial_broad_phase_check(s1, &n2.right);
            proof {
                lemma_broad_split_second(*s1, *s2, left@, right@);
                lemma_reached_split_second(*s1, *s2, left@, right@);
                lemma_concat_multiset(left@, right@);
            }
            left.append(&mut right);
            left
        },
        (BVHNode::Internal(n1), BVHNode::Leaf(_)) => {
            let mut left = serial_broad_phase_check(&n1.left, s2);
            let mut right = serial_broad_phase_check(&n1.right, s2);
            proof {
                lemma_broad_split_first(*s1, *s2, left@, right@);
                lemma_reached_split_first(*s1, *s2, left@, right@);
                lemma_concat_multiset(left@, right@);
            }
            left.append(&mut right);
            left
        },
        (BVHNode::Internal(n1), BVHNode::Internal(n2)) => {
            let mut v = serial_broad_phase_check(&n1.left, &n2.left);
            let mut lr = serial_broad_phase_check(&n1.left, &n2.right);
            let mut rl = serial_broad_phase_check(&n1.right, &n2.left);
            let mut rr = serial_broad_phase_check(&n1.right, &n2.right);
            proof {
                lemma_broad_split_second(*n1.left, *s2, v@, lr@);
                lemma_broad_split_second(*n1.right, *s2, rl@, rr@);
                lemma_broad_split_first(*s1, *s2, v@ + lr@, rl@ + rr@);
                lemma_reached_by_child(*n1.left, *s2, v@, lr@);
                lemma_reached_by_child(*n1.right, *s2, rl@, rr@);
                lemma_reached_split_both(*s1, *s2, v@ + lr@, rl@ + rr@);
                assert(v@ + lr@ + (rl@ + rr@) =~= v@ + lr@ + rl@ + rr@);
                lemma_concat_multiset(v@, lr@);
                lemma_concat_multiset(v@ + lr@, rl@);
                lemma_concat_multiset(v@ + lr@ + rl@, rr@);
            }
            v.append(&mut lr);
            v.append(&mut rl);
            v.append(&mut rr);
            v
        },
    }
}

/// A reordering keeps every index in range.
pub(crate) proof fn lemma_perm_in_range(a: Seq<usize>, b: Seq<usize>, n: int)
    requires
        a.to_multiset() == b.to_multiset(),
        indices_in_range(a, n),
    ensures
        indices_in_range(b, n),
{
    assert forall|k: int| 0 <= k < b.len() implies #[trigger] b[k] < n by {
        assert(b.contains(b[k]));
        assert(b.to_multiset().count(b[k]) > 0);
        assert(a.contains(b[k]));
    }
}

/// The split leaves a side empty exactly when the indices cannot be split.
pub(crate) proof fn lemma_split_empty_side(orig: Seq<usize>, parted: Seq<usize>, aabbs: Seq<AABB>, mid: int)
    requires
        parted.to_multiset() == orig.to_multiset(),
        0 <= mid <= parted.len(),
        forall|k: int|
            0 <= k < mid ==> below(aabbs, #[trigger] parted[k], longest_axis(enclosing(orig, aabbs)), split_plane(orig, aabbs)),
        forall|k: int|
            mid <= k < parted.len() ==> !below(aabbs, #[trigger] parted[k], longest_axis(enclosing(orig, aabbs)), split_plane(orig, aabbs)),
    ensures
        parted.len() == orig.len(),
        (mid == 0 || mid == parted.len()) <==> unsplittable(orig, aabbs),
{
    let axis = longest_axis(enclosing(orig, aabbs));
    let m = split_plane(orig, aabbs);
    assert(parted.len() == orig.len()) by {
        vstd::seq_lib::to_multiset_len(parted);
        vstd::seq_lib::to_multiset_len(orig);
    }
    if mid == 0 {
        assert forall|k: int| 0 <= k < orig.len() implies !below(aabbs, #[trigger] orig[k], axis, m) by {
            assert(orig.contains(orig[k]));
            assert(orig.to_multiset().count(orig[k]) > 0);
            assert(parted.contains(orig[k]));
        }
    } else if mid == parted.len() {
        assert forall|k: int| 0 <= k < orig.len() implies below(aabbs, #[trigger] orig[k], axis, m) by {
            assert(orig.contains(orig[k]));
            assert(orig.to_multiset().count(orig[k]) > 0);
            assert(parted.contains(orig[k]));
        }
    } else {
        let lo = parted[0];
        let hi = parted[parted.len() - 1];
        assert(parted.contains(lo));
        assert(parted.contains(hi));
        assert(parted.to_multiset().count(lo) > 0);
        assert(parted.to_multiset().count(hi) > 0);
        assert(orig.contains(lo));
        assert(orig.contains(hi));
        let klo = choose|k: int| 0 <= k < orig.len() && orig[k] == lo;
        let khi = choose|k: int| 0 <= k < orig.len() && orig[k] == hi;
        assert(below(aabbs, orig[klo], axis, m));
        assert(!below(aabbs, orig[khi], axis, m));
    }
}

pub(crate) proof fn lemma_parts_in_range(parted: Seq<usize>, mid: int, n: int)
    requires
        indices_in_range(parted, n),
        0 <= mid <= parted.len(),
    ensures
        indices_in_range(parted.subrange(0, mid), n),
        indices_in_range(parted.subrange(mid, parted.len() as int), n),
{
}

pub(crate) proof fn lemma_join_parts(
    orig: Seq<usize>,
    parted: Seq<usize>,
    mid: int,
    left_out: Seq<usize>,
    right_out: Seq<usize>,
    left_leaves: Seq<usize>,
    right_leaves: Seq<usize>,
)
    requires
        parted.to_multiset() == orig.to_multiset(),
        0 < mid < parted.len(),
        left_out.to_multiset() == parted.subrange(0, mid).to_multiset(),
        right_out.to_multiset() == parted.subrange(mid, parted.len() as int).to_multiset(),
        left_leaves.to_multiset() == parted.subrange(0, mid).to_multiset(),
        right_leaves.to_multiset() == parted.subrange(mid, parted.len() as int).to_multiset(),
    ensures
        (left_out + right_out).to_multiset() == orig.to_multiset(),
        (left_leaves + right_leaves).to_multiset() == orig.to_multiset(),
        (left_leaves + right_leaves).len() == orig.len(),
        left_leaves.len() > 0,
        right_leaves.len() > 0,
{
    broadcast use vstd::seq_lib::lemma_multiset_commutative;

    let a = parted.subrange(0, mid);
    let b = parted.subrange(mid, parted.len() as int);
    assert(a + b =~= parted);
    assert((a + b).to_multiset() == a.to_multiset().add(b.to_multiset()));
    vstd::seq_lib::to_multiset_len(a);
    vstd::seq_lib::to_multiset_len(b);
    vstd::seq_lib::to_multiset_len(left_leaves);
    vstd::seq_lib::to_multiset_len(right_leaves);
    vstd::seq_lib::to_multiset_len(parted);
    vstd::seq_lib::to_multiset_len(orig);
}

/// A node over the two sides of a median split has the enclosing box of all the indices,
/// and each subtree lies on its side of the plane.
pub(crate) proof fn lemma_median_node(
    orig: Seq<usize>,
    parted: Seq<usize>,
    mid: int,
    lt: BVHNode,
    rt: BVHNode,
    aabbs: Seq<AABB>,
)
    requires
        split_result(orig, parted, aabbs, longest_axis(enclosing(orig, aabbs)), split_plane(orig, aabbs), mid),
        0 < mid < parted.len(),
        lt.wf(aabbs),
        rt.wf(aabbs),
        lt.leaves().to_multiset() == parted.subrange(0, mid).to_multiset(),
        rt.leaves().to_multiset() == parted.subrange(mid, parted.len() as int).to_multiset(),
    ensures
        box_union(lt.spec_aabb(), rt.spec_aabb()) == enclosing(orig, aabbs),
        forall|k: int|
            0 <= k < lt.leaves().len() ==> below(
                aabbs,
                #[trigger] lt.leaves()[k],
                longest_axis(enclosing(orig, aabbs)),
                split_plane(orig, aabbs),
            ),
        forall|k: int|
            0 <= k < rt.leaves().len() ==> !below(
                aabbs,
                #[trigger] rt.leaves()[k],
                longest_axis(enclosing(orig, aabbs)),
                split_plane(orig, aabbs),
            ),
{
    broadcast use vstd::seq_lib::lemma_multiset_commutative;

    let axis = longest_axis(enclosing(orig, aabbs));
    let m = split_plane(orig, aabbs);
    let a = parted.subrange(0, mid);
    let b = parted.subrange(mid, parted.len() as int);
    let ll = lt.leaves();
    let rl = rt.leaves();
    vstd::seq_lib::to_multiset_len(a);
    vstd::seq_lib::to_multiset_len(b);
    vstd::seq_lib::to_multiset_len(ll);
    vstd::seq_lib::to_multiset_len(rl);
    lt.lemma_aabb_encloses_leaves(aabbs);
    rt.lemma_aabb_encloses_leaves(aabbs);
    lemma_enclosing_concat(ll, rl, aabbs);
    assert(a + b =~= parted);
    assert((ll + rl).to_multiset() == orig.to_multiset()) by {
        assert((ll + rl).to_multiset() == ll.to_multiset().add(rl.to_multiset()));
        assert((a + b).to_multiset() == a.to_multiset().add(b.to_multiset()));
    }
    lemma_enclosing_perm(ll + rl, orig, aabbs);
    assert forall|k: int| 0 <= k < ll.len() implies below(aabbs, #[trigger] ll[k], axis, m) by {
        assert(ll.to_multiset().count(ll[k]) > 0);
        assert(a.contains(ll[k]));
        let q = choose|q: int| 0 <= q < a.len() && #[trigger] a[q] == ll[k];
        assert(parted[q] == a[q]);
    }
    assert forall|k: int| 0 <= k < rl.len() implies !below(aabbs, #[trigger] rl[k], axis, m) by {
        assert(rl.to_multiset().count(rl[k]) > 0);
        assert(b.contains(rl[k]));
        let q = choose|q: int| 0 <= q < b.len() && #[trigger] b[q] == rl[k];
        assert(parted[q + mid] == b[q]);
    }
}

} // verus!
