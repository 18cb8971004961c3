//! Building and traversing the hierarchy on rayon's work-stealing pool.
use vstd::prelude::*;
use crate::aabb::{AABB, valid_box};
use crate::broad::{
    broad_phase_result, leaf_pairs, lemma_broad_disjoint, lemma_broad_leaves, lemma_broad_split_first,
    lemma_broad_split_second, pairs_reached, reached_by_child, lemma_reached_disjoint,
    lemma_reached_leaves, lemma_reached_split_first, lemma_reached_split_second,
    lemma_reached_by_child, lemma_reached_split_both, reached_pairs, lemma_concat_multiset,
    lemma_empty_multiset,
};
use crate::srl_bvh::{
    build_result, serial_broad_phase_check, serial_build_bvh, serial_split_at_axis, widest_axis,
    longest_axis, split_plane, below, split_result, lemma_split_empty_side, lemma_perm_in_range,
    lemma_parts_in_range, lemma_join_parts, lemma_median_node,
};
use crate::structs::{
    BVHNode, BVHInternalNode, BVHLeafNode, indices_in_range, all_valid, bounding_box, enclosing,
    lemma_enclosing_concat,
};

verus! {

/// Index lists at most this long are built on the current worker alone.
pub const BUILD_PARALLEL_THRESHOLD: usize = 1000;

/// Below this depth the traversal forks; deeper it runs on the current worker.
pub const MAX_DEPTH: usize = 4;

/// A subtree together with its index list as the build left it.
struct BuiltPart {
    tree: Box<BVHNode>,
    indices: Vec<usize>,
}

/// Relies on rayon::join: calls both closures, possibly on two workers, and returns
/// their results in order.
#[verifier::external_body]
fn join<A, B, RA, RB>(oper_a: A, oper_b: B) -> (r: (RA, RB)) where
    A: FnOnce() -> RA + Send,
    B: FnOnce() -> RB + Send,
    RA: Send,
    RB: Send,

    requires
        oper_a.requires(()),
        oper_b.requires(()),
    ensures
        oper_a.ensures((), r.0),
        oper_b.ensures((), r.1),
{
    rayon::join(oper_a, oper_b)
}

/// The box that encloses the boxes of `idx[lo..hi]`, the halves of long ranges taken at once.
fn parallel_bounding_box(idx: &Vec<usize>, lo: usize, hi: usize, aabbs: &Vec<AABB>) -> (r: AABB)
    requires
        lo <= hi <= idx@.len(),
        indices_in_range(idx@, aabbs@.len() as int),
        all_valid(aabbs@),
    ensures
        r == enclosing(idx@.subrange(lo as int, hi as int), aabbs@),
        valid_box(r),
    decreases hi - lo,
{
    if hi - lo <= BUILD_PARALLEL_THRESHOLD {
        return bounding_box(idx, lo, hi, aabbs);
    }
    let mid = lo + (hi - lo) / 2;
    let lower = move || -> (b: AABB)
        ensures
            b == enclosing(idx@.subrange(lo as int, mid as int), aabbs@),
            valid_box(b),
        {
            parallel_bounding_box(idx, lo, mid, aabbs)
        };
    let upper = move || -> (b: AABB)
        ensures
            b == enclosing(idx@.subrange(mid as int, hi as int), aabbs@),
            valid_box(b),
        {
            parallel_bounding_box(idx, mid, hi, aabbs)
        };
    let (a, b) = join(lower, upper);
    proof {
        let s = idx@.subrange(lo as int, hi as int);
        assert(idx@.subrange(lo as int, mid as int) + idx@.subrange(mid as int, hi as int) =~= s);
        lemma_enclosing_concat(idx@.subrange(lo as int, mid as int), idx@.subrange(mid as int, hi as int), aabbs@);
    }
    a.union(&b)
}

/// The widest axis of the boxes of `aabb_indices`, with twice the spatial median on it,
/// as `serial_longest_extent_axis` gives them; the enclosing box of a long list is
/// gathered on several workers.
pub fn parallel_longest_extent_axis(aabb_indices: &Vec<usize>, all_aabbs: &Vec<AABB>) -> (r: (usize, i128))
    requires
        indices_in_range(aabb_indices@, all_aabbs@.len() as int),
        all_valid(all_aabbs@),
    ensures
        r.0 == longest_axis(enclosing(aabb_indices@, all_aabbs@)),
        r.1 == split_plane(aabb_indices@, all_aabbs@),
{
    let b = parallel_bounding_box(aabb_indices, 0, aabb_indices.len(), all_aabbs);
    assert(aabb_indices@.subrange(0, aabb_indices@.len() as int) =~= aabb_indices@);
    let axis = widest_axis(&b);
    (axis, b.center_twice(axis))
}

/// An index list as a split left it, with the length of its lower side.
struct SplitPart {
    indices: Vec<usize>,
    mid: usize,
}

/// Reorders `aabb_indices` as `serial_split_at_axis` does, the two halves of a long list
/// split on two workers and their lower sides then put first.
pub fn parallel_split_at_axis(
    aabb_indices: &mut Vec<usize>,
    all_aabbs: &Vec<AABB>,
    axis: usize,
    midpoint: i128,
) -> (mid: usize)
    requires
        axis < 3,
        indices_in_range(old(aabb_indices)@, all_aabbs@.len() as int),
    ensures
        split_result(old(aabb_indices)@, final(aabb_indices)@, all_aabbs@, axis as int, midpoint as int, mid as int),
    decreases old(aabb_indices)@.len(),
{
    let n = aabb_indices.len();
    if n <= BUILD_PARALLEL_THRESHOLD {
        return serial_split_at_axis(aabb_indices, all_aabbs, axis, midpoint);
    }
    let ghost orig = aabb_indices@;
    let upper = aabb_indices.split_off(n / 2);
    let lower = aabb_indices.split_off(0);
    let ghost lower_in = lower@;
    let ghost upper_in = upper@;
    assert(lower_in + upper_in =~= orig);
    let split_lower = move || -> (res: SplitPart)
        requires
            indices_in_range(lower@, all_aabbs@.len() as int),
            lower@.len() < n,
            axis < 3,
        ensures
            split_result(lower_in, res.indices@, all_aabbs@, axis as int, midpoint as int, res.mid as int),
        {
            let mut v = lower;
            let m = parallel_split_at_axis(&mut v, all_aabbs, axis, midpoint);
            SplitPart { indices: v, mid: m }
        };
    let split_upper = move || -> (res: SplitPart)
        requires
            indices_in_range(upper@, all_aabbs@.len() as int),
            upper@.len() < n,
            axis < 3,
        ensures
            split_result(upper_in, res.indices@, all_aabbs@, axis as int, midpoint as int, res.mid as int),
        {
            let mut v = upper;
            let m = parallel_split_at_axis(&mut v, all_aabbs, axis, midpoint);
            SplitPart { indices: v, mid: m }
        };
    let (lres, ures) = join(split_lower, split_upper);
    let SplitPart { indices: mut low, mid: m1 } = lres;
    let SplitPart { indices: mut up, mid: m2 } = ures;
    let ghost low_out = low@;
    let ghost up_out = up@;
    proof {
        vstd::seq_lib::to_multiset_len(low_out);
        vstd::seq_lib::to_multiset_len(lower_in);
        vstd::seq_lib::to_multiset_len(up_out);
        vstd::seq_lib::to_multiset_len(upper_in);
    }
    let mut low_rest = low.split_off(m1);
    let mut up_rest = up.split_off(m2);
    aabb_indices.append(&mut low);
    aabb_indices.append(&mut up);
    aabb_indices.append(&mut low_rest);
    aabb_indices.append(&mut up_rest);
    proof {
        lemma_stitch(orig, lower_in, upper_in, low_out, up_out, m1 as int, m2 as int, aabb_indices@, all_aabbs@, axis as int, midpoint as int);
    }
    m1 + m2
}

proof fn lemma_stitch(
    orig: Seq<usize>,
    lower_in: Seq<usize>,
    upper_in: Seq<usize>,
    low_out: Seq<usize>,
    up_out: Seq<usize>,
    m1: int,
    m2: int,
    out: Seq<usize>,
    aabbs: Seq<AABB>,
    axis: int,
    midpoint: int,
)
    requires
        orig == lower_in + upper_in,
        split_result(lower_in, low_out, aabbs, axis, midpoint, m1),
        split_result(upper_in, up_out, aabbs, axis, midpoint, m2),
        low_out.len() == lower_in.len(),
        up_out.len() == upper_in.len(),
        0 <= m1,
        0 <= m2,
        out == low_out.subrange(0, m1) + up_out.subrange(0, m2) + low_out.subrange(m1, low_out.len() as int)
            + up_out.subrange(m2, up_out.len() as int),
    ensures
        split_result(orig, out, aabbs, axis, midpoint, m1 + m2),
{
    broadcast use vstd::seq_lib::lemma_multiset_commutative;

    let a = low_out.subrange(0, m1);
    let b = up_out.subrange(0, m2);
    let c = low_out.subrange(m1, low_out.len() as int);
    let d = up_out.subrange(m2, up_out.len() as int);
    assert(a + c =~= low_out);
    assert(b + d =~= up_out);
    assert((a + b + c + d).to_multiset() =~= (a + c).to_multiset().add((b + d).to_multiset())) by {
        assert((a + b + c + d).to_multiset() == (a + b + c).to_multiset().add(d.to_multiset()));
        assert((a + b + c).to_multiset() == (a + b).to_multiset().add(c.to_multiset()));
        assert((a + b).to_multiset() == a.to_multiset().add(b.to_multiset()));
        assert((a + c).to_multiset() == a.to_multiset().add(c.to_multiset()));
        assert((b + d).to_multiset() == b.to_multiset().add(d.to_multiset()));
    }
    assert(orig.to_multiset() == lower_in.to_multiset().add(upper_in.to_multiset()));
    assert forall|k: int| 0 <= k < m1 + m2 implies below(aabbs, #[trigger] out[k], axis, midpoint) by {
        if k < m1 {
            assert(out[k] == low_out[k]);
        } else {
            assert(out[k] == up_out[k - m1]);
        }
    }
    assert forall|k: int| m1 + m2 <= k < out.len() implies !below(aabbs, #[trigger] out[k], axis, midpoint) by {
        if k < m2 + low_out.len() {
            assert(out[k] == low_out[k - m2]);
        } else {
            assert(out[k] == up_out[k - low_out.len()]);
        }
    }
    if m1 + m2 == 0 {
        assert(out =~= orig);
    } else if m1 + m2 == out.len() {
        assert(m1 == low_out.len());
        assert(m2 == up_out.len());
        assert(out =~= orig);
    }
}

/// Builds the hierarchy as `serial_build_bvh` does, building the two subtrees of each
/// large node at once.
pub fn parallel_build_bvh(aabb_indices: &mut Vec<usize>, all_aabbs: &Vec<AABB>, cut_off_size: usize) -> (r: Box<BVHNode>)
    requires
        indices_in_range(old(aabb_indices)@, all_aabbs@.len() as int),
        all_valid(all_aabbs@),
    ensures
        build_result(old(aabb_indices)@, final(aabb_indices)@, all_aabbs@, cut_off_size, *r),
    decreases old(aabb_indices)@.len(),
{
    let n = aabb_indices.len();
    if n <= cut_off_size {
        let leaf = BVHLeafNode::new(aabb_indices.clone(), all_aabbs);
        return Box::new(BVHNode::Leaf(leaf));
    }
    if n <= BUILD_PARALLEL_THRESHOLD {
        return serial_build_bvh(aabb_indices, all_aabbs, cut_off_size);
    }
    let ghost orig = aabb_indices@;
    let (axis, midpoint) = parallel_longest_extent_axis(aabb_indices, all_aabbs);
    let mid = parallel_split_at_axis(aabb_indices, all_aabbs, axis, midpoint);
    proof {
        lemma_split_empty_side(orig, aabb_indices@, all_aabbs@, mid as int);
    }
    if mid == 0 || mid == aabb_indices.len() {
        let leaf = BVHLeafNode::new(aabb_indices.clone(), all_aabbs);
        return Box::new(BVHNode::Leaf(leaf));
    }
    let ghost parted = aabb_indices@;
    let right = aabb_indices.split_off(mid);
    let left = aabb_indices.split_off(0);
    proof {
        lemma_perm_in_range(orig, parted, all_aabbs@.len() as int);
        lemma_parts_in_range(parted, mid as int, all_aabbs@.len() as int);
        assert(left@ =~= parted.subrange(0, mid as int));
    }
    let ghost left_in = left@;
    let ghost right_in = right@;
    let build_left = move || -> (res: BuiltPart)
        requires
            indices_in_range(left@, all_aabbs@.len() as int),
            all_valid(all_aabbs@),
            left@.len() < n,
        ensures
            build_result(left_in, res.indices@, all_aabbs@, cut_off_size, *res.tree),
        {
            let mut v = left;
            let t = parallel_build_bvh(&mut v, all_aabbs, cut_off_size);
            BuiltPart { tree: t, indices: v }
        };
    let build_right = move || -> (res: BuiltPart)
        requires
            indices_in_range(right@, all_aabbs@.len() as int),
            all_valid(all_aabbs@),
            right@.len() < n,
        ensures
            build_result(right_in, res.indices@, all_aabbs@, cut_off_size, *res.tree),
        {
            let mut v = right;
            let t = parallel_build_bvh(&mut v, all_aabbs, cut_off_size);
            BuiltPart { tree: t, indices: v }
        };
    let (lres, rres) = join(build_left, build_right);
    let BuiltPart { tree: left_tree, indices: mut left_out } = lres;
    let BuiltPart { tree: right_tree, indices: mut right_out } = rres;
    let ghost lo = left_out@;
    let ghost ro = right_out@;
    aabb_indices.append(&mut left_out);
    aabb_indices.append(&mut right_out);
    let aabb = left_tree.union_aabb(&right_tree);
    proof {
        lemma_join_parts(orig, parted, mid as int, lo, ro, left_tree.leaves(), right_tree.leaves());
        lemma_median_node(orig, parted, mid as int, *left_tree, *right_tree, all_aabbs@);
    }
    Box::new(BVHNode::Internal(BVHInternalNode::new(aabb, left_tree, right_tree)))
}

/// Emits the broad-phase pairs of `s1` and `s2` as `serial_broad_phase_check` does,
/// splitting the work between workers at the top levels of both trees.
pub fn parallel_broad_phase_check(s1: &BVHNode, s2: &BVHNode) -> (r: Vec<(usize, usize)>)
    ensures
        broad_phase_result(*s1, *s2, r@),
        pairs_reached(*s1, *s2, r@),
        r@.to_multiset() == reached_pairs(*s1, *s2),
{
    gather(s1, s2, 0)
}

/// The traversal below `s1` and `s2`, which lie `depth` levels below the roots.
fn gather(s1: &BVHNode, s2: &BVHNode, depth: usize) -> (r: Vec<(usize, usize)>)
    ensures
        broad_phase_result(*s1, *s2, r@),
        pairs_reached(*s1, *s2, r@),
        r@.to_multiset() == reached_pairs(*s1, *s2),
    decreases *s1, *s2,
{
    if depth >= MAX_DEPTH {
        return serial_broad_phase_check(s1, s2);
    }
    if !s1.intersects(s2) {
        proof {
            lemma_broad_disjoint(*s1, *s2);
            lemma_reached_disjoint(*s1, *s2);
            lemma_empty_multiset();
        }
        let out: Vec<(usize, usize)> = Vec::new();
        assert(out@ =~= Seq::<(usize, usize)>::empty());
        return out;
    }
    match (s1, s2) {
        (BVHNode::Leaf(l1), BVHNode::Leaf(l2)) => {
            let out = leaf_pairs(&l1.shape_indices, &l2.shape_indices);
            proof {
                lemma_broad_leaves(*s1, *s2, out@);
                lemma_reached_leaves(*s1, *s2, out@);
            }
            out
        },
        (BVHNode::Leaf(_), BVHNode::Internal(n2)) => {
            let mut left = gather(s1, &n2.left, depth + 1);
            let mut right = gather(s1, &n2.right, depth + 1);
            proof {
                lemma_broad_split_second(*s1, *s2, left@, right@);
                lemma_reached_split_second(*s1, *s2, left@, right@);
                lemma_concat_multiset(left@, right@);
            }
            left.append(&mut right);
            left
        },
        (BVHNode::Internal(n1), BVHNode::Leaf(_)) => {
            let mut left = gather(&n1.left, s2, depth + 1);
            let mut right = gather(&n1.right, s2, depth + 1);
            proof {
                lemma_broad_split_first(*s1, *s2, left@, right@);
                lemma_reached_split_first(*s1, *s2, left@, right@);
                lemma_concat_multiset(left@, right@);
            }
            left.append(&mut right);
            left
        },
        (BVHNode::Internal(n1), BVHNode::Internal(n2)) => {
            let (s1l, s1r) = (&*n1.left, &*n1.right);
            let (s2l, s2r) = (&*n2.left, &*n2.right);
            let next = depth + 1;
            let with_left = move || -> (res: Vec<(usize, usize)>)
                ensures
                    broad_phase_result(*s1l, *s2, res@),
                    reached_by_child(*s1l, *s2, res@),
                    res@.to_multiset() == reached_pairs(*s1l, *s2l).add(reached_pairs(*s1l, *s2r)),
                {
                    let mut v = gather(s1l, s2l, next);
                    let mut w = gather(s1l, s2r, next);
                    proof {
                        lemma_broad_split_second(*s1l, *s2, v@, w@);
                        lemma_reached_by_child(*s1l, *s2, v@, w@);
                        lemma_concat_multiset(v@, w@);
                    }
                    v.append(&mut w);
                    v
                };
            let with_right = move || -> (res: Vec<(usize, usize)>)
                ensures
                    broad_phase_result(*s1r, *s2, res@),
                    reached_by_child(*s1r, *s2, res@),
                    res@.to_multiset() == reached_pairs(*s1r, *s2l).add(reached_pairs(*s1r, *s2r)),
                {
                    let mut v = gather(s1r, s2l, next);
                    let mut w = gather(s1r, s2r, next);
                    proof {
                        lemma_broad_split_second(*s1r, *s2, v@, w@);
                        lemma_reached_by_child(*s1r, *s2, v@, w@);
                        lemma_concat_multiset(v@, w@);
                    }
                    v.append(&mut w);
                    v
                };
            let (mut left, mut right) = join(with_left, with_right);
            proof {
                lemma_broad_split_first(*s1, *s2, left@, right@);
                lemma_reached_split_both(*s1, *s2, left@, right@);
                lemma_concat_multiset(left@, right@);
                broadcast use vstd::multiset::group_multiset_axioms;
                assert(left@.to_multiset().add(right@.to_multiset()) =~= reached_pairs(*s1, *s2));
            }
            left.append(&mut right);
            left
        },
    }
}

} // verus!
