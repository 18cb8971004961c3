//! From per-shape boxes to candidate pairs, and what holds of every result.
use vstd::prelude::*;
use vstd::multiset::Multiset;
use crate::aabb::{AABB, overlaps, valid_box, center_twice};
use crate::broad::{
    lemma_concat_no_dup_parts, broad_phase_result, pairs_reached, reaches, reached_pairs, leaf_pair_multiset, row_multiset,
};
use crate::par_bvh::{parallel_broad_phase_check, parallel_build_bvh};
use crate::srl_bvh::{
    build_result, serial_broad_phase_check, serial_build_bvh, unsplittable, longest_axis,
    split_plane, below,
};
use crate::structs::{BVHNode, enclosing, all_valid, lemma_enclosing_holds_members, lemma_enclosing_perm};

verus! {

broadcast use vstd::seq_lib::group_to_multiset_ensures;

/// `r` is a candidate-pair list for the shapes with boxes `aabbs`: pairs `(i, j)` of shape
/// indices with `i < j`, each at most once, among them every pair whose boxes overlap.
pub open spec fn candidate_pairs(aabbs: Seq<AABB>, r: Seq<(usize, usize)>) -> bool {
    &&& forall|k: int| 0 <= k < r.len() ==> (#[trigger] r[k]).0 < r[k].1 && r[k].1 < aabbs.len()
    &&& forall|i: usize, j: usize|
        i < j < aabbs.len() && #[trigger] overlaps(aabbs[i as int], aabbs[j as int]) ==> r.contains((i, j))
    &&& r.no_duplicates()
}

/// `r` is what a traversal against itself emits, each pair as often, of some tree that the build rules allow
/// over the shapes `0..n` with leaf size bound `cut_off`.
pub open spec fn pipeline_result(aabbs: Seq<AABB>, cut_off: usize, r: Seq<(usize, usize)>) -> bool {
    exists|t: BVHNode, out: Seq<usize>|
        #[trigger] build_result(all_indices(aabbs.len()), out, aabbs, cut_off, t) && pairs_reached(t, t, r)
            && r.to_multiset() == reached_pairs(t, t)
}

/// The indices `0..n` in order.
pub open spec fn all_indices(n: nat) -> Seq<usize> {
    Seq::new(n, |k: int| k as usize)
}

fn index_list(n: usize) -> (r: Vec<usize>)
    ensures
        r@ == all_indices(n as nat),
{
    let mut v: Vec<usize> = Vec::new();
    let mut k: usize = 0;
    while k < n
        invariant
            k <= n,
            v@ == all_indices(k as nat),
        decreases n - k,
    {
        v.push(k);
        k = k + 1;
        assert(v@ =~= all_indices(k as nat));
    }
    v
}

/// The candidate pairs of the shapes with boxes `all_aabbs`: a hierarchy over all of them,
/// with leaves of at most `cut_off` shapes where a split can be made, traversed against
/// itself.
pub fn serial_candidate_pairs(all_aabbs: &Vec<AABB>, cut_off: usize) -> (r: Vec<(usize, usize)>)
    requires
        all_valid(all_aabbs@),
    ensures
        candidate_pairs(all_aabbs@, r@),
        pipeline_result(all_aabbs@, cut_off, r@),
{
    let mut indices = index_list(all_aabbs.len());
    let ghost idx = indices@;
    let bvh = serial_build_bvh(&mut indices, all_aabbs, cut_off);
    let pairs = serial_broad_phase_check(&bvh, &bvh);
    proof {
        lemma_candidates(*bvh, all_aabbs@, idx, pairs@);
        assert(build_result(all_indices(all_aabbs@.len()), indices@, all_aabbs@, cut_off, *bvh));
        assert(pairs_reached(*bvh, *bvh, pairs@));
        assert(pairs@.to_multiset() == reached_pairs(*bvh, *bvh));
    }
    pairs
}

/// The candidate pairs as `serial_candidate_pairs` gives them, built and traversed on
/// rayon's pool.
pub fn parallel_candidate_pairs(all_aabbs: &Vec<AABB>, cut_off: usize) -> (r: Vec<(usize, usize)>)
    requires
        all_valid(all_aabbs@),
    ensures
        candidate_pairs(all_aabbs@, r@),
        pipeline_result(all_aabbs@, cut_off, r@),
{
    let mut indices = index_list(all_aabbs.len());
    let ghost idx = indices@;
    let bvh = parallel_build_bvh(&mut indices, all_aabbs, cut_off);
    let pairs = parallel_broad_phase_check(&bvh, &bvh);
    proof {
        lemma_candidates(*bvh, all_aabbs@, idx, pairs@);
        assert(build_result(all_indices(all_aabbs@.len()), indices@, all_aabbs@, cut_off, *bvh));
        assert(pairs_reached(*bvh, *bvh, pairs@));
        assert(pairs@.to_multiset() == reached_pairs(*bvh, *bvh));
    }
    pairs
}

proof fn lemma_candidates(t: BVHNode, aabbs: Seq<AABB>, idx: Seq<usize>, r: Seq<(usize, usize)>)
    requires
        aabbs.len() <= usize::MAX,
        idx == all_indices(aabbs.len()),
        t.wf(aabbs),
        t.leaves().to_multiset() == idx.to_multiset(),
        broad_phase_result(t, t, r),
    ensures
        candidate_pairs(aabbs, r),
{
    assert forall|p: int, q: int| 0 <= p < idx.len() && 0 <= q < idx.len() && p != q implies idx[p] != idx[q] by {
        assert(idx[p] == p as usize && idx[q] == q as usize);
    }
    lemma_leaves_partition(t, idx);
    assert forall|k: int| 0 <= k < r.len() implies (#[trigger] r[k]).0 < r[k].1 && r[k].1 < aabbs.len() by {
        assert(t.leaves().contains(r[k].1));
        assert(t.leaves().to_multiset().count(r[k].1) > 0);
        assert(idx.contains(r[k].1));
    }
    assert forall|i: usize, j: usize|
        i < j < aabbs.len() && #[trigger] overlaps(aabbs[i as int], aabbs[j as int]) implies r.contains((i, j)) by {
        assert(idx[i as int] == i);
        assert(idx[j as int] == j);
        assert(idx.to_multiset().count(i) > 0);
        assert(idx.to_multiset().count(j) > 0);
        lemma_broad_phase_complete(t, aabbs, r, i, j);
    }
}

/// Every index of a duplicate-free input lies in exactly one leaf of a tree built over it.
pub proof fn lemma_leaves_partition(t: BVHNode, idx: Seq<usize>)
    requires
        t.leaves().to_multiset() == idx.to_multiset(),
        idx.no_duplicates(),
    ensures
        t.leaves().no_duplicates(),
        forall|i: usize| t.leaves().contains(i) <==> idx.contains(i),
{
    idx.lemma_multiset_has_no_duplicates();
    t.leaves().lemma_multiset_has_no_duplicates_conv();
    assert forall|i: usize| t.leaves().contains(i) <==> idx.contains(i) by {
        assert(t.leaves().contains(i) <==> t.leaves().to_multiset().count(i) > 0);
        assert(idx.contains(i) <==> idx.to_multiset().count(i) > 0);
    }
}

/// A well-formed tree places each of its indices under boxes that hold the index's box.
pub(crate) proof fn lemma_wf_places(t: BVHNode, aabbs: Seq<AABB>, i: usize)
    requires
        t.wf(aabbs),
        t.leaves().contains(i),
    ensures
        t.places(i, aabbs[i as int]),
    decreases t,
{
    match t {
        BVHNode::Leaf(l) => {
            let k = choose|k: int| 0 <= k < l.shape_indices@.len() && #[trigger] l.shape_indices@[k] == i;
            lemma_enclosing_holds_members(l.shape_indices@, aabbs, k);
        },
        BVHNode::Internal(n) => {
            let ll = n.left.leaves();
            let rl = n.right.leaves();
            let k = choose|k: int| 0 <= k < (ll + rl).len() && #[trigger] (ll + rl)[k] == i;
            if k < ll.len() {
                assert(ll[k] == i);
                lemma_wf_places(*n.left, aabbs, i);
            } else {
                assert(rl[k - ll.len()] == i);
                lemma_wf_places(*n.right, aabbs, i);
            }
        },
    }
}

/// Broad phase over a well-formed tree against itself reports every pair of its indices
/// whose boxes overlap.
pub proof fn lemma_broad_phase_complete(t: BVHNode, aabbs: Seq<AABB>, r: Seq<(usize, usize)>, i: usize, j: usize)
    requires
        t.wf(aabbs),
        broad_phase_result(t, t, r),
        t.leaves().contains(i),
        t.leaves().contains(j),
        i < j,
        overlaps(aabbs[i as int], aabbs[j as int]),
    ensures
        r.contains((i, j)),
{
    lemma_wf_places(t, aabbs, i);
    lemma_wf_places(t, aabbs, j);
}

/// Broad phase over a tree against itself reports only pairs `(i, j)` with `i < j`, and
/// none twice when no index repeats in the tree.
pub proof fn lemma_broad_phase_no_duplicates(t: BVHNode, r: Seq<(usize, usize)>)
    requires
        broad_phase_result(t, t, r),
        t.leaves().no_duplicates(),
    ensures
        r.no_duplicates(),
        forall|k: int| 0 <= k < r.len() ==> (#[trigger] r[k]).0 < r[k].1,
{
}

/// With no shape or one shape there is no candidate pair.
pub proof fn lemma_few_shapes_no_pairs(aabbs: Seq<AABB>, r: Seq<(usize, usize)>)
    requires
        candidate_pairs(aabbs, r),
        aabbs.len() <= 1,
    ensures
        r.len() == 0,
{
    if r.len() > 0 {
        assert(r[0].0 < r[0].1 && r[0].1 < aabbs.len());
    }
}

/// A tree that is one leaf, traversed against itself, reports every pair `(i, j)`, `i < j`,
/// of its indices.
pub proof fn lemma_single_leaf_all_pairs(t: BVHNode, aabbs: Seq<AABB>, r: Seq<(usize, usize)>, i: usize, j: usize)
    requires
        t is Leaf,
        t.wf(aabbs),
        all_valid(aabbs),
        broad_phase_result(t, t, r),
        t.leaves().contains(i),
        t.leaves().contains(j),
        i < j,
    ensures
        r.contains((i, j)),
{
    let l = t->Leaf_0;
    let k = choose|k: int| 0 <= k < l.shape_indices@.len() && #[trigger] l.shape_indices@[k] == i;
    lemma_enclosing_holds_members(l.shape_indices@, aabbs, k);
    assert(valid_box(aabbs[i as int]));
    assert(t.places(i, l.aabb));
    assert(t.places(j, l.aabb));
}

/// When the leaf size bound is at least the number of indices, the tree is one leaf over
/// them all, and its traversal against itself reports every pair `(i, j)`, `i < j`, of them.
pub proof fn lemma_large_cut_off(
    idx: Seq<usize>,
    out: Seq<usize>,
    aabbs: Seq<AABB>,
    cut_off: usize,
    t: BVHNode,
    r: Seq<(usize, usize)>,
)
    requires
        build_result(idx, out, aabbs, cut_off, t),
        all_valid(aabbs),
        idx.len() <= cut_off,
        broad_phase_result(t, t, r),
    ensures
        t is Leaf,
        t.leaves() == idx,
        forall|i: usize, j: usize| idx.contains(i) && idx.contains(j) && i < j ==> #[trigger] r.contains((i, j)),
{
    assert forall|i: usize, j: usize| idx.contains(i) && idx.contains(j) && i < j implies #[trigger] r.contains((i, j)) by {
        lemma_single_leaf_all_pairs(t, aabbs, r, i, j);
    }
}

/// The enclosing box of a list whose boxes are all `b` is `b`.
proof fn lemma_enclosing_same(idx: Seq<usize>, aabbs: Seq<AABB>, b: AABB)
    requires
        idx.len() > 0,
        forall|k: int| 0 <= k < idx.len() ==> aabbs[#[trigger] idx[k] as int] == b,
    ensures
        enclosing(idx, aabbs) == b,
    decreases idx.len(),
{
    if idx.len() > 1 {
        lemma_enclosing_same(idx.drop_last(), aabbs, b);
        assert(aabbs[idx[idx.len() - 1] as int] == b);
    } else {
        assert(aabbs[idx[0] as int] == b);
    }
}

/// When all the boxes coincide, no split can be made: the tree is one leaf over all the
/// indices whatever the leaf size bound.
pub proof fn lemma_coincident_one_leaf(
    idx: Seq<usize>,
    out: Seq<usize>,
    aabbs: Seq<AABB>,
    cut_off: usize,
    t: BVHNode,
    b: AABB,
)
    requires
        build_result(idx, out, aabbs, cut_off, t),
        idx.len() > 0,
        forall|k: int| 0 <= k < idx.len() ==> aabbs[#[trigger] idx[k] as int] == b,
    ensures
        unsplittable(idx, aabbs),
        t is Leaf,
        t.leaves() == idx,
{
    lemma_enclosing_same(idx, aabbs, b);
    let axis = longest_axis(b);
    assert forall|k: int| 0 <= k < idx.len() implies !below(aabbs, #[trigger] idx[k], axis, split_plane(idx, aabbs)) by {
        assert(aabbs[idx[k] as int] == b);
    }
}

/// When all the boxes coincide, the tree is one leaf over all the indices whatever the leaf
/// size bound, and its traversal against itself reports every pair `(i, j)`, `i < j`, of
/// them.
pub proof fn lemma_coincident_boxes(
    idx: Seq<usize>,
    out: Seq<usize>,
    aabbs: Seq<AABB>,
    cut_off: usize,
    t: BVHNode,
    r: Seq<(usize, usize)>,
    b: AABB,
)
    requires
        build_result(idx, out, aabbs, cut_off, t),
        all_valid(aabbs),
        idx.len() > 0,
        forall|k: int| 0 <= k < idx.len() ==> aabbs[#[trigger] idx[k] as int] == b,
        broad_phase_result(t, t, r),
    ensures
        unsplittable(idx, aabbs),
        t is Leaf,
        t.leaves() == idx,
        forall|i: usize, j: usize| idx.contains(i) && idx.contains(j) && i < j ==> #[trigger] r.contains((i, j)),
{
    lemma_coincident_one_leaf(idx, out, aabbs, cut_off, t, b);
    assert forall|i: usize, j: usize| idx.contains(i) && idx.contains(j) && i < j implies #[trigger] r.contains((i, j)) by {
        lemma_single_leaf_all_pairs(t, aabbs, r, i, j);
    }
}

/// With the leaf size bound at least the number of shapes, the pipeline reports every pair
/// `(i, j)`, `i < j`, of shapes once and nothing else: `n (n - 1) / 2` pairs.
pub proof fn lemma_pipeline_large_cut_off(aabbs: Seq<AABB>, cut_off: usize, r: Seq<(usize, usize)>)
    requires
        aabbs.len() <= usize::MAX,
        all_valid(aabbs),
        aabbs.len() <= cut_off,
        pipeline_result(aabbs, cut_off, r),
    ensures
        forall|i: usize, j: usize| #[trigger] r.contains((i, j)) <==> i < j < aabbs.len(),
        2 * r.len() == aabbs.len() * (aabbs.len() - 1),
{
    let idx = all_indices(aabbs.len());
    let (t, out) = choose|t: BVHNode, out: Seq<usize>|
        #[trigger] build_result(idx, out, aabbs, cut_off, t) && pairs_reached(t, t, r)
            && r.to_multiset() == reached_pairs(t, t);
    lemma_whole_leaf(aabbs, cut_off, r, t, out);
}

/// When all the boxes coincide, the pipeline reports every pair `(i, j)`, `i < j`, of
/// shapes once and nothing else, whatever the leaf size bound: `n (n - 1) / 2` pairs.
pub proof fn lemma_pipeline_coincident(aabbs: Seq<AABB>, cut_off: usize, r: Seq<(usize, usize)>, b: AABB)
    requires
        aabbs.len() <= usize::MAX,
        all_valid(aabbs),
        forall|k: int| 0 <= k < aabbs.len() ==> #[trigger] aabbs[k] == b,
        pipeline_result(aabbs, cut_off, r),
    ensures
        forall|i: usize, j: usize| #[trigger] r.contains((i, j)) <==> i < j < aabbs.len(),
        2 * r.len() == aabbs.len() * (aabbs.len() - 1),
{
    let idx = all_indices(aabbs.len());
    let (t, out) = choose|t: BVHNode, out: Seq<usize>|
        #[trigger] build_result(idx, out, aabbs, cut_off, t) && pairs_reached(t, t, r)
            && r.to_multiset() == reached_pairs(t, t);
    if aabbs.len() > 0 {
        assert forall|k: int| 0 <= k < idx.len() implies aabbs[#[trigger] idx[k] as int] == b by {
            assert(aabbs[k] == b);
        }
        lemma_coincident_one_leaf(idx, out, aabbs, cut_off, t, b);
    }
    lemma_whole_leaf(aabbs, cut_off, r, t, out);
}

/// A tree that is one leaf over all the shapes reaches every pair of them.
proof fn lemma_whole_leaf(aabbs: Seq<AABB>, cut_off: usize, r: Seq<(usize, usize)>, t: BVHNode, out: Seq<usize>)
    requires
        aabbs.len() <= usize::MAX,
        all_valid(aabbs),
        build_result(all_indices(aabbs.len()), out, aabbs, cut_off, t),
        pairs_reached(t, t, r),
        r.to_multiset() == reached_pairs(t, t),
        t is Leaf || aabbs.len() == 0,
    ensures
        forall|i: usize, j: usize| #[trigger] r.contains((i, j)) <==> i < j < aabbs.len(),
        2 * r.len() == aabbs.len() * (aabbs.len() - 1),
{
    let idx = all_indices(aabbs.len());
    lemma_whole_leaf_count(aabbs, cut_off, r, t, out);
    if aabbs.len() == 0 {
        assert forall|i: usize, j: usize| #[trigger] r.contains((i, j)) implies i < j < aabbs.len() by {
            vstd::seq_lib::to_multiset_len(t.leaves());
            vstd::seq_lib::to_multiset_len(idx);
            assert(reaches(t, t, i, j));
            lemma_reached_in_leaves(t, t, i, j);
        }
    } else {
        assert(t.leaves() == idx);
        let l = t->Leaf_0;
        lemma_enclosing_holds_members(idx, aabbs, 0);
        assert(valid_box(aabbs[idx[0] as int]));
        assert(overlaps(t.spec_aabb(), t.spec_aabb()));
        assert forall|i: usize, j: usize| #[trigger] r.contains((i, j)) <==> i < j < aabbs.len() by {
            if i < j < aabbs.len() {
                assert(idx[i as int] == i);
                assert(idx[j as int] == j);
            }
            if r.contains((i, j)) {
                let p = choose|p: int| 0 <= p < idx.len() && #[trigger] idx[p] == j;
            }
        }
    }
}

/// A reached pair has its indices in the leaves of the two trees.
pub(crate) proof fn lemma_reached_in_leaves(s1: BVHNode, s2: BVHNode, i: usize, j: usize)
    requires
        reaches(s1, s2, i, j),
    ensures
        s1.leaves().contains(i),
        s2.leaves().contains(j),
        i < j,
    decreases s1, s2,
{
    match (s1, s2) {
        (BVHNode::Leaf(_), BVHNode::Leaf(_)) => {},
        (BVHNode::Leaf(_), BVHNode::Internal(n2)) => {
            if reaches(s1, *n2.left, i, j) {
                lemma_reached_in_leaves(s1, *n2.left, i, j);
                lemma_concat_contains_left(n2.left.leaves(), n2.right.leaves(), j);
            } else {
                lemma_reached_in_leaves(s1, *n2.right, i, j);
                lemma_concat_contains_right(n2.left.leaves(), n2.right.leaves(), j);
            }
        },
        (BVHNode::Internal(n1), BVHNode::Leaf(_)) => {
            if reaches(*n1.left, s2, i, j) {
                lemma_reached_in_leaves(*n1.left, s2, i, j);
                lemma_concat_contains_left(n1.left.leaves(), n1.right.leaves(), i);
            } else {
                lemma_reached_in_leaves(*n1.right, s2, i, j);
                lemma_concat_contains_right(n1.left.leaves(), n1.right.leaves(), i);
            }
        },
        (BVHNode::Internal(n1), BVHNode::Internal(n2)) => {
            let (c1, c2) = if reaches(*n1.left, *n2.left, i, j) {
                (*n1.left, *n2.left)
            } else if reaches(*n1.left, *n2.right, i, j) {
                (*n1.left, *n2.right)
            } else if reaches(*n1.right, *n2.left, i, j) {
                (*n1.right, *n2.left)
            } else {
                (*n1.right, *n2.right)
            };
            lemma_reached_in_leaves(c1, c2, i, j);
            if c1 == *n1.left {
                lemma_concat_contains_left(n1.left.leaves(), n1.right.leaves(), i);
            } else {
                lemma_concat_contains_right(n1.left.leaves(), n1.right.leaves(), i);
            }
            if c2 == *n2.left {
                lemma_concat_contains_left(n2.left.leaves(), n2.right.leaves(), j);
            } else {
                lemma_concat_contains_right(n2.left.leaves(), n2.right.leaves(), j);
            }
        },
    }
}

proof fn lemma_concat_contains_left(a: Seq<usize>, b: Seq<usize>, x: usize)
    requires
        a.contains(x),
    ensures
        (a + b).contains(x),
{
    let k = choose|k: int| 0 <= k < a.len() && #[trigger] a[k] == x;
    assert((a + b)[k] == x);
}

proof fn lemma_concat_contains_right(a: Seq<usize>, b: Seq<usize>, x: usize)
    requires
        b.contains(x),
    ensures
        (a + b).contains(x),
{
    let k = choose|k: int| 0 <= k < b.len() && #[trigger] b[k] == x;
    assert((a + b)[k + a.len()] == x);
}

/// Two trees of the same shape: equal boxes at every node, and leaves in the same places
/// that hold the same indices, each as often.
pub open spec fn same_tree(t1: BVHNode, t2: BVHNode) -> bool
    decreases t1, t2,
{
    &&& t1.spec_aabb() == t2.spec_aabb()
    &&& match (t1, t2) {
        (BVHNode::Leaf(l1), BVHNode::Leaf(l2)) => l1.shape_indices@.to_multiset() == l2.shape_indices@.to_multiset(),
        (BVHNode::Internal(n1), BVHNode::Internal(n2)) => same_tree(*n1.left, *n2.left) && same_tree(*n1.right, *n2.right),
        _ => false,
    }
}

/// Trees that the build rules allow over the same indices have the same shape: the rules fix
/// every node but the order of indices within a leaf.
pub proof fn lemma_build_shape_unique(t1: BVHNode, t2: BVHNode, aabbs: Seq<AABB>, cut_off: usize)
    requires
        t1.wf(aabbs),
        t2.wf(aabbs),
        t1.median_split(aabbs),
        t2.median_split(aabbs),
        t1.leaves_small(cut_off, aabbs),
        t2.leaves_small(cut_off, aabbs),
        t1.leaves().to_multiset() == t2.leaves().to_multiset(),
    ensures
        same_tree(t1, t2),
    decreases t1,
{
    let l1 = t1.leaves();
    let l2 = t2.leaves();
    vstd::seq_lib::to_multiset_len(l1);
    vstd::seq_lib::to_multiset_len(l2);
    t1.lemma_aabb_encloses_leaves(aabbs);
    t2.lemma_aabb_encloses_leaves(aabbs);
    lemma_leaves_empty_is_leaf(t1, aabbs);
    lemma_leaves_empty_is_leaf(t2, aabbs);
    if l1.len() > 0 {
        lemma_enclosing_perm(l1, l2, aabbs);
    }
    match (t1, t2) {
        (BVHNode::Leaf(_), BVHNode::Leaf(_)) => {},
        (BVHNode::Leaf(_), BVHNode::Internal(_)) => {
            lemma_internal_splittable(t2, t1, aabbs, cut_off);
        },
        (BVHNode::Internal(_), BVHNode::Leaf(_)) => {
            lemma_internal_splittable(t1, t2, aabbs, cut_off);
        },
        (BVHNode::Internal(n1), BVHNode::Internal(n2)) => {
            let axis = longest_axis(n1.aabb);
            let m = center_twice(n1.aabb, axis);
            lemma_side_multiset(n1.left.leaves(), n1.right.leaves(), n2.left.leaves(), n2.right.leaves(), aabbs, axis, m);
            lemma_build_shape_unique(*n1.left, *n2.left, aabbs, cut_off);
            lemma_build_shape_unique(*n1.right, *n2.right, aabbs, cut_off);
        },
    }
}

/// A well-formed tree without indices is a leaf.
proof fn lemma_leaves_empty_is_leaf(t: BVHNode, aabbs: Seq<AABB>)
    requires
        t.wf(aabbs),
    ensures
        t.leaves().len() == 0 ==> t is Leaf,
{
}

/// A leaf over the indices of an internal node that the build rules allow breaks the leaf
/// rule.
proof fn lemma_internal_splittable(ti: BVHNode, tl: BVHNode, aabbs: Seq<AABB>, cut_off: usize)
    requires
        ti is Internal,
        tl is Leaf,
        ti.wf(aabbs),
        ti.median_split(aabbs),
        ti.leaves_small(cut_off, aabbs),
        ti.leaves().to_multiset() == tl.leaves().to_multiset(),
        ti.spec_aabb() == enclosing(tl.leaves(), aabbs),
    ensures
        !tl.leaves_small(cut_off, aabbs),
{
    let n = ti->Internal_0;
    let li = ti.leaves();
    let ll = tl.leaves();
    vstd::seq_lib::to_multiset_len(li);
    vstd::seq_lib::to_multiset_len(ll);
    let axis = longest_axis(n.aabb);
    let m = center_twice(n.aabb, axis);
    let lo = n.left.leaves()[0];
    let hi = n.right.leaves()[0];
    assert(below(aabbs, lo, axis, m));
    assert(!below(aabbs, hi, axis, m));
    assert(li[0] == lo);
    assert(li[n.left.leaves().len() as int] == hi);
    assert(li.contains(lo) && li.contains(hi));
    assert(li.to_multiset().count(lo) > 0 && li.to_multiset().count(hi) > 0);
    assert(ll.contains(lo) && ll.contains(hi));
    let klo = choose|k: int| 0 <= k < ll.len() && #[trigger] ll[k] == lo;
    let khi = choose|k: int| 0 <= k < ll.len() && #[trigger] ll[k] == hi;
    assert(below(aabbs, ll[klo], axis, m));
    assert(!below(aabbs, ll[khi], axis, m));
}

/// Splits of two lists with the same indices at the same plane put the same indices on
/// each side.
proof fn lemma_side_multiset(
    a1: Seq<usize>,
    b1: Seq<usize>,
    a2: Seq<usize>,
    b2: Seq<usize>,
    aabbs: Seq<AABB>,
    axis: int,
    m: int,
)
    requires
        (a1 + b1).to_multiset() == (a2 + b2).to_multiset(),
        forall|k: int| 0 <= k < a1.len() ==> below(aabbs, #[trigger] a1[k], axis, m),
        forall|k: int| 0 <= k < b1.len() ==> !below(aabbs, #[trigger] b1[k], axis, m),
        forall|k: int| 0 <= k < a2.len() ==> below(aabbs, #[trigger] a2[k], axis, m),
        forall|k: int| 0 <= k < b2.len() ==> !below(aabbs, #[trigger] b2[k], axis, m),
    ensures
        a1.to_multiset() == a2.to_multiset(),
        b1.to_multiset() == b2.to_multiset(),
{
    broadcast use vstd::seq_lib::lemma_multiset_commutative;
    broadcast use vstd::multiset::group_multiset_axioms;

    assert forall|x: usize| #[trigger] a1.to_multiset().count(x) == a2.to_multiset().count(x)
        && b1.to_multiset().count(x) == b2.to_multiset().count(x) by {
        assert((a1 + b1).to_multiset().count(x) == a1.to_multiset().count(x) + b1.to_multiset().count(x));
        assert((a2 + b2).to_multiset().count(x) == a2.to_multiset().count(x) + b2.to_multiset().count(x));
        if below(aabbs, x, axis, m) {
            if b1.contains(x) {
                let k = choose|k: int| 0 <= k < b1.len() && #[trigger] b1[k] == x;
            }
            if b2.contains(x) {
                let k = choose|k: int| 0 <= k < b2.len() && #[trigger] b2[k] == x;
            }
            assert(b1.to_multiset().count(x) == 0);
            assert(b2.to_multiset().count(x) == 0);
        } else {
            if a1.contains(x) {
                let k = choose|k: int| 0 <= k < a1.len() && #[trigger] a1[k] == x;
            }
            if a2.contains(x) {
                let k = choose|k: int| 0 <= k < a2.len() && #[trigger] a2[k] == x;
            }
            assert(a1.to_multiset().count(x) == 0);
            assert(a2.to_multiset().count(x) == 0);
        }
    }
    assert(a1.to_multiset() =~= a2.to_multiset());
    assert forall|x: usize| #[trigger] b1.to_multiset().count(x) == b2.to_multiset().count(x) by {
        assert(a1.to_multiset().count(x) == a2.to_multiset().count(x));
    }
    assert(b1.to_multiset() =~= b2.to_multiset());
}

/// Trees of the same shape reach the same pairs.
pub proof fn lemma_same_tree_reaches(a1: BVHNode, a2: BVHNode, b1: BVHNode, b2: BVHNode, i: usize, j: usize)
    requires
        same_tree(a1, a2),
        same_tree(b1, b2),
    ensures
        reaches(a1, b1, i, j) <==> reaches(a2, b2, i, j),
    decreases a1, b1,
{
    match (a1, b1) {
        (BVHNode::Leaf(x1), BVHNode::Leaf(y1)) => {
            let x2 = a2->Leaf_0;
            let y2 = b2->Leaf_0;
            assert(x1.shape_indices@.contains(i) <==> x1.shape_indices@.to_multiset().count(i) > 0);
            assert(x2.shape_indices@.contains(i) <==> x2.shape_indices@.to_multiset().count(i) > 0);
            assert(y1.shape_indices@.contains(j) <==> y1.shape_indices@.to_multiset().count(j) > 0);
            assert(y2.shape_indices@.contains(j) <==> y2.shape_indices@.to_multiset().count(j) > 0);
        },
        (BVHNode::Leaf(_), BVHNode::Internal(m1)) => {
            let m2 = b2->Internal_0;
            lemma_same_tree_reaches(a1, a2, *m1.left, *m2.left, i, j);
            lemma_same_tree_reaches(a1, a2, *m1.right, *m2.right, i, j);
        },
        (BVHNode::Internal(n1), BVHNode::Leaf(_)) => {
            let n2 = a2->Internal_0;
            lemma_same_tree_reaches(*n1.left, *n2.left, b1, b2, i, j);
            lemma_same_tree_reaches(*n1.right, *n2.right, b1, b2, i, j);
        },
        (BVHNode::Internal(n1), BVHNode::Internal(m1)) => {
            let n2 = a2->Internal_0;
            let m2 = b2->Internal_0;
            lemma_same_tree_reaches(*n1.left, *n2.left, *m1.left, *m2.left, i, j);
            lemma_same_tree_reaches(*n1.left, *n2.left, *m1.right, *m2.right, i, j);
            lemma_same_tree_reaches(*n1.right, *n2.right, *m1.left, *m2.left, i, j);
            lemma_same_tree_reaches(*n1.right, *n2.right, *m1.right, *m2.right, i, j);
        },
    }
}

/// Building over any two orderings of the same indices and traversing each tree against
/// itself yields the same pairs.
pub proof fn lemma_reordered_build_same_pairs(
    idx1: Seq<usize>,
    idx2: Seq<usize>,
    out1: Seq<usize>,
    out2: Seq<usize>,
    aabbs: Seq<AABB>,
    cut_off: usize,
    t1: BVHNode,
    t2: BVHNode,
    r1: Seq<(usize, usize)>,
    r2: Seq<(usize, usize)>,
)
    requires
        idx1.to_multiset() == idx2.to_multiset(),
        build_result(idx1, out1, aabbs, cut_off, t1),
        build_result(idx2, out2, aabbs, cut_off, t2),
        pairs_reached(t1, t1, r1),
        pairs_reached(t2, t2, r2),
    ensures
        forall|p: (usize, usize)| #[trigger] r1.contains(p) <==> r2.contains(p),
{
    lemma_build_shape_unique(t1, t2, aabbs, cut_off);
    assert forall|p: (usize, usize)| #[trigger] r1.contains(p) <==> r2.contains(p) by {
        lemma_same_tree_reaches(t1, t2, t1, t2, p.0, p.1);
        assert(r1.contains((p.0, p.1)) <==> reaches(t1, t1, p.0, p.1));
        assert(r2.contains((p.0, p.1)) <==> reaches(t2, t2, p.0, p.1));
    }
}

/// The serial and the parallel pipeline, or one pipeline run twice, on the same boxes and
/// leaf size bound report the same pairs, each once.
pub proof fn lemma_pipelines_same_pairs(aabbs: Seq<AABB>, cut_off: usize, r1: Seq<(usize, usize)>, r2: Seq<(usize, usize)>)
    requires
        pipeline_result(aabbs, cut_off, r1),
        pipeline_result(aabbs, cut_off, r2),
        candidate_pairs(aabbs, r1),
        candidate_pairs(aabbs, r2),
    ensures
        r1.to_multiset() == r2.to_multiset(),
{
    let idx = all_indices(aabbs.len());
    let (t1, o1) = choose|t: BVHNode, out: Seq<usize>|
        #[trigger] build_result(idx, out, aabbs, cut_off, t) && pairs_reached(t, t, r1)
            && r1.to_multiset() == reached_pairs(t, t);
    let (t2, o2) = choose|t: BVHNode, out: Seq<usize>|
        #[trigger] build_result(idx, out, aabbs, cut_off, t) && pairs_reached(t, t, r2)
            && r2.to_multiset() == reached_pairs(t, t);
    lemma_reordered_build_same_pairs(idx, idx, o1, o2, aabbs, cut_off, t1, t2, r1, r2);
    r1.lemma_multiset_has_no_duplicates();
    r2.lemma_multiset_has_no_duplicates();
    assert forall|p: (usize, usize)| #[trigger] r1.to_multiset().count(p) == r2.to_multiset().count(p) by {
        vstd::seq_lib::to_multiset_contains(r1, p);
        vstd::seq_lib::to_multiset_contains(r2, p);
    }
    assert(r1.to_multiset() =~= r2.to_multiset());
}

/// How many pairs a tree that is one leaf over all the shapes emits against itself.
proof fn lemma_whole_leaf_count(aabbs: Seq<AABB>, cut_off: usize, r: Seq<(usize, usize)>, t: BVHNode, out: Seq<usize>)
    requires
        aabbs.len() <= usize::MAX,
        all_valid(aabbs),
        build_result(all_indices(aabbs.len()), out, aabbs, cut_off, t),
        r.to_multiset() == reached_pairs(t, t),
        t is Leaf || aabbs.len() == 0,
    ensures
        2 * r.len() == aabbs.len() * (aabbs.len() - 1),
{
    broadcast use vstd::seq_lib::group_to_multiset_ensures;
    broadcast use vstd::multiset::group_multiset_axioms;

    let n = aabbs.len();
    let idx = all_indices(n);
    assert(r.len() == r.to_multiset().len());
    if n == 0 {
        assert(idx =~= Seq::<usize>::empty());
        assert(t is Leaf);
        assert(leaf_pair_multiset(t.leaves(), t.leaves()) == Multiset::<(usize, usize)>::empty());
        assert(r.to_multiset().len() == 0);
    } else {
        assert(t.leaves() == idx);
        let l = t->Leaf_0;
        lemma_enclosing_holds_members(idx, aabbs, 0);
        assert(valid_box(aabbs[idx[0] as int]));
        assert(overlaps(t.spec_aabb(), t.spec_aabb()));
        assert(reached_pairs(t, t) == leaf_pair_multiset(idx, idx));
        lemma_leaf_pairs_len(n, n);
        let len = r.len();
        assert(2 * len == n * (n - 1)) by (nonlinear_arith)
            requires
                2 * len == 2 * n * n - n * (n + 1),
        ;
    }
}

/// The pairs `(i, j)`, `i < j < n`, with `i` below `a`: `a n - a (a + 1) / 2` of them.
proof fn lemma_leaf_pairs_len(a: nat, n: nat)
    requires
        a <= n <= usize::MAX,
    ensures
        2 * leaf_pair_multiset(all_indices(a), all_indices(n)).len() == 2 * a * n - a * (a + 1),
    decreases a,
{
    broadcast use vstd::multiset::group_multiset_axioms;

    if a > 0 {
        let s = all_indices(a);
        assert(s.drop_last() =~= all_indices((a - 1) as nat));
        assert(s.last() == (a - 1) as usize);
        lemma_leaf_pairs_len((a - 1) as nat, n);
        lemma_row_len((a - 1) as usize, n, n);
        let prev = leaf_pair_multiset(all_indices((a - 1) as nat), all_indices(n)).len();
        let row = row_multiset((a - 1) as usize, all_indices(n));
        assert(row.len() == n - a);
        assert(leaf_pair_multiset(s, all_indices(n)) == leaf_pair_multiset(all_indices((a - 1) as nat), all_indices(n)).add(row));
        assert(leaf_pair_multiset(s, all_indices(n)).len() == prev + (n - a));
        assert(2 * prev == 2 * (a - 1) * n - (a - 1) * a);
        assert(2 * (prev + (n - a)) == 2 * a * n - a * (a + 1)) by (nonlinear_arith)
            requires
                2 * prev == 2 * (a - 1) * n - (a - 1) * a,
                a > 0,
                a <= n,
        ;
        assert(2 * leaf_pair_multiset(s, all_indices(n)).len() == 2 * a * n - a * (a + 1));
    } else {
        assert(all_indices(0) =~= Seq::<usize>::empty());
        assert(leaf_pair_multiset(all_indices(0), all_indices(n)).len() == 0);
        assert(2 * a * n - a * (a + 1) == 0) by (nonlinear_arith)
            requires
                a == 0,
        ;
    }
}

/// The pairs `(i, j)`, `i < j`, with `j` below `b`: `b - 1 - i` of them when `i + 1 < b`.
proof fn lemma_row_len(i: usize, b: nat, n: nat)
    requires
        b <= n <= usize::MAX,
    ensures
        row_multiset(i, all_indices(b)).len() == if i + 1 < b { b - 1 - i } else { 0 },
    decreases b,
{
    broadcast use vstd::multiset::group_multiset_axioms;

    if b > 0 {
        let s = all_indices(b);
        assert(s.drop_last() =~= all_indices((b - 1) as nat));
        assert(s.last() == (b - 1) as usize);
        lemma_row_len(i, (b - 1) as nat, n);
    } else {
        assert(all_indices(0) =~= Seq::<usize>::empty());
    }
}

impl BVHNode {
    /// Every leaf holds at most `k` indices.
    pub open spec fn leaves_at_most(self, k: nat) -> bool
        decreases self,
    {
        match self {
            BVHNode::Internal(n) => n.left.leaves_at_most(k) && n.right.leaves_at_most(k),
            BVHNode::Leaf(l) => l.shape_indices@.len() <= k,
        }
    }
}

/// Every list of two or more distinct indices of `idx` can be split at its spatial median.
pub open spec fn always_splittable(idx: Seq<usize>, aabbs: Seq<AABB>) -> bool {
    forall|s: Seq<usize>|
        s.len() >= 2 && s.no_duplicates() && (forall|k: int| 0 <= k < s.len() ==> idx.contains(#[trigger] s[k]))
            ==> !#[trigger] unsplittable(s, aabbs)
}

/// With leaf size bound 1, a duplicate-free input whose every part can be split is expanded
/// fully: each leaf holds at most one index, and every index has a leaf of its own.
pub proof fn lemma_unit_cut_off_expands(
    idx: Seq<usize>,
    out: Seq<usize>,
    aabbs: Seq<AABB>,
    t: BVHNode,
)
    requires
        build_result(idx, out, aabbs, 1, t),
        idx.no_duplicates(),
        always_splittable(idx, aabbs),
    ensures
        t.leaves_at_most(1),
        t.leaves().no_duplicates(),
        forall|i: usize| t.leaves().contains(i) <==> idx.contains(i),
{
    lemma_leaves_partition(t, idx);
    lemma_expanded(t, idx, aabbs);
}

proof fn lemma_expanded(t: BVHNode, idx: Seq<usize>, aabbs: Seq<AABB>)
    requires
        t.leaves_small(1, aabbs),
        t.leaves().no_duplicates(),
        forall|k: int| 0 <= k < t.leaves().len() ==> idx.contains(#[trigger] t.leaves()[k]),
        always_splittable(idx, aabbs),
    ensures
        t.leaves_at_most(1),
    decreases t,
{
    match t {
        BVHNode::Internal(n) => {
            let a = n.left.leaves();
            let b = n.right.leaves();
            lemma_concat_no_dup_parts(a, b);
            assert forall|k: int| 0 <= k < a.len() implies idx.contains(#[trigger] a[k]) by {
                assert((a + b)[k] == a[k]);
            }
            assert forall|k: int| 0 <= k < b.len() implies idx.contains(#[trigger] b[k]) by {
                assert((a + b)[k + a.len()] == b[k]);
            }
            lemma_expanded(*n.left, idx, aabbs);
            lemma_expanded(*n.right, idx, aabbs);
        },
        BVHNode::Leaf(l) => {
            let s = l.shape_indices@;
            if s.len() >= 2 {
                assert(!unsplittable(s, aabbs));
            }
        },
    }
}

} // verus!
