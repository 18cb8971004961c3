//! What a broad-phase traversal of two hierarchies emits, and the pieces it is built from.
use vstd::prelude::*;
use vstd::multiset::Multiset;
use crate::aabb::{AABB, overlaps, lemma_overlap_grows};
use crate::structs::BVHNode;

verus! {

/// `r` is a broad-phase result for the trees `s1` and `s2`:
/// every pair `(i, j)` has `i < j`, `i` from a leaf of `s1` and `j` from a leaf of `s2`;
/// every such pair whose boxes, as the trees place them, overlap is present;
/// and no pair repeats when neither tree repeats an index.
pub open spec fn broad_phase_result(s1: BVHNode, s2: BVHNode, r: Seq<(usize, usize)>) -> bool {
    &&& forall|k: int|
        0 <= k < r.len() ==> {
            &&& (#[trigger] r[k]).0 < r[k].1
            &&& s1.leaves().contains(r[k].0)
            &&& s2.leaves().contains(r[k].1)
        }
    &&& forall|i: usize, j: usize, bi: AABB, bj: AABB|
        #![trigger s1.places(i, bi), s2.places(j, bj)]
        s1.places(i, bi) && s2.places(j, bj) && i < j && overlaps(bi, bj) ==> r.contains((i, j))
    &&& s1.leaves().no_duplicates() && s2.leaves().no_duplicates() ==> r.no_duplicates()
}

/// The pairs `(i, j)` with `j` from `is2` and `i < j`, one for each position of `j`.
pub open spec fn row_multiset(i: usize, is2: Seq<usize>) -> Multiset<(usize, usize)>
    decreases is2.len(),
{
    if is2.len() == 0 {
        Multiset::empty()
    } else if i < is2.last() {
        row_multiset(i, is2.drop_last()).insert((i, is2.last()))
    } else {
        row_multiset(i, is2.drop_last())
    }
}

/// The pairs `(i, j)` with `i` from `is1`, `j` from `is2` and `i < j`, one for each pair of
/// positions.
pub open spec fn leaf_pair_multiset(is1: Seq<usize>, is2: Seq<usize>) -> Multiset<(usize, usize)>
    decreases is1.len(),
{
    if is1.len() == 0 {
        Multiset::empty()
    } else {
        leaf_pair_multiset(is1.drop_last(), is2).add(row_multiset(is1.last(), is2))
    }
}

/// Every pair `(i, j)`, `i < j`, with `i` from `is1`, `j` from `is2` and `i < j`, each once when
/// neither list repeats an index.
pub fn leaf_pairs(is1: &Vec<usize>, is2: &Vec<usize>) -> (r: Vec<(usize, usize)>)
    ensures
        forall|i: usize, j: usize|
            #[trigger] r@.contains((i, j)) <==> is1@.contains(i) && is2@.contains(j) && i < j,
        is1@.no_duplicates() && is2@.no_duplicates() ==> r@.no_duplicates(),
        r@.to_multiset() == leaf_pair_multiset(is1@, is2@),
{
    broadcast use vstd::seq_lib::group_to_multiset_ensures;

    let ghost nd = is1@.no_duplicates() && is2@.no_duplicates();
    let mut out: Vec<(usize, usize)> = Vec::new();
    let mut a: usize = 0;
    while a < is1.len()
        invariant
            0 <= a <= is1@.len(),
            nd == (is1@.no_duplicates() && is2@.no_duplicates()),
            forall|i: usize, j: usize|
                #[trigger] out@.contains((i, j)) <==> is1@.subrange(0, a as int).contains(i)
                    && is2@.contains(j) && i < j,
            nd ==> out@.no_duplicates(),
            out@.to_multiset() == leaf_pair_multiset(is1@.subrange(0, a as int), is2@),
        decreases is1@.len() - a,
    {
        let i = is1[a];
        let mut b: usize = 0;
        while b < is2.len()
            invariant
                0 <= a < is1@.len(),
                0 <= b <= is2@.len(),
                i == is1@[a as int],
                nd == (is1@.no_duplicates() && is2@.no_duplicates()),
                forall|x: usize, y: usize|
                    #[trigger] out@.contains((x, y)) <==> (is1@.subrange(0, a as int).contains(x)
                        && is2@.contains(y) && x < y) || (x == i && is2@.subrange(0, b as int).contains(y)
                        && x < y),
                nd ==> out@.no_duplicates(),
                out@.to_multiset() == leaf_pair_multiset(is1@.subrange(0, a as int), is2@).add(
                    row_multiset(i, is2@.subrange(0, b as int)),
                ),
            decreases is2@.len() - b,
        {
            let j = is2[b];
            let ghost prev = out@;
            if i < j {
                proof {
                    if nd {
                        if prev.contains((i, j)) {
                            if is1@.subrange(0, a as int).contains(i) {
                                let p = choose|p: int| 0 <= p < a && #[trigger] is1@.subrange(0, a as int)[p] == i;
                                assert(is1@[p] == is1@[a as int]);
                            } else {
                                let q = choose|q: int| 0 <= q < b && #[trigger] is2@.subrange(0, b as int)[q] == j;
                                assert(is2@[q] == is2@[b as int]);
                            }
                        }
                    }
                }
                out.push((i, j));
                proof {
                    assert forall|x: usize, y: usize|
                        #[trigger] out@.contains((x, y)) <==> prev.contains((x, y)) || (x == i && y == j) by {
                        if out@.contains((x, y)) && !(x == i && y == j) {
                            let k = choose|k: int| 0 <= k < out@.len() && #[trigger] out@[k] == (x, y);
                            assert(prev[k] == (x, y));
                        }
                        if prev.contains((x, y)) {
                            let k = choose|k: int| 0 <= k < prev.len() && #[trigger] prev[k] == (x, y);
                            assert(out@[k] == (x, y));
                        }
                        if x == i && y == j {
                            assert(out@[prev.len() as int] == (x, y));
                        }
                    }
                }
            }
            proof {
                broadcast use vstd::multiset::group_multiset_axioms;

                let m = leaf_pair_multiset(is1@.subrange(0, a as int), is2@);
                let sub = is2@.subrange(0, b + 1);
                assert(sub.drop_last() =~= is2@.subrange(0, b as int));
                assert(sub.last() == j);
                if i < j {
                    assert(out@ == prev.push((i, j)));
                    prev.to_multiset_ensures();
                    assert(prev.push((i, j)).to_multiset() =~= prev.to_multiset().insert((i, j)));
                    assert(row_multiset(i, sub) == row_multiset(i, is2@.subrange(0, b as int)).insert((i, j)));
                } else {
                    assert(out@ == prev);
                }
                assert(out@.to_multiset() =~= leaf_pair_multiset(is1@.subrange(0, a as int), is2@).add(
                    row_multiset(i, is2@.subrange(0, b + 1)),
                ));
                assert forall|y: usize| #[trigger] is2@.subrange(0, b + 1).contains(y) <==> is2@.subrange(0, b as int).contains(y) || y == j by {
                    if is2@.subrange(0, b + 1).contains(y) && y != j {
                        let q = choose|q: int| 0 <= q < b + 1 && #[trigger] is2@.subrange(0, b + 1)[q] == y;
                        assert(is2@.subrange(0, b as int)[q] == y);
                    }
                    if is2@.subrange(0, b as int).contains(y) {
                        let q = choose|q: int| 0 <= q < b && #[trigger] is2@.subrange(0, b as int)[q] == y;
                        assert(is2@.subrange(0, b + 1)[q] == y);
                    }
                    if y == j {
                        assert(is2@.subrange(0, b + 1)[b as int] == y);
                    }
                }
            }
            b = b + 1;
        }
        proof {
            assert(is2@.subrange(0, is2@.len() as int) =~= is2@);
            assert(is1@.subrange(0, a + 1).drop_last() =~= is1@.subrange(0, a as int));
            assert forall|x: usize| #[trigger] is1@.subrange(0, a + 1).contains(x) <==> is1@.subrange(0, a as int).contains(x) || x == i by {
                if is1@.subrange(0, a + 1).contains(x) && x != i {
                    let p = choose|p: int| 0 <= p < a + 1 && #[trigger] is1@.subrange(0, a + 1)[p] == x;
                    assert(is1@.subrange(0, a as int)[p] == x);
                }
                if is1@.subrange(0, a as int).contains(x) {
                    let p = choose|p: int| 0 <= p < a && #[trigger] is1@.subrange(0, a as int)[p] == x;
                    assert(is1@.subrange(0, a + 1)[p] == x);
                }
                if x == i {
                    assert(is1@.subrange(0, a + 1)[a as int] == x);
                }
            }
        }
        a = a + 1;
    }
    proof {
        assert(is1@.subrange(0, is1@.len() as int) =~= is1@);
    }
    out
}

proof fn lemma_concat_contains<A>(a: Seq<A>, b: Seq<A>, x: A)
    ensures
        (a + b).contains(x) <==> a.contains(x) || b.contains(x),
{
    if (a + b).contains(x) {
        let k = choose|k: int| 0 <= k < (a + b).len() && #[trigger] (a + b)[k] == x;
        if k < a.len() {
            assert(a[k] == x);
        } else {
            assert(b[k - a.len()] == x);
        }
    }
    if a.contains(x) {
        let k = choose|k: int| 0 <= k < a.len() && #[trigger] a[k] == x;
        assert((a + b)[k] == x);
    }
    if b.contains(x) {
        let k = choose|k: int| 0 <= k < b.len() && #[trigger] b[k] == x;
        assert((a + b)[k + a.len()] == x);
    }
}

/// The two halves of a list without repeats have none and share nothing.
pub(crate) proof fn lemma_concat_no_dup_parts<A>(a: Seq<A>, b: Seq<A>)
    requires
        (a + b).no_duplicates(),
    ensures
        a.no_duplicates(),
        b.no_duplicates(),
        forall|x: A| a.contains(x) ==> !b.contains(x),
{
    assert forall|p: int, q: int| 0 <= p < q < a.len() implies a[p] != a[q] by {
        assert((a + b)[p] == a[p] && (a + b)[q] == a[q]);
    }
    assert forall|p: int, q: int| 0 <= p < q < b.len() implies b[p] != b[q] by {
        assert((a + b)[p + a.len()] == b[p] && (a + b)[q + a.len()] == b[q]);
    }
    assert forall|x: A| a.contains(x) implies !b.contains(x) by {
        let p = choose|p: int| 0 <= p < a.len() && #[trigger] a[p] == x;
        if b.contains(x) {
            let q = choose|q: int| 0 <= q < b.len() && #[trigger] b[q] == x;
            assert((a + b)[p] == (a + b)[q + a.len()]);
        }
    }
}

/// Two lists without repeats that share nothing join into one without repeats.
proof fn lemma_concat_no_dup<A>(a: Seq<A>, b: Seq<A>)
    requires
        a.no_duplicates(),
        b.no_duplicates(),
        forall|p: int, q: int| 0 <= p < a.len() && 0 <= q < b.len() ==> a[p] != b[q],
    ensures
        (a + b).no_duplicates(),
{
    assert forall|p: int, q: int| 0 <= p < q < (a + b).len() implies (a + b)[p] != (a + b)[q] by {
        if q < a.len() {
        } else if p >= a.len() {
            assert((a + b)[p] == b[p - a.len()]);
            assert((a + b)[q] == b[q - a.len()]);
        } else {
            assert((a + b)[q] == b[q - a.len()]);
        }
    }
}

/// Nodes whose boxes do not overlap have no pair to emit.
pub(crate) proof fn lemma_broad_disjoint(s1: BVHNode, s2: BVHNode)
    requires
        !overlaps(s1.spec_aabb(), s2.spec_aabb()),
    ensures
        broad_phase_result(s1, s2, Seq::empty()),
{
    assert forall|i: usize, j: usize, bi: AABB, bj: AABB|
        #![trigger s1.places(i, bi), s2.places(j, bj)]
        s1.places(i, bi) && s2.places(j, bj) && i < j && overlaps(bi, bj) implies Seq::<(usize, usize)>::empty().contains((i, j)) by {
        lemma_overlap_grows(bi, bj, s1.spec_aabb(), s2.spec_aabb());
    }
}

/// Two leaves emit the pairs that `leaf_pairs` lists for their indices.
pub(crate) proof fn lemma_broad_leaves(s1: BVHNode, s2: BVHNode, r: Seq<(usize, usize)>)
    requires
        s1 is Leaf,
        s2 is Leaf,
        forall|i: usize, j: usize|
            #[trigger] r.contains((i, j)) <==> s1.leaves().contains(i) && s2.leaves().contains(j) && i < j,
        s1.leaves().no_duplicates() && s2.leaves().no_duplicates() ==> r.no_duplicates(),
    ensures
        broad_phase_result(s1, s2, r),
{
    assert forall|k: int| 0 <= k < r.len() implies {
        &&& (#[trigger] r[k]).0 < r[k].1
        &&& s1.leaves().contains(r[k].0)
        &&& s2.leaves().contains(r[k].1)
    } by {
        assert(r.contains((r[k].0, r[k].1)));
    }
}

/// The results for `s1` against each child of an internal `s2` join into one for `s2`.
pub(crate) proof fn lemma_broad_split_second(s1: BVHNode, s2: BVHNode, a: Seq<(usize, usize)>, b: Seq<(usize, usize)>)
    requires
        s2 is Internal,
        broad_phase_result(s1, *s2->Internal_0.left, a),
        broad_phase_result(s1, *s2->Internal_0.right, b),
    ensures
        broad_phase_result(s1, s2, a + b),
{
    let l = *s2->Internal_0.left;
    let rt = *s2->Internal_0.right;
    assert forall|k: int| 0 <= k < (a + b).len() implies {
        &&& (#[trigger] (a + b)[k]).0 < (a + b)[k].1
        &&& s1.leaves().contains((a + b)[k].0)
        &&& s2.leaves().contains((a + b)[k].1)
    } by {
        if k < a.len() {
            assert((a + b)[k] == a[k]);
            lemma_concat_contains(l.leaves(), rt.leaves(), a[k].1);
        } else {
            assert((a + b)[k] == b[k - a.len()]);
            lemma_concat_contains(l.leaves(), rt.leaves(), b[k - a.len()].1);
        }
    }
    assert forall|i: usize, j: usize, bi: AABB, bj: AABB|
        #![trigger s1.places(i, bi), s2.places(j, bj)]
        s1.places(i, bi) && s2.places(j, bj) && i < j && overlaps(bi, bj) implies (a + b).contains((i, j)) by {
        lemma_concat_contains(a, b, (i, j));
        if l.places(j, bj) {
            assert(a.contains((i, j)));
        } else {
            assert(rt.places(j, bj));
            assert(b.contains((i, j)));
        }
    }
    if s1.leaves().no_duplicates() && s2.leaves().no_duplicates() {
        lemma_concat_no_dup_parts(l.leaves(), rt.leaves());
        assert forall|p: int, q: int| 0 <= p < a.len() && 0 <= q < b.len() implies a[p] != b[q] by {
            assert(l.leaves().contains(a[p].1));
            assert(rt.leaves().contains(b[q].1));
        }
        lemma_concat_no_dup(a, b);
    }
}

/// The results for each child of an internal `s1` against `s2` join into one for `s1`.
pub(crate) proof fn lemma_broad_split_first(s1: BVHNode, s2: BVHNode, a: Seq<(usize, usize)>, b: Seq<(usize, usize)>)
    requires
        s1 is Internal,
        broad_phase_result(*s1->Internal_0.left, s2, a),
        broad_phase_result(*s1->Internal_0.right, s2, b),
    ensures
        broad_phase_result(s1, s2, a + b),
{
    let l = *s1->Internal_0.left;
    let rt = *s1->Internal_0.right;
    assert forall|k: int| 0 <= k < (a + b).len() implies {
        &&& (#[trigger] (a + b)[k]).0 < (a + b)[k].1
        &&& s1.leaves().contains((a + b)[k].0)
        &&& s2.leaves().contains((a + b)[k].1)
    } by {
        if k < a.len() {
            assert((a + b)[k] == a[k]);
            lemma_concat_contains(l.leaves(), rt.leaves(), a[k].0);
        } else {
            assert((a + b)[k] == b[k - a.len()]);
            lemma_concat_contains(l.leaves(), rt.leaves(), b[k - a.len()].0);
        }
    }
    assert forall|i: usize, j: usize, bi: AABB, bj: AABB|
        #![trigger s1.places(i, bi), s2.places(j, bj)]
        s1.places(i, bi) && s2.places(j, bj) && i < j && overlaps(bi, bj) implies (a + b).contains((i, j)) by {
        lemma_concat_contains(a, b, (i, j));
        if l.places(i, bi) {
            assert(a.contains((i, j)));
        } else {
            assert(rt.places(i, bi));
            assert(b.contains((i, j)));
        }
    }
    if s1.leaves().no_duplicates() && s2.leaves().no_duplicates() {
        lemma_concat_no_dup_parts(l.leaves(), rt.leaves());
        assert forall|p: int, q: int| 0 <= p < a.len() && 0 <= q < b.len() implies a[p] != b[q] by {
            assert(l.leaves().contains(a[p].0));
            assert(rt.leaves().contains(b[q].0));
        }
        lemma_concat_no_dup(a, b);
    }
}

/// The simultaneous descent of `s1` and `s2` reaches a pair of leaves that holds `i` and
/// `j`, `i < j`, with overlapping boxes at every step: both leaves, a leaf against each
/// child of an internal node, or each child against each child of two internal nodes.
pub open spec fn reaches(s1: BVHNode, s2: BVHNode, i: usize, j: usize) -> bool
    decreases s1, s2,
{
    &&& overlaps(s1.spec_aabb(), s2.spec_aabb())
    &&& match (s1, s2) {
        (BVHNode::Leaf(l1), BVHNode::Leaf(l2)) => l1.shape_indices@.contains(i) && l2.shape_indices@.contains(j) && i < j,
        (BVHNode::Leaf(_), BVHNode::Internal(n2)) => reaches(s1, *n2.left, i, j) || reaches(s1, *n2.right, i, j),
        (BVHNode::Internal(n1), BVHNode::Leaf(_)) => reaches(*n1.left, s2, i, j) || reaches(*n1.right, s2, i, j),
        (BVHNode::Internal(n1), BVHNode::Internal(n2)) => {
            ||| reaches(*n1.left, *n2.left, i, j)
            ||| reaches(*n1.left, *n2.right, i, j)
            ||| reaches(*n1.right, *n2.left, i, j)
            ||| reaches(*n1.right, *n2.right, i, j)
        },
    }
}

/// `r` holds exactly the pairs that the descent of `s1` and `s2` reaches.
pub open spec fn pairs_reached(s1: BVHNode, s2: BVHNode, r: Seq<(usize, usize)>) -> bool {
    forall|i: usize, j: usize| #[trigger] r.contains((i, j)) <==> reaches(s1, s2, i, j)
}

/// The descent stops at nodes whose boxes do not overlap.
pub(crate) proof fn lemma_reached_disjoint(s1: BVHNode, s2: BVHNode)
    requires
        !overlaps(s1.spec_aabb(), s2.spec_aabb()),
    ensures
        pairs_reached(s1, s2, Seq::empty()),
{
}

/// Two overlapping leaves reach the pairs that `leaf_pairs` lists for their indices.
pub(crate) proof fn lemma_reached_leaves(s1: BVHNode, s2: BVHNode, r: Seq<(usize, usize)>)
    requires
        s1 is Leaf,
        s2 is Leaf,
        overlaps(s1.spec_aabb(), s2.spec_aabb()),
        forall|i: usize, j: usize|
            #[trigger] r.contains((i, j)) <==> s1.leaves().contains(i) && s2.leaves().contains(j) && i < j,
    ensures
        pairs_reached(s1, s2, r),
{
}

/// A leaf `s1` against an internal `s2`: the pairs reached against each child, joined.
pub(crate) proof fn lemma_reached_split_second(s1: BVHNode, s2: BVHNode, a: Seq<(usize, usize)>, b: Seq<(usize, usize)>)
    requires
        s1 is Leaf,
        s2 is Internal,
        overlaps(s1.spec_aabb(), s2.spec_aabb()),
        pairs_reached(s1, *s2->Internal_0.left, a),
        pairs_reached(s1, *s2->Internal_0.right, b),
    ensures
        pairs_reached(s1, s2, a + b),
{
    assert forall|i: usize, j: usize| #[trigger] (a + b).contains((i, j)) <==> reaches(s1, s2, i, j) by {
        lemma_concat_contains(a, b, (i, j));
    }
}

/// An internal `s1` against a leaf `s2`: the pairs reached by each child, joined.
pub(crate) proof fn lemma_reached_split_first(s1: BVHNode, s2: BVHNode, a: Seq<(usize, usize)>, b: Seq<(usize, usize)>)
    requires
        s1 is Internal,
        s2 is Leaf,
        overlaps(s1.spec_aabb(), s2.spec_aabb()),
        pairs_reached(*s1->Internal_0.left, s2, a),
        pairs_reached(*s1->Internal_0.right, s2, b),
    ensures
        pairs_reached(s1, s2, a + b),
{
    assert forall|i: usize, j: usize| #[trigger] (a + b).contains((i, j)) <==> reaches(s1, s2, i, j) by {
        lemma_concat_contains(a, b, (i, j));
    }
}

/// The pairs reached by one child of `s1` against both children of `s2`, in order.
pub open spec fn reached_by_child(c: BVHNode, s2: BVHNode, r: Seq<(usize, usize)>) -> bool {
    forall|i: usize, j: usize|
        #[trigger] r.contains((i, j)) <==> reaches(c, *s2->Internal_0.left, i, j) || reaches(
            c,
            *s2->Internal_0.right,
            i,
            j,
        )
}

/// One child of `s1` against both children of an internal `s2`: the two results joined.
pub(crate) proof fn lemma_reached_by_child(c: BVHNode, s2: BVHNode, a: Seq<(usize, usize)>, b: Seq<(usize, usize)>)
    requires
        s2 is Internal,
        pairs_reached(c, *s2->Internal_0.left, a),
        pairs_reached(c, *s2->Internal_0.right, b),
    ensures
        reached_by_child(c, s2, a + b),
{
    assert forall|i: usize, j: usize|
        #[trigger] (a + b).contains((i, j)) <==> reaches(c, *s2->Internal_0.left, i, j) || reaches(
            c,
            *s2->Internal_0.right,
            i,
            j,
        ) by {
        lemma_concat_contains(a, b, (i, j));
    }
}

/// Two overlapping internal nodes: what each child of `s1` reaches against `s2`, joined.
pub(crate) proof fn lemma_reached_split_both(s1: BVHNode, s2: BVHNode, a: Seq<(usize, usize)>, b: Seq<(usize, usize)>)
    requires
        s1 is Internal,
        s2 is Internal,
        overlaps(s1.spec_aabb(), s2.spec_aabb()),
        reached_by_child(*s1->Internal_0.left, s2, a),
        reached_by_child(*s1->Internal_0.right, s2, b),
    ensures
        pairs_reached(s1, s2, a + b),
{
    assert forall|i: usize, j: usize| #[trigger] (a + b).contains((i, j)) <==> reaches(s1, s2, i, j) by {
        lemma_concat_contains(a, b, (i, j));
    }
}

/// The pairs that the descent of `s1` and `s2` emits, each as often as it is emitted:
/// nothing below nodes whose boxes do not overlap, the leaf pairs of two leaves, and
/// otherwise the results for the children joined in order.
pub open spec fn reached_pairs(s1: BVHNode, s2: BVHNode) -> Multiset<(usize, usize)>
    decreases s1, s2,
{
    if !overlaps(s1.spec_aabb(), s2.spec_aabb()) {
        Multiset::empty()
    } else {
        match (s1, s2) {
            (BVHNode::Leaf(l1), BVHNode::Leaf(l2)) => leaf_pair_multiset(l1.shape_indices@, l2.shape_indices@),
            (BVHNode::Leaf(_), BVHNode::Internal(n2)) => reached_pairs(s1, *n2.left).add(reached_pairs(s1, *n2.right)),
            (BVHNode::Internal(n1), BVHNode::Leaf(_)) => reached_pairs(*n1.left, s2).add(reached_pairs(*n1.right, s2)),
            (BVHNode::Internal(n1), BVHNode::Internal(n2)) => reached_pairs(*n1.left, *n2.left).add(
                reached_pairs(*n1.left, *n2.right),
            ).add(reached_pairs(*n1.right, *n2.left)).add(reached_pairs(*n1.right, *n2.right)),
        }
    }
}

/// A joined list holds what its two parts hold.
pub(crate) proof fn lemma_concat_multiset(a: Seq<(usize, usize)>, b: Seq<(usize, usize)>)
    ensures
        (a + b).to_multiset() == a.to_multiset().add(b.to_multiset()),
{
    vstd::seq_lib::lemma_multiset_commutative(a, b);
}

/// An empty list holds nothing.
pub(crate) proof fn lemma_empty_multiset()
    ensures
        Seq::<(usize, usize)>::empty().to_multiset() == Multiset::<(usize, usize)>::empty(),
{
    broadcast use vstd::seq_lib::group_to_multiset_ensures;
    broadcast use vstd::multiset::group_multiset_axioms;

    assert(Seq::<(usize, usize)>::empty().to_multiset().len() == 0);
    vstd::multiset::lemma_multiset_empty_len(Seq::<(usize, usize)>::empty().to_multiset());
}

} // verus!
