//! The bounding-volume hierarchy: a binary tree whose leaves list shape indices.
use vstd::prelude::*;
use crate::aabb::{AABB, Point3, box_union, box_contains, valid_box};

verus! {

/// A node with two subtrees; its box is the union of theirs.
pub struct BVHInternalNode {
    pub aabb: AABB,
    pub left: Box<BVHNode>,
    pub right: Box<BVHNode>,
}

/// A node that lists shape indices; its box encloses their boxes.
pub struct BVHLeafNode {
    pub aabb: AABB,
    pub shape_indices: Vec<usize>,
}

pub enum BVHNode {
    Internal(BVHInternalNode),
    Leaf(BVHLeafNode),
}

/// The box that encloses the boxes of `idx` within `aabbs`: the union taken from the
/// first index to the last (a point box at the origin for no index).
pub open spec fn enclosing(idx: Seq<usize>, aabbs: Seq<AABB>) -> AABB
    decreases idx.len(),
{
    if idx.len() == 0 {
        AABB { min_coords: Point3 { x: 0, y: 0, z: 0 }, max_coords: Point3 { x: 0, y: 0, z: 0 } }
    } else if idx.len() == 1 {
        aabbs[idx[0] as int]
    } else {
        box_union(enclosing(idx.drop_last(), aabbs), aabbs[idx.last() as int])
    }
}

/// Every index of `idx` names a box of `aabbs`.
pub open spec fn indices_in_range(idx: Seq<usize>, n: int) -> bool {
    forall|k: int| 0 <= k < idx.len() ==> #[trigger] idx[k] < n
}

/// Every box of `aabbs` is non-empty.
pub open spec fn all_valid(aabbs: Seq<AABB>) -> bool {
    forall|k: int| 0 <= k < aabbs.len() ==> valid_box(#[trigger] aabbs[k])
}

impl BVHNode {
    pub open spec fn spec_aabb(self) -> AABB {
        match self {
            BVHNode::Internal(n) => n.aabb,
            BVHNode::Leaf(l) => l.aabb,
        }
    }

    /// The shape indices of all leaves, left to right.
    pub open spec fn leaves(self) -> Seq<usize>
        decreases self,
    {
        match self {
            BVHNode::Internal(n) => n.left.leaves() + n.right.leaves(),
            BVHNode::Leaf(l) => l.shape_indices@,
        }
    }

    /// Well-formed over `aabbs`: every leaf box is the enclosing box of its indices, every
    /// internal box is the union of its children's boxes, and no subtree is empty.
    pub open spec fn wf(self, aabbs: Seq<AABB>) -> bool
        decreases self,
    {
        match self {
            BVHNode::Internal(n) => {
                &&& n.left.wf(aabbs)
                &&& n.right.wf(aabbs)
                &&& n.left.leaves().len() > 0
                &&& n.right.leaves().len() > 0
                &&& n.aabb == box_union(n.left.spec_aabb(), n.right.spec_aabb())
            },
            BVHNode::Leaf(l) => {
                &&& indices_in_range(l.shape_indices@, aabbs.len() as int)
                &&& l.aabb == enclosing(l.shape_indices@, aabbs)
            },
        }
    }

    /// Index `i` sits in a leaf of this tree, and every box on the path to that leaf
    /// holds box `b`.
    pub open spec fn places(self, i: usize, b: AABB) -> bool
        decreases self,
    {
        &&& box_contains(self.spec_aabb(), b)
        &&& match self {
            BVHNode::Internal(n) => n.left.places(i, b) || n.right.places(i, b),
            BVHNode::Leaf(l) => l.shape_indices@.contains(i),
        }
    }

    pub fn is_leaf(&self) -> (r: bool)
        ensures
            r == (self is Leaf),
    {
        match self {
            BVHNode::Internal(_) => false,
            BVHNode::Leaf(_) => true,
        }
    }

    pub fn aabb_ref(&self) -> (r: &AABB)
        ensures
            *r == self.spec_aabb(),
    {
        match self {
            BVHNode::Internal(n) => &n.aabb,
            BVHNode::Leaf(l) => &l.aabb,
        }
    }

    /// The two subtrees of an internal node; none for a leaf.
    pub fn children(&self) -> (r: Option<(&BVHNode, &BVHNode)>)
        ensures
            match self {
                BVHNode::Internal(n) => r == Some((&*n.left, &*n.right)),
                BVHNode::Leaf(_) => r is None,
            },
    {
        match self {
            BVHNode::Internal(n) => Some((&*n.left, &*n.right)),
            BVHNode::Leaf(_) => None,
        }
    }

    /// The indices of a leaf; none for an internal node.
    pub fn leaf_indices(&self) -> (r: Option<&Vec<usize>>)
        ensures
            match self {
                BVHNode::Internal(_) => r is None,
                BVHNode::Leaf(l) => r == Some(&l.shape_indices),
            },
    {
        match self {
            BVHNode::Internal(_) => None,
            BVHNode::Leaf(l) => Some(&l.shape_indices),
        }
    }

    pub fn union_aabb(&self, other: &BVHNode) -> (r: AABB)
        ensures
            r == box_union(self.spec_aabb(), other.spec_aabb()),
    {
        self.aabb_ref().union(other.aabb_ref())
    }

    pub fn intersects(&self, other: &BVHNode) -> (r: bool)
        ensures
            r == crate::aabb::overlaps(self.spec_aabb(), other.spec_aabb()),
    {
        self.aabb_ref().intersects(other.aabb_ref())
    }
}

impl BVHInternalNode {
    pub fn new(aabb: AABB, left: Box<BVHNode>, right: Box<BVHNode>) -> (r: BVHInternalNode)
        ensures
            r.aabb == aabb,
            r.left == left,
            r.right == right,
    {
        BVHInternalNode { aabb, left, right }
    }
}

/// The box that encloses the boxes of `idx[lo..hi]` within `aabbs`.
pub fn bounding_box(idx: &Vec<usize>, lo: usize, hi: usize, aabbs: &Vec<AABB>) -> (r: AABB)
    requires
        lo <= hi <= idx@.len(),
        indices_in_range(idx@, aabbs@.len() as int),
        all_valid(aabbs@),
    ensures
        r == enclosing(idx@.subrange(lo as int, hi as int), aabbs@),
        valid_box(r),
{
    let ghost part = idx@.subrange(lo as int, hi as int);
    if lo == hi {
        let o = Point3 { x: 0, y: 0, z: 0 };
        return AABB { min_coords: o, max_coords: o };
    }
    let mut min_coords = aabbs[idx[lo]].min_coords;
    let mut max_coords = aabbs[idx[lo]].max_coords;
    let mut k: usize = lo + 1;
    assert(part.subrange(0, 1) =~= seq![idx@[lo as int]]);
    while k < hi
        invariant
            lo < k <= hi <= idx@.len(),
            part == idx@.subrange(lo as int, hi as int),
            indices_in_range(idx@, aabbs@.len() as int),
            all_valid(aabbs@),
            enclosing(part.subrange(0, k - lo), aabbs@) == (AABB { min_coords, max_coords }),
            crate::aabb::point_le(min_coords, max_coords),
        decreases hi - k,
    {
        let b = &aabbs[idx[k]];
        min_coords = min_coords.inf(&b.min_coords);
        max_coords = max_coords.sup(&b.max_coords);
        k = k + 1;
        assert(part.subrange(0, k - lo).drop_last() =~= part.subrange(0, k - 1 - lo));
    }
    assert(part.subrange(0, hi - lo) =~= part);
    AABB { min_coords, max_coords }
}

/// The enclosing box of a joined list is the union of those of its two parts.
pub(crate) proof fn lemma_enclosing_concat(a: Seq<usize>, b: Seq<usize>, aabbs: Seq<AABB>)
    requires
        a.len() > 0,
        b.len() > 0,
    ensures
        enclosing(a + b, aabbs) == box_union(enclosing(a, aabbs), enclosing(b, aabbs)),
    decreases b.len(),
{
    assert((a + b).drop_last() =~= a + b.drop_last());
    if b.len() > 1 {
        lemma_enclosing_concat(a, b.drop_last(), aabbs);
    } else {
        assert(b.drop_last() =~= Seq::<usize>::empty());
        assert(a + b.drop_last() =~= a);
    }
}

impl BVHLeafNode {
    /// A leaf over `shape_indices`, with the box that encloses theirs.
    pub fn new(shape_indices: Vec<usize>, all_aabbs: &Vec<AABB>) -> (r: BVHLeafNode)
        requires
            indices_in_range(shape_indices@, all_aabbs@.len() as int),
            all_valid(all_aabbs@),
        ensures
            r.shape_indices@ == shape_indices@,
            r.aabb == enclosing(shape_indices@, all_aabbs@),
            valid_box(r.aabb),
    {
        let aabb = bounding_box(&shape_indices, 0, shape_indices.len(), all_aabbs);
        assert(shape_indices@.subrange(0, shape_indices@.len() as int) =~= shape_indices@);
        BVHLeafNode { aabb, shape_indices }
    }
}

/// The enclosing box of a list holds the box of each of its indices.
pub(crate) proof fn lemma_enclosing_holds_members(idx: Seq<usize>, aabbs: Seq<AABB>, k: int)
    requires
        0 <= k < idx.len(),
    ensures
        box_contains(enclosing(idx, aabbs), aabbs[idx[k] as int]),
    decreases idx.len(),
{
    if idx.len() > 1 && k < idx.len() - 1 {
        lemma_enclosing_holds_members(idx.drop_last(), aabbs, k);
    }
}

/// Each bound of the enclosing box of a non-empty list is the bound of one of its boxes.
proof fn lemma_enclosing_attained(idx: Seq<usize>, aabbs: Seq<AABB>)
    requires
        idx.len() > 0,
    ensures
        exists|k: int| 0 <= k < idx.len() && enclosing(idx, aabbs).min_coords.x == (#[trigger] aabbs[idx[k] as int]).min_coords.x,
        exists|k: int| 0 <= k < idx.len() && enclosing(idx, aabbs).min_coords.y == (#[trigger] aabbs[idx[k] as int]).min_coords.y,
        exists|k: int| 0 <= k < idx.len() && enclosing(idx, aabbs).min_coords.z == (#[trigger] aabbs[idx[k] as int]).min_coords.z,
        exists|k: int| 0 <= k < idx.len() && enclosing(idx, aabbs).max_coords.x == (#[trigger] aabbs[idx[k] as int]).max_coords.x,
        exists|k: int| 0 <= k < idx.len() && enclosing(idx, aabbs).max_coords.y == (#[trigger] aabbs[idx[k] as int]).max_coords.y,
        exists|k: int| 0 <= k < idx.len() && enclosing(idx, aabbs).max_coords.z == (#[trigger] aabbs[idx[k] as int]).max_coords.z,
    decreases idx.len(),
{
    if idx.len() == 1 {
        assert(enclosing(idx, aabbs) == aabbs[idx[0] as int]);
    } else {
        let p = idx.drop_last();
        let last = idx.len() - 1;
        lemma_enclosing_attained(p, aabbs);
        assert(forall|k: int| 0 <= k < p.len() ==> p[k] == idx[k]);
        assert(aabbs[idx[last] as int] == aabbs[idx[last] as int]);
    }
}

/// Lists that hold the same indices, each as often, have the same enclosing box.
pub(crate) proof fn lemma_enclosing_perm(a: Seq<usize>, b: Seq<usize>, aabbs: Seq<AABB>)
    requires
        a.to_multiset() == b.to_multiset(),
        a.len() > 0,
    ensures
        enclosing(a, aabbs) == enclosing(b, aabbs),
{
    broadcast use vstd::seq_lib::group_to_multiset_ensures;

    vstd::seq_lib::to_multiset_len(a);
    vstd::seq_lib::to_multiset_len(b);
    assert forall|k: int| 0 <= k < b.len() implies #[trigger] a.contains(b[k]) by {
        assert(b.to_multiset().count(b[k]) > 0);
    }
    assert forall|k: int| 0 <= k < a.len() implies #[trigger] b.contains(a[k]) by {
        assert(a.to_multiset().count(a[k]) > 0);
    }
    lemma_enclosing_attained(a, aabbs);
    lemma_enclosing_attained(b, aabbs);
    assert forall|k: int| 0 <= k < a.len() implies box_contains(enclosing(b, aabbs), #[trigger] aabbs[a[k] as int]) by {
        assert(b.contains(a[k]));
        let q = choose|q: int| 0 <= q < b.len() && #[trigger] b[q] == a[k];
        lemma_enclosing_holds_members(b, aabbs, q);
    }
    assert forall|k: int| 0 <= k < b.len() implies box_contains(enclosing(a, aabbs), #[trigger] aabbs[b[k] as int]) by {
        assert(a.contains(b[k]));
        let q = choose|q: int| 0 <= q < a.len() && #[trigger] a[q] == b[k];
        lemma_enclosing_holds_members(a, aabbs, q);
    }
    assert forall|k: int| 0 <= k < a.len() implies box_contains(enclosing(a, aabbs), #[trigger] aabbs[a[k] as int]) by {
        lemma_enclosing_holds_members(a, aabbs, k);
    }
    assert forall|k: int| 0 <= k < b.len() implies box_contains(enclosing(b, aabbs), #[trigger] aabbs[b[k] as int]) by {
        lemma_enclosing_holds_members(b, aabbs, k);
    }
    let ea = enclosing(a, aabbs);
    let eb = enclosing(b, aabbs);
    assert(ea.min_coords == eb.min_coords);
    assert(ea.max_coords == eb.max_coords);
}

impl BVHNode {
    /// The box of a well-formed non-empty tree encloses the boxes of its leaves' indices.
    pub proof fn lemma_aabb_encloses_leaves(self, aabbs: Seq<AABB>)
        requires
            self.wf(aabbs),
        ensures
            self.leaves().len() > 0 ==> self.spec_aabb() == enclosing(self.leaves(), aabbs),
        decreases self,
    {
        if let BVHNode::Internal(n) = self {
            n.left.lemma_aabb_encloses_leaves(aabbs);
            n.right.lemma_aabb_encloses_leaves(aabbs);
            lemma_enclosing_concat(n.left.leaves(), n.right.leaves(), aabbs);
        }
    }
}

/// The box of an internal node holds the boxes of both of its children.
pub proof fn lemma_internal_contains_children(node: BVHNode, aabbs: Seq<AABB>)
    requires
        node.wf(aabbs),
        node is Internal,
    ensures
        box_contains(node.spec_aabb(), node->Internal_0.left.spec_aabb()),
        box_contains(node.spec_aabb(), node->Internal_0.right.spec_aabb()),
{
}

} // verus!
