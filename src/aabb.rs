//! Points on the integer lattice and axis-aligned boxes over them.
use vstd::prelude::*;

verus! {

/// A point of the integer lattice.
#[derive(Debug, Clone, Copy, PartialEq, Eq, Structural)]
pub struct Point3 {
    pub x: i64,
    pub y: i64,
    pub z: i64,
}

impl Point3 {
    pub open spec fn at(self, axis: int) -> int {
        if axis == 0 {
            self.x as int
        } else if axis == 1 {
            self.y as int
        } else {
            self.z as int
        }
    }

    pub fn new(x: i64, y: i64, z: i64) -> (r: Point3)
        ensures
            r == (Point3 { x, y, z }),
    {
        Point3 { x, y, z }
    }

    /// The coordinate on `axis` (0, 1 or 2).
    pub fn coord(&self, axis: usize) -> (r: i64)
        requires
            axis < 3,
        ensures
            r as int == self.at(axis as int),
    {
        if axis == 0 {
            self.x
        } else if axis == 1 {
            self.y
        } else {
            self.z
        }
    }

    /// Componentwise minimum.
    pub fn inf(&self, o: &Point3) -> (r: Point3)
        ensures
            r == point_inf(*self, *o),
    {
        Point3 {
            x: if self.x <= o.x { self.x } else { o.x },
            y: if self.y <= o.y { self.y } else { o.y },
            z: if self.z <= o.z { self.z } else { o.z },
        }
    }

    /// Componentwise maximum.
    pub fn sup(&self, o: &Point3) -> (r: Point3)
        ensures
            r == point_sup(*self, *o),
    {
        Point3 {
            x: if self.x >= o.x { self.x } else { o.x },
            y: if self.y >= o.y { self.y } else { o.y },
            z: if self.z >= o.z { self.z } else { o.z },
        }
    }
}

pub open spec fn min_i64(a: i64, b: i64) -> i64 {
    if a <= b { a } else { b }
}

pub open spec fn max_i64(a: i64, b: i64) -> i64 {
    if a >= b { a } else { b }
}

pub open spec fn point_inf(a: Point3, b: Point3) -> Point3 {
    Point3 { x: min_i64(a.x, b.x), y: min_i64(a.y, b.y), z: min_i64(a.z, b.z) }
}

pub open spec fn point_sup(a: Point3, b: Point3) -> Point3 {
    Point3 { x: max_i64(a.x, b.x), y: max_i64(a.y, b.y), z: max_i64(a.z, b.z) }
}

/// `a <= b` on every axis.
pub open spec fn point_le(a: Point3, b: Point3) -> bool {
    a.x <= b.x && a.y <= b.y && a.z <= b.z
}

/// An axis-aligned box, closed on every side.
#[derive(Debug, Clone, Copy, PartialEq, Eq, Structural)]
pub struct AABB {
    pub min_coords: Point3,
    pub max_coords: Point3,
}

/// The box is not empty: its lower corner lies below its upper corner on every axis.
pub open spec fn valid_box(b: AABB) -> bool {
    point_le(b.min_coords, b.max_coords)
}

/// The closed boxes `a` and `b` share at least one point.
pub open spec fn overlaps(a: AABB, b: AABB) -> bool {
    &&& a.min_coords.x <= b.max_coords.x && b.min_coords.x <= a.max_coords.x
    &&& a.min_coords.y <= b.max_coords.y && b.min_coords.y <= a.max_coords.y
    &&& a.min_coords.z <= b.max_coords.z && b.min_coords.z <= a.max_coords.z
}

/// Box `outer` holds every point of box `inner`.
pub open spec fn box_contains(outer: AABB, inner: AABB) -> bool {
    point_le(outer.min_coords, inner.min_coords) && point_le(inner.max_coords, outer.max_coords)
}

/// The smallest box that holds both `a` and `b`.
pub open spec fn box_union(a: AABB, b: AABB) -> AABB {
    AABB {
        min_coords: point_inf(a.min_coords, b.min_coords),
        max_coords: point_sup(a.max_coords, b.max_coords),
    }
}

/// Twice the center of `b` on `axis`: an integer even where the center is not.
pub open spec fn center_twice(b: AABB, axis: int) -> int {
    b.min_coords.at(axis) + b.max_coords.at(axis)
}

impl AABB {
    pub fn new(min_coords: Point3, max_coords: Point3) -> (r: AABB)
        requires
            point_le(min_coords, max_coords),
        ensures
            r.min_coords == min_coords,
            r.max_coords == max_coords,
            valid_box(r),
    {
        AABB { min_coords, max_coords }
    }

    /// Twice the center on `axis`.
    pub fn center_twice(&self, axis: usize) -> (r: i128)
        requires
            axis < 3,
        ensures
            r as int == center_twice(*self, axis as int),
    {
        self.min_coords.coord(axis) as i128 + self.max_coords.coord(axis) as i128
    }

    /// The boxes share a point; separated on some axis when they do not.
    pub fn intersects(&self, other: &AABB) -> (r: bool)
        ensures
            r == overlaps(*self, *other),
    {
        if self.max_coords.x < other.min_coords.x || other.max_coords.x < self.min_coords.x {
            return false;
        }
        if self.max_coords.y < other.min_coords.y || other.max_coords.y < self.min_coords.y {
            return false;
        }
        if self.max_coords.z < other.min_coords.z || other.max_coords.z < self.min_coords.z {
            return false;
        }
        true
    }

    pub fn union(&self, other: &AABB) -> (r: AABB)
        ensures
            r == box_union(*self, *other),
            valid_box(*self) && valid_box(*other) ==> valid_box(r),
    {
        AABB { min_coords: self.min_coords.inf(&other.min_coords), max_coords: self.max_coords.sup(&other.max_coords) }
    }
}

/// Overlap of boxes is symmetric, and every non-empty box overlaps itself.
pub proof fn lemma_intersects_symmetric_reflexive(a: AABB, b: AABB)
    ensures
        overlaps(a, b) == overlaps(b, a),
        valid_box(a) ==> overlaps(a, a),
{
}

/// Each of two boxes lies within their union.
pub proof fn lemma_union_contains_both(a: AABB, b: AABB)
    ensures
        box_contains(box_union(a, b), a),
        box_contains(box_union(a, b), b),
{
}

/// Boxes that overlap have enclosing boxes that overlap too.
pub(crate) proof fn lemma_overlap_grows(a: AABB, b: AABB, outer_a: AABB, outer_b: AABB)
    requires
        box_contains(outer_a, a),
        box_contains(outer_b, b),
        overlaps(a, b),
    ensures
        overlaps(outer_a, outer_b),
{
}

} // verus!
