//! Axis-aligned bounding boxes whose corner coordinates are ordered keys.
use vstd::prelude::*;

verus! {

/// A point whose coordinates are ordered keys of float coordinates.
#[derive(Clone, Copy, Debug, PartialEq, Eq, Structural)]
pub struct Point3 {
    pub x: u32,
    pub y: u32,
    pub z: u32,
}

impl Point3 {
    pub fn new(x: u32, y: u32, z: u32) -> (p: Point3)
        ensures
            p.x == x,
            p.y == y,
            p.z == z,
    {
        Point3 { x, y, z }
    }

    /// The coordinate along `axis`: 0 is x, 1 is y, 2 is z.
    pub open spec fn at(self, axis: int) -> u32 {
        if axis == 0 {
            self.x
        } else if axis == 1 {
            self.y
        } else {
            self.z
        }
    }

    /// The coordinate along `axis`.
    pub fn axis(&self, axis: usize) -> (c: u32)
        requires
            axis < 3,
        ensures
            c == self.at(axis as int),
    {
        if axis == 0 {
            self.x
        } else if axis == 1 {
            self.y
        } else {
            self.z
        }
    }
}

/// Whether `p` is below or equal to `q` on every axis.
pub open spec fn le(p: Point3, q: Point3) -> bool {
    p.x <= q.x && p.y <= q.y && p.z <= q.z
}

/// An axis-aligned box between two corners.
#[derive(Clone, Copy, Debug, PartialEq, Eq, Structural)]
pub struct Aabb {
    pub min: Point3,
    pub max: Point3,
}

impl Aabb {
    pub fn new(min: Point3, max: Point3) -> (b: Aabb)
        ensures
            b.min == min,
            b.max == max,
    {
        Aabb { min, max }
    }

    pub fn min(&self) -> (p: Point3)
        ensures
            p == self.min,
    {
        self.min
    }

    pub fn max(&self) -> (p: Point3)
        ensures
            p == self.max,
    {
        self.max
    }

    /// The lower corner is below the upper one on every axis.
    pub open spec fn wf(self) -> bool {
        le(self.min, self.max)
    }

    /// Whether the point lies in the box, boundary included.
    pub open spec fn contains(self, p: Point3) -> bool {
        le(self.min, p) && le(p, self.max)
    }

    /// Whether every point of `other` lies in this box.
    pub open spec fn encloses(self, other: Aabb) -> bool {
        le(self.min, other.min) && le(other.max, self.max)
    }
}

pub open spec fn min_u32(a: u32, b: u32) -> u32 {
    if a < b { a } else { b }
}

pub open spec fn max_u32(a: u32, b: u32) -> u32 {
    if a > b { a } else { b }
}

/// The tightest box holding both boxes: the least corner below both and the
/// greatest above both.
pub open spec fn surrounding_spec(a: Aabb, b: Aabb) -> Aabb {
    Aabb {
        min: Point3 {
            x: min_u32(a.min.x, b.min.x),
            y: min_u32(a.min.y, b.min.y),
            z: min_u32(a.min.z, b.min.z),
        },
        max: Point3 {
            x: max_u32(a.max.x, b.max.x),
            y: max_u32(a.max.y, b.max.y),
            z: max_u32(a.max.z, b.max.z),
        },
    }
}

fn min_key(a: u32, b: u32) -> (r: u32)
    ensures
        r == min_u32(a, b),
{
    if a < b { a } else { b }
}

fn max_key(a: u32, b: u32) -> (r: u32)
    ensures
        r == max_u32(a, b),
{
    if a > b { a } else { b }
}

/// The union box of `box1` and `box2`.
pub fn surrounding_box(box1: Aabb, box2: Aabb) -> (r: Aabb)
    ensures
        r == surrounding_spec(box1, box2),
{
    let min = Point3::new(
        min_key(box1.min.x, box2.min.x),
        min_key(box1.min.y, box2.min.y),
        min_key(box1.min.z, box2.min.z),
    );
    let max = Point3::new(
        max_key(box1.max.x, box2.max.x),
        max_key(box1.max.y, box2.max.y),
        max_key(box1.max.z, box2.max.z),
    );
    Aabb::new(min, max)
}

/// The union box contains every point of either box.
pub proof fn lemma_surrounding_contains(box1: Aabb, box2: Aabb, p: Point3)
    ensures
        box1.contains(p) ==> surrounding_spec(box1, box2).contains(p),
        box2.contains(p) ==> surrounding_spec(box1, box2).contains(p),
{
}

/// The union box encloses both boxes, and is well formed when they are.
pub proof fn lemma_surrounding_encloses(box1: Aabb, box2: Aabb)
    ensures
        surrounding_spec(box1, box2).encloses(box1),
        surrounding_spec(box1, box2).encloses(box2),
        box1.wf() && box2.wf() ==> surrounding_spec(box1, box2).wf(),
{
}

/// Enclosure is transitive.
pub proof fn lemma_encloses_trans(a: Aabb, b: Aabb, c: Aabb)
    requires
        a.encloses(b),
        b.encloses(c),
    ensures
        a.encloses(c),
{
}

} // verus!
