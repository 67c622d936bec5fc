use vstd::prelude::*;

use crate::axis::Axis;
use crate::key::{is_number_key, NEG_INF_KEY, POS_INF_KEY};

verus! {

/// A point whose coordinates are held as order keys.
#[derive(Clone, Copy, Debug, PartialEq, Eq, Structural)]
pub struct Corner {
    pub x: u32,
    pub y: u32,
    pub z: u32,
}

/// The smaller of two keys.
pub open spec fn key_min(a: u32, b: u32) -> u32 {
    if a <= b {
        a
    } else {
        b
    }
}

/// The larger of two keys.
pub open spec fn key_max(a: u32, b: u32) -> u32 {
    if a >= b {
        a
    } else {
        b
    }
}

impl Corner {
    /// The corner with the same key on every axis.
    pub open spec fn fill(k: u32) -> Corner {
        Corner { x: k, y: k, z: k }
    }

    /// The key of the coordinate along an axis.
    pub open spec fn at(self, axis: Axis) -> u32 {
        match axis {
            Axis::X => self.x,
            Axis::Y => self.y,
            Axis::Z => self.z,
        }
    }

    /// The corner that takes the smaller key on each axis.
    pub open spec fn lower(self, o: Corner) -> Corner {
        Corner { x: key_min(self.x, o.x), y: key_min(self.y, o.y), z: key_min(self.z, o.z) }
    }

    /// The corner that takes the larger key on each axis.
    pub open spec fn upper(self, o: Corner) -> Corner {
        Corner { x: key_max(self.x, o.x), y: key_max(self.y, o.y), z: key_max(self.z, o.z) }
    }

    /// Whether every coordinate stands for a number.
    pub open spec fn is_numbers(self) -> bool {
        is_number_key(self.x) && is_number_key(self.y) && is_number_key(self.z)
    }

    pub fn new(x: u32, y: u32, z: u32) -> (c: Corner)
        ensures
            c == (Corner { x, y, z }),
    {
        Corner { x, y, z }
    }

    /// The key of the coordinate along an axis.
    pub fn get(&self, axis: Axis) -> (k: u32)
        ensures
            k == self.at(axis),
    {
        match axis {
            Axis::X => self.x,
            Axis::Y => self.y,
            Axis::Z => self.z,
        }
    }

    fn lower_of(&self, o: &Corner) -> (c: Corner)
        ensures
            c == self.lower(*o),
    {
        Corner {
            x: if self.x <= o.x { self.x } else { o.x },
            y: if self.y <= o.y { self.y } else { o.y },
            z: if self.z <= o.z { self.z } else { o.z },
        }
    }

    fn upper_of(&self, o: &Corner) -> (c: Corner)
        ensures
            c == self.upper(*o),
    {
        Corner {
            x: if self.x >= o.x { self.x } else { o.x },
            y: if self.y >= o.y { self.y } else { o.y },
            z: if self.z >= o.z { self.z } else { o.z },
        }
    }
}

/// An axis-aligned bounding box, by its two extreme corners.
#[derive(Clone, Copy, Debug, PartialEq, Eq, Structural)]
pub struct AABB {
    pub min: Corner,
    pub max: Corner,
}

/// The smallest box that holds both boxes: the lower corner of the two minimum
/// corners and the upper corner of the two maximum corners.
pub open spec fn union(a: AABB, b: AABB) -> AABB {
    AABB { min: a.min.lower(b.min), max: a.max.upper(b.max) }
}

/// The empty box: minimum corner at positive infinity, maximum corner at
/// negative infinity, so that it holds no point.
pub open spec fn empty() -> AABB {
    AABB { min: Corner::fill(POS_INF_KEY), max: Corner::fill(NEG_INF_KEY) }
}

impl AABB {
    /// Whether all the box's coordinates stand for numbers.
    pub open spec fn is_numbers(self) -> bool {
        self.min.is_numbers() && self.max.is_numbers()
    }

    pub fn new(min: Corner, max: Corner) -> (b: AABB)
        ensures
            b == (AABB { min, max }),
    {
        AABB { min, max }
    }

    /// The empty box, which is the identity of the union.
    pub fn new_empty() -> (b: AABB)
        ensures
            b == empty(),
    {
        AABB {
            min: Corner { x: POS_INF_KEY, y: POS_INF_KEY, z: POS_INF_KEY },
            max: Corner { x: NEG_INF_KEY, y: NEG_INF_KEY, z: NEG_INF_KEY },
        }
    }

    /// The box that surrounds both boxes.
    pub fn new_surrounding(a: &AABB, b: &AABB) -> (r: AABB)
        ensures
            r == union(*a, *b),
    {
        AABB { min: a.min.lower_of(&b.min), max: a.max.upper_of(&b.max) }
    }

    pub fn min(&self) -> (c: &Corner)
        ensures
            *c == self.min,
    {
        &self.min
    }

    pub fn max(&self) -> (c: &Corner)
        ensures
            *c == self.max,
    {
        &self.max
    }

    /// Grows this box to surround the other one too.
    pub fn add(&mut self, other: &AABB)
        ensures
            *final(self) == union(*old(self), *other),
    {
        let r = AABB::new_surrounding(self, other);
        *self = r;
    }
}

/// The union works axis by axis.
pub proof fn lemma_union_at(a: AABB, b: AABB, axis: Axis)
    ensures
        union(a, b).min.at(axis) == key_min(a.min.at(axis), b.min.at(axis)),
        union(a, b).max.at(axis) == key_max(a.max.at(axis), b.max.at(axis)),
{
}

/// The union of boxes does not depend on their order.
pub proof fn lemma_union_commutative(a: AABB, b: AABB)
    ensures
        union(a, b) == union(b, a),
{
}

/// Adding a box that is already part of a union changes nothing.
pub proof fn lemma_union_idempotent(a: AABB, b: AABB)
    ensures
        union(a, union(a, b)) == union(a, b),
        union(a, a) == a,
{
}

/// The union of three boxes does not depend on how it is grouped.
pub proof fn lemma_union_associative(a: AABB, b: AABB, c: AABB)
    ensures
        union(a, union(b, c)) == union(union(a, b), c),
{
}

/// The empty box is the identity of the union, for boxes whose coordinates
/// are numbers.
pub proof fn lemma_union_empty(a: AABB)
    requires
        a.is_numbers(),
    ensures
        union(empty(), a) == a,
        union(a, empty()) == a,
{
}

} // verus!
