use vstd::prelude::*;
use crate::ivec3::IVec3;

verus! {

/// An axis-aligned box on the integer grid, from `min` (inclusive corner) to `max`.
#[derive(Clone, Copy, Debug, PartialEq, Eq, Structural)]
pub struct IAabb {
    pub min: IVec3,
    pub max: IVec3,
}

/// `max` lies strictly above `min` on every axis.
pub open spec fn spec_valid_corners(min: IVec3, max: IVec3) -> bool {
    min.x < max.x && min.y < max.y && min.z < max.z
}

/// The two boxes overlap in a region of positive volume.
pub open spec fn spec_intersects(a: IAabb, b: IAabb) -> bool {
    &&& a.min.x < b.max.x
    &&& a.max.x > b.min.x
    &&& a.min.y < b.max.y
    &&& a.max.y > b.min.y
    &&& a.min.z < b.max.z
    &&& a.max.z > b.min.z
}

/// `b` lies within `a`.
pub open spec fn spec_contains(a: IAabb, b: IAabb) -> bool {
    &&& a.min.x <= b.min.x
    &&& a.min.y <= b.min.y
    &&& a.min.z <= b.min.z
    &&& a.max.x >= b.max.x
    &&& a.max.y >= b.max.y
    &&& a.max.z >= b.max.z
}

pub open spec fn max_i(a: int, b: int) -> int {
    if a >= b { a } else { b }
}

pub open spec fn min_i(a: int, b: int) -> int {
    if a <= b { a } else { b }
}

/// The corners of the overlap of two boxes, taken axis by axis.
pub open spec fn overlap_min(a: IAabb, b: IAabb) -> IVec3 {
    IVec3 {
        x: max_i(a.min.x as int, b.min.x as int) as i32,
        y: max_i(a.min.y as int, b.min.y as int) as i32,
        z: max_i(a.min.z as int, b.min.z as int) as i32,
    }
}

pub open spec fn overlap_max(a: IAabb, b: IAabb) -> IVec3 {
    IVec3 {
        x: min_i(a.max.x as int, b.max.x as int) as i32,
        y: min_i(a.max.y as int, b.max.y as int) as i32,
        z: min_i(a.max.z as int, b.max.z as int) as i32,
    }
}

/// The cube of edge `size` (taken as an `i32`, as the conversion truncates) whose minimum
/// corner is `min`.
pub open spec fn spec_cube(min: IVec3, size: int) -> IAabb {
    let s = (size as i32) as int;
    IAabb {
        min,
        max: IVec3 { x: (min.x + s) as i32, y: (min.y + s) as i32, z: (min.z + s) as i32 },
    }
}

/// Adding `size` (taken as an `i32`) to every coordinate of `min` stays within `i32`.
pub open spec fn cube_fits(min: IVec3, size: int) -> bool {
    let s = (size as i32) as int;
    &&& i32::MIN <= min.x + s <= i32::MAX
    &&& i32::MIN <= min.y + s <= i32::MAX
    &&& i32::MIN <= min.z + s <= i32::MAX
}

impl IAabb {
    /// A box from its two corners; `max` must lie above `min` on every axis.
    pub fn new_rect(min: IVec3, max: IVec3) -> (r: IAabb)
        requires
            spec_valid_corners(min, max),
        ensures
            r.min == min,
            r.max == max,
    {
        IAabb { min, max }
    }

    /// A box from its two corners, or `None` where it would have no volume.
    pub fn try_new_rect(min: IVec3, max: IVec3) -> (r: Option<IAabb>)
        ensures
            r is Some <==> spec_valid_corners(min, max),
            r matches Some(b) ==> b.min == min && b.max == max,
    {
        if max.x <= min.x || max.y <= min.y || max.z <= min.z {
            return None;
        }
        Some(IAabb::new_rect(min, max))
    }

    /// The cube of edge `size` whose minimum corner is `min`.
    pub fn new(min: &IVec3, size: usize) -> (r: IAabb)
        requires
            size > 0,
            cube_fits(*min, size as int),
        ensures
            r == spec_cube(*min, size as int),
    {
        let s = size as i32;
        let max = IVec3::new(min.x + s, min.y + s, min.z + s);
        IAabb { min: *min, max }
    }

    /// Whether the two boxes overlap in a region of positive volume.
    pub fn intersects(&self, other: &IAabb) -> (r: bool)
        ensures
            r == spec_intersects(*self, *other),
    {
        self.min.x < other.max.x && self.max.x > other.min.x && self.min.y < other.max.y
            && self.max.y > other.min.y && self.min.z < other.max.z && self.max.z > other.min.z
    }

    /// The overlap of the two boxes, or `None` where it has no volume.
    pub fn intersection(&self, other: &IAabb) -> (r: Option<IAabb>)
        ensures
            r is Some <==> spec_valid_corners(overlap_min(*self, *other), overlap_max(*self, *other)),
            r matches Some(b) ==> b.min == overlap_min(*self, *other) && b.max == overlap_max(
                *self,
                *other,
            ),
    {
        let overlap_min = IVec3::new(
            if self.min.x >= other.min.x { self.min.x } else { other.min.x },
            if self.min.y >= other.min.y { self.min.y } else { other.min.y },
            if self.min.z >= other.min.z { self.min.z } else { other.min.z },
        );
        let overlap_max = IVec3::new(
            if self.max.x <= other.max.x { self.max.x } else { other.max.x },
            if self.max.y <= other.max.y { self.max.y } else { other.max.y },
            if self.max.z <= other.max.z { self.max.z } else { other.max.z },
        );
        IAabb::try_new_rect(overlap_min, overlap_max)
    }

    /// Whether `other` lies within this box.
    pub fn contains(&self, other: &IAabb) -> (r: bool)
        ensures
            r == spec_contains(*self, *other),
    {
        self.min.x <= other.min.x && self.min.y <= other.min.y && self.min.z <= other.min.z
            && self.max.x >= other.max.x && self.max.y >= other.max.y && self.max.z
            >= other.max.z
    }

    /// The volume of the box.
    pub fn area(&self) -> (r: i32)
        requires
            i32::MIN <= self.max.x - self.min.x <= i32::MAX,
            i32::MIN <= self.max.y - self.min.y <= i32::MAX,
            i32::MIN <= self.max.z - self.min.z <= i32::MAX,
            i32::MIN <= (self.max.x - self.min.x) * (self.max.y - self.min.y) <= i32::MAX,
            i32::MIN <= (self.max.x - self.min.x) * (self.max.y - self.min.y) * (self.max.z
                - self.min.z) <= i32::MAX,
        ensures
            r == (self.max.x - self.min.x) * (self.max.y - self.min.y) * (self.max.z - self.min.z),
    {
        let dx = self.max.x - self.min.x;
        let dy = self.max.y - self.min.y;
        let dz = self.max.z - self.min.z;
        let a = dx * dy;
        a * dz
    }
}

} // verus!
