use vstd::prelude::*;

verus! {

/// A vector of three `i32` coordinates.
#[derive(Clone, Copy, Debug, PartialEq, Eq, Structural, Hash)]
pub struct IVec3 {
    pub x: i32,
    pub y: i32,
    pub z: i32,
}

impl IVec3 {
    pub fn new(x: i32, y: i32, z: i32) -> (r: IVec3)
        ensures
            r.x == x,
            r.y == y,
            r.z == z,
    {
        IVec3 { x, y, z }
    }

    /// The vector with all three coordinates equal to `v`.
    pub fn splat(v: i32) -> (r: IVec3)
        ensures
            r.x == v,
            r.y == v,
            r.z == v,
    {
        IVec3 { x: v, y: v, z: v }
    }

    pub fn zero() -> (r: IVec3)
        ensures
            r.x == 0,
            r.y == 0,
            r.z == 0,
    {
        IVec3 { x: 0, y: 0, z: 0 }
    }

    pub fn one() -> (r: IVec3)
        ensures
            r.x == 1,
            r.y == 1,
            r.z == 1,
    {
        IVec3 { x: 1, y: 1, z: 1 }
    }
}

} // verus!
