use vstd::prelude::*;
use crate::ivec3::IVec3;

verus! {

/// The minimum corner of child `index` of a node of edge `size` whose minimum corner is
/// `parent`: bit 0 of the index moves along x, bit 1 along y, bit 2 along z, each by
/// half the edge (taken as an `i32`).
pub open spec fn spec_child_origin(parent: IVec3, size: int, index: int) -> IVec3 {
    let half = ((size / 2) as i32) as int;
    IVec3 {
        x: if index % 2 == 1 { (parent.x + half) as i32 } else { parent.x },
        y: if (index / 2) % 2 == 1 { (parent.y + half) as i32 } else { parent.y },
        z: if (index / 4) % 2 == 1 { (parent.z + half) as i32 } else { parent.z },
    }
}

/// Moving the corner by half the edge on any axis stays within `i32`.
pub open spec fn child_origins_fit(parent: IVec3, size: int) -> bool {
    let half = ((size / 2) as i32) as int;
    &&& i32::MIN <= parent.x + half <= i32::MAX
    &&& i32::MIN <= parent.y + half <= i32::MAX
    &&& i32::MIN <= parent.z + half <= i32::MAX
}

/// The minimum corner of child `index` of the node at `parent_origin` with edge `size`.
pub fn get_child_origin(parent_origin: &IVec3, size: usize, index: usize) -> (r: IVec3)
    requires
        child_origins_fit(*parent_origin, size as int),
    ensures
        r == spec_child_origin(*parent_origin, size as int, index as int),
{
    let half = (size / 2) as i32;
    proof {
        assert((index & 1 != 0) == (index % 2 == 1)) by (bit_vector);
        assert((index & 2 != 0) == ((index / 2) % 2 == 1)) by (bit_vector);
        assert((index & 4 != 0) == ((index / 4) % 2 == 1)) by (bit_vector);
    }
    let x = if index & 1 != 0 {
        parent_origin.x + half
    } else {
        parent_origin.x
    };
    let y = if index & 2 != 0 {
        parent_origin.y + half
    } else {
        parent_origin.y
    };
    let z = if index & 4 != 0 {
        parent_origin.z + half
    } else {
        parent_origin.z
    };
    IVec3::new(x, y, z)
}

} // verus!

verus! {

/// A cube of edge `size` at `origin` whose every coordinate stays within `i32`.
pub open spec fn cube_in_range(origin: IVec3, size: int) -> bool {
    &&& 1 <= size <= i32::MAX
    &&& origin.x + size <= i32::MAX
    &&& origin.y + size <= i32::MAX
    &&& origin.z + size <= i32::MAX
}

/// The children of a cube that is in range are in range.
pub proof fn lemma_child_in_range(origin: IVec3, size: int, index: int)
    requires
        cube_in_range(origin, size),
        size >= 2,
        0 <= index < 8,
    ensures
        cube_in_range(spec_child_origin(origin, size, index), size / 2),
        child_origins_fit(origin, size),
{
}

} // verus!
