//! Where a voxel lies in the world, relative to the detonation position.

#![allow(unused_imports)]

use crate::morton;
use vstd::prelude::*;

verus! {

/// Grid resolution per axis: the grid has 32 x 32 x 32 voxels.
pub const GRID: u8 = 32;

/// The grid index of the voxel that sits on the detonation position.
pub const CENTRE: i32 = 16;

/// Length of a voxel edge, in world units.
pub const EDGE: i32 = 20;

/// The offset of a voxel from the detonation position, in world units:
/// `(v - 16) * 20` per axis.
pub fn voxel_offset(v: (u8, u8, u8)) -> (offset: (i32, i32, i32))
    ensures
        offset.0 == (v.0 - 16) * 20,
        offset.1 == (v.1 - 16) * 20,
        offset.2 == (v.2 - 16) * 20,
{
    (
        (v.0 as i32 - CENTRE) * EDGE,
        (v.1 as i32 - CENTRE) * EDGE,
        (v.2 as i32 - CENTRE) * EDGE,
    )
}

/// The voxels of the grid are those with a 15-bit Morton code: a code of up to 24
/// bits has all its coordinates below the resolution exactly if it has 15 bits.
pub proof fn law_grid_has_15_bit_codes(m: int)
    requires
        0 <= m < 0x100_0000,
    ensures
        ({
            let v = morton::morton_voxel(m);
            v.0 < GRID && v.1 < GRID && v.2 < GRID <==> m < 0x8000
        }),
{
    if m < 0x8000 {
        morton::law_morton_voxel_in_grid(m);
    } else {
        morton::law_morton_voxel_then_code(m);
        morton::law_morton_code_then_voxel(morton::morton_voxel(m));
    }
}

} // verus!
