//! Column codes of voxels: 15 bits, five for each coordinate.

use vstd::prelude::*;

verus! {

/// The column code of a voxel, `(x << 10) | (y << 5) | z`.
pub open spec fn column_code(v: (u8, u8, u8)) -> u16 {
    ((v.0 as u16) << 10) | ((v.1 as u16) << 5) | (v.2 as u16)
}

/// The voxel with column code `code`.
pub open spec fn column_voxel(code: u16) -> (u8, u8, u8) {
    ((code / 1024 % 32) as u8, (code / 32 % 32) as u8, (code % 32) as u8)
}

/// Pack a voxel `(x, y, z)`, each in `0..32`, into a 15-bit column code
/// `(x << 10) | (y << 5) | z`. This is not a Morton code: three shifts decode it.
pub fn pack_voxel(x: u8, y: u8, z: u8) -> (code: u16)
    ensures
        code == column_code((x, y, z)),
        code == ((x as u16) << 10) | ((y as u16) << 5) | (z as u16),
        x < 32 && y < 32 && z < 32 ==> code == 1024 * x + 32 * y + z,
{
    proof {
        lemma_column_code_value((x, y, z));
    }
    ((x as u16) << 10) | ((y as u16) << 5) | (z as u16)
}

/// Inverse of [`pack_voxel`].
pub fn unpack_voxel(code: u16) -> (v: (u8, u8, u8))
    ensures
        v == column_voxel(code),
        v.0 == code / 1024 % 32,
        v.1 == code / 32 % 32,
        v.2 == code % 32,
        v.0 < 32 && v.1 < 32 && v.2 < 32,
{
    assert((code >> 10) & 31 == code / 1024 % 32) by (bit_vector);
    assert((code >> 5) & 31 == code / 32 % 32) by (bit_vector);
    assert(code & 31 == code % 32) by (bit_vector);
    (((code >> 10) & 31) as u8, ((code >> 5) & 31) as u8, (code & 31) as u8)
}

/// Inside the grid a column code is the number with base-32 digits `x`, `y`, `z`.
pub proof fn lemma_column_code_value(v: (u8, u8, u8))
    ensures
        v.0 < 32 && v.1 < 32 && v.2 < 32 ==> column_code(v) == 1024 * v.0 + 32 * v.1 + v.2,
{
    let x = v.0;
    let y = v.1;
    let z = v.2;
    assert(x < 32 && y < 32 && z < 32 ==> ((x as u16) << 10) | ((y as u16) << 5) | (z as u16)
        == 1024 * x + 32 * y + z) by (bit_vector);
}

/// Unpacking the packed form of a voxel of the grid gives the voxel back.
pub proof fn law_pack_then_unpack(v: (u8, u8, u8))
    requires
        v.0 < 32,
        v.1 < 32,
        v.2 < 32,
    ensures
        column_voxel(column_code(v)) == v,
        column_code(v) < 0x8000,
{
    lemma_column_code_value(v);
}

/// Packing the unpacked form of a 15-bit code gives the code back.
pub proof fn law_unpack_then_pack(code: u16)
    requires
        code < 0x8000,
    ensures
        column_code(column_voxel(code)) == code,
{
    lemma_column_code_value(column_voxel(code));
}

/// Codes of different voxels of the grid are different, and they are ordered as
/// their voxels are: by `x`, then `y`, then `z`.
pub proof fn law_codes_are_ordered_by_coordinates(a: (u8, u8, u8), b: (u8, u8, u8))
    requires
        a.0 < 32 && a.1 < 32 && a.2 < 32,
        b.0 < 32 && b.1 < 32 && b.2 < 32,
    ensures
        column_code(a) == column_code(b) <==> a == b,
        column_code(a) < column_code(b) <==> a.0 < b.0 || (a.0 == b.0 && (a.1 < b.1 || (a.1 == b.1
            && a.2 < b.2))),
        column_code(a) / 1024 == a.0,
        column_code(a) / 32 % 32 == a.1,
        column_code(a) % 32 == a.2,
{
    lemma_column_code_value(a);
    lemma_column_code_value(b);
}

/// A code unpacks to its three groups of five bits.
pub proof fn law_unpacked_voxel_is_the_five_bit_groups(code: u16)
    ensures
        column_voxel(code).0 == code / 1024 % 32,
        column_voxel(code).1 == code / 32 % 32,
        column_voxel(code).2 == code % 32,
{
}

} // verus!
