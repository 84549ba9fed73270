//! Little-endian integers inside a byte sequence.

use vstd::prelude::*;

verus! {

/// The 16-bit little-endian integer at offset `at`.
pub open spec fn le16(s: Seq<u8>, at: int) -> u16 {
    (s[at] + 0x100 * s[at + 1]) as u16
}

/// The 64-bit little-endian integer at offset `at`.
pub open spec fn le64(s: Seq<u8>, at: int) -> u64 {
    (s[at] + 0x100 * s[at + 1] + 0x1_0000 * s[at + 2] + 0x100_0000 * s[at + 3] + 0x1_0000_0000
        * s[at + 4] + 0x100_0000_0000 * s[at + 5] + 0x1_0000_0000_0000 * s[at + 6]
        + 0x100_0000_0000_0000 * s[at + 7]) as u64
}

/// The two bytes of `v`, low byte first.
pub open spec fn le16_bytes(v: u16) -> Seq<u8> {
    seq![(v % 0x100) as u8, (v / 0x100) as u8]
}

/// The eight bytes of `v`, low byte first.
pub open spec fn le64_bytes(v: u64) -> Seq<u8> {
    seq![
        (v % 0x100) as u8,
        (v / 0x100 % 0x100) as u8,
        (v / 0x1_0000 % 0x100) as u8,
        (v / 0x100_0000 % 0x100) as u8,
        (v / 0x1_0000_0000 % 0x100) as u8,
        (v / 0x100_0000_0000 % 0x100) as u8,
        (v / 0x1_0000_0000_0000 % 0x100) as u8,
        (v / 0x100_0000_0000_0000) as u8,
    ]
}

/// Read the 16-bit little-endian integer at offset `at`.
pub(crate) fn read_u16(s: &[u8], at: usize) -> (v: u16)
    requires
        at + 2 <= s@.len(),
    ensures
        v == le16(s@, at as int),
{
    let b0: u8 = s[at];
    let b1: u8 = s[at + 1];
    assert((b0 as u16) | ((b1 as u16) << 8) == b0 + 0x100 * b1) by (bit_vector);
    (b0 as u16) | ((b1 as u16) << 8)
}

/// Read the 64-bit little-endian integer at offset `at`.
pub(crate) fn read_u64(s: &[u8], at: usize) -> (v: u64)
    requires
        at + 8 <= s@.len(),
    ensures
        v == le64(s@, at as int),
{
    assert(s.len() == s@.len());
    let lo: u64 = read_u32(s, at);
    let hi: u64 = read_u32(s, at + 4);
    assert(lo | (hi << 32) == lo + 0x1_0000_0000 * hi) by (bit_vector)
        requires
            lo < 0x1_0000_0000,
            hi < 0x1_0000_0000,
    ;
    lo | (hi << 32)
}

/// Read the 32-bit little-endian integer at offset `at`.
fn read_u32(s: &[u8], at: usize) -> (v: u64)
    requires
        at + 4 <= s@.len(),
    ensures
        v == s@[at as int] + 0x100 * s@[at + 1] + 0x1_0000 * s@[at + 2] + 0x100_0000 * s@[at + 3],
        v < 0x1_0000_0000,
{
    let b0: u8 = s[at];
    let b1: u8 = s[at + 1];
    let b2: u8 = s[at + 2];
    let b3: u8 = s[at + 3];
    assert((b0 as u64) | ((b1 as u64) << 8) | ((b2 as u64) << 16) | ((b3 as u64) << 24) == b0
        + 0x100 * b1 + 0x1_0000 * b2 + 0x100_0000 * b3) by (bit_vector);
    (b0 as u64) | ((b1 as u64) << 8) | ((b2 as u64) << 16) | ((b3 as u64) << 24)
}

/// Reading back the two bytes of `v` gives `v`.
pub proof fn law_le16_round_trip(v: u16)
    ensures
        le16(le16_bytes(v), 0) == v,
{
}

/// Reading back the eight bytes of `v` gives `v`.
pub proof fn law_le64_round_trip(v: u64)
    ensures
        le64(le64_bytes(v), 0) == v,
{
    assert(v == v % 0x100 + 0x100 * (v / 0x100 % 0x100) + 0x1_0000 * (v / 0x1_0000 % 0x100)
        + 0x100_0000 * (v / 0x100_0000 % 0x100) + 0x1_0000_0000 * (v / 0x1_0000_0000 % 0x100)
        + 0x100_0000_0000 * (v / 0x100_0000_0000 % 0x100) + 0x1_0000_0000_0000 * (v
        / 0x1_0000_0000_0000 % 0x100) + 0x100_0000_0000_0000 * (v / 0x100_0000_0000_0000))
        by (bit_vector);
    assert(v / 0x100_0000_0000_0000 < 0x100) by (bit_vector);
}

/// A 16-bit integer weighs its bytes with 1 and 256.
pub proof fn law_le16_weighs_its_bytes(s: Seq<u8>, at: int)
    ensures
        le16(s, at) == s[at] + 0x100 * s[at + 1],
{
}

/// A 64-bit integer weighs its bytes with the powers of 256.
pub proof fn law_le64_weighs_its_bytes(s: Seq<u8>, at: int)
    ensures
        le64(s, at) == s[at] + 0x100 * s[at + 1] + 0x1_0000 * s[at + 2] + 0x100_0000 * s[at + 3]
            + 0x1_0000_0000 * s[at + 4] + 0x100_0000_0000 * s[at + 5] + 0x1_0000_0000_0000 * s[at
            + 6] + 0x100_0000_0000_0000 * s[at + 7],
{
}

} // verus!
