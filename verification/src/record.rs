//! The extended section of a payload: updates of occupancy words,
//! `[u16 count][count x (u16 word, u64 bits)][u8 trailing]`.

#![allow(unused_imports)]

use crate::bytes;
use crate::bytes::{read_u16, read_u64};
use crate::frame;
use crate::frame::{read_section_flags, Frame};
use crate::seed;
use crate::seed::SeedPoint;
use vstd::prelude::*;

verus! {

/// One occupancy update: a 64-bit word of the 32 x 32 x 32 bitset. `word`, in
/// `0..=511`, is the high 9 bits of the Morton code of each of its voxels; bit
/// `b` of `bits` stands for the voxel with Morton code `64 * word + b`. A word
/// past 511 names no voxel.
#[derive(Debug, Clone, Copy, PartialEq, Eq, Structural)]
pub struct OccupancyRecord {
    pub word: u16,
    pub bits: u64,
}

/// Where the extended section of a payload starts: after the section flags, and
/// after the seed section if there is one.
pub open spec fn extended_start(payload: Seq<u8>) -> int {
    if frame::has_seed_section(payload) {
        3 + 8 * payload[2]
    } else {
        2
    }
}

/// Whether the payload announces an extended section and the section that starts
/// there, count, records and trailing byte, takes up the rest of the payload.
pub open spec fn well_framed(payload: Seq<u8>) -> bool {
    let start = extended_start(payload);
    &&& frame::has_extended_section(payload)
    &&& frame::has_seed_section(payload) ==> payload.len() >= 3
    &&& start + 2 <= payload.len()
    &&& payload.len() - start == 2 + 10 * bytes::le16(payload, start) + 1
}

/// The update in the 10-byte record at offset `at`.
pub open spec fn record_at(payload: Seq<u8>, at: int) -> OccupancyRecord {
    OccupancyRecord { word: bytes::le16(payload, at), bits: bytes::le64(payload, at + 2) }
}

/// The occupancy updates that a payload carries: none unless it is well framed.
pub open spec fn occupancy_records(payload: Seq<u8>) -> Seq<OccupancyRecord> {
    if well_framed(payload) {
        let start = extended_start(payload);
        Seq::new(
            bytes::le16(payload, start) as nat,
            |i: int| record_at(payload, start + 2 + 10 * i),
        )
    } else {
        Seq::empty()
    }
}

/// Decode the occupancy updates that a frame carries. The result is empty if the
/// frame has no extended section or fails the framing check.
pub fn decode_extended(frame: &Frame<'_>) -> (records: Vec<OccupancyRecord>)
    ensures
        records@ == occupancy_records(frame.payload@),
{
    let p: &[u8] = frame.payload;
    let flags: u8 = read_section_flags(p);
    if flags & 2 == 0 {
        return Vec::new();
    }
    let mut o: usize = 2;
    if flags & 1 != 0 {
        if p.len() < 3 {
            return Vec::new();
        }
        o = 3 + 8 * (p[2] as usize);
    }
    assert(o == extended_start(p@));
    if o + 2 > p.len() {
        return Vec::new();
    }
    let count: usize = read_u16(p, o) as usize;
    if p.len() - o != 2 + count * 10 + 1 {
        return Vec::new();
    }
    let mut out: Vec<OccupancyRecord> = Vec::with_capacity(count);
    let mut i: usize = 0;
    while i < count
        invariant
            i <= count,
            count <= 0xffff,
            o <= 3 + 8 * 255,
            p@.len() == o + 2 + 10 * count + 1,
            out@.len() == i,
            forall|k: int| 0 <= k < i ==> out@[k] == record_at(p@, o + 2 + 10 * k),
        decreases count - i,
    {
        let at: usize = o + 2 + i * 10;
        let word: u16 = read_u16(p, at);
        let bits: u64 = read_u64(p, at + 2);
        out.push(OccupancyRecord { word, bits });
        i = i + 1;
    }
    assert(out@ =~= occupancy_records(p@));
    out
}

/// The 10-byte record of an update.
pub open spec fn record_bytes(r: OccupancyRecord) -> Seq<u8> {
    bytes::le16_bytes(r.word) + bytes::le64_bytes(r.bits)
}

/// The extended section with the given updates and trailing byte.
pub open spec fn extended_section(records: Seq<OccupancyRecord>, trailing: u8) -> Seq<u8> {
    bytes::le16_bytes(records.len() as u16) + Seq::new(
        10 * records.len(),
        |k: int| record_bytes(records[k / 10])[k % 10],
    ) + seq![trailing]
}

/// Whether `head` is what stands before an extended section: two bytes with
/// section flag 2 set and, if flag 1 is set too, a seed section of the length
/// that its count announces.
pub open spec fn is_extended_head(head: Seq<u8>) -> bool {
    &&& head.len() >= 2
    &&& frame::has_extended_section(head)
    &&& frame::has_seed_section(head) ==> head.len() >= 3
    &&& head.len() == extended_start(head)
}

/// Decoding a payload that ends in an extended section gives its updates back,
/// with a seed section before it or without.
pub proof fn law_extended_round_trip(
    head: Seq<u8>,
    records: Seq<OccupancyRecord>,
    trailing: u8,
)
    requires
        is_extended_head(head),
        records.len() <= 0xffff,
    ensures
        occupancy_records(head + extended_section(records, trailing)) == records,
{
    let section = extended_section(records, trailing);
    let payload = head + section;
    let start = head.len() as int;
    let n = records.len() as int;
    assert(payload[1] == head[1]);
    assert(extended_start(payload) == start);
    assert(payload[start] == section[0] && payload[start + 1] == section[1]);
    assert(bytes::le16(payload, start) == n);
    assert(well_framed(payload));
    assert forall|i: int| 0 <= i < n implies record_at(payload, start + 2 + 10 * i)
        == records[i] by {
        let at = start + 2 + 10 * i;
        let r = records[i];
        assert forall|j: int| 0 <= j < 10 implies #[trigger] payload[at + j] == record_bytes(
            r,
        )[j] by {
            let k = 10 * i + j;
            assert(k / 10 == i && k % 10 == j);
            assert(payload[at + j] == section[2 + k]);
        }
        assert(payload[at + 0] == bytes::le16_bytes(r.word)[0]);
        assert(payload[at + 1] == bytes::le16_bytes(r.word)[1]);
        assert(bytes::le16(payload, at) == r.word);
        assert forall|j: int| 0 <= j < 8 implies #[trigger] payload[at + 2 + j]
            == bytes::le64_bytes(r.bits)[j] by {
            assert(payload[at + (2 + j)] == record_bytes(r)[2 + j]);
        }
        assert(payload[at + 2 + 0] == bytes::le64_bytes(r.bits)[0]);
        assert(payload[at + 2 + 1] == bytes::le64_bytes(r.bits)[1]);
        assert(payload[at + 2 + 2] == bytes::le64_bytes(r.bits)[2]);
        assert(payload[at + 2 + 3] == bytes::le64_bytes(r.bits)[3]);
        assert(payload[at + 2 + 4] == bytes::le64_bytes(r.bits)[4]);
        assert(payload[at + 2 + 5] == bytes::le64_bytes(r.bits)[5]);
        assert(payload[at + 2 + 6] == bytes::le64_bytes(r.bits)[6]);
        assert(payload[at + 2 + 7] == bytes::le64_bytes(r.bits)[7]);
        bytes::law_le64_round_trip(r.bits);
        assert(bytes::le64(payload, at + 2) == bytes::le64(bytes::le64_bytes(r.bits), 0));
    }
    assert(occupancy_records(payload) =~= records);
}

/// A seed frame carries both: a payload with a seed section and an extended
/// section gives back the points of the one and the updates of the other.
pub proof fn law_seed_frame_carries_both(
    first: u8,
    points: Seq<SeedPoint>,
    records: Seq<OccupancyRecord>,
    trailing: u8,
)
    requires
        points.len() <= 255,
        records.len() <= 0xffff,
    ensures
        ({
            let payload = seq![first, 3] + seed::seed_section(points) + extended_section(
                records,
                trailing,
            );
            &&& frame::kind_of(payload) is Seed
            &&& seed::seed_points(payload) == points
            &&& occupancy_records(payload) == records
        }),
{
    let head = seq![first, 3] + seed::seed_section(points);
    seed::law_seed_round_trip(first, 3, points, extended_section(records, trailing));
    assert(head[1] == 3 && head[2] == points.len());
    law_extended_round_trip(head, records, trailing);
    assert((head + extended_section(records, trailing))[1] == 3);
}

/// Only seed and extended frames carry occupancy updates.
pub proof fn law_other_kinds_carry_nothing(payload: Seq<u8>)
    requires
        frame::kind_of(payload) is Heartbeat || frame::kind_of(payload) is Other,
    ensures
        occupancy_records(payload) == Seq::<OccupancyRecord>::empty(),
{
}

/// The updates by the bytes of the payload. With bit 1 of the second byte clear
/// there are none. With it set, the section starts at the third byte or, if bit 0
/// is set too, after the seed section; its first two bytes count the records, and
/// there are that many records of ten bytes, two for the word and eight for its
/// bits, if exactly one byte is left after them, and none at all otherwise.
pub proof fn law_records_by_payload_bytes(payload: Seq<u8>)
    ensures
        ({
            let rs = occupancy_records(payload);
            let start = if payload[1] % 2 == 1 {
                3 + 8 * payload[2]
            } else {
                2
            };
            let count = payload[start] + 0x100 * payload[start + 1];
            let framed = payload.len() >= 2 && payload[1] / 2 % 2 == 1 && (payload[1] % 2 == 1
                ==> payload.len() >= 3) && start + 2 <= payload.len() && payload.len() == start + 2
                + 10 * count + 1;
            &&& !framed ==> rs.len() == 0
            &&& framed ==> rs.len() == count
            &&& forall|i: int|
                0 <= i < rs.len() ==> {
                    let r = #[trigger] rs[i];
                    let at = start + 2 + 10 * i;
                    &&& r.word == payload[at] + 0x100 * payload[at + 1]
                    &&& r.bits == payload[at + 2] + 0x100 * payload[at + 3] + 0x1_0000 * payload[at
                        + 4] + 0x100_0000 * payload[at + 5] + 0x1_0000_0000 * payload[at + 6]
                        + 0x100_0000_0000 * payload[at + 7] + 0x1_0000_0000_0000 * payload[at + 8]
                        + 0x100_0000_0000_0000 * payload[at + 9]
                }
        }),
{
    let rs = occupancy_records(payload);
    assert forall|i: int| 0 <= i < rs.len() implies {
        let r = #[trigger] rs[i];
        let at = extended_start(payload) + 2 + 10 * i;
        &&& r.word == payload[at] + 0x100 * payload[at + 1]
        &&& r.bits == payload[at + 2] + 0x100 * payload[at + 3] + 0x1_0000 * payload[at + 4]
            + 0x100_0000 * payload[at + 5] + 0x1_0000_0000 * payload[at + 6] + 0x100_0000_0000
            * payload[at + 7] + 0x1_0000_0000_0000 * payload[at + 8] + 0x100_0000_0000_0000
            * payload[at + 9]
    } by {
        let at = extended_start(payload) + 2 + 10 * i;
        bytes::law_le16_weighs_its_bytes(payload, at);
        bytes::law_le64_weighs_its_bytes(payload, at + 2);
    }
}

/// An extended frame, however many updates it carries, falls into that bucket.
pub proof fn law_extended_frame_is_extended(
    first: u8,
    records: Seq<OccupancyRecord>,
    trailing: u8,
)
    ensures
        frame::kind_of(seq![first, 2] + extended_section(records, trailing)) is Extended,
{
    let payload = seq![first, 2] + extended_section(records, trailing);
    assert(payload[1] == 2);
    assert(payload.len() >= 5);
}

} // verus!
