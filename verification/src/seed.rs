//! The seed footprint: `[u8 count][count x (x, y, z, flag, 0, 0, 0, 0)]`, from
//! the third byte of a seed payload on.

use vstd::prelude::*;

verus! {

/// One point of the coarse seed footprint, in the same `0..32` grid frame as the
/// occupancy voxels: `x` and `y` span the horizontal footprint plane, `z` is the
/// near-constant height. `flag` is 5 for the common perimeter points and 0 for the rarer central ones.
#[derive(Debug, Clone, Copy, PartialEq, Eq, Structural)]
pub struct SeedPoint {
    pub x: u8,
    pub y: u8,
    pub z: u8,
    pub flag: u8,
}

/// The number of seed points in a payload: as many as it announces, but no more
/// than it has whole records for.
pub open spec fn seed_count(payload: Seq<u8>) -> int {
    if payload.len() < 3 {
        0
    } else if payload[2] <= (payload.len() - 3) / 8 {
        payload[2] as int
    } else {
        (payload.len() - 3) / 8
    }
}

/// The point in the 8-byte record at offset `at`.
pub open spec fn seed_point_at(payload: Seq<u8>, at: int) -> SeedPoint {
    SeedPoint {
        x: payload[at],
        y: payload[at + 1],
        z: payload[at + 2],
        flag: payload[at + 3],
    }
}

/// The seed footprint in a payload.
pub open spec fn seed_points(payload: Seq<u8>) -> Seq<SeedPoint> {
    Seq::new(seed_count(payload) as nat, |i: int| seed_point_at(payload, 3 + 8 * i))
}

/// Decode the seed footprint from the payload of a seed frame. A record that
/// the payload cuts short ends the list.
pub fn decode_seed(payload: &[u8]) -> (points: Vec<SeedPoint>)
    ensures
        points@ == seed_points(payload@),
{
    if payload.len() < 3 {
        let none: Vec<SeedPoint> = Vec::new();
        assert(none@ =~= seed_points(payload@));
        return none;
    }
    let count: usize = payload[2] as usize;
    let mut out: Vec<SeedPoint> = Vec::with_capacity(count);
    let mut i: usize = 0;
    let mut o: usize = 3;
    while i < count
        invariant_except_break
            i <= count,
        invariant
            payload@.len() >= 3,
            count == payload@[2],
            i <= 255,
            o == 3 + 8 * i,
            o <= payload@.len(),
            out@.len() == i,
            i <= seed_count(payload@),
            forall|k: int| 0 <= k < i ==> out@[k] == seed_point_at(payload@, 3 + 8 * k),
        ensures
            i == seed_count(payload@),
        decreases count - i,
    {
        if payload.len() - o < 8 {
            break;
        }
        out.push(
            SeedPoint { x: payload[o], y: payload[o + 1], z: payload[o + 2], flag: payload[o + 3] },
        );
        o = o + 8;
        i = i + 1;
    }
    assert(out@ =~= seed_points(payload@));
    out
}

/// The 8-byte record of a point.
pub open spec fn seed_record(p: SeedPoint) -> Seq<u8> {
    seq![p.x, p.y, p.z, p.flag, 0, 0, 0, 0]
}

/// The seed section with the given points: their number and their records.
pub open spec fn seed_section(points: Seq<SeedPoint>) -> Seq<u8> {
    seq![points.len() as u8] + Seq::new(
        8 * points.len(),
        |k: int| seed_record(points[k / 8])[k % 8],
    )
}

/// Decoding a payload that holds a seed section gives its points back, whatever
/// the first two bytes are and whatever follows the section.
pub proof fn law_seed_round_trip(first: u8, flags: u8, points: Seq<SeedPoint>, rest: Seq<u8>)
    requires
        points.len() <= 255,
    ensures
        seed_points(seq![first, flags] + seed_section(points) + rest) == points,
{
    let payload = seq![first, flags] + seed_section(points) + rest;
    let n = points.len() as int;
    assert(payload[2] == n);
    assert(seed_count(payload) == n);
    assert forall|i: int| 0 <= i < n implies seed_point_at(payload, 3 + 8 * i) == points[i] by {
        assert forall|j: int| 0 <= j < 8 implies #[trigger] payload[3 + 8 * i + j] == seed_record(
            points[i],
        )[j] by {
            let k = 8 * i + j;
            assert(k / 8 == i && k % 8 == j);
        }
        assert(payload[3 + 8 * i + 0] == points[i].x);
        assert(payload[3 + 8 * i + 1] == points[i].y);
        assert(payload[3 + 8 * i + 2] == points[i].z);
        assert(payload[3 + 8 * i + 3] == points[i].flag);
    }
    assert(seed_points(payload) =~= points);
}

/// The footprint by the bytes of the payload: the third byte announces how many
/// points there are, the first four bytes of each 8-byte record after it are a
/// point, and the list is cut short only where the payload has no whole record
/// left.
pub proof fn law_seed_points_by_payload_bytes(payload: Seq<u8>)
    ensures
        payload.len() < 3 ==> seed_points(payload).len() == 0,
        payload.len() >= 3 ==> {
            let n = seed_points(payload).len();
            &&& n <= payload[2]
            &&& 3 + 8 * n <= payload.len()
            &&& n == payload[2] || 3 + 8 * n + 8 > payload.len()
        },
        forall|i: int|
            0 <= i < seed_points(payload).len() ==> {
                let p = #[trigger] seed_points(payload)[i];
                &&& p.x == payload[3 + 8 * i]
                &&& p.y == payload[4 + 8 * i]
                &&& p.z == payload[5 + 8 * i]
                &&& p.flag == payload[6 + 8 * i]
            },
{
}

} // verus!
