//! Decoding of small hand-made journals.

use smoke_voxel::{
    decode_seed, delta_frames, morton_decode3, pack_voxel, split_frames, unpack_voxel, FrameKind,
    Occupancy, SeedPoint,
};
use std::collections::BTreeSet;

/// Reference Morton encoder.
fn morton_encode3(x: u8, y: u8, z: u8) -> u32 {
    let mut m = 0u32;
    for i in 0..5 {
        m |= ((x as u32 >> i) & 1) << (3 * i);
        m |= ((y as u32 >> i) & 1) << (3 * i + 1);
        m |= ((z as u32 >> i) & 1) << (3 * i + 2);
    }
    m
}

/// A `[u16 seq][u16 len][payload]` framed blob from raw payloads.
fn frame_blob(payloads: &[Vec<u8>]) -> Vec<u8> {
    let mut out = Vec::new();
    for (i, p) in payloads.iter().enumerate() {
        out.extend_from_slice(&(i as u16).to_le_bytes());
        out.extend_from_slice(&(p.len() as u16).to_le_bytes());
        out.extend_from_slice(p);
    }
    out
}

/// One extended payload carrying the given (word, bits) records.
fn extended_payload(records: &[(u16, u64)]) -> Vec<u8> {
    let mut p = vec![0u8, 2u8];
    p.extend_from_slice(&(records.len() as u16).to_le_bytes());
    for &(word, bits) in records {
        p.extend_from_slice(&word.to_le_bytes());
        p.extend_from_slice(&bits.to_le_bytes());
    }
    p.push(0);
    p
}

fn voxel_record(x: u8, y: u8, z: u8) -> (u16, u64) {
    let m = morton_encode3(x, y, z);
    ((m >> 6) as u16, 1u64 << (m & 63))
}

#[test]
fn morton_round_trips() {
    for &(x, y, z) in &[(0, 0, 0), (31, 31, 31), (16, 16, 16), (1, 2, 3), (17, 5, 30), (10, 21, 8)] {
        assert_eq!(morton_decode3(morton_encode3(x, y, z)), (x, y, z));
    }
}

#[test]
fn classifies_frames() {
    let heartbeat = vec![0u8, 0, 0];
    let other = vec![1u8, 0, 0];
    let extended = extended_payload(&[voxel_record(16, 16, 16)]);
    let blob = frame_blob(&[heartbeat, other, extended]);
    let frames = split_frames(&blob, blob.len());
    assert_eq!(frames.len(), 3);
    assert_eq!(frames[0].kind, FrameKind::Heartbeat);
    assert_eq!(frames[1].kind, FrameKind::Other);
    assert_eq!(frames[2].kind, FrameKind::Extended);
    assert_eq!(frames[2].end_offset, blob.len());
}

#[test]
fn decodes_extended_occupancy() {
    let want = [(16u8, 16, 16), (0, 0, 0), (31, 31, 31), (5, 9, 20)];
    let payload = extended_payload(&want.iter().map(|&(x, y, z)| voxel_record(x, y, z)).collect::<Vec<_>>());
    let blob = frame_blob(&[payload]);
    let frames = split_frames(&blob, blob.len());
    let mut occ = Occupancy::new();
    occ.apply(&frames[0]);
    let mut got = occ.voxels();
    got.sort();
    let mut exp = want.to_vec();
    exp.sort();
    assert_eq!(got, exp);
    assert_eq!(occ.count(), want.len());
}

#[test]
fn extended_overwrite_can_clear() {
    // Updates overwrite: re-sending a word with fewer bits clears voxels.
    let (w, _) = voxel_record(16, 16, 16);
    let on = extended_payload(&[(w, 0xFFFF_FFFF_FFFF_FFFF)]);
    let off = extended_payload(&[(w, 0)]);
    let blob = frame_blob(&[on, off]);
    let frames = split_frames(&blob, blob.len());
    let mut occ = Occupancy::new();
    occ.apply(&frames[0]);
    assert_eq!(occ.count(), 64);
    occ.apply(&frames[1]);
    assert_eq!(occ.count(), 0);
}

#[test]
fn decodes_seed_footprint() {
    // count = 2, records [x, y, z, flag, padding]
    let mut p = vec![0u8, 1u8, 2u8];
    p.extend_from_slice(&[10, 11, 16, 5, 0, 0, 0, 0]);
    p.extend_from_slice(&[20, 21, 16, 0, 0, 0, 0, 0]);
    let seed = decode_seed(&p);
    assert_eq!(seed.len(), 2);
    assert_eq!(seed[0], SeedPoint { x: 10, y: 11, z: 16, flag: 5 });
    assert_eq!(seed[1], SeedPoint { x: 20, y: 21, z: 16, flag: 0 });
}

#[test]
fn pack_unpack_round_trips() {
    for &(x, y, z) in &[(0u8, 0u8, 0u8), (31, 31, 31), (16, 16, 16), (17, 5, 30)] {
        assert_eq!(unpack_voxel(pack_voxel(x, y, z)), (x, y, z));
    }
}

#[test]
fn delta_frames_add_then_remove() {
    // Two voxels in the same word, so that one frame can clear one of them.
    let w = 5u16;
    let v0 = morton_decode3(((w as u32) << 6) | 0);
    let v1 = morton_decode3(((w as u32) << 6) | 1);
    let p0 = pack_voxel(v0.0, v0.1, v0.2);
    let p1 = pack_voxel(v1.0, v1.1, v1.2);
    // The first frame sets both bits, the second keeps bit 1 only.
    let blob = frame_blob(&[extended_payload(&[(w, 0b11)]), extended_payload(&[(w, 0b10)])]);
    let d = delta_frames(&blob, blob.len());
    assert_eq!(d.len(), 2);
    let mut a0 = d[0].added.clone();
    a0.sort();
    let mut exp = vec![p0, p1];
    exp.sort();
    assert_eq!(a0, exp);
    assert!(d[0].removed.is_empty());
    assert!(d[1].added.is_empty());
    assert_eq!(d[1].removed, vec![p0]);
    assert_eq!(d[1].end_offset, blob.len());
}

#[test]
fn delta_frames_skip_noop_and_reproduce_final() {
    let want = [(16u8, 16, 16), (0, 0, 0), (31, 31, 31), (5, 9, 20), (8, 8, 8)];
    let f1 = extended_payload(&want[..3].iter().map(|&(x, y, z)| voxel_record(x, y, z)).collect::<Vec<_>>());
    let f1_again = f1.clone();
    let f2 = extended_payload(&want[3..].iter().map(|&(x, y, z)| voxel_record(x, y, z)).collect::<Vec<_>>());
    let blob = frame_blob(&[f1, f1_again, f2]);
    let deltas = delta_frames(&blob, blob.len());
    assert_eq!(deltas.len(), 2, "the identical re-send frame must be skipped");
    // Added minus removed codes must give the full occupancy.
    let mut live: BTreeSet<u16> = BTreeSet::new();
    for d in &deltas {
        for &c in &d.added {
            live.insert(c);
        }
        for &c in &d.removed {
            live.remove(&c);
        }
    }
    let mut got: Vec<(u8, u8, u8)> = live.iter().map(|&c| unpack_voxel(c)).collect();
    got.sort();
    let mut exp = want.to_vec();
    exp.sort();
    assert_eq!(got, exp);
}
