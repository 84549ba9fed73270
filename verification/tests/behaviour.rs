//! Edge cases, and the laws of the library on concrete values.

use smoke_voxel::{
    decode, decode_extended, decode_seed, delta_frames, morton_decode3, pack_voxel, split_frames,
    unpack_voxel, voxel_offset, DecodedSmoke, Frame, FrameKind, Occupancy, OccupancyRecord,
    SeedPoint, SmokeRecord, VoxelDelta, GRID,
};
use std::collections::BTreeSet;

fn push_frame(blob: &mut Vec<u8>, seq: u16, payload: &[u8]) {
    blob.extend_from_slice(&seq.to_le_bytes());
    blob.extend_from_slice(&(payload.len() as u16).to_le_bytes());
    blob.extend_from_slice(payload);
}

fn journal(payloads: &[Vec<u8>]) -> Vec<u8> {
    let mut blob = Vec::new();
    for (i, p) in payloads.iter().enumerate() {
        push_frame(&mut blob, i as u16, p);
    }
    blob
}

fn section(records: &[(u16, u64)], trailing: u8) -> Vec<u8> {
    let mut p = Vec::new();
    p.extend_from_slice(&(records.len() as u16).to_le_bytes());
    for &(word, bits) in records {
        p.extend_from_slice(&word.to_le_bytes());
        p.extend_from_slice(&bits.to_le_bytes());
    }
    p.push(trailing);
    p
}

fn extended(records: &[(u16, u64)]) -> Vec<u8> {
    let mut p = vec![0, 2];
    p.extend_from_slice(&section(records, 0));
    p
}

fn seed_head(flags: u8, points: &[SeedPoint]) -> Vec<u8> {
    let mut p = vec![0, flags, points.len() as u8];
    for s in points {
        p.extend_from_slice(&[s.x, s.y, s.z, s.flag, 0, 0, 0, 0]);
    }
    p
}

fn frame_of(payload: &[u8]) -> Frame<'_> {
    Frame { seq: 0, kind: FrameKind::Other, payload, end_offset: payload.len() }
}

fn accumulate(deltas: &[VoxelDelta]) -> BTreeSet<u16> {
    let mut live = BTreeSet::new();
    for d in deltas {
        for &c in &d.added {
            live.insert(c);
        }
        for c in &d.removed {
            live.remove(c);
        }
    }
    live
}

fn packed(voxels: &[(u8, u8, u8)]) -> BTreeSet<u16> {
    voxels.iter().map(|v| pack_voxel(v.0, v.1, v.2)).collect()
}

#[test]
fn morton_codes_and_voxels_match_one_to_one() {
    let mut seen = BTreeSet::new();
    for m in 0..0x8000u32 {
        let v = morton_decode3(m);
        assert!(v.0 < GRID && v.1 < GRID && v.2 < GRID);
        assert!(seen.insert(v));
    }
    assert_eq!(seen.len(), 32768);
}

#[test]
fn morton_decode_exact_values() {
    assert_eq!(morton_decode3(0), (0, 0, 0));
    assert_eq!(morton_decode3(1), (1, 0, 0));
    assert_eq!(morton_decode3(2), (0, 1, 0));
    assert_eq!(morton_decode3(4), (0, 0, 1));
    assert_eq!(morton_decode3(0x7fff), (31, 31, 31));
    // Past 15 bits the coordinates grow beyond the grid, up to eight bits each.
    assert_eq!(morton_decode3(0x8000), (32, 0, 0));
    assert_eq!(morton_decode3(0xff_ffff), (255, 255, 255));
    assert_eq!(morton_decode3(0x100_0000), (0, 0, 0));
    assert_eq!(morton_decode3(0xffff_ffff), (255, 255, 255));
}

#[test]
fn column_codes_and_voxels_match_one_to_one() {
    for code in 0..0x8000u16 {
        let v = unpack_voxel(code);
        assert_eq!(pack_voxel(v.0, v.1, v.2), code);
    }
    assert_eq!(pack_voxel(1, 2, 3), 1024 + 64 + 3);
    assert_eq!(unpack_voxel(1024 + 64 + 3), (1, 2, 3));
    // Bit 15 plays no part, and coordinates beyond the grid run together.
    assert_eq!(unpack_voxel(0xffff), (31, 31, 31));
    assert_eq!(pack_voxel(0, 0, 32), pack_voxel(0, 1, 0));
    assert_eq!(pack_voxel(64, 0, 0), 0);
}

#[test]
fn splits_joined_frames_and_ignores_the_tail() {
    let mut blob = Vec::new();
    push_frame(&mut blob, 7, &[]);
    push_frame(&mut blob, 0x1234, &[9, 1, 0]);
    let whole = blob.len();
    // A truncated trailing frame.
    blob.extend_from_slice(&[1, 0, 5, 0, 1, 2]);
    let frames = split_frames(&blob, blob.len());
    assert_eq!(frames.len(), 2);
    assert_eq!((frames[0].seq, frames[0].kind, frames[0].end_offset), (7, FrameKind::Other, 4));
    assert_eq!(frames[0].payload, &[] as &[u8]);
    assert_eq!((frames[1].seq, frames[1].kind), (0x1234, FrameKind::Seed));
    assert_eq!(frames[1].payload, &[9, 1, 0]);
    assert_eq!(frames[1].end_offset, whole);
    // A tail shorter than a frame header.
    assert_eq!(split_frames(&blob[..whole + 3], usize::MAX).len(), 2);
}

#[test]
fn size_cuts_the_journal() {
    let blob = journal(&[vec![0, 0, 0], vec![1, 0, 0], extended(&[(3, 5)])]);
    let all = split_frames(&blob, blob.len());
    assert_eq!(all.len(), 3);
    for cut in 0..=blob.len() {
        let part = split_frames(&blob, cut);
        let live = all.iter().filter(|f| f.end_offset <= cut).count();
        assert_eq!(part.len(), live);
        for (a, b) in part.iter().zip(&all) {
            assert_eq!((a.seq, a.kind, a.payload, a.end_offset), (b.seq, b.kind, b.payload, b.end_offset));
        }
    }
    assert_eq!(split_frames(&blob, usize::MAX).len(), 3);
}

#[test]
fn bytes_past_the_size_do_not_matter() {
    let mut blob = journal(&[extended(&[(3, 5)])]);
    let size = blob.len();
    push_frame(&mut blob, 1, &extended(&[(3, 0)]));
    assert_eq!(split_frames(&blob, size).len(), 1);
    assert_eq!(decode(&blob, size).final_occupancy.len(), 2);
    assert_eq!(decode(&blob, blob.len()).final_occupancy.len(), 0);
}

#[test]
fn frames_tile_the_journal() {
    let blob = journal(&[vec![0, 0, 0], vec![5], extended(&[(1, 1), (2, 2)])]);
    let mut start = 0;
    for f in split_frames(&blob, blob.len()) {
        assert_eq!(f.end_offset, start + 4 + f.payload.len());
        assert_eq!(f.payload, &blob[start + 4..f.end_offset]);
        start = f.end_offset;
    }
    assert_eq!(start, blob.len());
}

#[test]
fn classifies_every_bucket() {
    let kinds = |payload: Vec<u8>| {
        let blob = journal(&[payload]);
        split_frames(&blob, blob.len())[0].kind
    };
    assert_eq!(kinds(vec![0, 0, 0]), FrameKind::Heartbeat);
    assert_eq!(kinds(vec![0, 0]), FrameKind::Other);
    assert_eq!(kinds(vec![0, 0, 0, 0]), FrameKind::Other);
    assert_eq!(kinds(vec![0, 1, 0]), FrameKind::Seed);
    assert_eq!(kinds(vec![0, 3]), FrameKind::Seed);
    assert_eq!(kinds(vec![0, 2]), FrameKind::Extended);
    assert_eq!(kinds(vec![0, 0xfe]), FrameKind::Extended);
    assert_eq!(kinds(vec![0, 0xfc]), FrameKind::Other);
    assert_eq!(kinds(vec![2]), FrameKind::Other);
    assert_eq!(kinds(vec![]), FrameKind::Other);
}

#[test]
fn extended_updates_round_trip() {
    let want = [(0x0201, 0x0807_0605_0403_0201), (511, u64::MAX), (0, 0), (0xffff, 1 << 63)];
    let payload = extended(&want);
    let got = decode_extended(&frame_of(&payload));
    assert_eq!(got.len(), 4);
    for (r, &(word, bits)) in got.iter().zip(&want) {
        assert_eq!(*r, OccupancyRecord { word, bits });
    }
}

#[test]
fn seed_frame_carries_both_sections() {
    let points = [SeedPoint { x: 1, y: 2, z: 3, flag: 5 }, SeedPoint { x: 4, y: 5, z: 6, flag: 0 }];
    let mut payload = seed_head(3, &points);
    payload.extend_from_slice(&section(&[(9, 0x11)], 77));
    assert_eq!(decode_seed(&payload), points);
    assert_eq!(decode_extended(&frame_of(&payload)), [OccupancyRecord { word: 9, bits: 0x11 }]);
    let smoke = decode(&journal(&[payload.clone()]), usize::MAX);
    assert_eq!(smoke.seed_footprint, points);
    assert_eq!(smoke.final_occupancy, [morton_decode3(9 * 64), morton_decode3(9 * 64 + 4)]);
    assert_eq!(smoke.extended_frames, 1);
}

#[test]
fn failed_framing_gives_no_updates() {
    let good = extended(&[(1, 1)]);
    let mut short = good.clone();
    short.pop();
    let mut long = good.clone();
    long.push(0);
    let mut unflagged = good.clone();
    unflagged[1] = 0;
    let mut miscounted = good.clone();
    miscounted[2] = 2;
    for bad in [short, long, unflagged, miscounted, vec![], vec![2], vec![0, 2], vec![0, 2, 0], vec![0, 3], vec![0, 3, 1, 0, 0]] {
        assert_eq!(decode_extended(&frame_of(&bad)), []);
        let mut occ = Occupancy::new();
        occ.apply(&frame_of(&good));
        occ.apply(&frame_of(&bad));
        assert_eq!(occ.voxels(), [morton_decode3(64)]);
    }
    // An extended section without records is well framed, whatever its last byte.
    assert_eq!(decode_extended(&frame_of(&[0, 2, 0, 0, 9])), []);
}

#[test]
fn heartbeat_and_other_frames_carry_nothing() {
    assert_eq!(decode_extended(&frame_of(&[0, 0, 0])), []);
    assert_eq!(decode_extended(&frame_of(&[1, 0, 0])), []);
}

#[test]
fn seed_list_ends_at_a_cut_record() {
    let mut payload = seed_head(1, &[SeedPoint { x: 1, y: 2, z: 3, flag: 5 }]);
    payload[2] = 200;
    payload.extend_from_slice(&[9, 9, 9, 9, 0, 0, 0]);
    assert_eq!(decode_seed(&payload), [SeedPoint { x: 1, y: 2, z: 3, flag: 5 }]);
    assert_eq!(decode_seed(&[0, 1]), []);
    assert_eq!(decode_seed(&[0, 1, 4]), []);
    // Records past the announced count are not read.
    payload[2] = 0;
    assert_eq!(decode_seed(&payload), []);
}

#[test]
fn last_update_of_a_word_wins() {
    let mut occ = Occupancy::new();
    occ.apply(&frame_of(&extended(&[(4, 0b1), (7, 0b1), (4, 0b110)])));
    assert_eq!(occ.voxels(), [morton_decode3(4 * 64 + 1), morton_decode3(4 * 64 + 2), morton_decode3(7 * 64)]);
    // Other words are kept.
    occ.apply(&frame_of(&extended(&[(4, 0)])));
    assert_eq!(occ.voxels(), [morton_decode3(7 * 64)]);
    assert_eq!(occ.count(), 1);
}

#[test]
fn resent_updates_change_nothing() {
    let payload = extended(&[(4, 0b1), (7, 0), (4, 0b110)]);
    let mut occ = Occupancy::new();
    occ.apply(&frame_of(&payload));
    let before = occ.voxels();
    occ.apply(&frame_of(&payload));
    assert_eq!(occ.voxels(), before);
    assert_eq!(delta_frames(&journal(&[payload.clone(), payload]), usize::MAX).len(), 1);
}

#[test]
fn voxels_come_in_morton_order() {
    let mut occ = Occupancy::new();
    occ.apply(&frame_of(&extended(&[(300, 1 << 63), (2, 0b101), (511, u64::MAX)])));
    let mut want = vec![morton_decode3(128), morton_decode3(130), morton_decode3(300 * 64 + 63)];
    for b in 0..64 {
        want.push(morton_decode3(511 * 64 + b));
    }
    assert_eq!(occ.voxels(), want);
    assert_eq!(occ.count(), want.len());
    let copy = occ.clone();
    assert_eq!(copy.voxels(), want);
    assert_eq!(Occupancy::default().count(), 0);
    assert_eq!(Occupancy::new().voxels(), []);
}

#[test]
fn words_beyond_the_grid_name_no_voxel() {
    let beyond = extended(&[(512, 1), (1024, 1), (0xffff, u64::MAX)]);
    // Such records are decoded, but they change nothing.
    assert_eq!(decode_extended(&frame_of(&beyond)).len(), 3);
    let mut occ = Occupancy::new();
    occ.apply(&frame_of(&beyond));
    assert_eq!((occ.voxels(), occ.count()), (vec![], 0));
    occ.apply(&frame_of(&extended(&[(511, 1 << 63), (512, 1)])));
    occ.apply(&frame_of(&extended(&[(512, 0), (1023, 0)])));
    assert_eq!(occ.voxels(), [(31, 31, 31)]);
    let blob = journal(&[beyond.clone(), extended(&[(0, 2), (1024, 1)]), beyond]);
    let smoke = decode(&blob, blob.len());
    assert_eq!(smoke.final_occupancy, [(1, 0, 0)]);
    assert_eq!(smoke.extended_frames, 3);
    let deltas = delta_frames(&blob, blob.len());
    assert_eq!(deltas.len(), 1);
    assert_eq!((deltas[0].added.clone(), deltas[0].removed.len()), (vec![1024], 0));
}

#[test]
fn every_delta_code_has_15_bits() {
    let records: Vec<(u16, u64)> = (500..600u16).map(|w| (w, u64::MAX)).collect();
    let cleared: Vec<(u16, u64)> = (500..600u16).map(|w| (w, 0)).collect();
    let blob = journal(&[extended(&records), extended(&cleared)]);
    let deltas = delta_frames(&blob, blob.len());
    assert_eq!(deltas.len(), 2);
    assert_eq!((deltas[0].added.len(), deltas[1].removed.len()), (12 * 64, 12 * 64));
    assert!(deltas[0].added.iter().all(|&c| c < 0x8000));
    assert!(deltas[1].removed.iter().all(|&c| c < 0x8000));
}

#[test]
fn full_grid_has_every_voxel_once() {
    let records: Vec<(u16, u64)> = (0..512u16).map(|w| (w, u64::MAX)).collect();
    let mut occ = Occupancy::new();
    occ.apply(&frame_of(&extended(&records)));
    assert_eq!(occ.count(), 32768);
    let distinct: BTreeSet<(u8, u8, u8)> = occ.voxels().into_iter().collect();
    assert_eq!(distinct.len(), 32768);
    assert!(distinct.iter().all(|v| v.0 < 32 && v.1 < 32 && v.2 < 32));
}

#[test]
fn deltas_reproduce_every_frame() {
    let blob = journal(&[
        vec![0, 0, 0],
        extended(&[(5, 0b11), (80, 0xf0)]),
        extended(&[(5, 0b11)]),
        vec![1, 0, 0],
        extended(&[(5, 0b100), (6, 1)]),
        extended(&[(80, 0)]),
    ]);
    let deltas = delta_frames(&blob, blob.len());
    assert_eq!(deltas.len(), 3);
    for d in &deltas {
        assert!(!(d.added.is_empty() && d.removed.is_empty()));
        assert!(d.added.iter().all(|c| !d.removed.contains(c)));
        assert!(d.added.windows(2).all(|w| w[0] < w[1]));
        assert!(d.removed.windows(2).all(|w| w[0] < w[1]));
    }
    assert!(deltas.windows(2).all(|w| w[0].end_offset < w[1].end_offset));
    for cut in 0..=blob.len() {
        let live = deltas.iter().take_while(|d| d.end_offset <= cut).count();
        assert_eq!(delta_frames(&blob, cut), deltas[..live]);
        let mut occ = Occupancy::new();
        for f in split_frames(&blob, blob.len()) {
            if f.end_offset <= cut {
                occ.apply(&f);
            }
        }
        assert_eq!(accumulate(&deltas[..live]), packed(&occ.voxels()));
        assert_eq!(decode(&blob, cut).final_occupancy, occ.voxels());
    }
}

#[test]
fn delta_exact_values() {
    let blob = journal(&[extended(&[(0, 0b11)]), extended(&[(0, 0b110)])]);
    let deltas = delta_frames(&blob, blob.len());
    let len = 4 + 2 + 2 + 10 + 1;
    assert_eq!(
        deltas,
        [
            VoxelDelta { end_offset: len, added: vec![0, 1024], removed: vec![] },
            VoxelDelta { end_offset: 2 * len, added: vec![32], removed: vec![0] },
        ]
    );
    assert_eq!(deltas[0].clone(), deltas[0]);
    assert_eq!(VoxelDelta::default(), VoxelDelta { end_offset: 0, added: vec![], removed: vec![] });
}

#[test]
fn codes_unpack_to_the_occupied_voxels() {
    let blob = journal(&[extended(&[(0, 0x8000_0000_0000_0001), (511, 1 << 63), (77, 6)])]);
    let live = accumulate(&delta_frames(&blob, blob.len()));
    let unpacked: BTreeSet<(u8, u8, u8)> = live.iter().map(|&c| unpack_voxel(c)).collect();
    let voxels: BTreeSet<(u8, u8, u8)> = decode(&blob, blob.len()).final_occupancy.into_iter().collect();
    assert_eq!(unpacked, voxels);
}

#[test]
fn last_seed_frame_gives_the_footprint() {
    let a = [SeedPoint { x: 1, y: 1, z: 1, flag: 5 }];
    let b = [SeedPoint { x: 2, y: 2, z: 2, flag: 0 }];
    let blob = journal(&[seed_head(1, &a), vec![0, 0, 0], seed_head(1, &b), extended(&[(1, 1)])]);
    let smoke = decode(&blob, blob.len());
    assert_eq!(smoke.seed_footprint, b);
    assert_eq!(smoke.extended_frames, 1);
    assert_eq!(decode(&blob, 15).seed_footprint, a);
    let copy = smoke.clone();
    assert_eq!(copy.seed_footprint, smoke.seed_footprint);
    assert_eq!(copy.final_occupancy, smoke.final_occupancy);
    assert_eq!(copy.extended_frames, 1);
}

#[test]
fn ill_framed_journal_is_empty() {
    let mut bad = extended(&[(1, 1)]);
    bad.push(0);
    let blob = journal(&[vec![0, 0, 0], bad]);
    let smoke = decode(&blob, blob.len());
    assert_eq!(smoke.seed_footprint, []);
    assert_eq!(smoke.final_occupancy, []);
    // It announces an extended section all the same.
    assert_eq!(smoke.extended_frames, 1);
    assert!(delta_frames(&blob, blob.len()).is_empty());
    assert_eq!(decode(&[0xff; 3], 3).final_occupancy, []);
    let none = DecodedSmoke::default();
    assert_eq!((none.seed_footprint.len(), none.final_occupancy.len(), none.extended_frames), (0, 0, 0));
}

#[test]
fn record_size_bounds_the_journal() {
    let blob = journal(&[extended(&[(1, 1)]), extended(&[(1, 3)])]);
    let half = (blob.len() / 2) as i32;
    let decoded = |size: i32| {
        let record = SmokeRecord { voxel_frame_data: blob.clone(), voxel_frame_data_size: size };
        record.clone().decode_voxels()
    };
    assert_eq!(decoded(-1).final_occupancy, []);
    assert_eq!(decoded(i32::MIN).extended_frames, 0);
    assert_eq!(decoded(0).final_occupancy, []);
    assert_eq!(decoded(half).final_occupancy, [morton_decode3(64)]);
    assert_eq!(decoded(i32::MAX).final_occupancy, [morton_decode3(64), morton_decode3(65)]);
    assert_eq!(decoded(i32::MAX).extended_frames, 2);
}

#[test]
fn offsets_are_measured_from_the_centre_voxel() {
    assert_eq!(voxel_offset((16, 16, 16)), (0, 0, 0));
    assert_eq!(voxel_offset((17, 16, 16)), (20, 0, 0));
    assert_eq!(voxel_offset((0, 31, 255)), (-320, 300, 4780));
}
