//! Whole journals: the decoded geometry of a smoke.

#![allow(unused_imports)]

use crate::delta;
use crate::frame;
use crate::frame::{read_section_flags, split_frames, Frame, FrameKind, FrameView};
use crate::morton;
use crate::occupancy;
use crate::occupancy::Occupancy;
use crate::record;
use crate::record::OccupancyRecord;
use crate::seed;
use crate::seed::{decode_seed, SeedPoint};
use vstd::prelude::*;

verus! {

/// Fully decoded smoke geometry.
#[derive(Debug)]
pub struct DecodedSmoke {
    /// Coarse footprint from the seed frame; empty if there is none.
    pub seed_footprint: Vec<SeedPoint>,
    /// Occupied voxels `(x, y, z)` after the last frame, each in `0..32`.
    pub final_occupancy: Vec<(u8, u8, u8)>,
    /// Number of frames that announce an extended section.
    pub extended_frames: usize,
}

impl Default for DecodedSmoke {
    fn default() -> (smoke: Self)
        ensures
            smoke.seed_footprint@ == Seq::<SeedPoint>::empty(),
            smoke.final_occupancy@ == Seq::<(u8, u8, u8)>::empty(),
            smoke.extended_frames == 0,
    {
        DecodedSmoke {
            seed_footprint: Vec::new(),
            final_occupancy: Vec::new(),
            extended_frames: 0,
        }
    }
}

/// A copy of a list of voxels.
fn copy_voxels(voxels: &Vec<(u8, u8, u8)>) -> (copy: Vec<(u8, u8, u8)>)
    ensures
        copy@ == voxels@,
{
    let mut copy: Vec<(u8, u8, u8)> = Vec::with_capacity(voxels.len());
    let mut i: usize = 0;
    while i < voxels.len()
        invariant
            i <= voxels@.len(),
            copy@ =~= voxels@.take(i as int),
        decreases voxels@.len() - i,
    {
        copy.push(voxels[i]);
        i = i + 1;
    }
    copy
}

impl Clone for DecodedSmoke {
    fn clone(&self) -> (smoke: Self)
        ensures
            smoke.seed_footprint@ == self.seed_footprint@,
            smoke.final_occupancy@ == self.final_occupancy@,
            smoke.extended_frames == self.extended_frames,
    {
        DecodedSmoke {
            seed_footprint: self.seed_footprint.clone(),
            final_occupancy: copy_voxels(&self.final_occupancy),
            extended_frames: self.extended_frames,
        }
    }
}

/// The footprint in the last seed frame among the first `n` frames; empty if
/// there is none.
pub open spec fn last_footprint(frames: Seq<FrameView>, n: int) -> Seq<SeedPoint>
    decreases n,
{
    if n <= 0 {
        Seq::empty()
    } else if frames[n - 1].kind is Seed {
        seed::seed_points(frames[n - 1].payload)
    } else {
        last_footprint(frames, n - 1)
    }
}

/// The number of frames among the first `n` that announce an extended section.
pub open spec fn extended_count(frames: Seq<FrameView>, n: int) -> nat
    decreases n,
{
    if n <= 0 {
        0
    } else if frame::has_extended_section(frames[n - 1].payload) {
        extended_count(frames, n - 1) + 1
    } else {
        extended_count(frames, n - 1)
    }
}

/// Whether `smoke` is the geometry that the first `size` bytes of `blob` tell.
pub open spec fn is_decoded(smoke: DecodedSmoke, blob: Seq<u8>, size: int) -> bool {
    let frames = frame::journal_frames(blob, size);
    let n = frames.len() as int;
    &&& smoke.seed_footprint@ == last_footprint(frames, n)
    &&& smoke.final_occupancy@ == occupancy::occupied_voxels(occupancy::words_after(frames, n))
    &&& smoke.extended_frames == extended_count(frames, n)
}

/// Decode a smoke journal blob into its seed footprint and final occupancy.
pub fn decode(blob: &[u8], size: usize) -> (smoke: DecodedSmoke)
    ensures
        is_decoded(smoke, blob@, size as int),
        occupancy::all_in_grid(smoke.final_occupancy@),
{
    let frames: Vec<Frame<'_>> = split_frames(blob, size);
    let ghost views = frame::frame_views(frames@);
    let mut occ = Occupancy::new();
    let mut seed_footprint: Vec<SeedPoint> = Vec::new();
    let mut extended_frames: usize = 0;
    let mut i: usize = 0;
    while i < frames.len()
        invariant
            i <= frames@.len(),
            views == frame::frame_views(frames@),
            seed_footprint@ == last_footprint(views, i as int),
            occ@ == occupancy::words_after(views, i as int),
            extended_frames == extended_count(views, i as int),
            extended_frames <= i,
        decreases frames@.len() - i,
    {
        let f: Frame<'_> = frames[i];
        assert(views[i as int] == f@);
        if f.kind == FrameKind::Seed {
            seed_footprint = decode_seed(f.payload);
        }
        if read_section_flags(f.payload) & 2 != 0 {
            occ.apply(&f);
            extended_frames = extended_frames + 1;
        }
        i = i + 1;
    }
    DecodedSmoke { seed_footprint, final_occupancy: occ.voxels(), extended_frames }
}

/// The voxel journal of one smoke, as captured.
#[derive(Debug)]
pub struct SmokeRecord {
    /// The raw journal.
    pub voxel_frame_data: Vec<u8>,
    /// The authoritative byte length of the journal; negative counts as zero.
    pub voxel_frame_data_size: i32,
}

impl SmokeRecord {
    /// The number of journal bytes that count.
    pub open spec fn journal_size(&self) -> int {
        if self.voxel_frame_data_size < 0 {
            0
        } else {
            self.voxel_frame_data_size as int
        }
    }

    /// Decode this smoke's voxel journal into geometry.
    pub fn decode_voxels(&self) -> (smoke: DecodedSmoke)
        ensures
            is_decoded(smoke, self.voxel_frame_data@, self.journal_size()),
            self.voxel_frame_data_size >= 0 ==> is_decoded(
                smoke,
                self.voxel_frame_data@,
                self.voxel_frame_data_size as int,
            ),
            self.voxel_frame_data_size < 0 ==> is_decoded(smoke, self.voxel_frame_data@, 0),
            occupancy::all_in_grid(smoke.final_occupancy@),
    {
        let size: usize = if self.voxel_frame_data_size < 0 {
            0
        } else {
            self.voxel_frame_data_size as usize
        };
        decode(self.voxel_frame_data.as_slice(), size)
    }
}

impl Clone for SmokeRecord {
    fn clone(&self) -> (record: Self)
        ensures
            record.voxel_frame_data@ == self.voxel_frame_data@,
            record.voxel_frame_data_size == self.voxel_frame_data_size,
    {
        SmokeRecord {
            voxel_frame_data: self.voxel_frame_data.clone(),
            voxel_frame_data_size: self.voxel_frame_data_size,
        }
    }
}

/// The footprint is that of a seed frame after which no other one comes.
pub proof fn law_last_seed_frame_gives_the_footprint(frames: Seq<FrameView>, n: int, k: int)
    requires
        0 <= k < n <= frames.len(),
        frames[k].kind is Seed,
        forall|i: int| k < i < n ==> !((#[trigger] frames[i]).kind is Seed),
    ensures
        last_footprint(frames, n) == seed::seed_points(frames[k].payload),
    decreases n,
{
    if k < n - 1 {
        assert(!(frames[n - 1].kind is Seed));
        law_last_seed_frame_gives_the_footprint(frames, n - 1, k);
    }
}

/// Without a seed frame the footprint is empty.
pub proof fn law_no_seed_frame_no_footprint(frames: Seq<FrameView>, n: int)
    requires
        0 <= n <= frames.len(),
        forall|i: int| 0 <= i < n ==> !((#[trigger] frames[i]).kind is Seed),
    ensures
        last_footprint(frames, n) == Seq::<SeedPoint>::empty(),
    decreases n,
{
    if n > 0 {
        assert(!(frames[n - 1].kind is Seed));
        law_no_seed_frame_no_footprint(frames, n - 1);
    }
}

/// A journal none of whose frames passes the framing check of an extended
/// section has no occupied voxel.
pub proof fn law_ill_framed_journal_is_empty(blob: Seq<u8>, size: int)
    requires
        forall|i: int|
            0 <= i < frame::journal_frames(blob, size).len() ==> !record::well_framed(
                (#[trigger] frame::journal_frames(blob, size)[i]).payload,
            ),
    ensures
        ({
            let frames = frame::journal_frames(blob, size);
            occupancy::occupied_voxels(occupancy::words_after(frames, frames.len() as int))
                == Seq::<(u8, u8, u8)>::empty()
        }),
{
    let frames = frame::journal_frames(blob, size);
    lemma_ill_framed_words(frames, frames.len() as int);
    occupancy::law_no_words_no_voxels();
}

proof fn lemma_ill_framed_words(frames: Seq<FrameView>, n: int)
    requires
        0 <= n <= frames.len(),
        forall|i: int|
            0 <= i < frames.len() ==> !record::well_framed((#[trigger] frames[i]).payload),
    ensures
        occupancy::words_after(frames, n) == Map::<u16, u64>::empty(),
    decreases n,
{
    if n > 0 {
        assert(!record::well_framed(frames[n - 1].payload));
        lemma_ill_framed_words(frames, n - 1);
    }
}

/// A journal of size zero has no frames, whatever the blob holds.
pub proof fn law_no_size_no_frames(blob: Seq<u8>)
    ensures
        frame::journal_frames(blob, 0) == Seq::<FrameView>::empty(),
{
}

/// A payload that carries the given updates and nothing else.
pub open spec fn update_payload(records: Seq<OccupancyRecord>) -> Seq<u8> {
    seq![0u8, 2u8] + record::extended_section(records, 0)
}

/// The frames, as sequence number and payload, that carry the given updates.
pub open spec fn update_frames(list: Seq<(u16, Seq<OccupancyRecord>)>) -> Seq<(u16, Seq<u8>)> {
    Seq::new(list.len(), |i: int| (list[i].0, update_payload(list[i].1)))
}

/// The words after the updates of the first `n` entries.
pub open spec fn words_of_updates(list: Seq<(u16, Seq<OccupancyRecord>)>, n: int) -> Map<u16, u64>
    decreases n,
{
    if n <= 0 {
        Map::empty()
    } else {
        occupancy::put_records(words_of_updates(list, n - 1), list[n - 1].1)
    }
}

proof fn lemma_words_of_written_frames(
    list: Seq<(u16, Seq<OccupancyRecord>)>,
    frames: Seq<FrameView>,
    n: int,
)
    requires
        0 <= n <= list.len(),
        frames == frame::listed_frames(update_frames(list), 0),
        forall|i: int| 0 <= i < list.len() ==> (#[trigger] list[i]).1.len() <= 6553,
    ensures
        occupancy::words_after(frames, n) == words_of_updates(list, n),
    decreases n,
{
    if n > 0 {
        let records = list[n - 1].1;
        lemma_words_of_written_frames(list, frames, n - 1);
        frame::lemma_listed_frame(update_frames(list), 0, n - 1);
        record::law_extended_round_trip(seq![0u8, 2u8], records, 0);
        assert(frames[n - 1].payload == update_payload(records));
    }
}

/// What is written is read back: a journal of frames that carry updates, as many
/// as fit into a frame, leads after each frame to the words that those updates
/// put.
pub proof fn law_written_updates_are_read_back(
    list: Seq<(u16, Seq<OccupancyRecord>)>,
    size: int,
    n: int,
)
    requires
        forall|i: int| 0 <= i < list.len() ==> (#[trigger] list[i]).1.len() <= 6553,
        size >= frame::joined_frames(update_frames(list)).len(),
        0 <= n <= list.len(),
    ensures
        ({
            let frames = frame::journal_frames(frame::joined_frames(update_frames(list)), size);
            &&& frames.len() == list.len()
            &&& occupancy::words_after(frames, n) == words_of_updates(list, n)
        }),
{
    let written = update_frames(list);
    let blob = frame::joined_frames(written);
    assert forall|i: int| 0 <= i < written.len() implies (#[trigger] written[i]).1.len()
        <= 0xffff by {
        assert(list[i].1.len() <= 6553);
    }
    frame::law_split_of_joined_frames(written, Seq::empty(), size);
    assert(blob + Seq::<u8>::empty() =~= blob);
    frame::lemma_listed_frames_len(written, 0);
    lemma_words_of_written_frames(list, frame::journal_frames(blob, size), n);
}

/// Accumulating all deltas of a journal gives the packed form of its final
/// occupancy.
pub proof fn law_deltas_reproduce_the_final_occupancy(
    smoke: DecodedSmoke,
    blob: Seq<u8>,
    size: int,
)
    requires
        is_decoded(smoke, blob, size),
    ensures
        delta::accumulated(delta::journal_deltas(blob, size)) == delta::packed(
            smoke.final_occupancy@,
        ).to_set(),
{
    let frames = frame::journal_frames(blob, size);
    delta::law_accumulated_deltas_give_the_occupancy(frames, frames.len() as int);
}

/// Every voxel of the final occupancy of a journal lies in the grid.
pub proof fn law_final_occupancy_lies_in_the_grid(
    smoke: DecodedSmoke,
    blob: Seq<u8>,
    size: int,
)
    requires
        is_decoded(smoke, blob, size),
    ensures
        smoke.final_occupancy@.len() <= 32 * 32 * 32,
        occupancy::all_in_grid(smoke.final_occupancy@),
{
    let frames = frame::journal_frames(blob, size);
    occupancy::law_voxels_lie_in_the_grid(occupancy::words_after(frames, frames.len() as int));
}

/// The number of frames among the first `n` whose payload has bit 1 of its second
/// byte set.
proof fn lemma_extended_count(frames: Seq<FrameView>, n: int, p: spec_fn(FrameView) -> bool)
    requires
        0 <= n <= frames.len(),
        forall|f: FrameView| #[trigger]
            p(f) <==> f.payload.len() >= 2 && f.payload[1] / 2 % 2 == 1,
    ensures
        extended_count(frames, n) == frames.take(n).filter(p).len(),
    decreases n,
{
    reveal(Seq::filter);
    if n > 0 {
        lemma_extended_count(frames, n - 1, p);
        frame::law_sections_by_payload_bytes(frames[n - 1].payload);
        assert(frames.take(n).drop_last() =~= frames.take(n - 1));
        assert(frames.take(n).last() == frames[n - 1]);
        assert(p(frames[n - 1]) <==> frame::has_extended_section(frames[n - 1].payload));
    }
}

/// The count of extended frames is the number of frames of the journal whose
/// payload has bit 1 of its second byte set, however many there are.
pub proof fn law_extended_frames_counts_the_announcing_frames(
    smoke: DecodedSmoke,
    blob: Seq<u8>,
    size: int,
)
    requires
        is_decoded(smoke, blob, size),
    ensures
        smoke.extended_frames == frame::journal_frames(blob, size).filter(
            |f: FrameView| f.payload.len() >= 2 && f.payload[1] / 2 % 2 == 1,
        ).len(),
{
    let frames = frame::journal_frames(blob, size);
    let n = frames.len() as int;
    lemma_extended_count(
        frames,
        n,
        |f: FrameView| f.payload.len() >= 2 && f.payload[1] / 2 % 2 == 1,
    );
    assert(frames.take(n) =~= frames);
}

/// Only the payloads of the frames decide how many of them are extended.
proof fn lemma_extended_count_by_payloads(a: Seq<FrameView>, b: Seq<FrameView>, n: int)
    requires
        forall|i: int| 0 <= i < n ==> (#[trigger] a[i]).payload == b[i].payload,
    ensures
        extended_count(a, n) == extended_count(b, n),
    decreases n,
{
    if n > 0 {
        lemma_extended_count_by_payloads(a, b, n - 1);
        assert(a[n - 1].payload == b[n - 1].payload);
    }
}

/// Appending one frame to a journal of frames raises the count of extended frames
/// by exactly one if bit 1 of the second byte of its payload is set, and leaves it
/// as it is otherwise.
pub proof fn law_one_more_frame_counts_one_more(
    before: DecodedSmoke,
    after: DecodedSmoke,
    list: Seq<(u16, Seq<u8>)>,
    seq: u16,
    payload: Seq<u8>,
)
    requires
        forall|i: int| 0 <= i < list.len() ==> (#[trigger] list[i]).1.len() <= 0xffff,
        payload.len() <= 0xffff,
        ({
            let blob = frame::joined_frames(list);
            let longer = frame::joined_frames(list.push((seq, payload)));
            &&& is_decoded(before, blob, blob.len() as int)
            &&& is_decoded(after, longer, longer.len() as int)
        }),
    ensures
        after.extended_frames == before.extended_frames + if payload.len() >= 2 && payload[1] / 2
            % 2 == 1 {
            1int
        } else {
            0int
        },
{
    let more = list.push((seq, payload));
    let n = list.len() as int;
    assert forall|i: int| 0 <= i < more.len() implies (#[trigger] more[i]).1.len() <= 0xffff by {
        if i < n {
            assert(more[i] == list[i]);
        }
    }
    lemma_frames_of_joined(list);
    lemma_frames_of_joined(more);
    let a = frame::listed_frames(list, 0);
    let b = frame::listed_frames(more, 0);
    frame::lemma_listed_frames_len(list, 0);
    frame::lemma_listed_frame(more, 0, n);
    assert forall|i: int| 0 <= i < n implies (#[trigger] a[i]).payload == b[i].payload by {
        frame::lemma_listed_frame(list, 0, i);
        frame::lemma_listed_frame(more, 0, i);
    }
    lemma_extended_count_by_payloads(a, b, n);
    frame::law_sections_by_payload_bytes(payload);
}

/// The frames of a journal that is made of frames and nothing else.
proof fn lemma_frames_of_joined(list: Seq<(u16, Seq<u8>)>)
    requires
        forall|i: int| 0 <= i < list.len() ==> (#[trigger] list[i]).1.len() <= 0xffff,
    ensures
        frame::journal_frames(
            frame::joined_frames(list),
            frame::joined_frames(list).len() as int,
        ) == frame::listed_frames(list, 0),
{
    let blob = frame::joined_frames(list);
    frame::law_split_of_joined_frames(list, Seq::empty(), blob.len() as int);
    assert(blob + Seq::<u8>::empty() =~= blob);
}

/// A journal of frames that all carry updates has as many extended frames as it
/// has frames.
pub proof fn law_every_update_frame_is_counted(
    smoke: DecodedSmoke,
    list: Seq<(u16, Seq<OccupancyRecord>)>,
    size: int,
)
    requires
        forall|i: int| 0 <= i < list.len() ==> (#[trigger] list[i]).1.len() <= 6553,
        size >= frame::joined_frames(update_frames(list)).len(),
        is_decoded(smoke, frame::joined_frames(update_frames(list)), size),
    ensures
        smoke.extended_frames == list.len(),
{
    let written = update_frames(list);
    let blob = frame::joined_frames(written);
    let frames = frame::journal_frames(blob, size);
    assert forall|i: int| 0 <= i < written.len() implies (#[trigger] written[i]).1.len()
        <= 0xffff by {
        assert(list[i].1.len() <= 6553);
    }
    frame::law_split_of_joined_frames(written, Seq::empty(), size);
    assert(blob + Seq::<u8>::empty() =~= blob);
    frame::lemma_listed_frames_len(written, 0);
    assert forall|i: int| 0 <= i < frames.len() implies frame::has_extended_section(
        (#[trigger] frames[i]).payload,
    ) by {
        frame::lemma_listed_frame(written, 0, i);
        assert(frames[i].payload[1] == 2);
    }
    lemma_all_extended(frames, frames.len() as int);
}

proof fn lemma_all_extended(frames: Seq<FrameView>, n: int)
    requires
        0 <= n <= frames.len(),
        forall|i: int|
            0 <= i < frames.len() ==> frame::has_extended_section((#[trigger] frames[i]).payload),
    ensures
        extended_count(frames, n) == n,
    decreases n,
{
    if n > 0 {
        lemma_all_extended(frames, n - 1);
        assert(frame::has_extended_section(frames[n - 1].payload));
    }
}

/// The footprint is read from the last frame of the journal whose payload has bit
/// 0 of its second byte set.
pub proof fn law_footprint_is_that_of_the_last_seed_payload(
    smoke: DecodedSmoke,
    blob: Seq<u8>,
    size: int,
    k: int,
)
    requires
        0 <= size,
        is_decoded(smoke, blob, size),
        ({
            let frames = frame::journal_frames(blob, size);
            &&& 0 <= k < frames.len()
            &&& frames[k].payload.len() >= 2 && frames[k].payload[1] % 2 == 1
            &&& forall|i: int|
                k < i < frames.len() ==> (#[trigger] frames[i]).payload.len() < 2
                    || frames[i].payload[1] % 2 == 0
        }),
    ensures
        smoke.seed_footprint@ == seed::seed_points(frame::journal_frames(blob, size)[k].payload),
{
    let frames = frame::journal_frames(blob, size);
    assert forall|i: int| 0 <= i < frames.len() implies ((#[trigger] frames[i]).kind is Seed
        <==> frames[i].payload.len() >= 2 && frames[i].payload[1] % 2 == 1) by {
        frame::law_frame_by_blob_bytes(blob, size, i);
        frame::law_kind_by_payload_bytes(frames[i].payload);
    }
    law_last_seed_frame_gives_the_footprint(frames, frames.len() as int, k);
}

/// The footprint is empty if no payload of the journal has bit 0 of its second
/// byte set.
pub proof fn law_footprint_is_empty_without_a_seed_payload(
    smoke: DecodedSmoke,
    blob: Seq<u8>,
    size: int,
)
    requires
        0 <= size,
        is_decoded(smoke, blob, size),
        forall|i: int|
            0 <= i < frame::journal_frames(blob, size).len() ==> (#[trigger] frame::journal_frames(
                blob,
                size,
            )[i]).payload.len() < 2 || frame::journal_frames(blob, size)[i].payload[1] % 2 == 0,
    ensures
        smoke.seed_footprint@.len() == 0,
{
    let frames = frame::journal_frames(blob, size);
    assert forall|i: int| 0 <= i < frames.len() implies !((#[trigger] frames[i]).kind is Seed) by {
        frame::law_frame_by_blob_bytes(blob, size, i);
        frame::law_kind_by_payload_bytes(frames[i].payload);
    }
    law_no_seed_frame_no_footprint(frames, frames.len() as int);
}

/// A word that no frame from frame `k` on names is after the first `n` frames what
/// it was after the first `k`.
proof fn lemma_word_is_kept(frames: Seq<FrameView>, k: int, n: int, word: u16)
    requires
        0 <= k <= n <= frames.len(),
        forall|j: int, i: int|
            k <= j < n && 0 <= i < record::occupancy_records(frames[j].payload).len() ==> (
            #[trigger] record::occupancy_records(frames[j].payload)[i]).word != word,
    ensures
        occupancy::words_after(frames, n).contains_key(word) <==> occupancy::words_after(
            frames,
            k,
        ).contains_key(word),
        occupancy::words_after(frames, k).contains_key(word) ==> occupancy::words_after(
            frames,
            n,
        )[word] == occupancy::words_after(frames, k)[word],
    decreases n - k,
{
    if k < n {
        lemma_word_is_kept(frames, k, n - 1, word);
        let records = record::occupancy_records(frames[n - 1].payload);
        assert forall|i: int| 0 <= i < records.len() implies (#[trigger] records[i]).word
            != word by {
            assert(record::occupancy_records(frames[n - 1].payload)[i].word != word);
        }
        occupancy::law_word_without_an_update(
            occupancy::words_after(frames, n - 1),
            records,
            word,
        );
    }
}

/// The last update of a journal to a word of the grid decides the voxels of that
/// word: each is in the final occupancy exactly if its bit is set in that update.
pub proof fn law_last_update_of_the_journal_decides(
    smoke: DecodedSmoke,
    blob: Seq<u8>,
    size: int,
    k: int,
    i: int,
    bit: u64,
)
    requires
        is_decoded(smoke, blob, size),
        bit < 64,
        ({
            let frames = frame::journal_frames(blob, size);
            let records = record::occupancy_records(frames[k].payload);
            &&& 0 <= k < frames.len()
            &&& 0 <= i < records.len()
            &&& records[i].word < 512
            &&& forall|b: int|
                i < b < records.len() ==> (#[trigger] records[b]).word != records[i].word
            &&& forall|a: int, b: int|
                k < a < frames.len() && 0 <= b < record::occupancy_records(frames[a].payload).len()
                    ==> (#[trigger] record::occupancy_records(frames[a].payload)[b]).word
                    != records[i].word
        }),
    ensures
        ({
            let r = record::occupancy_records(frame::journal_frames(blob, size)[k].payload)[i];
            smoke.final_occupancy@.contains(
                morton::morton_voxel(64 * r.word + bit),
            ) <==> (r.bits >> bit) & 1 == 1
        }),
{
    let frames = frame::journal_frames(blob, size);
    let n = frames.len() as int;
    let records = record::occupancy_records(frames[k].payload);
    let r = records[i];
    occupancy::law_each_frame_applies_its_updates(frames, k);
    occupancy::law_word_after_its_last_update(occupancy::words_after(frames, k), records, i);
    lemma_word_is_kept(frames, k + 1, n, r.word);
    occupancy::law_voxel_is_listed_by_its_bit(occupancy::words_after(frames, n), r.word, bit);
    if r.bits == 0 {
        assert((0u64 >> bit) & 1 == 0) by (bit_vector);
    }
}

/// A word that no update of a journal names has no voxel in the final occupancy.
pub proof fn law_word_without_updates_is_not_occupied(
    smoke: DecodedSmoke,
    blob: Seq<u8>,
    size: int,
    word: u16,
    bit: u64,
)
    requires
        is_decoded(smoke, blob, size),
        word < 512,
        bit < 64,
        ({
            let frames = frame::journal_frames(blob, size);
            forall|a: int, b: int|
                0 <= a < frames.len() && 0 <= b < record::occupancy_records(
                    frames[a].payload,
                ).len() ==> (#[trigger] record::occupancy_records(frames[a].payload)[b]).word
                    != word
        }),
    ensures
        !smoke.final_occupancy@.contains(morton::morton_voxel(64 * word + bit)),
{
    let frames = frame::journal_frames(blob, size);
    let n = frames.len() as int;
    lemma_word_is_kept(frames, 0, n, word);
    occupancy::law_voxel_is_listed_by_its_bit(occupancy::words_after(frames, n), word, bit);
}

/// The final occupancy lists voxels of the grid only, in strictly ascending order
/// of their Morton codes.
pub proof fn law_final_occupancy_is_in_order(smoke: DecodedSmoke, blob: Seq<u8>, size: int)
    requires
        is_decoded(smoke, blob, size),
    ensures
        forall|i: int|
            0 <= i < smoke.final_occupancy@.len() ==> {
                let v = #[trigger] smoke.final_occupancy@[i];
                &&& v.0 < 32 && v.1 < 32 && v.2 < 32
                &&& 0 <= morton::morton_code(v) < 0x8000
            },
        forall|i: int, j: int|
            0 <= i < j < smoke.final_occupancy@.len() ==> morton::morton_code(
                #[trigger] smoke.final_occupancy@[i],
            ) < morton::morton_code(#[trigger] smoke.final_occupancy@[j]),
{
    let frames = frame::journal_frames(blob, size);
    let words = occupancy::words_after(frames, frames.len() as int);
    assert forall|i: int| 0 <= i < smoke.final_occupancy@.len() implies {
        let v = #[trigger] smoke.final_occupancy@[i];
        &&& v.0 < 32 && v.1 < 32 && v.2 < 32
        &&& 0 <= morton::morton_code(v) < 0x8000
    } by {
        occupancy::law_listed_voxel_has_its_bit(words, i);
    }
    assert forall|i: int, j: int| 0 <= i < j < smoke.final_occupancy@.len() implies
        morton::morton_code(#[trigger] smoke.final_occupancy@[i])
        < morton::morton_code(#[trigger] smoke.final_occupancy@[j]) by {
        occupancy::law_voxels_are_listed_in_order(words, i, j);
    }
}

/// A record is decoded with exactly its own size, whatever that is; a negative
/// size leaves nothing to decode.
pub proof fn law_record_is_decoded_with_its_size(record: SmokeRecord, smoke: DecodedSmoke)
    requires
        is_decoded(smoke, record.voxel_frame_data@, record.journal_size()),
    ensures
        record.voxel_frame_data_size >= 0 ==> record.journal_size()
            == record.voxel_frame_data_size && is_decoded(
            smoke,
            record.voxel_frame_data@,
            record.voxel_frame_data_size as int,
        ),
        record.voxel_frame_data_size < 0 ==> smoke.seed_footprint@.len() == 0
            && smoke.final_occupancy@.len() == 0 && smoke.extended_frames == 0,
{
    if record.voxel_frame_data_size < 0 {
        law_no_size_no_frames(record.voxel_frame_data@);
        occupancy::law_no_words_no_voxels();
    }
}

/// A journal tells one geometry: what is decoded from the same bytes twice is the
/// same, and bytes from `size` on play no part.
pub proof fn law_journal_tells_one_geometry(
    a: DecodedSmoke,
    b: DecodedSmoke,
    blob: Seq<u8>,
    other: Seq<u8>,
    size: int,
)
    requires
        0 <= size <= blob.len(),
        size <= other.len(),
        blob.take(size) == other.take(size),
        is_decoded(a, blob, size),
        is_decoded(b, other, size),
    ensures
        a.seed_footprint@ == b.seed_footprint@,
        a.final_occupancy@ == b.final_occupancy@,
        a.extended_frames == b.extended_frames,
{
    assert(frame::journal(blob, size) =~= blob.take(size));
    assert(frame::journal(other, size) =~= other.take(size));
}

} // verus!
