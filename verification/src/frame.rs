//! Frames of the journal: `[u16 seq][u16 len][payload]`, one after the other.

#![allow(unused_imports)]

use crate::bytes;
use crate::bytes::read_u16;
use vstd::prelude::*;
use vstd::slice::slice_subrange;

verus! {

/// The four journal frame buckets. Only [`FrameKind::Extended`] frames (and the
/// extended section of a [`FrameKind::Seed`] frame) carry occupancy data.
#[derive(Debug, Clone, Copy, PartialEq, Eq, Structural)]
pub enum FrameKind {
    /// Three zero bytes: a keep-alive.
    Heartbeat,
    /// Section flag 1: carries the seed footprint, and perhaps an extended section.
    Seed,
    /// Section flag 2 alone: carries occupancy word updates.
    Extended,
    /// Anything else.
    Other,
}

/// A single length-prefixed journal frame.
#[derive(Debug, Clone, Copy)]
pub struct Frame<'a> {
    pub seq: u16,
    pub kind: FrameKind,
    pub payload: &'a [u8],
    /// Byte offset of the end of this frame within the journal. A frame is live
    /// from the first tick whose cumulative journal size reaches this offset.
    pub end_offset: usize,
}

/// What a [`Frame`] stands for.
#[verifier::ext_equal]
pub struct FrameView {
    pub seq: u16,
    pub kind: FrameKind,
    pub payload: Seq<u8>,
    pub end_offset: int,
}

impl<'a> View for Frame<'a> {
    type V = FrameView;

    open spec fn view(&self) -> FrameView {
        FrameView {
            seq: self.seq,
            kind: self.kind,
            payload: self.payload@,
            end_offset: self.end_offset as int,
        }
    }
}

/// What a sequence of frames stands for.
pub open spec fn frame_views(frames: Seq<Frame<'_>>) -> Seq<FrameView> {
    Seq::new(frames.len(), |i: int| frames[i]@)
}

/// The section flags of a payload: its second byte, zero if it has none.
pub open spec fn section_flags(payload: Seq<u8>) -> u8 {
    if payload.len() >= 2 {
        payload[1]
    } else {
        0
    }
}

/// Whether the payload announces a seed section (section flag 1).
pub open spec fn has_seed_section(payload: Seq<u8>) -> bool {
    section_flags(payload) % 2 == 1
}

/// Whether the payload announces an extended section (section flag 2).
pub open spec fn has_extended_section(payload: Seq<u8>) -> bool {
    section_flags(payload) / 2 % 2 == 1
}

/// The bucket that a payload falls into.
pub open spec fn kind_of(payload: Seq<u8>) -> FrameKind {
    if payload.len() == 3 && payload[0] == 0 && payload[1] == 0 && payload[2] == 0 {
        FrameKind::Heartbeat
    } else if has_seed_section(payload) {
        FrameKind::Seed
    } else if has_extended_section(payload) {
        FrameKind::Extended
    } else {
        FrameKind::Other
    }
}

/// The offset just past the frame that starts at `off`, by its length field.
pub open spec fn frame_end(data: Seq<u8>, off: int) -> int {
    off + 4 + bytes::le16(data, off + 2)
}

/// Whether a whole frame, header and payload, starts at `off`.
pub open spec fn holds_frame(data: Seq<u8>, off: int) -> bool {
    off + 4 <= data.len() && frame_end(data, off) <= data.len()
}

/// The frame that starts at `off`.
pub open spec fn frame_at(data: Seq<u8>, off: int) -> FrameView {
    let payload = data.subrange(off + 4, frame_end(data, off));
    FrameView {
        seq: bytes::le16(data, off),
        kind: kind_of(payload),
        payload,
        end_offset: frame_end(data, off),
    }
}

/// The whole frames from offset `off` on, up to the first offset where no whole
/// frame starts.
pub open spec fn frames_from(data: Seq<u8>, off: int) -> Seq<FrameView>
    decreases data.len() - off,
{
    if 0 <= off && holds_frame(data, off) {
        seq![frame_at(data, off)] + frames_from(data, frame_end(data, off))
    } else {
        Seq::empty()
    }
}

/// The part of `blob` that counts: its first `size` bytes, all if it is shorter.
pub open spec fn journal(blob: Seq<u8>, size: int) -> Seq<u8> {
    if size < blob.len() {
        blob.take(size)
    } else {
        blob
    }
}

/// The frames of the first `size` bytes of `blob`.
pub open spec fn journal_frames(blob: Seq<u8>, size: int) -> Seq<FrameView> {
    frames_from(journal(blob, size), 0)
}

/// The section flags of a payload: its second byte, zero if it has none.
pub(crate) fn read_section_flags(payload: &[u8]) -> (flags: u8)
    ensures
        flags == section_flags(payload@),
        (flags & 1 != 0) == has_seed_section(payload@),
        (flags & 2 != 0) == has_extended_section(payload@),
{
    let flags: u8 = if payload.len() >= 2 {
        payload[1]
    } else {
        0
    };
    assert(flags & 1 != 0 <==> flags % 2 == 1) by (bit_vector);
    assert(flags & 2 != 0 <==> flags / 2 % 2 == 1) by (bit_vector);
    flags
}

/// The bucket that a payload falls into.
fn classify(payload: &[u8]) -> (kind: FrameKind)
    ensures
        kind == kind_of(payload@),
{
    let flags: u8 = read_section_flags(payload);
    if payload.len() == 3 && payload[0] == 0 && payload[1] == 0 && payload[2] == 0 {
        FrameKind::Heartbeat
    } else if flags & 1 != 0 {
        FrameKind::Seed
    } else if flags & 2 != 0 {
        FrameKind::Extended
    } else {
        FrameKind::Other
    }
}

/// Split the journal blob into its frames. `size` is the authoritative length
/// of the journal; bytes past it, and a truncated trailing frame, are ignored.
pub fn split_frames(blob: &[u8], size: usize) -> (frames: Vec<Frame<'_>>)
    ensures
        frame_views(frames@) == journal_frames(blob@, size as int),
{
    let end: usize = if size < blob.len() {
        size
    } else {
        blob.len()
    };
    let ghost data = journal(blob@, size as int);
    let mut out: Vec<Frame<'_>> = Vec::new();
    let mut off: usize = 0;
    assert(frame_views(out@) + frames_from(data, 0) == frames_from(data, 0));
    while end - off >= 4
        invariant_except_break
            frame_views(out@) + frames_from(data, off as int) == frames_from(data, 0),
        invariant
            off <= end,
            end <= blob@.len(),
            data == blob@.take(end as int),
        ensures
            frame_views(out@) == frames_from(data, 0),
        decreases end - off,
    {
        let seq: u16 = read_u16(blob, off);
        let len: usize = read_u16(blob, off + 2) as usize;
        let start: usize = off + 4;
        if end - start < len {
            assert(frames_from(data, off as int) =~= Seq::empty());
            break;
        }
        let next: usize = start + len;
        let payload: &[u8] = slice_subrange(blob, start, next);
        assert(payload@ =~= data.subrange(start as int, next as int));
        let kind: FrameKind = classify(payload);
        let ghost before = out@;
        out.push(Frame { seq, kind, payload, end_offset: next });
        proof {
            let rest = frames_from(data, next as int);
            assert(frame_views(out@) =~= frame_views(before).push(frame_at(data, off as int)));
            assert(frames_from(data, off as int) =~= seq![frame_at(data, off as int)] + rest);
            assert(frame_views(out@) + rest =~= frame_views(before) + (seq![
                frame_at(data, off as int),
            ] + rest));
        }
        off = next;
    }
    out
}

/// Where the frame with index `i` starts: where the one before it ends.
pub open spec fn frame_start(frames: Seq<FrameView>, i: int) -> int {
    if i == 0 {
        0
    } else {
        frames[i - 1].end_offset
    }
}

/// The bytes of a frame.
pub open spec fn frame_bytes(seq: u16, payload: Seq<u8>) -> Seq<u8> {
    bytes::le16_bytes(seq) + bytes::le16_bytes(payload.len() as u16) + payload
}

/// The bytes of the frames with the given sequence numbers and payloads, one
/// after the other.
pub open spec fn joined_frames(list: Seq<(u16, Seq<u8>)>) -> Seq<u8>
    decreases list.len(),
{
    if list.len() == 0 {
        Seq::empty()
    } else {
        frame_bytes(list[0].0, list[0].1) + joined_frames(list.drop_first())
    }
}

/// The frames with the given sequence numbers and payloads, as they appear in a
/// journal from offset `off` on.
pub open spec fn listed_frames(list: Seq<(u16, Seq<u8>)>, off: int) -> Seq<FrameView>
    decreases list.len(),
{
    if list.len() == 0 {
        Seq::empty()
    } else {
        let payload = list[0].1;
        let end_offset = off + 4 + payload.len();
        seq![FrameView { seq: list[0].0, kind: kind_of(payload), payload, end_offset }]
            + listed_frames(list.drop_first(), end_offset)
    }
}

/// Where the frame with index `i` of the frames from `off` on starts.
spec fn start_from(data: Seq<u8>, off: int, i: int) -> int {
    if i == 0 {
        off
    } else {
        frames_from(data, off)[i - 1].end_offset
    }
}

proof fn lemma_frame_of_frames_from(data: Seq<u8>, off: int, i: int)
    requires
        0 <= off <= data.len(),
        0 <= i < frames_from(data, off).len(),
    ensures
        off <= start_from(data, off, i),
        holds_frame(data, start_from(data, off, i)),
        frames_from(data, off)[i] == frame_at(data, start_from(data, off, i)),
    decreases data.len() - off,
{
    let next = frame_end(data, off);
    if i > 0 {
        lemma_frame_of_frames_from(data, next, i - 1);
    }
}

proof fn lemma_end_of_frames_from(data: Seq<u8>, off: int)
    requires
        0 <= off <= data.len(),
    ensures
        !holds_frame(data, start_from(data, off, frames_from(data, off).len() as int)),
    decreases data.len() - off,
{
    if holds_frame(data, off) {
        lemma_end_of_frames_from(data, frame_end(data, off));
    }
}

/// The frames tile the journal: each frame starts where the one before it ends,
/// the first at the beginning, and is what the bytes there spell.
pub proof fn law_frames_tile_the_journal(blob: Seq<u8>, size: int, i: int)
    requires
        0 <= size,
        0 <= i < journal_frames(blob, size).len(),
    ensures
        ({
            let data = journal(blob, size);
            let frame = journal_frames(blob, size)[i];
            let start = frame_start(journal_frames(blob, size), i);
            &&& 0 <= start
            &&& frame.end_offset == start + 4 + frame.payload.len()
            &&& frame.end_offset <= data.len()
            &&& data.subrange(start, frame.end_offset) == frame_bytes(frame.seq, frame.payload)
            &&& frame.kind == kind_of(frame.payload)
        }),
{
    let data = journal(blob, size);
    let frame = journal_frames(blob, size)[i];
    let start = frame_start(journal_frames(blob, size), i);
    lemma_frame_of_frames_from(data, 0, i);
    assert(frame == frame_at(data, start));
    assert(data.subrange(start, frame.end_offset) =~= frame_bytes(frame.seq, frame.payload));
}

/// Frames end in the order in which they stand.
pub proof fn law_frames_end_in_order(blob: Seq<u8>, size: int, i: int, j: int)
    requires
        0 <= size,
        0 <= i < j < journal_frames(blob, size).len(),
    ensures
        journal_frames(blob, size)[i].end_offset < journal_frames(blob, size)[j].end_offset,
    decreases j,
{
    law_frames_tile_the_journal(blob, size, j);
    if i < j - 1 {
        law_frames_end_in_order(blob, size, i, j - 1);
    }
}

/// Splitting stops only where no whole frame starts: none is left over.
pub proof fn law_no_frame_is_left_over(blob: Seq<u8>, size: int)
    requires
        0 <= size,
    ensures
        ({
            let frames = journal_frames(blob, size);
            !holds_frame(journal(blob, size), frame_start(frames, frames.len() as int))
        }),
{
    lemma_end_of_frames_from(journal(blob, size), 0);
}

proof fn lemma_frames_from_cut(data: Seq<u8>, cut: int, off: int)
    requires
        0 <= off <= cut <= data.len(),
    ensures
        ({
            let part = frames_from(data.take(cut), off);
            let whole = frames_from(data, off);
            &&& part.len() <= whole.len()
            &&& part == whole.take(part.len() as int)
            &&& forall|i: int|
                0 <= i < whole.len() ==> (i < part.len() <==> (#[trigger] whole[i]).end_offset
                    <= cut)
        }),
    decreases data.len() - off,
{
    let short = data.take(cut);
    let part = frames_from(short, off);
    let whole = frames_from(data, off);
    if holds_frame(data, off) {
        let next = frame_end(data, off);
        let whole_rest = frames_from(data, next);
        assert(whole =~= seq![frame_at(data, off)] + whole_rest);
        if next <= cut {
            lemma_frames_from_cut(data, cut, next);
            let part_rest = frames_from(short, next);
            assert(frame_at(short, off) =~= frame_at(data, off)) by {
                assert(short.subrange(off + 4, next) =~= data.subrange(off + 4, next));
            }
            assert(part =~= seq![frame_at(short, off)] + part_rest);
            assert forall|i: int| 0 <= i < whole.len() implies (i < part.len() <==> (
            #[trigger] whole[i]).end_offset <= cut) by {
                if i > 0 {
                    assert(whole[i] == whole_rest[i - 1]);
                }
            }
            assert(part =~= whole.take(part.len() as int)) by {
                assert forall|i: int| 0 <= i < part.len() implies part[i] == whole[i] by {
                    if i > 0 {
                        assert(part[i] == part_rest[i - 1]);
                        assert(whole_rest.take(part_rest.len() as int)[i - 1] == whole_rest[i - 1]);
                    }
                }
            }
        } else {
            assert(part.len() == 0);
            lemma_frames_from_end_after(data, off);
            assert(part =~= whole.take(0));
        }
    } else {
        assert(part =~= whole.take(0));
    }
}

/// Every frame from `off` on ends no earlier than the first one.
proof fn lemma_frames_from_end_after(data: Seq<u8>, off: int)
    requires
        0 <= off <= data.len(),
    ensures
        forall|i: int|
            0 <= i < frames_from(data, off).len() ==> (#[trigger] frames_from(
                data,
                off,
            )[i]).end_offset >= frame_end(data, off),
    decreases data.len() - off,
{
    if holds_frame(data, off) {
        let next = frame_end(data, off);
        let rest = frames_from(data, next);
        lemma_frames_from_end_after(data, next);
        assert forall|i: int| 0 <= i < frames_from(data, off).len() implies (
        #[trigger] frames_from(data, off)[i]).end_offset >= next by {
            if i > 0 {
                assert(frames_from(data, off)[i] == rest[i - 1]);
            }
        }
    }
}

/// The journal is append-only and a frame is live once the journal has grown to
/// its end offset: the frames of the first `cut` bytes are those frames of the
/// first `size` bytes that end at or before `cut`, in the same order.
pub proof fn law_frames_by_end_offset(blob: Seq<u8>, cut: int, size: int)
    requires
        0 <= cut <= size,
    ensures
        ({
            let part = journal_frames(blob, cut);
            let whole = journal_frames(blob, size);
            &&& part.len() <= whole.len()
            &&& part == whole.take(part.len() as int)
            &&& forall|i: int|
                0 <= i < whole.len() ==> (i < part.len() <==> (#[trigger] whole[i]).end_offset
                    <= cut)
        }),
{
    let data = journal(blob, size);
    if cut < data.len() {
        assert(journal(blob, cut) =~= data.take(cut));
        lemma_frames_from_cut(data, cut, 0);
    } else {
        assert(data.take(data.len() as int) =~= data);
        lemma_frames_from_cut(data, data.len() as int, 0);
    }
}

/// Bytes past `size` are ignored.
pub proof fn law_bytes_past_size_are_ignored(blob: Seq<u8>, extra: Seq<u8>, size: int)
    requires
        0 <= size <= blob.len(),
    ensures
        journal_frames(blob + extra, size) == journal_frames(blob, size),
{
    assert(journal(blob + extra, size) =~= journal(blob, size));
}

proof fn lemma_split_of_joined(before: Seq<u8>, list: Seq<(u16, Seq<u8>)>, tail: Seq<u8>)
    requires
        forall|i: int| 0 <= i < list.len() ==> (#[trigger] list[i]).1.len() <= 0xffff,
        !holds_frame(tail, 0),
    ensures
        frames_from(before + joined_frames(list) + tail, before.len() as int) == listed_frames(
            list,
            before.len() as int,
        ),
    decreases list.len(),
{
    let data = before + joined_frames(list) + tail;
    let off = before.len() as int;
    if list.len() == 0 {
        assert(data =~= before + tail);
        if off + 4 <= data.len() {
            assert(data[off + 2] == tail[2] && data[off + 3] == tail[3]);
        }
        assert(!holds_frame(data, off));
    } else {
        let seq = list[0].0;
        let payload = list[0].1;
        let head = frame_bytes(seq, payload);
        let rest = joined_frames(list.drop_first());
        assert forall|i: int| 0 <= i < list.drop_first().len() implies (
        #[trigger] list.drop_first()[i]).1.len() <= 0xffff by {
            assert(list.drop_first()[i] == list[i + 1]);
        }
        lemma_split_of_joined(before + head, list.drop_first(), tail);
        assert(before + head + rest + tail =~= data);
        assert(data[off] == head[0] && data[off + 1] == head[1]);
        assert(data[off + 2] == head[2] && data[off + 3] == head[3]);
        assert(bytes::le16(data, off) == seq);
        assert(bytes::le16(data, off + 2) == payload.len());
        assert(data.subrange(off + 4, off + 4 + payload.len()) =~= payload);
        assert((before + head).len() == frame_end(data, off));
    }
}

/// There are as many listed frames as entries.
pub(crate) proof fn lemma_listed_frames_len(list: Seq<(u16, Seq<u8>)>, off: int)
    ensures
        listed_frames(list, off).len() == list.len(),
    decreases list.len(),
{
    if list.len() > 0 {
        lemma_listed_frames_len(list.drop_first(), off + 4 + list[0].1.len());
    }
}

/// A listed frame has the sequence number and the payload of its entry.
pub(crate) proof fn lemma_listed_frame(list: Seq<(u16, Seq<u8>)>, off: int, i: int)
    requires
        0 <= i < list.len(),
    ensures
        listed_frames(list, off).len() == list.len(),
        listed_frames(list, off)[i].seq == list[i].0,
        listed_frames(list, off)[i].payload == list[i].1,
    decreases list.len(),
{
    let next = off + 4 + list[0].1.len();
    lemma_listed_frames_len(list, off);
    lemma_listed_frames_len(list.drop_first(), next);
    if i > 0 {
        lemma_listed_frame(list.drop_first(), next, i - 1);
        assert(listed_frames(list, off)[i] == listed_frames(list.drop_first(), next)[i - 1]);
    }
}

/// Splitting a journal made of frames gives those frames back. What follows the
/// last of them, such as a truncated frame, is ignored as long as it holds no
/// whole frame.
pub proof fn law_split_of_joined_frames(
    list: Seq<(u16, Seq<u8>)>,
    tail: Seq<u8>,
    size: int,
)
    requires
        forall|i: int| 0 <= i < list.len() ==> (#[trigger] list[i]).1.len() <= 0xffff,
        !holds_frame(tail, 0),
        size >= joined_frames(list).len() + tail.len(),
    ensures
        journal_frames(joined_frames(list) + tail, size) == listed_frames(list, 0),
{
    lemma_split_of_joined(Seq::empty(), list, tail);
    assert(Seq::<u8>::empty() + joined_frames(list) + tail =~= joined_frames(list) + tail);
}

/// The section flags are the two low bits of the second byte; a payload without a
/// second byte has none.
pub proof fn law_sections_by_payload_bytes(payload: Seq<u8>)
    ensures
        has_seed_section(payload) <==> payload.len() >= 2 && payload[1] % 2 == 1,
        has_extended_section(payload) <==> payload.len() >= 2 && payload[1] / 2 % 2 == 1,
{
}

/// The bucket of a payload by its bytes: a heartbeat is three zero bytes; of the
/// others, a payload is a seed if bit 0 of its second byte is set, extended if
/// bit 0 is not and bit 1 is, and falls into the last bucket otherwise.
pub proof fn law_kind_by_payload_bytes(payload: Seq<u8>)
    ensures
        kind_of(payload) is Heartbeat <==> payload.len() == 3 && payload[0] == 0 && payload[1] == 0
            && payload[2] == 0,
        kind_of(payload) is Seed <==> payload.len() >= 2 && payload[1] % 2 == 1,
        kind_of(payload) is Extended <==> payload.len() >= 2 && payload[1] % 2 == 0 && payload[1]
            / 2 % 2 == 1,
        kind_of(payload) is Other <==> (payload.len() < 2 || payload[1] % 4 == 0) && !(payload.len()
            == 3 && payload[0] == 0 && payload[1] == 0 && payload[2] == 0),
{
}

/// What each frame of a journal is, by the bytes of the blob: it starts where the
/// one before it ends, its header holds its sequence number and the length of
/// its payload, its payload is the bytes that follow, and it ends within the
/// first `size` bytes of the blob.
pub proof fn law_frame_by_blob_bytes(blob: Seq<u8>, size: int, i: int)
    requires
        0 <= size,
        0 <= i < journal_frames(blob, size).len(),
    ensures
        ({
            let frame = journal_frames(blob, size)[i];
            let start = if i == 0 {
                0
            } else {
                journal_frames(blob, size)[i - 1].end_offset
            };
            let len = blob[start + 2] + 0x100 * blob[start + 3];
            &&& 0 <= start
            &&& frame.seq == blob[start] + 0x100 * blob[start + 1]
            &&& frame.payload == blob.subrange(start + 4, start + 4 + len)
            &&& frame.payload.len() == len
            &&& frame.end_offset == start + 4 + len
            &&& frame.end_offset <= size
            &&& frame.end_offset <= blob.len()
            &&& frame.kind == kind_of(frame.payload)
        }),
{
    let data = journal(blob, size);
    let frame = journal_frames(blob, size)[i];
    let start = frame_start(journal_frames(blob, size), i);
    lemma_frame_of_frames_from(data, 0, i);
    assert(frame == frame_at(data, start));
    assert(frame.payload =~= blob.subrange(start + 4, frame.end_offset));
}

/// Where the frames of a journal stop, by the bytes of the blob: within the first
/// `size` bytes there is no room for another header, or none for the payload
/// that it announces.
pub proof fn law_frames_stop_by_blob_bytes(blob: Seq<u8>, size: int)
    requires
        0 <= size,
    ensures
        ({
            let n = journal_frames(blob, size).len() as int;
            let end = if n == 0 {
                0
            } else {
                journal_frames(blob, size)[n - 1].end_offset
            };
            let limit = if size < blob.len() {
                size
            } else {
                blob.len() as int
            };
            end + 4 > limit || end + 4 + blob[end + 2] + 0x100 * blob[end + 3] > limit
        }),
{
    let frames = journal_frames(blob, size);
    let n = frames.len() as int;
    let end = frame_start(frames, n);
    law_no_frame_is_left_over(blob, size);
    if n > 0 {
        law_frame_by_blob_bytes(blob, size, n - 1);
    }
    if end + 4 <= journal(blob, size).len() {
        assert(journal(blob, size)[end + 2] == blob[end + 2]);
        assert(journal(blob, size)[end + 3] == blob[end + 3]);
    }
}

/// The frames that splitting returns have, field by field, the sequence number,
/// bucket, payload and end offset of the frames of the journal, in their order.
pub proof fn law_returned_frames_are_the_frames(
    blob: Seq<u8>,
    size: int,
    frames: Seq<Frame<'_>>,
)
    requires
        frame_views(frames) == journal_frames(blob, size),
    ensures
        frames.len() == journal_frames(blob, size).len(),
        forall|i: int|
            0 <= i < frames.len() ==> {
                let f = #[trigger] frames[i];
                let told = journal_frames(blob, size)[i];
                &&& f.seq == told.seq
                &&& f.kind == told.kind
                &&& f.payload@ == told.payload
                &&& f.end_offset == told.end_offset
            },
{
    assert(frame_views(frames).len() == frames.len());
    assert forall|i: int| 0 <= i < frames.len() implies {
        let f = #[trigger] frames[i];
        let told = journal_frames(blob, size)[i];
        &&& f.seq == told.seq
        &&& f.kind == told.kind
        &&& f.payload@ == told.payload
        &&& f.end_offset == told.end_offset
    } by {
        assert(frame_views(frames)[i] == frames[i]@);
    }
}

} // verus!
