//! Per-frame changes of the occupancy, as column codes.

#![allow(unused_imports)]

use crate::column;
use crate::column::pack_voxel;
use crate::frame;
use crate::frame::{read_section_flags, split_frames, Frame, FrameView};
use crate::listing;
use crate::occupancy;
use crate::occupancy::Occupancy;
use crate::record;
use std::collections::btree_set;
use std::collections::BTreeSet;
use vstd::prelude::*;
use vstd::std_specs::btree::increasing_seq;
use vstd::std_specs::iter::IteratorSpec;

verus! {

/// The change of the occupancy that one frame makes, as 15-bit column codes (see
/// [`pack_voxel`]).
#[derive(Debug, PartialEq, Eq)]
pub struct VoxelDelta {
    /// Byte offset of the end of the frame within the journal.
    pub end_offset: usize,
    /// Voxels that the frame turned on.
    pub added: Vec<u16>,
    /// Voxels that the frame turned off.
    pub removed: Vec<u16>,
}

/// What a [`VoxelDelta`] stands for.
#[verifier::ext_equal]
pub struct DeltaView {
    pub end_offset: int,
    pub added: Seq<u16>,
    pub removed: Seq<u16>,
}

impl View for VoxelDelta {
    type V = DeltaView;

    open spec fn view(&self) -> DeltaView {
        DeltaView {
            end_offset: self.end_offset as int,
            added: self.added@,
            removed: self.removed@,
        }
    }
}

impl Default for VoxelDelta {
    fn default() -> (delta: Self)
        ensures
            delta.end_offset == 0,
            delta.added@ == Seq::<u16>::empty(),
            delta.removed@ == Seq::<u16>::empty(),
    {
        VoxelDelta { end_offset: 0, added: Vec::new(), removed: Vec::new() }
    }
}

impl Clone for VoxelDelta {
    fn clone(&self) -> (delta: Self)
        ensures
            delta@ == self@,
            delta.end_offset == self.end_offset,
            delta.added@ == self.added@,
            delta.removed@ == self.removed@,
    {
        VoxelDelta {
            end_offset: self.end_offset,
            added: self.added.clone(),
            removed: self.removed.clone(),
        }
    }
}

/// What a sequence of deltas stands for.
pub open spec fn delta_views(deltas: Seq<VoxelDelta>) -> Seq<DeltaView> {
    Seq::new(deltas.len(), |i: int| deltas[i]@)
}

/// The column codes of the given voxels.
pub open spec fn packed(voxels: Seq<(u8, u8, u8)>) -> Seq<u16> {
    Seq::new(voxels.len(), |i: int| column::column_code(voxels[i]))
}

/// The column codes of the occupied voxels.
pub open spec fn column_codes(words: Map<u16, u64>) -> Set<u16> {
    packed(occupancy::occupied_voxels(words)).to_set()
}

/// The property of a number that it is a code in the set.
pub open spec fn is_code_in(codes: Set<u16>) -> spec_fn(int) -> bool {
    |c: int| 0 <= c < 0x1_0000 && codes.contains(c as u16)
}

/// The given numbers as codes.
pub open spec fn as_codes(numbers: Seq<int>) -> Seq<u16> {
    Seq::new(numbers.len(), |i: int| numbers[i] as u16)
}

/// The codes of the set in ascending order.
pub open spec fn ascending(codes: Set<u16>) -> Seq<u16> {
    as_codes(listing::listing(is_code_in(codes), 0x1_0000))
}

/// The change that frame `n` makes: the codes that are there after it and were
/// not there before, and those that were there and no longer are.
pub open spec fn frame_delta(frames: Seq<FrameView>, n: int) -> DeltaView {
    let before = column_codes(occupancy::words_after(frames, n));
    let after = column_codes(occupancy::words_after(frames, n + 1));
    DeltaView {
        end_offset: frames[n].end_offset,
        added: ascending(after.difference(before)),
        removed: ascending(before.difference(after)),
    }
}

/// Whether a delta holds no change.
pub open spec fn is_empty_delta(d: DeltaView) -> bool {
    d.added.len() == 0 && d.removed.len() == 0
}

/// The changes that the first `n` frames make, one for each frame that makes any.
pub open spec fn deltas_of(frames: Seq<FrameView>, n: int) -> Seq<DeltaView>
    decreases n,
{
    if n <= 0 {
        Seq::empty()
    } else if is_empty_delta(frame_delta(frames, n - 1)) {
        deltas_of(frames, n - 1)
    } else {
        deltas_of(frames, n - 1).push(frame_delta(frames, n - 1))
    }
}

/// The changes that the frames of the first `size` bytes of `blob` make.
pub open spec fn journal_deltas(blob: Seq<u8>, size: int) -> Seq<DeltaView> {
    let frames = frame::journal_frames(blob, size);
    deltas_of(frames, frames.len() as int)
}

/// Whether `items` lists the codes of the set, in ascending order.
spec fn lists_codes(items: Seq<&u16>, codes: Set<u16>) -> bool {
    &&& forall|i: int, j: int|
        0 <= i < j < items.len() ==> *(#[trigger] items[i]) < *(#[trigger] items[j])
    &&& forall|i: int| 0 <= i < items.len() ==> codes.contains(*(#[trigger] items[i]))
    &&& forall|c: u16| #[trigger]
        codes.contains(c) ==> exists|i: int| 0 <= i < items.len() && *(#[trigger] items[i]) == c
}

/// The code up to which the first `n` items decide: the next item, or the limit
/// if there is no next item.
spec fn codes_done(items: Seq<&u16>, n: int) -> int {
    if n < items.len() {
        *items[n] as int
    } else {
        0x1_0000
    }
}

proof fn lemma_increasing_codes(s: Seq<&u16>)
    requires
        increasing_seq(s),
    ensures
        forall|i: int, j: int| 0 <= i < j < s.len() ==> *(#[trigger] s[i]) < *(#[trigger] s[j]),
{
    broadcast use vstd::laws_cmp::group_laws_cmp;
    broadcast use vstd::std_specs::btree::group_btree_axioms;

    assert(vstd::laws_cmp::obeys_cmp::<u16>());
    assert(vstd::laws_cmp::obeys_cmp::<&u16>());
    assert forall|i: int, j: int| 0 <= i < j < s.len() implies *(#[trigger] s[i]) < *(
    #[trigger] s[j]) by {
        assert(vstd::std_specs::cmp::OrdSpec::cmp_spec(&s[i], &s[j]) is Less);
    }
}

/// The codes of a set in ascending order.
fn iter_codes(codes: &BTreeSet<u16>) -> (iter: btree_set::Iter<'_, u16>)
    ensures
        lists_codes(iter.remaining(), codes@),
        iter.decrease() is Some,
        iter.initial_value_relation(&iter),
{
    broadcast use vstd::laws_cmp::group_laws_cmp;
    broadcast use vstd::std_specs::btree::group_btree_axioms;

    let iter = codes.iter();
    proof {
        assert(vstd::laws_cmp::obeys_cmp::<u16>());
        assert(vstd::std_specs::btree::key_obeys_cmp_spec::<u16>());
        lemma_increasing_codes(iter.remaining());
        assert forall|i: int| 0 <= i < iter.remaining().len() implies codes@.contains(
            *(#[trigger] iter.remaining()[i]),
        ) by {
            assert(iter.remaining().unref()[i] == *iter.remaining()[i]);
            assert(iter.remaining().unref().to_set().contains(*iter.remaining()[i]));
        }
        assert forall|c: u16| #[trigger] codes@.contains(c) implies exists|i: int|
            0 <= i < iter.remaining().len() && *(#[trigger] iter.remaining()[i]) == c by {
            assert(iter.remaining().unref().to_set().contains(c));
            let i = choose|i: int|
                0 <= i < iter.remaining().unref().len() && iter.remaining().unref()[i] == c;
            assert(*iter.remaining()[i] == c);
        }
    }
    iter
}

/// No code of the set comes before the first item.
proof fn lemma_no_code_before(items: Seq<&u16>, p: spec_fn(int) -> bool, all: Set<u16>)
    requires
        lists_codes(items, all),
        forall|c: int| #[trigger] p(c) ==> 0 <= c < 0x1_0000 && all.contains(c as u16),
    ensures
        listing::listing(p, codes_done(items, 0) as nat) == Seq::<int>::empty(),
{
    let end = codes_done(items, 0);
    assert forall|c: int| 0 <= c < end implies !#[trigger] p(c) by {
        if p(c) {
            let i = choose|i: int| 0 <= i < items.len() && *(#[trigger] items[i]) == c as u16;
            if i > 0 {
                assert(*items[0] < *items[i]);
            }
        }
    }
    listing::lemma_listing_gap(p, 0, end as nat);
}

/// No code of the set comes between item `n` and the next one.
proof fn lemma_no_code_between(items: Seq<&u16>, p: spec_fn(int) -> bool, all: Set<u16>, n: int)
    requires
        lists_codes(items, all),
        forall|c: int| #[trigger] p(c) ==> 0 <= c < 0x1_0000 && all.contains(c as u16),
        0 <= n < items.len(),
    ensures
        listing::listing(p, codes_done(items, n + 1) as nat) == listing::listing(
            p,
            (*items[n] + 1) as nat,
        ),
{
    let start = *items[n] + 1;
    let end = codes_done(items, n + 1);
    if n + 1 < items.len() {
        assert(*items[n] < *items[n + 1]);
    }
    assert forall|c: int| start <= c < end implies !#[trigger] p(c) by {
        if p(c) {
            let i = choose|i: int| 0 <= i < items.len() && *(#[trigger] items[i]) == c as u16;
            if i < n {
                assert(*items[i] < *items[n]);
            }
            if n + 1 < i {
                assert(*items[n + 1] < *items[i]);
            }
        }
    }
    listing::lemma_listing_gap(p, start as nat, end as nat);
}

/// Whether a set holds a code.
fn has_code(codes: &BTreeSet<u16>, code: u16) -> (found: bool)
    ensures
        found == codes@.contains(code),
{
    broadcast use vstd::laws_cmp::group_laws_cmp;
    broadcast use vstd::std_specs::btree::group_btree_axioms;

    assert(vstd::laws_cmp::obeys_cmp::<u16>());
    codes.contains(&code)
}

/// Put a code into a set.
fn put_code(codes: &mut BTreeSet<u16>, code: u16)
    ensures
        final(codes)@ == old(codes)@.insert(code),
{
    broadcast use vstd::laws_cmp::group_laws_cmp;
    broadcast use vstd::std_specs::btree::group_btree_axioms;

    assert(vstd::laws_cmp::obeys_cmp::<u16>());
    codes.insert(code);
}

/// The codes that `a` has and `b` has not, in ascending order.
fn difference(a: &BTreeSet<u16>, b: &BTreeSet<u16>) -> (codes: Vec<u16>)
    ensures
        codes@ == ascending(a@.difference(b@)),
{
    let ghost p = is_code_in(a@.difference(b@));
    let mut out: Vec<u16> = Vec::new();
    let items = iter_codes(a);
    proof {
        lemma_no_code_before(items.remaining(), p, a@);
    }
    for item in it: items
        invariant
            lists_codes(it.seq(), a@),
            p == is_code_in(a@.difference(b@)),
            out@ =~= as_codes(
                listing::listing(p, codes_done(it.seq(), it.index() as int) as nat),
            ),
    {
        let code: u16 = *item;
        if !has_code(b, code) {
            out.push(code);
        }
        proof {
            assert(p(code as int) <==> !b@.contains(code));
            assert(out@ =~= as_codes(listing::listing(p, (code + 1) as nat)));
            lemma_no_code_between(it.seq(), p, a@, it.index() as int);
        }
    }
    out
}

/// The column codes of the occupied voxels.
fn packed_voxels(occ: &Occupancy) -> (codes: BTreeSet<u16>)
    ensures
        codes@ == column_codes(occ@),
{
    let voxels: Vec<(u8, u8, u8)> = occ.voxels();
    let ghost all = packed(voxels@);
    let mut codes: BTreeSet<u16> = BTreeSet::new();
    let mut i: usize = 0;
    assert(all.take(0).to_set() =~= Set::empty());
    while i < voxels.len()
        invariant
            i <= voxels@.len(),
            all == packed(voxels@),
            codes@ == all.take(i as int).to_set(),
        decreases voxels@.len() - i,
    {
        let v: (u8, u8, u8) = voxels[i];
        put_code(&mut codes, pack_voxel(v.0, v.1, v.2));
        proof {
            let before = all.take(i as int);
            let code = column::column_code(v);
            assert(all.take(i + 1) =~= before.push(code));
            assert(before.push(code).to_set() =~= before.to_set().insert(code)) by {
                assert forall|c: u16| #[trigger]
                    before.push(code).contains(c) <==> before.contains(c) || c == code by {
                    if before.contains(c) {
                        let k = choose|k: int| 0 <= k < before.len() && before[k] == c;
                        assert(before.push(code)[k] == c);
                    }
                    if c == code {
                        assert(before.push(code)[before.len() as int] == c);
                    }
                }
            }
        }
        i = i + 1;
    }
    assert(all.take(i as int) =~= all);
    codes
}

/// The codes of a set in ascending order are exactly those of the set, none of
/// them twice.
pub proof fn law_ascending_lists_the_set(codes: Set<u16>)
    ensures
        ascending(codes).to_set() == codes,
        forall|c: u16| #[trigger] ascending(codes).contains(c) <==> codes.contains(c),
        forall|i: int, j: int|
            0 <= i < j < ascending(codes).len() ==> ascending(codes)[i] < ascending(codes)[j],
{
    let numbers = listing::listing(is_code_in(codes), 0x1_0000);
    listing::lemma_listing(is_code_in(codes), 0x1_0000);
    assert forall|c: u16| #[trigger] ascending(codes).contains(c) <==> codes.contains(c) by {
        if ascending(codes).contains(c) {
            let i = choose|i: int| 0 <= i < ascending(codes).len() && ascending(codes)[i] == c;
            assert(is_code_in(codes)(numbers[i]));
        }
        if codes.contains(c) {
            assert(is_code_in(codes)(c as int));
            assert(numbers.contains(c as int));
            let i = choose|i: int| 0 <= i < numbers.len() && numbers[i] == c as int;
            assert(ascending(codes)[i] == c);
        }
    }
    assert(ascending(codes).to_set() =~= codes);
}

/// A frame whose updates leave the words as they are makes no change.
proof fn lemma_unchanged_words_give_no_delta(frames: Seq<FrameView>, n: int)
    requires
        occupancy::words_after(frames, n + 1) == occupancy::words_after(frames, n),
    ensures
        is_empty_delta(frame_delta(frames, n)),
{
    let codes = column_codes(occupancy::words_after(frames, n));
    law_ascending_lists_the_set(codes.difference(codes));
    let same = ascending(codes.difference(codes));
    if same.len() > 0 {
        assert(same.contains(same[0]));
    }
}

/// Decode the journal into per-frame changes of the occupancy: the voxels that
/// each frame adds and removes. Frames that change nothing are skipped.
/// Accumulating the added codes minus the removed ones, in order, losslessly
/// reproduces the occupancy after each frame. Every code has 15 bits.
pub fn delta_frames(blob: &[u8], size: usize) -> (deltas: Vec<VoxelDelta>)
    ensures
        delta_views(deltas@) == journal_deltas(blob@, size as int),
        forall|i: int| 0 <= i < deltas@.len() ==> has_15_bit_codes((#[trigger] deltas@[i])@),
{
    let frames: Vec<Frame<'_>> = split_frames(blob, size);
    let ghost views = frame::frame_views(frames@);
    let mut occ = Occupancy::new();
    let mut prev: BTreeSet<u16> = BTreeSet::new();
    let mut out: Vec<VoxelDelta> = Vec::new();
    let mut i: usize = 0;
    proof {
        lemma_no_words_no_codes();
    }
    while i < frames.len()
        invariant
            i <= frames@.len(),
            views == frame::frame_views(frames@),
            occ@ == occupancy::words_after(views, i as int),
            prev@ == column_codes(occupancy::words_after(views, i as int)),
            delta_views(out@) =~= deltas_of(views, i as int),
        decreases frames@.len() - i,
    {
        let f: Frame<'_> = frames[i];
        assert(views[i as int] == f@);
        if read_section_flags(f.payload) & 2 == 0 {
            proof {
                lemma_unchanged_words_give_no_delta(views, i as int);
            }
        } else {
            occ.apply(&f);
            let cur: BTreeSet<u16> = packed_voxels(&occ);
            let added: Vec<u16> = difference(&cur, &prev);
            let removed: Vec<u16> = difference(&prev, &cur);
            prev = cur;
            if added.len() > 0 || removed.len() > 0 {
                out.push(VoxelDelta { end_offset: f.end_offset, added, removed });
                assert(out@[out@.len() - 1]@ == frame_delta(views, i as int));
            }
        }
        i = i + 1;
    }
    proof {
        assert forall|k: int| 0 <= k < out@.len() implies has_15_bit_codes(
            (#[trigger] out@[k])@,
        ) by {
            assert(out@[k]@ == delta_views(out@)[k]);
            law_delta_codes_have_15_bits(views, i as int, k);
        }
    }
    out
}

/// Without words there are no codes.
proof fn lemma_no_words_no_codes()
    ensures
        column_codes(Map::empty()) == Set::<u16>::empty(),
{
    occupancy::law_no_words_no_voxels();
    assert(packed(occupancy::occupied_voxels(Map::empty())).to_set() =~= Set::empty());
}

/// The codes that the given deltas lead to from the empty set: each delta adds
/// its added codes, then takes away its removed ones.
pub open spec fn accumulated(deltas: Seq<DeltaView>) -> Set<u16>
    decreases deltas.len(),
{
    if deltas.len() == 0 {
        Set::empty()
    } else {
        accumulated(deltas.drop_last()).union(deltas.last().added.to_set()).difference(
            deltas.last().removed.to_set(),
        )
    }
}

/// Accumulating the deltas of the first `n` frames, added codes minus removed
/// ones in order, gives exactly the codes of the occupancy after those frames:
/// no frame is lost, though frames without a change have no delta.
pub proof fn law_accumulated_deltas_give_the_occupancy(frames: Seq<FrameView>, n: int)
    requires
        0 <= n <= frames.len(),
    ensures
        accumulated(deltas_of(frames, n)) == column_codes(occupancy::words_after(frames, n)),
    decreases n,
{
    if n == 0 {
        lemma_no_words_no_codes();
    } else {
        let before = column_codes(occupancy::words_after(frames, n - 1));
        let after = column_codes(occupancy::words_after(frames, n));
        let d = frame_delta(frames, n - 1);
        law_accumulated_deltas_give_the_occupancy(frames, n - 1);
        law_ascending_lists_the_set(after.difference(before));
        law_ascending_lists_the_set(before.difference(after));
        if is_empty_delta(d) {
            assert(after =~= before) by {
                assert forall|c: u16| after.contains(c) <==> before.contains(c) by {
                    assert(!d.added.contains(c) && !d.removed.contains(c));
                    assert(!after.difference(before).contains(c));
                    assert(!before.difference(after).contains(c));
                }
            }
        } else {
            assert(deltas_of(frames, n).drop_last() =~= deltas_of(frames, n - 1));
            assert(before.union(after.difference(before)).difference(before.difference(after))
                =~= after);
        }
    }
}

/// Frames that change nothing are skipped: no delta is empty.
pub proof fn law_no_delta_is_empty(frames: Seq<FrameView>, n: int, i: int)
    requires
        0 <= i < deltas_of(frames, n).len(),
    ensures
        !is_empty_delta(deltas_of(frames, n)[i]),
    decreases n,
{
    if i < deltas_of(frames, n - 1).len() {
        law_no_delta_is_empty(frames, n - 1, i);
    }
}

/// A frame without an extended section makes no change.
pub proof fn law_frame_without_updates_gives_no_delta(frames: Seq<FrameView>, n: int)
    requires
        0 <= n < frames.len(),
        !frame::has_extended_section(frames[n].payload),
    ensures
        is_empty_delta(frame_delta(frames, n)),
        deltas_of(frames, n + 1) == deltas_of(frames, n),
{
    lemma_unchanged_words_give_no_delta(frames, n);
}

/// A frame that sends the updates of the frame before it once more makes no
/// change.
pub proof fn law_resent_frame_gives_no_delta(frames: Seq<FrameView>, n: int)
    requires
        1 <= n < frames.len(),
        record::occupancy_records(frames[n].payload) == record::occupancy_records(
            frames[n - 1].payload,
        ),
    ensures
        is_empty_delta(frame_delta(frames, n)),
        deltas_of(frames, n + 1) == deltas_of(frames, n),
{
    occupancy::law_resent_updates_change_nothing(
        occupancy::words_after(frames, n - 1),
        record::occupancy_records(frames[n].payload),
    );
    lemma_unchanged_words_give_no_delta(frames, n);
}

/// A delta never adds and removes the same code; what it adds was not there
/// before, and what it removes was.
pub proof fn law_delta_tells_the_change(frames: Seq<FrameView>, n: int, c: u16)
    ensures
        ({
            let before = column_codes(occupancy::words_after(frames, n));
            let after = column_codes(occupancy::words_after(frames, n + 1));
            let d = frame_delta(frames, n);
            &&& d.added.contains(c) <==> after.contains(c) && !before.contains(c)
            &&& d.removed.contains(c) <==> before.contains(c) && !after.contains(c)
            &&& !(d.added.contains(c) && d.removed.contains(c))
        }),
{
    let before = column_codes(occupancy::words_after(frames, n));
    let after = column_codes(occupancy::words_after(frames, n + 1));
    law_ascending_lists_the_set(after.difference(before));
    law_ascending_lists_the_set(before.difference(after));
}

/// Deltas of the first `n` frames do not depend on later frames.
proof fn lemma_deltas_of_first_frames(frames: Seq<FrameView>, k: int, n: int)
    requires
        0 <= n <= k <= frames.len(),
    ensures
        deltas_of(frames.take(k), n) == deltas_of(frames, n),
    decreases n,
{
    if n > 0 {
        occupancy::lemma_words_after_first_frames(frames, k, n - 1);
        occupancy::lemma_words_after_first_frames(frames, k, n);
        lemma_deltas_of_first_frames(frames, k, n - 1);
    }
}

/// Deltas of frames that end at or before `cut` have end offsets up to `cut`.
proof fn lemma_delta_ends(frames: Seq<FrameView>, n: int, cut: int)
    requires
        0 <= n <= frames.len(),
        forall|i: int| 0 <= i < n ==> (#[trigger] frames[i]).end_offset <= cut,
    ensures
        forall|i: int|
            0 <= i < deltas_of(frames, n).len() ==> (#[trigger] deltas_of(frames, n)[i]).end_offset
                <= cut,
    decreases n,
{
    if n > 0 {
        lemma_delta_ends(frames, n - 1, cut);
        assert(frames[n - 1].end_offset <= cut);
        assert forall|i: int| 0 <= i < deltas_of(frames, n).len() implies (#[trigger] deltas_of(
            frames,
            n,
        )[i]).end_offset <= cut by {
            if i < deltas_of(frames, n - 1).len() {
                assert(deltas_of(frames, n)[i] == deltas_of(frames, n - 1)[i]);
            }
        }
    }
}

proof fn lemma_deltas_by_end_offset(frames: Seq<FrameView>, k: int, n: int, cut: int)
    requires
        0 <= k <= n <= frames.len(),
        forall|i: int|
            0 <= i < frames.len() ==> (i < k <==> (#[trigger] frames[i]).end_offset <= cut),
    ensures
        ({
            let part = deltas_of(frames, k);
            let whole = deltas_of(frames, n);
            &&& part.len() <= whole.len()
            &&& part == whole.take(part.len() as int)
            &&& forall|i: int|
                0 <= i < whole.len() ==> (i < part.len() <==> (#[trigger] whole[i]).end_offset
                    <= cut)
        }),
    decreases n,
{
    let part = deltas_of(frames, k);
    let whole = deltas_of(frames, n);
    if n == k {
        lemma_delta_ends(frames, k, cut);
        assert(part =~= whole.take(part.len() as int));
    } else {
        lemma_deltas_by_end_offset(frames, k, n - 1, cut);
        let shorter = deltas_of(frames, n - 1);
        assert(frames[n - 1].end_offset > cut);
        assert forall|i: int| 0 <= i < whole.len() implies (i < part.len() <==> (
        #[trigger] whole[i]).end_offset <= cut) by {
            if i < shorter.len() {
                assert(whole[i] == shorter[i]);
            }
        }
        assert(part =~= whole.take(part.len() as int)) by {
            assert forall|i: int| 0 <= i < part.len() implies part[i] == whole[i] by {
                assert(shorter.take(part.len() as int)[i] == shorter[i]);
            }
        }
    }
}

/// A delta is live once the journal has grown to its end offset: the deltas of
/// the first `cut` bytes are those deltas of the first `size` bytes that end at
/// or before `cut`, and accumulated they give the occupancy at that point.
pub proof fn law_deltas_by_end_offset(blob: Seq<u8>, cut: int, size: int)
    requires
        0 <= cut <= size,
    ensures
        ({
            let part = journal_deltas(blob, cut);
            let whole = journal_deltas(blob, size);
            let frames = frame::journal_frames(blob, cut);
            &&& part.len() <= whole.len()
            &&& part == whole.take(part.len() as int)
            &&& forall|i: int|
                0 <= i < whole.len() ==> (i < part.len() <==> (#[trigger] whole[i]).end_offset
                    <= cut)
            &&& accumulated(part) == column_codes(
                occupancy::words_after(frames, frames.len() as int),
            )
        }),
{
    let part = frame::journal_frames(blob, cut);
    let whole = frame::journal_frames(blob, size);
    let k = part.len() as int;
    frame::law_frames_by_end_offset(blob, cut, size);
    lemma_deltas_of_first_frames(whole, k, k);
    lemma_deltas_by_end_offset(whole, k, whole.len() as int, cut);
    law_accumulated_deltas_give_the_occupancy(part, k);
}

proof fn lemma_deltas_end_in_order(frames: Seq<FrameView>, n: int, i: int, j: int)
    requires
        0 <= n <= frames.len(),
        forall|a: int, b: int|
            0 <= a < b < frames.len() ==> (#[trigger] frames[a]).end_offset < (
            #[trigger] frames[b]).end_offset,
        0 <= i < j < deltas_of(frames, n).len(),
    ensures
        deltas_of(frames, n)[i].end_offset < deltas_of(frames, n)[j].end_offset,
    decreases n,
{
    let shorter = deltas_of(frames, n - 1);
    if j < shorter.len() {
        lemma_deltas_end_in_order(frames, n - 1, i, j);
    } else {
        lemma_delta_ends(frames, n - 1, frames[n - 1].end_offset - 1);
        assert(deltas_of(frames, n)[i] == shorter[i]);
    }
}

/// Deltas come in the order of the frames that make them.
pub proof fn law_deltas_end_in_order(blob: Seq<u8>, size: int, i: int, j: int)
    requires
        0 <= size,
        0 <= i < j < journal_deltas(blob, size).len(),
    ensures
        journal_deltas(blob, size)[i].end_offset < journal_deltas(blob, size)[j].end_offset,
{
    let frames = frame::journal_frames(blob, size);
    assert forall|a: int, b: int| 0 <= a < b < frames.len() implies (
    #[trigger] frames[a]).end_offset < (#[trigger] frames[b]).end_offset by {
        frame::law_frames_end_in_order(blob, size, a, b);
    }
    lemma_deltas_end_in_order(frames, frames.len() as int, i, j);
}

/// Column codes are lossless: a voxel of the grid is occupied exactly if its code
/// is there.
pub proof fn law_codes_tell_the_voxels(words: Map<u16, u64>, v: (u8, u8, u8))
    requires
        occupancy::in_grid(v),
    ensures
        column_codes(words).contains(column::column_code(v)) <==> occupancy::occupied_voxels(
            words,
        ).contains(v),
{
    let voxels = occupancy::occupied_voxels(words);
    let codes = packed(voxels);
    let code = column::column_code(v);
    occupancy::law_voxels_lie_in_the_grid(words);
    if voxels.contains(v) {
        let i = choose|i: int| 0 <= i < voxels.len() && voxels[i] == v;
        assert(codes[i] == code);
        assert(codes.contains(code));
    }
    if column_codes(words).contains(code) {
        let i = choose|i: int| 0 <= i < codes.len() && codes[i] == code;
        assert(occupancy::in_grid(voxels[i]));
        column::law_pack_then_unpack(v);
        column::law_pack_then_unpack(voxels[i]);
        assert(voxels[i] == v);
    }
}

/// Every column code has 15 bits and unpacks to an occupied voxel.
pub proof fn law_codes_unpack_to_voxels(words: Map<u16, u64>, code: u16)
    requires
        column_codes(words).contains(code),
    ensures
        code < 0x8000,
        occupancy::occupied_voxels(words).contains(column::column_voxel(code)),
{
    let voxels = occupancy::occupied_voxels(words);
    let codes = packed(voxels);
    occupancy::law_voxels_lie_in_the_grid(words);
    let i = choose|i: int| 0 <= i < codes.len() && codes[i] == code;
    assert(occupancy::in_grid(voxels[i]));
    column::law_pack_then_unpack(voxels[i]);
}

/// Whether every code of a delta has 15 bits.
pub open spec fn has_15_bit_codes(d: DeltaView) -> bool {
    &&& forall|k: int| 0 <= k < d.added.len() ==> #[trigger] d.added[k] < 0x8000
    &&& forall|k: int| 0 <= k < d.removed.len() ==> #[trigger] d.removed[k] < 0x8000
}

/// Every code of every delta has 15 bits.
pub proof fn law_delta_codes_have_15_bits(frames: Seq<FrameView>, n: int, i: int)
    requires
        0 <= i < deltas_of(frames, n).len(),
    ensures
        has_15_bit_codes(deltas_of(frames, n)[i]),
    decreases n,
{
    if i < deltas_of(frames, n - 1).len() {
        law_delta_codes_have_15_bits(frames, n - 1, i);
    } else {
        let before = occupancy::words_after(frames, n - 1);
        let after = occupancy::words_after(frames, n);
        let d = frame_delta(frames, n - 1);
        assert forall|k: int| 0 <= k < d.added.len() implies #[trigger] d.added[k] < 0x8000 by {
            assert(d.added.contains(d.added[k]));
            law_delta_tells_the_change(frames, n - 1, d.added[k]);
            law_codes_unpack_to_voxels(after, d.added[k]);
        }
        assert forall|k: int| 0 <= k < d.removed.len() implies #[trigger] d.removed[k]
            < 0x8000 by {
            assert(d.removed.contains(d.removed[k]));
            law_delta_tells_the_change(frames, n - 1, d.removed[k]);
            law_codes_unpack_to_voxels(before, d.removed[k]);
        }
    }
}

/// Deltas are lossless: the deltas of the first `n` frames, accumulated, tell of
/// every voxel of the grid whether it is occupied after those frames, and each
/// code unpacks to an occupied voxel.
pub proof fn law_deltas_are_lossless(
    frames: Seq<FrameView>,
    n: int,
    v: (u8, u8, u8),
    code: u16,
)
    requires
        0 <= n <= frames.len(),
        occupancy::in_grid(v),
    ensures
        ({
            let codes = accumulated(deltas_of(frames, n));
            let voxels = occupancy::occupied_voxels(occupancy::words_after(frames, n));
            &&& codes.contains(column::column_code(v)) <==> voxels.contains(v)
            &&& codes.contains(code) ==> voxels.contains(column::column_voxel(code))
        }),
{
    let words = occupancy::words_after(frames, n);
    law_accumulated_deltas_give_the_occupancy(frames, n);
    law_codes_tell_the_voxels(words, v);
    if column_codes(words).contains(code) {
        law_codes_unpack_to_voxels(words, code);
    }
}

/// A delta of the list belongs to one frame: it is that frame's change, and the
/// deltas before it are those of the frames before.
proof fn lemma_frame_of_delta(frames: Seq<FrameView>, n: int, j: int) -> (k: int)
    requires
        0 <= n <= frames.len(),
        0 <= j < deltas_of(frames, n).len(),
    ensures
        0 <= k < n,
        deltas_of(frames, n)[j] == frame_delta(frames, k),
        !is_empty_delta(frame_delta(frames, k)),
        deltas_of(frames, n).take(j) == deltas_of(frames, k),
    decreases n,
{
    let shorter = deltas_of(frames, n - 1);
    if j < shorter.len() {
        let k = lemma_frame_of_delta(frames, n - 1, j);
        assert(deltas_of(frames, n).take(j) =~= shorter.take(j));
        k
    } else {
        assert(deltas_of(frames, n).take(j) =~= shorter);
        n - 1
    }
}

/// A frame whose change is not empty has its delta in the list.
proof fn lemma_delta_of_frame(frames: Seq<FrameView>, n: int, k: int) -> (j: int)
    requires
        0 <= k < n <= frames.len(),
        !is_empty_delta(frame_delta(frames, k)),
    ensures
        0 <= j < deltas_of(frames, n).len(),
        deltas_of(frames, n)[j] == frame_delta(frames, k),
    decreases n,
{
    if k == n - 1 {
        deltas_of(frames, n - 1).len() as int
    } else {
        lemma_delta_of_frame(frames, n - 1, k)
    }
}

/// A code is among the column codes exactly if it has 15 bits and unpacks to an
/// occupied voxel.
proof fn lemma_code_by_voxel(words: Map<u16, u64>, c: u16)
    ensures
        column_codes(words).contains(c) <==> c < 0x8000 && occupancy::occupied_voxels(
            words,
        ).contains(column::column_voxel(c)),
{
    if column_codes(words).contains(c) {
        law_codes_unpack_to_voxels(words, c);
    }
    if c < 0x8000 {
        let v = column::column_voxel(c);
        column::law_unpack_then_pack(c);
        assert(v.0 < 32 && v.1 < 32 && v.2 < 32);
        law_codes_tell_the_voxels(words, v);
    }
}

/// What each returned delta tells, by the voxels: it has the end offset of a
/// frame `k` of the journal, and a code is in its list of added codes exactly if
/// it is the code of a voxel that is occupied after frame `k` and was not before
/// it, and in its list of removed codes exactly if it is the code of one that was
/// occupied before frame `k` and is not after it. Both lists are strictly
/// ascending, and they are not both empty.
pub proof fn law_returned_delta_tells_the_change_of_its_frame(
    blob: Seq<u8>,
    size: int,
    deltas: Seq<VoxelDelta>,
    j: int,
) -> (k: int)
    requires
        delta_views(deltas) == journal_deltas(blob, size),
        0 <= j < deltas.len(),
    ensures
        ({
            let frames = frame::journal_frames(blob, size);
            let before = occupancy::occupied_voxels(occupancy::words_after(frames, k));
            let after = occupancy::occupied_voxels(occupancy::words_after(frames, k + 1));
            let added = deltas[j].added@;
            let removed = deltas[j].removed@;
            &&& 0 <= k < frames.len()
            &&& deltas[j].end_offset == frames[k].end_offset
            &&& forall|c: u16| #[trigger]
                added.contains(c) <==> c < 0x8000 && after.contains(column::column_voxel(c))
                    && !before.contains(column::column_voxel(c))
            &&& forall|c: u16| #[trigger]
                removed.contains(c) <==> c < 0x8000 && before.contains(column::column_voxel(c))
                    && !after.contains(column::column_voxel(c))
            &&& forall|a: int, b: int| 0 <= a < b < added.len() ==> added[a] < added[b]
            &&& forall|a: int, b: int| 0 <= a < b < removed.len() ==> removed[a] < removed[b]
            &&& added.len() + removed.len() > 0
        }),
{
    let frames = frame::journal_frames(blob, size);
    let n = frames.len() as int;
    assert(delta_views(deltas).len() == deltas.len());
    assert(delta_views(deltas)[j] == deltas[j]@);
    let k = lemma_frame_of_delta(frames, n, j);
    let words_before = occupancy::words_after(frames, k);
    let words_after = occupancy::words_after(frames, k + 1);
    let before = occupancy::occupied_voxels(words_before);
    let after = occupancy::occupied_voxels(words_after);
    let added = deltas[j].added@;
    let removed = deltas[j].removed@;
    law_ascending_lists_the_set(column_codes(words_after).difference(column_codes(words_before)));
    law_ascending_lists_the_set(column_codes(words_before).difference(column_codes(words_after)));
    assert forall|c: u16| #[trigger] added.contains(c) <==> c < 0x8000 && after.contains(
        column::column_voxel(c),
    ) && !before.contains(column::column_voxel(c)) by {
        lemma_code_by_voxel(words_before, c);
        lemma_code_by_voxel(words_after, c);
    }
    assert forall|c: u16| #[trigger] removed.contains(c) <==> c < 0x8000 && before.contains(
        column::column_voxel(c),
    ) && !after.contains(column::column_voxel(c)) by {
        lemma_code_by_voxel(words_before, c);
        lemma_code_by_voxel(words_after, c);
    }
    k
}

/// Every change is returned: if frame `k` turns a voxel on or off, one of the
/// returned deltas has the end offset of frame `k`.
pub proof fn law_every_change_is_returned(
    blob: Seq<u8>,
    size: int,
    deltas: Seq<VoxelDelta>,
    k: int,
    v: (u8, u8, u8),
) -> (j: int)
    requires
        delta_views(deltas) == journal_deltas(blob, size),
        0 <= k < frame::journal_frames(blob, size).len(),
        ({
            let frames = frame::journal_frames(blob, size);
            occupancy::occupied_voxels(occupancy::words_after(frames, k)).contains(v)
                != occupancy::occupied_voxels(occupancy::words_after(frames, k + 1)).contains(v)
        }),
    ensures
        0 <= j < deltas.len(),
        deltas[j].end_offset == frame::journal_frames(blob, size)[k].end_offset,
        deltas[j].added@.contains(column::column_code(v)) || deltas[j].removed@.contains(
            column::column_code(v),
        ),
{
    let frames = frame::journal_frames(blob, size);
    let before = occupancy::words_after(frames, k);
    let after = occupancy::words_after(frames, k + 1);
    let c = column::column_code(v);
    occupancy::law_voxels_lie_in_the_grid(before);
    occupancy::law_voxels_lie_in_the_grid(after);
    assert(occupancy::in_grid(v)) by {
        if occupancy::occupied_voxels(before).contains(v) {
            let i = choose|i: int|
                0 <= i < occupancy::occupied_voxels(before).len() && occupancy::occupied_voxels(
                    before,
                )[i] == v;
            assert(occupancy::in_grid(occupancy::occupied_voxels(before)[i]));
        } else {
            let i = choose|i: int|
                0 <= i < occupancy::occupied_voxels(after).len() && occupancy::occupied_voxels(
                    after,
                )[i] == v;
            assert(occupancy::in_grid(occupancy::occupied_voxels(after)[i]));
        }
    }
    law_codes_tell_the_voxels(before, v);
    law_codes_tell_the_voxels(after, v);
    law_delta_tells_the_change(frames, k, c);
    let d = frame_delta(frames, k);
    assert(d.added.contains(c) || d.removed.contains(c));
    let j = lemma_delta_of_frame(frames, frames.len() as int, k);
    assert(delta_views(deltas).len() == deltas.len());
    assert(delta_views(deltas)[j] == deltas[j]@);
    j
}

/// The returned deltas come in the order of their frames, no frame twice.
pub proof fn law_returned_deltas_end_in_order(
    blob: Seq<u8>,
    size: int,
    deltas: Seq<VoxelDelta>,
    i: int,
    j: int,
)
    requires
        0 <= size,
        delta_views(deltas) == journal_deltas(blob, size),
        0 <= i < j < deltas.len(),
    ensures
        deltas[i].end_offset < deltas[j].end_offset,
{
    assert(delta_views(deltas).len() == deltas.len());
    assert(delta_views(deltas)[i] == deltas[i]@);
    assert(delta_views(deltas)[j] == deltas[j]@);
    law_deltas_end_in_order(blob, size, i, j);
}

/// No delta repeats what is there already: what a returned delta adds is not in
/// the accumulation of the deltas before it, and what it removes is.
pub proof fn law_returned_delta_is_no_repetition(
    blob: Seq<u8>,
    size: int,
    deltas: Seq<VoxelDelta>,
    j: int,
    c: u16,
)
    requires
        delta_views(deltas) == journal_deltas(blob, size),
        0 <= j < deltas.len(),
    ensures
        deltas[j].added@.contains(c) ==> !accumulated(delta_views(deltas).take(j)).contains(c),
        deltas[j].removed@.contains(c) ==> accumulated(delta_views(deltas).take(j)).contains(c),
{
    let frames = frame::journal_frames(blob, size);
    assert(delta_views(deltas).len() == deltas.len());
    assert(delta_views(deltas)[j] == deltas[j]@);
    let k = lemma_frame_of_delta(frames, frames.len() as int, j);
    law_accumulated_deltas_give_the_occupancy(frames, k);
    law_delta_tells_the_change(frames, k, c);
}

/// Accumulating starts from nothing, and each further delta puts its added codes
/// in and takes its removed codes out.
pub proof fn law_accumulating_one_more_delta(deltas: Seq<DeltaView>, d: DeltaView, c: u16)
    ensures
        !accumulated(Seq::empty()).contains(c),
        accumulated(deltas.push(d)).contains(c) <==> (accumulated(deltas).contains(c)
            || d.added.contains(c)) && !d.removed.contains(c),
{
    assert(deltas.push(d).drop_last() =~= deltas);
}

} // verus!
