//! The live occupancy of a smoke: which voxels of the grid it fills.

#![allow(unused_imports)]

use crate::frame;
use crate::frame::{Frame, FrameView};
use crate::listing;
use crate::morton;
use crate::morton::morton_decode3;
use crate::record;
use crate::record::{decode_extended, OccupancyRecord};
use std::collections::btree_map;
use std::collections::BTreeMap;
use vstd::prelude::*;
use vstd::std_specs::btree::increasing_seq;
use vstd::std_specs::iter::IteratorSpec;

verus! {

/// Live occupancy as a map from word index to the 64 bits of the word. Fold
/// frames in sequence order with [`Occupancy::apply`]: each frame overwrites the
/// words that it carries, so voxels can turn on or off.
#[derive(Debug)]
pub struct Occupancy {
    words: BTreeMap<u16, u64>,
}

impl View for Occupancy {
    type V = Map<u16, u64>;

    closed spec fn view(&self) -> Map<u16, u64> {
        self.words@
    }
}

/// The bits of a word; a word that is not in the map has none set.
pub open spec fn word_bits(words: Map<u16, u64>, word: u16) -> u64 {
    if words.contains_key(word) {
        words[word]
    } else {
        0
    }
}

/// Whether bit `b` of `bits` is set.
pub open spec fn bit_set(bits: u64, b: int) -> bool {
    0 <= b < 64 && (bits >> (b as u64)) & 1 == 1
}

/// The number of words of the 32 x 32 x 32 occupancy bitset.
pub const WORDS: u16 = 512;

/// The number of voxels of the grid, one more than their largest Morton code.
pub open spec fn code_limit() -> nat {
    64 * WORDS as nat
}

/// Whether `code` is the Morton code of an occupied voxel of the grid: its bit is
/// bit `code % 64` of word `code / 64`.
pub open spec fn occupied(words: Map<u16, u64>, code: int) -> bool {
    0 <= code < code_limit() && bit_set(word_bits(words, (code / 64) as u16), code % 64)
}

/// The property of a Morton code that its voxel is occupied.
pub open spec fn is_occupied(words: Map<u16, u64>) -> spec_fn(int) -> bool {
    |code: int| occupied(words, code)
}

/// The Morton codes of the occupied voxels, in ascending order.
pub open spec fn occupied_codes(words: Map<u16, u64>) -> Seq<int> {
    listing::listing(is_occupied(words), code_limit())
}

/// The voxels with the given Morton codes.
pub open spec fn voxels_of(codes: Seq<int>) -> Seq<(u8, u8, u8)> {
    Seq::new(codes.len(), |i: int| morton::morton_voxel(codes[i]))
}

/// The occupied voxels, in ascending order of their Morton codes.
pub open spec fn occupied_voxels(words: Map<u16, u64>) -> Seq<(u8, u8, u8)> {
    voxels_of(occupied_codes(words))
}

/// Whether a voxel lies in the grid: each coordinate is in `0..32`.
pub open spec fn in_grid(v: (u8, u8, u8)) -> bool {
    v.0 < 32 && v.1 < 32 && v.2 < 32
}

/// Whether every voxel of a list lies in the grid.
pub open spec fn all_in_grid(voxels: Seq<(u8, u8, u8)>) -> bool {
    forall|i: int| 0 <= i < voxels.len() ==> in_grid(#[trigger] voxels[i])
}

/// The words after one update: the record's word now has the record's bits. A
/// word index past the bitset names no voxel of the grid; such a record leaves
/// the words as they are.
pub open spec fn put_record(words: Map<u16, u64>, r: OccupancyRecord) -> Map<u16, u64> {
    if r.word >= WORDS {
        words
    } else if r.bits == 0 {
        words.remove(r.word)
    } else {
        words.insert(r.word, r.bits)
    }
}

/// The words after the given updates, in order.
pub open spec fn put_records(words: Map<u16, u64>, records: Seq<OccupancyRecord>) -> Map<u16, u64>
    decreases records.len(),
{
    if records.len() == 0 {
        words
    } else {
        put_record(put_records(words, records.drop_last()), records.last())
    }
}

/// The occupancy words after the first `n` frames.
pub open spec fn words_after(frames: Seq<FrameView>, n: int) -> Map<u16, u64>
    decreases n,
{
    if n <= 0 {
        Map::empty()
    } else {
        put_records(
            words_after(frames, n - 1),
            record::occupancy_records(frames[n - 1].payload),
        )
    }
}

/// No word of the map is zero: a word without a set bit is left out.
pub open spec fn no_zero_words(words: Map<u16, u64>) -> bool {
    forall|w: u16| #[trigger] words.contains_key(w) ==> words[w] != 0
}

/// Every word index of the map is one of the bitset.
pub open spec fn words_in_grid(words: Map<u16, u64>) -> bool {
    forall|w: u16| #[trigger] words.contains_key(w) ==> w < WORDS
}

/// Apply one update to the words.
fn put_word(words: &mut BTreeMap<u16, u64>, r: OccupancyRecord)
    ensures
        final(words)@ == put_record(old(words)@, r),
{
    broadcast use vstd::laws_cmp::group_laws_cmp;
    broadcast use vstd::std_specs::btree::group_btree_axioms;

    assert(vstd::laws_cmp::obeys_cmp::<u16>());
    if r.word < WORDS {
        if r.bits == 0 {
            words.remove(&r.word);
        } else {
            words.insert(r.word, r.bits);
        }
    }
}

impl Occupancy {
    /// The invariant of an occupancy: no word of the map is zero, and every word
    /// is one of the grid.
    pub open spec fn wf(&self) -> bool {
        no_zero_words(self@) && words_in_grid(self@)
    }

    /// Every occupancy keeps its invariant.
    #[verifier::type_invariant]
    spec fn inv(self) -> bool {
        self.wf()
    }

    /// An empty occupancy.
    pub fn new() -> (occ: Self)
        ensures
            occ@ == Map::<u16, u64>::empty(),
            occ.wf(),
    {
        Occupancy { words: BTreeMap::new() }
    }

    /// Apply the occupancy updates that a frame carries: each overwrites its
    /// word. A frame that carries none changes nothing, and neither does an
    /// update to a word that the grid does not have.
    pub fn apply(&mut self, frame: &Frame<'_>)
        ensures
            final(self)@ == put_records(old(self)@, record::occupancy_records(frame.payload@)),
            final(self).wf(),
    {
        proof {
            use_type_invariant(&*self);
        }
        let records: Vec<OccupancyRecord> = decode_extended(frame);
        let ghost before = self@;
        let mut words: BTreeMap<u16, u64> = BTreeMap::new();
        std::mem::swap(&mut words, &mut self.words);
        let mut i: usize = 0;
        assert(records@.take(0) =~= Seq::empty());
        while i < records.len()
            invariant
                i <= records@.len(),
                words@ == put_records(before, records@.take(i as int)),
            decreases records@.len() - i,
        {
            proof {
                assert(records@.take(i + 1).drop_last() =~= records@.take(i as int));
            }
            put_word(&mut words, records[i]);
            i = i + 1;
        }
        proof {
            assert(records@.take(i as int) =~= records@);
            law_updates_leave_no_zero_word(before, records@);
            law_updates_stay_in_the_grid(before, records@);
        }
        self.words = words;
    }
}

/// Whether `items` lists the words of the map, in ascending order.
spec fn lists_words(items: Seq<(&u16, &u64)>, words: Map<u16, u64>) -> bool {
    &&& forall|i: int, j: int|
        0 <= i < j < items.len() ==> *(#[trigger] items[i]).0 < *(#[trigger] items[j]).0
    &&& forall|i: int|
        0 <= i < items.len() ==> words.contains_key(*(#[trigger] items[i]).0)
            && words[*items[i].0] == *items[i].1
    &&& forall|w: u16| #[trigger]
        words.contains_key(w) ==> exists|i: int|
            0 <= i < items.len() && *(#[trigger] items[i]).0 == w
}

/// The Morton code up to which the words of the first `n` items decide: that of
/// the next item's first bit, or the limit if there is no next item.
spec fn codes_done(items: Seq<(&u16, &u64)>, n: int) -> int {
    if n < items.len() {
        64 * *items[n].0
    } else {
        code_limit() as int
    }
}

proof fn lemma_increasing_words(s: Seq<u16>)
    requires
        increasing_seq(s),
    ensures
        forall|i: int, j: int| 0 <= i < j < s.len() ==> s[i] < s[j],
{
    broadcast use vstd::laws_cmp::group_laws_cmp;
    broadcast use vstd::std_specs::btree::group_btree_axioms;

    assert(vstd::laws_cmp::obeys_cmp::<u16>());
    assert forall|i: int, j: int| 0 <= i < j < s.len() implies s[i] < s[j] by {
        assert(vstd::std_specs::cmp::OrdSpec::cmp_spec(&s[i], &s[j]) is Less);
    }
}

/// No voxel is occupied whose code comes before the first word.
proof fn lemma_no_code_before(items: Seq<(&u16, &u64)>, words: Map<u16, u64>)
    requires
        lists_words(items, words),
        words_in_grid(words),
    ensures
        listing::listing(is_occupied(words), codes_done(items, 0) as nat) == Seq::<int>::empty(),
{
    let end = codes_done(items, 0);
    assert forall|c: int| 0 <= c < end implies !#[trigger] is_occupied(words)(c) by {
        let w = (c / 64) as u16;
        if words.contains_key(w) {
            let i = choose|i: int| 0 <= i < items.len() && *(#[trigger] items[i]).0 == w;
            if i > 0 {
                assert(*items[0].0 < *items[i].0);
            }
        } else {
            lemma_no_bit_of_zero(c % 64);
        }
    }
    listing::lemma_listing_gap(is_occupied(words), 0, end as nat);
}

/// No voxel is occupied whose code comes between item `n` and the next one.
proof fn lemma_no_code_between(items: Seq<(&u16, &u64)>, words: Map<u16, u64>, n: int)
    requires
        lists_words(items, words),
        words_in_grid(words),
        0 <= n < items.len(),
    ensures
        listing::listing(is_occupied(words), codes_done(items, n + 1) as nat) == listing::listing(
            is_occupied(words),
            (64 * *items[n].0 + 64) as nat,
        ),
{
    let start = 64 * *items[n].0 + 64;
    let end = codes_done(items, n + 1);
    if n + 1 < items.len() {
        assert(*items[n].0 < *items[n + 1].0);
    }
    assert forall|c: int| start <= c < end implies !#[trigger] is_occupied(words)(c) by {
        let w = (c / 64) as u16;
        if words.contains_key(w) {
            let i = choose|i: int| 0 <= i < items.len() && *(#[trigger] items[i]).0 == w;
            if i < n {
                assert(*items[i].0 < *items[n].0);
            }
            if n + 1 < i {
                assert(*items[n + 1].0 < *items[i].0);
            }
        } else {
            lemma_no_bit_of_zero(c % 64);
        }
    }
    listing::lemma_listing_gap(is_occupied(words), start as nat, end as nat);
}

proof fn lemma_no_bit_of_zero(b: int)
    ensures
        !bit_set(0, b),
{
    let j = b as u64;
    assert((0u64 >> j) & 1 == 0) by (bit_vector);
}

/// Clearing the lowest set bit leaves the other bits as they are.
proof fn lemma_clear_lowest_bit(b: u64)
    requires
        b != 0,
    ensures
        ({
            let t = vstd::std_specs::bits::u64_trailing_zeros(b) as int;
            &&& 0 <= t < 64
            &&& bit_set(b, t)
            &&& forall|j: int| 0 <= j < t ==> !#[trigger] bit_set(b, j)
            &&& forall|j: int| #[trigger]
                bit_set(b & (b - 1) as u64, j) <==> bit_set(b, j) && j != t
        }),
{
    vstd::std_specs::bits::axiom_u64_trailing_zeros(b);
    let t = vstd::std_specs::bits::u64_trailing_zeros(b) as u64;
    assert forall|j: int| 0 <= j < t implies !#[trigger] bit_set(b, j) by {
        assert((b >> (j as u64)) & 1u64 == 0u64);
    }
    assert forall|j: int| #[trigger] bit_set(b & (b - 1) as u64, j) <==> bit_set(b, j) && j
        != t by {
        if 0 <= j < 64 {
            let k = j as u64;
            assert(((b & (b - 1) as u64) >> k) & 1 == 1 <==> (b >> k) & 1 == 1 && k != t)
                by (bit_vector)
                requires
                    b != 0,
                    t < 64,
                    k < 64,
                    (b >> t) & 1 == 1,
                    b << ((64 - t) as u64) == 0,
            ;
        }
    }
}

/// Bits that are not set add nothing to the listing.
proof fn lemma_empty_stretch(words: Map<u16, u64>, word: u16, from: int, to: int)
    requires
        0 <= from <= to <= 64,
        forall|j: int| from <= j < to ==> !#[trigger] bit_set(word_bits(words, word), j),
    ensures
        listing::listing(is_occupied(words), (64 * word + to) as nat) == listing::listing(
            is_occupied(words),
            (64 * word + from) as nat,
        ),
{
    assert forall|c: int| 64 * word + from <= c < 64 * word + to implies !#[trigger] is_occupied(
        words,
    )(c) by {
        let j = c - 64 * word;
        assert(c / 64 == word && c % 64 == j);
        assert(!bit_set(word_bits(words, word), j));
    }
    listing::lemma_listing_gap(
        is_occupied(words),
        (64 * word + from) as nat,
        (64 * word + to) as nat,
    );
}

/// Whether `rest` is `bits` with the bits below `from` cleared.
spec fn is_rest(rest: u64, bits: u64, from: int) -> bool {
    &&& 0 <= from <= 64
    &&& forall|j: int|
        0 <= j < 64 ==> (#[trigger] bit_set(rest, j) <==> from <= j && bit_set(bits, j))
}

/// One step over a word: the next occupied voxel is that of the lowest bit of
/// what is left of the word.
proof fn lemma_word_step(words: Map<u16, u64>, word: u16, rest: u64, from: int)
    requires
        rest != 0,
        word < WORDS,
        is_rest(rest, word_bits(words, word), from),
    ensures
        ({
            let at = vstd::std_specs::bits::u64_trailing_zeros(rest) as int;
            &&& from <= at < 64
            &&& is_rest(rest & (rest - 1) as u64, word_bits(words, word), at + 1)
            &&& listing::listing(is_occupied(words), (64 * word + at + 1) as nat)
                == listing::listing(is_occupied(words), (64 * word + from) as nat).push(
                64 * word + at,
            )
        }),
        (rest & (rest - 1) as u64) < rest,
{
    let bits = word_bits(words, word);
    let at = vstd::std_specs::bits::u64_trailing_zeros(rest) as int;
    lemma_clear_lowest_bit(rest);
    assert(bit_set(bits, at));
    assert forall|j: int| from <= j < at implies !#[trigger] bit_set(bits, j) by {
        assert(!bit_set(rest, j));
    }
    lemma_empty_stretch(words, word, from, at);
    assert((64 * word + at) / 64 == word && (64 * word + at) % 64 == at);
    assert(is_occupied(words)(64 * word + at));
    assert((rest & ((rest - 1) as u64)) < rest) by (bit_vector)
        requires
            rest != 0,
    ;
}

/// The end of a word: nothing is left of it.
proof fn lemma_word_end(words: Map<u16, u64>, word: u16, from: int)
    requires
        is_rest(0, word_bits(words, word), from),
    ensures
        listing::listing(is_occupied(words), (64 * word + 64) as nat) == listing::listing(
            is_occupied(words),
            (64 * word + from) as nat,
        ),
{
    let bits = word_bits(words, word);
    assert forall|j: int| from <= j < 64 implies !#[trigger] bit_set(bits, j) by {
        lemma_no_bit_of_zero(j);
        assert(!bit_set(0, j));
    }
    lemma_empty_stretch(words, word, from, 64);
}

impl Occupancy {
    /// The words in ascending order.
    fn iter_words(&self) -> (iter: btree_map::Iter<'_, u16, u64>)
        ensures
            lists_words(iter.remaining(), self@),
            iter.decrease() is Some,
            iter.initial_value_relation(&iter),
    {
        broadcast use vstd::laws_cmp::group_laws_cmp;
        broadcast use vstd::std_specs::btree::group_btree_axioms;

        let iter = self.words.iter();
        proof {
            assert(vstd::laws_cmp::obeys_cmp::<u16>());
            assert(vstd::std_specs::btree::key_obeys_cmp_spec::<u16>());
            lemma_increasing_words(iter.remaining().map_values(|kv: (&u16, &u64)| *kv.0));
            assert forall|i: int, j: int| 0 <= i < j < iter.remaining().len() implies *(
            #[trigger] iter.remaining()[i]).0 < *(#[trigger] iter.remaining()[j]).0 by {
                let s = iter.remaining().map_values(|kv: (&u16, &u64)| *kv.0);
                assert(s[i] < s[j]);
            }
            assert forall|w: u16| #[trigger] self.words@.contains_key(w) implies exists|i: int|
                0 <= i < iter.remaining().len() && *(#[trigger] iter.remaining()[i]).0 == w by {
                assert(iter.remaining().contains((&w, &self.words@[w])));
            }
        }
        iter
    }

    /// Number of occupied voxels.
    pub fn count(&self) -> (n: usize)
        ensures
            n == occupied_voxels(self@).len(),
            n <= 32 * 32 * 32,
    {
        proof {
            use_type_invariant(&*self);
            law_voxels_lie_in_the_grid(self@);
        }
        let ghost p = is_occupied(self@);
        let mut total: usize = 0;
        let words = self.iter_words();
        proof {
            lemma_no_code_before(words.remaining(), self@);
        }
        for item in it: words
            invariant
                lists_words(it.seq(), self@),
                words_in_grid(self@),
                p == is_occupied(self@),
                total == listing::listing(p, codes_done(it.seq(), it.index() as int) as nat).len(),
        {
            let word: u16 = *item.0;
            let mut rest: u64 = *item.1;
            let ghost mut from: int = 0;
            while rest != 0
                invariant
                    p == is_occupied(self@),
                    word < WORDS,
                    is_rest(rest, word_bits(self@, word), from),
                    total == listing::listing(p, (64 * word + from) as nat).len(),
                decreases rest,
            {
                proof {
                    lemma_word_step(self@, word, rest, from);
                    from = vstd::std_specs::bits::u64_trailing_zeros(rest) as int + 1;
                    listing::lemma_listing(p, (64 * word + from) as nat);
                }
                rest = rest & (rest - 1);
                total = total + 1;
            }
            proof {
                lemma_word_end(self@, word, from);
                lemma_no_code_between(it.seq(), self@, it.index() as int);
            }
        }
        total
    }

    /// The occupied voxels as `(x, y, z)`, each in `0..32`, in ascending order of
    /// their Morton codes.
    pub fn voxels(&self) -> (voxels: Vec<(u8, u8, u8)>)
        ensures
            voxels@ == occupied_voxels(self@),
            all_in_grid(voxels@),
    {
        proof {
            use_type_invariant(&*self);
            law_voxels_lie_in_the_grid(self@);
        }
        let ghost p = is_occupied(self@);
        let mut out: Vec<(u8, u8, u8)> = Vec::with_capacity(self.count());
        let words = self.iter_words();
        proof {
            lemma_no_code_before(words.remaining(), self@);
        }
        for item in it: words
            invariant
                lists_words(it.seq(), self@),
                words_in_grid(self@),
                p == is_occupied(self@),
                out@ =~= voxels_of(
                    listing::listing(p, codes_done(it.seq(), it.index() as int) as nat),
                ),
        {
            let word: u16 = *item.0;
            let mut rest: u64 = *item.1;
            let ghost mut from: int = 0;
            while rest != 0
                invariant
                    p == is_occupied(self@),
                    word < WORDS,
                    is_rest(rest, word_bits(self@, word), from),
                    out@ =~= voxels_of(listing::listing(p, (64 * word + from) as nat)),
                decreases rest,
            {
                let bit: u32 = rest.trailing_zeros();
                proof {
                    lemma_word_step(self@, word, rest, from);
                    from = bit as int + 1;
                    assert(((word as u32) << 6) | bit == 64 * word + bit) by (bit_vector)
                        requires
                            bit < 64,
                    ;
                }
                out.push(morton_decode3(((word as u32) << 6) | bit));
                rest = rest & (rest - 1);
            }
            proof {
                lemma_word_end(self@, word, from);
                lemma_no_code_between(it.seq(), self@, it.index() as int);
            }
        }
        out
    }
}

impl Default for Occupancy {
    fn default() -> (occ: Self)
        ensures
            occ@ == Map::<u16, u64>::empty(),
            occ.wf(),
    {
        Occupancy::new()
    }
}

impl Clone for Occupancy {
    fn clone(&self) -> (occ: Self)
        ensures
            occ@ == self@,
    {
        proof {
            use_type_invariant(&*self);
        }
        Occupancy { words: self.words.clone() }
    }
}

/// Updates keep the invariant: they leave no zero word behind.
pub proof fn law_updates_leave_no_zero_word(
    words: Map<u16, u64>,
    records: Seq<OccupancyRecord>,
)
    requires
        no_zero_words(words),
    ensures
        no_zero_words(put_records(words, records)),
    decreases records.len(),
{
    if records.len() > 0 {
        law_updates_leave_no_zero_word(words, records.drop_last());
    }
}

/// Whether record `i` is the last of the updates to its word.
pub open spec fn is_last_update(records: Seq<OccupancyRecord>, i: int) -> bool {
    &&& 0 <= i < records.len()
    &&& forall|j: int| i < j < records.len() ==> (#[trigger] records[j]).word != records[i].word
}

/// Whether some update is to the given word.
pub open spec fn updates_word(records: Seq<OccupancyRecord>, word: u16) -> bool {
    exists|i: int| 0 <= i < records.len() && (#[trigger] records[i]).word == word
}

proof fn lemma_last_update(words: Map<u16, u64>, records: Seq<OccupancyRecord>, i: int)
    requires
        is_last_update(records, i),
        records[i].word < WORDS,
    ensures
        ({
            let after = put_records(words, records);
            let r = records[i];
            &&& after.contains_key(r.word) <==> r.bits != 0
            &&& r.bits != 0 ==> after[r.word] == r.bits
        }),
    decreases records.len(),
{
    if i < records.len() - 1 {
        let shorter = records.drop_last();
        assert forall|j: int| i < j < shorter.len() implies (#[trigger] shorter[j]).word
            != shorter[i].word by {
            assert(shorter[j] == records[j]);
        }
        lemma_last_update(words, shorter, i);
        assert(records.last().word != records[i].word);
    }
}

proof fn lemma_no_update(words: Map<u16, u64>, records: Seq<OccupancyRecord>, word: u16)
    requires
        word >= WORDS || !updates_word(records, word),
    ensures
        ({
            let after = put_records(words, records);
            &&& after.contains_key(word) <==> words.contains_key(word)
            &&& words.contains_key(word) ==> after[word] == words[word]
        }),
    decreases records.len(),
{
    if records.len() > 0 {
        let shorter = records.drop_last();
        if word < WORDS {
            assert forall|i: int| 0 <= i < shorter.len() implies (#[trigger] shorter[i]).word
                != word by {
                assert(shorter[i] == records[i]);
            }
            assert(records[records.len() - 1].word != word);
        }
        lemma_no_update(words, shorter, word);
    }
}

/// A word that is updated has a last update.
proof fn lemma_some_last_update(records: Seq<OccupancyRecord>, word: u16) -> (i: int)
    requires
        updates_word(records, word),
    ensures
        is_last_update(records, i),
        records[i].word == word,
    decreases records.len(),
{
    let last = records.len() - 1;
    if records[last].word == word {
        last
    } else {
        let shorter = records.drop_last();
        let k = choose|k: int| 0 <= k < records.len() && (#[trigger] records[k]).word == word;
        assert(shorter[k].word == word);
        let i = lemma_some_last_update(shorter, word);
        assert forall|j: int| i < j < records.len() implies (#[trigger] records[j]).word
            != records[i].word by {
            if j < last {
                assert(shorter[j] == records[j]);
            }
        }
        i
    }
}

/// Updates overwrite: after them a word has the bits of the last update to it,
/// so its voxels can turn on and off.
pub proof fn law_last_update_overwrites(
    words: Map<u16, u64>,
    records: Seq<OccupancyRecord>,
    i: int,
)
    requires
        is_last_update(records, i),
        records[i].word < WORDS,
    ensures
        ({
            let after = put_records(words, records);
            let r = records[i];
            &&& word_bits(after, r.word) == r.bits
            &&& forall|b: int|
                0 <= b < 64 ==> (#[trigger] occupied(after, 64 * r.word + b) <==> bit_set(
                    r.bits,
                    b,
                ))
        }),
{
    lemma_last_update(words, records, i);
    let after = put_records(words, records);
    let r = records[i];
    assert forall|b: int| 0 <= b < 64 implies (#[trigger] occupied(after, 64 * r.word + b)
        <==> bit_set(r.bits, b)) by {
        assert((64 * r.word + b) / 64 == r.word && (64 * r.word + b) % 64 == b);
    }
}

/// An update to zero clears the voxels of its word.
pub proof fn law_zero_update_clears(
    words: Map<u16, u64>,
    records: Seq<OccupancyRecord>,
    i: int,
    b: int,
)
    requires
        is_last_update(records, i),
        records[i].word < WORDS,
        records[i].bits == 0,
        0 <= b < 64,
    ensures
        !occupied(put_records(words, records), 64 * records[i].word + b),
{
    law_last_update_overwrites(words, records, i);
    lemma_no_bit_of_zero(b);
    assert(occupied(put_records(words, records), 64 * records[i].word + b) <==> bit_set(0, b));
}

/// A word that no update names keeps its bits, and so does one past the bitset.
pub proof fn law_other_words_are_kept(
    words: Map<u16, u64>,
    records: Seq<OccupancyRecord>,
    word: u16,
)
    requires
        word >= WORDS || !updates_word(records, word),
    ensures
        word_bits(put_records(words, records), word) == word_bits(words, word),
{
    lemma_no_update(words, records, word);
}

/// Sending the same updates once more changes nothing.
pub proof fn law_resent_updates_change_nothing(
    words: Map<u16, u64>,
    records: Seq<OccupancyRecord>,
)
    ensures
        put_records(put_records(words, records), records) == put_records(words, records),
{
    let once = put_records(words, records);
    let twice = put_records(once, records);
    assert forall|w: u16|
        {
            &&& #[trigger] twice.contains_key(w) <==> once.contains_key(w)
            &&& once.contains_key(w) ==> twice[w] == once[w]
        } by {
        if w < WORDS && updates_word(records, w) {
            let i = lemma_some_last_update(records, w);
            lemma_last_update(words, records, i);
            lemma_last_update(once, records, i);
        } else {
            lemma_no_update(once, records, w);
        }
    }
    assert(twice =~= once);
}

/// A payload without an extended section, or one that fails the framing check,
/// changes nothing.
pub proof fn law_payload_without_updates_changes_nothing(words: Map<u16, u64>, payload: Seq<u8>)
    requires
        !record::well_framed(payload),
    ensures
        put_records(words, record::occupancy_records(payload)) == words,
{
}

/// The words after the first frames do not depend on later frames.
pub(crate) proof fn lemma_words_after_first_frames(frames: Seq<FrameView>, k: int, n: int)
    requires
        0 <= n <= k <= frames.len(),
    ensures
        words_after(frames.take(k), n) == words_after(frames, n),
    decreases n,
{
    if n > 0 {
        lemma_words_after_first_frames(frames, k, n - 1);
    }
}

/// Occupancy can be told for any point of the journal: the words that the first
/// `cut` bytes lead to are those after the frames that end at or before `cut`,
/// that is, the first ones of the frames of the first `size` bytes.
pub proof fn law_words_by_end_offset(blob: Seq<u8>, cut: int, size: int)
    requires
        0 <= cut <= size,
    ensures
        ({
            let part = frame::journal_frames(blob, cut);
            let whole = frame::journal_frames(blob, size);
            &&& part.len() <= whole.len()
            &&& words_after(part, part.len() as int) == words_after(whole, part.len() as int)
            &&& forall|i: int|
                0 <= i < whole.len() ==> (i < part.len() <==> (#[trigger] whole[i]).end_offset
                    <= cut)
        }),
{
    let part = frame::journal_frames(blob, cut);
    let whole = frame::journal_frames(blob, size);
    frame::law_frames_by_end_offset(blob, cut, size);
    lemma_words_after_first_frames(whole, part.len() as int, part.len() as int);
}

/// Without words no voxel is occupied.
pub proof fn law_no_words_no_voxels()
    ensures
        occupied_voxels(Map::empty()) == Seq::<(u8, u8, u8)>::empty(),
{
    let p = is_occupied(Map::empty());
    assert forall|c: int| 0 <= c < code_limit() implies !#[trigger] p(c) by {
        lemma_no_bit_of_zero(c % 64);
    }
    listing::lemma_listing_gap(p, 0, code_limit());
}

/// A voxel is listed exactly if its bit is set: word `code / 64`, bit `code % 64`
/// for its Morton code.
pub proof fn law_voxel_is_listed_iff_occupied(words: Map<u16, u64>, v: (u8, u8, u8))
    ensures
        occupied_voxels(words).contains(v) <==> occupied(words, morton::morton_code(v)),
{
    let codes = occupied_codes(words);
    listing::lemma_listing(is_occupied(words), code_limit());
    morton::law_morton_code_then_voxel(v);
    if occupied(words, morton::morton_code(v)) {
        assert(is_occupied(words)(morton::morton_code(v)));
        assert(codes.contains(morton::morton_code(v)));
        let i = choose|i: int| 0 <= i < codes.len() && codes[i] == morton::morton_code(v);
        assert(occupied_voxels(words)[i] == v);
    }
    if occupied_voxels(words).contains(v) {
        let i = choose|i: int|
            0 <= i < occupied_voxels(words).len() && occupied_voxels(words)[i] == v;
        morton::law_morton_voxel_then_code(codes[i]);
        assert(is_occupied(words)(codes[i]));
    }
}

/// No voxel is listed twice, and their order is that of their Morton codes.
pub proof fn law_voxels_are_listed_in_order(words: Map<u16, u64>, i: int, j: int)
    requires
        0 <= i < j < occupied_voxels(words).len(),
    ensures
        morton::morton_code(occupied_voxels(words)[i]) < morton::morton_code(
            occupied_voxels(words)[j],
        ),
        occupied_voxels(words)[i] != occupied_voxels(words)[j],
{
    let codes = occupied_codes(words);
    listing::lemma_listing(is_occupied(words), code_limit());
    assert(0 <= codes[i] < code_limit() && 0 <= codes[j] < code_limit());
    morton::law_morton_voxel_then_code(codes[i]);
    morton::law_morton_voxel_then_code(codes[j]);
}

/// The number of listed voxels is the number of different voxels that are listed.
pub proof fn law_count_is_the_number_of_voxels(words: Map<u16, u64>)
    ensures
        occupied_voxels(words).len() == occupied_voxels(words).to_set().len(),
{
    let voxels = occupied_voxels(words);
    assert forall|i: int, j: int| 0 <= i < j < voxels.len() implies voxels[i] != voxels[j] by {
        law_voxels_are_listed_in_order(words, i, j);
    }
    assert(voxels.no_duplicates());
    voxels.unique_seq_to_set();
}

/// Occupied voxels lie in the grid: each coordinate is in `0..32`, and there are
/// at most `32 * 32 * 32` of them.
pub proof fn law_voxels_lie_in_the_grid(words: Map<u16, u64>)
    ensures
        occupied_voxels(words).len() <= 32 * 32 * 32,
        all_in_grid(occupied_voxels(words)),
{
    let codes = occupied_codes(words);
    listing::lemma_listing(is_occupied(words), code_limit());
    assert forall|i: int| 0 <= i < occupied_voxels(words).len() implies in_grid(
        #[trigger] occupied_voxels(words)[i],
    ) by {
        assert(0 <= codes[i] < code_limit());
        morton::law_morton_voxel_in_grid(codes[i]);
    }
}

/// An update to a word past the bitset changes nothing.
pub proof fn law_update_past_the_grid_changes_nothing(words: Map<u16, u64>, r: OccupancyRecord)
    requires
        r.word >= WORDS,
    ensures
        put_record(words, r) == words,
{
}

/// Updates keep the words in the grid, whatever words they name.
pub proof fn law_updates_stay_in_the_grid(words: Map<u16, u64>, records: Seq<OccupancyRecord>)
    requires
        words_in_grid(words),
    ensures
        words_in_grid(put_records(words, records)),
    decreases records.len(),
{
    if records.len() > 0 {
        law_updates_stay_in_the_grid(words, records.drop_last());
    }
}

/// After every frame of every journal the words are those of the grid, none of
/// them zero.
pub proof fn law_frames_stay_in_the_grid(frames: Seq<FrameView>, n: int)
    requires
        0 <= n <= frames.len(),
    ensures
        words_in_grid(words_after(frames, n)),
        no_zero_words(words_after(frames, n)),
    decreases n,
{
    if n > 0 {
        let records = record::occupancy_records(frames[n - 1].payload);
        law_frames_stay_in_the_grid(frames, n - 1);
        law_updates_stay_in_the_grid(words_after(frames, n - 1), records);
        law_updates_leave_no_zero_word(words_after(frames, n - 1), records);
    }
}

/// What a word of the grid is after updates, by the records: if record `i` names
/// it and no later one does, its bits are those of record `i`, and it is in the
/// map exactly if they are not all zero.
pub proof fn law_word_after_its_last_update(
    words: Map<u16, u64>,
    records: Seq<OccupancyRecord>,
    i: int,
)
    requires
        0 <= i < records.len(),
        records[i].word < 512,
        forall|j: int| i < j < records.len() ==> (#[trigger] records[j]).word != records[i].word,
    ensures
        put_records(words, records).contains_key(records[i].word) <==> records[i].bits != 0,
        records[i].bits != 0 ==> put_records(words, records)[records[i].word] == records[i].bits,
{
    lemma_last_update(words, records, i);
}

/// What a word is after updates that do not name it, and what a word past the
/// grid is after any updates: as before.
pub proof fn law_word_without_an_update(
    words: Map<u16, u64>,
    records: Seq<OccupancyRecord>,
    word: u16,
)
    requires
        word >= 512 || forall|j: int|
            0 <= j < records.len() ==> (#[trigger] records[j]).word != word,
    ensures
        put_records(words, records).contains_key(word) <==> words.contains_key(word),
        words.contains_key(word) ==> put_records(words, records)[word] == words[word],
{
    lemma_no_update(words, records, word);
}

/// A journal starts from no words, and each further frame applies its updates to
/// what the frames before it left.
pub proof fn law_each_frame_applies_its_updates(frames: Seq<FrameView>, n: int)
    requires
        0 <= n < frames.len(),
    ensures
        words_after(frames, 0) == Map::<u16, u64>::empty(),
        words_after(frames, n + 1) == put_records(
            words_after(frames, n),
            record::occupancy_records(frames[n].payload),
        ),
{
}

/// A voxel of the grid is listed exactly if the word of its Morton code is in the
/// map and has the bit of its Morton code set.
pub proof fn law_voxel_is_listed_by_its_bit(words: Map<u16, u64>, word: u16, bit: u64)
    requires
        word < 512,
        bit < 64,
    ensures
        occupied_voxels(words).contains(morton::morton_voxel(64 * word + bit)) <==> (
        words.contains_key(word) && (words[word] >> bit) & 1 == 1),
{
    let m = 64 * word + bit;
    law_voxel_is_listed_iff_occupied(words, morton::morton_voxel(m));
    morton::law_morton_voxel_then_code(m);
    assert(m / 64 == word && m % 64 == bit);
    lemma_no_bit_of_zero(bit as int);
}

/// Every listed voxel is one of the grid, and its bit is set in the map.
pub proof fn law_listed_voxel_has_its_bit(words: Map<u16, u64>, i: int)
    requires
        0 <= i < occupied_voxels(words).len(),
    ensures
        ({
            let v = occupied_voxels(words)[i];
            let m = morton::morton_code(v);
            &&& v.0 < 32 && v.1 < 32 && v.2 < 32
            &&& 0 <= m < 0x8000
            &&& v == morton::morton_voxel(m)
            &&& words.contains_key((m / 64) as u16)
            &&& (words[(m / 64) as u16] >> ((m % 64) as u64)) & 1 == 1
        }),
{
    let v = occupied_voxels(words)[i];
    let m = morton::morton_code(v);
    assert(occupied_voxels(words).contains(v));
    law_voxel_is_listed_iff_occupied(words, v);
    morton::law_morton_code_then_voxel(v);
    law_voxels_lie_in_the_grid(words);
    assert(in_grid(occupied_voxels(words)[i]));
    lemma_no_bit_of_zero(m % 64);
}

} // verus!
