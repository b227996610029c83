//! Sets of pieces.
use bit_vec::BitVec;
use vstd::prelude::*;
use vstd::std_specs::cmp::PartialEqSpecImpl;

use crate::bits::{
    bit_values, bits_capacity, bits_clone, bits_equal, bits_get, bits_len, bits_negate, bits_new,
    bits_set, bits_to_bytes, packed,
};
use crate::chance::below;
use crate::torrent_info::TorrentInfo;
use crate::types::PieceIndex;
use crate::wire::low_word;

verus! {

/// Which pieces are in a set, and how many the set says there are. The number
/// is kept by counting changes, so it is only right ([`Pieces::exact`]) as
/// long as nothing is put in twice and nothing is taken out that is not there.
#[verifier::ext_equal]
pub struct Pieces {
    pub bits: Seq<bool>,
    pub count: u32,
}

/// How many bits are set.
pub open spec fn number_set(bits: Seq<bool>) -> nat
    decreases bits.len(),
{
    if bits.len() == 0 {
        0
    } else {
        number_set(bits.drop_last()) + if bits.last() {
            1nat
        } else {
            0
        }
    }
}

/// Whether the bit at `i` is set on both sides.
pub open spec fn in_both(a: Seq<bool>, b: Seq<bool>, i: int) -> bool {
    0 <= i < a.len() && i < b.len() && a[i] && b[i]
}

/// At how many places below `n` the bit is set on both sides.
pub open spec fn number_in_both(a: Seq<bool>, b: Seq<bool>, n: int) -> nat
    decreases n,
{
    if n <= 0 {
        0
    } else {
        number_in_both(a, b, n - 1) + if in_both(a, b, n - 1) {
            1nat
        } else {
            0
        }
    }
}

/// How many places two rows of bits have in common.
pub open spec fn common_length(a: Seq<bool>, b: Seq<bool>) -> int {
    if a.len() <= b.len() {
        a.len() as int
    } else {
        b.len() as int
    }
}

impl Pieces {
    /// No piece of `n`, or all of them.
    pub open spec fn uniform(n: nat, bit: bool) -> Pieces {
        Pieces {
            bits: Seq::new(n, |i: int| bit),
            count: if bit {
                n as u32
            } else {
                0
            },
        }
    }

    pub open spec fn has(self, index: PieceIndex) -> bool {
        index.0 < self.bits.len() && self.bits[index.0 as int]
    }

    /// The set once `index` has been put in.
    pub open spec fn with(self, index: PieceIndex) -> Pieces {
        Pieces {
            bits: self.bits.update(index.0 as int, true),
            count: (self.count + 1) as u32,
        }
    }

    /// The set once `index` has been taken out.
    pub open spec fn without(self, index: PieceIndex) -> Pieces {
        Pieces {
            bits: self.bits.update(index.0 as int, false),
            count: (self.count - 1) as u32,
        }
    }

    pub open spec fn complement(self) -> Pieces {
        Pieces {
            bits: self.bits.map_values(|bit: bool| !bit),
            count: (self.bits.len() - self.count) as u32,
        }
    }

    /// Whether some piece is in both sets.
    pub open spec fn meets(self, other: Pieces) -> bool {
        exists|i: int| in_both(self.bits, other.bits, i)
    }

    /// Whether `pick` can be what picking a piece out of both sets gives.
    pub open spec fn can_pick(self, other: Pieces, pick: Option<PieceIndex>) -> bool {
        match pick {
            Some(index) => in_both(self.bits, other.bits, index.0 as int),
            None => !self.meets(other),
        }
    }

    /// The set once `pick` has been picked out of it.
    pub open spec fn after_pick(self, pick: Option<PieceIndex>) -> Pieces {
        match pick {
            Some(index) => self.without(index),
            None => self,
        }
    }

    /// Whether the count is the number of pieces in the set.
    pub open spec fn exact(self) -> bool {
        self.count == number_set(self.bits)
    }

    pub open spec fn wf(self) -> bool {
        self.bits.len() <= u32::MAX
    }
}

/// A set of pieces of one torrent.
#[derive(Debug, Eq)]
pub struct PieceSet {
    bitv: BitVec,
    piece_count: u32,
    /// For how many bits there is memory.
    room: usize,
}

impl View for PieceSet {
    type V = Pieces;

    closed spec fn view(&self) -> Pieces {
        Pieces { bits: bit_values(self.bitv), count: self.piece_count }
    }
}

impl Clone for PieceSet {
    fn clone(&self) -> (r: PieceSet)
        ensures
            r@ == self@,
            possible_room(r@, r.room()),
    {
        PieceSet::of_bits(bits_clone(&self.bitv), self.piece_count)
    }
}

/// Sets are equal if they have the same pieces and the same count, however much
/// memory there is for them.
impl PartialEq for PieceSet {
    fn eq(&self, other: &PieceSet) -> (r: bool) {
        self.piece_count == other.piece_count && bits_equal(&self.bitv, &other.bitv)
    }
}

impl PartialEqSpecImpl for PieceSet {
    open spec fn obeys_eq_spec() -> bool {
        true
    }

    open spec fn eq_spec(&self, other: &PieceSet) -> bool {
        self@ == other@
    }
}

impl PieceSet {
    /// For how many pieces there is memory: at least as many as the set is for, and
    /// as many more as the allocator gave.
    pub closed spec fn room(self) -> usize {
        self.room
    }

    fn of_bits(bitv: BitVec, piece_count: u32) -> (r: PieceSet)
        ensures
            r@ == (Pieces { bits: bit_values(bitv), count: piece_count }),
            possible_room(r@, r.room()),
    {
        let room = bits_capacity(&bitv);
        PieceSet { bitv, piece_count, room }
    }

    fn from_elem(torrent: &TorrentInfo, elem: bool) -> (r: PieceSet)
        ensures
            r@ == Pieces::uniform(torrent@.piece_count() as nat, elem),
            possible_room(r@, r.room()),
    {
        let pieces = torrent.piece_count();
        PieceSet::of_bits(
            bits_new(pieces as usize, elem),
            if elem {
                pieces
            } else {
                0
            },
        )
    }

    /// No piece of `torrent`.
    pub fn new_empty(torrent: &TorrentInfo) -> (r: PieceSet)
        ensures
            r@ == Pieces::uniform(torrent@.piece_count() as nat, false),
            possible_room(r@, r.room()),
    {
        PieceSet::from_elem(torrent, false)
    }

    /// The pieces that are not in this set.
    pub fn inverse(&self) -> (r: PieceSet)
        requires
            self@.wf(),
            self@.count <= self@.bits.len(),
        ensures
            r@ == self@.complement(),
            possible_room(r@, r.room()),
    {
        let mut new_vec = bits_clone(&self.bitv);
        bits_negate(&mut new_vec);
        let piece_count = bits_len(&self.bitv) as u32 - self.piece_count;
        PieceSet::of_bits(new_vec, piece_count)
    }

    /// How many pieces the set says it has.
    pub fn count(&self) -> (r: u32)
        ensures
            r == self@.count,
    {
        self.piece_count
    }

    /// For how many pieces the set is.
    pub fn len(&self) -> (r: usize)
        ensures
            r == self@.bits.len(),
    {
        bits_len(&self.bitv)
    }

    /// Takes a piece out.
    pub fn set_false(&mut self, index: PieceIndex)
        requires
            index.0 < old(self)@.bits.len(),
            old(self)@.count > 0,
        ensures
            final(self)@ == old(self)@.without(index),
            final(self).room() == old(self).room(),
    {
        bits_set(&mut self.bitv, u32::from(index) as usize, false);
        self.piece_count = self.piece_count - 1;
    }

    /// Puts a piece in.
    pub fn set_true(&mut self, index: PieceIndex)
        requires
            index.0 < old(self)@.bits.len(),
            old(self)@.count < u32::MAX,
        ensures
            final(self)@ == old(self)@.with(index),
            final(self).room() == old(self).room(),
    {
        bits_set(&mut self.bitv, u32::from(index) as usize, true);
        self.piece_count = self.piece_count + 1;
    }

    /// Whether the count is what there is room for in memory. As room comes in
    /// words of 32, a count that does not fill words is not complete.
    pub fn is_complete(&self) -> (r: bool)
        ensures
            r == fills(self@, self.room()),
            possible_room(self@, self.room()) && self@.count % 32 != 0 && self@.count != u32::MAX
                ==> !r,
    {
        self.is_complete_for(self.room)
    }

    /// Whether the set has as many pieces as `room`, of which the low 32 bits
    /// count.
    pub fn is_complete_for(&self, room: usize) -> (r: bool)
        ensures
            r == fills(self@, room),
    {
        low_word(room as u64) == self.piece_count
    }

    pub fn is_empty(&self) -> (r: bool)
        ensures
            r == (self@.count == 0),
    {
        self.piece_count == 0
    }

    /// Whether the piece is in the set.
    pub fn index(&self, index: PieceIndex) -> (r: bool)
        requires
            index.0 < self@.bits.len(),
        ensures
            r == self@.has(index),
    {
        match bits_get(&self.bitv, u32::from(index) as usize) {
            Some(bit) => bit,
            None => false,
        }
    }

    fn both(&self, other: &Self, i: usize) -> (r: bool)
        ensures
            r == in_both(self@.bits, other@.bits, i as int),
    {
        match (bits_get(&self.bitv, i), bits_get(&other.bitv, i)) {
            (Some(a), Some(b)) => a && b,
            _ => false,
        }
    }

    /// How many pieces are in both sets.
    fn count_common(&self, other: &Self) -> (r: usize)
        ensures
            r == number_in_both(
                self@.bits,
                other@.bits,
                common_length(self@.bits, other@.bits),
            ),
    {
        let mine = bits_len(&self.bitv);
        let theirs = bits_len(&other.bitv);
        let end = if mine <= theirs {
            mine
        } else {
            theirs
        };
        let mut found: usize = 0;
        let mut i: usize = 0;
        while i < end
            invariant
                i <= end,
                found <= i,
                found == number_in_both(self@.bits, other@.bits, i as int),
            decreases end - i,
        {
            if self.both(other, i) {
                found = found + 1;
            }
            i = i + 1;
        }
        found
    }

    /// Takes out the piece that has `n` of the pieces in both sets before it.
    pub fn pick_nth_from(&mut self, other: &Self, n: usize) -> (r: PieceIndex)
        requires
            old(self)@.wf(),
            old(self)@.count > 0,
            n < number_in_both(
                old(self)@.bits,
                other@.bits,
                common_length(old(self)@.bits, other@.bits),
            ),
        ensures
            in_both(old(self)@.bits, other@.bits, r.0 as int),
            number_in_both(old(self)@.bits, other@.bits, r.0 as int) == n,
            final(self)@ == old(self)@.without(r),
            final(self).room() == old(self).room(),
    {
        let len = bits_len(&self.bitv);
        let mut before: usize = 0;
        let mut i: usize = 0;
        while !(before == n && self.both(other, i))
            invariant
                *self == *old(self),
                len == self@.bits.len(),
                len <= u32::MAX,
                i <= len,
                before <= n,
                before == number_in_both(self@.bits, other@.bits, i as int),
                n < number_in_both(
                    self@.bits,
                    other@.bits,
                    common_length(self@.bits, other@.bits),
                ),
            decreases len - i,
        {
            proof {
                if i >= common_length(self@.bits, other@.bits) {
                    lemma_none_past_end(self@.bits, other@.bits, i as int);
                    assert(false);
                }
            }
            if self.both(other, i) {
                before = before + 1;
            }
            i = i + 1;
        }
        let picked_index = PieceIndex::from(i as u32);
        self.set_false(picked_index);
        picked_index
    }

    /// Takes a piece out that is in both sets; which one is chance.
    pub fn pick_piece_from(&mut self, other: &Self) -> (r: Option<PieceIndex>)
        requires
            old(self)@.wf(),
            old(self)@.meets(other@) ==> old(self)@.count > 0,
        ensures
            old(self)@.can_pick(other@, r),
            final(self)@ == old(self)@.after_pick(r),
            final(self).room() == old(self).room(),
    {
        let new_pieces = self.count_common(other);
        proof {
            lemma_common_means_meets(self@, other@);
        }
        if new_pieces == 0 {
            return None;
        }
        let n = below(new_pieces);
        Some(self.pick_nth_from(other, n))
    }

    /// Whether some piece is in both sets.
    pub fn has_new_pieces(&self, other: &Self) -> (r: bool)
        ensures
            r == self@.meets(other@),
    {
        proof {
            lemma_common_means_meets(self@, other@);
        }
        self.count_common(other) > 0
    }

    /// The set as a bitfield: a bit for every piece, the first one highest.
    pub fn to_bytes(&self) -> (r: Vec<u8>)
        ensures
            r@ == packed(self@.bits),
    {
        bits_to_bytes(&self.bitv)
    }
}

/// For how many bits there can be memory, where a set is in use.
pub open spec fn possible_room(pieces: Pieces, room: usize) -> bool {
    room >= pieces.bits.len() && (room % 32 == 0 || room == usize::MAX)
}

/// Whether the count equals the low 32 bits of `room`.
pub open spec fn fills(pieces: Pieces, room: usize) -> bool {
    pieces.count == room as int % 0x1_0000_0000
}

/// Past the end of either row there is nothing in both.
proof fn lemma_none_past_end(a: Seq<bool>, b: Seq<bool>, n: int)
    requires
        n >= common_length(a, b),
    ensures
        number_in_both(a, b, n) == number_in_both(a, b, common_length(a, b)),
    decreases n,
{
    if n > common_length(a, b) {
        lemma_none_past_end(a, b, n - 1);
    }
}

/// Two sets meet exactly if there is a piece in both to be counted.
proof fn lemma_common_means_meets(a: Pieces, b: Pieces)
    ensures
        a.meets(b) <==> number_in_both(a.bits, b.bits, common_length(a.bits, b.bits)) > 0,
{
    let n = common_length(a.bits, b.bits);
    lemma_counted_means_there(a.bits, b.bits, n);
    if a.meets(b) {
        let i = choose|i: int| in_both(a.bits, b.bits, i);
        lemma_there_means_counted(a.bits, b.bits, n, i);
    }
}

proof fn lemma_counted_means_there(a: Seq<bool>, b: Seq<bool>, n: int)
    ensures
        number_in_both(a, b, n) > 0 ==> exists|i: int| in_both(a, b, i),
    decreases n,
{
    if n > 0 {
        lemma_counted_means_there(a, b, n - 1);
        if in_both(a, b, n - 1) {
        }
    }
}

proof fn lemma_there_means_counted(a: Seq<bool>, b: Seq<bool>, n: int, i: int)
    requires
        in_both(a, b, i),
        i < n,
    ensures
        number_in_both(a, b, n) > 0,
    decreases n,
{
    if i < n - 1 {
        lemma_there_means_counted(a, b, n - 1, i);
    }
}

/// Turning one bit changes the number of set bits by one.
proof fn lemma_number_set_update(bits: Seq<bool>, i: int, bit: bool)
    requires
        0 <= i < bits.len(),
    ensures
        number_set(bits.update(i, bit)) == number_set(bits) + (if bit {
            1int
        } else {
            0
        }) - (if bits[i] {
            1int
        } else {
            0
        }),
    decreases bits.len(),
{
    let changed = bits.update(i, bit);
    if i == bits.len() - 1 {
        assert(changed.drop_last() =~= bits.drop_last());
    } else {
        assert(changed.drop_last() =~= bits.drop_last().update(i, bit));
        lemma_number_set_update(bits.drop_last(), i, bit);
    }
}

pub proof fn lemma_number_set_bounds(bits: Seq<bool>)
    ensures
        number_set(bits) <= bits.len(),
    decreases bits.len(),
{
    if bits.len() > 0 {
        lemma_number_set_bounds(bits.drop_last());
    }
}

proof fn lemma_number_set_uniform(n: nat, bit: bool)
    ensures
        number_set(Seq::new(n, |i: int| bit)) == if bit {
            n
        } else {
            0
        },
    decreases n,
{
    let all = Seq::new(n, |i: int| bit);
    if n > 0 {
        assert(all.drop_last() =~= Seq::new((n - 1) as nat, |i: int| bit));
        lemma_number_set_uniform((n - 1) as nat, bit);
    }
}

proof fn lemma_number_set_complement(bits: Seq<bool>)
    ensures
        number_set(bits.map_values(|bit: bool| !bit)) == bits.len() - number_set(bits),
    decreases bits.len(),
{
    let turned = bits.map_values(|bit: bool| !bit);
    if bits.len() > 0 {
        assert(turned.drop_last() =~= bits.drop_last().map_values(|bit: bool| !bit));
        lemma_number_set_complement(bits.drop_last());
    }
}

/// A set that counts right has room for a piece that is not in it.
pub proof fn lemma_room_for_one_more(pieces: Pieces, index: PieceIndex)
    requires
        pieces.wf(),
        pieces.exact(),
        index.0 < pieces.bits.len(),
        !pieces.has(index),
    ensures
        pieces.count < pieces.bits.len(),
{
    lemma_number_set_update(pieces.bits, index.0 as int, true);
    lemma_number_set_bounds(pieces.bits.update(index.0 as int, true));
}

/// A set that counts right and has a piece does not count zero.
pub proof fn lemma_not_empty(pieces: Pieces, index: PieceIndex)
    requires
        pieces.exact(),
        pieces.has(index),
    ensures
        pieces.count > 0,
{
    lemma_number_set_update(pieces.bits, index.0 as int, false);
}

/// A set that is made empty or full counts right.
pub proof fn law_uniform_is_exact(n: nat, bit: bool)
    requires
        n <= u32::MAX,
    ensures
        Pieces::uniform(n, bit).exact(),
{
    lemma_number_set_uniform(n, bit);
}

/// The complement of a set that counts right counts right, and taking the
/// complement twice gives the set back.
pub proof fn law_complement(pieces: Pieces)
    requires
        pieces.wf(),
        pieces.exact(),
    ensures
        pieces.complement().exact(),
        pieces.complement().complement() == pieces,
        forall|i: PieceIndex|
            i.0 < pieces.bits.len() ==> #[trigger] pieces.complement().has(i) == !pieces.has(i),
{
    lemma_number_set_bounds(pieces.bits);
    lemma_number_set_complement(pieces.bits);
    assert(pieces.complement().complement() =~= pieces);
}

/// Putting in a piece that is not there, and taking out one that is, keeps the
/// count right; the other pieces stay as they are.
pub proof fn law_changes_keep_count(pieces: Pieces, index: PieceIndex)
    requires
        pieces.wf(),
        pieces.exact(),
        index.0 < pieces.bits.len(),
    ensures
        !pieces.has(index) ==> pieces.with(index).exact() && pieces.with(index).has(index),
        pieces.has(index) ==> pieces.without(index).exact() && !pieces.without(index).has(index),
        forall|i: PieceIndex|
            i != index ==> #[trigger] pieces.with(index).has(i) == pieces.has(i),
        forall|i: PieceIndex|
            i != index ==> #[trigger] pieces.without(index).has(i) == pieces.has(i),
{
    lemma_number_set_bounds(pieces.bits);
    lemma_number_set_update(pieces.bits, index.0 as int, true);
    lemma_number_set_update(pieces.bits, index.0 as int, false);
    lemma_number_set_bounds(pieces.with(index).bits);
}

/// A picked piece was in both sets and is no longer in the one it was picked
/// from, so it is not picked twice; the count stays right.
pub proof fn law_pick(pieces: Pieces, other: Pieces, index: PieceIndex)
    requires
        pieces.wf(),
        pieces.exact(),
        pieces.can_pick(other, Some(index)),
    ensures
        pieces.has(index),
        other.has(index),
        pieces.after_pick(Some(index)).exact(),
        !pieces.after_pick(Some(index)).can_pick(other, Some(index)),
{
    law_changes_keep_count(pieces, index);
}

/// There is always something to take out of a set that counts right and meets
/// another.
pub proof fn law_meeting_sets_are_not_empty(pieces: Pieces, other: Pieces)
    requires
        pieces.wf(),
        pieces.exact(),
        pieces.meets(other),
    ensures
        pieces.count > 0,
{
    let i = choose|i: int| in_both(pieces.bits, other.bits, i);
    lemma_number_set_update(pieces.bits, i, false);
}

} // verus!
