//! A piece on its way: which blocks to ask for, and which have come.
use bytes::RingBuf;
use vstd::prelude::*;

use crate::buffers::{ring, ring_capacity, ring_window, smaller};
use crate::byte_slices::bytes_equal;
use crate::digest::{sha1, sha1_digest};
use crate::torrent_info::{TorrentInfo, TorrentView};
use crate::types::{BlockInfo, PieceIndex};
use crate::wire::low_half;

verus! {

/// The length of the blocks that are asked for.
pub const BLOCK_SIZE: u32 = 16384;

// ---------------------------------------------------------------------------
// Asking for blocks
// ---------------------------------------------------------------------------

/// A piece that is being asked for, and how far.
#[derive(Debug, Clone, Copy, PartialEq, Eq, Structural)]
pub struct CurrentPieceInfo {
    pub index: PieceIndex,
    pub requested_up_to: u32,
    pub length: u32,
}

impl CurrentPieceInfo {
    /// Whether something is left to ask for.
    pub open spec fn unfinished(self) -> bool {
        self.requested_up_to < self.length
    }

    /// The block that comes next.
    pub open spec fn block(self) -> BlockInfo {
        BlockInfo {
            piece_index: self.index,
            offset: self.requested_up_to,
            length: smaller(self.length - self.requested_up_to, BLOCK_SIZE as int) as u32,
        }
    }

    /// The piece once that block has been asked for.
    pub open spec fn after_block(self) -> CurrentPieceInfo {
        CurrentPieceInfo {
            requested_up_to: (self.requested_up_to + self.block().length) as u32,
            ..self
        }
    }

    /// All blocks that are still to be asked for, in order.
    pub open spec fn blocks_left(self) -> Seq<BlockInfo>
        decreases self.length - self.requested_up_to,
    {
        if self.unfinished() {
            seq![self.block()] + self.after_block().blocks_left()
        } else {
            Seq::empty()
        }
    }

    /// The next block to ask for. `None` once the whole piece has been asked
    /// for.
    pub fn next_block(&mut self) -> (r: Option<BlockInfo>)
        ensures
            match r {
                Some(block) => old(self).unfinished() && block == old(self).block() && *final(self)
                    == old(self).after_block(),
                None => !old(self).unfinished() && *final(self) == *old(self),
            },
    {
        if self.requested_up_to >= self.length {
            return None;
        }
        let block_offset = self.requested_up_to;
        let rest: u32 = self.length - block_offset;
        let block_length = if rest <= BLOCK_SIZE {
            rest
        } else {
            BLOCK_SIZE
        };
        self.requested_up_to = self.requested_up_to + block_length;
        Some(
            BlockInfo { piece_index: self.index, offset: block_offset, length: block_length },
        )
    }
}

/// The blocks that are asked for follow each other from where the piece stands
/// to its end; none is empty, and none is longer than a block may be.
pub proof fn law_blocks_partition_piece(current: CurrentPieceInfo)
    ensures
        ({
            let blocks = current.blocks_left();
            &&& current.unfinished() ==> blocks.len() > 0 && blocks[0].offset
                == current.requested_up_to && blocks.last().offset + blocks.last().length
                == current.length
            &&& !current.unfinished() ==> blocks.len() == 0
            &&& forall|i: int|
                0 <= i < blocks.len() ==> {
                    &&& (#[trigger] blocks[i]).piece_index == current.index
                    &&& 0 < blocks[i].length <= BLOCK_SIZE
                    &&& blocks[i].offset + blocks[i].length <= current.length
                    &&& i + 1 < blocks.len() ==> blocks[i + 1].offset == blocks[i].offset
                        + blocks[i].length
                }
        }),
    decreases current.length - current.requested_up_to,
{
    if current.unfinished() {
        let next = current.after_block();
        law_blocks_partition_piece(next);
        let blocks = current.blocks_left();
        let rest = next.blocks_left();
        assert(blocks[0] == current.block());
        assert forall|i: int| 0 <= i < blocks.len() implies {
            &&& (#[trigger] blocks[i]).piece_index == current.index
            &&& 0 < blocks[i].length <= BLOCK_SIZE
            &&& blocks[i].offset + blocks[i].length <= current.length
            &&& i + 1 < blocks.len() ==> blocks[i + 1].offset == blocks[i].offset
                + blocks[i].length
        } by {
            if i > 0 {
                assert(blocks[i] == rest[i - 1]);
            }
            if i + 1 < blocks.len() {
                assert(blocks[i + 1] == rest[i]);
            }
        }
        if rest.len() > 0 {
            assert(blocks.last() == rest.last());
        } else {
            assert(blocks.last() == current.block());
        }
    }
}

// ---------------------------------------------------------------------------
// Putting blocks together
// ---------------------------------------------------------------------------

/// The most that a block that has come can hold.
pub const MAX_BLOCK: usize = 32768;

/// No block of a piece starts further on than in this slot.
pub const MAX_SLOTS: usize = 262144;

/// The blocks of a piece that have come.
#[verifier::ext_equal]
pub struct PieceView {
    pub index: PieceIndex,
    /// A slot for every [`BLOCK_SIZE`] bytes of the piece.
    pub blocks: Seq<Option<Seq<u8>>>,
    /// How many blocks the piece has; the low 16 bits count.
    pub block_count: u16,
    /// How many have come.
    pub received: u16,
}

/// `blocks` with `data` in slot `k`.
pub open spec fn placed(
    blocks: Seq<Option<Seq<u8>>>,
    k: int,
    data: Seq<u8>,
) -> Seq<Option<Seq<u8>>> {
    if k < blocks.len() {
        blocks.update(k, Some(data))
    } else {
        blocks + Seq::new((k - blocks.len()) as nat, |i: int| None) + seq![Some(data)]
    }
}

/// The blocks that have come, in the order of their slots.
pub open spec fn joined(blocks: Seq<Option<Seq<u8>>>) -> Seq<u8>
    decreases blocks.len(),
{
    if blocks.len() == 0 {
        Seq::empty()
    } else {
        joined(blocks.drop_last()) + match blocks.last() {
            Some(data) => data,
            None => Seq::empty(),
        }
    }
}

/// Whether the number of blocks of a piece can be worked out in 32 bits.
pub open spec fn countable(length: u32) -> bool {
    length + (BLOCK_SIZE - 1) <= u32::MAX
}

/// Into how many blocks a piece of some length falls.
pub open spec fn blocks_in(length: u32) -> int {
    (length + (BLOCK_SIZE - 1)) / (BLOCK_SIZE as int)
}

/// The slot of the block at `offset`.
pub open spec fn slot(offset: u32) -> int {
    offset as int / (BLOCK_SIZE as int)
}

impl PieceView {
    pub open spec fn empty(t: TorrentView, index: PieceIndex) -> PieceView {
        PieceView {
            index,
            blocks: Seq::empty(),
            block_count: (blocks_in(t.piece_len(index)) % 0x1_0000) as u16,
            received: 0,
        }
    }

    pub open spec fn occupied(self, k: int) -> bool {
        0 <= k < self.blocks.len() && self.blocks[k] is Some
    }

    /// Whether a block at `offset` can be taken.
    pub open spec fn accepts(self, offset: u32) -> bool {
        !self.occupied(slot(offset)) && self.received < u16::MAX
    }

    pub open spec fn with_block(self, offset: u32, data: Seq<u8>) -> PieceView {
        PieceView {
            blocks: placed(self.blocks, slot(offset), data),
            received: (self.received + 1) as u16,
            ..self
        }
    }

    pub open spec fn complete(self) -> bool {
        self.block_count == self.received
    }

    /// Whether the blocks put together have the hash of the piece.
    pub open spec fn matches_hash(self, t: TorrentView) -> bool {
        sha1_digest(joined(self.blocks)) == t.piece_hash(self.index)
    }

    pub open spec fn wf(self) -> bool {
        &&& self.blocks.len() <= MAX_SLOTS
        &&& forall|i: int|
            0 <= i < self.blocks.len() && (#[trigger] self.blocks[i]) is Some
                ==> self.blocks[i]->Some_0.len() <= MAX_BLOCK
    }
}

/// The bytes of a block that is kept in a buffer.
pub open spec fn block_bytes(buf: RingBuf) -> Seq<u8> {
    ring(buf).window()
}

pub open spec fn slot_bytes(slot: Option<RingBuf>) -> Option<Seq<u8>> {
    match slot {
        Some(buf) => Some(block_bytes(buf)),
        None => None,
    }
}

/// The blocks of a piece.
#[derive(Debug)]
pub struct PieceData {
    pub index: PieceIndex,
    pub blocks: Vec<Option<RingBuf>>,
    block_count: u16,
    blocks_received: u16,
}

impl View for PieceData {
    type V = PieceView;

    closed spec fn view(&self) -> PieceView {
        PieceView {
            index: self.index,
            blocks: self.blocks@.map_values(|s: Option<RingBuf>| slot_bytes(s)),
            block_count: self.block_count,
            received: self.blocks_received,
        }
    }
}

impl PieceData {
    pub closed spec fn wf(self) -> bool {
        &&& self@.wf()
        &&& forall|i: int|
            0 <= i < self.blocks@.len() && (#[trigger] self.blocks@[i]) is Some ==> ring_capacity(
                self.blocks@[i]->Some_0,
            ) > 0
    }

    /// A piece of which nothing has come.
    pub fn new(index: PieceIndex, torrent: &TorrentInfo) -> (r: PieceData)
        requires
            torrent@.has_length(index),
            countable(torrent@.piece_len(index)),
        ensures
            r.wf(),
            r@ == PieceView::empty(torrent@, index),
    {
        let piece_size = torrent.get_piece_length(index);
        let block_count: u32 = (piece_size + (BLOCK_SIZE - 1)) / BLOCK_SIZE;
        let r = PieceData {
            index,
            blocks: Vec::new(),
            block_count: low_half(block_count),
            blocks_received: 0,
        };
        assert(r@.blocks =~= Seq::empty());
        r
    }

    /// Which piece it is.
    pub fn piece_index(&self) -> (r: PieceIndex)
        ensures
            r == self@.index,
    {
        self.index
    }

    /// Keeps a block of the piece. There must be none in its place.
    pub fn add_block(&mut self, block_info: BlockInfo, data: RingBuf)
        requires
            old(self).wf(),
            block_info.piece_index == old(self)@.index,
            old(self)@.accepts(block_info.offset),
            ring_capacity(data) > 0,
            block_bytes(data).len() <= MAX_BLOCK,
        ensures
            final(self).wf(),
            final(self)@ == old(self)@.with_block(block_info.offset, block_bytes(data)),
    {
        let ghost before = self@;
        let block_index: usize = (block_info.offset / BLOCK_SIZE) as usize;
        assert(block_index == slot(block_info.offset));
        self.blocks_received = self.blocks_received + 1;
        if block_index < self.blocks.len() {
            self.blocks.set(block_index, Some(data));
            assert(self@.blocks =~= placed(before.blocks, block_index as int, block_bytes(data)));
        } else {
            let old_len = self.blocks.len();
            while self.blocks.len() < block_index
                invariant
                    old_len <= self.blocks@.len() <= block_index,
                    self@.blocks =~= before.blocks + Seq::new(
                        (self.blocks@.len() - old_len) as nat,
                        |i: int| None,
                    ),
                    before.blocks.len() == old_len,
                    before == old(self)@,
                    self.index == old(self).index,
                    self.block_count == old(self).block_count,
                    self.blocks_received == old(self).blocks_received + 1,
                    forall|i: int|
                        0 <= i < self.blocks@.len() && (#[trigger] self.blocks@[i]) is Some
                            ==> ring_capacity(self.blocks@[i]->Some_0) > 0,
                decreases block_index - self.blocks@.len(),
            {
                let ghost so_far = self@.blocks;
                self.blocks.push(None);
                assert(self@.blocks =~= so_far.push(None));
            }
            self.blocks.push(Some(data));
            assert(self@.blocks =~= placed(before.blocks, block_index as int, block_bytes(data)));
        }
    }

    /// Whether as many blocks have come as the piece has.
    pub fn is_complete(&self) -> (r: bool)
        ensures
            r == self@.complete(),
    {
        self.block_count == self.blocks_received
    }

    /// Whether one more block makes the piece whole.
    pub fn lacks_one(&self) -> (r: bool)
        ensures
            r == (self@.block_count == self@.received + 1),
    {
        self.block_count as u32 == self.blocks_received as u32 + 1
    }

    /// Whether a block at `offset` can be taken.
    pub fn accepts(&self, offset: u32) -> (r: bool)
        ensures
            r == self@.accepts(offset),
    {
        let block_index: usize = (offset / BLOCK_SIZE) as usize;
        assert(block_index == slot(offset));
        let vacant = if block_index < self.blocks.len() {
            self.blocks[block_index].is_none()
        } else {
            true
        };
        vacant && self.blocks_received < u16::MAX
    }

    /// The blocks put together.
    pub fn join(&self) -> (r: Vec<u8>)
        requires
            self.wf(),
        ensures
            r@ == joined(self@.blocks),
    {
        let ghost all = self@.blocks;
        let mut data: Vec<u8> = Vec::new();
        let mut i: usize = 0;
        assert(all.take(0) =~= Seq::empty());
        while i < self.blocks.len()
            invariant
                self.wf(),
                all == self@.blocks,
                i <= self.blocks@.len(),
                data@ == joined(all.take(i as int)),
            decreases self.blocks@.len() - i,
        {
            proof {
                assert(all.take(i + 1).drop_last() =~= all.take(i as int));
                assert(all.take(i + 1).last() == slot_bytes(self.blocks@[i as int]));
            }
            match &self.blocks[i] {
                Some(block) => {
                    data.extend_from_slice(ring_window(block));
                },
                None => {},
            }
            assert(data@ =~= joined(all.take(i + 1)));
            i = i + 1;
        }
        assert(all.take(i as int) =~= all);
        data
    }

    /// Whether the piece has the hash it should have.
    pub fn verify(&self, torrent: &TorrentInfo) -> (r: bool)
        requires
            self.wf(),
            self@.complete(),
            self@.index.0 < torrent@.piece_count(),
        ensures
            r == self@.matches_hash(torrent@),
    {
        let data = self.join();
        proof {
            lemma_joined_length(self@.blocks);
        }
        let digest = sha1(data.as_slice());
        bytes_equal(digest.as_slice(), torrent.get_piece_hash(self.index))
    }

    /// Whether the piece would have the hash it should have, with a block at
    /// `offset`.
    pub fn matches_with(&self, offset: u32, block: &[u8], torrent: &TorrentInfo) -> (r: bool)
        requires
            self.wf(),
            block@.len() <= MAX_BLOCK,
            self@.index.0 < torrent@.piece_count(),
        ensures
            r == self@.with_block(offset, block@).matches_hash(torrent@),
    {
        let block_index: usize = (offset / BLOCK_SIZE) as usize;
        let ghost all = placed(self@.blocks, block_index as int, block@);
        let slots: usize = if block_index < self.blocks.len() {
            self.blocks.len()
        } else {
            block_index + 1
        };
        let mut data: Vec<u8> = Vec::new();
        let mut i: usize = 0;
        assert(all.take(0) =~= Seq::empty());
        while i < slots
            invariant
                self.wf(),
                all == placed(self@.blocks, block_index as int, block@),
                slots == all.len(),
                block_index < slots,
                i <= slots,
                data@ == joined(all.take(i as int)),
            decreases slots - i,
        {
            proof {
                assert(all.take(i + 1).drop_last() =~= all.take(i as int));
                assert(all.take(i + 1).last() == all[i as int]);
            }
            if i == block_index {
                data.extend_from_slice(block);
            } else if i < self.blocks.len() {
                assert(all[i as int] == slot_bytes(self.blocks@[i as int]));
                match &self.blocks[i] {
                    Some(block) => {
                        data.extend_from_slice(ring_window(block));
                    },
                    None => {},
                }
            }
            assert(data@ =~= joined(all.take(i + 1)));
            i = i + 1;
        }
        proof {
            assert(all.take(i as int) =~= all);
            assert(block_index == slot(offset));
            assert forall|k: int| 0 <= k < all.len() && (#[trigger] all[k]) is Some implies all[k]
                ->Some_0.len() <= MAX_BLOCK by {
                if k != block_index {
                    assert(all[k] == self@.blocks[k]);
                }
            }
            lemma_joined_length(all);
        }
        let digest = sha1(data.as_slice());
        bytes_equal(digest.as_slice(), torrent.get_piece_hash(self.index))
    }
}

proof fn lemma_joined_length(blocks: Seq<Option<Seq<u8>>>)
    requires
        forall|i: int|
            0 <= i < blocks.len() && (#[trigger] blocks[i]) is Some ==> blocks[i]->Some_0.len()
                <= MAX_BLOCK,
    ensures
        joined(blocks).len() <= blocks.len() * MAX_BLOCK,
    decreases blocks.len(),
{
    if blocks.len() > 0 {
        let init = blocks.drop_last();
        assert forall|i: int| 0 <= i < init.len() && (#[trigger] init[i]) is Some implies init[i]
            ->Some_0.len() <= MAX_BLOCK by {
            assert(init[i] == blocks[i]);
        }
        lemma_joined_length(init);
        assert(blocks[blocks.len() - 1] == blocks.last());
    }
}

} // verus!
