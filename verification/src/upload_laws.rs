//! What a connection does for its peer: which requests it takes, and what it
//! sends.
use vstd::prelude::*;

use crate::bits::{law_bitfield_round_trip, packed, unpacked};
use crate::buffers::{smaller, Ring};
use crate::event_handler::{on_block_from_disk, opened};
use crate::messages::{encoded, encoded_all, law_framing, PeerMsg};
use crate::piece_data::CurrentPieceInfo;
use crate::piece_laws::{law_requests_are_the_blocks, number_of_blocks};
use crate::piece_set::Pieces;
use crate::protocol_laws::in_order;
use crate::protocol_model::{
    after_messages, after_write, before_write, bitfield_message, faults, on_message, write_faults,
    CommonView, ConnView, Ended, MsgError, World,
};
use crate::torrent_info::TorrentView;
use crate::types::{
    BlockInfo, BlockReceiver, BlockRequest, ConnectionId, PieceIndex, PieceReaderMessage,
};
use crate::wire::{be32, lemma_u32_at, u32_at};

verus! {

// ---------------------------------------------------------------------------
// Requests of the peer
// ---------------------------------------------------------------------------

/// A block, as a request or a cancellation names it.
pub open spec fn named_block(block: BlockInfo) -> Seq<u8> {
    be32(block.piece_index.0) + be32(block.offset) + be32(block.length)
}

proof fn lemma_named_block(bytes: Seq<u8>, block: BlockInfo)
    requires
        bytes.len() >= 12,
        bytes.take(12) == named_block(block),
    ensures
        u32_at(bytes, 0) == block.piece_index.0,
        u32_at(bytes, 4) == block.offset,
        u32_at(bytes, 8) == block.length,
{
    let name = named_block(block);
    assert(bytes.subrange(0, 4) =~= bytes.take(12).subrange(0, 4));
    assert(name.subrange(0, 4) =~= be32(block.piece_index.0));
    assert(bytes.subrange(4, 8) =~= bytes.take(12).subrange(4, 8));
    assert(name.subrange(4, 8) =~= be32(block.offset));
    assert(bytes.subrange(8, 12) =~= bytes.take(12).subrange(8, 12));
    assert(name.subrange(8, 12) =~= be32(block.length));
    lemma_u32_at(bytes, 0, block.piece_index.0);
    lemma_u32_at(bytes, 4, block.offset);
    lemma_u32_at(bytes, 8, block.length);
}

/// A request for a block is accepted exactly if we have the piece, the block is no
/// longer than 16 KiB, and it ends no later than the piece. What is wrong first is
/// the error, and changes nothing. (There is no answer to a request for the piece
/// behind the last one, nor once a peer has asked for 255 blocks.)
pub proof fn law_requests_are_accepted(w: World, t: TorrentView, block: BlockInfo)
    requires
        in_order(w, t),
        w.window().len() >= 12,
        w.window().take(12) == named_block(block),
        block.piece_index.0 != t.piece_count(),
        w.conn.requested < 255,
    ensures
        !faults(w, t, 6, 12),
        ({
            let (after, result) = on_message(w, t, 6, 12, None);
            let length = t.piece_len(block.piece_index);
            let good = w.common.our_pieces.has(block.piece_index) && block.length <= 16384
                && block.offset + block.length <= length;
            &&& good <==> result is Ok
            &&& result is Err ==> after == w
            &&& block.piece_index.0 > t.piece_count() <==> result == Err::<(), MsgError>(
                MsgError::PieceIndexTooLarge,
            )
            &&& block.piece_index.0 < t.piece_count() && !w.common.our_pieces.has(
                block.piece_index,
            ) <==> result == Err::<(), MsgError>(MsgError::PieceNotAvailable)
            &&& w.common.our_pieces.has(block.piece_index) && (block.length > 16384
                || block.length > length) <==> result == Err::<(), MsgError>(
                MsgError::RequestedBlockTooLong,
            )
            &&& w.common.our_pieces.has(block.piece_index) && block.length <= 16384
                && block.length <= length && block.offset + block.length > length <==> result
                == Err::<(), MsgError>(MsgError::BadOffsetLengthCombination)
        }),
{
    lemma_named_block(w.window(), block);
}

/// A request that is accepted is counted. If the peer is not choked and has not
/// asked for eight blocks, the disk reader is told, for this connection, and the
/// block is expected from it, after all others. Else the block is noted, after all
/// others, and the disk reader is not told. Nothing else changes.
pub proof fn law_accepted_requests_are_served(w: World, t: TorrentView, block: BlockInfo)
    requires
        w.window().len() >= 12,
        w.window().take(12) == named_block(block),
        !faults(w, t, 6, 12),
        on_message(w, t, 6, 12, None).1 is Ok,
    ensures
        ({
            let after = on_message(w, t, 6, 12, None).0;
            let receiver = BlockReceiver { id: w.conn.id, token: w.conn.token };
            &&& after.conn.requested == w.conn.requested + 1
            &&& !w.conn.state.peer_choked && w.conn.requested < 8 ==> {
                &&& after.common.reader == w.common.reader.push(
                    PieceReaderMessage::Request(BlockRequest { block_info: block, receiver }),
                )
                &&& after.common.pending == w.common.pending.push((w.conn.id, block))
                &&& after.conn.peer_requests == w.conn.peer_requests
            }
            &&& w.conn.state.peer_choked || w.conn.requested >= 8 ==> {
                &&& after.common == w.common
                &&& after.conn.peer_requests == w.conn.peer_requests.push(block)
            }
            &&& after.conn == (ConnView {
                requested: after.conn.requested,
                peer_requests: after.conn.peer_requests,
                ..w.conn
            })
            &&& after.common == (CommonView {
                reader: after.common.reader,
                pending: after.common.pending,
                ..w.common
            })
        }),
{
    lemma_named_block(w.window(), block);
}

/// Every block that a client asks for that goes through a piece from its start is
/// accepted, if we have the piece.
pub proof fn law_ordinary_requests_are_accepted(w: World, t: TorrentView, index: PieceIndex, k: int)
    requires
        in_order(w, t),
        w.common.our_pieces.has(index),
        0 <= k < number_of_blocks(t.piece_len(index) as int),
        ({
            let fresh = CurrentPieceInfo { index, requested_up_to: 0, length: t.piece_len(index) };
            &&& w.window().len() >= 12
            &&& w.window().take(12) == named_block(fresh.blocks_left()[k])
        }),
        w.conn.requested < 255,
    ensures
        !faults(w, t, 6, 12),
        on_message(w, t, 6, 12, None).1 is Ok,
{
    let fresh = CurrentPieceInfo { index, requested_up_to: 0, length: t.piece_len(index) };
    law_requests_are_the_blocks(index, t.piece_len(index), k);
    law_requests_are_accepted(w, t, fresh.blocks_left()[k]);
}

/// A cancellation is passed on to the disk reader, for this connection, and does
/// nothing else.
pub proof fn law_cancellations_are_passed_on(w: World, t: TorrentView, block: BlockInfo)
    requires
        w.window().len() >= 12,
        w.window().take(12) == named_block(block),
    ensures
        !faults(w, t, 8, 12),
        on_message(w, t, 8, 12, None).1 is Ok,
        on_message(w, t, 8, 12, None).0.conn == w.conn,
        on_message(w, t, 8, 12, None).0.common == (CommonView {
            reader: w.common.reader.push(PieceReaderMessage::CancelRequest(block, w.conn.id)),
            ..w.common
        }),
{
    lemma_named_block(w.window(), block);
}

/// A request of ours, as the other side reads it, names the block that we want.
pub proof fn law_requests_name_blocks(block: BlockInfo)
    ensures
        encoded(PeerMsg::Request(block)).skip(5) == named_block(block),
        encoded(PeerMsg::Request(block))[4] == 6,
        u32_at(encoded(PeerMsg::Request(block)), 0) == 13,
{
    law_framing(PeerMsg::Request(block));
    assert(encoded(PeerMsg::Request(block)).skip(5) =~= named_block(block));
}

// ---------------------------------------------------------------------------
// What is sent
// ---------------------------------------------------------------------------

/// No block that is waiting is lost, and none is sent twice. As long as something
/// else is to be said, all keep waiting. Once nothing is, one of them becomes what
/// is to be sent, and all others keep waiting, in their order.
pub proof fn law_no_block_is_lost(w: World, written: Option<usize>)
    ensures
        ({
            let after = after_write(w, written);
            let sent = match written {
                Some(n) => n as int,
                None => 0,
            };
            let silent = (w.conn.send.unread.len() <= sent || w.conn.send.unread.len() == 0)
                && w.conn.msgs_out.len() == 0;
            &&& w.conn.send.capacity > 0 && !(silent && w.conn.blocks_out.len() > 0) ==> {
                &&& after.conn.blocks_out == w.conn.blocks_out
                &&& after.conn.send.unread == w.conn.send.unread.skip(
                    smaller(sent, w.conn.send.unread.len() as int),
                )
                &&& after.conn.send.capacity == w.conn.send.capacity
            }
            &&& w.conn.send.capacity > 0 && silent && w.conn.blocks_out.len() > 0 ==> {
                &&& after.conn.blocks_out.len() + 1 == w.conn.blocks_out.len()
                &&& after.conn.blocks_out.push(after.conn.send) == w.conn.blocks_out
                &&& after.conn.blocks_out.to_multiset().insert(after.conn.send)
                    == w.conn.blocks_out.to_multiset()
                &&& after.conn.bytes_sent == 0
                &&& after.conn.block_length == Some((after.conn.send.unread.len() % 65536) as u16)
            }
            &&& after.conn.msgs_out == w.conn.msgs_out
        }),
{
    let after = after_write(w, written);
    let blocks = w.conn.blocks_out;
    if blocks.len() > 0 {
        assert(blocks.drop_last().push(blocks.last()) =~= blocks);
        broadcast use vstd::seq_lib::group_to_multiset_ensures;

        assert(blocks.drop_last().push(blocks.last()).to_multiset()
            =~= blocks.drop_last().to_multiset().insert(blocks.last()));
    }
}

/// The bytes that a socket takes are counted, and so is a block that a single
/// write has taken and more: with what it has behind its header of 13 bytes. A
/// socket that takes nothing is not tried again.
pub proof fn law_what_is_sent_is_counted(w: World, n: usize)
    requires
        !write_faults(w, Some(n)),
    ensures
        ({
            let after = after_write(w, Some(n));
            let block = w.conn.block_length;
            &&& block is Some && n > block->Some_0 ==> after.common.uploaded == w.common.uploaded
                + block->Some_0 - 13
            &&& block is None || n <= block->Some_0 ==> after.common.uploaded == w.common.uploaded
            &&& after.common == (CommonView { uploaded: after.common.uploaded, ..w.common })
            &&& after.conn.writable == w.conn.writable
            &&& after.conn.blocks_out == w.conn.blocks_out ==> after.conn.bytes_sent
                == w.conn.bytes_sent + n
        }),
        !after_write(w, None).conn.writable,
        after_write(w, None).common == w.common,
        !write_faults(w, None),
        w.conn.block_length is None && w.conn.bytes_sent + n <= u32::MAX ==> !write_faults(
            w,
            Some(n),
        ),
{
    if w.conn.blocks_out.len() > 0 {
        assert(w.conn.blocks_out.drop_last().len() < w.conn.blocks_out.len());
    }
}

/// Writing never fails as long as the counts can follow.
pub proof fn law_writes_can_be_counted(w: World, n: usize)
    requires
        w.conn.bytes_sent + n <= u32::MAX,
        w.conn.block_length matches Some(length) ==> length >= 13 && w.common.uploaded + length
            <= u64::MAX,
    ensures
        !write_faults(w, Some(n)),
{
}

/// What is said is said in order, and nothing of it is lost: before a write, and
/// after messages have been dealt with, what is in the send buffer and what is
/// queued behind it come to the same bytes as before.
pub proof fn law_messages_are_sent_in_order(conn: ConnView, end: World)
    requires
        conn.send.wf(),
        end.conn.send.wf(),
    ensures
        ({
            let (after, step) = before_write(conn);
            &&& after.send.unread + encoded_all(after.msgs_out) == conn.send.unread + encoded_all(
                conn.msgs_out,
            )
            &&& !conn.writable <==> step is NotNow
            &&& conn.writable && conn.send.free() > 512 && step is Ready ==> after.msgs_out.len()
                == 0
            &&& step is Fault <==> conn.writable && conn.send.free() > 512
                && conn.send.unread.len() + encoded_all(conn.msgs_out).len() > conn.send.capacity
            &&& after == (ConnView { send: after.send, msgs_out: after.msgs_out, ..conn })
        }),
        ({
            let (after, outcome) = after_messages(end, Ended::Drained);
            &&& after.conn.send.unread + encoded_all(after.conn.msgs_out) == end.conn.send.unread
                + encoded_all(end.conn.msgs_out)
            &&& outcome is Done ==> after.conn.msgs_out.len() == 0
            &&& outcome is Done <==> end.conn.send.unread.len() + encoded_all(
                end.conn.msgs_out,
            ).len() <= end.conn.send.capacity
            &&& outcome is Done || outcome is Fault
            &&& after.common == end.common
            &&& after.conn == (ConnView {
                send: after.conn.send,
                msgs_out: after.conn.msgs_out,
                ..end.conn
            })
        }),
{
    lemma_flushed(conn);
    lemma_flushed(end.conn);
}

proof fn lemma_flushed(conn: ConnView)
    requires
        conn.send.wf(),
    ensures
        conn.fits() ==> conn.flushed().send.unread + encoded_all(conn.flushed().msgs_out)
            == conn.send.unread + encoded_all(conn.msgs_out),
{
    if conn.fits() {
        let said = encoded_all(conn.msgs_out);
        assert(said.take(smaller(said.len() as int, conn.send.free())) =~= said);
        assert(conn.flushed().send.unread + Seq::<u8>::empty() =~= conn.send.unread + said);
    }
}

/// Queued messages on the wire are the messages one behind the other.
pub proof fn law_queues_are_messages_in_order(first: Seq<PeerMsg>, second: Seq<PeerMsg>, msg: PeerMsg)
    ensures
        encoded_all(first + second) == encoded_all(first) + encoded_all(second),
        encoded_all(seq![msg]) == encoded(msg),
    decreases second.len(),
{
    reveal_with_fuel(encoded_all, 2);
    assert(seq![msg].drop_last() =~= Seq::empty());
    assert(seq![msg].last() == msg);
    assert(Seq::<u8>::empty() + encoded(msg) =~= encoded(msg));
    if second.len() == 0 {
        assert(first + second =~= first);
        assert(encoded_all(first) + Seq::<u8>::empty() =~= encoded_all(first));
    } else {
        law_queues_are_messages_in_order(first, second.drop_last(), msg);
        assert((first + second).drop_last() =~= first + second.drop_last());
        assert((first + second).last() == second.last());
        assert(encoded_all(first + second) =~= encoded_all(first) + encoded_all(second));
    }
}

/// A block that has come from disk is sent exactly if it is the one that was
/// expected next for a connection that is still there; it comes behind all others.
/// It is expected no more then, and so is a block of a connection that is gone.
pub proof fn law_expected_blocks_are_sent(
    w: World,
    receiver: ConnectionId,
    info: BlockInfo,
    data: Ring,
)
    ensures
        ({
            let after = on_block_from_disk(w, receiver, info, data);
            let pending = w.common.pending;
            let expected = pending.len() > 0 && receiver == w.conn.id && pending[0] == (
                receiver,
                info,
            );
            let gone = pending.len() > 0 && receiver != w.conn.id && pending[0].0 == receiver;
            &&& expected ==> after.conn == (ConnView {
                blocks_out: w.conn.blocks_out.push(data),
                ..w.conn
            })
            &&& !expected ==> after.conn == w.conn
            &&& expected || gone ==> pending == seq![pending[0]] + after.common.pending
            &&& !expected && !gone ==> after.common.pending == pending
            &&& after.common == (CommonView { pending: after.common.pending, ..w.common })
        }),
{
    let pending = w.common.pending;
    if pending.len() > 0 {
        assert(pending =~= seq![pending[0]] + pending.drop_first());
    }
}

/// A fresh connection tells its peer first which pieces we have, if we have any;
/// and nothing else is said or known.
pub proof fn law_first_word_is_the_bitfield(t: TorrentView, ours: Pieces, id: ConnectionId)
    requires
        ours.bits.len() == t.piece_count(),
        ours.count > 0,
        packed(ours.bits).len() + 5 <= 32768,
    ensures
        ({
            let conn = opened(t, ours, id);
            let said = conn.send.unread;
            &&& said.len() == 5 + (ours.bits.len() + 7) / 8
            &&& u32_at(said, 0) == 1 + (ours.bits.len() + 7) / 8
            &&& said[4] == 5
            &&& forall|i: int|
                0 <= i < ours.bits.len() ==> (#[trigger] ours.bits[i]) == unpacked(said.skip(5))[i]
            &&& conn.id == id
            &&& conn.msgs_out.len() == 0
            &&& forall|i: PieceIndex| !(#[trigger] conn.peers_pieces.has(i))
            &&& conn.state.we_choked && conn.state.peer_choked
            &&& !conn.state.we_interested && !conn.state.peer_interested
            &&& conn.current is None
        }),
        opened(t, Pieces { count: 0, ..ours }, id).send.unread.len() == 0,
{
    let message = bitfield_message(ours.bits);
    let said = opened(t, ours, id).send.unread;
    let length = (1 + packed(ours.bits).len()) as u32;
    assert(said =~= message);
    assert(said.subrange(0, 4) =~= be32(length));
    lemma_u32_at(said, 0, length);
    assert(said.skip(5) =~= packed(ours.bits));
    assert forall|i: int| 0 <= i < ours.bits.len() implies (#[trigger] ours.bits[i]) == unpacked(
        said.skip(5),
    )[i] by {
        law_bitfield_round_trip(ours.bits, i);
    }
}

} // verus!
