//! What a connection does for the download: what it asks for, and what becomes of
//! what it gets.
use vstd::prelude::*;

use crate::bits::{law_bitfield_round_trip, packed, unpacked};
use crate::buffers::smaller;
use crate::digest::sha1_digest;
use crate::messages::PeerMsg;
use crate::piece_data::{joined, CurrentPieceInfo, PieceView};
use crate::piece_laws::{
    distinct_below, filled, law_piece_is_its_content, nth_block, number_of_blocks,
};
use crate::piece_set::{in_both, lemma_number_set_bounds, number_set, Pieces};
use crate::protocol_laws::{in_order, law_bitfield_tells_pieces};
use crate::protocol_model::{
    all_requested, block_kept, faults, incoming_data, lemma_news_frame, lemma_picking_frame,
    lemma_requesting_frame, merged, named_pieces, on_block, on_completed_piece, on_message,
    pick_is_legal, piece_complete, ConnView, ConnectionState, HandlerAction, MsgError, World,
};
use crate::torrent_info::TorrentView;
use crate::types::{BlockInfo, PieceIndex};
use crate::wire::{be32, lemma_u32_at, u32_at};

verus! {

// ---------------------------------------------------------------------------
// What is asked for
// ---------------------------------------------------------------------------

/// The request for the block with number `k` of a piece.
pub open spec fn nth_request(index: PieceIndex, length: u32, k: int) -> PeerMsg {
    PeerMsg::Request(
        BlockInfo {
            piece_index: index,
            offset: (16384 * k) as u32,
            length: smaller(16384, length - 16384 * k) as u32,
        },
    )
}

/// The requests for the first three blocks of a piece, or for all if it has fewer.
pub open spec fn first_requests(index: PieceIndex, length: u32) -> Seq<PeerMsg> {
    Seq::new(
        smaller(3, number_of_blocks(length as int)) as nat,
        |k: int| nth_request(index, length, k),
    )
}

/// A piece of which the first three blocks have been asked for.
pub open spec fn just_begun(index: PieceIndex, length: u32) -> CurrentPieceInfo {
    CurrentPieceInfo {
        index,
        requested_up_to: smaller(49152, length as int) as u32,
        length,
    }
}

/// Whether some piece is wanted that the peer has.
pub open spec fn something_to_get(wanted: Pieces, theirs: Pieces) -> bool {
    exists|i: PieceIndex| #[trigger] wanted.has(i) && theirs.has(i)
}

/// Whether a connection has asked for all of its piece, or has none.
pub open spec fn idle(conn: ConnView) -> bool {
    conn.current matches Some(current) ==> current.requested_up_to >= current.length
}

proof fn lemma_starting(conn: ConnView, t: TorrentView, index: PieceIndex)
    ensures
        conn.starting(t, index) == (ConnView {
            current: Some(just_begun(index, t.piece_len(index))),
            msgs_out: conn.msgs_out + first_requests(index, t.piece_len(index)),
            ..conn
        }),
{
    reveal_with_fuel(ConnView::requesting, 4);
    let length = t.piece_len(index);
    let requests = first_requests(index, length);
    let c0 = CurrentPieceInfo { index, requested_up_to: 0, length };
    let c1 = c0.after_block();
    let c2 = c1.after_block();
    let after = conn.starting(t, index);
    if length == 0 {
        assert(after.msgs_out =~= conn.msgs_out + requests);
    } else if length <= 16384 {
        assert(PeerMsg::Request(c0.block()) == nth_request(index, length, 0));
        assert(after.msgs_out =~= conn.msgs_out + requests);
    } else if length <= 32768 {
        assert(PeerMsg::Request(c0.block()) == nth_request(index, length, 0));
        assert(PeerMsg::Request(c1.block()) == nth_request(index, length, 1));
        assert(after.msgs_out =~= conn.msgs_out + requests);
    } else {
        assert(PeerMsg::Request(c0.block()) == nth_request(index, length, 0));
        assert(PeerMsg::Request(c1.block()) == nth_request(index, length, 1));
        assert(PeerMsg::Request(c2.block()) == nth_request(index, length, 2));
        assert(after.msgs_out =~= conn.msgs_out + requests);
    }
}

/// What a pick comes to, in terms of the sets alone.
proof fn lemma_legal_pick(w: World, pick: Option<PieceIndex>)
    requires
        w.wanted_by_both(pick),
        w.common.wanted.bits.len() <= u32::MAX,
    ensures
        pick matches Some(i) ==> w.common.wanted.has(i) && w.conn.peers_pieces.has(i),
        pick is None ==> !something_to_get(w.common.wanted, w.conn.peers_pieces),
{
    if pick is None {
        let wanted = w.common.wanted;
        let theirs = w.conn.peers_pieces;
        assert forall|i: PieceIndex| #[trigger] wanted.has(i) implies !theirs.has(i) by {
            assert(!in_both(wanted.bits, theirs.bits, i.0 as int));
        }
    }
}

/// A set without a piece that was in it: that piece is gone, and no other.
proof fn lemma_without(pieces: Pieces, index: PieceIndex, i: PieceIndex)
    requires
        pieces.has(index),
    ensures
        pieces.without(index).has(i) <==> pieces.has(i) && i != index,
{
}

/// Being unchoked while nothing is being asked for, we begin with a piece that is
/// wanted and that the peer has, if there is one: it is no longer wanted, and its
/// first blocks are asked for. If there is none, nothing is said.
pub proof fn law_unchoke_begins_download(w: World, t: TorrentView, pick: Option<PieceIndex>)
    requires
        in_order(w, t),
        pick_is_legal(w, t, 1, 0, pick),
        w.conn.state.we_choked,
        w.conn.current is None,
    ensures
        ({
            let (after, result) = on_message(w, t, 1, 0, pick);
            &&& result is Ok
            &&& !after.conn.state.we_choked
            &&& something_to_get(w.common.wanted, w.conn.peers_pieces) ==> {
                &&& after.conn.current matches Some(current)
                &&& w.common.wanted.has(current.index)
                &&& w.conn.peers_pieces.has(current.index)
                &&& current == just_begun(current.index, t.piece_len(current.index))
                &&& after.conn.msgs_out == w.conn.msgs_out + first_requests(
                    current.index,
                    t.piece_len(current.index),
                )
                &&& forall|i: PieceIndex| #[trigger]
                    after.common.wanted.has(i) <==> w.common.wanted.has(i) && i != current.index
            }
            &&& !something_to_get(w.common.wanted, w.conn.peers_pieces) ==> {
                &&& after.conn.current is None
                &&& after.conn.msgs_out == w.conn.msgs_out
                &&& after.common == w.common
            }
        }),
{
    let unchoked = w.with_state(ConnectionState { we_choked: false, ..w.conn.state });
    lemma_legal_pick(w, pick);
    if let Some(index) = pick {
        let next = unchoked.having_chosen(None, pick);
        lemma_starting(next.conn, t, index);
        assert forall|i: PieceIndex| #[trigger]
            next.common.wanted.has(i) <==> w.common.wanted.has(i) && i != index by {
            lemma_without(w.common.wanted, index, i);
        }
    }
}

/// After a block that was accepted the download goes on. While blocks of the
/// piece are left to ask for, the next one is asked for. Else a piece is begun
/// that is wanted and that the peer has, if there is one: it is no longer wanted,
/// and its first blocks are asked for. If there is none, the peer is told that we
/// are not interested.
pub proof fn law_download_goes_on(w: World, t: TorrentView, payload: nat, pick: Option<PieceIndex>)
    requires
        in_order(w, t),
        !faults(w, t, 7, payload),
        pick_is_legal(w, t, 7, payload, pick),
        on_message(w, t, 7, payload, pick).1 is Ok,
    ensures
        ({
            let after = on_message(w, t, 7, payload, pick).0;
            &&& !idle(w.conn) ==> {
                let before = w.conn.current->Some_0;
                let length = smaller(16384, before.length - before.requested_up_to) as u32;
                &&& after.conn.current == Some(
                    CurrentPieceInfo {
                        requested_up_to: (before.requested_up_to + length) as u32,
                        ..before
                    },
                )
                &&& after.conn.msgs_out == w.conn.msgs_out.push(
                    PeerMsg::Request(
                        BlockInfo {
                            piece_index: before.index,
                            offset: before.requested_up_to,
                            length,
                        },
                    ),
                )
                &&& after.common.wanted == w.common.wanted
                &&& after.conn.state == w.conn.state
            }
            &&& idle(w.conn) && something_to_get(w.common.wanted, w.conn.peers_pieces) ==> {
                &&& after.conn.current matches Some(current)
                &&& w.common.wanted.has(current.index)
                &&& w.conn.peers_pieces.has(current.index)
                &&& current == just_begun(current.index, t.piece_len(current.index))
                &&& after.conn.msgs_out == w.conn.msgs_out + first_requests(
                    current.index,
                    t.piece_len(current.index),
                )
                &&& after.conn.state == w.conn.state
                &&& forall|i: PieceIndex| #[trigger]
                    after.common.wanted.has(i) <==> w.common.wanted.has(i) && i != current.index
            }
            &&& idle(w.conn) && !something_to_get(w.common.wanted, w.conn.peers_pieces) ==> {
                &&& after.conn.current is None
                &&& after.conn.msgs_out == w.conn.msgs_out.push(PeerMsg::NotInterested)
                &&& !after.conn.state.we_interested
                &&& after.common.wanted == w.common.wanted
            }
        }),
{
    reveal_with_fuel(ConnView::requesting, 2);
    let kept = block_kept(w, t, payload);
    let completed = if piece_complete(kept.conn) {
        on_completed_piece(kept, t).0
    } else {
        kept
    };
    assert(completed.conn.current == w.conn.current);
    assert(completed.conn.msgs_out == w.conn.msgs_out);
    assert(completed.conn.peers_pieces == w.conn.peers_pieces);
    assert(completed.conn.state == w.conn.state);
    assert(completed.common.wanted == w.common.wanted);
    assert(all_requested(w.conn) == idle(w.conn));
    if idle(w.conn) {
        lemma_legal_pick(w, pick);
        if let Some(index) = pick {
            let next = completed.having_chosen(None, pick);
            lemma_starting(next.conn, t, index);
            assert forall|i: PieceIndex| #[trigger]
                next.common.wanted.has(i) <==> w.common.wanted.has(i) && i != index by {
                lemma_without(w.common.wanted, index, i);
            }
        }
    }
}

/// Hearing, unchoked and with nothing being asked for, that the peer has a piece
/// that is wanted, we begin with it: it is no longer wanted, and its first blocks
/// are asked for, after the peer has been told that we are interested.
pub proof fn law_have_begins_download(w: World, t: TorrentView, index: PieceIndex)
    requires
        in_order(w, t),
        !faults(w, t, 4, 4),
        w.window().len() >= 4,
        w.window().take(4) == be32(index.0),
        index.0 < t.piece_count(),
        !w.conn.state.we_choked,
        w.conn.current is None,
    ensures
        ({
            let (after, result) = on_message(w, t, 4, 4, None);
            let told = if w.conn.state.we_interested {
                w.conn.msgs_out
            } else {
                w.conn.msgs_out.push(PeerMsg::Interested)
            };
            &&& result is Ok
            &&& w.common.wanted.has(index) ==> {
                &&& after.conn.current == Some(just_begun(index, t.piece_len(index)))
                &&& after.conn.msgs_out == told + first_requests(index, t.piece_len(index))
                &&& after.conn.state.we_interested
                &&& forall|i: PieceIndex| #[trigger]
                    after.common.wanted.has(i) <==> w.common.wanted.has(i) && i != index
            }
            &&& !w.common.wanted.has(index) ==> {
                &&& after.conn.current is None
                &&& after.conn.msgs_out == w.conn.msgs_out
                &&& after.common == w.common
            }
        }),
{
    lemma_first_number(w.window(), index.0);
    let heard = w.with_peers_pieces(w.conn.peers_pieces.with(index));
    if w.common.wanted.has(index) {
        let next = heard.having_chosen(Some(index), None);
        lemma_starting(next.conn, t, index);
        lemma_starting(next.conn.becoming_interested(), t, index);
        assert forall|i: PieceIndex| #[trigger]
            next.common.wanted.has(i) <==> w.common.wanted.has(i) && i != index by {
            lemma_without(w.common.wanted, index, i);
        }
    }
}

/// Hearing, unchoked and with nothing being asked for, which pieces the peer has,
/// we begin with one that is wanted, if there is one.
pub proof fn law_bitfield_begins_download(
    w: World,
    t: TorrentView,
    payload: nat,
    pick: Option<PieceIndex>,
)
    requires
        in_order(w, t),
        !faults(w, t, 5, payload),
        pick_is_legal(w, t, 5, payload, pick),
        on_message(w, t, 5, payload, pick).1 is Ok,
        !w.conn.state.we_choked,
        w.conn.current is None,
    ensures
        ({
            let after = on_message(w, t, 5, payload, pick).0;
            let theirs = after.conn.peers_pieces;
            let told = if w.conn.state.we_interested {
                w.conn.msgs_out
            } else {
                w.conn.msgs_out.push(PeerMsg::Interested)
            };
            &&& something_to_get(w.common.wanted, theirs) ==> {
                &&& after.conn.current matches Some(current)
                &&& w.common.wanted.has(current.index)
                &&& theirs.has(current.index)
                &&& current == just_begun(current.index, t.piece_len(current.index))
                &&& after.conn.msgs_out == told + first_requests(
                    current.index,
                    t.piece_len(current.index),
                )
                &&& after.conn.state.we_interested
                &&& forall|i: PieceIndex| #[trigger]
                    after.common.wanted.has(i) <==> w.common.wanted.has(i) && i != current.index
            }
            &&& !something_to_get(w.common.wanted, theirs) ==> {
                &&& after.conn.current is None
                &&& after.conn.msgs_out == w.conn.msgs_out
                &&& after.common == w.common
            }
        }),
{
    let heard = w.with_peers_pieces(merged(w.conn.peers_pieces, named_pieces(w, payload)));
    lemma_legal_pick(heard, pick);
    if let Some(index) = pick {
        let next = heard.having_chosen(None, pick);
        lemma_starting(next.conn, t, index);
        lemma_starting(next.conn.becoming_interested(), t, index);
        assert forall|i: PieceIndex| #[trigger]
            next.common.wanted.has(i) <==> w.common.wanted.has(i) && i != index by {
            lemma_without(w.common.wanted, index, i);
        }
    }
}

/// Whether a connection has begun to ask for a piece that the peer has: the
/// requests for its first blocks are what was said last, behind all that was said
/// before.
pub open spec fn has_begun(
    before: ConnView,
    after: ConnView,
    t: TorrentView,
    index: PieceIndex,
) -> bool {
    let requests = first_requests(index, t.piece_len(index));
    let n = after.msgs_out.len() - requests.len();
    &&& after.peers_pieces.has(index)
    &&& after.current == Some(just_begun(index, t.piece_len(index)))
    &&& n >= before.msgs_out.len()
    &&& after.msgs_out.take(before.msgs_out.len() as int) == before.msgs_out
    &&& after.msgs_out.skip(n) == requests
}

/// Whatever the message: a piece that it takes out of the wanted ones is one that
/// the peer has, and the connection has begun to ask for it from its start.
pub proof fn law_taken_pieces_are_asked_for(
    w: World,
    t: TorrentView,
    kind: u8,
    payload: nat,
    pick: Option<PieceIndex>,
    index: PieceIndex,
)
    requires
        in_order(w, t),
        !faults(w, t, kind, payload),
        pick_is_legal(w, t, kind, payload, pick),
        w.common.wanted.has(index),
        !on_message(w, t, kind, payload, pick).0.common.wanted.has(index),
    ensures
        has_begun(w.conn, on_message(w, t, kind, payload, pick).0.conn, t, index),
{
    if kind == 1 {
        let unchoked = w.with_state(ConnectionState { we_choked: false, ..w.conn.state });
        if w.conn.state.we_choked && w.conn.current is None {
            lemma_taken_by_picking(w, unchoked, t, pick, index);
        }
    } else if kind == 4 {
        let heard = PieceIndex(u32_at(w.window(), 0));
        lemma_taken_by_news(
            w,
            w.with_peers_pieces(w.conn.peers_pieces.with(heard)),
            t,
            Some(heard),
            None,
            index,
        );
    } else if kind == 5 {
        lemma_taken_by_news(
            w,
            w.with_peers_pieces(merged(w.conn.peers_pieces, named_pieces(w, payload))),
            t,
            None,
            pick,
            index,
        );
    } else if kind == 7 {
        lemma_taken_by_block(w, t, payload, pick, index);
    }
}

proof fn lemma_taken_by_block(
    w: World,
    t: TorrentView,
    payload: nat,
    pick: Option<PieceIndex>,
    index: PieceIndex,
)
    requires
        pick_is_legal(w, t, 7, payload, pick),
        w.common.wanted.has(index),
        !on_block(w, t, payload, pick).0.common.wanted.has(index),
    ensures
        has_begun(w.conn, on_block(w, t, payload, pick).0.conn, t, index),
{
    let kept = block_kept(w, t, payload);
    let completed = if piece_complete(kept.conn) {
        on_completed_piece(kept, t).0
    } else {
        kept
    };
    assert(completed.conn.msgs_out == w.conn.msgs_out);
    assert(completed.conn.current == w.conn.current);
    assert(completed.common.wanted == w.common.wanted);
    assert(completed.conn.peers_pieces == w.conn.peers_pieces);
    if all_requested(w.conn) {
        lemma_taken_by_picking(w, completed, t, pick, index);
    }
}

proof fn lemma_taken_by_picking(
    w: World,
    open: World,
    t: TorrentView,
    pick: Option<PieceIndex>,
    index: PieceIndex,
)
    requires
        open.conn.msgs_out == w.conn.msgs_out,
        open.conn.peers_pieces == w.conn.peers_pieces,
        open.common.wanted == w.common.wanted,
    ensures
        open.wanted_by_both(pick) && w.common.wanted.has(index) && !open.picking(
            t,
            None,
            pick,
        ).common.wanted.has(index) ==> has_begun(
            w.conn,
            open.picking(t, None, pick).conn,
            t,
            index,
        ),
{
    if let Some(i) = pick {
        let next = open.having_chosen(None, pick);
        let requests = first_requests(i, t.piece_len(i));
        lemma_starting(next.conn, t, i);
        if open.wanted_by_both(pick) {
            lemma_without(w.common.wanted, i, index);
        }
        let said = w.conn.msgs_out + requests;
        assert(said.take(w.conn.msgs_out.len() as int) =~= w.conn.msgs_out);
        assert(said.skip(w.conn.msgs_out.len() as int) =~= requests);
    }
}

proof fn lemma_taken_by_news(
    w: World,
    heard: World,
    t: TorrentView,
    available: Option<PieceIndex>,
    pick: Option<PieceIndex>,
    index: PieceIndex,
)
    requires
        heard.conn.msgs_out == w.conn.msgs_out,
        heard.common.wanted == w.common.wanted,
        heard.conn.peers_pieces.bits.len() == heard.common.wanted.bits.len(),
        available matches Some(i) ==> heard.conn.peers_pieces.has(i)
            || heard.conn.peers_pieces.bits.len() <= i.0,
    ensures
        (available is None && heard.news_picks() ==> heard.wanted_by_both(pick))
            && w.common.wanted.has(index) && !heard.hearing_news(
            t,
            available,
            pick,
        ).common.wanted.has(index) ==> has_begun(
            w.conn,
            heard.hearing_news(t, available, pick).conn,
            t,
            index,
        ),
{
    let next = heard.having_chosen(available, pick);
    if let Some(i) = heard.choosing(available, pick) {
        let requests = first_requests(i, t.piece_len(i));
        lemma_starting(next.conn, t, i);
        lemma_starting(next.conn.becoming_interested(), t, i);
        if w.common.wanted.has(i) {
            lemma_without(w.common.wanted, i, index);
        }
        let said = w.conn.msgs_out + requests;
        assert(said.take(w.conn.msgs_out.len() as int) =~= w.conn.msgs_out);
        assert(said.skip(w.conn.msgs_out.len() as int) =~= requests);
        let more = w.conn.msgs_out.push(PeerMsg::Interested) + requests;
        assert(more.take(w.conn.msgs_out.len() as int) =~= w.conn.msgs_out);
        assert(more.skip((w.conn.msgs_out.len() + 1) as int) =~= requests);
    }
}

// ---------------------------------------------------------------------------
// What becomes of blocks
// ---------------------------------------------------------------------------

/// The block with number `k` of a piece that holds `content`, as a message brings
/// it.
pub open spec fn block_payload(index: PieceIndex, content: Seq<u8>, k: int) -> Seq<u8> {
    be32(index.0) + be32((16384 * k) as u32) + nth_block(content, k)
}

/// Whether a connection is putting together the piece `index`, and the blocks of
/// `content` with the numbers in `order` have come, in that order.
pub open spec fn has_come(
    conn: ConnView,
    t: TorrentView,
    index: PieceIndex,
    content: Seq<u8>,
    order: Seq<int>,
) -> bool {
    conn.assembling == if order.len() == 0 {
        None
    } else {
        Some(filled(PieceView::empty(t, index), content, order))
    }
}

proof fn lemma_block_payload(bytes: Seq<u8>, index: PieceIndex, content: Seq<u8>, k: int)
    requires
        0 <= k < number_of_blocks(content.len() as int),
        content.len() <= u32::MAX,
        bytes.len() >= 8 + nth_block(content, k).len(),
        bytes.take((8 + nth_block(content, k).len()) as int) == block_payload(index, content, k),
    ensures
        u32_at(bytes, 0) == index.0,
        u32_at(bytes, 4) == 16384 * k,
        bytes.subrange(8, (8 + nth_block(content, k).len()) as int) == nth_block(content, k),
{
    let n = (8 + nth_block(content, k).len()) as int;
    let text = block_payload(index, content, k);
    let offset = (16384 * k) as u32;
    assert(bytes.subrange(0, 4) =~= bytes.take(n).subrange(0, 4));
    assert(text.subrange(0, 4) =~= be32(index.0));
    assert(bytes.subrange(4, 8) =~= bytes.take(n).subrange(4, 8));
    assert(text.subrange(4, 8) =~= be32(offset));
    lemma_u32_at(bytes, 0, index.0);
    lemma_u32_at(bytes, 4, offset);
    assert(bytes.subrange(8, n) =~= bytes.take(n).subrange(8, n));
    assert(text.subrange(8, n) =~= nth_block(content, k));
}

/// A piece that a peer sends block by block, in whatever order, is kept until it is
/// whole, and every byte is counted. With its last block it becomes ours and goes
/// to disk with all its content, and the event loop is told, if the digest of the
/// content is the hash of the piece. Else it is thrown away and reported, and
/// nothing is ours that was not. Either way no other piece changes.
pub proof fn law_blocks_become_pieces(
    w: World,
    t: TorrentView,
    index: PieceIndex,
    content: Seq<u8>,
    order: Seq<int>,
    k: int,
    pick: Option<PieceIndex>,
)
    requires
        in_order(w, t),
        index.0 < t.piece_count(),
        content.len() == t.piece_len(index),
        content.len() <= 65535 * 16384,
        order.len() < number_of_blocks(content.len() as int),
        distinct_below(order, number_of_blocks(content.len() as int)),
        has_come(w.conn, t, index, content, order),
        w.conn.next_blocks.len() == 0,
        0 <= k < number_of_blocks(content.len() as int),
        !order.contains(k),
        w.window().len() >= 8 + nth_block(content, k).len(),
        w.window().take((8 + nth_block(content, k).len()) as int) == block_payload(
            index,
            content,
            k,
        ),
        w.common.downloaded + content.len() <= u64::MAX,
        w.common.our_pieces.count < u32::MAX,
    ensures
        !faults(w, t, 7, 8 + nth_block(content, k).len()),
        ({
            let n = number_of_blocks(content.len() as int);
            let (after, result) = on_message(w, t, 7, 8 + nth_block(content, k).len(), pick);
            &&& after.common.downloaded == w.common.downloaded + nth_block(content, k).len()
            &&& after.conn.next_blocks.len() == 0
            &&& order.len() + 1 < n ==> {
                &&& result is Ok
                &&& has_come(after.conn, t, index, content, order.push(k))
                &&& after.common.our_pieces == w.common.our_pieces
                &&& after.common.writer == w.common.writer
                &&& after.common.action == w.common.action
            }
            &&& order.len() + 1 == n && sha1_digest(content) == t.piece_hash(index) ==> {
                &&& result is Ok
                &&& after.conn.assembling is None
                &&& after.common.our_pieces.has(index)
                &&& after.common.our_pieces.count == w.common.our_pieces.count + 1
                &&& forall|i: PieceIndex|
                    i != index ==> #[trigger] after.common.our_pieces.has(i)
                        == w.common.our_pieces.has(i)
                &&& after.common.writer.len() == w.common.writer.len() + 1
                &&& after.common.writer.take(w.common.writer.len() as int) == w.common.writer
                &&& after.common.writer.last().index == index
                &&& joined(after.common.writer.last().blocks) == content
                &&& after.common.action == Some(HandlerAction::FinishedPiece(index))
            }
            &&& order.len() + 1 == n && sha1_digest(content) != t.piece_hash(index) ==> {
                &&& result == Err::<(), MsgError>(MsgError::BadPieceHash)
                &&& after.conn.assembling is None
                &&& after.common.our_pieces == w.common.our_pieces
                &&& after.common.writer == w.common.writer
                &&& after.common.action == w.common.action
            }
        }),
{
    let n = number_of_blocks(content.len() as int);
    let data = nth_block(content, k);
    let payload = 8 + data.len();
    let more = order.push(k);
    lemma_block_payload(w.window(), index, content, k);
    law_piece_is_its_content(t, index, content, order);
    assert(more.drop_last() =~= order);
    assert(distinct_below(more, n)) by {
        assert forall|i: int| 0 <= i < more.len() implies 0 <= #[trigger] more[i] < n by {
            if i < order.len() {
                assert(more[i] == order[i]);
            }
        }
        assert(more.no_duplicates()) by {
            assert forall|i: int, j: int|
                0 <= i < more.len() && 0 <= j < more.len() && i != j implies more[i] != more[j] by {
                if i < order.len() && j < order.len() {
                    assert(more[i] == order[i] && more[j] == order[j]);
                } else if i < order.len() {
                    assert(order.contains(more[i]));
                } else {
                    assert(order.contains(more[j]));
                }
            }
        }
    }
    law_piece_is_its_content(t, index, content, more);
    let before = filled(PieceView::empty(t, index), content, order);
    let piece = filled(PieceView::empty(t, index), content, more);
    assert(before.accepts((16384 * k) as u32));
    if order.len() == 0 {
        assert(order =~= Seq::empty());
        assert(before == PieceView::empty(t, index));
    }
    assert(piece == before.with_block((16384 * k) as u32, data));
    let kept = block_kept(w, t, payload);
    assert(incoming_data(w, payload) == data);
    assert(kept.conn.assembling == Some(piece));
    assert(kept.conn.next_blocks == w.conn.next_blocks);
    let completed = if piece_complete(kept.conn) {
        on_completed_piece(kept, t).0
    } else {
        kept
    };
    lemma_picking_frame(completed, t, None, pick);
    lemma_requesting_frame(completed.conn, 1);
    assert(w.common.writer.push(piece).take(w.common.writer.len() as int) =~= w.common.writer);
}

/// A block of another piece than the one that is being put together is put aside,
/// and counted; nothing becomes ours.
pub proof fn law_other_blocks_are_put_aside(
    w: World,
    t: TorrentView,
    index: PieceIndex,
    offset: u32,
    data: Seq<u8>,
    pick: Option<PieceIndex>,
)
    requires
        w.conn.assembling matches Some(piece) && piece.index != index && !piece.complete(),
        w.window().len() >= 8 + data.len(),
        w.window().take((8 + data.len()) as int) == be32(index.0) + be32(offset) + data,
        data.len() <= 65536,
        w.common.downloaded + data.len() <= u64::MAX,
    ensures
        !faults(w, t, 7, 8 + data.len()),
        ({
            let (after, result) = on_message(w, t, 7, 8 + data.len(), pick);
            &&& result is Ok
            &&& after.conn.assembling == w.conn.assembling
            &&& after.conn.next_blocks == w.conn.next_blocks.push(
                (
                    BlockInfo { piece_index: index, offset, length: data.len() as u32 },
                    data,
                ),
            )
            &&& after.common.downloaded == w.common.downloaded + data.len()
            &&& after.common.our_pieces == w.common.our_pieces
            &&& after.common.writer == w.common.writer
        }),
{
    let bytes = w.window();
    let payload = 8 + data.len();
    let n = payload as int;
    let text = be32(index.0) + be32(offset) + data;
    assert(bytes.subrange(0, 4) =~= bytes.take(n).subrange(0, 4));
    assert(text.subrange(0, 4) =~= be32(index.0));
    assert(bytes.subrange(4, 8) =~= bytes.take(n).subrange(4, 8));
    assert(text.subrange(4, 8) =~= be32(offset));
    lemma_u32_at(bytes, 0, index.0);
    lemma_u32_at(bytes, 4, offset);
    assert(bytes.subrange(8, n) =~= bytes.take(n).subrange(8, n));
    assert(text.subrange(8, n) =~= data);
    assert(incoming_data(w, payload) == data);
    let kept = block_kept(w, t, payload);
    lemma_picking_frame(kept, t, None, pick);
    lemma_requesting_frame(kept.conn, 1);
}

// ---------------------------------------------------------------------------
// What else is heard
// ---------------------------------------------------------------------------

/// Messages without content change one thing, if any, and always have an answer:
/// whether we are choked, or whether the peer is interested. Unknown messages
/// change nothing.
pub proof fn law_states_are_noted(
    w: World,
    t: TorrentView,
    kind: u8,
    payload: nat,
    pick: Option<PieceIndex>,
)
    requires
        kind == 0 || kind == 2 || kind == 3 || kind > 8,
    ensures
        !faults(w, t, kind, payload),
        on_message(w, t, kind, payload, pick).1 is Ok,
        ({
            let after = on_message(w, t, kind, payload, pick).0;
            &&& after.common == w.common
            &&& after.conn == (ConnView { state: after.conn.state, ..w.conn })
            &&& after.conn.state == (ConnectionState {
                we_choked: kind == 0 || w.conn.state.we_choked,
                peer_interested: if kind == 2 {
                    true
                } else if kind == 3 {
                    false
                } else {
                    w.conn.state.peer_interested
                },
                ..w.conn.state
            })
        }),
{
}

/// Being unchoked always has an answer. Unchoked already, or in the middle of a
/// piece, nothing is begun.
pub proof fn law_unchoke_is_noted(w: World, t: TorrentView, pick: Option<PieceIndex>)
    ensures
        !faults(w, t, 1, 0),
        on_message(w, t, 1, 0, pick).1 is Ok,
        !on_message(w, t, 1, 0, pick).0.conn.state.we_choked,
        !w.conn.state.we_choked || w.conn.current is Some ==> {
            let after = on_message(w, t, 1, 0, pick).0;
            &&& after.common == w.common
            &&& after.conn == (ConnView { state: after.conn.state, ..w.conn })
            &&& after.conn.state == (ConnectionState { we_choked: false, ..w.conn.state })
        },
{
    let unchoked = w.with_state(ConnectionState { we_choked: false, ..w.conn.state });
    lemma_picking_frame(unchoked, t, None, pick);
}

/// A piece that the peer says it has is added to its pieces, and no other. Choked,
/// we say that we are interested exactly if we want the piece and have not said so
/// before; in the middle of a piece nothing is said.
pub proof fn law_have_is_noted(w: World, t: TorrentView, index: PieceIndex)
    requires
        in_order(w, t),
        w.window().len() >= 4,
        w.window().take(4) == be32(index.0),
        w.conn.peers_pieces.count < u32::MAX,
    ensures
        !faults(w, t, 4, 4),
        ({
            let (after, result) = on_message(w, t, 4, 4, None);
            &&& index.0 >= t.piece_count() <==> result == Err::<(), MsgError>(
                MsgError::PieceIndexTooLarge,
            )
            &&& result is Err ==> after == w
            &&& index.0 < t.piece_count() ==> {
                &&& result is Ok
                &&& after.conn.peers_pieces.has(index)
                &&& after.conn.peers_pieces.count == w.conn.peers_pieces.count + 1
                &&& forall|i: PieceIndex|
                    i != index ==> #[trigger] after.conn.peers_pieces.has(i)
                        == w.conn.peers_pieces.has(i)
                &&& w.conn.state.we_choked ==> {
                    let said = !w.conn.state.we_interested && w.common.wanted.has(index);
                    &&& said ==> after.conn.msgs_out == w.conn.msgs_out.push(PeerMsg::Interested)
                    &&& !said ==> after.conn.msgs_out == w.conn.msgs_out
                    &&& after.conn.state.we_interested == (said || w.conn.state.we_interested)
                }
                &&& !w.conn.state.we_choked && w.conn.current is Some ==> {
                    &&& after.conn.msgs_out == w.conn.msgs_out
                    &&& after.conn.current == w.conn.current
                    &&& after.conn.state == w.conn.state
                    &&& after.common == w.common
                }
            }
        }),
{
    lemma_first_number(w.window(), index.0);
    let heard = w.with_peers_pieces(w.conn.peers_pieces.with(index));
    lemma_news_frame(heard, t, Some(index), None);
}

/// The pieces that a bitfield of ours names are added to what the other side knows
/// of us, and no others. Choked, it says that it is interested exactly if it wants
/// one of those it knows of and has not said so before.
pub proof fn law_bitfield_is_noted(
    w: World,
    t: TorrentView,
    bits: Seq<bool>,
    pick: Option<PieceIndex>,
)
    requires
        in_order(w, t),
        bits.len() == t.piece_count(),
        w.window().len() >= packed(bits).len(),
        w.window().take(packed(bits).len() as int) == packed(bits),
        w.conn.peers_pieces.count + bits.len() <= u32::MAX,
    ensures
        !faults(w, t, 5, packed(bits).len()),
        ({
            let (after, result) = on_message(w, t, 5, packed(bits).len(), pick);
            &&& result is Ok
            &&& forall|i: PieceIndex| #[trigger]
                after.conn.peers_pieces.has(i) <==> w.conn.peers_pieces.has(i) || (i.0 < bits.len()
                    && bits[i.0 as int])
            &&& after.conn.peers_pieces.count == w.conn.peers_pieces.count + number_set(bits)
            &&& w.conn.state.we_choked ==> {
                let said = !w.conn.state.we_interested && something_to_get(
                    w.common.wanted,
                    after.conn.peers_pieces,
                );
                &&& said ==> after.conn.msgs_out == w.conn.msgs_out.push(PeerMsg::Interested)
                &&& !said ==> after.conn.msgs_out == w.conn.msgs_out
                &&& after.conn.state.we_interested == (said || w.conn.state.we_interested)
                &&& after.common == w.common
            }
        }),
{
    let named = unpacked(packed(bits));
    law_bitfield_tells_pieces(t, bits);
    lemma_number_set_bounds(bits);
    let heard = w.with_peers_pieces(merged(w.conn.peers_pieces, named));
    assert(named_pieces(w, packed(bits).len()) == named);
    assert forall|i: int| 0 <= i < bits.len() implies #[trigger] named[i] == bits[i] by {
        law_bitfield_round_trip(bits, i);
    }
    lemma_news_frame(heard, t, None, pick);
    let wanted = w.common.wanted;
    let theirs = heard.conn.peers_pieces;
    assert(wanted.meets(theirs) <==> something_to_get(wanted, theirs)) by {
        if wanted.meets(theirs) {
            let i = choose|i: int| in_both(wanted.bits, theirs.bits, i);
            assert(wanted.has(PieceIndex(i as u32)));
        }
        if something_to_get(wanted, theirs) {
            let i = choose|i: PieceIndex| #[trigger] wanted.has(i) && theirs.has(i);
            assert(in_both(wanted.bits, theirs.bits, i.0 as int));
        }
    }
}

/// A bitfield of any other length than a bit for every piece, in whole bytes, is
/// refused.
pub proof fn law_bitfields_have_one_length(w: World, t: TorrentView, payload: nat)
    requires
        w.window().len() >= payload,
        payload != (t.piece_count() + 7) / 8,
    ensures
        !faults(w, t, 5, payload),
        on_message(w, t, 5, payload, None) == (
            w,
            Err::<(), MsgError>(MsgError::BadBitFieldLength),
        ),
{
}

/// The number that bytes begin with.
proof fn lemma_first_number(bytes: Seq<u8>, n: u32)
    requires
        bytes.len() >= 4,
        bytes.take(4) == be32(n),
    ensures
        u32_at(bytes, 0) == n,
{
    assert(bytes.subrange(0, 4) =~= bytes.take(4));
    lemma_u32_at(bytes, 0, n);
}

} // verus!
