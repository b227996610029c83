//! What holds of the peer wire protocol as a whole.
use vstd::prelude::*;

use crate::bits::{law_bitfield_round_trip, packed, unpacked};
use crate::buffers::{lemma_advanced, Ring};
use crate::digest::sha1_digest;
use crate::messages::{encoded, kind, law_framing, payload, PeerMsg};
use crate::peer_protocol::common_start;
use crate::piece_data::{joined, CurrentPieceInfo, BLOCK_SIZE};
use crate::piece_set::{number_set, Pieces};
use crate::protocol_model::{
    bitfield_length, bitfield_message, block_at, block_kept, consumed, faults, incoming,
    lemma_message_recv, lemma_news_frame, lemma_picking_frame, lemma_requesting_frame, merged,
    named_pieces, on_block, on_completed_piece, on_message, on_request, on_unchoke, pick_is_legal,
    piece_complete, ConnView, ConnectionState, HandlerAction, Incoming, MsgError, World,
    RECV_BUF_SIZE,
};
use crate::torrent_info::TorrentView;
use crate::types::PieceIndex;
use crate::wire::{be32, lemma_u32_at, u32_at};

verus! {

// ---------------------------------------------------------------------------
// What is said is heard
// ---------------------------------------------------------------------------

proof fn lemma_frame_is_heard(recv: Ring, kind: u8, payload: Seq<u8>)
    requires
        recv.wf(),
        payload.len() < u32::MAX,
        recv.window().len() >= 5 + payload.len(),
        recv.window().take((5 + payload.len()) as int) == be32((1 + payload.len()) as u32) + seq![
            kind,
        ] + payload,
    ensures
        incoming(recv) == (Incoming::Message { kind, payload: payload.len() }),
        recv.advanced(5).window().take(payload.len() as int) == payload,
        recv.advanced(5).window().len() >= payload.len(),
{
    let window = recv.window();
    let frame = be32((1 + payload.len()) as u32) + seq![kind] + payload;
    let cut = window.take((5 + payload.len()) as int);
    assert(window.subrange(0, 4) =~= be32((1 + payload.len()) as u32)) by {
        assert forall|i: int| 0 <= i < 4 implies #[trigger] window.subrange(0, 4)[i] == be32(
            (1 + payload.len()) as u32,
        )[i] by {
            assert(cut[i] == frame[i]);
        }
    }
    lemma_u32_at(window, 0, (1 + payload.len()) as u32);
    assert(cut[4] == frame[4]);
    let open = recv.advanced(5);
    if payload.len() > 0 {
        assert(recv.position + 5 < recv.capacity);
        assert((recv.position + 5) as nat % recv.capacity == recv.position + 5) by {
            vstd::arithmetic::div_mod::lemma_small_mod(
                (recv.position + 5) as nat,
                recv.capacity,
            );
        }
        assert(open.window().take(payload.len() as int) =~= payload) by {
            assert forall|i: int| 0 <= i < payload.len() implies #[trigger] payload[i]
                == open.window()[i] by {
                assert(open.window()[i] == recv.unread[5 + i]);
                assert(cut[5 + i] == frame[5 + i]);
            }
        }
    } else {
        assert(open.window().take(0) =~= payload);
    }
}

/// What is sent to a peer is what the peer hears, if it comes in one run: the
/// same kind of message with the same content.
pub proof fn law_message_is_heard(recv: Ring, msg: PeerMsg)
    requires
        recv.wf(),
        recv.window().len() >= encoded(msg).len(),
        recv.window().take(encoded(msg).len() as int) == encoded(msg),
    ensures
        incoming(recv) == (Incoming::Message { kind: kind(msg), payload: payload(msg).len() }),
        recv.advanced(5).window().len() >= payload(msg).len(),
        recv.advanced(5).window().take(payload(msg).len() as int) == payload(msg),
{
    law_framing(msg);
    lemma_frame_is_heard(recv, kind(msg), payload(msg));
}

/// A peer that says it has a piece is taken to have that piece.
pub proof fn law_have_is_heard(w: World, t: TorrentView, index: PieceIndex)
    requires
        w.conn.recv.wf(),
        w.window().len() >= encoded(PeerMsg::Have(index)).len(),
        w.window().take(encoded(PeerMsg::Have(index)).len() as int) == encoded(
            PeerMsg::Have(index),
        ),
        index.0 < t.piece_count(),
        w.conn.peers_pieces.bits.len() == t.piece_count(),
    ensures
        on_message(w.past(5), t, 4, 4, None).1 is Ok,
        on_message(w.past(5), t, 4, 4, None).0.conn.peers_pieces == w.conn.peers_pieces.with(index),
{
    law_message_is_heard(w.conn.recv, PeerMsg::Have(index));
    let open = w.past(5);
    let window = open.window();
    assert(window.subrange(0, 4) =~= be32(index.0)) by {
        assert forall|i: int| 0 <= i < 4 implies #[trigger] window.subrange(0, 4)[i] == be32(
            index.0,
        )[i] by {
            assert(window.take(4)[i] == payload(PeerMsg::Have(index))[i]);
        }
    }
    lemma_u32_at(window, 0, index.0);
    lemma_news_frame(
        open.with_peers_pieces(open.conn.peers_pieces.with(index)),
        t,
        Some(index),
        None,
    );
}

proof fn lemma_number_set_padded(bits: Seq<bool>, padded: Seq<bool>)
    requires
        bits.len() <= padded.len(),
        forall|i: int|
            0 <= i < padded.len() ==> #[trigger] padded[i] == (i < bits.len() && bits[i]),
    ensures
        number_set(padded) == number_set(bits),
    decreases padded.len(),
{
    if padded.len() > bits.len() {
        let shorter = padded.drop_last();
        assert forall|i: int| 0 <= i < shorter.len() implies #[trigger] shorter[i] == (i
            < bits.len() && bits[i]) by {
            assert(shorter[i] == padded[i]);
        }
        lemma_number_set_padded(bits, shorter);
        assert(!padded[padded.len() - 1]);
    } else {
        assert(padded =~= bits);
    }
}

/// A bitfield tells a peer that knows nothing of us exactly which pieces we
/// have: it has the right length, names no piece that there is not, and the
/// set that comes out counts right.
pub proof fn law_bitfield_tells_pieces(t: TorrentView, bits: Seq<bool>)
    requires
        bits.len() == t.piece_count(),
    ensures
        packed(bits).len() == bitfield_length(t),
        forall|i: int|
            t.piece_count() <= i < unpacked(packed(bits)).len() ==> !(#[trigger] unpacked(
                packed(bits),
            )[i]),
        merged(Pieces::uniform(t.piece_count() as nat, false), unpacked(packed(bits)))
            == (Pieces { bits, count: number_set(bits) as u32 }),
        number_set(unpacked(packed(bits))) == number_set(bits),
{
    let named = unpacked(packed(bits));
    assert forall|i: int| 0 <= i < named.len() implies #[trigger] named[i] == (i < bits.len()
        && bits[i]) by {
        law_bitfield_round_trip(bits, i);
    }
    lemma_named_exactly(bits, named);
}

proof fn lemma_named_exactly(bits: Seq<bool>, named: Seq<bool>)
    requires
        bits.len() <= named.len(),
        forall|i: int| 0 <= i < named.len() ==> #[trigger] named[i] == (i < bits.len() && bits[i]),
    ensures
        merged(Pieces::uniform(bits.len(), false), named) == (Pieces {
            bits,
            count: number_set(bits) as u32,
        }),
        number_set(named) == number_set(bits),
{
    lemma_number_set_padded(bits, named);
    assert(merged(Pieces::uniform(bits.len(), false), named).bits =~= bits);
}

/// And it is heard, if it comes in one run.
pub proof fn law_bitfield_is_heard(recv: Ring, bits: Seq<bool>)
    requires
        recv.wf(),
        bits.len() <= u32::MAX,
        recv.window().len() >= bitfield_message(bits).len(),
        recv.window().take(bitfield_message(bits).len() as int) == bitfield_message(bits),
    ensures
        incoming(recv) == (Incoming::Message { kind: 5, payload: packed(bits).len() }),
        recv.advanced(5).window().take(packed(bits).len() as int) == packed(bits),
{
    lemma_frame_is_heard(recv, 5, packed(bits));
}

// ---------------------------------------------------------------------------
// Every message once
// ---------------------------------------------------------------------------

/// Every message is dealt with once: its bytes, and only they, leave the
/// receive buffer.
pub proof fn law_message_is_consumed(
    w: World,
    t: TorrentView,
    kind: u8,
    payload: nat,
    pick: Option<PieceIndex>,
)
    requires
        w.conn.recv.wf(),
        w.conn.recv.capacity == RECV_BUF_SIZE,
        incoming(w.conn.recv) == (Incoming::Message { kind, payload }),
        !faults(w.past(5), t, kind, payload),
        on_message(w.past(5), t, kind, payload, pick).1 is Ok,
    ensures
        consumed(
            on_message(w.past(5), t, kind, payload, pick).0,
            kind,
            payload,
        ).conn.recv.unread == w.conn.recv.unread.skip((5 + payload) as int),
{
    let recv = w.conn.recv;
    let open = w.past(5);
    lemma_advanced(recv, 5);
    lemma_advanced(open.conn.recv, payload);
    lemma_message_recv(open, t, kind, payload, pick);
    let next = on_message(open, t, kind, payload, pick).0;
    if kind == 7 {
        lemma_block_recv(open, t, payload, pick);
    }
    assert(consumed(next, kind, payload).conn.recv.unread =~= recv.unread.skip(
        (5 + payload) as int,
    ));
}

/// After a block nothing else touches the receive buffer.
proof fn lemma_block_recv(w: World, t: TorrentView, payload: nat, pick: Option<PieceIndex>)
    ensures
        on_block(w, t, payload, pick).0.conn.recv == block_kept(w, t, payload).conn.recv,
{
    let kept = block_kept(w, t, payload);
    let completed = if piece_complete(kept.conn) {
        on_completed_piece(kept, t).0
    } else {
        kept
    };
    lemma_picking_frame(completed, t, None, pick);
    lemma_requesting_frame(completed.conn, 1);
}

// ---------------------------------------------------------------------------
// Choking
// ---------------------------------------------------------------------------

/// As long as we are choked, the news that a peer has pieces makes us say at
/// most that we are interested. Nothing is asked for, and no piece is picked.
pub proof fn law_choked_asks_for_nothing(
    w: World,
    t: TorrentView,
    kind: u8,
    payload: nat,
    pick: Option<PieceIndex>,
)
    requires
        w.conn.state.we_choked,
        kind == 4 || kind == 5,
    ensures
        ({
            let after = on_message(w, t, kind, payload, pick).0;
            &&& after.common == w.common
            &&& after.conn.current == w.conn.current
            &&& after.conn.state.we_choked
            &&& after.conn.msgs_out == w.conn.msgs_out || {
                &&& !w.conn.state.we_interested
                &&& after.conn.state.we_interested
                &&& after.conn.msgs_out == w.conn.msgs_out.push(PeerMsg::Interested)
            }
        }),
{
}

/// Being unchoked we ask for at most three blocks, all of one piece that the
/// peer has and that was wanted.
pub proof fn law_unchoked_asks_for_wanted(w: World, t: TorrentView, pick: Option<PieceIndex>)
    requires
        pick_is_legal(w, t, 1, 0, pick),
        w.conn.state.we_choked,
        w.conn.current is None,
    ensures
        ({
            let after = on_unchoke(w, t, pick).0;
            match pick {
                Some(index) => {
                    &&& w.common.wanted.has(index)
                    &&& w.conn.peers_pieces.has(index)
                    &&& after.conn.current matches Some(current) && current.index == index
                    &&& after.conn.msgs_out.len() <= w.conn.msgs_out.len() + 3
                },
                None => after.conn.current is None && after.conn.msgs_out == w.conn.msgs_out,
            }
        }),
{
    if let Some(index) = pick {
        let unchoked = w.with_state(ConnectionState { we_choked: false, ..w.conn.state });
        let next = unchoked.having_chosen(None, pick);
        lemma_requesting_limit(
            ConnView {
                current: Some(
                    CurrentPieceInfo { index, requested_up_to: 0, length: t.piece_len(index) },
                ),
                ..next.conn
            },
            3,
        );
    }
}

proof fn lemma_requesting_limit(conn: ConnView, n: nat)
    requires
        conn.current is Some,
    ensures
        conn.requesting(n).msgs_out.len() <= conn.msgs_out.len() + n,
        conn.requesting(n).current is Some,
        conn.requesting(n).current->Some_0.index == conn.current->Some_0.index,
    decreases n,
{
    if let Some(current) = conn.current {
        if n > 0 && current.unfinished() {
            lemma_requesting_limit(
                ConnView { current: Some(current.after_block()), ..conn }.enqueued(
                    PeerMsg::Request(current.block()),
                ),
                (n - 1) as nat,
            );
        }
    }
}

// ---------------------------------------------------------------------------
// Pieces
// ---------------------------------------------------------------------------

/// A piece becomes ours only by a block that makes it whole, and only if the
/// whole has its hash. It goes to disk then, and the event loop is told.
pub proof fn law_only_verified_pieces(
    w: World,
    t: TorrentView,
    kind: u8,
    payload: nat,
    pick: Option<PieceIndex>,
)
    ensures
        ({
            let after = on_message(w, t, kind, payload, pick).0;
            let kept = block_kept(w, t, payload);
            ||| after.common.our_pieces == w.common.our_pieces && after.common.writer
                == w.common.writer && after.common.action == w.common.action
            ||| {
                &&& kind == 7
                &&& kept.conn.assembling matches Some(piece)
                &&& piece.complete()
                &&& sha1_digest(joined(piece.blocks)) == t.piece_hash(piece.index)
                &&& after.common.our_pieces == w.common.our_pieces.with(piece.index)
                &&& after.common.writer == w.common.writer.push(piece)
                &&& after.common.action == Some(HandlerAction::FinishedPiece(piece.index))
            }
        }),
{
    if kind == 7 {
        let kept = block_kept(w, t, payload);
        let completed = if piece_complete(kept.conn) {
            on_completed_piece(kept, t).0
        } else {
            kept
        };
        lemma_picking_frame(completed, t, None, pick);
    }
}

/// A piece that does not have its hash is thrown away and reported; it does not
/// become ours.
pub proof fn law_bad_pieces_are_refused(
    w: World,
    t: TorrentView,
    payload: nat,
    pick: Option<PieceIndex>,
)
    requires
        piece_complete(block_kept(w, t, payload).conn),
        ({
            let piece = block_kept(w, t, payload).conn.assembling->Some_0;
            sha1_digest(joined(piece.blocks)) != t.piece_hash(piece.index)
        }),
    ensures
        on_message(w, t, 7, payload, pick).1 == Err::<(), MsgError>(MsgError::BadPieceHash),
        on_message(w, t, 7, payload, pick).0.common.our_pieces == w.common.our_pieces,
        on_message(w, t, 7, payload, pick).0.common.writer == w.common.writer,
        on_message(w, t, 7, payload, pick).0.conn.assembling is None,
{
}

/// Whether the sets are for the pieces of the torrent, and the piece that is
/// being put together is one of them.
pub open spec fn in_order(w: World, t: TorrentView) -> bool {
    &&& w.common.our_pieces.bits.len() == t.piece_count()
    &&& w.common.wanted.bits.len() == t.piece_count()
    &&& w.conn.peers_pieces.bits.len() == t.piece_count()
    &&& w.conn.assembling matches Some(piece) ==> piece.index.0 < t.piece_count()
}

/// No message makes a piece wanted again, and none takes a piece away from us.
#[verifier::rlimit(50)]
pub proof fn law_progress_is_kept(
    w: World,
    t: TorrentView,
    kind: u8,
    payload: nat,
    pick: Option<PieceIndex>,
    index: PieceIndex,
)
    requires
        in_order(w, t),
        !faults(w, t, kind, payload),
        pick_is_legal(w, t, kind, payload, pick),
    ensures
        ({
            let after = on_message(w, t, kind, payload, pick).0;
            &&& after.common.wanted.has(index) ==> w.common.wanted.has(index)
            &&& w.common.our_pieces.has(index) ==> after.common.our_pieces.has(index)
            &&& w.conn.peers_pieces.has(index) ==> after.conn.peers_pieces.has(index)
        }),
{
    law_only_verified_pieces(w, t, kind, payload, pick);
    if kind == 1 {
        let unchoked = w.with_state(ConnectionState { we_choked: false, ..w.conn.state });
        lemma_picking_frame(unchoked, t, None, pick);
    } else if kind == 4 {
        let heard = PieceIndex(u32_at(w.window(), 0));
        lemma_news_frame(
            w.with_peers_pieces(w.conn.peers_pieces.with(heard)),
            t,
            Some(heard),
            None,
        );
    } else if kind == 5 {
        lemma_news_frame(
            w.with_peers_pieces(merged(w.conn.peers_pieces, named_pieces(w, payload))),
            t,
            None,
            pick,
        );
    } else if kind == 7 {
        let kept = block_kept(w, t, payload);
        let completed = if piece_complete(kept.conn) {
            on_completed_piece(kept, t).0
        } else {
            kept
        };
        lemma_picking_frame(completed, t, None, pick);
        lemma_requesting_frame(completed.conn, 1);
    }
}

/// What is wanted is missing, and messages keep it so, unless a block makes a
/// piece whole that is wanted: one that nobody is downloading, so that the peer
/// has sent it unasked.
pub proof fn law_wanted_pieces_are_missing(
    w: World,
    t: TorrentView,
    kind: u8,
    payload: nat,
    pick: Option<PieceIndex>,
    index: PieceIndex,
)
    requires
        in_order(w, t),
        !faults(w, t, kind, payload),
        pick_is_legal(w, t, kind, payload, pick),
        w.common.wanted.has(index) ==> !w.common.our_pieces.has(index),
        kind == 7 && piece_complete(block_kept(w, t, payload).conn) ==> !w.common.wanted.has(
            block_kept(w, t, payload).conn.assembling->Some_0.index,
        ),
    ensures
        ({
            let after = on_message(w, t, kind, payload, pick).0;
            after.common.wanted.has(index) ==> !after.common.our_pieces.has(index)
        }),
{
    law_progress_is_kept(w, t, kind, payload, pick, index);
    law_only_verified_pieces(w, t, kind, payload, pick);
}

/// A piece that is being downloaded is not wanted, and messages keep it so: what
/// is begun, whether it was picked or has just become available, is no longer
/// wanted.
pub proof fn law_begun_pieces_are_not_wanted(
    w: World,
    t: TorrentView,
    kind: u8,
    payload: nat,
    pick: Option<PieceIndex>,
)
    requires
        in_order(w, t),
        !faults(w, t, kind, payload),
        pick_is_legal(w, t, kind, payload, pick),
        current_is_not_wanted(w),
    ensures
        current_is_not_wanted(on_message(w, t, kind, payload, pick).0),
{
    if kind == 1 {
        lemma_begun_picking(
            w.with_state(ConnectionState { we_choked: false, ..w.conn.state }),
            t,
            pick,
        );
    } else if kind == 4 {
        let index = PieceIndex(u32_at(w.window(), 0));
        lemma_begun_hearing(
            w.with_peers_pieces(w.conn.peers_pieces.with(index)),
            t,
            Some(index),
            None,
        );
    } else if kind == 5 {
        lemma_begun_hearing(
            w.with_peers_pieces(merged(w.conn.peers_pieces, named_pieces(w, payload))),
            t,
            None,
            pick,
        );
    } else if kind == 7 {
        lemma_begun_block(w, t, payload, pick);
    }
}

/// Whether nothing is wanted that the connection is downloading.
pub open spec fn current_is_not_wanted(w: World) -> bool {
    w.conn.current matches Some(current) ==> !w.common.wanted.has(current.index)
}

proof fn lemma_begun_picking(w: World, t: TorrentView, pick: Option<PieceIndex>)
    requires
        current_is_not_wanted(w),
    ensures
        w.wanted_by_both(pick) ==> current_is_not_wanted(w.picking(t, None, pick)),
{
    if let Some(index) = pick {
        let next = w.having_chosen(None, pick);
        let current = Some(
            CurrentPieceInfo { index, requested_up_to: 0, length: t.piece_len(index) },
        );
        lemma_picking_frame(w, t, None, pick);
        lemma_requesting_limit(ConnView { current, ..next.conn }, 3);
    }
}

proof fn lemma_begun_hearing(
    w: World,
    t: TorrentView,
    available: Option<PieceIndex>,
    pick: Option<PieceIndex>,
)
    requires
        current_is_not_wanted(w),
    ensures
        (available is None && w.news_picks() ==> w.wanted_by_both(pick))
            ==> current_is_not_wanted(w.hearing_news(t, available, pick)),
{
    let next = w.having_chosen(available, pick);
    if let Some(index) = w.choosing(available, pick) {
        let current = Some(
            CurrentPieceInfo { index, requested_up_to: 0, length: t.piece_len(index) },
        );
        lemma_requesting_limit(ConnView { current, ..next.conn }, 3);
        lemma_requesting_limit(ConnView { current, ..next.conn.becoming_interested() }, 3);
        lemma_requesting_frame(ConnView { current, ..next.conn }, 3);
        lemma_requesting_frame(ConnView { current, ..next.conn.becoming_interested() }, 3);
    }
}

proof fn lemma_begun_block(w: World, t: TorrentView, payload: nat, pick: Option<PieceIndex>)
    requires
        pick_is_legal(w, t, 7, payload, pick),
        current_is_not_wanted(w),
    ensures
        current_is_not_wanted(on_block(w, t, payload, pick).0),
{
    let kept = block_kept(w, t, payload);
    let completed = if piece_complete(kept.conn) {
        on_completed_piece(kept, t).0
    } else {
        kept
    };
    assert(completed.conn.current == w.conn.current);
    assert(completed.common.wanted == w.common.wanted);
    assert(completed.conn.peers_pieces == w.conn.peers_pieces);
    lemma_begun_picking(completed, t, pick);
    if completed.conn.current is Some {
        lemma_requesting_limit(completed.conn, 1);
        lemma_requesting_frame(completed.conn, 1);
    }
}

/// At the beginning exactly what is missing is wanted.
pub proof fn law_missing_pieces_are_wanted(our_pieces: Pieces, index: PieceIndex)
    requires
        index.0 < our_pieces.bits.len(),
    ensures
        common_start(our_pieces).wanted.has(index) <==> !common_start(our_pieces).our_pieces.has(
            index,
        ),
{
}

// ---------------------------------------------------------------------------
// Requests
// ---------------------------------------------------------------------------

/// What a peer is promised lies inside a piece that we have, and is no longer
/// than a block may be; what it is refused changes nothing.
pub proof fn law_requests_are_judged(w: World, t: TorrentView)
    ensures
        ({
            let block = block_at(w.window(), 0);
            let (after, result) = on_request(w, t);
            &&& result is Ok ==> {
                &&& w.common.our_pieces.has(block.piece_index)
                &&& block.length <= BLOCK_SIZE
                &&& block.offset + block.length <= t.piece_len(block.piece_index)
                &&& after.conn.peer_requests.len() + after.common.pending.len()
                    == w.conn.peer_requests.len() + w.common.pending.len() + 1
            }
            &&& result is Err ==> after == w
        }),
{
}

/// A choked peer gets nothing read from disk.
pub proof fn law_choked_peer_waits(w: World, t: TorrentView)
    requires
        w.conn.state.peer_choked,
    ensures
        on_request(w, t).0.common == w.common,
{
}

} // verus!
