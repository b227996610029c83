//! The peer wire protocol, as mathematics: the state of a connection, the
//! state that connections share, and what every message does to them.
//!
//! Where a piece is picked by chance, the functions here take the pick as an
//! argument.
use vstd::prelude::*;

use crate::bits::{packed, unpacked};
use crate::buffers::{lemma_advanced, Ring};
use crate::messages::{encoded_all, PeerMsg};
use crate::piece_data::{countable, CurrentPieceInfo, PieceView, BLOCK_SIZE};
use crate::piece_set::{number_set, Pieces};
use crate::torrent_info::TorrentView;
use crate::types::{
    BlockInfo, BlockReceiver, BlockRequest, ConnectionId, PieceIndex, PieceReaderMessage, Token,
};
use crate::wire::{be32, u32_at};

verus! {

/// How many bytes can wait to be read as messages.
pub const RECV_BUF_SIZE: usize = 32768;

/// How many bytes of messages can wait to be sent.
pub const SEND_BUF_SIZE: usize = 32768;

/// How many blocks a peer may have waiting for the disk.
pub const CONCURRENT_REQUESTS_PER_PEER: u8 = 8;

/// Who wants something, and who may not have it.
#[derive(Clone, Copy, Debug, PartialEq, Eq, Structural)]
pub struct ConnectionState {
    pub we_interested: bool,
    pub peer_interested: bool,
    pub we_choked: bool,
    pub peer_choked: bool,
}

impl ConnectionState {
    /// How a connection begins.
    pub fn new() -> (r: ConnectionState)
        ensures
            r == (ConnectionState {
                we_interested: false,
                peer_interested: false,
                we_choked: true,
                peer_choked: true,
            }),
    {
        ConnectionState {
            we_interested: false,
            peer_interested: false,
            we_choked: true,
            peer_choked: true,
        }
    }
}

/// Why a message of a peer is not accepted.
#[derive(Clone, Copy, Debug, PartialEq, Eq, Structural)]
pub enum MsgError {
    PieceIndexTooLarge,
    PieceNotAvailable,
    RequestedBlockTooLong,
    BadOffsetLengthCombination,
    BadBitFieldLength,
    BadPieceHash,
}

pub type PeerMsgResult = Result<(), MsgError>;

/// What a connection wants the event loop to do.
#[derive(Clone, Copy, Debug, PartialEq, Eq, Structural)]
pub enum HandlerAction {
    FinishedPiece(PieceIndex),
}

/// The state of a connection to a peer.
#[verifier::ext_equal]
pub struct ConnView {
    pub state: ConnectionState,
    pub recv: Ring,
    pub send: Ring,
    /// The pieces that the peer has.
    pub peers_pieces: Pieces,
    /// Blocks that the peer has asked for and nobody has been told about.
    pub peer_requests: Seq<BlockInfo>,
    /// Blocks that are to be sent.
    pub blocks_out: Seq<Ring>,
    /// Messages that are to be sent.
    pub msgs_out: Seq<PeerMsg>,
    /// The piece that is being asked for.
    pub current: Option<CurrentPieceInfo>,
    /// The piece that is being put together.
    pub assembling: Option<PieceView>,
    /// Blocks of other pieces.
    pub next_blocks: Seq<(BlockInfo, Seq<u8>)>,
    pub id: ConnectionId,
    /// How many blocks the peer has asked for.
    pub requested: u8,
    pub token: Token,
    /// Whether it is worth trying to write.
    pub writable: bool,
    pub bytes_sent: u32,
    /// The length of the block that is being sent, with its header.
    pub block_length: Option<u16>,
}

/// What all connections share.
#[verifier::ext_equal]
pub struct CommonView {
    /// The pieces that we have.
    pub our_pieces: Pieces,
    /// The pieces that we do not have and that are not yet being downloaded.
    pub wanted: Pieces,
    /// What the disk reader is to be told.
    pub reader: Seq<PieceReaderMessage>,
    /// Pieces for the disk writer.
    pub writer: Seq<PieceView>,
    /// Blocks that the disk reader was told to read.
    pub pending: Seq<(ConnectionId, BlockInfo)>,
    pub action: Option<HandlerAction>,
    pub downloaded: u64,
    pub uploaded: u64,
}

/// A connection, and what it shares with the others.
#[verifier::ext_equal]
pub struct World {
    pub conn: ConnView,
    pub common: CommonView,
}

impl ConnView {
    pub open spec fn enqueued(self, msg: PeerMsg) -> ConnView {
        ConnView { msgs_out: self.msgs_out.push(msg), ..self }
    }

    /// The next blocks of the current piece have been asked for, at most `n`.
    pub open spec fn requesting(self, n: nat) -> ConnView
        decreases n,
    {
        match self.current {
            Some(current) => if n > 0 && current.unfinished() {
                ConnView { current: Some(current.after_block()), ..self }.enqueued(
                    PeerMsg::Request(current.block()),
                ).requesting((n - 1) as nat)
            } else {
                self
            },
            None => self,
        }
    }

    /// The download of a piece has begun: its first three blocks are asked
    /// for.
    pub open spec fn starting(self, t: TorrentView, index: PieceIndex) -> ConnView {
        ConnView {
            current: Some(
                CurrentPieceInfo { index, requested_up_to: 0, length: t.piece_len(index) },
            ),
            ..self
        }.requesting(3)
    }

    pub open spec fn becoming_interested(self) -> ConnView {
        ConnView {
            state: ConnectionState { we_interested: true, ..self.state },
            ..self
        }.enqueued(PeerMsg::Interested)
    }

    pub open spec fn losing_interest(self) -> ConnView {
        ConnView {
            state: ConnectionState { we_interested: false, ..self.state },
            ..self
        }.enqueued(PeerMsg::NotInterested)
    }

    /// All queued messages have been written to the send buffer.
    pub open spec fn flushed(self) -> ConnView {
        ConnView {
            send: self.send.written(encoded_all(self.msgs_out)),
            msgs_out: Seq::empty(),
            ..self
        }
    }

    /// Whether the send buffer has room for all queued messages.
    pub open spec fn fits(self) -> bool {
        encoded_all(self.msgs_out).len() <= self.send.free()
    }
}

impl World {
    pub open spec fn with_conn(self, conn: ConnView) -> World {
        World { conn, ..self }
    }

    pub open spec fn wanted_by_both(self, pick: Option<PieceIndex>) -> bool {
        self.common.wanted.can_pick(self.conn.peers_pieces, pick)
    }

    /// The piece that is to be asked for next: the one that has just become
    /// available if we want it, or else the one that was picked.
    pub open spec fn choosing(
        self,
        available: Option<PieceIndex>,
        pick: Option<PieceIndex>,
    ) -> Option<PieceIndex> {
        match available {
            Some(index) => if self.common.wanted.has(index) {
                Some(index)
            } else {
                None
            },
            None => pick,
        }
    }

    /// A piece that has been chosen is no longer wanted: it is being downloaded.
    pub open spec fn having_chosen(
        self,
        available: Option<PieceIndex>,
        pick: Option<PieceIndex>,
    ) -> World {
        match available {
            Some(index) => if self.common.wanted.has(index) {
                World {
                    common: CommonView { wanted: self.common.wanted.without(index), ..self.common },
                    ..self
                }
            } else {
                self
            },
            None => World {
                common: CommonView { wanted: self.common.wanted.after_pick(pick), ..self.common },
                ..self
            },
        }
    }

    /// A piece has been chosen, and its download begun. If there was none,
    /// nothing is being asked for.
    pub open spec fn picking(
        self,
        t: TorrentView,
        available: Option<PieceIndex>,
        pick: Option<PieceIndex>,
    ) -> World {
        let next = self.having_chosen(available, pick);
        match self.choosing(available, pick) {
            Some(index) => next.with_conn(next.conn.starting(t, index)),
            None => next.with_conn(ConnView { current: None, ..next.conn }),
        }
    }

    /// Whether something that the peer has is wanted.
    pub open spec fn tempting(self, available: Option<PieceIndex>) -> bool {
        match available {
            Some(index) => self.common.wanted.has(index),
            None => self.common.wanted.meets(self.conn.peers_pieces),
        }
    }

    /// Whether the news that the peer has pieces makes us pick one.
    pub open spec fn news_picks(self) -> bool {
        !self.conn.state.we_choked && self.conn.current is None
    }

    /// The peer has said that it has a piece, or several. Choked, we say that
    /// we are interested, if we are; else we begin a download, unless there is
    /// one.
    pub open spec fn hearing_news(
        self,
        t: TorrentView,
        available: Option<PieceIndex>,
        pick: Option<PieceIndex>,
    ) -> World {
        if self.conn.state.we_choked {
            if !self.conn.state.we_interested && self.tempting(available) {
                self.with_conn(self.conn.becoming_interested())
            } else {
                self
            }
        } else if self.conn.current is None {
            let next = self.having_chosen(available, pick);
            match self.choosing(available, pick) {
                Some(index) => {
                    let conn = if next.conn.state.we_interested {
                        next.conn
                    } else {
                        next.conn.becoming_interested()
                    };
                    next.with_conn(conn.starting(t, index))
                },
                None => next,
            }
        } else {
            self
        }
    }
}

// ---------------------------------------------------------------------------
// Messages
// ---------------------------------------------------------------------------

/// What stands at the beginning of the receive buffer.
pub enum Incoming {
    /// No whole message.
    Wait,
    /// A message without content.
    KeepAlive,
    /// A message whose kind lies past the end of the buffer's memory.
    Unreadable,
    Message { kind: u8, payload: nat },
}

pub open spec fn incoming(recv: Ring) -> Incoming {
    let window = recv.window();
    if window.len() < 4 {
        Incoming::Wait
    } else {
        let length = u32_at(window, 0);
        if length + 4 > recv.unread.len() {
            Incoming::Wait
        } else if length == 0 {
            Incoming::KeepAlive
        } else if window.len() < 5 {
            Incoming::Unreadable
        } else {
            Incoming::Message { kind: window[4], payload: (length - 1) as nat }
        }
    }
}

impl World {
    /// What the peer has said and can be seen.
    pub open spec fn window(self) -> Seq<u8> {
        self.conn.recv.window()
    }

    /// Bytes of the receive buffer have been dealt with.
    pub open spec fn past(self, n: nat) -> World {
        self.with_conn(ConnView { recv: self.conn.recv.advanced(n), ..self.conn })
    }

    pub open spec fn with_state(self, state: ConnectionState) -> World {
        self.with_conn(ConnView { state, ..self.conn })
    }

    pub open spec fn with_peers_pieces(self, peers_pieces: Pieces) -> World {
        self.with_conn(ConnView { peers_pieces, ..self.conn })
    }
}

/// The peer will not send us blocks.
pub open spec fn on_choke(w: World) -> (World, PeerMsgResult) {
    (w.with_state(ConnectionState { we_choked: true, ..w.conn.state }), Ok(()))
}

/// The peer will send us blocks.
pub open spec fn on_unchoke(w: World, t: TorrentView, pick: Option<PieceIndex>) -> (
    World,
    PeerMsgResult,
) {
    if !w.conn.state.we_choked {
        (w, Ok(()))
    } else {
        let unchoked = w.with_state(ConnectionState { we_choked: false, ..w.conn.state });
        (
            if w.conn.current is None {
                unchoked.picking(t, None, pick)
            } else {
                unchoked
            },
            Ok(()),
        )
    }
}

/// The peer has a piece.
pub open spec fn on_have(w: World, t: TorrentView) -> (World, PeerMsgResult) {
    let index = PieceIndex(u32_at(w.window(), 0));
    if index.0 >= t.piece_count() {
        (w, Err(MsgError::PieceIndexTooLarge))
    } else {
        (
            w.with_peers_pieces(w.conn.peers_pieces.with(index)).hearing_news(
                t,
                Some(index),
                None,
            ),
            Ok(()),
        )
    }
}

/// How long a bitfield has to be.
pub open spec fn bitfield_length(t: TorrentView) -> int {
    (t.piece_count() + 7) / 8
}

/// The pieces that a bitfield of the message names.
pub open spec fn named_pieces(w: World, payload: nat) -> Seq<bool> {
    unpacked(w.window().take(payload as int))
}

/// The set with the pieces that a bitfield names. Each of them counts, whether
/// it was in the set or not.
pub open spec fn merged(pieces: Pieces, named: Seq<bool>) -> Pieces {
    Pieces {
        bits: Seq::new(
            pieces.bits.len(),
            |i: int| pieces.bits[i] || (i < named.len() && named[i]),
        ),
        count: (pieces.count + number_set(named)) as u32,
    }
}

/// The peer has the pieces of a bitfield.
pub open spec fn on_bitfield(
    w: World,
    t: TorrentView,
    payload: nat,
    pick: Option<PieceIndex>,
) -> (World, PeerMsgResult) {
    if bitfield_length(t) != payload {
        (w, Err(MsgError::BadBitFieldLength))
    } else {
        (
            w.with_peers_pieces(
                merged(w.conn.peers_pieces, named_pieces(w, payload)),
            ).hearing_news(t, None, pick),
            Ok(()),
        )
    }
}

/// The block that three numbers of the message name.
pub open spec fn block_at(bytes: Seq<u8>, pos: int) -> BlockInfo {
    BlockInfo {
        piece_index: PieceIndex(u32_at(bytes, pos)),
        offset: u32_at(bytes, pos + 4),
        length: u32_at(bytes, pos + 8),
    }
}

/// Whether a block can be asked of us.
pub open spec fn request_result(common: CommonView, t: TorrentView, block: BlockInfo) ->
    PeerMsgResult {
    let piece_length = t.piece_len(block.piece_index);
    if block.piece_index.0 > t.piece_count() {
        Err(MsgError::PieceIndexTooLarge)
    } else if !common.our_pieces.has(block.piece_index) {
        Err(MsgError::PieceNotAvailable)
    } else if block.length > BLOCK_SIZE || block.length > piece_length {
        Err(MsgError::RequestedBlockTooLong)
    } else if block.offset + block.length > piece_length {
        Err(MsgError::BadOffsetLengthCombination)
    } else {
        Ok(())
    }
}

/// The peer asks for a block. The disk reader is told, unless the peer is
/// choked or has asked for enough.
pub open spec fn on_request(w: World, t: TorrentView) -> (World, PeerMsgResult) {
    let block = block_at(w.window(), 0);
    match request_result(w.common, t, block) {
        Err(e) => (w, Err(e)),
        Ok(()) => {
            let asked = ConnView { requested: (w.conn.requested + 1) as u8, ..w.conn };
            (
                if !w.conn.state.peer_choked && w.conn.requested < CONCURRENT_REQUESTS_PER_PEER {
                    World {
                        conn: asked,
                        common: CommonView {
                            reader: w.common.reader.push(
                                PieceReaderMessage::Request(
                                    BlockRequest {
                                        block_info: block,
                                        receiver: BlockReceiver {
                                            id: w.conn.id,
                                            token: w.conn.token,
                                        },
                                    },
                                ),
                            ),
                            pending: w.common.pending.push((w.conn.id, block)),
                            ..w.common
                        },
                    }
                } else {
                    w.with_conn(
                        ConnView { peer_requests: w.conn.peer_requests.push(block), ..asked },
                    )
                },
                Ok(()),
            )
        },
    }
}

/// The block that a message brings.
pub open spec fn incoming_block(w: World, payload: nat) -> BlockInfo {
    BlockInfo {
        piece_index: PieceIndex(u32_at(w.window(), 0)),
        offset: u32_at(w.window(), 4),
        length: (payload - 8) as u32,
    }
}

/// Its bytes.
pub open spec fn incoming_data(w: World, payload: nat) -> Seq<u8> {
    w.window().subrange(8, payload as int)
}

/// The piece that is being put together, or a new one for the block.
pub open spec fn piece_for(w: World, t: TorrentView, index: PieceIndex) -> PieceView {
    match w.conn.assembling {
        Some(piece) => piece,
        None => PieceView::empty(t, index),
    }
}

/// The block has been put where it belongs: into the piece, or aside.
pub open spec fn block_kept(w: World, t: TorrentView, payload: nat) -> World {
    let block = incoming_block(w, payload);
    let data = incoming_data(w, payload);
    let piece = piece_for(w, t, block.piece_index);
    let conn = ConnView {
        recv: Ring::empty(RECV_BUF_SIZE as nat).written(w.conn.recv.unread.skip(payload as int)),
        ..w.conn
    };
    World {
        conn: if block.piece_index == piece.index {
            ConnView { assembling: Some(piece.with_block(block.offset, data)), ..conn }
        } else {
            ConnView {
                assembling: Some(piece),
                next_blocks: w.conn.next_blocks.push((block, data)),
                ..conn
            }
        },
        common: CommonView { downloaded: (w.common.downloaded + block.length) as u64, ..w.common },
    }
}

/// The piece is whole. If it has its hash, it is ours, and goes to disk.
pub open spec fn on_completed_piece(w: World, t: TorrentView) -> (World, PeerMsgResult) {
    match w.conn.assembling {
        None => (w, Ok(())),
        Some(piece) => {
            let conn = ConnView { assembling: None, ..w.conn };
            if piece.matches_hash(t) {
                (
                    World {
                        conn,
                        common: CommonView {
                            our_pieces: w.common.our_pieces.with(piece.index),
                            writer: w.common.writer.push(piece),
                            action: Some(HandlerAction::FinishedPiece(piece.index)),
                            ..w.common
                        },
                    },
                    Ok(()),
                )
            } else {
                (w.with_conn(conn), Err(MsgError::BadPieceHash))
            }
        },
    }
}

/// Whether the piece that is being asked for has been asked for to its end.
pub open spec fn all_requested(conn: ConnView) -> bool {
    match conn.current {
        Some(current) => !current.unfinished(),
        None => true,
    }
}

/// Another block is asked for: the next one of the piece, or the first ones
/// of another piece. If there is none left, we lose interest.
pub open spec fn asking_on(w: World, t: TorrentView, pick: Option<PieceIndex>) -> World {
    if all_requested(w.conn) {
        let next = w.picking(t, None, pick);
        if next.conn.current is None {
            next.with_conn(next.conn.losing_interest())
        } else {
            next
        }
    } else {
        w.with_conn(w.conn.requesting(1))
    }
}

/// Whether the piece that is being put together is whole.
pub open spec fn piece_complete(conn: ConnView) -> bool {
    conn.assembling matches Some(piece) && piece.complete()
}

/// The peer has sent a block.
pub open spec fn on_block(w: World, t: TorrentView, payload: nat, pick: Option<PieceIndex>) -> (
    World,
    PeerMsgResult,
) {
    let kept = block_kept(w, t, payload);
    let (completed, result) = if piece_complete(kept.conn) {
        on_completed_piece(kept, t)
    } else {
        (kept, Ok(()))
    };
    match result {
        Err(e) => (completed, Err(e)),
        Ok(()) => (asking_on(completed, t, pick), Ok(())),
    }
}

/// The peer no longer wants a block.
pub open spec fn on_cancel(w: World) -> World {
    World {
        common: CommonView {
            reader: w.common.reader.push(
                PieceReaderMessage::CancelRequest(block_at(w.window(), 0), w.conn.id),
            ),
            ..w.common
        },
        ..w
    }
}

/// What a message does, where its first five bytes have been read.
pub open spec fn on_message(
    w: World,
    t: TorrentView,
    kind: u8,
    payload: nat,
    pick: Option<PieceIndex>,
) -> (World, PeerMsgResult) {
    if kind == 0 {
        on_choke(w)
    } else if kind == 1 {
        on_unchoke(w, t, pick)
    } else if kind == 2 {
        (w.with_state(ConnectionState { peer_interested: true, ..w.conn.state }), Ok(()))
    } else if kind == 3 {
        (w.with_state(ConnectionState { peer_interested: false, ..w.conn.state }), Ok(()))
    } else if kind == 4 {
        on_have(w, t)
    } else if kind == 5 {
        on_bitfield(w, t, payload, pick)
    } else if kind == 6 {
        on_request(w, t)
    } else if kind == 7 {
        on_block(w, t, payload, pick)
    } else if kind == 8 {
        (on_cancel(w), Ok(()))
    } else {
        (w, Ok(()))
    }
}

/// The sets from which a message makes us pick a piece, if it does.
pub open spec fn pick_is_legal(
    w: World,
    t: TorrentView,
    kind: u8,
    payload: nat,
    pick: Option<PieceIndex>,
) -> bool {
    if kind == 1 {
        w.conn.state.we_choked && w.conn.current is None ==> w.wanted_by_both(pick)
    } else if kind == 5 {
        w.news_picks() && bitfield_length(t) == payload ==> w.with_peers_pieces(
            merged(w.conn.peers_pieces, named_pieces(w, payload)),
        ).wanted_by_both(pick)
    } else if kind == 7 {
        let kept = block_kept(w, t, payload);
        all_requested(w.conn) && (piece_complete(kept.conn) ==> on_completed_piece(kept, t).1 is Ok)
            ==> w.wanted_by_both(pick)
    } else {
        true
    }
}

// ---------------------------------------------------------------------------
// Messages without an answer
// ---------------------------------------------------------------------------

/// A block that cannot be kept: it does not lie in one run of memory, is too
/// short for its header, is of a piece that there is not, has a block in its
/// place, or makes a piece whole while blocks of other pieces are waiting; or a
/// count overflows.
pub open spec fn block_faults(w: World, t: TorrentView, payload: nat) -> bool {
    ||| w.window().len() < payload
    ||| payload < 8
    ||| {
        let block = incoming_block(w, payload);
        let piece = piece_for(w, t, block.piece_index);
        ||| w.conn.assembling is None && (block.piece_index.0 >= t.piece_count() || !countable(
            t.piece_len(block.piece_index),
        ))
        ||| block.piece_index == piece.index && !piece.accepts(block.offset)
        ||| w.common.downloaded + block.length > u64::MAX
        ||| {
            let kept = block_kept(w, t, payload);
            &&& piece_complete(kept.conn)
            &&& kept.conn.next_blocks.len() > 0 || w.common.our_pieces.count == u32::MAX
                && kept.conn.assembling->Some_0.matches_hash(t)
        }
    }
}

/// A bitfield that cannot be taken: it does not lie in one run of memory, or it
/// names pieces that there are not; or a count overflows.
pub open spec fn bitfield_faults(w: World, t: TorrentView, payload: nat) -> bool {
    ||| w.window().len() < payload
    ||| bitfield_length(t) == payload && {
        ||| exists|i: int|
            t.piece_count() <= i < named_pieces(w, payload).len() && #[trigger] named_pieces(
                w,
                payload,
            )[i]
        ||| w.conn.peers_pieces.count + number_set(named_pieces(w, payload)) > u32::MAX
    }
}

/// A request that cannot be judged: its numbers do not lie in one run of
/// memory, or it is for the piece behind the last one; or a count overflows.
pub open spec fn request_faults(w: World, t: TorrentView) -> bool {
    let block = block_at(w.window(), 0);
    ||| w.window().len() < 12
    ||| block.piece_index.0 == t.piece_count()
    ||| request_result(w.common, t, block) is Ok && w.conn.requested == u8::MAX
}

/// Whether the protocol has no answer to a message.
pub open spec fn faults(w: World, t: TorrentView, kind: u8, payload: nat) -> bool {
    if kind == 4 {
        ||| w.window().len() < 4
        ||| u32_at(w.window(), 0) < t.piece_count() && w.conn.peers_pieces.count == u32::MAX
    } else if kind == 5 {
        bitfield_faults(w, t, payload)
    } else if kind == 6 {
        request_faults(w, t)
    } else if kind == 7 {
        block_faults(w, t, payload)
    } else if kind == 8 {
        w.window().len() < 12
    } else {
        false
    }
}

// ---------------------------------------------------------------------------
// Many messages
// ---------------------------------------------------------------------------

/// How dealing with the messages in the receive buffer came to an end.
pub enum Ended {
    /// There is no further whole message.
    Drained,
    /// A message was not accepted.
    Rejected(MsgError),
    /// The protocol has no answer to a message.
    Fault,
}

/// The world once a message that was accepted has been dealt with. A block
/// takes its bytes out of the buffer itself.
pub open spec fn consumed(w: World, kind: u8, payload: nat) -> World {
    if kind == 7 {
        w
    } else {
        w.past(payload)
    }
}

/// Whether dealing with the messages in the receive buffer, one after the
/// other, leads from `w` to `end`, where `picks` are the pieces that were
/// picked on the way, one for every message with content.
#[verifier::opaque]
pub open spec fn leads_to(
    t: TorrentView,
    w: World,
    picks: Seq<Option<PieceIndex>>,
    end: World,
    ended: Ended,
) -> bool
    decreases w.conn.recv.unread.len(),
{
    match incoming(w.conn.recv) {
        Incoming::Wait => end == w && ended == Ended::Drained && picks.len() == 0,
        Incoming::Unreadable => end == w && ended == Ended::Fault && picks.len() == 0,
        Incoming::KeepAlive => {
            &&& w.past(4).conn.recv.unread.len() < w.conn.recv.unread.len()
            &&& leads_to(t, w.past(4), picks, end, ended)
        },
        Incoming::Message { kind, payload } => {
            let open = w.past(5);
            if faults(open, t, kind, payload) {
                end == open && ended == Ended::Fault && picks.len() == 0
            } else {
                &&& picks.len() > 0
                &&& pick_is_legal(open, t, kind, payload, picks[0])
                &&& match on_message(open, t, kind, payload, picks[0]) {
                    (next, Err(e)) => end == next && ended == Ended::Rejected(e) && picks.len()
                        == 1,
                    (next, Ok(())) => {
                        let after = consumed(next, kind, payload);
                        &&& after.conn.recv.unread.len() < w.conn.recv.unread.len()
                        &&& leads_to(t, after, picks.drop_first(), end, ended)
                    },
                }
            }
        },
    }
}

/// What has come of reading from a peer.
#[derive(Clone, Copy, Debug, PartialEq, Eq, Structural)]
pub enum Outcome {
    /// No whole message is there yet.
    Waiting,
    /// All whole messages have been dealt with, and the answers are in the send
    /// buffer.
    Done,
    /// A message was not accepted.
    Rejected(MsgError),
    /// There is no way to go on with this connection.
    Fault,
}

/// The world, and what has come of it, once the messages have been dealt with:
/// if none of them was refused, the answers go into the send buffer, which has
/// to have room for them.
pub open spec fn after_messages(end: World, ended: Ended) -> (World, Outcome) {
    match ended {
        Ended::Drained => if end.conn.fits() {
            (end.with_conn(end.conn.flushed()), Outcome::Done)
        } else {
            (end, Outcome::Fault)
        },
        Ended::Rejected(e) => (end, Outcome::Rejected(e)),
        Ended::Fault => (end, Outcome::Fault),
    }
}

/// Whether dealing with all messages can lead from `w` to `after`.
pub open spec fn messages_lead_to(t: TorrentView, w: World, after: World, outcome: Outcome) -> bool {
    exists|picks: Seq<Option<PieceIndex>>, end: World, ended: Ended| #[trigger]
        leads_to(t, w, picks, end, ended) && (after, outcome) == after_messages(end, ended)
}

/// Whether a whole message is in the receive buffer; `None` if its length lies
/// past the end of the buffer's memory.
pub open spec fn message_ready(recv: Ring) -> Option<bool> {
    if recv.unread.len() < 4 {
        Some(false)
    } else if recv.window().len() < 4 {
        None
    } else {
        Some(recv.unread.len() >= u32_at(recv.window(), 0) + 4)
    }
}

/// Whether taking in `data` can lead from `w` to `after`.
pub open spec fn reading_leads_to(
    t: TorrentView,
    w: World,
    data: Seq<u8>,
    after: World,
    outcome: Outcome,
) -> bool {
    let received = w.with_conn(ConnView { recv: w.conn.recv.written(data), ..w.conn });
    match message_ready(received.conn.recv) {
        None => after == received && outcome == Outcome::Fault,
        Some(false) => after == received && outcome == Outcome::Waiting,
        Some(true) => messages_lead_to(t, received, after, outcome),
    }
}

// ---------------------------------------------------------------------------
// Sending
// ---------------------------------------------------------------------------

/// A bitfield on the wire.
pub open spec fn bitfield_message(bits: Seq<bool>) -> Seq<u8> {
    be32((1 + packed(bits).len()) as u32) + seq![5u8] + packed(bits)
}

/// What is to be done about writing.
#[derive(Clone, Copy, Debug, PartialEq, Eq, Structural)]
pub enum WriteStep {
    /// The socket does not take anything now.
    NotNow,
    /// What is in the send buffer is to be offered to the socket.
    Ready,
    /// There is no way to go on with this connection.
    Fault,
}

/// How much room there has to be in the send buffer for messages to be put
/// into it.
pub const APPEND_THRESHOLD: usize = 512;

/// Before writing: if there is some room in the send buffer, the queued
/// messages are put into it.
pub open spec fn before_write(conn: ConnView) -> (ConnView, WriteStep) {
    if !conn.writable {
        (conn, WriteStep::NotNow)
    } else if conn.send.free() > APPEND_THRESHOLD {
        if conn.fits() {
            (conn.flushed(), WriteStep::Ready)
        } else {
            (conn, WriteStep::Fault)
        }
    } else {
        (conn, WriteStep::Ready)
    }
}

/// A block of this length, header and all, has been sent by a single write.
pub open spec fn block_sent(conn: ConnView, written: usize) -> Option<u16> {
    match conn.block_length {
        Some(length) => if written > length {
            Some(length)
        } else {
            None
        },
        None => None,
    }
}

/// The length of the header in front of a block.
pub const BLOCK_HEADER: u16 = 13;

/// Whether the counts cannot follow what was written.
pub open spec fn write_faults(w: World, written: Option<usize>) -> bool {
    match written {
        None => false,
        Some(n) => {
            ||| w.conn.bytes_sent + n > u32::MAX
            ||| block_sent(w.conn, n) matches Some(length) && (length < BLOCK_HEADER
                || w.common.uploaded + (length - BLOCK_HEADER) > u64::MAX)
        },
    }
}

/// The socket has taken some bytes, or none because it cannot.
pub open spec fn counted(w: World, written: Option<usize>) -> World {
    match written {
        None => w.with_conn(ConnView { writable: false, ..w.conn }),
        Some(n) => {
            let conn = ConnView {
                send: w.conn.send.advanced(n as nat),
                bytes_sent: (w.conn.bytes_sent + n) as u32,
                ..w.conn
            };
            match block_sent(w.conn, n) {
                Some(length) => World {
                    conn: ConnView { block_length: None, ..conn },
                    common: CommonView {
                        uploaded: (w.common.uploaded + (length - BLOCK_HEADER)) as u64,
                        ..w.common
                    },
                },
                None => w.with_conn(conn),
            }
        },
    }
}

/// The block that was queued last takes the place of the send buffer; the low
/// 16 bits of its length count.
pub open spec fn send_buf_replaced(conn: ConnView) -> ConnView {
    if conn.blocks_out.len() == 0 {
        conn
    } else {
        let block = conn.blocks_out.last();
        ConnView {
            send: block,
            blocks_out: conn.blocks_out.drop_last(),
            bytes_sent: 0,
            block_length: Some((block.unread.len() % 0x1_0000) as u16),
            ..conn
        }
    }
}

/// After writing: what was written is counted, and once there is nothing left
/// to say, a block is next.
pub open spec fn after_write(w: World, written: Option<usize>) -> World {
    let next = counted(w, written);
    if next.conn.send.unread.len() == 0 && next.conn.msgs_out.len() == 0 {
        next.with_conn(send_buf_replaced(next.conn))
    } else {
        next
    }
}

// ---------------------------------------------------------------------------
// What messages leave alone
// ---------------------------------------------------------------------------

pub proof fn lemma_requesting_frame(conn: ConnView, n: nat)
    ensures
        conn.requesting(n) == (ConnView {
            current: conn.requesting(n).current,
            msgs_out: conn.requesting(n).msgs_out,
            ..conn
        }),
    decreases n,
{
    if let Some(current) = conn.current {
        if n > 0 && current.unfinished() {
            lemma_requesting_frame(
                ConnView { current: Some(current.after_block()), ..conn }.enqueued(
                    PeerMsg::Request(current.block()),
                ),
                (n - 1) as nat,
            );
        }
    }
}

/// Only a block changes the receive buffer; it leaves no more in it than there
/// was.
pub proof fn lemma_message_recv(
    w: World,
    t: TorrentView,
    kind: u8,
    payload: nat,
    pick: Option<PieceIndex>,
)
    requires
        !faults(w, t, kind, payload),
        kind == 7 ==> w.window().len() <= w.conn.recv.unread.len(),
    ensures
        ({
            let next = on_message(w, t, kind, payload, pick).0;
            &&& kind != 7 ==> next.conn.recv == w.conn.recv
            &&& kind == 7 ==> next.conn.recv.unread.len() <= w.conn.recv.unread.len()
        }),
{
    lemma_picking_frame(w, t, None, pick);
    if kind == 1 {
        lemma_picking_frame(
            w.with_state(ConnectionState { we_choked: false, ..w.conn.state }),
            t,
            None,
            pick,
        );
    } else if kind == 4 {
        let index = PieceIndex(u32_at(w.window(), 0));
        lemma_news_frame(
            w.with_peers_pieces(w.conn.peers_pieces.with(index)),
            t,
            Some(index),
            None,
        );
    } else if kind == 5 {
        lemma_news_frame(
            w.with_peers_pieces(merged(w.conn.peers_pieces, named_pieces(w, payload))),
            t,
            None,
            pick,
        );
    } else if kind == 7 {
        let kept = block_kept(w, t, payload);
        let completed = if piece_complete(kept.conn) {
            on_completed_piece(kept, t).0
        } else {
            kept
        };
        lemma_picking_frame(completed, t, None, pick);
        lemma_requesting_frame(completed.conn, 1);
    }
}

/// No whole message: nothing happens.
pub proof fn lemma_drained(t: TorrentView, w: World)
    requires
        incoming(w.conn.recv) is Wait,
    ensures
        leads_to(t, w, Seq::empty(), w, Ended::Drained),
{
    reveal(leads_to);
}

/// A message whose kind cannot be seen.
pub proof fn lemma_unreadable(t: TorrentView, w: World)
    requires
        incoming(w.conn.recv) is Unreadable,
    ensures
        leads_to(t, w, Seq::empty(), w, Ended::Fault),
{
    reveal(leads_to);
}

/// A message without an answer.
pub proof fn lemma_faulty(t: TorrentView, w: World, kind: u8, payload: nat)
    requires
        incoming(w.conn.recv) == (Incoming::Message { kind, payload }),
        faults(w.past(5), t, kind, payload),
    ensures
        leads_to(t, w, Seq::empty(), w.past(5), Ended::Fault),
{
    reveal(leads_to);
}

/// A message that is not accepted.
pub proof fn lemma_rejected(
    t: TorrentView,
    w: World,
    kind: u8,
    payload: nat,
    pick: Option<PieceIndex>,
    e: MsgError,
)
    requires
        incoming(w.conn.recv) == (Incoming::Message { kind, payload }),
        !faults(w.past(5), t, kind, payload),
        pick_is_legal(w.past(5), t, kind, payload, pick),
        on_message(w.past(5), t, kind, payload, pick).1 == Err::<(), MsgError>(e),
    ensures
        leads_to(
            t,
            w,
            seq![pick],
            on_message(w.past(5), t, kind, payload, pick).0,
            Ended::Rejected(e),
        ),
{
    reveal(leads_to);
    assert(seq![pick][0] == pick);
}

/// A message without content, and then others.
pub proof fn lemma_after_keep_alive(
    t: TorrentView,
    w: World,
    picks: Seq<Option<PieceIndex>>,
    end: World,
    ended: Ended,
)
    requires
        w.conn.recv.wf(),
        incoming(w.conn.recv) is KeepAlive,
        leads_to(t, w.past(4), picks, end, ended),
    ensures
        leads_to(t, w, picks, end, ended),
{
    reveal(leads_to);
    lemma_advanced(w.conn.recv, 4);
}

/// What a message leaves in the receive buffer is less than there was.
pub proof fn lemma_message_shrinks(
    t: TorrentView,
    w: World,
    kind: u8,
    payload: nat,
    pick: Option<PieceIndex>,
)
    requires
        w.conn.recv.wf(),
        incoming(w.conn.recv) == (Incoming::Message { kind, payload }),
        !faults(w.past(5), t, kind, payload),
    ensures
        consumed(
            on_message(w.past(5), t, kind, payload, pick).0,
            kind,
            payload,
        ).conn.recv.unread.len() < w.conn.recv.unread.len(),
{
    let open = w.past(5);
    lemma_advanced(w.conn.recv, 5);
    lemma_advanced(open.conn.recv, payload);
    lemma_message_recv(open, t, kind, payload, pick);
}

/// A message that is accepted, and then others.
pub proof fn lemma_after_message(
    t: TorrentView,
    w: World,
    kind: u8,
    payload: nat,
    pick: Option<PieceIndex>,
    picks: Seq<Option<PieceIndex>>,
    end: World,
    ended: Ended,
)
    requires
        w.conn.recv.wf(),
        incoming(w.conn.recv) == (Incoming::Message { kind, payload }),
        !faults(w.past(5), t, kind, payload),
        pick_is_legal(w.past(5), t, kind, payload, pick),
        on_message(w.past(5), t, kind, payload, pick).1 is Ok,
        leads_to(
            t,
            consumed(on_message(w.past(5), t, kind, payload, pick).0, kind, payload),
            picks,
            end,
            ended,
        ),
    ensures
        leads_to(t, w, seq![pick] + picks, end, ended),
{
    reveal(leads_to);
    lemma_message_shrinks(t, w, kind, payload, pick);
    let longer = seq![pick] + picks;
    assert(longer[0] == pick);
    assert(longer.drop_first() =~= picks);
}

/// Beginning a download changes what is asked for and what is said, and what
/// is wanted.
pub proof fn lemma_picking_frame(
    w: World,
    t: TorrentView,
    available: Option<PieceIndex>,
    pick: Option<PieceIndex>,
)
    ensures
        ({
            let after = w.picking(t, available, pick);
            &&& after.conn == (ConnView {
                current: after.conn.current,
                msgs_out: after.conn.msgs_out,
                ..w.conn
            })
            &&& after.common == w.having_chosen(available, pick).common
        }),
{
    let next = w.having_chosen(available, pick);
    if let Some(index) = w.choosing(available, pick) {
        lemma_requesting_frame(
            ConnView {
                current: Some(
                    CurrentPieceInfo { index, requested_up_to: 0, length: t.piece_len(index) },
                ),
                ..next.conn
            },
            3,
        );
    }
}

/// So does hearing news, and it may make us interested.
pub proof fn lemma_news_frame(
    w: World,
    t: TorrentView,
    available: Option<PieceIndex>,
    pick: Option<PieceIndex>,
)
    ensures
        ({
            let after = w.hearing_news(t, available, pick);
            &&& after.conn == (ConnView {
                state: after.conn.state,
                current: after.conn.current,
                msgs_out: after.conn.msgs_out,
                ..w.conn
            })
            &&& after.common == w.common || after.common == w.having_chosen(available, pick).common
        }),
{
    let next = w.having_chosen(available, pick);
    if let Some(index) = w.choosing(available, pick) {
        let current = Some(
            CurrentPieceInfo { index, requested_up_to: 0, length: t.piece_len(index) },
        );
        lemma_requesting_frame(ConnView { current, ..next.conn }, 3);
        lemma_requesting_frame(ConnView { current, ..next.conn.becoming_interested() }, 3);
    }
}

} // verus!
