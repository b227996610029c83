//! Connections to peers, after the handshake.
use bytes::RingBuf;
use std::collections::VecDeque;
use vstd::prelude::*;
use vstd::slice::slice_subrange;

use crate::bits::{bit_of, unpacked};
use crate::buffers::{
    first_bytes, lemma_advanced, power_of_two_from, ring, ring_advance, ring_capacity, ring_free,
    ring_len, ring_new, ring_window, ring_write, Ring,
};
use crate::messages::{encoded_all, PeerMsg};
use crate::piece_data::{block_bytes, CurrentPieceInfo, PieceData, PieceView, BLOCK_SIZE};
use crate::piece_set::{
    law_changes_keep_count, law_complement, law_meeting_sets_are_not_empty, law_pick,
    lemma_not_empty, number_set, possible_room, PieceSet, Pieces,
};
use crate::protocol_model::{
    after_write, all_requested, asking_on, before_write, bitfield_faults, bitfield_length,
    bitfield_message, block_at, block_faults, block_kept, consumed, faults, incoming,
    incoming_block, incoming_data, leads_to, lemma_after_keep_alive, lemma_after_message,
    lemma_drained, lemma_faulty, lemma_message_shrinks, lemma_rejected, lemma_unreadable, merged,
    message_ready, messages_lead_to, named_pieces, on_bitfield, on_block, on_cancel, on_choke,
    on_completed_piece, on_have, on_message, on_request, on_unchoke, pick_is_legal, piece_complete,
    piece_for, reading_leads_to, request_faults, request_result, send_buf_replaced, write_faults,
    CommonView, ConnView, ConnectionState, Ended, HandlerAction, MsgError, Outcome, PeerMsgResult,
    World, WriteStep, APPEND_THRESHOLD, BLOCK_HEADER, CONCURRENT_REQUESTS_PER_PEER, RECV_BUF_SIZE,
    SEND_BUF_SIZE,
};
use crate::torrent_info::{TorrentInfo, TorrentView};
use crate::types::{
    BlockInfo, BlockReceiver, BlockRequest, ConnectionId, PieceIndex, PieceReaderMessage, Stats,
    Token,
};
use crate::wire::{first_u32, low_half, low_word, push_u32, u32_at};

verus! {

// ---------------------------------------------------------------------------
// What connections share
// ---------------------------------------------------------------------------

/// What all connections share. Messages for the disk threads are collected in
/// two lists, from where the application passes them on.
pub struct CommonInfo<'a> {
    pub torrent: &'a TorrentInfo,
    /// The pieces that we have.
    pub our_pieces: PieceSet,
    /// The pieces that we do not have and that are not yet being downloaded.
    pub pieces_to_download: PieceSet,
    /// What the disk reader is to be told.
    pub reader_messages: Vec<PieceReaderMessage>,
    /// Pieces for the disk writer.
    pub finished_pieces: Vec<PieceData>,
    /// Blocks that the disk reader was told to read and has not delivered.
    pub pending_disk_blocks: VecDeque<(ConnectionId, BlockInfo)>,
    /// What a connection wants the event loop to do.
    pub handler_action: Option<HandlerAction>,
    pub bytes_downloaded: u64,
    pub bytes_uploaded: u64,
}

pub open spec fn piece_views(pieces: Seq<PieceData>) -> Seq<PieceView> {
    pieces.map_values(|p: PieceData| p@)
}

impl<'a> View for CommonInfo<'a> {
    type V = CommonView;

    open spec fn view(&self) -> CommonView {
        CommonView {
            our_pieces: self.our_pieces@,
            wanted: self.pieces_to_download@,
            reader: self.reader_messages@,
            writer: piece_views(self.finished_pieces@),
            pending: self.pending_disk_blocks@,
            action: self.handler_action,
            downloaded: self.bytes_downloaded,
            uploaded: self.bytes_uploaded,
        }
    }
}

/// Whether every piece of a torrent starts inside its files.
pub open spec fn pieces_start_inside(t: TorrentView) -> bool {
    forall|i: PieceIndex| i.0 < t.piece_count() ==> #[trigger] t.has_length(i)
}

/// What holds of the shared state at any time: the sets are for the pieces of
/// the torrent, and the pieces that are wanted are counted right.
pub open spec fn common_wf(common: CommonView, t: TorrentView) -> bool {
    &&& t.wf()
    &&& pieces_start_inside(t)
    &&& common.our_pieces.bits.len() == t.piece_count()
    &&& common.wanted.bits.len() == t.piece_count()
    &&& common.wanted.exact()
}

/// How the shared state begins.
pub open spec fn common_start(our_pieces: Pieces) -> CommonView {
    CommonView {
        our_pieces,
        wanted: our_pieces.complement(),
        reader: Seq::empty(),
        writer: Seq::empty(),
        pending: Seq::empty(),
        action: None,
        downloaded: 0,
        uploaded: 0,
    }
}

/// How far the download has come.
pub open spec fn stats_of(common: CommonView, t: TorrentView) -> Stats {
    Stats {
        uploaded: common.uploaded,
        downloaded: common.downloaded,
        remaining: (t.total_size - t.bytes_present(common.our_pieces)) as u64,
    }
}

impl<'a> CommonInfo<'a> {
    pub open spec fn wf(self) -> bool {
        &&& common_wf(self@, self.torrent@)
        &&& possible_room(self@.our_pieces, self.our_pieces.room())
    }

    /// The shared state at the beginning, where some pieces are there already.
    pub fn new(torrent: &'a TorrentInfo, our_pieces: PieceSet) -> (r: CommonInfo<'a>)
        requires
            our_pieces@.bits.len() == torrent@.piece_count(),
            our_pieces@.count <= torrent@.piece_count(),
        ensures
            r.torrent == torrent,
            r.our_pieces == our_pieces,
            r@ == common_start(our_pieces@),
            torrent@.wf() && pieces_start_inside(torrent@) && our_pieces@.exact()
                && possible_room(our_pieces@, our_pieces.room()) ==> r.wf(),
    {
        proof {
            if our_pieces@.exact() {
                law_complement(our_pieces@);
            }
        }
        let pieces_to_download = our_pieces.inverse();
        let r = CommonInfo {
            torrent,
            our_pieces,
            pieces_to_download,
            reader_messages: Vec::new(),
            finished_pieces: Vec::new(),
            pending_disk_blocks: VecDeque::with_capacity(16),
            handler_action: None,
            bytes_downloaded: 0,
            bytes_uploaded: 0,
        };
        assert(r@ =~= common_start(our_pieces@));
        r
    }

    /// How far the download has come.
    pub fn current_stats(&self) -> (r: Stats)
        requires
            self.torrent@.can_count(self@.our_pieces),
        ensures
            r == stats_of(self@, self.torrent@),
    {
        Stats {
            uploaded: self.bytes_uploaded,
            downloaded: self.bytes_downloaded,
            remaining: self.torrent.bytes_left_to_download(&self.our_pieces),
        }
    }

    /// Takes out what the disk reader is to be told.
    pub fn take_reader_messages(&mut self) -> (r: Vec<PieceReaderMessage>)
        ensures
            r@ == old(self)@.reader,
            final(self)@ == (CommonView { reader: Seq::empty(), ..old(self)@ }),
            final(self).torrent == old(self).torrent,
            final(self).our_pieces == old(self).our_pieces,
    {
        let mut messages: Vec<PieceReaderMessage> = Vec::new();
        std::mem::swap(&mut messages, &mut self.reader_messages);
        messages
    }

    /// Takes out the pieces for the disk writer.
    pub fn take_finished_pieces(&mut self) -> (r: Vec<PieceData>)
        ensures
            piece_views(r@) == old(self)@.writer,
            final(self)@ == (CommonView { writer: Seq::empty(), ..old(self)@ }),
            final(self).torrent == old(self).torrent,
            final(self).our_pieces == old(self).our_pieces,
    {
        let mut pieces: Vec<PieceData> = Vec::new();
        std::mem::swap(&mut pieces, &mut self.finished_pieces);
        assert(piece_views(self.finished_pieces@) =~= Seq::empty());
        pieces
    }

    /// Takes out what a connection wants the event loop to do.
    pub fn take_handler_action(&mut self) -> (r: Option<HandlerAction>)
        ensures
            r == old(self)@.action,
            final(self)@ == (CommonView { action: None, ..old(self)@ }),
            final(self).torrent == old(self).torrent,
            final(self).our_pieces == old(self).our_pieces,
    {
        self.handler_action.take()
    }
}

/// Whether every piece of a torrent starts inside its files.
pub fn check_piece_starts(torrent: &TorrentInfo) -> (r: bool)
    ensures
        r == pieces_start_inside(torrent@),
{
    let count = torrent.piece_count();
    if count == 0 {
        return true;
    }
    let last = PieceIndex(count - 1);
    let inside = torrent.has_length(last);
    proof {
        let t = torrent@;
        if inside {
            assert forall|i: PieceIndex| i.0 < t.piece_count() implies #[trigger] t.has_length(
                i,
            ) by {
                assert(i.0 * t.piece_length <= last.0 * t.piece_length) by (nonlinear_arith)
                    requires
                        i.0 <= last.0,
                        0 <= t.piece_length,
                ;
            }
        } else {
            assert(!t.has_length(last));
        }
    }
    inside
}

// ---------------------------------------------------------------------------
// A connection
// ---------------------------------------------------------------------------

/// A connection to a peer. The socket belongs to the application, which hands
/// over what it has read, and asks what is to be written.
pub struct PeerConnection {
    pub conn_state: ConnectionState,
    pub recv_buf: RingBuf,
    pub send_buf: RingBuf,
    pub peers_pieces: PieceSet,
    /// Blocks that the peer has asked for and the disk reader has not been
    /// told about.
    pub peer_request_queue: VecDeque<BlockInfo>,
    /// Blocks that are to be sent.
    pub outgoing_blocks: VecDeque<RingBuf>,
    /// Messages that are to be sent.
    pub outgoing_msgs: VecDeque<PeerMsg>,
    pub currently_downloading_piece: Option<CurrentPieceInfo>,
    pub current_piece_blocks: Option<PieceData>,
    pub next_piece_blocks: Vec<(BlockInfo, RingBuf)>,
    pub conn_id: ConnectionId,
    /// How many blocks the peer has asked for.
    pub blocks_requested_by_peer: u8,
    pub token: Token,
    pub maybe_writable: bool,
    pub outgoing_buf_bytes_sent: u32,
    pub outgoing_block_length: Option<u16>,
}

pub open spec fn ring_views(bufs: Seq<RingBuf>) -> Seq<Ring> {
    bufs.map_values(|b: RingBuf| ring(b))
}

pub open spec fn block_views(blocks: Seq<(BlockInfo, RingBuf)>) -> Seq<(BlockInfo, Seq<u8>)> {
    blocks.map_values(|b: (BlockInfo, RingBuf)| (b.0, block_bytes(b.1)))
}

impl View for PeerConnection {
    type V = ConnView;

    open spec fn view(&self) -> ConnView {
        ConnView {
            state: self.conn_state,
            recv: ring(self.recv_buf),
            send: ring(self.send_buf),
            peers_pieces: self.peers_pieces@,
            peer_requests: self.peer_request_queue@,
            blocks_out: ring_views(self.outgoing_blocks@),
            msgs_out: self.outgoing_msgs@,
            current: self.currently_downloading_piece,
            assembling: match self.current_piece_blocks {
                Some(piece) => Some(piece@),
                None => None,
            },
            next_blocks: block_views(self.next_piece_blocks@),
            id: self.conn_id,
            requested: self.blocks_requested_by_peer,
            token: self.token,
            writable: self.maybe_writable,
            bytes_sent: self.outgoing_buf_bytes_sent,
            block_length: self.outgoing_block_length,
        }
    }
}

/// How a connection begins.
pub open spec fn conn_start(t: TorrentView, id: ConnectionId) -> ConnView {
    ConnView {
        state: ConnectionState {
            we_interested: false,
            peer_interested: false,
            we_choked: true,
            peer_choked: true,
        },
        recv: Ring::empty(RECV_BUF_SIZE as nat),
        send: Ring::empty(SEND_BUF_SIZE as nat),
        peers_pieces: Pieces::uniform(t.piece_count() as nat, false),
        peer_requests: Seq::empty(),
        blocks_out: Seq::empty(),
        msgs_out: Seq::empty(),
        current: None,
        assembling: None,
        next_blocks: Seq::empty(),
        id,
        requested: 0,
        token: Token(0),
        writable: true,
        bytes_sent: 0,
        block_length: None,
    }
}

/// A buffer of the size of the receive and send buffers.
fn new_buffer() -> (r: RingBuf)
    ensures
        ring(r) == Ring::empty(RECV_BUF_SIZE as nat),
{
    proof {
        reveal_with_fuel(power_of_two_from, 17);
    }
    ring_new(RECV_BUF_SIZE)
}

impl PeerConnection {
    /// What holds of a connection at any time.
    pub open spec fn wf(self, t: TorrentView) -> bool {
        &&& self@.recv.wf()
        &&& self@.recv.capacity == RECV_BUF_SIZE
        &&& self.peers_pieces@.bits.len() == t.piece_count()
        &&& self.current_piece_blocks matches Some(piece) ==> piece.wf() && piece@.index.0
            < t.piece_count()
    }

    pub open spec fn world(self, common: CommonInfo<'_>) -> World {
        World { conn: self@, common: common@ }
    }

    pub fn new(torrent: &TorrentInfo, id: ConnectionId) -> (r: PeerConnection)
        ensures
            r.wf(torrent@),
            r@ == conn_start(torrent@, id),
    {
        let r = PeerConnection {
            conn_state: ConnectionState::new(),
            recv_buf: new_buffer(),
            send_buf: new_buffer(),
            peers_pieces: PieceSet::new_empty(torrent),
            peer_request_queue: VecDeque::new(),
            outgoing_blocks: VecDeque::new(),
            outgoing_msgs: VecDeque::new(),
            currently_downloading_piece: None,
            current_piece_blocks: None,
            next_piece_blocks: Vec::new(),
            conn_id: id,
            blocks_requested_by_peer: 0,
            token: Token(0),
            maybe_writable: true,
            outgoing_buf_bytes_sent: 0,
            outgoing_block_length: None,
        };
        assert(r@ =~= conn_start(torrent@, id));
        r
    }

    // -----------------------------------------------------------------------
    // Saying things to the peer
    // -----------------------------------------------------------------------

    pub fn enqueue_msg(&mut self, msg: PeerMsg)
        ensures
            final(self)@ == old(self)@.enqueued(msg),
            forall|t: TorrentView| old(self).wf(t) ==> final(self).wf(t),
    {
        self.outgoing_msgs.push_back(msg);
    }

    pub fn stop_being_interested(&mut self)
        ensures
            final(self)@ == old(self)@.losing_interest(),
            forall|t: TorrentView| old(self).wf(t) ==> final(self).wf(t),
    {
        self.enqueue_msg(PeerMsg::NotInterested);
        self.conn_state.we_interested = false;
    }

    pub fn notify_have(&mut self, piece_index: PieceIndex)
        ensures
            final(self)@ == old(self)@.enqueued(PeerMsg::Have(piece_index)),
            forall|t: TorrentView| old(self).wf(t) ==> final(self).wf(t),
    {
        self.enqueue_msg(PeerMsg::Have(piece_index));
    }

    pub fn request_block(&mut self, block: BlockInfo)
        ensures
            final(self)@ == old(self)@.enqueued(PeerMsg::Request(block)),
            forall|t: TorrentView| old(self).wf(t) ==> final(self).wf(t),
    {
        self.enqueue_msg(PeerMsg::Request(block));
    }

    pub fn become_interested(&mut self)
        ensures
            final(self)@ == old(self)@.becoming_interested(),
            forall|t: TorrentView| old(self).wf(t) ==> final(self).wf(t),
    {
        self.conn_state.we_interested = true;
        self.enqueue_msg(PeerMsg::Interested);
    }

    /// A block has come from disk and is to be sent.
    pub fn add_outgoing_block(&mut self, block: RingBuf)
        ensures
            final(self)@ == (ConnView {
                blocks_out: old(self)@.blocks_out.push(ring(block)),
                ..old(self)@
            }),
            forall|t: TorrentView| old(self).wf(t) ==> final(self).wf(t),
    {
        self.outgoing_blocks.push_back(block);
        assert(self@.blocks_out =~= old(self)@.blocks_out.push(ring(block)));
    }

    // -----------------------------------------------------------------------
    // Asking for blocks
    // -----------------------------------------------------------------------

    /// Asks for the next blocks of the current piece, at most `n`.
    fn request_blocks(&mut self, n: u8)
        ensures
            final(self)@ == old(self)@.requesting(n as nat),
            forall|t: TorrentView| old(self).wf(t) ==> final(self).wf(t),
    {
        let mut left: u8 = n;
        while left > 0
            invariant
                self@.requesting(left as nat) == old(self)@.requesting(n as nat),
                forall|t: TorrentView| old(self).wf(t) ==> self.wf(t),
            decreases left,
        {
            let mut current = match self.currently_downloading_piece {
                Some(current) => current,
                None => {
                    return ;
                },
            };
            match current.next_block() {
                None => {
                    return ;
                },
                Some(block) => {
                    self.currently_downloading_piece = Some(current);
                    self.request_block(block);
                },
            }
            left = left - 1;
        }
    }

    pub fn start_downloading_piece(&mut self, common: &CommonInfo<'_>, piece_index: PieceIndex)
        requires
            common.torrent@.has_length(piece_index),
        ensures
            final(self)@ == old(self)@.starting(common.torrent@, piece_index),
            forall|t: TorrentView| old(self).wf(t) ==> final(self).wf(t),
    {
        self.currently_downloading_piece = Some(
            CurrentPieceInfo {
                index: piece_index,
                length: common.torrent.get_piece_length(piece_index),
                requested_up_to: 0,
            },
        );
        self.request_blocks(3);
    }

    /// Chooses a piece to ask for: the one that has just become available, if
    /// it is wanted, or, if there is none such, one by chance out of those that
    /// the peer has. It is no longer wanted then.
    pub fn pick_piece(
        &self,
        new_available: Option<PieceIndex>,
        common: &mut CommonInfo<'_>,
    ) -> (r: Option<PieceIndex>)
        requires
            old(common).wf(),
            self.wf(old(common).torrent@),
            new_available matches Some(index) ==> index.0 < old(common).torrent@.piece_count(),
        ensures
            final(common).wf(),
            final(common).torrent == old(common).torrent,
            new_available is None ==> self.world(*old(common)).wanted_by_both(r),
            r == self.world(*old(common)).choosing(new_available, r),
            self.world(*final(common)) == self.world(*old(common)).having_chosen(new_available, r),
            r matches Some(index) ==> index.0 < old(common).torrent@.piece_count(),
    {
        match new_available {
            Some(piece_index) => {
                if common.pieces_to_download.index(piece_index) {
                    proof {
                        law_changes_keep_count(common@.wanted, piece_index);
                        lemma_not_empty(common@.wanted, piece_index);
                    }
                    common.pieces_to_download.set_false(piece_index);
                    Some(piece_index)
                } else {
                    None
                }
            },
            None => {
                let ghost wanted = common@.wanted;
                let ghost theirs = self.peers_pieces@;
                proof {
                    if wanted.meets(theirs) {
                        law_meeting_sets_are_not_empty(wanted, theirs);
                    }
                }
                let picked = common.pieces_to_download.pick_piece_from(&self.peers_pieces);
                proof {
                    if let Some(index) = picked {
                        law_pick(wanted, theirs, index);
                    }
                }
                picked
            },
        }
    }

    /// Chooses a piece and begins to ask for it. Gives the piece.
    pub fn pick_piece_and_start_downloading(
        &mut self,
        new_available: Option<PieceIndex>,
        common: &mut CommonInfo<'_>,
    ) -> (r: Option<PieceIndex>)
        requires
            old(common).wf(),
            old(self).wf(old(common).torrent@),
            new_available matches Some(index) ==> index.0 < old(common).torrent@.piece_count(),
        ensures
            final(common).wf(),
            final(self).wf(final(common).torrent@),
            final(common).torrent == old(common).torrent,
            new_available is None ==> old(self).world(*old(common)).wanted_by_both(r),
            final(self).world(*final(common)) == old(self).world(*old(common)).picking(
                old(common).torrent@,
                new_available,
                r,
            ),
    {
        let o_piece = self.pick_piece(new_available, common);
        match o_piece {
            Some(piece_index) => {
                assert(common.torrent@.has_length(piece_index));
                self.start_downloading_piece(common, piece_index);
            },
            None => {
                self.currently_downloading_piece = None;
            },
        }
        o_piece
    }

    /// The peer has a new piece, or several. Gives the piece that was picked
    /// by chance, if one was.
    pub fn new_piece_available(
        &mut self,
        new_available: Option<PieceIndex>,
        common: &mut CommonInfo<'_>,
    ) -> (r: Option<PieceIndex>)
        requires
            old(common).wf(),
            old(self).wf(old(common).torrent@),
            new_available matches Some(index) ==> index.0 < old(common).torrent@.piece_count(),
        ensures
            final(common).wf(),
            final(self).wf(final(common).torrent@),
            final(common).torrent == old(common).torrent,
            new_available is None && old(self).world(*old(common)).news_picks() ==> old(self).world(
                *old(common),
            ).wanted_by_both(r),
            final(self).world(*final(common)) == old(self).world(*old(common)).hearing_news(
                old(common).torrent@,
                new_available,
                r,
            ),
    {
        if self.conn_state.we_choked {
            if !self.conn_state.we_interested {
                let become_interested = match new_available {
                    Some(index) => common.pieces_to_download.index(index),
                    None => common.pieces_to_download.has_new_pieces(&self.peers_pieces),
                };
                if become_interested {
                    self.become_interested();
                }
            }
            None
        } else if self.currently_downloading_piece.is_none() {
            let picked = self.pick_piece(new_available, common);
            if let Some(piece_index) = picked {
                if !self.conn_state.we_interested {
                    self.become_interested();
                }
                assert(common.torrent@.has_length(piece_index));
                self.start_downloading_piece(common, piece_index);
            }
            picked
        } else {
            None
        }
    }

    // -----------------------------------------------------------------------
    // Messages of the peer
    // -----------------------------------------------------------------------

    pub fn handle_choke(&mut self, common: &CommonInfo<'_>) -> (r: PeerMsgResult)
        requires
            old(self).wf(common.torrent@),
        ensures
            final(self).wf(common.torrent@),
            (final(self).world(*common), r) == on_choke(old(self).world(*common)),
    {
        if self.conn_state.we_choked {
            return Ok(());
        }
        self.conn_state.we_choked = true;
        Ok(())
    }

    pub fn handle_unchoke(&mut self, common: &mut CommonInfo<'_>) -> (r: PeerMsgResult)
        requires
            old(common).wf(),
            old(self).wf(old(common).torrent@),
        ensures
            final(common).wf(),
            final(self).wf(final(common).torrent@),
            final(common).torrent == old(common).torrent,
            exists|pick: Option<PieceIndex>| #[trigger]
                pick_is_legal(
                    old(self).world(*old(common)),
                    old(common).torrent@,
                    1,
                    0,
                    pick,
                ) && (final(self).world(*final(common)), r) == on_unchoke(
                    old(self).world(*old(common)),
                    old(common).torrent@,
                    pick,
                ),
    {
        let ghost w = self.world(*common);
        let ghost t = common.torrent@;
        if !self.conn_state.we_choked {
            assert(pick_is_legal(w, t, 1, 0, None));
            return Ok(());
        }
        self.conn_state.we_choked = false;
        if self.currently_downloading_piece.is_none() {
            let picked = self.pick_piece_and_start_downloading(None, common);
            assert(pick_is_legal(w, t, 1, 0, picked));
        } else {
            assert(pick_is_legal(w, t, 1, 0, None));
        }
        Ok(())
    }

    pub fn handle_have(&mut self, common: &mut CommonInfo<'_>) -> (r: PeerMsgResult)
        requires
            old(common).wf(),
            old(self).wf(old(common).torrent@),
            !faults(old(self).world(*old(common)), old(common).torrent@, 4, 0),
        ensures
            final(common).wf(),
            final(self).wf(final(common).torrent@),
            final(common).torrent == old(common).torrent,
            (final(self).world(*final(common)), r) == on_have(
                old(self).world(*old(common)),
                old(common).torrent@,
            ),
    {
        let ghost w = self.world(*common);
        let ghost t = common.torrent@;
        let piece_index = first_u32(ring_window(&self.recv_buf));
        if piece_index >= common.torrent.piece_count() {
            return Err(MsgError::PieceIndexTooLarge);
        }
        let piece_index = PieceIndex(piece_index);
        self.peers_pieces.set_true(piece_index);
        assert(self.world(*common) == w.with_peers_pieces(w.conn.peers_pieces.with(piece_index)));
        let _ = self.new_piece_available(Some(piece_index), common);
        Ok(())
    }

    /// Puts the pieces that a bitfield names into the peer's set.
    fn merge_bitfield(&mut self, payload: usize, common: &CommonInfo<'_>)
        requires
            common.wf(),
            old(self).wf(common.torrent@),
            bitfield_length(common.torrent@) == payload,
            !bitfield_faults(old(self).world(*common), common.torrent@, payload as nat),
        ensures
            final(self).wf(common.torrent@),
            final(self).world(*common) == old(self).world(*common).with_peers_pieces(
                merged(
                    old(self)@.peers_pieces,
                    named_pieces(old(self).world(*common), payload as nat),
                ),
            ),
    {
        let ghost w = self.world(*common);
        let ghost t = common.torrent@;
        let ghost before = self@;
        let ghost named = named_pieces(w, payload as nat);
        let bitfield = slice_subrange(ring_window(&self.recv_buf), 0, payload);
        assert(bitfield@ =~= w.window().take(payload as int));
        let end: usize = payload * 8;
        let mut n: usize = 0;
        proof {
            assert(named.take(0) =~= Seq::empty());
            assert(merged(before.peers_pieces, named.take(0)) =~= before.peers_pieces);
        }
        while n < end
            invariant
                n <= end,
                end == payload * 8,
                bitfield@.len() == payload,
                named == unpacked(bitfield@),
                t == common.torrent@,
                common.wf(),
                before.peers_pieces.bits.len() == t.piece_count(),
                forall|i: int| t.piece_count() <= i < named.len() ==> !(#[trigger] named[i]),
                before.peers_pieces.count + number_set(named) <= u32::MAX,
                self.peers_pieces@ == merged(before.peers_pieces, named.take(n as int)),
                w == (World { conn: before, common: common@ }),
                self@ == (ConnView { peers_pieces: self.peers_pieces@, ..before }),
                self.recv_buf == old(self).recv_buf,
                self.current_piece_blocks == old(self).current_piece_blocks,
            decreases end - n,
        {
            let byte = bitfield[n / 8];
            let bit: u8 = (n % 8) as u8;
            let has_piece = bit_of(byte, bit);
            proof {
                assert(has_piece == named[n as int]);
                let grown = named.take(n + 1);
                assert(grown.drop_last() =~= named.take(n as int));
                assert(grown.last() == named[n as int]);
                lemma_number_set_prefix(named, n + 1);
            }
            if has_piece {
                self.peers_pieces.set_true(PieceIndex(n as u32));
            }
            assert(self.peers_pieces@ =~= merged(before.peers_pieces, named.take(n + 1)));
            n = n + 1;
        }
        assert(named.take(n as int) =~= named);
    }

    pub fn handle_bitfield(&mut self, msg_length: usize, common: &mut CommonInfo<'_>) -> (r:
        PeerMsgResult)
        requires
            old(common).wf(),
            old(self).wf(old(common).torrent@),
            !bitfield_faults(
                old(self).world(*old(common)),
                old(common).torrent@,
                msg_length as nat,
            ),
        ensures
            final(common).wf(),
            final(self).wf(final(common).torrent@),
            final(common).torrent == old(common).torrent,
            exists|pick: Option<PieceIndex>| #[trigger]
                pick_is_legal(
                    old(self).world(*old(common)),
                    old(common).torrent@,
                    5,
                    msg_length as nat,
                    pick,
                ) && (final(self).world(*final(common)), r) == on_bitfield(
                    old(self).world(*old(common)),
                    old(common).torrent@,
                    msg_length as nat,
                    pick,
                ),
    {
        let ghost w = self.world(*common);
        let ghost t = common.torrent@;
        let bitfield_byte_length: usize = ((common.torrent.piece_count() + 7) / 8) as usize;
        if bitfield_byte_length != msg_length {
            assert(pick_is_legal(w, t, 5, msg_length as nat, None));
            return Err(MsgError::BadBitFieldLength);
        }
        self.merge_bitfield(msg_length, common);
        let picked = self.new_piece_available(None, common);
        assert(pick_is_legal(w, t, 5, msg_length as nat, picked));
        Ok(())
    }

    /// The block that the three numbers at the beginning of the receive buffer
    /// name.
    fn read_block_info(&self) -> (r: BlockInfo)
        requires
            ring_capacity(self.recv_buf) > 0,
            self@.recv.window().len() >= 12,
        ensures
            r == block_at(self@.recv.window(), 0),
    {
        let reader = slice_subrange(ring_window(&self.recv_buf), 0, 12);
        BlockInfo {
            piece_index: PieceIndex(first_u32(reader)),
            offset: first_u32(slice_subrange(reader, 4, 12)),
            length: first_u32(slice_subrange(reader, 8, 12)),
        }
    }

    /// Whether a block can be asked of us.
    fn judge_request(common: &CommonInfo<'_>, block: BlockInfo) -> (r: PeerMsgResult)
        requires
            common.wf(),
            block.piece_index.0 != common.torrent@.piece_count(),
        ensures
            r == request_result(common@, common.torrent@, block),
    {
        if block.piece_index.0 > common.torrent.piece_count() {
            return Err(MsgError::PieceIndexTooLarge);
        }
        if !common.our_pieces.index(block.piece_index) {
            return Err(MsgError::PieceNotAvailable);
        }
        assert(common.torrent@.has_length(block.piece_index));
        let expected_length = common.torrent.get_piece_length(block.piece_index);
        if block.length > BLOCK_SIZE || block.length > expected_length {
            return Err(MsgError::RequestedBlockTooLong);
        }
        if block.offset as u64 + block.length as u64 > expected_length as u64 {
            return Err(MsgError::BadOffsetLengthCombination);
        }
        Ok(())
    }

    pub fn handle_request(&mut self, common: &mut CommonInfo<'_>) -> (r: PeerMsgResult)
        requires
            old(common).wf(),
            old(self).wf(old(common).torrent@),
            !request_faults(old(self).world(*old(common)), old(common).torrent@),
        ensures
            final(common).wf(),
            final(self).wf(final(common).torrent@),
            final(common).torrent == old(common).torrent,
            (final(self).world(*final(common)), r) == on_request(
                old(self).world(*old(common)),
                old(common).torrent@,
            ),
    {
        let block = self.read_block_info();
        match Self::judge_request(common, block) {
            Ok(()) => {},
            Err(e) => {
                return Err(e);
            },
        }
        if !self.conn_state.peer_choked && self.blocks_requested_by_peer
            < CONCURRENT_REQUESTS_PER_PEER {
            common.reader_messages.push(
                PieceReaderMessage::Request(
                    BlockRequest {
                        block_info: block,
                        receiver: BlockReceiver { id: self.conn_id, token: self.token },
                    },
                ),
            );
            common.pending_disk_blocks.push_back((self.conn_id, block));
        } else {
            self.peer_request_queue.push_back(block);
        }
        self.blocks_requested_by_peer = self.blocks_requested_by_peer + 1;
        Ok(())
    }

    pub fn cancel_block(&mut self, common: &mut CommonInfo<'_>)
        requires
            old(common).wf(),
            old(self).wf(old(common).torrent@),
            old(self)@.recv.window().len() >= 12,
        ensures
            final(common).wf(),
            *final(self) == *old(self),
            final(common).torrent == old(common).torrent,
            final(self).world(*final(common)) == on_cancel(old(self).world(*old(common))),
    {
        let block_info = self.read_block_info();
        common.reader_messages.push(PieceReaderMessage::CancelRequest(block_info, self.conn_id));
    }

    /// Puts a new receive buffer in place of the old one, with all that follows
    /// the first `offset` unread bytes. Gives the old one.
    fn replace_buf(&mut self, offset: usize) -> (r: RingBuf)
        requires
            old(self)@.recv.wf(),
            old(self)@.recv.capacity == RECV_BUF_SIZE,
            offset <= old(self)@.recv.unread.len(),
        ensures
            r == old(self).recv_buf,
            final(self)@.recv.wf(),
            final(self)@ == (ConnView {
                recv: Ring::empty(RECV_BUF_SIZE as nat).written(
                    old(self)@.recv.unread.skip(offset as int),
                ),
                ..old(self)@
            }),
            final(self).peers_pieces == old(self).peers_pieces,
            final(self).current_piece_blocks == old(self).current_piece_blocks,
    {
        let mut new_buf = new_buffer();
        let unread = first_bytes(&self.recv_buf, ring_len(&self.recv_buf));
        let rest = slice_subrange(unread.as_slice(), offset, unread.len());
        assert(rest@ =~= self@.recv.unread.skip(offset as int));
        let _ = ring_write(&mut new_buf, rest);
        std::mem::swap(&mut self.recv_buf, &mut new_buf);
        new_buf
    }

    /// Bytes in a buffer of their own.
    fn buffer_of(data: &[u8]) -> (r: RingBuf)
        requires
            data@.len() <= RECV_BUF_SIZE,
        ensures
            ring_capacity(r) > 0,
            block_bytes(r) == data@,
    {
        let mut block = new_buffer();
        let _ = ring_write(&mut block, data);
        assert(ring(block).window() =~= data@);
        block
    }

    /// The piece that is being put together is whole. Blocks of other pieces
    /// must not be waiting.
    pub fn handle_completed_piece(&mut self, common: &mut CommonInfo<'_>) -> (r: PeerMsgResult)
        requires
            old(common).wf(),
            old(self).wf(old(common).torrent@),
            piece_complete(old(self)@),
            old(self)@.next_blocks.len() == 0,
            old(self)@.assembling->Some_0.matches_hash(old(common).torrent@) ==> old(
                common,
            )@.our_pieces.count < u32::MAX,
        ensures
            final(common).wf(),
            final(self).wf(final(common).torrent@),
            final(common).torrent == old(common).torrent,
            (final(self).world(*final(common)), r) == on_completed_piece(
                old(self).world(*old(common)),
                old(common).torrent@,
            ),
    {
        match self.current_piece_blocks.take() {
            None => Ok(()),
            Some(piece) => {
                let index = piece.piece_index();
                if !piece.verify(common.torrent) {
                    return Err(MsgError::BadPieceHash);
                }
                let ghost view = piece@;
                common.our_pieces.set_true(index);
                common.finished_pieces.push(piece);
                common.handler_action = Some(HandlerAction::FinishedPiece(index));
                assert(common@.writer =~= old(common)@.writer.push(view));
                Ok(())
            },
        }
    }

    /// Asks for another block. Gives the piece that was picked by chance, if
    /// one was.
    fn ask_on(&mut self, common: &mut CommonInfo<'_>) -> (r: Option<PieceIndex>)
        requires
            old(common).wf(),
            old(self).wf(old(common).torrent@),
        ensures
            final(common).wf(),
            final(self).wf(final(common).torrent@),
            final(common).torrent == old(common).torrent,
            all_requested(old(self)@) ==> old(self).world(*old(common)).wanted_by_both(r),
            final(self).world(*final(common)) == asking_on(
                old(self).world(*old(common)),
                old(common).torrent@,
                r,
            ),
    {
        let finished = match self.currently_downloading_piece {
            Some(current) => current.requested_up_to >= current.length,
            None => true,
        };
        if finished {
            let picked = self.pick_piece_and_start_downloading(None, common);
            if self.currently_downloading_piece.is_none() {
                self.stop_being_interested();
            }
            picked
        } else {
            self.request_blocks(1);
            None
        }
    }

    /// Puts a block where it belongs, and says whether the piece that is being
    /// put together is whole.
    fn keep_block(&mut self, msg_length: usize, common: &mut CommonInfo<'_>) -> (r: bool)
        requires
            old(common).wf(),
            old(self).wf(old(common).torrent@),
            !block_faults(old(self).world(*old(common)), old(common).torrent@, msg_length as nat),
        ensures
            final(common).wf(),
            final(self).wf(final(common).torrent@),
            final(common).torrent == old(common).torrent,
            final(self).world(*final(common)) == block_kept(
                old(self).world(*old(common)),
                old(common).torrent@,
                msg_length as nat,
            ),
            r == piece_complete(final(self)@),
    {
        let ghost w = self.world(*common);
        let ghost t = common.torrent@;
        let ghost payload = msg_length as nat;
        let old_buf = self.replace_buf(msg_length);
        let reader = slice_subrange(ring_window(&old_buf), 0, msg_length);
        let block = Self::buffer_of(slice_subrange(reader, 8, msg_length));
        let block_info = BlockInfo {
            piece_index: PieceIndex(first_u32(reader)),
            offset: first_u32(slice_subrange(reader, 4, msg_length)),
            length: (msg_length - 8) as u32,
        };
        assert(block_info == incoming_block(w, payload));
        assert(block_bytes(block) =~= incoming_data(w, payload));
        let mut piece = match self.current_piece_blocks.take() {
            Some(piece) => piece,
            None => {
                assert(t.has_length(block_info.piece_index));
                PieceData::new(block_info.piece_index, common.torrent)
            },
        };
        assert(piece@ == piece_for(w, t, block_info.piece_index));
        if block_info.piece_index == piece.piece_index() {
            piece.add_block(block_info, block);
        } else {
            self.next_piece_blocks.push((block_info, block));
            assert(self@.next_blocks =~= w.conn.next_blocks.push(
                (block_info, block_bytes(block)),
            ));
        }
        common.bytes_downloaded = common.bytes_downloaded + block_info.length as u64;
        let complete = piece.is_complete();
        self.current_piece_blocks = Some(piece);
        complete
    }

    pub fn handle_incoming_block(&mut self, msg_length: usize, common: &mut CommonInfo<'_>) -> (r:
        PeerMsgResult)
        requires
            old(common).wf(),
            old(self).wf(old(common).torrent@),
            !block_faults(old(self).world(*old(common)), old(common).torrent@, msg_length as nat),
        ensures
            final(common).wf(),
            final(self).wf(final(common).torrent@),
            final(common).torrent == old(common).torrent,
            exists|pick: Option<PieceIndex>| #[trigger]
                pick_is_legal(
                    old(self).world(*old(common)),
                    old(common).torrent@,
                    7,
                    msg_length as nat,
                    pick,
                ) && (final(self).world(*final(common)), r) == on_block(
                    old(self).world(*old(common)),
                    old(common).torrent@,
                    msg_length as nat,
                    pick,
                ),
    {
        let ghost w = self.world(*common);
        let ghost t = common.torrent@;
        let ghost payload = msg_length as nat;
        let piece_complete = self.keep_block(msg_length, common);
        if piece_complete {
            match self.handle_completed_piece(common) {
                Ok(()) => {},
                Err(e) => {
                    assert(pick_is_legal(w, t, 7, payload, None));
                    return Err(e);
                },
            }
        }
        let picked = self.ask_on(common);
        assert(pick_is_legal(w, t, 7, payload, picked));
        Ok(())
    }

    // -----------------------------------------------------------------------
    // Messages without an answer
    // -----------------------------------------------------------------------

    fn bitfield_has_no_answer(&self, payload: usize, common: &CommonInfo<'_>) -> (r: bool)
        requires
            common.wf(),
            self.wf(common.torrent@),
        ensures
            r == bitfield_faults(self.world(*common), common.torrent@, payload as nat),
    {
        let ghost w = self.world(*common);
        let ghost t = common.torrent@;
        let ghost named = named_pieces(w, payload as nat);
        let piece_count = common.torrent.piece_count();
        let window = ring_window(&self.recv_buf);
        if window.len() < payload {
            return true;
        }
        let bitfield_byte_length: usize = ((piece_count + 7) / 8) as usize;
        if bitfield_byte_length != payload {
            return false;
        }
        let bitfield = slice_subrange(window, 0, payload);
        assert(bitfield@ =~= w.window().take(payload as int));
        let end: usize = payload * 8;
        let mut set: u64 = 0;
        let mut n: usize = 0;
        assert(named.take(0) =~= Seq::empty());
        while n < end
            invariant
                n <= end,
                end == payload * 8,
                end <= u32::MAX,
                bitfield@.len() == payload,
                named == unpacked(bitfield@),
                piece_count == t.piece_count(),
                named == named_pieces(w, payload as nat),
                w == self.world(*common),
                t == common.torrent@,
                bitfield_length(t) == payload,
                set <= n,
                set == number_set(named.take(n as int)),
                forall|i: int| t.piece_count() <= i < n ==> !(#[trigger] named[i]),
            decreases end - n,
        {
            let byte = bitfield[n / 8];
            let bit: u8 = (n % 8) as u8;
            let has_piece = bit_of(byte, bit);
            proof {
                assert(has_piece == named[n as int]);
                let grown = named.take(n + 1);
                assert(grown.drop_last() =~= named.take(n as int));
                assert(grown.last() == named[n as int]);
            }
            if has_piece {
                if n >= piece_count as usize {
                    assert(named_pieces(w, payload as nat)[n as int]);
                    return true;
                }
                set = set + 1;
            }
            n = n + 1;
        }
        assert(named.take(n as int) =~= named);
        self.peers_pieces.count() as u64 + set > u32::MAX as u64
    }

    fn block_has_no_answer(&self, payload: usize, common: &CommonInfo<'_>) -> (r: bool)
        requires
            common.wf(),
            self.wf(common.torrent@),
        ensures
            r == block_faults(self.world(*common), common.torrent@, payload as nat),
    {
        let ghost w = self.world(*common);
        let ghost t = common.torrent@;
        let window = ring_window(&self.recv_buf);
        if window.len() < payload || payload < 8 {
            return true;
        }
        let reader = slice_subrange(window, 0, payload);
        let index = PieceIndex(first_u32(reader));
        let offset = first_u32(slice_subrange(reader, 4, payload));
        let length: u32 = (payload - 8) as u32;
        assert(incoming_block(w, payload as nat) == (BlockInfo {
            piece_index: index,
            offset,
            length,
        }));
        let room = common.bytes_downloaded <= u64::MAX - length as u64;
        let full = common.our_pieces.count() == u32::MAX;
        let data = slice_subrange(reader, 8, payload);
        assert(data@ =~= incoming_data(w, payload as nat));
        match &self.current_piece_blocks {
            Some(piece) => {
                if index == piece.piece_index() {
                    !piece.accepts(offset) || !room || (piece.lacks_one() && (
                    self.next_piece_blocks.len() > 0 || (full && piece.matches_with(
                        offset,
                        data,
                        common.torrent,
                    ))))
                } else {
                    !room || piece.is_complete()
                }
            },
            None => {
                if index.0 >= common.torrent.piece_count() {
                    return true;
                }
                assert(t.has_length(index));
                if common.torrent.get_piece_length(index) > u32::MAX - (BLOCK_SIZE - 1) {
                    return true;
                }
                let piece = PieceData::new(index, common.torrent);
                !piece.accepts(offset) || !room || (piece.lacks_one() && (
                self.next_piece_blocks.len() > 0 || (full && piece.matches_with(
                    offset,
                    data,
                    common.torrent,
                ))))
            },
        }
    }

    /// Whether the protocol has no answer to a message, whose first five bytes
    /// have been read.
    pub fn has_no_answer(&self, kind: u8, payload: usize, common: &CommonInfo<'_>) -> (r: bool)
        requires
            common.wf(),
            self.wf(common.torrent@),
        ensures
            r == faults(self.world(*common), common.torrent@, kind, payload as nat),
    {
        let window = ring_window(&self.recv_buf);
        if kind == 4 {
            if window.len() < 4 {
                return true;
            }
            first_u32(window) < common.torrent.piece_count() && self.peers_pieces.count()
                == u32::MAX
        } else if kind == 5 {
            self.bitfield_has_no_answer(payload, common)
        } else if kind == 6 {
            if window.len() < 12 {
                return true;
            }
            let block = self.read_block_info();
            if block.piece_index.0 == common.torrent.piece_count() {
                return true;
            }
            self.blocks_requested_by_peer == u8::MAX && Self::judge_request(common, block).is_ok()
        } else if kind == 7 {
            self.block_has_no_answer(payload, common)
        } else if kind == 8 {
            window.len() < 12
        } else {
            false
        }
    }

    // -----------------------------------------------------------------------
    // All messages
    // -----------------------------------------------------------------------

    /// Deals with a message, whose first five bytes have been read.
    pub fn handle_message(
        &mut self,
        kind: u8,
        payload: usize,
        common: &mut CommonInfo<'_>,
    ) -> (r: PeerMsgResult)
        requires
            old(common).wf(),
            old(self).wf(old(common).torrent@),
            !faults(old(self).world(*old(common)), old(common).torrent@, kind, payload as nat),
        ensures
            final(common).wf(),
            final(self).wf(final(common).torrent@),
            final(common).torrent == old(common).torrent,
            exists|pick: Option<PieceIndex>| #[trigger]
                pick_is_legal(
                    old(self).world(*old(common)),
                    old(common).torrent@,
                    kind,
                    payload as nat,
                    pick,
                ) && (final(self).world(*final(common)), r) == on_message(
                    old(self).world(*old(common)),
                    old(common).torrent@,
                    kind,
                    payload as nat,
                    pick,
                ),
    {
        let ghost w = self.world(*common);
        let ghost t = common.torrent@;
        proof {
            if kind != 1 && kind != 5 && kind != 7 {
                assert(pick_is_legal(w, t, kind, payload as nat, None));
            }
        }
        if kind == 0 {
            self.handle_choke(common)
        } else if kind == 1 {
            let r = self.handle_unchoke(common);
            proof {
                let pick = choose|pick: Option<PieceIndex>| #[trigger]
                    pick_is_legal(w, t, 1, 0, pick) && (self.world(*common), r) == on_unchoke(
                        w,
                        t,
                        pick,
                    );
                assert(pick_is_legal(w, t, kind, payload as nat, pick));
            }
            r
        } else if kind == 2 {
            self.conn_state.peer_interested = true;
            Ok(())
        } else if kind == 3 {
            self.conn_state.peer_interested = false;
            Ok(())
        } else if kind == 4 {
            self.handle_have(common)
        } else if kind == 5 {
            self.handle_bitfield(payload, common)
        } else if kind == 6 {
            self.handle_request(common)
        } else if kind == 7 {
            self.handle_incoming_block(payload, common)
        } else if kind == 8 {
            self.cancel_block(common);
            Ok(())
        } else {
            Ok(())
        }
    }

    /// What stands at the beginning of the receive buffer: `None` if there is
    /// no whole message, or else how long it is.
    fn next_message(&self) -> (r: Option<usize>)
        requires
            self@.recv.wf(),
        ensures
            match r {
                None => incoming(self@.recv) is Wait,
                Some(length) => {
                    &&& !(incoming(self@.recv) is Wait)
                    &&& self@.recv.window().len() >= 4
                    &&& length == u32_at(self@.recv.window(), 0)
                    &&& length + 4 <= self@.recv.unread.len()
                },
            },
    {
        let unread = ring_len(&self.recv_buf);
        let window = ring_window(&self.recv_buf);
        if window.len() < 4 {
            return None;
        }
        let length = first_u32(window);
        if length as u64 + 4 > unread as u64 {
            return None;
        }
        Some(length as usize)
    }

    /// Deals with all whole messages in the receive buffer, and puts the
    /// answers into the send buffer.
    pub fn handle_messages(&mut self, common: &mut CommonInfo<'_>) -> (r: Outcome)
        requires
            old(common).wf(),
            old(self).wf(old(common).torrent@),
        ensures
            final(common).wf(),
            final(self).wf(final(common).torrent@),
            final(common).torrent == old(common).torrent,
            messages_lead_to(
                old(common).torrent@,
                old(self).world(*old(common)),
                final(self).world(*final(common)),
                r,
            ),
    {
        let ghost t = common.torrent@;
        let ghost start = self.world(*common);
        let ghost mut picks: Seq<Option<PieceIndex>> = Seq::empty();
        let ghost none: Seq<Option<PieceIndex>> = Seq::empty();
        proof {
            assert forall|rest: Seq<Option<PieceIndex>>, end: World, ended: Ended| #[trigger]
                leads_to(t, start, rest, end, ended) implies leads_to(
                t,
                start,
                picks + rest,
                end,
                ended,
            ) by {
                assert(picks + rest =~= rest);
            }
        }
        loop
            invariant
                t == old(common).torrent@,
                start == old(self).world(*old(common)),
                none == Seq::<Option<PieceIndex>>::empty(),
                common.torrent == old(common).torrent,
                common.wf(),
                self.wf(t),
                forall|rest: Seq<Option<PieceIndex>>, end: World, ended: Ended| #[trigger]
                    leads_to(t, self.world(*common), rest, end, ended) ==> leads_to(
                        t,
                        start,
                        picks + rest,
                        end,
                        ended,
                    ),
            decreases self@.recv.unread.len(),
        {
            let ghost w = self.world(*common);
            let msg_length = match self.next_message() {
                Some(length) => length,
                None => {
                    proof {
                        lemma_drained(t, w);
                    }
                    return if self.append_queued_messages() {
                        Outcome::Done
                    } else {
                        Outcome::Fault
                    };
                },
            };
            proof {
                lemma_advanced(w.conn.recv, 4);
                lemma_advanced(w.conn.recv, 5);
            }
            if msg_length == 0 {
                ring_advance(&mut self.recv_buf, 4);
                proof {
                    assert(self.world(*common) == w.past(4));
                    assert forall|
                        rest: Seq<Option<PieceIndex>>,
                        end: World,
                        ended: Ended,
                    | #[trigger] leads_to(t, w.past(4), rest, end, ended) implies leads_to(
                        t,
                        start,
                        picks + rest,
                        end,
                        ended,
                    ) by {
                        lemma_after_keep_alive(t, w, rest, end, ended);
                    }
                }
            } else {
                let window = ring_window(&self.recv_buf);
                if window.len() < 5 {
                    proof {
                        lemma_unreadable(t, w);
                    }
                    return Outcome::Fault;
                }
                let kind = window[4];
                let payload: usize = msg_length - 1;
                ring_advance(&mut self.recv_buf, 5);
                let ghost open = w.past(5);
                assert(self.world(*common) == open);
                if self.has_no_answer(kind, payload, common) {
                    proof {
                        lemma_faulty(t, w, kind, payload as nat);
                    }
                    return Outcome::Fault;
                }
                let result = self.handle_message(kind, payload, common);
                let ghost pick = choose|pick: Option<PieceIndex>| #[trigger]
                    pick_is_legal(open, t, kind, payload as nat, pick) && (
                        self.world(*common),
                        result,
                    ) == on_message(open, t, kind, payload as nat, pick);
                let ghost next = self.world(*common);
                match result {
                    Err(e) => {
                        proof {
                            lemma_rejected(t, w, kind, payload as nat, pick, e);
                        }
                        return Outcome::Rejected(e);
                    },
                    Ok(()) => {},
                }
                proof {
                    lemma_message_shrinks(t, w, kind, payload as nat, pick);
                    lemma_advanced(next.conn.recv, payload as nat);
                }
                if kind != 7 {
                    ring_advance(&mut self.recv_buf, payload);
                }
                proof {
                    let after = consumed(next, kind, payload as nat);
                    assert(self.world(*common) == after);
                    assert forall|
                        rest: Seq<Option<PieceIndex>>,
                        end: World,
                        ended: Ended,
                    | #[trigger] leads_to(t, after, rest, end, ended) implies leads_to(
                        t,
                        start,
                        picks.push(pick) + rest,
                        end,
                        ended,
                    ) by {
                        lemma_after_message(t, w, kind, payload as nat, pick, rest, end, ended);
                        assert(picks + (seq![pick] + rest) =~= picks.push(pick) + rest);
                    }
                    picks = picks.push(pick);
                }
            }
        }
    }

    /// Writes all queued messages to the send buffer, if there is room for all
    /// of them, and says whether there was.
    pub fn append_queued_messages(&mut self) -> (r: bool)
        ensures
            r == old(self)@.fits(),
            final(self)@ == if r {
                old(self)@.flushed()
            } else {
                old(self)@
            },
            forall|t: TorrentView| old(self).wf(t) ==> final(self).wf(t),
    {
        let mut bytes: Vec<u8> = Vec::new();
        let mut i: usize = 0;
        assert(self.outgoing_msgs@.take(0) =~= Seq::empty());
        while i < self.outgoing_msgs.len()
            invariant
                *self == *old(self),
                i <= self.outgoing_msgs@.len(),
                bytes@ == encoded_all(self.outgoing_msgs@.take(i as int)),
            decreases self.outgoing_msgs@.len() - i,
        {
            let msg = self.outgoing_msgs[i];
            proof {
                let grown = self.outgoing_msgs@.take(i + 1);
                assert(grown.drop_last() =~= self.outgoing_msgs@.take(i as int));
                assert(grown.last() == msg);
            }
            msg.serialise(&mut bytes);
            i = i + 1;
        }
        assert(self.outgoing_msgs@.take(i as int) =~= self.outgoing_msgs@);
        if bytes.len() > ring_free(&self.send_buf) {
            return false;
        }
        let _ = ring_write(&mut self.send_buf, bytes.as_slice());
        self.outgoing_msgs.clear();
        true
    }

    // -----------------------------------------------------------------------
    // Reading
    // -----------------------------------------------------------------------

    /// How many bytes can be taken in.
    pub fn recv_space(&self) -> (r: usize)
        ensures
            r == self@.recv.free(),
    {
        ring_free(&self.recv_buf)
    }

    /// Takes in what was read from the socket, as far as there is room.
    pub fn receive(&mut self, data: &[u8])
        ensures
            final(self)@ == (ConnView { recv: old(self)@.recv.written(data@), ..old(self)@ }),
            forall|t: TorrentView| old(self).wf(t) ==> final(self).wf(t),
    {
        let _ = ring_write(&mut self.recv_buf, data);
    }

    /// The number in front of a message.
    pub fn read_message_length(&self) -> (r: u32)
        requires
            self@.recv.capacity > 0,
            self@.recv.window().len() >= 4,
        ensures
            r == u32_at(self@.recv.window(), 0),
    {
        first_u32(ring_window(&self.recv_buf))
    }

    /// Whether a whole message is there; `None` if there is no telling.
    pub fn read_message(&self) -> (r: Option<bool>)
        requires
            self@.recv.capacity > 0,
        ensures
            r == message_ready(self@.recv),
    {
        let unread = ring_len(&self.recv_buf);
        if unread < 4 {
            return Some(false);
        }
        if ring_window(&self.recv_buf).len() < 4 {
            return None;
        }
        let msg_length = self.read_message_length();
        Some(unread as u64 >= msg_length as u64 + 4)
    }

    /// Takes in what was read from the socket, and deals with the messages that
    /// are whole.
    pub fn read(&mut self, data: &[u8], common: &mut CommonInfo<'_>) -> (r: Outcome)
        requires
            old(common).wf(),
            old(self).wf(old(common).torrent@),
        ensures
            final(common).wf(),
            final(self).wf(final(common).torrent@),
            final(common).torrent == old(common).torrent,
            reading_leads_to(
                old(common).torrent@,
                old(self).world(*old(common)),
                data@,
                final(self).world(*final(common)),
                r,
            ),
    {
        self.receive(data);
        match self.read_message() {
            None => Outcome::Fault,
            Some(ready) => {
                if ready {
                    self.handle_messages(common)
                } else {
                    Outcome::Waiting
                }
            },
        }
    }

    // -----------------------------------------------------------------------
    // Writing
    // -----------------------------------------------------------------------

    /// Whether something is in the send buffer.
    pub fn has_data_to_send(&self) -> (r: bool)
        ensures
            r == (self@.send.unread.len() > 0),
    {
        ring_len(&self.send_buf) > 0
    }

    /// Whether there is something to say: in the send buffer, or queued.
    pub fn wants_to_write(&self) -> (r: bool)
        ensures
            r == (self@.send.unread.len() > 0 || self@.msgs_out.len() > 0),
    {
        ring_len(&self.send_buf) > 0 || self.outgoing_msgs.len() > 0
    }

    /// What is to be offered to the socket.
    pub fn bytes_to_send(&self) -> (r: &[u8])
        requires
            self@.send.capacity > 0,
        ensures
            r@ == self@.send.window(),
    {
        ring_window(&self.send_buf)
    }

    /// Prepares for writing to the socket.
    pub fn begin_write(&mut self) -> (r: WriteStep)
        ensures
            (final(self)@, r) == before_write(old(self)@),
            forall|t: TorrentView| old(self).wf(t) ==> final(self).wf(t),
    {
        if !self.maybe_writable {
            return WriteStep::NotNow;
        }
        if ring_free(&self.send_buf) > APPEND_THRESHOLD {
            if !self.append_queued_messages() {
                return WriteStep::Fault;
            }
        }
        WriteStep::Ready
    }

    /// The socket has taken so many bytes, or none because it cannot now. If
    /// the counts cannot follow, nothing is done, and the answer is `false`.
    pub fn finish_write(&mut self, written: Option<usize>, common: &mut CommonInfo<'_>) -> (r: bool)
        requires
            old(common).wf(),
            old(self).wf(old(common).torrent@),
        ensures
            final(common).wf(),
            final(self).wf(final(common).torrent@),
            final(common).torrent == old(common).torrent,
            r == !write_faults(old(self).world(*old(common)), written),
            final(self).world(*final(common)) == if r {
                after_write(old(self).world(*old(common)), written)
            } else {
                old(self).world(*old(common))
            },
    {
        match written {
            None => {
                self.maybe_writable = false;
            },
            Some(n) => {
                if n as u64 > (u32::MAX - self.outgoing_buf_bytes_sent) as u64 {
                    return false;
                }
                let mut sent: Option<u16> = None;
                if let Some(block_length) = self.outgoing_block_length {
                    if n > block_length as usize {
                        if block_length < BLOCK_HEADER || common.bytes_uploaded > u64::MAX - (
                        block_length - BLOCK_HEADER) as u64 {
                            return false;
                        }
                        sent = Some(block_length);
                    }
                }
                ring_advance(&mut self.send_buf, n);
                self.outgoing_buf_bytes_sent = self.outgoing_buf_bytes_sent + n as u32;
                if let Some(block_length) = sent {
                    self.outgoing_block_length = None;
                    common.bytes_uploaded = common.bytes_uploaded + (block_length
                        - BLOCK_HEADER) as u64;
                }
            },
        }
        if ring_len(&self.send_buf) == 0 && self.outgoing_msgs.len() == 0 {
            self.try_replace_send_buf();
        }
        true
    }

    /// Puts a block that is to be sent in place of the send buffer, if there is
    /// one.
    pub fn try_replace_send_buf(&mut self)
        ensures
            final(self)@ == send_buf_replaced(old(self)@),
            forall|t: TorrentView| old(self).wf(t) ==> final(self).wf(t),
    {
        match self.outgoing_blocks.pop_back() {
            Some(block_buf) => {
                self.outgoing_buf_bytes_sent = 0;
                self.outgoing_block_length = Some(low_half(low_word(ring_len(&block_buf) as u64)));
                self.send_buf = block_buf;
                assert(self@.blocks_out =~= old(self)@.blocks_out.drop_last());
            },
            None => {},
        }
    }

    /// Tells the peer which pieces we have, if any. The answer is `false` if
    /// the send buffer has no room for that; nothing is done then.
    pub fn try_send_bitfield(&mut self, our_pieces: &PieceSet) -> (r: bool)
        requires
            our_pieces@.wf(),
        ensures
            r == (our_pieces@.count == 0 || bitfield_message(our_pieces@.bits).len() <= old(
                self,
            )@.send.free()),
            final(self)@ == if r && our_pieces@.count != 0 {
                ConnView {
                    send: old(self)@.send.written(bitfield_message(our_pieces@.bits)),
                    ..old(self)@
                }
            } else {
                old(self)@
            },
            forall|t: TorrentView| old(self).wf(t) ==> final(self).wf(t),
    {
        if our_pieces.is_empty() {
            return true;
        }
        let bytes = our_pieces.to_bytes();
        let mut message: Vec<u8> = Vec::new();
        push_u32(&mut message, 1 + bytes.len() as u32);
        message.push(5);
        message.extend_from_slice(bytes.as_slice());
        assert(message@ =~= bitfield_message(our_pieces@.bits));
        if message.len() > ring_free(&self.send_buf) {
            return false;
        }
        let _ = ring_write(&mut self.send_buf, message.as_slice());
        true
    }
}

proof fn lemma_number_set_prefix(bits: Seq<bool>, n: int)
    requires
        0 <= n <= bits.len(),
    ensures
        number_set(bits.take(n)) <= number_set(bits),
    decreases bits.len() - n,
{
    if n < bits.len() {
        lemma_number_set_prefix(bits, n + 1);
        assert(bits.take(n + 1).drop_last() =~= bits.take(n));
    } else {
        assert(bits.take(n) =~= bits);
    }
}

} // verus!
