//! What the event loop decides.
//!
//! Sockets are registered under tokens: the listening socket under the first,
//! connections that are shaking hands below [`FIRST_OPEN_TOKEN`], all others
//! from there on.
use vstd::prelude::*;
use vstd::slice::slice_subrange;

use crate::buffers::{ring, smaller, Ring};
use crate::chance::any_u8;
use crate::handshake::{handshake_result, HandshakeError, HandshakingConnection};
use crate::messages::PeerMsg;
use crate::peer::PeerInfo;
use crate::peer_protocol::{conn_start, CommonInfo, PeerConnection};
use crate::piece_set::{fills, Pieces};
use crate::protocol_model::{bitfield_message, CommonView, ConnView, World, SEND_BUF_SIZE};
use crate::torrent_info::TorrentView;
use crate::tracker::{Event, TrackerRequest};
use crate::types::{BlockFromDisk, BlockInfo, ConnectionId, PieceIndex, PieceReaderMessage, Token};

verus! {

/// The token of the listening socket.
pub const LISTENER_TOKEN: usize = 0;

/// The first token of a connection that is shaking hands.
pub const FIRST_NURSERY_TOKEN: usize = 2;

/// The first token of a connection that has shaken hands.
pub const FIRST_OPEN_TOKEN: usize = 1024;

/// How many connections of a kind there may be.
pub const MAX_CONNECTIONS: usize = 128;

/// How many peers are contacted at the beginning.
pub const INIT_PEER_CONN_LIMIT: usize = 40;

/// The port on which peers are awaited.
pub const LISTENING_PORT: u16 = 8765;

/// What is known of a socket that can be read.
#[derive(Clone, Copy, Debug, PartialEq, Eq, Structural)]
pub struct ReadHint {
    pub data: bool,
    pub hup: bool,
    pub error: bool,
}

/// What to do with a socket that can be read.
#[derive(Clone, Copy, Debug, PartialEq, Eq, Structural)]
pub enum ReadableAction {
    /// Accept a connection.
    Accept,
    Ignore,
    /// Give up a connection that was shaking hands.
    DropHandshake,
    /// Go on shaking hands.
    ReadHandshake,
    /// Give up a connection.
    CloseConnection,
    /// Read messages.
    ReadConnection,
}

/// What to do with a socket that can be read. Events come for connections that
/// have been given up, too; of those that were shaking hands they are ignored.
pub open spec fn readable_action(token: Token, hint: ReadHint, in_nursery: bool) -> ReadableAction {
    if token.0 == LISTENER_TOKEN {
        ReadableAction::Accept
    } else if token.0 < FIRST_OPEN_TOKEN {
        if !in_nursery {
            ReadableAction::Ignore
        } else if hint.error || hint.hup {
            ReadableAction::DropHandshake
        } else if hint.data {
            ReadableAction::ReadHandshake
        } else {
            ReadableAction::Ignore
        }
    } else if hint.hup || hint.error {
        ReadableAction::CloseConnection
    } else if hint.data {
        ReadableAction::ReadConnection
    } else {
        ReadableAction::Ignore
    }
}

/// A socket can be read.
pub fn on_readable(token: Token, hint: ReadHint, in_nursery: bool) -> (r: ReadableAction)
    ensures
        r == readable_action(token, hint, in_nursery),
{
    if token.0 == LISTENER_TOKEN {
        ReadableAction::Accept
    } else if token.0 < FIRST_OPEN_TOKEN {
        if !in_nursery {
            return ReadableAction::Ignore;
        }
        if hint.error || hint.hup {
            ReadableAction::DropHandshake
        } else if hint.data {
            ReadableAction::ReadHandshake
        } else {
            ReadableAction::Ignore
        }
    } else {
        if hint.hup || hint.error {
            ReadableAction::CloseConnection
        } else if hint.data {
            ReadableAction::ReadConnection
        } else {
            ReadableAction::Ignore
        }
    }
}

/// What to do with a socket that can be written to.
#[derive(Clone, Copy, Debug, PartialEq, Eq, Structural)]
pub enum WritableAction {
    Ignore,
    /// Go on shaking hands.
    WriteHandshake,
    /// Note that it can be written to, and write what there is to say.
    WriteConnection,
}

pub open spec fn writable_action(token: Token, in_nursery: bool, is_open: bool) -> WritableAction {
    if token.0 < FIRST_OPEN_TOKEN {
        if in_nursery {
            WritableAction::WriteHandshake
        } else {
            WritableAction::Ignore
        }
    } else if is_open {
        WritableAction::WriteConnection
    } else {
        WritableAction::Ignore
    }
}

/// A socket can be written to.
pub fn on_writable(token: Token, in_nursery: bool, is_open: bool) -> (r: WritableAction)
    ensures
        r == writable_action(token, in_nursery, is_open),
{
    if token.0 < FIRST_OPEN_TOKEN {
        if !in_nursery {
            return WritableAction::Ignore;
        }
        WritableAction::WriteHandshake
    } else {
        if is_open {
            WritableAction::WriteConnection
        } else {
            WritableAction::Ignore
        }
    }
}

impl PeerConnection {
    /// The socket can be written to. Says whether there is something to write.
    pub fn on_writable(&mut self) -> (r: bool)
        ensures
            final(self)@ == (ConnView { writable: true, ..old(self)@ }),
            forall|t: TorrentView| old(self).wf(t) ==> final(self).wf(t),
            r == (old(self)@.send.unread.len() > 0 || old(self)@.msgs_out.len() > 0),
    {
        self.maybe_writable = true;
        self.wants_to_write()
    }

    /// The connection has been given a token.
    pub fn set_token(&mut self, token: Token)
        ensures
            final(self)@ == (ConnView { token, ..old(self)@ }),
            forall|t: TorrentView| old(self).wf(t) ==> final(self).wf(t),
    {
        self.token = token;
    }
}

/// Numbers for connections. None is given out twice.
pub struct ConnectionIds {
    cur_conn_id: u32,
}

impl View for ConnectionIds {
    type V = int;

    /// The number that comes next.
    closed spec fn view(&self) -> int {
        self.cur_conn_id as int
    }
}

impl ConnectionIds {
    pub fn new() -> (r: ConnectionIds)
        ensures
            r@ == 0,
    {
        ConnectionIds { cur_conn_id: 0 }
    }

    /// A number for a connection, as long as there is another one behind it.
    pub fn next_conn_id(&mut self) -> (r: Option<ConnectionId>)
        ensures
            match r {
                Some(id) => id.0 == old(self)@ && final(self)@ == old(self)@ + 1,
                None => old(self)@ == u32::MAX && final(self)@ == old(self)@,
            },
    {
        if self.cur_conn_id == u32::MAX {
            return None;
        }
        let conn_id = self.cur_conn_id;
        self.cur_conn_id = self.cur_conn_id + 1;
        Some(ConnectionId(conn_id))
    }
}

/// What has come of a finished handshake.
pub enum Migration {
    /// A connection. What we have is in its send buffer, if anything.
    Opened(PeerConnection),
    /// The peer wants something else.
    Refused(HandshakeError),
    /// What we have does not fit into the send buffer.
    Fault,
}

/// A connection as it is once hands have been shaken: the peer is told which
/// pieces we have, if we have any.
pub open spec fn opened(t: TorrentView, our_pieces: Pieces, id: ConnectionId) -> ConnView {
    let fresh = conn_start(t, id);
    if our_pieces.count == 0 {
        fresh
    } else {
        ConnView { send: fresh.send.written(bitfield_message(our_pieces.bits)), ..fresh }
    }
}

/// Makes a connection out of one that has shaken hands.
pub fn migrate_conn(
    handshake: HandshakingConnection,
    conn_id: ConnectionId,
    common: &CommonInfo<'_>,
) -> (r: Migration)
    requires
        common.wf(),
        handshake.wf(),
    ensures
        match handshake_result(handshake@.received, common.torrent@.info_hash) {
            Err(e) => r == Migration::Refused(e),
            Ok(()) => if common@.our_pieces.count > 0 && bitfield_message(
                common@.our_pieces.bits,
            ).len() > SEND_BUF_SIZE {
                r is Fault
            } else {
                r matches Migration::Opened(conn) && conn.wf(common.torrent@) && conn@ == opened(
                    common.torrent@,
                    common@.our_pieces,
                    conn_id,
                )
            },
        },
{
    match handshake.finish_handshake(common.torrent) {
        Ok(()) => {},
        Err(e) => {
            return Migration::Refused(e);
        },
    }
    let mut conn = PeerConnection::new(common.torrent, conn_id);
    if conn.try_send_bitfield(&common.our_pieces) {
        Migration::Opened(conn)
    } else {
        Migration::Fault
    }
}

/// What follows when a block has come from disk. If its connection is gone, the
/// block is forgotten; if it is the one that was expected next, it is sent; else
/// it has been cancelled.
pub open spec fn on_block_from_disk(
    w: World,
    receiver: ConnectionId,
    info: BlockInfo,
    data: Ring,
) -> World {
    let pending = w.common.pending;
    let rest = CommonView { pending: pending.drop_first(), ..w.common };
    if receiver != w.conn.id {
        if pending.len() > 0 && pending[0].0 == receiver {
            World { common: rest, ..w }
        } else {
            w
        }
    } else if pending.len() > 0 && pending[0] == (receiver, info) {
        World {
            conn: ConnView { blocks_out: w.conn.blocks_out.push(data), ..w.conn },
            common: rest,
        }
    } else {
        w
    }
}

/// A block has come from disk, for a connection that was, or still is, under
/// the token of `conn`.
pub fn notify(conn: &mut PeerConnection, common: &mut CommonInfo<'_>, msg: BlockFromDisk)
    requires
        old(common).wf(),
        old(conn).wf(old(common).torrent@),
    ensures
        final(common).wf(),
        final(conn).wf(final(common).torrent@),
        final(common).torrent == old(common).torrent,
        final(conn).world(*final(common)) == on_block_from_disk(
            old(conn).world(*old(common)),
            msg.receiver.id,
            msg.info,
            ring(msg.data),
        ),
{
    let first: Option<(ConnectionId, BlockInfo)> = if common.pending_disk_blocks.len() > 0 {
        Some(common.pending_disk_blocks[0])
    } else {
        None
    };
    if msg.receiver.id != conn.conn_id {
        if let Some((receiver_id, _)) = first {
            if receiver_id == msg.receiver.id {
                let _ = common.pending_disk_blocks.pop_front();
                assert(common@.pending =~= old(common)@.pending.drop_first());
            }
        }
        return ;
    }
    if let Some((receiver_id, info)) = first {
        if receiver_id == msg.receiver.id && info == msg.info {
            conn.add_outgoing_block(msg.data);
            let _ = common.pending_disk_blocks.pop_front();
            assert(common@.pending =~= old(common)@.pending.drop_first());
        }
    }
}

/// What the tracker is told about a piece that has been finished: nothing,
/// unless that was all.
pub fn completion_event(complete: bool) -> (r: Option<Event>)
    ensures
        r == if complete {
            Some(Event::Completed)
        } else {
            None
        },
{
    if complete {
        Some(Event::Completed)
    } else {
        None
    }
}

/// A piece has been finished. Gives what the tracker is to be told. Whether
/// that was all is decided as for `PieceSet::is_complete`.
pub fn on_finished_piece(common: &CommonInfo<'_>) -> (r: Option<Event>)
    ensures
        r == if fills(common@.our_pieces, common.our_pieces.room()) {
            Some(Event::Completed)
        } else {
            None
        },
        common.wf() && common@.our_pieces.count % 32 != 0 && common@.our_pieces.count != u32::MAX
            ==> r is None,
{
    completion_event(common.our_pieces.is_complete())
}

/// Every connection is to tell its peer of a piece that has been finished.
pub fn announce_finished_piece(conns: &mut Vec<PeerConnection>, piece_index: PieceIndex)
    ensures
        final(conns)@.len() == old(conns)@.len(),
        forall|i: int|
            #![trigger final(conns)@[i]]
            0 <= i < old(conns)@.len() ==> final(conns)@[i]@ == old(conns)@[i]@.enqueued(
                PeerMsg::Have(piece_index),
            ),
        forall|i: int, t: TorrentView|
            #![trigger final(conns)@[i].wf(t)]
            0 <= i < old(conns)@.len() && old(conns)@[i].wf(t) ==> final(conns)@[i].wf(t),
{
    let mut i: usize = 0;
    while i < conns.len()
        invariant
            i <= conns@.len(),
            conns@.len() == old(conns)@.len(),
            forall|k: int|
                0 <= k < i ==> (#[trigger] conns@[k])@ == old(conns)@[k]@.enqueued(
                    PeerMsg::Have(piece_index),
                ),
            forall|k: int| i <= k < conns@.len() ==> #[trigger] conns@[k] == old(conns)@[k],
            forall|k: int, t: TorrentView|
                0 <= k < i && old(conns)@[k].wf(t) ==> #[trigger] conns@[k].wf(t),
        decreases conns@.len() - i,
    {
        conns[i].notify_have(piece_index);
        i = i + 1;
    }
}

/// A connection is given up: the disk reader need not read for it any more.
pub fn close_connection(conn_id: ConnectionId, common: &mut CommonInfo<'_>)
    requires
        old(common).wf(),
    ensures
        final(common).wf(),
        final(common).torrent == old(common).torrent,
        final(common)@ == (CommonView {
            reader: old(common)@.reader.push(
                PieceReaderMessage::CancelRequestsForConnection(conn_id),
            ),
            ..old(common)@
        }),
{
    common.reader_messages.push(PieceReaderMessage::CancelRequestsForConnection(conn_id));
}

/// What the tracker is told.
pub fn make_tracker_request<'b>(
    common: &CommonInfo<'b>,
    own_peer_id: &'b [u8],
    event: Option<Event>,
) -> (r: TrackerRequest<'b>)
    requires
        common.torrent@.can_count(common@.our_pieces),
    ensures
        r.info_hash@ == common.torrent@.info_hash,
        r.peer_id@ == own_peer_id@,
        r.event == event,
        r.uploaded == common@.uploaded,
        r.downloaded == common@.downloaded,
        r.left == common.torrent@.total_size - common.torrent@.bytes_present(common@.our_pieces),
        r.port == LISTENING_PORT,
{
    TrackerRequest {
        info_hash: common.torrent.info_hash(),
        peer_id: own_peer_id,
        event,
        uploaded: common.bytes_uploaded,
        downloaded: common.bytes_downloaded,
        left: common.torrent.bytes_left_to_download(&common.our_pieces),
        port: LISTENING_PORT,
    }
}

/// The peers that are contacted at the beginning: the first of those that the
/// tracker names.
pub fn peers_to_contact(peers: &[PeerInfo]) -> (r: &[PeerInfo])
    ensures
        r@ == peers@.take(smaller(peers@.len() as int, INIT_PEER_CONN_LIMIT as int)),
{
    let count = if peers.len() <= INIT_PEER_CONN_LIMIT {
        peers.len()
    } else {
        INIT_PEER_CONN_LIMIT
    };
    slice_subrange(peers, 0, count)
}

/// A peer id that chance gives, byte by byte. Any twenty bytes can come of it,
/// so nothing is said of them.
pub fn new_peer_id() -> (r: [u8; 20])
{
    let mut id: [u8; 20] = [0u8; 20];
    let mut i: usize = 0;
    while i < 20
        invariant
            i <= 20,
        decreases 20 - i,
    {
        id[i] = any_u8();
        i = i + 1;
    }
    id
}

/// A block from disk is sent at most once: whatever comes, the queue of what is
/// expected never grows, and a block goes out only if it leaves the queue.
pub proof fn law_blocks_leave_queue(
    w: World,
    receiver: ConnectionId,
    info: BlockInfo,
    data: Ring,
)
    ensures
        ({
            let after = on_block_from_disk(w, receiver, info, data);
            &&& after.common.pending.len() <= w.common.pending.len()
            &&& after.conn.blocks_out.len() + after.common.pending.len()
                <= w.conn.blocks_out.len() + w.common.pending.len()
            &&& after.conn.blocks_out != w.conn.blocks_out ==> w.common.pending.len() > 0
                && w.common.pending[0] == (w.conn.id, info)
        }),
{
}

} // verus!
