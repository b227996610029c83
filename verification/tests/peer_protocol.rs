use gearbox::event_handler::{announce_finished_piece, migrate_conn, notify, Migration};
use gearbox::handshake::{HandshakeError, HandshakingConnection};
use gearbox::messages::PeerMsg;
use gearbox::peer_protocol::{CommonInfo, PeerConnection};
use gearbox::piece_data::{CurrentPieceInfo, PieceData};
use gearbox::piece_set::PieceSet;
use gearbox::protocol_model::{HandlerAction, MsgError, Outcome, WriteStep};
use gearbox::torrent_info::{FileInfo, TorrentInfo};
use gearbox::types::{
    BlockFromDisk, BlockInfo, BlockReceiver, BlockRequest, ConnectionId, PieceIndex,
    PieceReaderMessage, Stats, Token,
};

const SHA1_OF_ABC: [u8; 20] = [
    0xa9, 0x99, 0x3e, 0x36, 0x47, 0x06, 0x81, 0x6a, 0xba, 0x3e, 0x25, 0x71, 0x78, 0x50, 0xc2, 0x6c,
    0x9c, 0xd0, 0xd8, 0x9d,
];

fn dummy_torrent() -> TorrentInfo {
    let dummy_file = FileInfo { path: vec!["abcd".to_string()], length: 512 * 1024 * 1024 };
    let piece_size = 1024 * 256;
    let piece_count = dummy_file.length / piece_size;
    let piece_hashes = vec![0u8; piece_count as usize * 20];
    TorrentInfo::new(
        "dummy_name".to_string(),
        piece_size as u32,
        piece_hashes,
        vec![dummy_file],
        b"",
    )
    .unwrap()
}

/// Pieces of three bytes, all of which should be `abc`.
fn abc_torrent(pieces: usize) -> TorrentInfo {
    let mut hashes = Vec::new();
    for _ in 0..pieces {
        hashes.extend_from_slice(&SHA1_OF_ABC);
    }
    let file = FileInfo { path: vec!["abc".to_string()], length: 3 * pieces as u64 };
    TorrentInfo::new("abc".to_string(), 3, hashes, vec![file], b"").unwrap()
}

fn mk_common_info(torrent: &TorrentInfo) -> CommonInfo<'_> {
    let our_pieces = PieceSet::new_empty(torrent);
    CommonInfo::new(torrent, our_pieces)
}

fn mk_peer_conn(torrent: &TorrentInfo) -> PeerConnection {
    PeerConnection::new(torrent, ConnectionId(1))
}

fn message(kind: u8, payload: &[u8]) -> Vec<u8> {
    let mut msg = ((1 + payload.len()) as u32).to_be_bytes().to_vec();
    msg.push(kind);
    msg.extend_from_slice(payload);
    msg
}

fn numbers(ns: &[u32]) -> Vec<u8> {
    let mut out = Vec::new();
    for n in ns {
        out.extend_from_slice(&n.to_be_bytes());
    }
    out
}

fn block(index: u32, offset: u32, data: &[u8]) -> Vec<u8> {
    let mut payload = numbers(&[index, offset]);
    payload.extend_from_slice(data);
    message(7, &payload)
}

fn info(index: u32, offset: u32, length: u32) -> BlockInfo {
    BlockInfo { piece_index: PieceIndex(index), offset, length }
}

/// What the connection has to say, which the socket is taken to swallow.
fn drain(conn: &mut PeerConnection, common: &mut CommonInfo<'_>) -> Vec<u8> {
    let mut said = Vec::new();
    while conn.has_data_to_send() {
        assert_eq!(conn.begin_write(), WriteStep::Ready);
        let bytes = conn.bytes_to_send().to_vec();
        said.extend_from_slice(&bytes);
        assert!(conn.finish_write(Some(bytes.len()), common));
    }
    said
}

#[test]
fn test_handshake() {
    let torrent = dummy_torrent();
    let our_id = [42; 20];
    let peer_id = [23; 20];
    let mut hs_conn = HandshakingConnection::new(&torrent, &our_id);
    assert!(!hs_conn.handshake_finished());
    let mut peer_handshake = Vec::new();
    peer_handshake
        .extend_from_slice(b"\x13BitTorrent protocol\x00\x00\x00\x00\x00\x00\x00\x00");
    peer_handshake.extend_from_slice(torrent.info_hash());
    peer_handshake.extend_from_slice(&peer_id);
    assert_eq!(hs_conn.bytes_missing(), peer_handshake.len());

    hs_conn.receive(&peer_handshake);
    assert!(!hs_conn.handshake_finished());
    let buf = hs_conn.bytes_to_send().to_vec();
    hs_conn.sent(buf.len());
    assert!(hs_conn.handshake_finished());
    assert_eq!(buf.len(), 68);
    assert_eq!(&buf[..28], b"\x13BitTorrent protocol\x00\x00\x00\x00\x00\x00\x00\x00");
    assert_eq!(&buf[28..48], torrent.info_hash());
    assert_eq!(&buf[48..], &our_id);
}

#[test]
fn test_bitfield_handling() {
    let torrent = dummy_torrent();
    let mut peer_conn = mk_peer_conn(&torrent);

    let mut peers_piece_set = PieceSet::new_empty(&torrent);
    let mut common = mk_common_info(&torrent);
    peers_piece_set.set_true(PieceIndex(3));
    peers_piece_set.set_true(PieceIndex(23));
    peers_piece_set.set_true(PieceIndex(42));

    let bit_vec = peers_piece_set.to_bytes();
    let mut msg = Vec::new();
    let msg_length = 1 + bit_vec.len();

    msg.extend_from_slice(&(msg_length as u32).to_be_bytes());
    msg.push(5); // header byte for bitfield
    msg.extend_from_slice(&bit_vec[..]);
    assert_eq!(peer_conn.read(&msg, &mut common), Outcome::Done);
    assert!(!peer_conn.peers_pieces.index(PieceIndex(2)));
    assert!(!peer_conn.peers_pieces.index(PieceIndex(4)));
    assert!(peer_conn.peers_pieces.index(PieceIndex(3)));
    assert!(peer_conn.peers_pieces.index(PieceIndex(23)));
    assert!(peer_conn.peers_pieces.index(PieceIndex(42)));

    // we should be interested...
    assert!(peer_conn.conn_state.we_interested);
    // .. and should tell that (and nothing else) to the peer
    let buf = drain(&mut peer_conn, &mut common);
    assert_eq!(buf.len(), 5);
    assert_eq!(&buf[..5], [0, 0, 0, 1, 2]);
    // we shouldn't send requests, since we're choked
    assert!(peer_conn.outgoing_msgs.is_empty());
    // we also shouldn't have a currently downloading piece (same reason)
    assert!(peer_conn.currently_downloading_piece.is_none());
}

#[test]
fn test_serialise_peer_msg() {
    let mut buf = Vec::new();
    {
        let msg = PeerMsg::Interested;
        msg.serialise(&mut buf);
        let msg = PeerMsg::Have(PieceIndex(0));
        msg.serialise(&mut buf);
    }
    let written = &buf[..];
    assert_eq!(&written[..5], [0, 0, 0, 1, 2]);
    assert_eq!(&written[5..5 + 9], [0, 0, 0, 5, 4, 0, 0, 0, 0]);
}

#[test]
fn test_multiple_packed_msgs() {
    let torrent = dummy_torrent();
    let mut peer_conn = mk_peer_conn(&torrent);
    let mut common = mk_common_info(&torrent);
    let mut outgoing_buf = Vec::new();
    PeerMsg::Have(PieceIndex(23)).serialise(&mut outgoing_buf);
    peer_conn.read(&outgoing_buf, &mut common);
    assert!(peer_conn.peers_pieces.index(PieceIndex(23)));
    peer_conn.peers_pieces.set_false(PieceIndex(23));

    outgoing_buf.clear();
    PeerMsg::Interested.serialise(&mut outgoing_buf);
    PeerMsg::Have(PieceIndex(42)).serialise(&mut outgoing_buf);
    peer_conn.read(&outgoing_buf, &mut common);
    // make sure the first message hasn't been handled twice
    assert!(!peer_conn.peers_pieces.index(PieceIndex(23)));
    assert!(peer_conn.peers_pieces.index(PieceIndex(42)));
    assert!(peer_conn.conn_state.peer_interested);
}

#[test]
fn all_messages_are_serialised() {
    let text = |msg: PeerMsg| {
        let mut out = Vec::new();
        msg.serialise(&mut out);
        out
    };
    assert_eq!(text(PeerMsg::Choke), [0, 0, 0, 1, 0]);
    assert_eq!(text(PeerMsg::Unchoke), [0, 0, 0, 1, 1]);
    assert_eq!(text(PeerMsg::NotInterested), [0, 0, 0, 1, 3]);
    assert_eq!(text(PeerMsg::Have(PieceIndex(0x01020304))), [0, 0, 0, 5, 4, 1, 2, 3, 4]);
    assert_eq!(
        text(PeerMsg::Request(info(1, 0x4000, 258))),
        [0, 0, 0, 13, 6, 0, 0, 0, 1, 0, 0, 0x40, 0, 0, 0, 1, 2]
    );
}

#[test]
fn handshakes_for_other_torrents_are_refused() {
    let torrent = dummy_torrent();
    let mut good = HandshakingConnection::new(&torrent, &[1; 20]).bytes_to_send().to_vec();
    assert_eq!(HandshakingConnection::verify_handshake(&good, &torrent), Ok(()));
    good[30] ^= 1;
    assert_eq!(
        HandshakingConnection::verify_handshake(&good, &torrent),
        Err(HandshakeError::BadInfoHash)
    );
    good[3] ^= 1;
    assert_eq!(
        HandshakingConnection::verify_handshake(&good, &torrent),
        Err(HandshakeError::BadProtocolHeader)
    );
    // flags do not matter
    let mut flagged = HandshakingConnection::new(&torrent, &[1; 20]).bytes_to_send().to_vec();
    flagged[25] = 0x10;
    assert_eq!(HandshakingConnection::verify_handshake(&flagged, &torrent), Ok(()));
}

#[test]
fn handshakes_come_in_pieces() {
    let torrent = dummy_torrent();
    let theirs = HandshakingConnection::new(&torrent, &[9; 20]).bytes_to_send().to_vec();
    let mut conn = HandshakingConnection::new(&torrent, &[1; 20]);
    conn.receive(&theirs[..10]);
    assert_eq!(conn.bytes_missing(), 58);
    conn.sent(60);
    assert_eq!(conn.bytes_to_send().len(), 8);
    conn.receive(&theirs[10..]);
    assert!(!conn.handshake_finished());
    conn.sent(8);
    assert!(conn.handshake_finished());
    assert!(!conn.has_data_to_send());
    assert_eq!(conn.finish_handshake(&torrent), Ok(()));
}

#[test]
fn a_finished_handshake_opens_a_connection() {
    let torrent = abc_torrent(10);
    let mut our_pieces = PieceSet::new_empty(&torrent);
    our_pieces.set_true(PieceIndex(1));
    our_pieces.set_true(PieceIndex(8));
    let common = CommonInfo::new(&torrent, our_pieces);
    let theirs = HandshakingConnection::new(&torrent, &[9; 20]).bytes_to_send().to_vec();
    let mut conn = HandshakingConnection::new(&torrent, &[1; 20]);
    conn.receive(&theirs);
    match migrate_conn(conn, ConnectionId(7), &common) {
        Migration::Opened(conn) => {
            assert_eq!(conn.conn_id, ConnectionId(7));
            assert_eq!(conn.bytes_to_send(), [0, 0, 0, 3, 5, 0b0100_0000, 0b1000_0000]);
        }
        _ => panic!("not opened"),
    }
    let mut conn = HandshakingConnection::new(&torrent, &[1; 20]);
    conn.receive(&[0; 68]);
    match migrate_conn(conn, ConnectionId(8), &common) {
        Migration::Refused(e) => assert_eq!(e, HandshakeError::BadProtocolHeader),
        _ => panic!("not refused"),
    }
}

#[test]
fn a_piece_is_downloaded() {
    let torrent = abc_torrent(1);
    let mut conn = mk_peer_conn(&torrent);
    let mut common = mk_common_info(&torrent);
    assert_eq!(
        common.current_stats(),
        Stats { downloaded: 0, uploaded: 0, remaining: 3 }
    );

    // the peer has the piece: we are interested
    assert_eq!(conn.read(&message(4, &numbers(&[0])), &mut common), Outcome::Done);
    assert_eq!(drain(&mut conn, &mut common), message(2, &[]));

    // we are unchoked: we ask for the one block
    assert_eq!(conn.read(&message(1, &[]), &mut common), Outcome::Done);
    assert_eq!(drain(&mut conn, &mut common), message(6, &numbers(&[0, 0, 3])));
    assert_eq!(
        conn.currently_downloading_piece,
        Some(CurrentPieceInfo { index: PieceIndex(0), requested_up_to: 3, length: 3 })
    );
    assert!(!common.pieces_to_download.index(PieceIndex(0)));

    // the block comes: the piece is ours, and we want nothing more
    assert_eq!(conn.read(&block(0, 0, b"abc"), &mut common), Outcome::Done);
    assert_eq!(drain(&mut conn, &mut common), message(3, &[]));
    assert!(common.our_pieces.index(PieceIndex(0)));
    assert_eq!(common.take_handler_action(), Some(HandlerAction::FinishedPiece(PieceIndex(0))));
    assert_eq!(common.take_handler_action(), None);
    let pieces = common.take_finished_pieces();
    assert_eq!(pieces.len(), 1);
    assert_eq!(pieces[0].join(), b"abc");
    assert_eq!(pieces[0].piece_index(), PieceIndex(0));
    assert!(conn.current_piece_blocks.is_none());
    assert!(!conn.conn_state.we_interested);
    assert_eq!(
        common.current_stats(),
        Stats { downloaded: 3, uploaded: 0, remaining: 0 }
    );
}

#[test]
fn begun_pieces_are_no_longer_wanted() {
    let torrent = abc_torrent(2);
    let mut conn = mk_peer_conn(&torrent);
    let mut common = mk_common_info(&torrent);
    assert!(common.pieces_to_download.index(PieceIndex(0)));
    assert!(common.pieces_to_download.index(PieceIndex(1)));
    assert_eq!(conn.read(&message(1, &[]), &mut common), Outcome::Done);
    assert_eq!(conn.read(&message(4, &numbers(&[1])), &mut common), Outcome::Done);
    assert_eq!(
        drain(&mut conn, &mut common),
        [message(2, &[]), message(6, &numbers(&[1, 0, 3]))].concat()
    );
    assert!(!common.pieces_to_download.index(PieceIndex(1)));
    assert!(common.pieces_to_download.index(PieceIndex(0)));
    assert_eq!(common.pieces_to_download.count(), 1);
    // once it is there, there is nothing more to ask this peer for
    assert_eq!(conn.read(&block(1, 0, b"abc"), &mut common), Outcome::Done);
    assert!(common.our_pieces.index(PieceIndex(1)));
    assert!(conn.currently_downloading_piece.is_none());
    assert_eq!(drain(&mut conn, &mut common), message(3, &[]));
    // a piece that another connection is downloading is not begun again
    let mut other = mk_peer_conn(&torrent);
    assert_eq!(other.read(&message(1, &[]), &mut common), Outcome::Done);
    assert_eq!(other.read(&message(4, &numbers(&[1])), &mut common), Outcome::Done);
    assert!(other.currently_downloading_piece.is_none());
    assert_eq!(drain(&mut other, &mut common), Vec::<u8>::new());
}

#[test]
fn a_piece_with_a_bad_hash_is_refused() {
    let torrent = abc_torrent(2);
    let mut conn = mk_peer_conn(&torrent);
    let mut common = mk_common_info(&torrent);
    assert_eq!(
        conn.read(&block(1, 0, b"abd"), &mut common),
        Outcome::Rejected(MsgError::BadPieceHash)
    );
    assert!(!common.our_pieces.index(PieceIndex(1)));
    assert!(common.take_finished_pieces().is_empty());
    assert_eq!(common.bytes_downloaded, 3);
}

#[test]
fn blocks_take_what_follows_along() {
    let torrent = abc_torrent(3);
    let mut conn = mk_peer_conn(&torrent);
    let mut common = mk_common_info(&torrent);
    let mut bytes = block(0, 0, b"abc");
    bytes.extend_from_slice(&message(2, &[]));
    bytes.extend_from_slice(&[0, 0]);
    assert_eq!(conn.read(&bytes, &mut common), Outcome::Done);
    assert!(common.our_pieces.index(PieceIndex(0)));
    assert!(conn.conn_state.peer_interested);
    // the two bytes at the end begin the next message
    assert_eq!(conn.read(&[0, 1, 3], &mut common), Outcome::Done);
    assert!(!conn.conn_state.peer_interested);
}

#[test]
fn large_pieces_are_asked_for_in_blocks() {
    let torrent = dummy_torrent();
    let mut conn = mk_peer_conn(&torrent);
    let mut common = mk_common_info(&torrent);
    conn.read(&message(4, &numbers(&[7])), &mut common);
    conn.read(&message(1, &[]), &mut common);
    let said = drain(&mut conn, &mut common);
    let mut expected = message(2, &[]);
    for i in 0..3 {
        expected.extend_from_slice(&message(6, &numbers(&[7, i * 16384, 16384])));
    }
    assert_eq!(said, expected);
    // a block that has come is followed by a request for the next one
    assert_eq!(conn.read(&block(7, 0, &[0; 16384]), &mut common), Outcome::Done);
    assert_eq!(drain(&mut conn, &mut common), message(6, &numbers(&[7, 3 * 16384, 16384])));
    assert!(conn.current_piece_blocks.is_some());
    // a second block for the same place has no answer
    assert_eq!(conn.read(&block(7, 5, &[0; 4]), &mut common), Outcome::Fault);
}

#[test]
fn sets_need_not_count_right() {
    let torrent = abc_torrent(2);
    let mut pieces = PieceSet::new_empty(&torrent);
    pieces.set_true(PieceIndex(0));
    pieces.set_true(PieceIndex(0));
    let common = CommonInfo::new(&torrent, pieces);
    assert!(common.our_pieces.index(PieceIndex(0)));
    assert!(!common.pieces_to_download.index(PieceIndex(0)));
    assert!(common.pieces_to_download.index(PieceIndex(1)));
    assert_eq!(common.pieces_to_download.count(), 0);
}

#[test]
fn requests_partition_a_piece() {
    let mut current =
        CurrentPieceInfo { index: PieceIndex(4), requested_up_to: 0, length: 16384 * 2 + 5 };
    assert_eq!(current.next_block(), Some(info(4, 0, 16384)));
    assert_eq!(current.next_block(), Some(info(4, 16384, 16384)));
    assert_eq!(current.next_block(), Some(info(4, 32768, 5)));
    assert_eq!(current.next_block(), None);
    assert_eq!(current.requested_up_to, 16384 * 2 + 5);
}

#[test]
fn choking_is_noted() {
    let torrent = abc_torrent(1);
    let mut conn = mk_peer_conn(&torrent);
    let mut common = mk_common_info(&torrent);
    conn.read(&message(1, &[]), &mut common);
    assert!(!conn.conn_state.we_choked);
    conn.read(&message(0, &[]), &mut common);
    assert!(conn.conn_state.we_choked);
    conn.read(&message(2, &[]), &mut common);
    assert!(conn.conn_state.peer_interested);
    conn.read(&message(3, &[]), &mut common);
    assert!(!conn.conn_state.peer_interested);
}

#[test]
fn requests_are_judged() {
    let torrent = abc_torrent(3);
    let mut our_pieces = PieceSet::new_empty(&torrent);
    our_pieces.set_true(PieceIndex(1));
    let mut common = CommonInfo::new(&torrent, our_pieces);
    let mut ask = |index: u32, offset: u32, length: u32| {
        let mut conn = mk_peer_conn(&torrent);
        conn.conn_state.peer_choked = false;
        conn.read(&message(6, &numbers(&[index, offset, length])), &mut common)
    };
    assert_eq!(ask(1, 0, 3), Outcome::Done);
    assert_eq!(ask(1, 1, 2), Outcome::Done);
    assert_eq!(ask(4, 0, 3), Outcome::Rejected(MsgError::PieceIndexTooLarge));
    assert_eq!(ask(3, 0, 3), Outcome::Fault);
    assert_eq!(ask(0, 0, 3), Outcome::Rejected(MsgError::PieceNotAvailable));
    assert_eq!(ask(1, 0, 4), Outcome::Rejected(MsgError::RequestedBlockTooLong));
    assert_eq!(ask(1, 1, 3), Outcome::Rejected(MsgError::BadOffsetLengthCombination));
    let request = |offset, length| {
        PieceReaderMessage::Request(BlockRequest {
            block_info: info(1, offset, length),
            receiver: BlockReceiver { id: ConnectionId(1), token: Token(0) },
        })
    };
    assert_eq!(common.take_reader_messages(), vec![request(0, 3), request(1, 2)]);
    assert!(common.take_reader_messages().is_empty());
    assert_eq!(common.pending_disk_blocks.len(), 2);
}

#[test]
fn a_choked_peer_waits() {
    let torrent = abc_torrent(1);
    let mut common = CommonInfo::new(&torrent, PieceSet::new_empty(&torrent).inverse());
    let mut conn = mk_peer_conn(&torrent);
    assert_eq!(conn.read(&message(6, &numbers(&[0, 0, 3])), &mut common), Outcome::Done);
    assert_eq!(conn.peer_request_queue[0], info(0, 0, 3));
    assert!(common.take_reader_messages().is_empty());
    // so does one that has asked for enough
    conn.conn_state.peer_choked = false;
    conn.blocks_requested_by_peer = 8;
    assert_eq!(conn.read(&message(6, &numbers(&[0, 0, 1])), &mut common), Outcome::Done);
    assert_eq!(conn.peer_request_queue.len(), 2);
    assert_eq!(conn.blocks_requested_by_peer, 9);
    conn.blocks_requested_by_peer = 255;
    assert_eq!(conn.read(&message(6, &numbers(&[0, 0, 1])), &mut common), Outcome::Fault);
}

#[test]
fn cancels_are_passed_on() {
    let torrent = abc_torrent(1);
    let mut conn = mk_peer_conn(&torrent);
    let mut common = mk_common_info(&torrent);
    assert_eq!(conn.read(&message(8, &numbers(&[1, 2, 3])), &mut common), Outcome::Done);
    assert_eq!(
        common.take_reader_messages(),
        vec![PieceReaderMessage::CancelRequest(info(1, 2, 3), ConnectionId(1))]
    );
    assert_eq!(conn.recv_space(), 32768);
    assert_eq!(conn.read(&message(8, &numbers(&[1, 2])), &mut common), Outcome::Fault);
}

#[test]
fn bad_bitfields_and_indices_are_rejected() {
    let torrent = abc_torrent(10);
    let mut common = mk_common_info(&torrent);
    let mut conn = mk_peer_conn(&torrent);
    assert_eq!(
        conn.read(&message(5, &[0]), &mut common),
        Outcome::Rejected(MsgError::BadBitFieldLength)
    );
    let mut conn = mk_peer_conn(&torrent);
    assert_eq!(
        conn.read(&message(4, &numbers(&[10])), &mut common),
        Outcome::Rejected(MsgError::PieceIndexTooLarge)
    );
    // a bit behind the last piece
    let mut conn = mk_peer_conn(&torrent);
    assert_eq!(conn.read(&message(5, &[0, 0b0010_0000]), &mut common), Outcome::Fault);
    let mut conn = mk_peer_conn(&torrent);
    assert_eq!(conn.read(&message(5, &[0x80, 0b0100_0000]), &mut common), Outcome::Done);
    assert_eq!(conn.peers_pieces.count(), 2);
    assert!(conn.peers_pieces.index(PieceIndex(9)));
}

#[test]
fn messages_may_come_bit_by_bit() {
    let torrent = abc_torrent(1);
    let mut conn = mk_peer_conn(&torrent);
    let mut common = mk_common_info(&torrent);
    assert_eq!(conn.read(&[0, 0], &mut common), Outcome::Waiting);
    assert_eq!(conn.read(&[0, 1], &mut common), Outcome::Waiting);
    assert_eq!(conn.recv_space(), 32768 - 4);
    assert_eq!(conn.read(&[2], &mut common), Outcome::Done);
    assert!(conn.conn_state.peer_interested);
    assert_eq!(conn.recv_space(), 32768);
    // nothing to say, and messages that nobody knows
    assert_eq!(conn.read(&[0, 0, 0, 0], &mut common), Outcome::Done);
    assert_eq!(conn.read(&message(99, &[1, 2, 3]), &mut common), Outcome::Done);
    assert_eq!(conn.recv_space(), 32768);
    // a have without an index, a request without numbers, a block without a header
    assert_eq!(conn.read(&message(4, &[]), &mut common), Outcome::Fault);
    assert_eq!(conn.read(&message(6, &[]), &mut common), Outcome::Fault);
    let mut conn = mk_peer_conn(&torrent);
    assert_eq!(conn.read(&message(7, &[0, 0]), &mut common), Outcome::Fault);
    // a block of a piece that there is not
    let mut conn = mk_peer_conn(&torrent);
    assert_eq!(conn.read(&block(1, 0, b"abc"), &mut common), Outcome::Fault);
}

#[test]
fn blocks_go_out_after_messages() {
    let torrent = abc_torrent(1);
    let mut common = mk_common_info(&torrent);
    let mut conn = mk_peer_conn(&torrent);
    let receiver = BlockReceiver { id: ConnectionId(1), token: Token(0) };
    let mut data = bytes::RingBuf::new(16);
    bytes::MutBuf::write_slice(&mut data, &[5; 16]);
    common.pending_disk_blocks.push_back((ConnectionId(1), info(0, 0, 3)));
    let block = BlockFromDisk { receiver, info: info(0, 0, 3), data };
    notify(&mut conn, &mut common, block);
    assert!(common.pending_disk_blocks.is_empty());
    assert_eq!(conn.outgoing_blocks.len(), 1);

    conn.notify_have(PieceIndex(0));
    assert!(conn.wants_to_write());
    assert_eq!(conn.begin_write(), WriteStep::Ready);
    assert_eq!(conn.bytes_to_send(), message(4, &numbers(&[0])));
    assert!(conn.finish_write(Some(9), &mut common));
    // the messages are out: the block is next
    assert_eq!(conn.outgoing_block_length, Some(16));
    assert_eq!(conn.bytes_to_send(), [5; 16]);
    assert_eq!(conn.begin_write(), WriteStep::Ready);
    assert!(conn.finish_write(Some(10), &mut common));
    assert_eq!(conn.outgoing_buf_bytes_sent, 10);
    assert_eq!(conn.bytes_to_send().len(), 6);
    // a write that is longer than the block counts as the block
    assert!(conn.finish_write(Some(17), &mut common));
    assert_eq!(common.bytes_uploaded, 3);
    assert_eq!(conn.outgoing_block_length, None);
    // the socket is full
    assert!(conn.finish_write(None, &mut common));
    assert_eq!(conn.begin_write(), WriteStep::NotNow);
    assert!(!conn.on_writable());
    assert!(conn.maybe_writable);
}

#[test]
fn blocks_that_were_cancelled_are_forgotten() {
    let torrent = abc_torrent(1);
    let mut common = mk_common_info(&torrent);
    let mut conn = mk_peer_conn(&torrent);
    let from_disk = |id: u32| BlockFromDisk {
        receiver: BlockReceiver { id: ConnectionId(id), token: Token(0) },
        info: info(0, 0, 3),
        data: bytes::RingBuf::new(4),
    };
    common.pending_disk_blocks.push_back((ConnectionId(2), info(0, 0, 3)));
    common.pending_disk_blocks.push_back((ConnectionId(1), info(0, 1, 1)));
    // another block is expected first
    notify(&mut conn, &mut common, from_disk(1));
    assert_eq!(common.pending_disk_blocks.len(), 2);
    // a block for a connection that is gone
    notify(&mut conn, &mut common, from_disk(2));
    assert_eq!(common.pending_disk_blocks.len(), 1);
    notify(&mut conn, &mut common, from_disk(1));
    assert_eq!(common.pending_disk_blocks.len(), 1);
    assert!(conn.outgoing_blocks.is_empty());
}

#[test]
fn the_send_buffer_may_be_too_small() {
    let torrent = abc_torrent(1);
    let mut conn = mk_peer_conn(&torrent);
    let mut common = mk_common_info(&torrent);
    // 32768 / 9 messages fit
    for _ in 0..3641 {
        conn.notify_have(PieceIndex(0));
    }
    assert_eq!(conn.begin_write(), WriteStep::Fault);
    assert_eq!(conn.read(&[0, 0, 0, 0], &mut common), Outcome::Fault);
    assert_eq!(conn.outgoing_msgs.len(), 3641);
    let _ = conn.outgoing_msgs.pop_back();
    assert_eq!(conn.read(&[0, 0, 0, 0], &mut common), Outcome::Done);
    assert_eq!(conn.bytes_to_send().len(), 32760);
    assert!(conn.outgoing_msgs.is_empty());
}

#[test]
fn a_length_that_goes_around_the_end_cannot_be_read() {
    let torrent = abc_torrent(1);
    let mut conn = mk_peer_conn(&torrent);
    let mut common = mk_common_info(&torrent);
    // fill the memory but for two bytes, and empty it again
    let filler = message(99, &vec![0; 32766 - 5]);
    assert_eq!(conn.read(&filler, &mut common), Outcome::Done);
    assert_eq!(conn.read(&message(2, &[]), &mut common), Outcome::Fault);

    // behind another message it is left where it is
    let mut conn = mk_peer_conn(&torrent);
    let filler = message(99, &vec![0; 32761 - 5]);
    assert_eq!(conn.read(&filler, &mut common), Outcome::Done);
    let mut bytes = message(2, &[]);
    bytes.extend_from_slice(&message(3, &[]));
    assert_eq!(conn.read(&bytes, &mut common), Outcome::Done);
    assert!(conn.conn_state.peer_interested);
    assert_eq!(conn.recv_space(), 32768 - 5);
    assert_eq!(conn.read(&[], &mut common), Outcome::Fault);
}

#[test]
fn a_block_loses_nothing_that_follows() {
    let torrent = abc_torrent(1);
    let mut conn = mk_peer_conn(&torrent);
    let mut common = mk_common_info(&torrent);
    let filler = message(99, &vec![0; 32768 - 18 - 5]);
    assert_eq!(conn.read(&filler, &mut common), Outcome::Done);
    // the block lies before the end of the memory, the rest goes around it
    let mut bytes = block(0, 0, b"abc");
    for _ in 0..18 {
        bytes.extend_from_slice(&message(3, &[]));
    }
    bytes.extend_from_slice(&message(2, &[]));
    assert_eq!(conn.read(&bytes, &mut common), Outcome::Done);
    assert!(common.our_pieces.index(PieceIndex(0)));
    assert!(conn.conn_state.peer_interested);
    assert_eq!(conn.recv_space(), 32768);
}

#[test]
fn finished_pieces_are_announced_to_all() {
    let torrent = abc_torrent(2);
    let mut common = mk_common_info(&torrent);
    let mut conns = vec![mk_peer_conn(&torrent), mk_peer_conn(&torrent), mk_peer_conn(&torrent)];
    conns[1].become_interested();
    announce_finished_piece(&mut conns, PieceIndex(1));
    assert_eq!(drain_all(&mut conns[0], &mut common), message(4, &numbers(&[1])));
    assert_eq!(
        drain_all(&mut conns[1], &mut common),
        [message(2, &[]), message(4, &numbers(&[1]))].concat()
    );
    assert_eq!(drain_all(&mut conns[2], &mut common), message(4, &numbers(&[1])));
    announce_finished_piece(&mut Vec::new(), PieceIndex(1));
}

/// Like [`drain`], with what is still queued.
fn drain_all(conn: &mut PeerConnection, common: &mut CommonInfo<'_>) -> Vec<u8> {
    assert!(conn.append_queued_messages());
    drain(conn, common)
}

#[test]
fn pieces_are_put_together_by_offset() {
    let file = FileInfo { path: vec!["a".to_string()], length: 16384 + 3 };
    let torrent =
        TorrentInfo::new("a".to_string(), 16384 + 3, vec![0; 20], vec![file], b"").unwrap();
    let mut piece = PieceData::new(PieceIndex(0), &torrent);
    assert!(!piece.is_complete());
    let buffer = |data: &[u8]| {
        let mut buf = bytes::RingBuf::new(32768);
        bytes::MutBuf::write_slice(&mut buf, data);
        buf
    };
    assert!(piece.accepts(16384));
    piece.add_block(info(0, 16384, 3), buffer(b"xyz"));
    assert!(!piece.accepts(16384));
    assert!(piece.lacks_one());
    piece.add_block(info(0, 0, 16384), buffer(&[1; 16384]));
    assert!(piece.is_complete());
    let mut expected = vec![1; 16384];
    expected.extend_from_slice(b"xyz");
    assert_eq!(piece.join(), expected);
    assert!(!piece.verify(&torrent));

    let torrent = abc_torrent(1);
    let piece = PieceData::new(PieceIndex(0), &torrent);
    assert!(piece.matches_with(0, b"abc", &torrent));
    assert!(piece.matches_with(16384, b"abc", &torrent));
    assert!(!piece.matches_with(0, b"abd", &torrent));
}
