use gearbox::event_handler::{
    close_connection, completion_event, make_tracker_request, new_peer_id, on_finished_piece,
    on_readable, on_writable, peers_to_contact, ConnectionIds, ReadHint, ReadableAction,
    WritableAction,
};
use gearbox::files::RequestQueue;
use gearbox::peer::PeerInfo;
use gearbox::peer_protocol::CommonInfo;
use gearbox::piece_set::PieceSet;
use gearbox::torrent_info::{FileInfo, TorrentInfo};
use gearbox::tracker::Event;
use gearbox::types::{
    BlockInfo, BlockReceiver, BlockRequest, ConnectionId, PieceIndex, PieceReaderMessage, Token,
};

fn request(id: u32, offset: u32) -> BlockRequest {
    BlockRequest {
        block_info: BlockInfo { piece_index: PieceIndex(0), offset, length: 1 },
        receiver: BlockReceiver { id: ConnectionId(id), token: Token(id as usize) },
    }
}

fn queue(requests: &[BlockRequest]) -> RequestQueue {
    let mut queue = RequestQueue::new();
    for r in requests {
        queue.handle_message(PieceReaderMessage::Request(*r));
    }
    queue
}

fn contents(mut queue: RequestQueue) -> Vec<BlockRequest> {
    let mut all = Vec::new();
    while let Some(r) = queue.dequeue() {
        all.push(r);
    }
    all
}

#[test]
fn requests_are_served_in_order() {
    let all = [request(1, 0), request(2, 0), request(1, 5)];
    assert_eq!(contents(queue(&all)), all);
    assert_eq!(RequestQueue::new().dequeue(), None);
}

#[test]
fn a_closed_connection_leaves_the_queue() {
    let mut q = queue(&[request(1, 0), request(2, 0), request(1, 5), request(3, 1)]);
    q.handle_message(PieceReaderMessage::CancelRequestsForConnection(ConnectionId(1)));
    assert_eq!(contents(q), [request(2, 0), request(3, 1)]);
}

#[test]
fn a_cancelled_request_leaves_the_queue_once() {
    let r = request(1, 5);
    let mut q = queue(&[request(2, 5), r, request(1, 0), r]);
    q.handle_message(PieceReaderMessage::CancelRequest(r.block_info, ConnectionId(1)));
    assert_eq!(contents(q), [request(2, 5), request(1, 0), r]);

    let mut q = queue(&[request(2, 5)]);
    q.cancel_request(ConnectionId(1), &r.block_info);
    assert_eq!(contents(q), [request(2, 5)]);
}

#[test]
fn a_request_that_is_cancelled_leaves_no_trace() {
    let before = [request(1, 0), request(2, 0)];
    let mut q = queue(&before);
    q.enqueue(request(1, 7));
    q.cancel_request(ConnectionId(1), &request(1, 7).block_info);
    assert_eq!(contents(q), before);
}

#[test]
fn readable_sockets_are_told_apart() {
    let data = ReadHint { data: true, hup: false, error: false };
    let gone = ReadHint { data: true, hup: true, error: false };
    let broken = ReadHint { data: false, hup: false, error: true };
    let nothing = ReadHint { data: false, hup: false, error: false };
    assert_eq!(on_readable(Token(0), data, false), ReadableAction::Accept);
    assert_eq!(on_readable(Token(2), data, false), ReadableAction::Ignore);
    assert_eq!(on_readable(Token(2), data, true), ReadableAction::ReadHandshake);
    assert_eq!(on_readable(Token(2), gone, true), ReadableAction::DropHandshake);
    assert_eq!(on_readable(Token(1023), broken, true), ReadableAction::DropHandshake);
    assert_eq!(on_readable(Token(2), nothing, true), ReadableAction::Ignore);
    assert_eq!(on_readable(Token(1024), data, false), ReadableAction::ReadConnection);
    assert_eq!(on_readable(Token(1024), gone, false), ReadableAction::CloseConnection);
    assert_eq!(on_readable(Token(1024), broken, false), ReadableAction::CloseConnection);
    assert_eq!(on_readable(Token(1024), nothing, false), ReadableAction::Ignore);
}

#[test]
fn writable_sockets_are_told_apart() {
    assert_eq!(on_writable(Token(5), true, false), WritableAction::WriteHandshake);
    assert_eq!(on_writable(Token(5), false, true), WritableAction::Ignore);
    assert_eq!(on_writable(Token(1024), false, true), WritableAction::WriteConnection);
    assert_eq!(on_writable(Token(1024), true, false), WritableAction::Ignore);
}

#[test]
fn connections_are_numbered() {
    let mut ids = ConnectionIds::new();
    assert_eq!(ids.next_conn_id(), Some(ConnectionId(0)));
    assert_eq!(ids.next_conn_id(), Some(ConnectionId(1)));
    assert_eq!(ConnectionId::from(7), ConnectionId(7));
    assert_eq!(u32::from(PieceIndex::from(7)), 7);
}

#[test]
fn the_tracker_is_told_how_far_we_are() {
    let file = FileInfo { path: vec!["a".to_string()], length: 10 };
    let torrent =
        TorrentInfo::new("a".to_string(), 4, vec![0; 60], vec![file], b"").unwrap();
    let mut pieces = PieceSet::new_empty(&torrent);
    pieces.set_true(PieceIndex(2));
    let mut common = CommonInfo::new(&torrent, pieces);
    common.bytes_downloaded = 5;
    common.bytes_uploaded = 6;
    let id = [1; 20];
    let request = make_tracker_request(&common, &id, Some(Event::Completed));
    assert_eq!(request.info_hash, torrent.info_hash());
    assert_eq!(request.peer_id, &id);
    assert_eq!(request.event, Some(Event::Completed));
    assert_eq!((request.uploaded, request.downloaded, request.left), (6, 5, 8));
    assert_eq!(request.port, 8765);

    close_connection(ConnectionId(3), &mut common);
    assert_eq!(
        common.take_reader_messages(),
        vec![PieceReaderMessage::CancelRequestsForConnection(ConnectionId(3))]
    );
}

#[test]
fn the_tracker_is_told_of_the_end() {
    assert_eq!(completion_event(true), Some(Event::Completed));
    assert_eq!(completion_event(false), None);
    let file = FileInfo { path: vec!["a".to_string()], length: 10 };
    let torrent =
        TorrentInfo::new("a".to_string(), 4, vec![0; 60], vec![file], b"").unwrap();
    let common = CommonInfo::new(&torrent, PieceSet::new_empty(&torrent));
    assert_eq!(on_finished_piece(&common), None);
}

#[test]
fn only_so_many_peers_are_contacted() {
    let peers: Vec<PeerInfo> = (0..50).map(|i| PeerInfo { ip: i, port: 1 }).collect();
    assert_eq!(peers_to_contact(&peers), &peers[..40]);
    assert_eq!(peers_to_contact(&peers[..3]), &peers[..3]);
}

#[test]
fn peer_ids_come_by_chance() {
    assert!(new_peer_id() != new_peer_id());
}
