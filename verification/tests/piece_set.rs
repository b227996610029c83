use gearbox::bits::bit_of;
use gearbox::piece_set::PieceSet;
use gearbox::torrent_info::{FileInfo, TorrentInfo};
use gearbox::types::PieceIndex;

fn torrent(pieces: usize) -> TorrentInfo {
    let dummy_file = FileInfo { path: vec!["abcd".to_string()], length: 512 * 1024 * 1024 };
    TorrentInfo::new("dummy_name".to_string(), 1, vec![0u8; pieces * 20], vec![dummy_file], b"")
        .unwrap()
}

#[test]
fn test_pick_piece_from() {
    let dummy_file = FileInfo { path: vec!["abcd".to_string()], length: 512 * 1024 * 1024 };
    let torrent =
        TorrentInfo::new("dummy_name".to_string(), 1, vec![0u8; 60], vec![dummy_file], b"")
            .unwrap();
    let mut to_download = PieceSet::new_empty(&torrent).inverse();
    let peers_pieces = PieceSet::new_empty(&torrent).inverse();
    assert!(to_download.pick_piece_from(&peers_pieces).is_some());

    let mut to_download = PieceSet::new_empty(&torrent);
    to_download.set_true(PieceIndex::from(0));
    assert_eq!(to_download.pick_piece_from(&peers_pieces), Some(PieceIndex::from(0)));
    assert!(to_download.pick_piece_from(&peers_pieces).is_none());
}

#[test]
fn sets_are_changed_piece_by_piece() {
    let t = torrent(10);
    let mut pieces = PieceSet::new_empty(&t);
    assert!(pieces.is_empty());
    assert_eq!(pieces.len(), 10);
    pieces.set_true(PieceIndex(3));
    pieces.set_true(PieceIndex(9));
    assert_eq!(pieces.count(), 2);
    assert!(pieces.index(PieceIndex(3)));
    assert!(!pieces.index(PieceIndex(4)));
    pieces.set_false(PieceIndex(3));
    assert_eq!(pieces.count(), 1);
    assert!(!pieces.index(PieceIndex(3)));
    // the count follows the changes, not the pieces
    pieces.set_true(PieceIndex(9));
    assert_eq!(pieces.count(), 2);
}

#[test]
fn the_complement_has_the_other_pieces() {
    let t = torrent(10);
    let mut pieces = PieceSet::new_empty(&t);
    pieces.set_true(PieceIndex(3));
    let others = pieces.inverse();
    assert_eq!(others.count(), 9);
    assert!(!others.index(PieceIndex(3)));
    assert!(others.index(PieceIndex(9)));
    assert_eq!(others.inverse(), pieces);
    assert_eq!(pieces.clone(), pieces);
}

#[test]
fn a_given_draw_picks_a_given_piece() {
    let t = torrent(10);
    let mut mine = PieceSet::new_empty(&t).inverse();
    let mut theirs = PieceSet::new_empty(&t);
    for i in [2, 5, 7] {
        theirs.set_true(PieceIndex(i));
    }
    assert!(mine.has_new_pieces(&theirs));
    assert_eq!(mine.pick_nth_from(&theirs, 1), PieceIndex(5));
    assert_eq!(mine.pick_nth_from(&theirs, 1), PieceIndex(7));
    assert_eq!(mine.pick_nth_from(&theirs, 0), PieceIndex(2));
    assert!(!mine.has_new_pieces(&theirs));
    assert_eq!(mine.count(), 7);
}

#[test]
fn picks_come_from_both_sets_and_are_not_repeated() {
    let t = torrent(100);
    let mut mine = PieceSet::new_empty(&t).inverse();
    let mut theirs = PieceSet::new_empty(&t);
    for i in 0..50 {
        theirs.set_true(PieceIndex(2 * i));
    }
    let mut seen = vec![false; 100];
    for _ in 0..50 {
        let picked = mine.pick_piece_from(&theirs).unwrap().0 as usize;
        assert!(picked % 2 == 0);
        assert!(!seen[picked]);
        seen[picked] = true;
    }
    assert_eq!(mine.pick_piece_from(&theirs), None);
    assert_eq!(mine.count(), 50);
}

#[test]
fn bitfields_have_the_first_piece_highest() {
    let t = torrent(10);
    let mut pieces = PieceSet::new_empty(&t);
    pieces.set_true(PieceIndex(0));
    pieces.set_true(PieceIndex(6));
    pieces.set_true(PieceIndex(9));
    assert_eq!(pieces.to_bytes(), vec![0b1000_0010, 0b0100_0000]);
    for i in 0..16u32 {
        let bit = bit_of(pieces.to_bytes()[i as usize / 8], (i % 8) as u8);
        assert_eq!(bit, i == 0 || i == 6 || i == 9);
    }
}

#[test]
fn completeness_is_about_memory() {
    let t = torrent(32);
    let full = PieceSet::new_empty(&t).inverse();
    assert!(full.is_complete_for(32));
    assert!(full.is_complete_for((1 << 32) + 32));
    assert!(!full.is_complete_for(64));
    assert!(!PieceSet::new_empty(&t).is_complete());
    let mut one = PieceSet::new_empty(&t);
    one.set_true(PieceIndex(0));
    assert!(!one.is_complete());
    assert_eq!(one.is_complete(), one.clone().is_complete());
    assert!(one == one.clone());
    assert!(one != PieceSet::new_empty(&t));
    assert!(one.inverse().inverse() == one);
}
