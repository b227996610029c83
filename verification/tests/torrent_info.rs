use gearbox::bencode::parse_bvalue;
use gearbox::conversion::{ConversionError, FromBValue};
use gearbox::file_sections::FileSection;
use gearbox::files::plan_transfers;
use gearbox::peer_protocol::check_piece_starts;
use gearbox::piece_check::{CheckAction, CheckEvent, PieceCheck};
use gearbox::piece_set::PieceSet;
use gearbox::torrent_file::parse_torrent_file;
use gearbox::torrent_info::{sum_of_lengths, FileInfo, TorrentInfo};
use gearbox::tracker::Tracker;
use gearbox::types::{BlockInfo, PieceIndex};

const SHA1_OF_ABC: [u8; 20] = [
    0xa9, 0x99, 0x3e, 0x36, 0x47, 0x06, 0x81, 0x6a, 0xba, 0x3e, 0x25, 0x71, 0x78, 0x50, 0xc2, 0x6c,
    0x9c, 0xd0, 0xd8, 0x9d,
];

const SHA1_OF_NOTHING: [u8; 20] = [
    0xda, 0x39, 0xa3, 0xee, 0x5e, 0x6b, 0x4b, 0x0d, 0x32, 0x55, 0xbf, 0xef, 0x95, 0x60, 0x18, 0x90,
    0xaf, 0xd8, 0x07, 0x09,
];

fn file(path: &str, length: u64) -> FileInfo {
    FileInfo { path: vec![path.to_string()], length }
}

fn torrent(piece_length: u32, pieces: usize, files: Vec<FileInfo>) -> TorrentInfo {
    TorrentInfo::new("t".to_string(), piece_length, vec![0; pieces * 20], files, b"").unwrap()
}

#[test]
fn test_bytes_left_to_download() {
    let file_info = FileInfo { path: vec!["foo".to_string()], length: 10 };
    let torrent =
        TorrentInfo::new("".to_string(), 3, vec![0; 4 * 20], vec![file_info], b"").unwrap();
    let mut pieces = PieceSet::new_empty(&torrent);
    assert_eq!(torrent.bytes_left_to_download(&pieces), 10);

    pieces.set_true(PieceIndex(0));
    assert_eq!(torrent.bytes_left_to_download(&pieces), 7);

    pieces.set_true(PieceIndex(3));
    assert_eq!(torrent.bytes_left_to_download(&pieces), 6);

    pieces.set_true(PieceIndex(1));
    assert_eq!(torrent.bytes_left_to_download(&pieces), 3);
}

#[test]
fn what_is_left_can_be_counted_only_where_it_makes_sense() {
    let t = torrent(3, 4, vec![file("foo", 10)]);
    let mut pieces = PieceSet::new_empty(&t);
    assert!(t.can_count(&pieces));
    for _ in 0..4 {
        pieces.set_true(PieceIndex(0));
    }
    // four times three bytes are more than there are
    assert!(!t.can_count(&pieces));
    let none = torrent(3, 0, vec![file("foo", 10)]);
    assert!(!none.can_count(&PieceSet::new_empty(&none)));
}

#[test]
fn a_torrent_needs_files_and_whole_hashes() {
    assert!(TorrentInfo::new("t".to_string(), 1, vec![0; 20], vec![], b"").is_none());
    assert!(TorrentInfo::new("t".to_string(), 1, vec![0; 21], vec![file("a", 1)], b"").is_none());
    assert!(TorrentInfo::new("t".to_string(), 1, vec![], vec![file("a", 1)], b"").is_some());
}

#[test]
fn a_torrent_knows_its_parts() {
    let mut hashes = vec![1u8; 20];
    hashes.extend_from_slice(&[2u8; 20]);
    let t = TorrentInfo::new(
        "name".to_string(),
        4,
        hashes,
        vec![file("a", 3), file("b", 4)],
        b"abc",
    )
    .unwrap();
    assert_eq!(t.name(), "name");
    assert_eq!(t.info_hash(), &SHA1_OF_ABC);
    assert_eq!(t.files().len(), 2);
    assert_eq!(t.files()[1].length, 4);
    assert_eq!(t.total_size(), 7);
    assert_eq!(t.piece_length(), 4);
    assert_eq!(t.piece_count(), 2);
    assert_eq!(t.get_piece_length(PieceIndex(0)), 4);
    assert_eq!(t.get_piece_length(PieceIndex(1)), 3);
    assert_eq!(t.get_piece_hash(PieceIndex(1)), &[2u8; 20]);
    let empty = torrent(1, 0, vec![file("a", 0)]);
    assert_eq!(empty.info_hash(), &SHA1_OF_NOTHING);
}

#[test]
fn lengths_are_summed_up() {
    assert_eq!(sum_of_lengths(&vec![]), Some(0));
    assert_eq!(sum_of_lengths(&vec![file("a", 3), file("b", 4)]), Some(7));
    assert_eq!(sum_of_lengths(&vec![file("a", u64::MAX), file("b", 1)]), None);
}

#[test]
fn pieces_have_lengths_inside_the_files() {
    let t = torrent(4, 3, vec![file("a", 7)]);
    assert!(t.has_length(PieceIndex(1)));
    assert!(!t.has_length(PieceIndex(2)));
    assert!(!t.has_length(PieceIndex(3)));
    assert!(!check_piece_starts(&t));
    assert!(check_piece_starts(&torrent(4, 2, vec![file("a", 7)])));
}

#[test]
fn the_length_of_a_piece_counts_in_32_bits() {
    // the rest behind the first piece is 2^32 + 1 bytes long
    let t = torrent(16, 2, vec![file("a", 16 + (1 << 32) + 1)]);
    assert_eq!(t.get_piece_length(PieceIndex(1)), 1);
    assert_eq!(t.get_piece_length(PieceIndex(0)), 16);
}

#[test]
fn blocks_are_mapped_to_files() {
    let t = torrent(8, 2, vec![file("a", 3), file("b", 2), file("c", 7)]);
    let mut sections = t.map_block(PieceIndex(0), 1, 7);
    assert_eq!(sections.next(), Some(FileSection { file_index: 0, offset: 1, length: 2 }));
    assert_eq!(sections.next(), Some(FileSection { file_index: 1, offset: 0, length: 2 }));
    assert_eq!(sections.next(), Some(FileSection { file_index: 2, offset: 0, length: 3 }));
    assert_eq!(sections.next(), None);

    // a block that runs past the end
    let mut sections = t.map_block(PieceIndex(1), 2, 8);
    assert_eq!(sections.next(), Some(FileSection { file_index: 2, offset: 5, length: 2 }));
    assert_eq!(sections.next(), None);
    assert!(t.block_starts_inside(PieceIndex(1), 3));
    assert!(!t.block_starts_inside(PieceIndex(1), 4));
}

#[test]
fn long_rests_of_files_count_in_32_bits() {
    let t = torrent(16, 1, vec![file("a", 1 << 32), file("b", 5)]);
    let mut sections = t.map_block(PieceIndex(0), 0, 16);
    assert_eq!(sections.next(), Some(FileSection { file_index: 0, offset: 0, length: 0 }));
    assert_eq!(sections.next(), Some(FileSection { file_index: 1, offset: 0, length: 5 }));
    assert_eq!(sections.next(), None);
}

#[test]
fn transfers_follow_each_other_in_the_block() {
    let t = torrent(8, 2, vec![file("a", 3), file("b", 2), file("c", 7)]);
    let plan =
        plan_transfers(&t, &BlockInfo { piece_index: PieceIndex(0), offset: 1, length: 7 });
    assert_eq!(plan.len(), 3);
    assert_eq!((plan[0].start, plan[0].end), (0, 2));
    assert_eq!((plan[1].start, plan[1].end), (2, 4));
    assert_eq!((plan[2].start, plan[2].end), (4, 7));
    assert_eq!(plan[2].section, FileSection { file_index: 2, offset: 0, length: 3 });
}

// ---------------------------------------------------------------------------
// Out of bencoded values
// ---------------------------------------------------------------------------

fn read(text: &[u8]) -> Result<TorrentInfo, ConversionError> {
    TorrentInfo::from_bvalue(parse_bvalue(text).unwrap())
}

#[test]
fn a_torrent_with_one_file_is_read() {
    let text = b"d6:lengthi3e4:name1:n12:piece lengthi2e6:pieces20:aaaaaaaaaaaaaaaaaaaae";
    let t = read(text).unwrap();
    assert_eq!(t.name(), "n");
    assert_eq!(t.piece_length(), 2);
    assert_eq!(t.piece_count(), 1);
    assert_eq!(t.files().len(), 1);
    assert_eq!(t.files()[0].path, vec!["n".to_string()]);
    assert_eq!(t.files()[0].length, 3);
    assert_eq!(t.get_piece_hash(PieceIndex(0)), b"aaaaaaaaaaaaaaaaaaaa");
    let same = TorrentInfo::new("n".to_string(), 2, vec![97; 20], vec![file("n", 3)], text);
    assert_eq!(t.info_hash(), same.unwrap().info_hash());
}

#[test]
fn a_torrent_with_many_files_is_read() {
    let t = read(
        b"d5:filesld6:lengthi3e4:pathl1:a1:beed6:lengthi4e4:pathl1:ceee4:name1:n\
          12:piece lengthi4294967298e6:pieces0:e",
    )
    .unwrap();
    assert_eq!(t.files().len(), 2);
    assert_eq!(t.files()[0].path, vec!["a".to_string(), "b".to_string()]);
    assert_eq!(t.files()[1].length, 4);
    assert_eq!(t.total_size(), 7);
    // of the piece length 32 bits count
    assert_eq!(t.piece_length(), 2);
}

#[test]
fn bad_torrents_are_refused() {
    let error = |text: &[u8]| read(text).err();
    let wrong = Some(ConversionError::WrongBValueConstructor);
    let missing = Some(ConversionError::KeyDoesNotExist);
    assert_eq!(error(b"i1e"), wrong);
    assert_eq!(error(b"de"), missing);
    assert_eq!(error(b"d4:name1:n12:piece lengthi2e6:pieces0:e"), missing);
    assert_eq!(error(b"d6:lengthi3e4:namei1e12:piece lengthi2e6:pieces0:e"), wrong);
    assert_eq!(
        error(b"d6:lengthi3e4:name1:\xff12:piece lengthi2e6:pieces0:e"),
        Some(ConversionError::BadEncoding)
    );
    assert_eq!(error(b"d6:lengthi-3e4:name1:n12:piece lengthi2e6:pieces0:e"), wrong);
    assert_eq!(error(b"d6:lengthi3e4:name1:n12:piece lengthi2e6:piecesi1ee"), wrong);
    assert_eq!(error(b"d6:lengthi3e4:name1:n12:piece lengthi-2e6:pieces0:e"), wrong);
    assert_eq!(
        error(b"d6:lengthi3e4:name1:n12:piece lengthi2e6:pieces1:ae"),
        Some(ConversionError::OtherError)
    );
    assert_eq!(
        error(b"d5:filesle4:name1:n12:piece lengthi2e6:pieces0:e"),
        Some(ConversionError::OtherError)
    );
    assert_eq!(
        error(b"d5:filesld6:lengthi3eee4:name1:n12:piece lengthi2e6:pieces0:e"),
        missing
    );
    assert_eq!(error(b"d5:filesli1ee4:name1:n12:piece lengthi2e6:pieces0:e"), wrong);
    let huge = b"d5:filesld6:lengthi9223372036854775807e4:pathl1:aeed6:lengthi9223372036854775807e\
                 4:pathl1:beed6:lengthi9e4:pathl1:ceee4:name1:n12:piece lengthi2e6:pieces0:e";
    assert_eq!(error(huge), Some(ConversionError::TooLarge));
}

#[test]
fn torrent_files_are_read() {
    let text = b"d8:announce20:http://localhost/ann4:infod6:lengthi3e4:name1:n\
                 12:piece lengthi2e6:pieces0:ee";
    match parse_torrent_file(text).unwrap() {
        Some((Tracker::Http(url), torrent)) => {
            assert_eq!(url, "http://localhost/ann");
            assert_eq!(torrent.name(), "n");
        }
        other => panic!("{:?}", other),
    }
    assert!(parse_torrent_file(b"de").unwrap().is_none());
    assert!(parse_torrent_file(b"i1e").unwrap().is_none());
    assert!(parse_torrent_file(b"").is_err());
}

// ---------------------------------------------------------------------------
// Which pieces are there
// ---------------------------------------------------------------------------

/// Runs a check against files with the given contents. Gives the pieces, and the
/// files that were opened.
fn run_check(mut check: PieceCheck<'_>, disk: &[Option<&[u8]>]) -> (PieceSet, Vec<usize>) {
    let mut opened = vec![0];
    let mut content = disk[0];
    let mut pos = 0;
    let mut action = check.step(CheckEvent::Opened(content.is_some()));
    loop {
        action = match action {
            CheckAction::Continue => check.step(CheckEvent::Proceed),
            CheckAction::Open(i) => {
                opened.push(i);
                content = disk[i];
                pos = 0;
                check.step(CheckEvent::Opened(content.is_some()))
            }
            CheckAction::Read(n) => {
                let data = content.unwrap();
                let end = std::cmp::min(data.len(), pos + n);
                let bytes = data[pos..end].to_vec();
                pos = end;
                check.step(CheckEvent::Data(bytes))
            }
            CheckAction::Finished => return (check.into_pieces(), opened),
            CheckAction::Fault => panic!("fault"),
        }
    }
}

#[test]
fn pieces_with_the_right_hash_are_found() {
    let mut hashes = SHA1_OF_ABC.to_vec();
    hashes.extend_from_slice(&[0; 20]);
    hashes.extend_from_slice(&SHA1_OF_ABC);
    let t = TorrentInfo::new("t".to_string(), 3, hashes, vec![file("a", 9)], b"").unwrap();

    let (pieces, _) = run_check(t.check_downloaded_pieces(), &[Some(b"abcabcabc")]);
    assert!(pieces.index(PieceIndex(0)));
    assert!(!pieces.index(PieceIndex(1)));
    assert!(pieces.index(PieceIndex(2)));
    assert_eq!(pieces.count(), 2);

    // a file that ends early
    let (pieces, _) = run_check(t.check_downloaded_pieces(), &[Some(b"abcab")]);
    assert!(pieces.index(PieceIndex(0)));
    assert_eq!(pieces.count(), 1);

    // no file
    let (pieces, _) = run_check(t.check_downloaded_pieces(), &[None]);
    assert_eq!(pieces.count(), 0);
}

#[test]
fn a_piece_may_lie_in_two_files() {
    let t = TorrentInfo::new(
        "t".to_string(),
        3,
        SHA1_OF_ABC.to_vec(),
        vec![file("a", 1), file("b", 2)],
        b"",
    )
    .unwrap();
    let (pieces, opened) = run_check(t.check_downloaded_pieces(), &[Some(b"a"), Some(b"bc")]);
    assert_eq!(opened, [0, 1]);
    assert!(pieces.index(PieceIndex(0)));
    assert_eq!(pieces.count(), 1);
    let (pieces, _) = run_check(t.check_downloaded_pieces(), &[Some(b"a"), Some(b"b")]);
    assert_eq!(pieces.count(), 0);
    let (pieces, _) = run_check(t.check_downloaded_pieces(), &[Some(b"a"), None]);
    assert_eq!(pieces.count(), 0);
}

#[test]
fn every_file_is_read_from_its_start() {
    let mut hashes = SHA1_OF_ABC.to_vec();
    hashes.extend_from_slice(&SHA1_OF_ABC);
    hashes.extend_from_slice(&SHA1_OF_ABC);
    let t = TorrentInfo::new(
        "t".to_string(),
        3,
        hashes,
        vec![file("a", 2), file("b", 2), file("c", 0), file("d", 2), file("e", 3)],
        b"",
    )
    .unwrap();
    let disk: [Option<&[u8]>; 5] =
        [Some(b"ab"), Some(b"ca"), Some(b""), Some(b"bc"), Some(b"abc and more")];
    let (pieces, opened) = run_check(t.check_downloaded_pieces(), &disk);
    assert_eq!(opened, [0, 1, 2, 3, 4]);
    assert_eq!(pieces.count(), 3);
}

#[test]
fn a_check_fails_where_pieces_lie_outside() {
    let t = torrent(3, 2, vec![file("a", 3)]);
    let mut check = t.check_downloaded_pieces();
    assert_eq!(check.step(CheckEvent::Opened(true)), CheckAction::Continue);
    assert_eq!(check.step(CheckEvent::Proceed), CheckAction::Continue);
    assert_eq!(check.step(CheckEvent::Proceed), CheckAction::Read(3));
    assert_eq!(check.step(CheckEvent::Data(vec![1, 2, 3])), CheckAction::Continue);
    assert_eq!(check.step(CheckEvent::Proceed), CheckAction::Continue);
    assert_eq!(check.step(CheckEvent::Proceed), CheckAction::Fault);
    assert_eq!(check.step(CheckEvent::Proceed), CheckAction::Fault);
}
