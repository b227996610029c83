//! What a check finds, as a whole.
use vstd::prelude::*;

use crate::buffers::smaller;
use crate::digest::sha1_digest;
use crate::file_sections::{
    cursor_after, cursor_at, exhausted, file_start, lemma_located, section_at, untruncated,
    FileSection,
};
use crate::piece_check::{
    check_start, check_step, check_wf, CheckAction, CheckInput, CheckView, Phase,
};
use crate::piece_set::{law_changes_keep_count, law_uniform_is_exact, lemma_room_for_one_more};
use crate::torrent_info::{total_length, FileView, TorrentView};
use crate::types::PieceIndex;

verus! {

// ---------------------------------------------------------------------------
// A disk
// ---------------------------------------------------------------------------

/// The bytes of a file, of which there are none where it is missing.
pub open spec fn bytes_of(file: Option<Seq<u8>>) -> Seq<u8> {
    match file {
        Some(bytes) => bytes,
        None => Seq::empty(),
    }
}

/// The bytes of all files, one file after the other.
pub open spec fn contents(disk: Seq<Option<Seq<u8>>>) -> Seq<u8>
    decreases disk.len(),
{
    if disk.len() == 0 {
        Seq::empty()
    } else {
        contents(disk.drop_last()) + bytes_of(disk.last())
    }
}

/// Whether all files but the last are there and have their length. The last one
/// may be missing, or have any length.
pub open spec fn whole_but_for_last(t: TorrentView, disk: Seq<Option<Seq<u8>>>) -> bool {
    &&& disk.len() == t.files.len()
    &&& forall|f: int|
        0 <= f < disk.len() - 1 ==> (#[trigger] disk[f]) is Some && disk[f]->Some_0.len()
            == t.files[f].length
}

/// Where a piece ends, counted over all files.
pub open spec fn piece_end(t: TorrentView, i: PieceIndex) -> int {
    t.piece_start(i) + t.piece_len(i)
}

/// Whether all bytes of a piece are on disk, and have its hash.
pub open spec fn piece_on_disk(t: TorrentView, disk: Seq<Option<Seq<u8>>>, i: PieceIndex) -> bool {
    &&& piece_end(t, i) <= contents(disk).len()
    &&& sha1_digest(contents(disk).subrange(t.piece_start(i), piece_end(t, i))) == t.piece_hash(i)
}

/// Which file is open, and how far it has been read.
pub struct Reader {
    pub file: int,
    pub position: int,
}

/// A check, the file it reads from, and what it has asked for.
pub struct Checking {
    pub view: CheckView,
    pub reader: Reader,
    pub action: CheckAction,
}

/// What comes of an action, where reading gives all that was asked for and is
/// there.
pub open spec fn answer(disk: Seq<Option<Seq<u8>>>, reader: Reader, action: CheckAction) -> (
    CheckInput,
    Reader,
) {
    match action {
        CheckAction::Open(file) => if disk[file as int] is Some {
            (CheckInput::Opened(true), Reader { file: file as int, position: 0 })
        } else {
            (CheckInput::Opened(false), reader)
        },
        CheckAction::Read(length) => {
            let bytes = bytes_of(disk[reader.file]);
            let end = smaller(reader.position + length, bytes.len() as int);
            (
                CheckInput::Data(bytes.subrange(reader.position, end)),
                Reader { position: end, ..reader },
            )
        },
        _ => (CheckInput::Proceed, reader),
    }
}

/// The check once `n` answers have been given, or once it has come to an end.
pub open spec fn after_answers(t: TorrentView, disk: Seq<Option<Seq<u8>>>, n: nat) -> Checking
    decreases n,
{
    if n == 0 {
        Checking {
            view: check_start(t),
            reader: Reader { file: 0, position: 0 },
            action: CheckAction::Open(0),
        }
    } else {
        answered(t, disk, after_answers(t, disk, (n - 1) as nat))
    }
}

/// The check once it has been given its next answer.
pub open spec fn answered(t: TorrentView, disk: Seq<Option<Seq<u8>>>, c: Checking) -> Checking {
    if c.action is Finished || c.action is Fault {
        c
    } else {
        let (input, reader) = answer(disk, c.reader, c.action);
        let (view, action) = check_step(t, c.view, input);
        Checking { view, reader, action }
    }
}

// ---------------------------------------------------------------------------
// Files and pieces
// ---------------------------------------------------------------------------

/// What the proofs rest on: the pieces follow each other over the files, and no
/// section is cut short.
pub open spec fn orderly(t: TorrentView) -> bool {
    &&& t.wf()
    &&& t.regular()
    &&& t.files.len() <= usize::MAX
    &&& forall|i: PieceIndex|
        i.0 < t.piece_count() ==> #[trigger] untruncated(
            t.files,
            cursor_at(t.files, t.piece_start(i), t.piece_len(i) as int),
        )
}

proof fn lemma_piece_ends(t: TorrentView, p: int)
    requires
        orderly(t),
        0 <= p < t.piece_count(),
    ensures
        ({
            let i = PieceIndex(p as u32);
            &&& 0 <= t.piece_start(i) < piece_end(t, i) <= t.total_size
            &&& t.has_length(i)
            &&& p + 1 < t.piece_count() ==> piece_end(t, i) == t.piece_start(
                PieceIndex((p + 1) as u32),
            )
        }),
{
    let i = PieceIndex(p as u32);
    let pl = t.piece_length as int;
    let last = t.piece_count() - 1;
    let total = t.total_size as int;
    assert(0 <= p * pl) by (nonlinear_arith)
        requires
            0 <= p,
            0 <= pl,
    ;
    if p < last {
        assert(t.piece_len(i) == t.piece_length);
        assert((p + 1) * pl == p * pl + pl) by (nonlinear_arith);
        assert((p + 1) * pl <= last * pl) by (nonlinear_arith)
            requires
                p + 1 <= last,
                0 <= pl,
        ;
        assert(pl > 0);
    } else {
        assert(t.piece_len(i) == total - p * pl);
    }
}

proof fn lemma_file_starts(files: Seq<FileView>, f: int, k: int)
    requires
        0 <= f < k <= files.len(),
    ensures
        file_start(files, f + 1) == file_start(files, f) + files[f].length,
        file_start(files, f + 1) <= file_start(files, k),
    decreases k - f,
{
    assert(files.take(f + 1).drop_last() =~= files.take(f));
    if f + 1 < k {
        lemma_file_starts(files, f + 1, k);
    }
}

proof fn lemma_all_files(files: Seq<FileView>)
    requires
        files.len() > 0,
    ensures
        file_start(files, 0) == 0,
        file_start(files, files.len() as int) == total_length(files),
        file_start(files, files.len() - 1) + files.last().length == total_length(files),
{
    assert(files.take(0) =~= Seq::empty());
    assert(files.take(files.len() as int) =~= files);
    lemma_file_starts(files, files.len() - 1, files.len() as int);
}

/// Two places in the files that are the same place counted over all files: the
/// first is in an earlier file only where the second is at the start of its
/// file.
proof fn lemma_same_place(files: Seq<FileView>, f: int, a: int, k: int, b: int)
    requires
        0 <= f < files.len(),
        0 <= k < files.len(),
        0 <= a <= files[f].length,
        0 <= b,
        file_start(files, f) + a == file_start(files, k) + b,
    ensures
        f < k ==> b == 0,
        f == k ==> a == b,
{
    if f < k {
        lemma_file_starts(files, f, k);
    }
}

proof fn lemma_contents_start(t: TorrentView, disk: Seq<Option<Seq<u8>>>, f: int)
    requires
        whole_but_for_last(t, disk),
        0 <= f < disk.len(),
    ensures
        contents(disk.take(f)).len() == file_start(t.files, f),
    decreases f,
{
    if f == 0 {
        assert(t.files.take(0) =~= Seq::empty());
    } else {
        lemma_contents_start(t, disk, f - 1);
        assert(disk.take(f).drop_last() =~= disk.take(f - 1));
        assert(disk.take(f).last() == disk[f - 1]);
        lemma_file_starts(t.files, f - 1, f);
    }
}

/// The bytes of a file are where the file starts, in what the first `n` files
/// hold.
proof fn lemma_contents_of_file(t: TorrentView, disk: Seq<Option<Seq<u8>>>, f: int, n: int)
    requires
        whole_but_for_last(t, disk),
        0 <= f < n <= disk.len(),
    ensures
        ({
            let start = file_start(t.files, f);
            let bytes = bytes_of(disk[f]);
            let all = contents(disk.take(n));
            &&& start + bytes.len() <= all.len()
            &&& all.subrange(start, start + bytes.len()) == bytes
            &&& n == f + 1 ==> all.len() == start + bytes.len()
        }),
    decreases n - f,
{
    let start = file_start(t.files, f);
    let bytes = bytes_of(disk[f]);
    let all = contents(disk.take(n));
    lemma_contents_start(t, disk, f);
    assert(disk.take(n).drop_last() =~= disk.take(n - 1));
    assert(disk.take(n).last() == disk[n - 1]);
    if n == f + 1 {
        assert(all.subrange(start, start + bytes.len()) =~= bytes);
    } else {
        lemma_contents_of_file(t, disk, f, n - 1);
        let before = contents(disk.take(n - 1));
        assert(all.subrange(start, start + bytes.len()) =~= before.subrange(
            start,
            start + bytes.len(),
        ));
    }
}

/// A part of a file, in what all files hold.
proof fn lemma_part_of_file(t: TorrentView, disk: Seq<Option<Seq<u8>>>, f: int, a: int, b: int)
    requires
        whole_but_for_last(t, disk),
        0 <= f < disk.len(),
        0 <= a <= b <= bytes_of(disk[f]).len(),
    ensures
        ({
            let start = file_start(t.files, f);
            &&& start + b <= contents(disk).len()
            &&& contents(disk).subrange(start + a, start + b) == bytes_of(disk[f]).subrange(a, b)
            &&& f == disk.len() - 1 ==> contents(disk).len() == start + bytes_of(disk[f]).len()
        }),
{
    let start = file_start(t.files, f);
    let bytes = bytes_of(disk[f]);
    assert(disk.take(disk.len() as int) =~= disk);
    lemma_contents_of_file(t, disk, f, disk.len() as int);
    lemma_contents_start(t, disk, f);
    let part = contents(disk).subrange(start, start + bytes.len());
    assert(contents(disk).subrange(start + a, start + b) =~= part.subrange(a, b));
}

// ---------------------------------------------------------------------------
// The course of a check
// ---------------------------------------------------------------------------

/// The place that the check has come to in the files: it has a file open and
/// reads on from there.
pub open spec fn reading_on(
    t: TorrentView,
    disk: Seq<Option<Seq<u8>>>,
    c: Checking,
    place: int,
) -> bool {
    &&& c.view.file_open
    &&& c.reader.file == c.view.file_index
    &&& 0 <= c.reader.file < t.files.len()
    &&& disk[c.reader.file] is Some
    &&& 0 <= c.reader.position <= t.files[c.reader.file].length
    &&& c.reader.position <= bytes_of(disk[c.reader.file]).len()
    &&& file_start(t.files, c.reader.file) + c.reader.position == place
}

/// The check has got to the end of what is on disk before the end of the piece.
pub open spec fn given_up(t: TorrentView, disk: Seq<Option<Seq<u8>>>, c: Checking) -> bool {
    &&& !c.view.file_open
    &&& c.view.file_index == t.files.len() - 1
    &&& file_start(t.files, t.files.len() - 1) <= t.piece_start(c.view.index())
    &&& contents(disk).len() < piece_end(t, c.view.index())
}

/// What has been read of the piece is what is on disk.
pub open spec fn read_right(t: TorrentView, disk: Seq<Option<Seq<u8>>>, v: CheckView) -> bool {
    let start = t.piece_start(v.index());
    &&& start + v.offset <= contents(disk).len()
    &&& v.buf.take(v.offset) == contents(disk).subrange(start, start + v.offset)
}

/// The cursor is where the check has come to, as long as something is wanted.
pub open spec fn cursor_right(t: TorrentView, v: CheckView, place: int) -> bool {
    v.cursor.wanted > 0 ==> {
        &&& 0 <= v.cursor.file < t.files.len()
        &&& 0 <= v.cursor.offset <= t.files[v.cursor.file].length
        &&& file_start(t.files, v.cursor.file) + v.cursor.offset == place
        &&& untruncated(t.files, v.cursor)
    }
}

/// The section is where the check has come to, and the cursor behind it.
pub open spec fn section_right(t: TorrentView, v: CheckView, section: FileSection) -> bool {
    let place = t.piece_start(v.index()) + v.offset;
    &&& section.file_index < t.files.len()
    &&& file_start(t.files, section.file_index as int) + section.offset == place
    &&& section.offset + section.length <= t.files[section.file_index as int].length
    &&& section.file_index == t.files.len() - 1 ==> section.length > 0
    &&& v.cursor.file == section.file_index + 1
    &&& cursor_right(t, v, place + section.length)
}

/// What holds of a check at any time.
pub open spec fn on_course(t: TorrentView, disk: Seq<Option<Seq<u8>>>, c: Checking) -> bool {
    let v = c.view;
    let place = t.piece_start(v.index()) + v.offset;
    &&& check_wf(t, v)
    &&& forall|i: PieceIndex|
        i.0 < v.piece ==> #[trigger] v.pieces.has(i) == piece_on_disk(t, disk, i)
    &&& match v.phase {
        Phase::FirstOpen => v == check_start(t) && c.action == CheckAction::Open(0),
        Phase::NextPiece => {
            &&& c.action is Continue || c.action is Finished
            &&& c.action is Finished ==> v.piece == t.piece_count()
            &&& v.piece < t.piece_count() ==> reading_on(t, disk, c, t.piece_start(v.index()))
                || given_up(t, disk, c)
        },
        Phase::NextSection => {
            &&& c.action is Continue
            &&& cursor_right(t, v, place)
            &&& {
                &&& reading_on(t, disk, c, place)
                &&& read_right(t, disk, v)
                &&& v.cursor.wanted > 0 ==> c.reader.file <= v.cursor.file
            } || {
                &&& given_up(t, disk, c)
                &&& v.offset == 0
                &&& v.cursor.wanted > 0
                &&& v.cursor.offset < t.files[v.cursor.file].length
            }
        },
        Phase::OpenFor(section) => {
            &&& c.action == CheckAction::Open(section.file_index)
            &&& v.file_index == section.file_index
            &&& section.offset == 0
            &&& section_right(t, v, section)
            &&& read_right(t, disk, v)
        },
        Phase::Reading(section) => {
            &&& c.action == CheckAction::Read(section.length as usize)
            &&& section_right(t, v, section)
            &&& reading_on(t, disk, c, place)
            &&& c.reader.file == section.file_index
            &&& read_right(t, disk, v)
        },
        Phase::Failed => false,
    }
}

/// On to the next piece, where what is on disk ends before the end of this one.
proof fn lemma_giving_up(
    t: TorrentView,
    disk: Seq<Option<Seq<u8>>>,
    v: CheckView,
    reader: Reader,
    after: Checking,
)
    requires
        orderly(t),
        whole_but_for_last(t, disk),
        check_wf(t, v),
        v.piece < t.piece_count(),
        forall|i: PieceIndex|
            i.0 < v.piece ==> #[trigger] v.pieces.has(i) == piece_on_disk(t, disk, i),
        !v.file_open,
        v.file_index == t.files.len() - 1,
        file_start(t.files, t.files.len() - 1) < piece_end(t, v.index()),
        contents(disk).len() < piece_end(t, v.index()),
        after == (Checking { view: v.skipped().0, reader, action: v.skipped().1 }),
    ensures
        on_course(t, disk, after),
{
    let p = v.piece;
    lemma_piece_ends(t, p);
    assert(!v.pieces.has(v.index()));
    if p + 1 < t.piece_count() {
        lemma_piece_ends(t, p + 1);
    }
    assert forall|i: PieceIndex| i.0 < after.view.piece implies #[trigger] after.view.pieces.has(i)
        == piece_on_disk(t, disk, i) by {
        if i.0 == p {
            assert(i == v.index());
        }
    }
}

proof fn lemma_first_open(t: TorrentView, disk: Seq<Option<Seq<u8>>>, c: Checking)
    requires
        orderly(t),
        whole_but_for_last(t, disk),
        on_course(t, disk, c),
        c.view.phase is FirstOpen,
    ensures
        on_course(t, disk, answered(t, disk, c)),
{
    lemma_all_files(t.files);
    lemma_piece_ends(t, 0);
    assert(t.piece_start(PieceIndex(0)) == 0) by (nonlinear_arith)
        requires
            t.piece_start(PieceIndex(0)) == 0 * t.piece_length,
    ;
    if disk[0] is None {
        assert(disk.len() == 1);
        lemma_part_of_file(t, disk, 0, 0, 0);
    }
}

proof fn lemma_next_piece(t: TorrentView, disk: Seq<Option<Seq<u8>>>, c: Checking)
    requires
        orderly(t),
        whole_but_for_last(t, disk),
        on_course(t, disk, c),
        c.view.phase is NextPiece,
    ensures
        on_course(t, disk, answered(t, disk, c)),
{
    let v = c.view;
    if v.piece < t.piece_count() {
        let start = t.piece_start(v.index());
        lemma_piece_ends(t, v.piece);
        lemma_all_files(t.files);
        lemma_located(t.files, 0, start);
        let after = answered(t, disk, c);
        assert(untruncated(t.files, after.view.cursor));
        if reading_on(t, disk, c, start) {
            lemma_part_of_file(t, disk, c.reader.file, 0, c.reader.position);
            assert(after.view.buf.take(0) =~= contents(disk).subrange(start, start));
            if c.reader.file > after.view.cursor.file {
                lemma_file_starts(t.files, after.view.cursor.file, c.reader.file);
            }
        }
    }
}

proof fn lemma_piece_through(t: TorrentView, disk: Seq<Option<Seq<u8>>>, c: Checking)
    requires
        orderly(t),
        whole_but_for_last(t, disk),
        on_course(t, disk, c),
        c.view.phase is NextSection,
        exhausted(t.files, c.view.cursor),
    ensures
        on_course(t, disk, answered(t, disk, c)),
{
    let v = c.view;
    let index = v.index();
    let after = answered(t, disk, c);
    lemma_piece_ends(t, v.piece);
    assert(v.cursor.wanted == 0);
    assert(v.offset == t.piece_len(index));
    assert(v.piece_matches(t) == piece_on_disk(t, disk, index));
    if v.piece_matches(t) {
        law_changes_keep_count(v.pieces, index);
        lemma_room_for_one_more(v.pieces, index);
    }
    assert forall|i: PieceIndex| i.0 < after.view.piece implies #[trigger] after.view.pieces.has(i)
        == piece_on_disk(t, disk, i) by {
        if i.0 == v.piece {
            assert(i == index);
        } else {
            assert(v.pieces.has(i) == piece_on_disk(t, disk, i));
        }
    }
    assert forall|i: int| after.view.piece <= i < t.piece_count() implies !(
    #[trigger] after.view.pieces.bits[i]) by {
        assert(!v.pieces.bits[i]);
    }
}

proof fn lemma_next_section(t: TorrentView, disk: Seq<Option<Seq<u8>>>, c: Checking)
    requires
        orderly(t),
        whole_but_for_last(t, disk),
        on_course(t, disk, c),
        c.view.phase is NextSection,
        !exhausted(t.files, c.view.cursor),
    ensures
        on_course(t, disk, answered(t, disk, c)),
{
    let v = c.view;
    let after = answered(t, disk, c);
    let place = t.piece_start(v.index()) + v.offset;
    let k = v.cursor.file;
    let section = section_at(t.files, v.cursor);
    let next = cursor_after(t.files, v.cursor);
    let last = t.files.len() - 1;
    lemma_piece_ends(t, v.piece);
    lemma_all_files(t.files);
    lemma_file_starts(t.files, k, t.files.len() as int);
    assert(section.length == smaller(t.files[k].length - v.cursor.offset, v.cursor.wanted));
    let reached = CheckView { cursor: next, ..v };
    assert(section_right(t, reached, section)) by {
        if next.wanted > 0 {
            assert(section.offset + section.length == t.files[k].length);
            assert(k < last);
        }
    }
    if given_up(t, disk, c) {
        if k < last {
            lemma_file_starts(t.files, k, last);
        }
        assert(k == last);
        let through = CheckView { phase: Phase::NextPiece, ..reached };
        lemma_giving_up(t, disk, through, c.reader, after);
    } else {
        lemma_same_place(t.files, c.reader.file, c.reader.position, k, v.cursor.offset);
    }
}

proof fn lemma_opened(t: TorrentView, disk: Seq<Option<Seq<u8>>>, c: Checking, section: FileSection)
    requires
        orderly(t),
        whole_but_for_last(t, disk),
        on_course(t, disk, c),
        c.view.phase == Phase::OpenFor(section),
    ensures
        on_course(t, disk, answered(t, disk, c)),
{
    let v = c.view;
    let after = answered(t, disk, c);
    let f = section.file_index as int;
    lemma_piece_ends(t, v.piece);
    if disk[f] is None {
        assert(f == t.files.len() - 1);
        lemma_part_of_file(t, disk, f, 0, 0);
        lemma_giving_up(t, disk, CheckView { file_open: false, ..v }, c.reader, after);
    }
}

proof fn lemma_section_read(
    t: TorrentView,
    disk: Seq<Option<Seq<u8>>>,
    c: Checking,
    section: FileSection,
)
    requires
        orderly(t),
        whole_but_for_last(t, disk),
        on_course(t, disk, c),
        c.view.phase == Phase::Reading(section),
    ensures
        on_course(t, disk, answered(t, disk, c)),
{
    let v = c.view;
    let after = answered(t, disk, c);
    let f = section.file_index as int;
    let bytes = bytes_of(disk[f]);
    let start = t.piece_start(v.index());
    let position = c.reader.position;
    let end = smaller(position + section.length, bytes.len() as int);
    let data = bytes.subrange(position, end);
    lemma_piece_ends(t, v.piece);
    lemma_part_of_file(t, disk, f, position, end);
    if end < position + section.length {
        assert(f == t.files.len() - 1);
        let stop = v.offset + data.len();
        let buf = v.buf.take(v.offset) + data + v.buf.skip(stop);
        assert(buf.len() == v.buf.len());
        lemma_giving_up(t, disk, CheckView { buf, file_open: false, ..v }, after.reader, after);
    } else {
        let stop = v.offset + section.length;
        let all = contents(disk);
        assert(data == all.subrange(start + v.offset, start + stop));
        assert(after.view.buf.take(stop) =~= v.buf.take(v.offset) + data);
        assert(all.subrange(start, start + stop) =~= all.subrange(start, start + v.offset)
            + all.subrange(start + v.offset, start + stop));
    }
}

proof fn lemma_on_course(t: TorrentView, disk: Seq<Option<Seq<u8>>>, n: nat)
    requires
        orderly(t),
        whole_but_for_last(t, disk),
    ensures
        on_course(t, disk, after_answers(t, disk, n)),
    decreases n,
{
    if n == 0 {
        law_uniform_is_exact(t.piece_count() as nat, false);
    } else {
        let c = after_answers(t, disk, (n - 1) as nat);
        lemma_on_course(t, disk, (n - 1) as nat);
        match c.view.phase {
            Phase::FirstOpen => lemma_first_open(t, disk, c),
            Phase::NextPiece => lemma_next_piece(t, disk, c),
            Phase::NextSection => if exhausted(t.files, c.view.cursor) {
                lemma_piece_through(t, disk, c);
            } else {
                lemma_next_section(t, disk, c);
            },
            Phase::OpenFor(section) => lemma_opened(t, disk, c, section),
            Phase::Reading(section) => lemma_section_read(t, disk, c, section),
            Phase::Failed => {},
        }
    }
}

/// A check never fails, and when it is finished it has found exactly the pieces
/// that are on disk with all their bytes and have their hashes, over however many
/// files they lie. All files but the last have to be whole; the last one, and so
/// the only one of a torrent with one file, may be missing or of any length.
pub proof fn law_check_finds_pieces(t: TorrentView, disk: Seq<Option<Seq<u8>>>, n: nat)
    requires
        orderly(t),
        whole_but_for_last(t, disk),
    ensures
        ({
            let c = after_answers(t, disk, n);
            &&& !(c.action is Fault)
            &&& c.action is Finished ==> forall|i: PieceIndex|
                i.0 < t.piece_count() ==> #[trigger] c.view.pieces.has(i) == piece_on_disk(
                    t,
                    disk,
                    i,
                )
        }),
{
    lemma_on_course(t, disk, n);
}

} // verus!
