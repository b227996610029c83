//! Finding out which pieces are on disk already.
//!
//! The check reads the files one after the other, each from its start, piece by
//! piece, and compares what it has read with the hashes. It says what has to be
//! done with the files and is told what came of it.
use vstd::prelude::*;

use crate::byte_slices::bytes_equal;
use crate::digest::{sha1, sha1_digest};
use crate::file_sections::{
    cursor_after, cursor_at, exhausted, section_at, Cursor, FileSection, FileSectionIter,
};
use crate::piece_set::{
    law_changes_keep_count, law_uniform_is_exact, lemma_room_for_one_more, possible_room, PieceSet,
    Pieces,
};
use crate::torrent_info::{TorrentInfo, TorrentView};
use crate::types::PieceIndex;

verus! {

/// What has to be done next.
#[derive(Clone, Copy, Debug, PartialEq, Eq, Structural)]
pub enum CheckAction {
    /// Open the file of that index, and say whether it is there.
    Open(usize),
    /// Read on in the open file, at most so many bytes, and say what was read.
    Read(usize),
    /// Go on.
    Continue,
    /// All pieces have been checked.
    Finished,
    /// The pieces do not lie in the files as they should, or the answer was
    /// not one to the question.
    Fault,
}

/// What came of it.
#[derive(Debug)]
pub enum CheckEvent {
    Proceed,
    Opened(bool),
    Data(Vec<u8>),
}

/// A [`CheckEvent`], as mathematics.
pub enum CheckInput {
    Proceed,
    Opened(bool),
    Data(Seq<u8>),
}

impl View for CheckEvent {
    type V = CheckInput;

    open spec fn view(&self) -> CheckInput {
        match *self {
            CheckEvent::Proceed => CheckInput::Proceed,
            CheckEvent::Opened(found) => CheckInput::Opened(found),
            CheckEvent::Data(data) => CheckInput::Data(data@),
        }
    }
}

/// Where the check stands.
#[derive(Clone, Copy, Debug, PartialEq, Eq, Structural)]
pub enum Phase {
    /// The first file is being opened for the first time.
    FirstOpen,
    /// A piece is about to begin.
    NextPiece,
    /// A section of the piece is about to begin.
    NextSection,
    /// The file is being opened for the section.
    OpenFor(FileSection),
    /// The section is being read.
    Reading(FileSection),
    /// The check has failed.
    Failed,
}

/// The state of a check.
#[verifier::ext_equal]
pub struct CheckView {
    /// The pieces that were found.
    pub pieces: Pieces,
    /// What has been read of the piece.
    pub buf: Seq<u8>,
    /// The file that was opened last.
    pub file_index: int,
    /// Whether there is an open file.
    pub file_open: bool,
    /// The piece that is being checked.
    pub piece: int,
    /// The sections of the piece that are still to come.
    pub cursor: Cursor,
    /// How much of the piece has been read.
    pub offset: int,
    pub phase: Phase,
}

impl CheckView {
    pub open spec fn index(self) -> PieceIndex {
        PieceIndex(self.piece as u32)
    }

    pub open spec fn failed(self) -> (CheckView, CheckAction) {
        (CheckView { phase: Phase::Failed, ..self }, CheckAction::Fault)
    }

    /// On to the next piece.
    pub open spec fn skipped(self) -> (CheckView, CheckAction) {
        (
            CheckView { piece: self.piece + 1, phase: Phase::NextPiece, ..self },
            CheckAction::Continue,
        )
    }

    /// A section of an open file is to be read.
    pub open spec fn reading(self, section: FileSection) -> (CheckView, CheckAction) {
        (
            CheckView { phase: Phase::Reading(section), ..self },
            CheckAction::Read(section.length as usize),
        )
    }

    /// Whether what was read is the piece.
    pub open spec fn piece_matches(self, t: TorrentView) -> bool {
        sha1_digest(self.buf.take(t.piece_len(self.index()) as int)) == t.piece_hash(self.index())
    }
}

/// A piece begins.
pub open spec fn begin_piece(t: TorrentView, v: CheckView) -> (CheckView, CheckAction) {
    if v.piece >= t.piece_count() {
        (v, CheckAction::Finished)
    } else if t.piece_start(v.index()) >= t.total_size {
        v.failed()
    } else {
        (
            CheckView {
                cursor: cursor_at(
                    t.files,
                    t.piece_start(v.index()),
                    t.piece_len(v.index()) as int,
                ),
                offset: 0,
                phase: Phase::NextSection,
                ..v
            },
            CheckAction::Continue,
        )
    }
}

/// A section begins, or the piece is through: it is there if it has the right
/// hash.
pub open spec fn begin_section(t: TorrentView, v: CheckView) -> (CheckView, CheckAction) {
    if exhausted(t.files, v.cursor) {
        CheckView {
            pieces: if v.piece_matches(t) {
                v.pieces.with(v.index())
            } else {
                v.pieces
            },
            ..v
        }.skipped()
    } else {
        let section = section_at(t.files, v.cursor);
        let next = CheckView { cursor: cursor_after(t.files, v.cursor), ..v };
        if v.file_index < section.file_index {
            (
                CheckView {
                    file_index: section.file_index as int,
                    phase: Phase::OpenFor(section),
                    ..next
                },
                CheckAction::Open(section.file_index),
            )
        } else if v.file_open {
            next.reading(section)
        } else {
            next.skipped()
        }
    }
}

/// Bytes of a section have come, and go behind what has been read of the piece.
/// If they are fewer than the section has, the file is too short, and the piece
/// cannot be there.
pub open spec fn take_data(v: CheckView, section: FileSection, data: Seq<u8>) -> (
    CheckView,
    CheckAction,
) {
    if data.len() > section.length {
        v.failed()
    } else {
        let end = v.offset + data.len();
        let buf = v.buf.take(v.offset) + data + v.buf.skip(end);
        if data.len() < section.length {
            CheckView { buf, file_open: false, ..v }.skipped()
        } else {
            (
                CheckView { buf, offset: v.offset + section.length, phase: Phase::NextSection, ..v },
                CheckAction::Continue,
            )
        }
    }
}

/// What follows in state `v` when `input` comes.
pub open spec fn check_step(t: TorrentView, v: CheckView, input: CheckInput) -> (
    CheckView,
    CheckAction,
) {
    match (v.phase, input) {
        (Phase::FirstOpen, CheckInput::Opened(found)) => (
            CheckView { file_open: found, phase: Phase::NextPiece, ..v },
            CheckAction::Continue,
        ),
        (Phase::NextPiece, CheckInput::Proceed) => begin_piece(t, v),
        (Phase::NextSection, CheckInput::Proceed) => begin_section(t, v),
        (Phase::OpenFor(section), CheckInput::Opened(found)) => if found {
            CheckView { file_open: true, ..v }.reading(section)
        } else {
            CheckView { file_open: false, ..v }.skipped()
        },
        (Phase::Reading(section), CheckInput::Data(data)) => take_data(v, section, data),
        _ => v.failed(),
    }
}

/// The state in which a check begins: the file has to be opened.
pub open spec fn check_start(t: TorrentView) -> CheckView {
    CheckView {
        pieces: Pieces::uniform(t.piece_count() as nat, false),
        buf: Seq::new(t.piece_length as nat, |i: int| 0u8),
        file_index: 0,
        file_open: false,
        piece: 0,
        cursor: Cursor { file: 0, offset: 0, wanted: 0 },
        offset: 0,
        phase: Phase::FirstOpen,
    }
}

/// What holds of every state: nothing is marked that has not been checked, and
/// what is being read has room.
pub open spec fn check_wf(t: TorrentView, v: CheckView) -> bool {
    &&& v.pieces.bits.len() == t.piece_count()
    &&& v.pieces.exact()
    &&& forall|i: int| v.piece <= i < t.piece_count() ==> !(#[trigger] v.pieces.bits[i])
    &&& v.buf.len() == t.piece_length
    &&& 0 <= v.piece <= t.piece_count()
    &&& 0 <= v.offset <= u32::MAX
    &&& 0 <= v.file_index
    &&& v.phase is NextSection || v.phase is OpenFor || v.phase is Reading ==> {
        &&& v.piece < t.piece_count()
        &&& t.has_length(v.index())
        &&& 0 <= v.cursor.wanted
    }
    &&& match v.phase {
        Phase::NextSection => v.offset + v.cursor.wanted == t.piece_len(v.index()),
        Phase::OpenFor(section) => v.offset + section.length + v.cursor.wanted == t.piece_len(
            v.index(),
        ),
        Phase::Reading(section) => v.offset + section.length + v.cursor.wanted == t.piece_len(
            v.index(),
        ),
        _ => true,
    }
}

/// A check of the files of a torrent against its hashes.
pub struct PieceCheck<'a> {
    torrent: &'a TorrentInfo,
    piece_set: PieceSet,
    buf: Vec<u8>,
    file_index: usize,
    file_open: bool,
    piece: u32,
    sections: Option<FileSectionIter<'a>>,
    offset: u32,
    phase: Phase,
}

impl<'a> View for PieceCheck<'a> {
    type V = CheckView;

    closed spec fn view(&self) -> CheckView {
        CheckView {
            pieces: self.piece_set@,
            buf: self.buf@,
            file_index: self.file_index as int,
            file_open: self.file_open,
            piece: self.piece as int,
            cursor: match self.sections {
                Some(sections) => sections.cursor(),
                None => Cursor { file: 0, offset: 0, wanted: 0 },
            },
            offset: self.offset as int,
            phase: self.phase,
        }
    }
}

impl<'a> PieceCheck<'a> {
    pub closed spec fn torrent(self) -> TorrentView {
        self.torrent@
    }

    closed spec fn sections_wf(self) -> bool {
        match self.sections {
            Some(sections) => sections.wf() && sections.files() == self.torrent@.files,
            None => !(self.phase is NextSection || self.phase is OpenFor || self.phase is Reading),
        }
    }

    pub closed spec fn wf(self) -> bool {
        &&& self.torrent@.wf()
        &&& check_wf(self.torrent@, self@)
        &&& self.sections_wf()
        &&& possible_room(self.piece_set@, self.piece_set.room())
    }

    /// The pieces that were found so far.
    pub fn into_pieces(self) -> (r: PieceSet)
        requires
            self.wf(),
        ensures
            r@ == self@.pieces,
            r@.exact(),
            r@.bits.len() == self.torrent().piece_count(),
            possible_room(r@, r.room()),
    {
        self.piece_set
    }

    fn fail(&mut self) -> (r: CheckAction)
        requires
            old(self).wf(),
        ensures
            final(self).wf(),
            final(self).torrent() == old(self).torrent(),
            (final(self)@, r) == old(self)@.failed(),
    {
        self.phase = Phase::Failed;
        CheckAction::Fault
    }

    fn skip_piece(&mut self) -> (r: CheckAction)
        requires
            old(self).wf(),
            old(self)@.piece < old(self).torrent().piece_count(),
        ensures
            final(self).wf(),
            final(self).torrent() == old(self).torrent(),
            (final(self)@, r) == old(self)@.skipped(),
    {
        self.piece = self.piece + 1;
        self.phase = Phase::NextPiece;
        CheckAction::Continue
    }

    fn begin_piece(&mut self) -> (r: CheckAction)
        requires
            old(self).wf(),
            old(self)@.phase is NextPiece,
        ensures
            final(self).wf(),
            final(self).torrent() == old(self).torrent(),
            (final(self)@, r) == begin_piece(old(self).torrent(), old(self)@),
    {
        if self.piece >= self.torrent.piece_count() {
            return CheckAction::Finished;
        }
        let index = PieceIndex(self.piece);
        if !self.torrent.block_starts_inside(index, 0) {
            return self.fail();
        }
        let length = self.torrent.get_piece_length(index);
        self.sections = Some(self.torrent.map_block(index, 0, length));
        self.offset = 0;
        self.phase = Phase::NextSection;
        CheckAction::Continue
    }

    fn begin_section(&mut self) -> (r: CheckAction)
        requires
            old(self).wf(),
            old(self)@.phase is NextSection,
        ensures
            final(self).wf(),
            final(self).torrent() == old(self).torrent(),
            (final(self)@, r) == begin_section(old(self).torrent(), old(self)@),
    {
        let ghost before = self@;
        let mut sections = match self.sections.take() {
            Some(sections) => sections,
            None => {
                proof {
                    assert(false);
                }
                return CheckAction::Fault;
            },
        };
        let next = sections.next();
        self.sections = Some(sections);
        match next {
            None => {
                let index = PieceIndex(self.piece);
                let length = self.torrent.get_piece_length(index);
                let piece = vstd::slice::slice_subrange(self.buf.as_slice(), 0, length as usize);
                assert(piece@ =~= before.buf.take(length as int));
                let digest = sha1(piece);
                if bytes_equal(digest.as_slice(), self.torrent.get_piece_hash(index)) {
                    proof {
                        law_changes_keep_count(self@.pieces, index);
                        lemma_room_for_one_more(self@.pieces, index);
                    }
                    self.piece_set.set_true(index);
                }
                self.piece = self.piece + 1;
                self.phase = Phase::NextPiece;
                CheckAction::Continue
            },
            Some(section) => {
                if self.file_index < section.file_index {
                    self.file_index = section.file_index;
                    self.phase = Phase::OpenFor(section);
                    CheckAction::Open(section.file_index)
                } else if self.file_open {
                    self.phase = Phase::Reading(section);
                    CheckAction::Read(section.length as usize)
                } else {
                    self.piece = self.piece + 1;
                    self.phase = Phase::NextPiece;
                    CheckAction::Continue
                }
            },
        }
    }

    fn take_data(&mut self, section: FileSection, data: &Vec<u8>) -> (r: CheckAction)
        requires
            old(self).wf(),
            old(self)@.phase == Phase::Reading(section),
        ensures
            final(self).wf(),
            final(self).torrent() == old(self).torrent(),
            (final(self)@, r) == take_data(old(self)@, section, data@),
    {
        let ghost before = self@;
        if data.len() > section.length as usize {
            return self.fail();
        }
        let start = self.offset as usize;
        let buf_len = self.buf.len();
        let mut i: usize = 0;
        assert(self.buf@ =~= before.buf.take(start as int) + data@.take(0) + before.buf.skip(
            start as int,
        ));
        while i < data.len()
            invariant
                start == self.offset,
                start == before.offset,
                i <= data@.len(),
                start + data@.len() <= buf_len,
                self.buf@.len() == buf_len,
                before.buf.len() == buf_len,
                self.buf@ == before.buf.take(start as int) + data@.take(i as int)
                    + before.buf.skip(start + i),
                self.torrent == old(self).torrent,
                self.piece_set == old(self).piece_set,
                self.file_index == old(self).file_index,
                self.file_open == old(self).file_open,
                self.piece == old(self).piece,
                self.sections == old(self).sections,
                self.offset == old(self).offset,
                self.phase == old(self).phase,
            decreases data@.len() - i,
        {
            self.buf.set(start + i, data[i]);
            i = i + 1;
            assert(self.buf@ =~= before.buf.take(start as int) + data@.take(i as int)
                + before.buf.skip(start + i));
        }
        assert(data@.take(i as int) =~= data@);
        if data.len() < section.length as usize {
            self.file_open = false;
            self.piece = self.piece + 1;
            self.phase = Phase::NextPiece;
        } else {
            self.offset = self.offset + section.length;
            self.phase = Phase::NextSection;
        }
        CheckAction::Continue
    }

    /// Goes on in the check, with what came of the last action.
    pub fn step(&mut self, event: CheckEvent) -> (r: CheckAction)
        requires
            old(self).wf(),
        ensures
            final(self).wf(),
            final(self).torrent() == old(self).torrent(),
            (final(self)@, r) == check_step(old(self).torrent(), old(self)@, event@),
    {
        match (self.phase, event) {
            (Phase::FirstOpen, CheckEvent::Opened(found)) => {
                self.file_open = found;
                self.phase = Phase::NextPiece;
                CheckAction::Continue
            },
            (Phase::NextPiece, CheckEvent::Proceed) => self.begin_piece(),
            (Phase::NextSection, CheckEvent::Proceed) => self.begin_section(),
            (Phase::OpenFor(section), CheckEvent::Opened(found)) => {
                self.file_open = found;
                if found {
                    self.phase = Phase::Reading(section);
                    CheckAction::Read(section.length as usize)
                } else {
                    self.skip_piece()
                }
            },
            (Phase::Reading(section), CheckEvent::Data(data)) => self.take_data(section, &data),
            _ => self.fail(),
        }
    }
}

impl TorrentInfo {
    /// Begins to find out which pieces are on disk. The first thing to do is
    /// [`CheckAction::Open`], with the first file.
    pub fn check_downloaded_pieces(&self) -> (r: PieceCheck<'_>)
        requires
            self@.wf(),
        ensures
            r.wf(),
            r.torrent() == self@,
            r@ == check_start(self@),
    {
        let mut buf: Vec<u8> = Vec::new();
        buf.resize(self.piece_length() as usize, 0);
        proof {
            law_uniform_is_exact(self@.piece_count() as nat, false);
            assert(buf@ =~= Seq::new(self@.piece_length as nat, |i: int| 0u8));
        }
        PieceCheck {
            torrent: self,
            piece_set: PieceSet::new_empty(self),
            buf,
            file_index: 0,
            file_open: false,
            piece: 0,
            sections: None,
            offset: 0,
            phase: Phase::FirstOpen,
        }
    }
}

/// A step marks a piece only if what was read of it has its hash; it forgets
/// none.
pub proof fn law_marked_pieces_match(t: TorrentView, v: CheckView, input: CheckInput, i: int)
    requires
        check_wf(t, v),
        0 <= i < t.piece_count(),
    ensures
        ({
            let after = check_step(t, v, input).0;
            &&& v.pieces.bits[i] ==> after.pieces.bits[i]
            &&& after.pieces.bits[i] && !v.pieces.bits[i] ==> i == v.piece && v.piece_matches(t)
        }),
{
}

/// How far into a piece the check is.
pub open spec fn stage(phase: Phase) -> int {
    match phase {
        Phase::FirstOpen => 0,
        Phase::NextPiece => 1,
        _ => 2,
    }
}

/// How far into a section the check is.
pub open spec fn substage(phase: Phase) -> int {
    match phase {
        Phase::OpenFor(_) => 1,
        Phase::Reading(_) => 2,
        Phase::NextSection => 3,
        _ => 0,
    }
}

/// Whether `after` is further on than `before`: in a later piece, or later in
/// the piece, or in a later section, or later in the section.
pub open spec fn further_on(before: CheckView, after: CheckView) -> bool {
    ||| after.piece > before.piece
    ||| after.piece == before.piece && {
        ||| stage(after.phase) > stage(before.phase)
        ||| stage(after.phase) == stage(before.phase) && {
            ||| after.cursor.file > before.cursor.file
            ||| after.cursor.file == before.cursor.file && substage(after.phase) > substage(
                before.phase,
            )
        }
    }
}

/// The check comes to an end: every step gets it further on, unless it is
/// finished or has failed, and there are only so many pieces and sections.
pub proof fn law_check_gets_on(t: TorrentView, v: CheckView, input: CheckInput)
    requires
        check_wf(t, v),
    ensures
        ({
            let (after, action) = check_step(t, v, input);
            &&& action is Finished || action is Fault || further_on(v, after)
            &&& after.piece <= t.piece_count()
            &&& after.cursor.file > v.cursor.file && after.piece == v.piece && stage(v.phase) == 2
                ==> after.cursor.file <= t.files.len()
        }),
{
}

} // verus!
