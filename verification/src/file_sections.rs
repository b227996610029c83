//! Where in the files the bytes of a block lie.
use vstd::prelude::*;

use crate::buffers::smaller;
use crate::torrent_info::{file_views, total_length, FileView, TorrentInfo, TorrentView};
use crate::types::PieceIndex;
use crate::wire::low_word;

verus! {

/// A run of bytes in one file.
#[derive(Clone, Copy, Debug, PartialEq, Eq, Structural)]
pub struct FileSection {
    pub file_index: usize,
    pub offset: u64,
    pub length: u32,
}

/// A place in the files, and how many bytes are still wanted from there on.
#[verifier::ext_equal]
pub struct Cursor {
    pub file: int,
    pub offset: int,
    pub wanted: int,
}

/// The file in which the byte `offset` lies, and its place in that file, where
/// `offset` is counted from the start of file `from`.
pub open spec fn located(files: Seq<FileView>, from: int, offset: int) -> (int, int)
    decreases files.len() - from,
{
    if from < 0 || from >= files.len() || offset < files[from].length {
        (from, offset)
    } else {
        located(files, from + 1, offset - files[from].length)
    }
}

/// The place of the byte `start`, counted over all files, with `length` bytes
/// wanted from there.
pub open spec fn cursor_at(files: Seq<FileView>, start: int, length: int) -> Cursor {
    let (file, offset) = located(files, 0, start);
    Cursor { file, offset, wanted: length }
}

/// How much of what is wanted the file at the cursor gives: its rest, of which
/// the low 32 bits count, or all that is wanted.
pub open spec fn section_length(files: Seq<FileView>, cur: Cursor) -> int {
    smaller((files[cur.file].length - cur.offset) % 0x1_0000_0000, cur.wanted)
}

/// Whether there is nothing more to come.
pub open spec fn exhausted(files: Seq<FileView>, cur: Cursor) -> bool {
    cur.wanted <= 0 || cur.file < 0 || cur.file >= files.len()
}

pub open spec fn section_at(files: Seq<FileView>, cur: Cursor) -> FileSection {
    FileSection {
        file_index: cur.file as usize,
        offset: cur.offset as u64,
        length: section_length(files, cur) as u32,
    }
}

/// The cursor behind a section: the next file, from its start.
pub open spec fn cursor_after(files: Seq<FileView>, cur: Cursor) -> Cursor {
    Cursor { file: cur.file + 1, offset: 0, wanted: cur.wanted - section_length(files, cur) }
}

/// All sections from the cursor on.
pub open spec fn sections(files: Seq<FileView>, cur: Cursor) -> Seq<FileSection>
    decreases files.len() - cur.file,
{
    if exhausted(files, cur) {
        Seq::empty()
    } else {
        seq![section_at(files, cur)] + sections(files, cursor_after(files, cur))
    }
}

impl TorrentView {
    /// Where a block starts, counted over all files.
    pub open spec fn block_start(self, index: PieceIndex, offset: u32) -> int {
        self.piece_start(index) + offset
    }
}

/// The sections of a block, one after the other.
pub struct FileSectionIter<'a> {
    torrent: &'a TorrentInfo,
    cur_file_index: usize,
    cur_file_offset: u64,
    piece_remaining_bytes: u32,
}

impl<'a> FileSectionIter<'a> {
    /// The files the sections lie in.
    pub closed spec fn files(self) -> Seq<FileView> {
        self.torrent@.files
    }

    pub closed spec fn cursor(self) -> Cursor {
        Cursor {
            file: self.cur_file_index as int,
            offset: self.cur_file_offset as int,
            wanted: self.piece_remaining_bytes as int,
        }
    }

    /// A cursor in a file is not past its end.
    pub open spec fn wf(self) -> bool {
        &&& 0 <= self.cursor().file
        &&& 0 <= self.cursor().wanted <= u32::MAX
        &&& 0 <= self.cursor().offset
        &&& self.cursor().file < self.files().len() ==> self.cursor().offset
            <= self.files()[self.cursor().file].length
        &&& self.cursor().file >= self.files().len() ==> self.cursor().offset == 0
    }

    fn new(
        piece_index: PieceIndex,
        offset: u32,
        length: u32,
        torrent: &'a TorrentInfo,
    ) -> (r: FileSectionIter<'a>)
        requires
            torrent@.wf(),
            torrent@.block_start(piece_index, offset) < torrent@.total_size,
        ensures
            r.wf(),
            r.files() == torrent@.files,
            r.cursor() == cursor_at(
                torrent@.files,
                torrent@.block_start(piece_index, offset),
                length as int,
            ),
    {
        let piece_length = torrent.piece_length();
        assert(0 <= piece_index.0 * piece_length <= 0xffff_ffff * 0xffff_ffff) by (nonlinear_arith)
            requires
                0 <= piece_index.0 <= 0xffff_ffff,
                0 <= piece_length <= 0xffff_ffff,
        ;
        let mut remaining_offset: u64 = piece_index.0 as u64 * piece_length as u64 + offset as u64;
        let mut file_index: usize = 0;
        let ghost views = torrent@.files;
        let ghost start = remaining_offset as int;
        assert(views.take(0) =~= Seq::empty());
        let files = torrent.files();
        while file_index < files.len() && remaining_offset >= files[file_index].length
            invariant
                views == torrent@.files,
                views == file_views(files@),
                start < total_length(views),
                start == remaining_offset + total_length(views.take(file_index as int)),
                file_index <= views.len(),
                located(views, 0, start) == located(
                    views,
                    file_index as int,
                    remaining_offset as int,
                ),
            decreases files@.len() - file_index,
        {
            proof {
                assert(views[file_index as int].length == files@[file_index as int].length);
                assert(views.take(file_index + 1).drop_last() =~= views.take(file_index as int));
            }
            remaining_offset = remaining_offset - files[file_index].length;
            file_index = file_index + 1;
        }
        proof {
            if file_index == views.len() {
                assert(views.take(file_index as int) =~= views);
                assert(false);
            }
            assert(views[file_index as int].length == files@[file_index as int].length);
        }
        FileSectionIter {
            torrent,
            cur_file_index: file_index,
            cur_file_offset: remaining_offset,
            piece_remaining_bytes: length,
        }
    }

    /// The next section, if anything is left of the block and of the files.
    pub fn next(&mut self) -> (r: Option<FileSection>)
        requires
            old(self).wf(),
        ensures
            final(self).wf(),
            final(self).files() == old(self).files(),
            match r {
                Some(section) => {
                    &&& !exhausted(old(self).files(), old(self).cursor())
                    &&& section == section_at(old(self).files(), old(self).cursor())
                    &&& final(self).cursor() == cursor_after(old(self).files(), old(self).cursor())
                },
                None => {
                    &&& exhausted(old(self).files(), old(self).cursor())
                    &&& final(self).cursor() == old(self).cursor()
                },
            },
    {
        let files = self.torrent.files();
        if self.piece_remaining_bytes == 0 || self.cur_file_index >= files.len() {
            return None;
        }
        let cur_file_offset = self.cur_file_offset;
        let cur_file_index = self.cur_file_index;
        assert(self.files()[cur_file_index as int].length == files@[cur_file_index as int].length);
        let rest = low_word(files[cur_file_index].length - cur_file_offset);
        let section_length = if rest <= self.piece_remaining_bytes {
            rest
        } else {
            self.piece_remaining_bytes
        };
        self.cur_file_index = self.cur_file_index + 1;
        self.cur_file_offset = 0;
        self.piece_remaining_bytes = self.piece_remaining_bytes - section_length;
        Some(
            FileSection {
                file_index: cur_file_index,
                offset: cur_file_offset,
                length: section_length,
            },
        )
    }
}

impl TorrentInfo {
    /// Where the bytes of a block lie. The block has to start inside the
    /// files.
    pub fn map_block(&self, piece_index: PieceIndex, offset: u32, length: u32) -> (r:
        FileSectionIter<'_>)
        requires
            self@.wf(),
            self@.block_start(piece_index, offset) < self@.total_size,
        ensures
            r.wf(),
            r.files() == self@.files,
            r.cursor() == cursor_at(
                self@.files,
                self@.block_start(piece_index, offset),
                length as int,
            ),
    {
        FileSectionIter::new(piece_index, offset, length, self)
    }

    /// Whether a block starts inside the files.
    pub fn block_starts_inside(&self, piece_index: PieceIndex, offset: u32) -> (r: bool)
        ensures
            r == (self@.block_start(piece_index, offset) < self@.total_size),
    {
        let piece_length = self.piece_length();
        assert(0 <= piece_index.0 * piece_length <= 0xffff_ffff * 0xffff_ffff) by (nonlinear_arith)
            requires
                0 <= piece_index.0 <= 0xffff_ffff,
                0 <= piece_length <= 0xffff_ffff,
        ;
        piece_index.0 as u64 * piece_length as u64 + (offset as u64) < self.total_size()
    }
}

/// Where a file starts, counted over all files.
pub open spec fn file_start(files: Seq<FileView>, file: int) -> int {
    total_length(files.take(file)) as int
}

/// How many bytes sections hold.
pub open spec fn covered(parts: Seq<FileSection>) -> int
    decreases parts.len(),
{
    if parts.len() == 0 {
        0
    } else {
        covered(parts.drop_last()) + parts.last().length
    }
}

/// Whether every section from the cursor on is as long as it can be: as what
/// is wanted, or as the rest of the file. Where the rest of a file takes more
/// than 32 bits to count, a section may be shorter.
pub open spec fn untruncated(files: Seq<FileView>, cur: Cursor) -> bool
    decreases files.len() - cur.file,
{
    exhausted(files, cur) || {
        &&& section_length(files, cur) == smaller(files[cur.file].length - cur.offset, cur.wanted)
        &&& untruncated(files, cursor_after(files, cur))
    }
}

pub proof fn lemma_located(files: Seq<FileView>, from: int, offset: int)
    requires
        0 <= from <= files.len(),
        0 <= offset,
        file_start(files, from) + offset < total_length(files),
    ensures
        ({
            let (file, rest) = located(files, from, offset);
            &&& from <= file < files.len()
            &&& 0 <= rest < files[file].length
            &&& file_start(files, file) + rest == file_start(files, from) + offset
        }),
    decreases files.len() - from,
{
    if from == files.len() {
        assert(files.take(from) =~= files);
    } else if offset >= files[from].length {
        assert(files.take(from + 1).drop_last() =~= files.take(from));
        lemma_located(files, from + 1, offset - files[from].length);
    }
}

proof fn lemma_covered_append(first: FileSection, rest: Seq<FileSection>)
    ensures
        covered(seq![first] + rest) == first.length + covered(rest),
    decreases rest.len(),
{
    let all = seq![first] + rest;
    if rest.len() == 0 {
        assert(all.drop_last() =~= rest);
        assert(all.last() == first);
    } else {
        assert(all.last() == rest.last());
        assert(all.drop_last() =~= seq![first] + rest.drop_last());
        lemma_covered_append(first, rest.drop_last());
    }
}

/// Whether the section with number `k` lies inside a file, and starts where
/// the ones before it stop.
pub open spec fn section_fits(
    files: Seq<FileView>,
    start: int,
    parts: Seq<FileSection>,
    k: int,
) -> bool {
    &&& parts[k].file_index < files.len()
    &&& parts[k].offset + parts[k].length <= files[parts[k].file_index as int].length
    &&& file_start(files, parts[k].file_index as int) + parts[k].offset == start + covered(
        parts.take(k),
    )
}

proof fn lemma_sections_cover(files: Seq<FileView>, cur: Cursor)
    requires
        files.len() <= usize::MAX,
        0 <= cur.file <= files.len(),
        0 <= cur.wanted <= u32::MAX,
        0 <= cur.offset,
        cur.file < files.len() ==> cur.offset <= files[cur.file].length,
        cur.file == files.len() ==> cur.offset == 0,
        untruncated(files, cur),
    ensures
        ({
            let start = file_start(files, cur.file) + cur.offset;
            let parts = sections(files, cur);
            &&& covered(parts) == smaller(cur.wanted, total_length(files) - start)
            &&& forall|k: int|
                0 <= k < parts.len() ==> #[trigger] section_fits(files, start, parts, k)
        }),
    decreases files.len() - cur.file,
{
    let start = file_start(files, cur.file) + cur.offset;
    let parts = sections(files, cur);
    if exhausted(files, cur) {
        if cur.file == files.len() {
            assert(files.take(cur.file) =~= files);
        } else {
            lemma_inside_total(files, cur.file);
        }
    } else {
        let next = cursor_after(files, cur);
        let first = section_at(files, cur);
        let rest = sections(files, next);
        let len = section_length(files, cur);
        assert(files.take(cur.file + 1).drop_last() =~= files.take(cur.file));
        lemma_sections_cover(files, next);
        lemma_covered_append(first, rest);
        lemma_inside_total(files, cur.file);
        if next.wanted == 0 {
            assert(rest =~= Seq::empty());
        }
        assert(covered(parts) == smaller(cur.wanted, total_length(files) - start));
        assert forall|k: int| 0 <= k < parts.len() implies #[trigger] section_fits(
            files,
            start,
            parts,
            k,
        ) by {
            if k == 0 {
                assert(parts.take(0) =~= Seq::empty());
            } else {
                let next_start = file_start(files, next.file) + next.offset;
                assert(section_fits(files, next_start, rest, k - 1));
                assert(parts[k] == rest[k - 1]);
                assert(parts.take(k) =~= seq![first] + rest.take(k - 1));
                lemma_covered_append(first, rest.take(k - 1));
            }
        }
    }
}

proof fn lemma_inside_total(files: Seq<FileView>, file: int)
    requires
        0 <= file < files.len(),
    ensures
        file_start(files, file) + files[file].length <= total_length(files),
    decreases files.len() - file,
{
    assert(files.take(file + 1).drop_last() =~= files.take(file));
    if file + 1 == files.len() {
        assert(files.take(file + 1) =~= files);
    } else {
        lemma_inside_total(files, file + 1);
    }
}

/// The sections of a block follow each other without gap or overlap, each
/// inside its file, and hold the whole block, or all of it that lies inside
/// the files.
pub proof fn law_sections_cover_block(files: Seq<FileView>, start: int, length: u32)
    requires
        files.len() <= usize::MAX,
        0 <= start < total_length(files),
        untruncated(files, cursor_at(files, start, length as int)),
    ensures
        ({
            let parts = sections(files, cursor_at(files, start, length as int));
            &&& covered(parts) == smaller(length as int, total_length(files) - start)
            &&& forall|k: int|
                0 <= k < parts.len() ==> #[trigger] section_fits(files, start, parts, k)
        }),
{
    assert(files.take(0) =~= Seq::empty());
    lemma_located(files, 0, start);
    lemma_sections_cover(files, cursor_at(files, start, length as int));
}

/// Where no file takes more than 32 bits to count, no section is cut short.
pub proof fn law_small_files_are_untruncated(files: Seq<FileView>, cur: Cursor)
    requires
        forall|i: int| 0 <= i < files.len() ==> (#[trigger] files[i]).length <= u32::MAX,
        0 <= cur.offset,
        0 <= cur.file < files.len() ==> cur.offset <= files[cur.file].length,
    ensures
        untruncated(files, cur),
    decreases files.len() - cur.file,
{
    if !exhausted(files, cur) {
        law_small_files_are_untruncated(files, cursor_after(files, cur));
    }
}

} // verus!
