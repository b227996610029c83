//! What a torrent is made of.
use vstd::prelude::*;

use crate::bencode::{lemma_model, lemma_well_formed, BVal, BValue, Dict};
use crate::conversion::{
    bytes_value, integer_value, list_value, text_value, ConversionError, ConversionResult,
    FromBValue,
};
use crate::digest::{sha1, sha1_digest};
use crate::piece_set::{lemma_number_set_bounds, number_set, PieceSet, Pieces};
use crate::types::PieceIndex;
use crate::wire::low_word;

verus! {

/// A file of the torrent: its path, segment by segment, and its length.
#[derive(Debug)]
pub struct FileInfo {
    pub path: Vec<String>,
    pub length: u64,
}

/// What a [`FileInfo`] says.
#[verifier::ext_equal]
pub struct FileView {
    pub path: Seq<Seq<char>>,
    pub length: u64,
}

impl View for FileInfo {
    type V = FileView;

    open spec fn view(&self) -> FileView {
        FileView { path: self.path@.map_values(|s: String| s@), length: self.length }
    }
}

pub open spec fn file_views(files: Seq<FileInfo>) -> Seq<FileView> {
    files.map_values(|f: FileInfo| f@)
}

/// What a [`TorrentInfo`] says.
#[verifier::ext_equal]
pub struct TorrentView {
    pub name: Seq<char>,
    pub piece_length: u32,
    pub hashes: Seq<u8>,
    pub files: Seq<FileView>,
    pub total_size: u64,
    pub info_hash: Seq<u8>,
}

/// The lengths of the files, summed up.
pub open spec fn total_length(files: Seq<FileView>) -> nat
    decreases files.len(),
{
    if files.len() == 0 {
        0
    } else {
        total_length(files.drop_last()) + files.last().length as nat
    }
}

impl TorrentView {
    /// How many pieces there are: a hash of 20 bytes for each.
    pub open spec fn piece_count(self) -> u32 {
        (self.hashes.len() % 0x1_0000_0000 / 20) as u32
    }

    /// Where a piece starts, counted over all files.
    pub open spec fn piece_start(self, index: PieceIndex) -> int {
        index.0 * self.piece_length
    }

    /// Whether there is a piece of that index, and it starts inside the files.
    pub open spec fn has_length(self, index: PieceIndex) -> bool {
        &&& index.0 < self.piece_count()
        &&& self.piece_start(index) <= self.total_size
    }

    /// How long a piece is. The last one may be shorter than the others.
    pub open spec fn piece_len(self, index: PieceIndex) -> u32 {
        let rest = (self.total_size - self.piece_start(index)) % 0x1_0000_0000;
        if rest <= self.piece_length {
            rest as u32
        } else {
            self.piece_length
        }
    }

    pub open spec fn piece_hash(self, index: PieceIndex) -> Seq<u8> {
        self.hashes.subrange(index.0 * 20, index.0 * 20 + 20)
    }

    pub open spec fn wf(self) -> bool {
        &&& self.hashes.len() % 20 == 0
        &&& self.files.len() > 0
        &&& self.total_size == total_length(self.files)
        &&& self.info_hash.len() == 20
    }
}

/// The metadata of a torrent.
#[derive(Debug)]
pub struct TorrentInfo {
    name: String,
    piece_length: u32,
    hashes: Vec<u8>,
    files: Vec<FileInfo>,
    total_size: u64,
    info_hash: Vec<u8>,
}

impl View for TorrentInfo {
    type V = TorrentView;

    closed spec fn view(&self) -> TorrentView {
        TorrentView {
            name: self.name@,
            piece_length: self.piece_length,
            hashes: self.hashes@,
            files: file_views(self.files@),
            total_size: self.total_size,
            info_hash: self.info_hash@,
        }
    }
}

/// The lengths of the files summed up, or `None` where 64 bits do not hold
/// the sum.
pub fn sum_of_lengths(files: &Vec<FileInfo>) -> (r: Option<u64>)
    ensures
        match r {
            Some(sum) => sum == total_length(file_views(files@)),
            None => total_length(file_views(files@)) > u64::MAX,
        },
{
    let ghost views = file_views(files@);
    let mut sum: u64 = 0;
    let mut i: usize = 0;
    while i < files.len()
        invariant
            i <= files@.len(),
            views == file_views(files@),
            sum == total_length(views.take(i as int)),
        decreases files@.len() - i,
    {
        let ghost grown = views.take(i + 1);
        assert(grown.drop_last() =~= views.take(i as int));
        assert(grown.last() == views[i as int]);
        match sum.checked_add(files[i].length) {
            Some(s) => {
                sum = s;
            },
            None => {
                proof {
                    lemma_total_length_grows(views, i + 1);
                }
                return None;
            },
        }
        i = i + 1;
    }
    assert(views.take(i as int) =~= views);
    Some(sum)
}

proof fn lemma_total_length_grows(files: Seq<FileView>, n: int)
    requires
        0 <= n <= files.len(),
    ensures
        total_length(files.take(n)) <= total_length(files),
    decreases files.len() - n,
{
    if n < files.len() {
        lemma_total_length_grows(files, n + 1);
        assert(files.take(n + 1).drop_last() =~= files.take(n));
    } else {
        assert(files.take(n) =~= files);
    }
}

impl TorrentInfo {
    /// A torrent of the given name, piece length, piece hashes and files;
    /// `dict_str` is the text that says so, whose digest names the torrent.
    /// There has to be a file, and the hashes have to be whole.
    pub fn new(
        name: String,
        piece_len: u32,
        piece_hashes: Vec<u8>,
        files: Vec<FileInfo>,
        dict_str: &[u8],
    ) -> (r: Option<TorrentInfo>)
        requires
            total_length(file_views(files@)) <= u64::MAX,
            dict_str@.len() < 0x2000_0000_0000_0000,
        ensures
            r is None <==> piece_hashes@.len() % 20 != 0 || files@.len() == 0,
            r matches Some(t) ==> t@.wf() && t@ == (TorrentView {
                name: name@,
                piece_length: piece_len,
                hashes: piece_hashes@,
                files: file_views(files@),
                total_size: total_length(file_views(files@)) as u64,
                info_hash: sha1_digest(dict_str@),
            }),
    {
        let total_size = match sum_of_lengths(&files) {
            Some(sum) => sum,
            None => {
                return None;
            },
        };
        if piece_hashes.len() % 20 != 0 {
            return None;
        }
        if files.len() == 0 {
            return None;
        }
        let info_hash = sha1(dict_str);
        Some(
            TorrentInfo {
                name,
                piece_length: piece_len,
                hashes: piece_hashes,
                files,
                total_size,
                info_hash,
            },
        )
    }

    pub fn files(&self) -> (r: &[FileInfo])
        ensures
            file_views(r@) == self@.files,
    {
        self.files.as_slice()
    }

    pub fn info_hash(&self) -> (r: &[u8])
        ensures
            r@ == self@.info_hash,
    {
        self.info_hash.as_slice()
    }

    /// The length of all files together.
    pub fn total_size(&self) -> (r: u64)
        ensures
            r == self@.total_size,
    {
        self.total_size
    }

    /// The length of every piece but the last.
    pub fn piece_length(&self) -> (r: u32)
        ensures
            r == self@.piece_length,
    {
        self.piece_length
    }

    /// How long a piece is.
    pub fn get_piece_length(&self, piece_index: PieceIndex) -> (r: u32)
        requires
            self@.has_length(piece_index),
        ensures
            r == self@.piece_len(piece_index),
    {
        proof {
            lemma_product_fits(piece_index.0, self.piece_length);
        }
        let start: u64 = piece_index.0 as u64 * self.piece_length as u64;
        let rest = low_word(self.total_size - start);
        if rest <= self.piece_length {
            rest
        } else {
            self.piece_length
        }
    }

    /// Whether a piece of that index has a length.
    pub fn has_length(&self, piece_index: PieceIndex) -> (r: bool)
        ensures
            r == self@.has_length(piece_index),
    {
        proof {
            lemma_product_fits(piece_index.0, self.piece_length);
        }
        piece_index.0 < self.piece_count() && piece_index.0 as u64 * self.piece_length as u64
            <= self.total_size
    }

    /// How many pieces there are.
    pub fn piece_count(&self) -> (r: u32)
        ensures
            r == self@.piece_count(),
    {
        low_word(self.hashes.len() as u64) / 20
    }

    pub fn name(&self) -> (r: &str)
        ensures
            r@ == self@.name,
    {
        self.name.as_str()
    }

    /// The hash that a piece has to have.
    pub fn get_piece_hash(&self, piece_index: PieceIndex) -> (r: &[u8])
        requires
            piece_index.0 < self@.piece_count(),
        ensures
            r@ == self@.piece_hash(piece_index),
    {
        let offset: usize = piece_index.0 as usize * 20;
        vstd::slice::slice_subrange(self.hashes.as_slice(), offset, offset + 20)
    }
}

proof fn lemma_product_fits(a: u32, b: u32)
    ensures
        0 <= a * b <= u32::MAX * u32::MAX,
        u32::MAX * u32::MAX + u32::MAX <= u64::MAX,
{
    assert(0 <= a * b <= u32::MAX * u32::MAX) by (nonlinear_arith)
        requires
            0 <= a <= u32::MAX,
            0 <= b <= u32::MAX,
    ;
}

// ---------------------------------------------------------------------------
// What is left to download
// ---------------------------------------------------------------------------

impl TorrentView {
    /// The last piece.
    pub open spec fn last_piece(self) -> PieceIndex {
        PieceIndex((self.piece_count() - 1) as u32)
    }

    /// How many bytes the pieces of a set have: the length of a piece for each,
    /// and less for the last one if it is short.
    pub open spec fn bytes_present(self, pieces: Pieces) -> int {
        pieces.count * self.piece_length - if pieces.has(self.last_piece()) {
            self.piece_length - self.piece_len(self.last_piece())
        } else {
            0
        }
    }

    /// Whether the bytes left can be counted: there is a last piece, and no
    /// more bytes are there than the files have.
    pub open spec fn can_count(self, pieces: Pieces) -> bool {
        &&& self.piece_count() > 0
        &&& self.last_piece().0 < pieces.bits.len()
        &&& pieces.has(self.last_piece()) ==> self.has_length(self.last_piece())
        &&& 0 <= self.bytes_present(pieces) <= self.total_size
    }
}

impl TorrentInfo {
    /// How many bytes are missing where the pieces of a set are there.
    pub fn bytes_left_to_download(&self, pieces: &PieceSet) -> (r: u64)
        requires
            self@.can_count(pieces@),
        ensures
            r == self@.total_size - self@.bytes_present(pieces@),
    {
        proof {
            lemma_product_fits(pieces@.count, self.piece_length);
        }
        let mut downloaded_bytes: u64 = pieces.count() as u64 * self.piece_length as u64;
        let last_piece_index = PieceIndex(self.piece_count() - 1);
        if pieces.index(last_piece_index) {
            downloaded_bytes = downloaded_bytes - (self.piece_length - self.get_piece_length(
                last_piece_index,
            )) as u64;
        }
        self.total_size - downloaded_bytes
    }

    /// Whether [`TorrentInfo::bytes_left_to_download`] can be asked.
    pub fn can_count(&self, pieces: &PieceSet) -> (r: bool)
        ensures
            r == self@.can_count(pieces@),
    {
        let count = self.piece_count();
        if count == 0 || (count - 1) as usize >= pieces.len() {
            return false;
        }
        let last = PieceIndex(count - 1);
        proof {
            lemma_product_fits(pieces@.count, self.piece_length);
        }
        let full: u64 = pieces.count() as u64 * self.piece_length as u64;
        let mut short: u64 = 0;
        if pieces.index(last) {
            if !self.has_length(last) {
                return false;
            }
            short = (self.piece_length - self.get_piece_length(last)) as u64;
        }
        short <= full && full - short <= self.total_size
    }
}

impl TorrentView {
    /// Whether every piece has the length it should have: the pieces follow
    /// each other from the start of the files to their end, all of one length
    /// but the last. (A piece so far from the end that the distance takes more
    /// than 32 bits may be taken for a shorter one.)
    pub open spec fn regular(self) -> bool {
        let last = self.piece_count() - 1;
        &&& last >= 0
        &&& last * self.piece_length < self.total_size <= last * self.piece_length
            + self.piece_length
        &&& forall|i: PieceIndex|
            i.0 < last ==> #[trigger] self.piece_len(i) == self.piece_length
    }

    /// How many bytes the pieces below `n` have that are not in a set.
    pub open spec fn missing_bytes(self, bits: Seq<bool>, n: nat) -> int
        decreases n,
    {
        if n == 0 {
            0
        } else {
            self.missing_bytes(bits, (n - 1) as nat) + if bits[n - 1] {
                0
            } else {
                self.piece_len(PieceIndex((n - 1) as u32)) as int
            }
        }
    }
}

proof fn lemma_missing_full(t: TorrentView, bits: Seq<bool>, n: nat)
    requires
        t.regular(),
        n < t.piece_count(),
        n <= bits.len(),
    ensures
        t.missing_bytes(bits, n) == (n - number_set(bits.take(n as int))) * t.piece_length,
    decreases n,
{
    if n == 0 {
        assert(bits.take(0) =~= Seq::empty());
        assert((n - number_set(bits.take(n as int))) * t.piece_length == 0) by (nonlinear_arith)
            requires
                n - number_set(bits.take(n as int)) == 0,
        ;
    } else {
        let m = (n - 1) as nat;
        lemma_missing_full(t, bits, m);
        assert(bits.take(n as int).drop_last() =~= bits.take(m as int));
        let before = m - number_set(bits.take(m as int));
        let after = n - number_set(bits.take(n as int));
        assert(t.piece_len(PieceIndex(m as u32)) == t.piece_length);
        if bits[m as int] {
            assert(before == after);
        } else {
            assert(after * t.piece_length == before * t.piece_length + t.piece_length)
                by (nonlinear_arith)
                requires
                    after == before + 1,
            ;
        }
    }
}

/// What is left to download is what the missing pieces have, byte for byte.
pub proof fn law_bytes_left_are_missing_pieces(t: TorrentView, pieces: Pieces)
    requires
        t.regular(),
        pieces.exact(),
        pieces.bits.len() == t.piece_count(),
    ensures
        t.can_count(pieces),
        t.total_size - t.bytes_present(pieces) == t.missing_bytes(
            pieces.bits,
            t.piece_count() as nat,
        ),
{
    let bits = pieces.bits;
    let pl = t.piece_length as int;
    let total = t.total_size as int;
    let last = (t.piece_count() - 1) as nat;
    lemma_missing_full(t, bits, last);
    assert(bits.take((last + 1) as int) =~= bits);
    assert(bits.drop_last() =~= bits.take(last as int));
    lemma_number_set_bounds(bits.take(last as int));
    let set = number_set(bits.take(last as int)) as int;
    let rest = total - last * pl;
    assert(t.piece_start(t.last_piece()) == last * pl);
    assert(t.piece_len(t.last_piece()) == rest);
    assert((last - set) * pl == last * pl - set * pl) by (nonlinear_arith);
    assert(0 <= set * pl <= last * pl) by (nonlinear_arith)
        requires
            0 <= set <= last,
            0 <= pl,
    ;
    if bits[last as int] {
        assert(pieces.count == set + 1);
        assert((set + 1) * pl == set * pl + pl) by (nonlinear_arith);
    } else {
        assert(pieces.count == set);
    }
}

// ---------------------------------------------------------------------------
// Torrents out of bencoded values
// ---------------------------------------------------------------------------

impl DeepView for FileInfo {
    type V = FileView;

    open spec fn deep_view(&self) -> FileView {
        self@
    }
}

impl DeepView for TorrentInfo {
    type V = TorrentView;

    open spec fn deep_view(&self) -> TorrentView {
        self@
    }
}

pub open spec fn path_key() -> Seq<u8> {
    seq![112u8, 97, 116, 104]
}

pub open spec fn length_key() -> Seq<u8> {
    seq![108u8, 101, 110, 103, 116, 104]
}

pub open spec fn piece_length_key() -> Seq<u8> {
    seq![112u8, 105, 101, 99, 101, 32, 108, 101, 110, 103, 116, 104]
}

pub open spec fn pieces_key() -> Seq<u8> {
    seq![112u8, 105, 101, 99, 101, 115]
}

pub open spec fn name_key() -> Seq<u8> {
    seq![110u8, 97, 109, 101]
}

pub open spec fn files_key() -> Seq<u8> {
    seq![102u8, 105, 108, 101, 115]
}

/// The path that a list of texts is.
pub open spec fn path_value(v: BVal) -> ConversionResult<Seq<Seq<char>>> {
    list_value(v, |segment: BVal| text_value(segment))
}

pub open spec fn length_value(v: BVal) -> ConversionResult<u64> {
    match integer_value(v, 0, u64::MAX as int) {
        Ok(n) => Ok(n as u64),
        Err(e) => Err(e),
    }
}

/// The file that a dictionary with a `path` and a `length` describes.
pub open spec fn file_value(v: BVal) -> ConversionResult<FileView> {
    match v {
        BVal::Dict(entries, raw) => if entries.contains_key(path_key()) && entries.contains_key(
            length_key(),
        ) {
            match path_value(entries[path_key()]) {
                Err(e) => Err(e),
                Ok(path) => match length_value(entries[length_key()]) {
                    Err(e) => Err(e),
                    Ok(length) => Ok(FileView { path, length }),
                },
            }
        } else {
            Err(ConversionError::KeyDoesNotExist)
        },
        _ => Err(ConversionError::WrongBValueConstructor),
    }
}

/// The files of a torrent: those under `files`, or else the one file that has
/// the torrent's name and the `length` given.
pub open spec fn files_value(
    entries: Map<Seq<u8>, BVal>,
    name: Seq<char>,
) -> ConversionResult<Seq<FileView>> {
    if entries.contains_key(files_key()) {
        list_value(entries[files_key()], |file: BVal| file_value(file))
    } else if entries.contains_key(length_key()) {
        match length_value(entries[length_key()]) {
            Err(e) => Err(e),
            Ok(length) => Ok(seq![FileView { path: seq![name], length }]),
        }
    } else {
        Err(ConversionError::KeyDoesNotExist)
    }
}

/// The torrent of which everything has been read: there has to be a file, and
/// the hashes have to be whole.
pub open spec fn assembled(
    name: Seq<char>,
    files: Seq<FileView>,
    hashes: Seq<u8>,
    piece_length: int,
    raw: Seq<u8>,
) -> ConversionResult<TorrentView> {
    if total_length(files) > u64::MAX || raw.len() >= 0x2000_0000_0000_0000 {
        Err(ConversionError::TooLarge)
    } else if hashes.len() % 20 != 0 || files.len() == 0 {
        Err(ConversionError::OtherError)
    } else {
        Ok(
            TorrentView {
                name,
                piece_length: (piece_length % 0x1_0000_0000) as u32,
                hashes,
                files,
                total_size: total_length(files) as u64,
                info_hash: sha1_digest(raw),
            },
        )
    }
}

/// The torrent that an info dictionary describes. What is wrong first, in the
/// order name, files, hashes, piece length, is the error.
pub open spec fn torrent_value(v: BVal) -> ConversionResult<TorrentView> {
    match v {
        BVal::Dict(entries, raw) => if entries.contains_key(piece_length_key())
            && entries.contains_key(pieces_key()) && entries.contains_key(name_key()) {
            match text_value(entries[name_key()]) {
                Err(e) => Err(e),
                Ok(name) => match files_value(entries, name) {
                    Err(e) => Err(e),
                    Ok(files) => match bytes_value(entries[pieces_key()]) {
                        Err(e) => Err(e),
                        Ok(hashes) => match integer_value(
                            entries[piece_length_key()],
                            0,
                            usize::MAX as int,
                        ) {
                            Err(e) => Err(e),
                            Ok(piece_length) => assembled(name, files, hashes, piece_length, raw),
                        },
                    },
                },
            }
        } else {
            Err(ConversionError::KeyDoesNotExist)
        },
        _ => Err(ConversionError::WrongBValueConstructor),
    }
}

/// The keys of a torrent differ from each other.
proof fn lemma_keys_differ()
    ensures
        path_key() != length_key(),
        piece_length_key() != pieces_key(),
        piece_length_key() != name_key(),
        pieces_key() != name_key(),
        files_key() != piece_length_key(),
        files_key() != pieces_key(),
        files_key() != name_key(),
        files_key() != length_key(),
        length_key() != piece_length_key(),
        length_key() != pieces_key(),
        length_key() != name_key(),
{
    assert(path_key()[0] != length_key()[0]);
    assert(piece_length_key().len() == 12);
    assert(pieces_key().len() == 6);
    assert(name_key().len() == 4);
    assert(files_key().len() == 5);
    assert(length_key().len() == 6);
    assert(pieces_key()[0] != length_key()[0]);
}

impl<'a> FromBValue<'a> for FileInfo {
    open spec fn reads(v: BVal) -> ConversionResult<FileView> {
        file_value(v)
    }

    fn from_bvalue(bvalue: BValue<'a>) -> (r: ConversionResult<FileInfo>) {
        broadcast use lemma_model, lemma_well_formed;

        match bvalue {
            BValue::Dict(dict, _) => {
                let mut dict = dict;
                proof {
                    lemma_keys_differ();
                }
                let path_name: [u8; 4] = [112, 97, 116, 104];
                let length_name: [u8; 6] = [108, 101, 110, 103, 116, 104];
                assert(path_name@ =~= path_key());
                assert(length_name@ =~= length_key());
                match (dict.remove(&path_name), dict.remove(&length_name)) {
                    (Some(bv_path), Some(bv_length)) => {
                        assert((|item: BVal| <String as FromBValue<'a>>::reads(item)) =~= (
                        |segment: BVal| text_value(segment)));
                        let path: Vec<String> = match FromBValue::from_bvalue(bv_path) {
                            Ok(path) => path,
                            Err(e) => {
                                return Err(e);
                            },
                        };
                        let length: u64 = match FromBValue::from_bvalue(bv_length) {
                            Ok(length) => length,
                            Err(e) => {
                                return Err(e);
                            },
                        };
                        assert(path.deep_view() =~= path@.map_values(|s: String| s@));
                        Ok(FileInfo { path, length })
                    },
                    _ => Err(ConversionError::KeyDoesNotExist),
                }
            },
            _ => Err(ConversionError::WrongBValueConstructor),
        }
    }
}

/// Takes the files of a torrent out of its dictionary.
fn take_files<'a>(dict: &mut Dict<'a>, name: &String) -> (r: ConversionResult<Vec<FileInfo>>)
    requires
        old(dict).wf(),
    ensures
        final(dict).wf(),
        match files_value(old(dict)@, name@) {
            Ok(files) => r matches Ok(fs) && file_views(fs@) == files,
            Err(e) => r == Err::<Vec<FileInfo>, ConversionError>(e),
        },
{
    let files_name: [u8; 5] = [102, 105, 108, 101, 115];
    let length_name: [u8; 6] = [108, 101, 110, 103, 116, 104];
    proof {
        lemma_keys_differ();
        assert(files_name@ =~= files_key());
        assert(length_name@ =~= length_key());
    }
    match dict.remove(&files_name) {
        Some(bv_files) => {
            assert((|item: BVal| <FileInfo as FromBValue<'a>>::reads(item)) =~= (|file: BVal|
                file_value(file)));
            let files: ConversionResult<Vec<FileInfo>> = FromBValue::from_bvalue(bv_files);
            proof {
                if files is Ok {
                    assert(files->Ok_0.deep_view() =~= file_views(files->Ok_0@));
                }
            }
            files
        },
        None => match dict.remove(&length_name) {
            Some(bv_length) => {
                let length: u64 = match FromBValue::from_bvalue(bv_length) {
                    Ok(length) => length,
                    Err(e) => {
                        return Err(e);
                    },
                };
                let mut path: Vec<String> = Vec::new();
                path.push(name.clone());
                let mut files: Vec<FileInfo> = Vec::new();
                files.push(FileInfo { path, length });
                proof {
                    assert(files@[0]@.path =~= seq![name@]);
                    assert(file_views(files@) =~= seq![FileView { path: seq![name@], length }]);
                }
                Ok(files)
            },
            None => Err(ConversionError::KeyDoesNotExist),
        },
    }
}

impl<'a> FromBValue<'a> for TorrentInfo {
    open spec fn reads(v: BVal) -> ConversionResult<TorrentView> {
        torrent_value(v)
    }

    fn from_bvalue(info_dict: BValue<'a>) -> (r: ConversionResult<TorrentInfo>)
        ensures
            r matches Ok(t) ==> t@.wf(),
    {
        broadcast use lemma_model, lemma_well_formed;

        match info_dict {
            BValue::Dict(dict, dict_str) => {
                let mut dict = dict;
                let piece_length_name: [u8; 12] = [
                    112,
                    105,
                    101,
                    99,
                    101,
                    32,
                    108,
                    101,
                    110,
                    103,
                    116,
                    104,
                ];
                let pieces_name: [u8; 6] = [112, 105, 101, 99, 101, 115];
                let name_name: [u8; 4] = [110, 97, 109, 101];
                let ghost entries = dict@;
                proof {
                    lemma_keys_differ();
                    assert(piece_length_name@ =~= piece_length_key());
                    assert(pieces_name@ =~= pieces_key());
                    assert(name_name@ =~= name_key());
                }
                match (
                    dict.remove(&piece_length_name),
                    dict.remove(&pieces_name),
                    dict.remove(&name_name),
                ) {
                    (Some(bv_piece_len), Some(bv_hashes), Some(bv_name)) => {
                        let name: String = match FromBValue::from_bvalue(bv_name) {
                            Ok(name) => name,
                            Err(e) => {
                                return Err(e);
                            },
                        };
                        assert(files_value(dict@, name@) == files_value(entries, name@));
                        let files = match take_files(&mut dict, &name) {
                            Ok(files) => files,
                            Err(e) => {
                                return Err(e);
                            },
                        };
                        let hashes: Vec<u8> = match FromBValue::from_bvalue(bv_hashes) {
                            Ok(hashes) => hashes,
                            Err(e) => {
                                return Err(e);
                            },
                        };
                        assert(hashes.deep_view() =~= hashes@);
                        let piece_len_usize: usize = match FromBValue::from_bvalue(bv_piece_len) {
                            Ok(piece_len) => piece_len,
                            Err(e) => {
                                return Err(e);
                            },
                        };
                        let piece_len = low_word(piece_len_usize as u64);
                        if sum_of_lengths(&files).is_none() || dict_str.len() as u64
                            >= 0x2000_0000_0000_0000 {
                            return Err(ConversionError::TooLarge);
                        }
                        match TorrentInfo::new(name, piece_len, hashes, files, dict_str) {
                            Some(ti) => Ok(ti),
                            None => Err(ConversionError::OtherError),
                        }
                    },
                    _ => Err(ConversionError::KeyDoesNotExist),
                }
            },
            _ => Err(ConversionError::WrongBValueConstructor),
        }
    }
}

} // verus!
