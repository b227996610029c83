//! What is read out of bencoded values: torrents, peers and answers of trackers.
use vstd::prelude::*;
use vstd::utf8::{encode_utf8, encode_utf8_decode_utf8, encode_utf8_valid_utf8};

use crate::bencode::{
    decimal_value, dict_of, digit_run, entries_at, is_digit, items_at, lemma_decimal_value_grows,
    lemma_digit_run_bound, lemma_entries_advance, lemma_items_advance, lemma_string_advances,
    lemma_value_advances, number_at, parsed, string_at, value_at, BVal, Dict, ParseError,
};
use crate::bencode_laws::{
    decimal_bytes, lemma_decimal_bytes, lemma_run_of_digits, lemma_string_local, lemma_value_local,
    stands_at,
};
use crate::conversion::{
    bytes_value, list_value, text_value, ConversionError, ConversionResult, FromBValue,
};
use crate::digest::sha1_digest;
use crate::peer::{
    compact_text, ip_key, law_compact_peers_are_read_back, peer_id_key, peer_list_value, peer_value,
    port_key, quad_at, PeerInfo,
};
use crate::text::decimal;
use crate::torrent_file::{announce_key, info_key, torrent_file};
use crate::torrent_info::{
    file_value, files_key, length_key, name_key, path_key, piece_length_key, pieces_key,
    torrent_value, total_length, FileView, TorrentView,
};
use crate::tracker::{
    failure_key, http_reply, peers_key, tracker_at, tracker_value, url_host, url_port, url_scheme,
    url_with_scheme, HttpReplyView, TrackerView,
};

verus! {

/// Text of ASCII characters, as bytes.
pub open spec fn ascii(text: Seq<char>) -> Seq<u8> {
    text.map_values(|c: char| c as u8)
}

// ---------------------------------------------------------------------------
// Dictionaries, lists and numbers
// ---------------------------------------------------------------------------

/// A dictionary has exactly the keys that are written in it. Where a key is written
/// more than once, what was written last counts.
pub proof fn law_last_entry_counts(entries: Seq<(Seq<u8>, BVal)>, i: int)
    requires
        0 <= i < entries.len(),
    ensures
        dict_of(entries).contains_key(entries[i].0),
        (forall|j: int| i < j < entries.len() ==> (#[trigger] entries[j]).0 != entries[i].0)
            ==> dict_of(entries)[entries[i].0] == entries[i].1,
        forall|key: Seq<u8>| #[trigger]
            dict_of(entries).contains_key(key) ==> exists|j: int|
                0 <= j < entries.len() && (#[trigger] entries[j]).0 == key,
    decreases entries.len(),
{
    let init = entries.drop_last();
    let last = entries.len() - 1;
    assert(entries.last() == entries[last]);
    if init.len() > 0 {
        law_last_entry_counts(init, if i < last {
            i
        } else {
            0
        });
    }
    if i < last {
        assert(init[i] == entries[i]);
        if forall|j: int| i < j < entries.len() ==> (#[trigger] entries[j]).0 != entries[i].0 {
            assert forall|j: int| i < j < init.len() implies (#[trigger] init[j]).0
                != init[i].0 by {
                assert(init[j] == entries[j]);
            }
            assert(entries[last].0 != entries[i].0);
        }
    }
    assert forall|key: Seq<u8>| #[trigger] dict_of(entries).contains_key(key) implies exists|
        j: int,
    |
        0 <= j < entries.len() && (#[trigger] entries[j]).0 == key by {
        if key == entries[last].0 {
        } else {
            assert(dict_of(init).contains_key(key));
            let j = choose|j: int| 0 <= j < init.len() && (#[trigger] init[j]).0 == key;
            assert(entries[j].0 == key);
        }
    }
}

/// Numbers convert to every type that holds them, and to no other; so do strings
/// and texts.
pub proof fn law_scalars_convert(n: int, bytes: Seq<u8>, text: Seq<char>)
    ensures
        ({
            let v = BVal::Int(n);
            let wrong = ConversionError::WrongBValueConstructor;
            &&& <isize as FromBValue<'static>>::reads(v) == if isize::MIN <= n <= isize::MAX {
                Ok::<isize, ConversionError>(n as isize)
            } else {
                Err(wrong)
            }
            &&& <usize as FromBValue<'static>>::reads(v) == if 0 <= n <= usize::MAX {
                Ok::<usize, ConversionError>(n as usize)
            } else {
                Err(wrong)
            }
            &&& <u64 as FromBValue<'static>>::reads(v) == if 0 <= n <= u64::MAX {
                Ok::<u64, ConversionError>(n as u64)
            } else {
                Err(wrong)
            }
            &&& bytes_value(v) is Err && text_value(v) is Err
        }),
        bytes_value(BVal::Str(bytes)) == Ok::<Seq<u8>, ConversionError>(bytes),
        text_value(BVal::Str(encode_utf8(text))) == Ok::<Seq<char>, ConversionError>(text),
        <isize as FromBValue<'static>>::reads(BVal::Str(bytes)) is Err,
        <usize as FromBValue<'static>>::reads(BVal::Str(bytes)) is Err,
        <u64 as FromBValue<'static>>::reads(BVal::Str(bytes)) is Err,
{
    encode_utf8_valid_utf8(text);
    encode_utf8_decode_utf8(text);
}

/// A list converts item by item, in its order, if every item does; else the error is
/// that of the first item that does not.
pub proof fn law_lists_convert<A>(
    items: Seq<BVal>,
    item: spec_fn(BVal) -> ConversionResult<A>,
    i: int,
)
    requires
        0 <= i < items.len(),
    ensures
        (forall|j: int| 0 <= j < items.len() ==> item(#[trigger] items[j]) is Ok) ==> {
            &&& list_value(BVal::List(items), item) matches Ok(all)
            &&& all.len() == items.len()
            &&& item(items[i]) == Ok::<A, ConversionError>(all[i])
        },
        item(items[i]) is Err && (forall|j: int| 0 <= j < i ==> item(#[trigger] items[j]) is Ok)
            ==> list_value(BVal::List(items), item) == Err::<Seq<A>, ConversionError>(
            item(items[i])->Err_0,
        ),
    decreases items.len(),
{
    let init = items.drop_last();
    let last = items.len() - 1;
    assert(items.last() == items[last]);
    assert(forall|j: int| 0 <= j < init.len() ==> #[trigger] init[j] == items[j]);
    if i < last {
        law_lists_convert(init, item, i);
    } else if init.len() > 0 {
        law_lists_convert(init, item, 0);
        if forall|j: int| 0 <= j < last ==> item(#[trigger] items[j]) is Ok {
            assert forall|j: int| 0 <= j < init.len() implies item(#[trigger] init[j]) is Ok by {
                assert(item(items[j]) is Ok);
            }
        }
    }
}

// ---------------------------------------------------------------------------
// Torrents
// ---------------------------------------------------------------------------

proof fn lemma_torrent_keys()
    ensures
        ascii("piece length"@) == piece_length_key(),
        ascii("pieces"@) == pieces_key(),
        ascii("name"@) == name_key(),
        ascii("files"@) == files_key(),
        ascii("length"@) == length_key(),
        ascii("path"@) == path_key(),
        ascii("info"@) == info_key(),
        ascii("announce"@) == announce_key(),
{
    reveal_strlit("piece length");
    reveal_strlit("pieces");
    reveal_strlit("name");
    reveal_strlit("files");
    reveal_strlit("length");
    reveal_strlit("path");
    reveal_strlit("info");
    reveal_strlit("announce");
    assert(ascii("piece length"@) =~= piece_length_key());
    assert(ascii("pieces"@) =~= pieces_key());
    assert(ascii("name"@) =~= name_key());
    assert(ascii("files"@) =~= files_key());
    assert(ascii("length"@) =~= length_key());
    assert(ascii("path"@) =~= path_key());
    assert(ascii("info"@) =~= info_key());
    assert(ascii("announce"@) =~= announce_key());
}

/// The dictionary of a torrent with one file is read as that: name, length of the
/// pieces, hashes, and a file of the given length with the torrent's name. The
/// torrent is named by the digest of the dictionary's text.
pub proof fn law_single_file_torrents(
    entries: Map<Seq<u8>, BVal>,
    raw: Seq<u8>,
    name: Seq<char>,
    piece_length: u32,
    hashes: Seq<u8>,
    length: u64,
)
    requires
        entries.contains_pair(ascii("name"@), BVal::Str(encode_utf8(name))),
        entries.contains_pair(ascii("piece length"@), BVal::Int(piece_length as int)),
        entries.contains_pair(ascii("pieces"@), BVal::Str(hashes)),
        entries.contains_pair(ascii("length"@), BVal::Int(length as int)),
        !entries.contains_key(ascii("files"@)),
        raw.len() < 0x2000_0000_0000_0000,
    ensures
        hashes.len() % 20 == 0 ==> {
            &&& torrent_value(BVal::Dict(entries, raw)) matches Ok(t)
            &&& t.name == name
            &&& t.piece_length == piece_length
            &&& t.hashes == hashes
            &&& t.files.len() == 1
            &&& t.files[0].path == seq![name]
            &&& t.files[0].length == length
            &&& t.total_size == length
            &&& t.info_hash == sha1_digest(raw)
        },
        hashes.len() % 20 != 0 ==> torrent_value(BVal::Dict(entries, raw)) == Err::<
            TorrentView,
            ConversionError,
        >(ConversionError::OtherError),
{
    lemma_torrent_keys();
    law_scalars_convert(0, hashes, name);
    reveal_with_fuel(total_length, 2);
    let files = seq![FileView { path: seq![name], length }];
    assert(files.drop_last() =~= Seq::empty());
    assert(files.last().length == length);
    assert(total_length(files) == length);
}

/// The dictionary of a torrent with several files is read with all of them, in their
/// order, each with its path and its length.
pub proof fn law_many_file_torrents(
    entries: Map<Seq<u8>, BVal>,
    raw: Seq<u8>,
    name: Seq<char>,
    piece_length: u32,
    hashes: Seq<u8>,
    files: Seq<BVal>,
    t: TorrentView,
    i: int,
)
    requires
        entries.contains_pair(ascii("name"@), BVal::Str(encode_utf8(name))),
        entries.contains_pair(ascii("piece length"@), BVal::Int(piece_length as int)),
        entries.contains_pair(ascii("pieces"@), BVal::Str(hashes)),
        entries.contains_pair(ascii("files"@), BVal::List(files)),
        torrent_value(BVal::Dict(entries, raw)) == Ok::<TorrentView, ConversionError>(t),
        0 <= i < files.len(),
        forall|j: int| 0 <= j < files.len() ==> file_value(#[trigger] files[j]) is Ok,
    ensures
        t.name == name,
        t.piece_length == piece_length,
        t.hashes == hashes,
        t.info_hash == sha1_digest(raw),
        t.files.len() == files.len(),
        file_value(files[i]) == Ok::<FileView, ConversionError>(t.files[i]),
        t.total_size == total_length(t.files),
{
    lemma_torrent_keys();
    law_scalars_convert(0, hashes, name);
    let item = |file: BVal| file_value(file);
    assert forall|j: int| 0 <= j < files.len() implies item(#[trigger] files[j]) is Ok by {
        assert(file_value(files[j]) is Ok);
    }
    law_lists_convert(files, item, i);
}

/// A file is read with the parts of its path, in their order, and its length.
pub proof fn law_files_are_read(
    entries: Map<Seq<u8>, BVal>,
    raw: Seq<u8>,
    parts: Seq<Seq<char>>,
    length: u64,
    i: int,
)
    requires
        entries.contains_pair(
            ascii("path"@),
            BVal::List(parts.map_values(|part: Seq<char>| BVal::Str(encode_utf8(part)))),
        ),
        entries.contains_pair(ascii("length"@), BVal::Int(length as int)),
        0 <= i < parts.len(),
    ensures
        file_value(BVal::Dict(entries, raw)) matches Ok(file) && file.length == length
            && file.path.len() == parts.len() && file.path[i] == parts[i],
{
    lemma_torrent_keys();
    let items = parts.map_values(|part: Seq<char>| BVal::Str(encode_utf8(part)));
    let item = |segment: BVal| text_value(segment);
    assert forall|j: int| 0 <= j < items.len() implies item(#[trigger] items[j]) is Ok by {
        law_scalars_convert(0, Seq::empty(), parts[j]);
    }
    law_lists_convert(items, item, i);
    law_scalars_convert(0, Seq::empty(), parts[i]);
}

/// A torrent file is read exactly if the tracker under `announce` and the torrent
/// under `info` are, and gives these.
pub proof fn law_torrent_files(
    entries: Map<Seq<u8>, BVal>,
    raw: Seq<u8>,
    tracker: TrackerView,
    torrent: TorrentView,
)
    ensures
        torrent_file(BVal::Dict(entries, raw)) == Some((tracker, torrent)) <==> {
            &&& entries.contains_key(ascii("announce"@))
            &&& entries.contains_key(ascii("info"@))
            &&& tracker_value(entries[ascii("announce"@)]) == Ok::<TrackerView, ConversionError>(
                tracker,
            )
            &&& torrent_value(entries[ascii("info"@)]) == Ok::<TorrentView, ConversionError>(
                torrent,
            )
        },
{
    lemma_torrent_keys();
}

// ---------------------------------------------------------------------------
// Trackers and peers
// ---------------------------------------------------------------------------

/// A tracker is named by its URL: as it stands if it is one for HTTP; by host and
/// port of the same URL for HTTP if it is one for UDP. Other URLs cannot be used, and
/// text that is no URL is another error.
pub proof fn law_urls_name_trackers(url: Seq<char>, host: Seq<char>, port: u16)
    ensures
        url_scheme(url) is None ==> tracker_at(url) == Err::<TrackerView, ConversionError>(
            ConversionError::OtherError,
        ),
        url_scheme(url) == Some("http"@) ==> tracker_at(url) == Ok::<TrackerView, ConversionError>(
            TrackerView::Http(url),
        ),
        url_scheme(url) == Some("udp"@) && url_with_scheme(url, "http"@) is Some ==> {
            let changed = url_with_scheme(url, "http"@)->Some_0;
            &&& url_scheme(changed) is Some && url_host(changed) == Some(host) && url_port(changed)
                == Some(port) ==> tracker_at(url) == Ok::<TrackerView, ConversionError>(
                TrackerView::Udp(host + seq![':'] + decimal(port as nat)),
            )
            &&& url_host(changed) is None || url_port(changed) is None ==> tracker_at(url) is Err
        },
        url_scheme(url) is Some && url_scheme(url) != Some("http"@) && url_scheme(url) != Some(
            "udp"@,
        ) ==> tracker_at(url) == Err::<TrackerView, ConversionError>(
            ConversionError::UnusableTracker,
        ),
{
    reveal_strlit("http");
    reveal_strlit("udp");
    reveal_strlit(":");
    assert("http"@.len() != "udp"@.len());
    assert(":"@ =~= seq![':']);
}

/// An address in dotted notation.
pub open spec fn dotted(a: u8, b: u8, c: u8, d: u8) -> Seq<u8> {
    decimal_bytes(a as nat) + seq![46u8] + decimal_bytes(b as nat) + seq![46u8] + decimal_bytes(
        c as nat,
    ) + seq![46u8] + decimal_bytes(d as nat)
}

proof fn lemma_short_number(n: nat)
    requires
        n <= 255,
    ensures
        1 <= decimal_bytes(n).len() <= 3,
{
    reveal_with_fuel(decimal_bytes, 4);
}

/// The last number of a text.
pub proof fn lemma_last_number(text: Seq<u8>, pos: int, digits: Seq<u8>)
    requires
        0 <= pos,
        pos + digits.len() == text.len(),
        text.subrange(pos, text.len() as int) == digits,
        forall|i: int| 0 <= i < digits.len() ==> is_digit(#[trigger] digits[i]),
    ensures
        digit_run(text, pos) == digits.len(),
        number_at(text, pos) == decimal_value(digits),
    decreases digits.len(),
{
    if digits.len() > 0 {
        assert(digits[0] == text[pos]);
        let rest = digits.drop_first();
        assert(text.subrange(pos + 1, text.len() as int) =~= rest) by {
            assert forall|i: int| 0 <= i < rest.len() implies text[pos + 1 + i] == rest[i] by {
                assert(digits[i + 1] == text[pos + 1 + i]);
            }
        }
        assert forall|i: int| 0 <= i < rest.len() implies is_digit(#[trigger] rest[i]) by {
            assert(rest[i] == digits[i + 1]);
        }
        lemma_last_number(text, pos + 1, rest);
    }
}

/// An address in dotted notation is read as its four numbers.
pub proof fn law_addresses_are_read_back(a: u8, b: u8, c: u8, d: u8)
    ensures
        quad_at(dotted(a, b, c, d), 0, 4, 0) == Some(
            0x100_0000 * (a as int) + 0x1_0000 * b + 256 * c + d,
        ),
{
    let (ta, tb, tc, td) = (
        decimal_bytes(a as nat),
        decimal_bytes(b as nat),
        decimal_bytes(c as nat),
        decimal_bytes(d as nat),
    );
    let text = dotted(a, b, c, d);
    lemma_decimal_bytes(a as nat);
    lemma_decimal_bytes(b as nat);
    lemma_decimal_bytes(c as nat);
    lemma_decimal_bytes(d as nat);
    lemma_short_number(a as nat);
    lemma_short_number(b as nat);
    lemma_short_number(c as nat);
    lemma_short_number(d as nat);
    let pb = (ta.len() + 1) as int;
    let pc = pb + tb.len() + 1;
    let pd = pc + tc.len() + 1;
    assert(text.subrange(0, ta.len() as int) =~= ta);
    assert(text[ta.len() as int] == 46);
    lemma_run_of_digits(text, 0, ta);
    assert(text.subrange(pb, pb + tb.len()) =~= tb);
    assert(text[pb + tb.len()] == 46);
    lemma_run_of_digits(text, pb, tb);
    assert(text.subrange(pc, pc + tc.len()) =~= tc);
    assert(text[pc + tc.len()] == 46);
    lemma_run_of_digits(text, pc, tc);
    assert(text.subrange(pd, text.len() as int) =~= td);
    lemma_last_number(text, pd, td);
    reveal_with_fuel(quad_at, 5);
}

pub proof fn lemma_peer_keys()
    ensures
        ascii("peer id"@) == peer_id_key(),
        ascii("ip"@) == ip_key(),
        ascii("port"@) == port_key(),
        ascii("peers"@) == peers_key(),
        ascii("failure reason"@) == failure_key(),
{
    reveal_strlit("peer id");
    reveal_strlit("ip");
    reveal_strlit("port");
    reveal_strlit("peers");
    reveal_strlit("failure reason");
    assert(ascii("peer id"@) =~= peer_id_key());
    assert(ascii("ip"@) =~= ip_key());
    assert(ascii("port"@) =~= port_key());
    assert(ascii("peers"@) =~= peers_key());
    assert(ascii("failure reason"@) =~= failure_key());
}

/// A dictionary that describes a peer is read as that peer; one without an id, an
/// address or a port is not.
pub proof fn law_peers_are_read(
    entries: Map<Seq<u8>, BVal>,
    raw: Seq<u8>,
    a: u8,
    b: u8,
    c: u8,
    d: u8,
    port: u16,
)
    requires
        entries.contains_pair(ascii("ip"@), BVal::Str(dotted(a, b, c, d))),
        entries.contains_pair(ascii("port"@), BVal::Int(port as int)),
    ensures
        entries.contains_key(ascii("peer id"@)) ==> {
            &&& peer_value(BVal::Dict(entries, raw)) matches Ok(peer)
            &&& peer.ip == 0x100_0000 * (a as int) + 0x1_0000 * b + 256 * c + d
            &&& peer.port == port
        },
        !entries.contains_key(ascii("peer id"@)) ==> peer_value(BVal::Dict(entries, raw)) == Err::<
            PeerInfo,
            ConversionError,
        >(ConversionError::KeyDoesNotExist),
{
    lemma_peer_keys();
    law_addresses_are_read_back(a, b, c, d);
}

/// What a list of peers says: six bytes for each, or a dictionary for each, in their
/// order. A string whose length is no multiple of six says nothing.
pub proof fn law_peer_lists_are_read(peers: Seq<PeerInfo>, items: Seq<BVal>, bytes: Seq<u8>)
    ensures
        peer_list_value(BVal::Str(compact_text(peers))) == Ok::<Seq<PeerInfo>, ConversionError>(
            peers,
        ),
        bytes.len() % 6 != 0 ==> peer_list_value(BVal::Str(bytes)) is Err,
        peer_list_value(BVal::List(items)) matches Ok(all) ==> are_read(items, all),
        (forall|j: int| 0 <= j < items.len() ==> peer_value(#[trigger] items[j]) is Ok)
            ==> peer_list_value(BVal::List(items)) is Ok,
{
    law_compact_peers_are_read_back(Seq::empty(), peers);
    assert(Seq::<u8>::empty() + compact_text(peers) =~= compact_text(peers));
    lemma_peers_are_read(items);
}

/// Whether peers are those that dictionaries describe, in their order.
pub open spec fn are_read(items: Seq<BVal>, peers: Seq<PeerInfo>) -> bool {
    &&& peers.len() == items.len()
    &&& forall|i: int|
        0 <= i < items.len() ==> peer_value(#[trigger] items[i]) == Ok::<
            PeerInfo,
            ConversionError,
        >(peers[i])
}

proof fn lemma_peers_are_read(items: Seq<BVal>)
    ensures
        list_value(BVal::List(items), |item: BVal| peer_value(item)) matches Ok(all) ==> are_read(
            items,
            all,
        ),
        (forall|j: int| 0 <= j < items.len() ==> peer_value(#[trigger] items[j]) is Ok)
            ==> list_value(BVal::List(items), |item: BVal| peer_value(item)) is Ok,
    decreases items.len(),
{
    if items.len() > 0 {
        let init = items.drop_last();
        let last = items.len() - 1;
        lemma_peers_are_read(init);
        assert(items.last() == items[last]);
        assert(forall|j: int| 0 <= j < init.len() ==> #[trigger] init[j] == items[j]);
        let all = list_value(BVal::List(items), |item: BVal| peer_value(item));
        if all is Ok {
            let some = list_value(BVal::List(init), |item: BVal| peer_value(item));
            assert forall|i: int| 0 <= i < items.len() implies peer_value(#[trigger] items[i])
                == Ok::<PeerInfo, ConversionError>(all->Ok_0[i]) by {
                if i < last {
                    assert(init[i] == items[i]);
                    assert(some->Ok_0[i] == all->Ok_0[i]);
                }
            }
        }
        if forall|j: int| 0 <= j < items.len() ==> peer_value(#[trigger] items[j]) is Ok {
            assert(peer_value(items[last]) is Ok);
            assert forall|j: int| 0 <= j < init.len() implies peer_value(
                #[trigger] init[j],
            ) is Ok by {
                assert(peer_value(items[j]) is Ok);
            }
        }
    }
}

/// An answer with a reason for failure is a failure, for that reason, whatever else
/// it says. One without is as good as its list of peers.
pub proof fn law_http_replies(
    data: Seq<u8>,
    entries: Map<Seq<u8>, BVal>,
    raw: Seq<u8>,
    reason: Seq<char>,
    items: Seq<BVal>,
)
    requires
        parsed(data) == Ok::<BVal, ParseError>(BVal::Dict(entries, raw)),
    ensures
        entries.contains_pair(ascii("failure reason"@), BVal::Str(encode_utf8(reason)))
            ==> http_reply(data) == HttpReplyView::Failure(reason),
        !entries.contains_key(ascii("failure reason"@)) && entries.contains_pair(
            ascii("peers"@),
            BVal::List(items),
        ) ==> {
            &&& http_reply(data) matches HttpReplyView::Peers(peers) ==> are_read(items, peers)
            &&& (forall|j: int| 0 <= j < items.len() ==> peer_value(#[trigger] items[j]) is Ok)
                ==> http_reply(data) is Peers
        },
        !entries.contains_key(ascii("failure reason"@)) && !entries.contains_key(ascii("peers"@))
            ==> http_reply(data) is NoPeers,
{
    lemma_peer_keys();
    law_scalars_convert(0, Seq::empty(), reason);
    lemma_peers_are_read(items);
    assert((|peer: BVal| peer_value(peer)) =~= (|item: BVal| peer_value(item)));
}

// ---------------------------------------------------------------------------
// What cannot be read
// ---------------------------------------------------------------------------

/// A text that is cut off before its value ends gives the end of the file as the
/// error, wherever it is cut; no text at all gives another one.
pub proof fn law_cut_text_is_an_error(input: Seq<u8>, n: int)
    requires
        input.len() <= usize::MAX,
        value_at(input, 0) matches Ok((v, end)) && 0 <= n < end,
    ensures
        n > 0 ==> parsed(input.take(n)) == Err::<BVal, ParseError>(ParseError::EOF),
        n == 0 ==> parsed(input.take(n)) == Err::<BVal, ParseError>(ParseError::EmptyInput),
{
    lemma_value_advances(input, 0);
    if n > 0 {
        lemma_cut_value(input, 0, n);
    }
}

/// What begins with a byte that begins no value is refused for that byte.
pub proof fn law_values_begin_with_few_bytes(input: Seq<u8>)
    requires
        input.len() > 0,
        input[0] as char != 'i',
        input[0] as char != 'l',
        input[0] as char != 'd',
        !('0' <= input[0] as char <= '9'),
    ensures
        parsed(input) == Err::<BVal, ParseError>(ParseError::UnexpectedToken(input[0])),
{
}

proof fn lemma_cut_digits(buf: Seq<u8>, pos: int, n: int)
    requires
        0 <= pos <= n <= buf.len(),
    ensures
        digit_run(buf.take(n), pos) == if digit_run(buf, pos) <= n - pos {
            digit_run(buf, pos) as int
        } else {
            n - pos
        },
        number_at(buf.take(n), pos) <= number_at(buf, pos),
        digit_run(buf, pos) <= n - pos ==> number_at(buf.take(n), pos) == number_at(buf, pos),
{
    lemma_cut_run(buf, pos, n);
    lemma_digit_run_bound(buf, pos);
    let run = digit_run(buf, pos);
    let cut = digit_run(buf.take(n), pos);
    let digits = buf.subrange(pos, pos + run);
    assert(buf.take(n).subrange(pos, pos + cut) =~= digits.take(cut as int));
    lemma_digits_of_run(buf, pos);
    lemma_decimal_value_grows(digits, cut as int);
    if run <= n - pos {
        assert(digits.take(cut as int) =~= digits);
    }
}

proof fn lemma_cut_run(buf: Seq<u8>, pos: int, n: int)
    requires
        0 <= pos <= n <= buf.len(),
    ensures
        digit_run(buf.take(n), pos) == if digit_run(buf, pos) <= n - pos {
            digit_run(buf, pos) as int
        } else {
            n - pos
        },
    decreases n - pos,
{
    if pos < n {
        assert(buf.take(n)[pos] == buf[pos]);
        lemma_cut_run(buf, pos + 1, n);
    }
}

pub proof fn lemma_digits_of_run(buf: Seq<u8>, pos: int)
    requires
        0 <= pos <= buf.len(),
    ensures
        forall|i: int|
            0 <= i < digit_run(buf, pos) ==> is_digit(
                #[trigger] buf.subrange(pos, pos + digit_run(buf, pos))[i],
            ),
    decreases buf.len() - pos,
{
    lemma_digit_run_bound(buf, pos);
    if pos < buf.len() && is_digit(buf[pos]) {
        lemma_digits_of_run(buf, pos + 1);
        lemma_digit_run_bound(buf, pos + 1);
        let all = buf.subrange(pos, pos + digit_run(buf, pos));
        let rest = buf.subrange(pos + 1, pos + 1 + digit_run(buf, pos + 1));
        assert forall|i: int| 0 <= i < digit_run(buf, pos) implies is_digit(
            #[trigger] all[i],
        ) by {
            if i > 0 {
                assert(all[i] == rest[i - 1]);
            }
        }
    }
}

proof fn lemma_cut_string(buf: Seq<u8>, pos: int, n: int)
    requires
        buf.len() <= usize::MAX,
        string_at(buf, pos) matches Ok((s, end)) && 0 <= pos <= n < end,
    ensures
        string_at(buf.take(n), pos) == Err::<(Seq<u8>, int), ParseError>(ParseError::EOF),
{
    lemma_string_advances(buf, pos);
    lemma_cut_digits(buf, pos, n);
    let stop = pos + digit_run(buf, pos);
    if stop < n {
        assert(buf.take(n)[stop] == buf[stop]);
    }
}

proof fn lemma_cut_value(buf: Seq<u8>, pos: int, n: int)
    requires
        buf.len() <= usize::MAX,
        value_at(buf, pos) matches Ok((v, end)) && 0 <= pos <= n < end,
    ensures
        value_at(buf.take(n), pos) == Err::<(BVal, int), ParseError>(ParseError::EOF),
    decreases buf.len() - pos, 1int,
{
    let cut = buf.take(n);
    lemma_value_advances(buf, pos);
    if pos < n {
        assert(cut[pos] == buf[pos]);
        if buf[pos] == 105 {
            let neg = pos + 1 < buf.len() && buf[pos + 1] == 45;
            let start = if neg {
                pos + 2
            } else {
                pos + 1
            };
            if start <= n {
                lemma_cut_digits(buf, start, n);
                if pos + 1 < n {
                    assert(cut[pos + 1] == buf[pos + 1]);
                }
                let stop = start + digit_run(buf, start);
                if stop < n {
                    assert(cut[stop] == buf[stop]);
                }
            } else {
                assert(n == pos + 1);
                lemma_cut_digits(buf, pos + 1, n);
                assert(cut.subrange(pos + 1, pos + 1) =~= Seq::empty());
            }
        } else if buf[pos] == 108 {
            lemma_cut_items(buf, pos + 1, n);
        } else if buf[pos] == 100 {
            lemma_cut_entries(buf, pos + 1, n);
        } else {
            lemma_cut_string(buf, pos, n);
        }
    }
}

proof fn lemma_cut_items(buf: Seq<u8>, pos: int, n: int)
    requires
        buf.len() <= usize::MAX,
        items_at(buf, pos) matches Ok((items, end)) && 0 <= pos <= n < end,
    ensures
        items_at(buf.take(n), pos) == Err::<(Seq<BVal>, int), ParseError>(ParseError::EOF),
    decreases buf.len() - pos, 2int,
{
    let cut = buf.take(n);
    lemma_items_advance(buf, pos);
    if pos < n {
        assert(cut[pos] == buf[pos]);
        if buf[pos] != 101 {
            lemma_value_advances(buf, pos);
            let next = value_at(buf, pos)->Ok_0.1;
            if next <= n {
                assert(stands_at(buf, pos, next, cut, pos));
                lemma_value_local(buf, pos, cut, pos, next);
                lemma_cut_items(buf, next, n);
            } else {
                lemma_cut_value(buf, pos, n);
            }
        }
    }
}

proof fn lemma_cut_entries(buf: Seq<u8>, pos: int, n: int)
    requires
        buf.len() <= usize::MAX,
        entries_at(buf, pos) matches Ok((entries, end)) && 0 <= pos <= n < end,
    ensures
        entries_at(buf.take(n), pos) == Err::<(Seq<(Seq<u8>, BVal)>, int), ParseError>(
            ParseError::EOF,
        ),
    decreases buf.len() - pos, 2int,
{
    let cut = buf.take(n);
    lemma_entries_advance(buf, pos);
    if pos < n {
        assert(cut[pos] == buf[pos]);
        if buf[pos] != 101 {
            lemma_string_advances(buf, pos);
            let after_key = string_at(buf, pos)->Ok_0.1;
            if after_key > n {
                lemma_cut_string(buf, pos, n);
            } else {
                assert(stands_at(buf, pos, after_key, cut, pos));
                lemma_string_local(buf, pos, cut, pos, after_key);
                lemma_value_advances(buf, after_key);
                let next = value_at(buf, after_key)->Ok_0.1;
                if next <= n {
                    assert(stands_at(buf, after_key, next, cut, after_key));
                    lemma_value_local(buf, after_key, cut, after_key, next);
                    lemma_cut_entries(buf, next, n);
                } else {
                    lemma_cut_value(buf, after_key, n);
                }
            }
        }
    }
}

} // verus!
