//! What is refused, and why.
use vstd::prelude::*;
use vstd::utf8::{encode_utf8, encode_utf8_decode_utf8, encode_utf8_valid_utf8};

use crate::bencode::{
    decimal_value, dict_of, digit_run, is_digit, number_at, parsed, value_at, BVal, Dict,
    ParseError,
};
use crate::bencode_laws::lemma_run_of_digits;
use crate::conversion::ConversionError;
use crate::peer::{port_value, quad_at};
use crate::protocol_model::{faults, on_message, MsgError, World};
use crate::torrent_info::TorrentView;
use crate::tracker::{
    connection_named, http_reply, peers_named, tracker_at, tracker_value, HttpReplyView,
};
use crate::types::PieceIndex;
use crate::value_laws::{ascii, lemma_digits_of_run, lemma_last_number, lemma_peer_keys};
use crate::wire::{u32_at, u64_at};

verus! {

// ---------------------------------------------------------------------------
// Bencoded text
// ---------------------------------------------------------------------------

pub open spec fn all_digits(text: Seq<u8>) -> bool {
    forall|i: int| 0 <= i < text.len() ==> '0' <= (#[trigger] text[i]) as char <= '9'
}

/// Digits behind an `i`, and behind a minus if there is one, are a number if an `e` is
/// behind them. If something else is there, that is the error; a number that is too
/// large is, before that. Zeros in front do not matter, and no digits at all are zero.
pub proof fn law_numbers_end_with_e(digits: Seq<u8>, negative: bool, next: u8, rest: Seq<u8>)
    requires
        all_digits(digits),
        !('0' <= next as char <= '9'),
        negative || digits.len() > 0 || next as char != '-',
    ensures
        ({
            let sign = if negative {
                seq!['-' as u8]
            } else {
                Seq::empty()
            };
            let value = decimal_value(digits) as int;
            parsed(seq!['i' as u8] + sign + digits + seq![next] + rest) == if value > isize::MAX {
                Err::<BVal, ParseError>(ParseError::NumberTooLarge)
            } else if next as char != 'e' {
                Err(ParseError::UnexpectedToken(next))
            } else if negative {
                Ok(BVal::Int(-value))
            } else {
                Ok(BVal::Int(value))
            }
        }),
{
    let sign = if negative {
        seq!['-' as u8]
    } else {
        Seq::empty()
    };
    let text = seq!['i' as u8] + sign + digits + seq![next] + rest;
    let start: int = if negative {
        2
    } else {
        1
    };
    assert(text.subrange(start, start + digits.len()) =~= digits);
    assert(text[start + digits.len()] == next);
    assert(text[0] == 105);
    if negative {
        assert(text[1] == 45);
    } else if digits.len() > 0 {
        assert(text[1] == digits[0]);
    } else {
        assert(text[1] == next);
    }
    assert forall|i: int| 0 <= i < digits.len() implies is_digit(#[trigger] digits[i]) by {
        assert('0' <= digits[i] as char <= '9');
    }
    lemma_run_of_digits(text, start, digits);
}

/// A number, a colon and that many bytes are a string. If it is no colon, that is the
/// error; if there are fewer bytes, the end of the file is.
pub proof fn law_strings_have_their_length(digits: Seq<u8>, next: u8, rest: Seq<u8>)
    requires
        digits.len() > 0,
        all_digits(digits),
        !('0' <= next as char <= '9'),
        digits.len() + 1 + rest.len() <= usize::MAX,
        decimal_value(digits) <= usize::MAX - digits.len() - 1,
    ensures
        ({
            let length = decimal_value(digits) as int;
            parsed(digits + seq![next] + rest) == if next as char != ':' {
                Err::<BVal, ParseError>(ParseError::UnexpectedToken(next))
            } else if length > rest.len() {
                Err(ParseError::EOF)
            } else {
                Ok(BVal::Str(rest.take(length)))
            }
        }),
{
    let text = digits + seq![next] + rest;
    let stop = digits.len() as int;
    let length = decimal_value(digits) as int;
    assert(text.subrange(0, stop) =~= digits);
    assert(text[stop] == next);
    assert(text[0] == digits[0]);
    assert forall|i: int| 0 <= i < digits.len() implies is_digit(#[trigger] digits[i]) by {
        assert('0' <= digits[i] as char <= '9');
    }
    lemma_run_of_digits(text, 0, digits);
    if length <= rest.len() {
        assert(text.subrange(stop + 1, stop + 1 + length) =~= rest.take(length));
    }
}

/// A list or dictionary without anything in it is one; what begins no item, or no key,
/// is refused.
pub proof fn law_items_begin_with_few_bytes(next: u8, rest: Seq<u8>)
    requires
        !('0' <= next as char <= '9'),
    ensures
        next as char == 'e' ==> parsed(seq!['l' as u8, next] + rest) == Ok::<BVal, ParseError>(
            BVal::List(Seq::empty()),
        ),
        next as char == 'e' ==> parsed(seq!['d' as u8, next] + rest) == Ok::<BVal, ParseError>(
            BVal::Dict(Map::empty(), seq!['d' as u8, 'e' as u8]),
        ),
        next as char != 'e' && next as char != 'i' && next as char != 'l' && next as char != 'd'
            ==> parsed(seq!['l' as u8, next] + rest) == Err::<BVal, ParseError>(
            ParseError::UnexpectedToken(next),
        ),
        next as char != 'e' && next as char != ':' ==> parsed(seq!['d' as u8, next] + rest)
            == Err::<BVal, ParseError>(ParseError::UnexpectedToken(next)),
{
    let list = seq!['l' as u8, next] + rest;
    let dict = seq!['d' as u8, next] + rest;
    assert(list[0] == 108 && list[1] == next);
    assert(dict[0] == 100 && dict[1] == next);
    reveal_with_fuel(value_at, 3);
    if next == 101 {
        assert(dict.subrange(0, 2) =~= seq!['d' as u8, 'e' as u8]);
        assert(dict_of(Seq::empty()) =~= Map::empty());
    } else {
        assert(dict.subrange(1, 1) =~= Seq::empty());
        assert(digit_run(dict, 1) == 0);
        assert(number_at(dict, 1) == 0);
    }
}

// ---------------------------------------------------------------------------
// Addresses
// ---------------------------------------------------------------------------

/// One to three digits that write a number below 256.
pub open spec fn octet(text: Seq<u8>) -> bool {
    1 <= text.len() <= 3 && all_digits(text) && decimal_value(text) <= 255
}

/// Four parts with dots between them.
pub open spec fn with_dots(a: Seq<u8>, b: Seq<u8>, c: Seq<u8>, d: Seq<u8>) -> Seq<u8> {
    a + seq!['.' as u8] + b + seq!['.' as u8] + c + seq!['.' as u8] + d
}

proof fn lemma_digits_are_digits(text: Seq<u8>)
    ensures
        all_digits(text) <==> forall|i: int| 0 <= i < text.len() ==> is_digit(#[trigger] text[i]),
{
    if all_digits(text) {
        assert forall|i: int| 0 <= i < text.len() implies is_digit(#[trigger] text[i]) by {
            assert('0' <= text[i] as char <= '9');
        }
    }
    if forall|i: int| 0 <= i < text.len() ==> is_digit(#[trigger] text[i]) {
        assert forall|i: int| 0 <= i < text.len() implies '0' <= (#[trigger] text[i]) as char
            <= '9' by {
            assert(is_digit(text[i]));
        }
    }
}

/// Four numbers below 256 with dots between them are an address.
pub proof fn law_four_numbers_are_an_address(a: Seq<u8>, b: Seq<u8>, c: Seq<u8>, d: Seq<u8>)
    requires
        octet(a),
        octet(b),
        octet(c),
        octet(d),
    ensures
        quad_at(with_dots(a, b, c, d), 0, 4, 0) == Some(
            0x100_0000 * (decimal_value(a) as int) + 0x1_0000 * decimal_value(b) + 256
                * decimal_value(c) + decimal_value(d),
        ),
{
    let text = with_dots(a, b, c, d);
    lemma_digits_are_digits(a);
    lemma_digits_are_digits(b);
    lemma_digits_are_digits(c);
    lemma_digits_are_digits(d);
    let pb = (a.len() + 1) as int;
    let pc = pb + b.len() + 1;
    let pd = pc + c.len() + 1;
    assert(text.subrange(0, a.len() as int) =~= a);
    assert(text[a.len() as int] == 46);
    lemma_run_of_digits(text, 0, a);
    assert(text.subrange(pb, pb + b.len()) =~= b);
    assert(text[pb + b.len()] == 46);
    lemma_run_of_digits(text, pb, b);
    assert(text.subrange(pc, pc + c.len()) =~= c);
    assert(text[pc + c.len()] == 46);
    lemma_run_of_digits(text, pc, c);
    assert(text.subrange(pd, text.len() as int) =~= d);
    lemma_last_number(text, pd, d);
    reveal_with_fuel(quad_at, 5);
}

/// Nothing else is one.
pub proof fn law_nothing_else_is_an_address(text: Seq<u8>)
    requires
        quad_at(text, 0, 4, 0) is Some,
    ensures
        exists|a: Seq<u8>, b: Seq<u8>, c: Seq<u8>, d: Seq<u8>|
            text == #[trigger] with_dots(a, b, c, d) && octet(a) && octet(b) && octet(c) && octet(
                d,
            ),
{
    reveal_with_fuel(quad_at, 5);
    let la = digit_run(text, 0) as int;
    let pb = la + 1;
    let lb = digit_run(text, pb) as int;
    let pc = pb + lb + 1;
    let lc = digit_run(text, pc) as int;
    let pd = pc + lc + 1;
    let ld = digit_run(text, pd) as int;
    let a = text.subrange(0, la);
    let b = text.subrange(pb, pb + lb);
    let c = text.subrange(pc, pc + lc);
    let d = text.subrange(pd, pd + ld);
    lemma_digits_of_run(text, 0);
    lemma_digits_of_run(text, pb);
    lemma_digits_of_run(text, pc);
    lemma_digits_of_run(text, pd);
    lemma_digits_are_digits(a);
    lemma_digits_are_digits(b);
    lemma_digits_are_digits(c);
    lemma_digits_are_digits(d);
    assert(text =~= with_dots(a, b, c, d));
}

/// Ports are numbers of 16 bits.
pub proof fn law_ports_are_small(n: int, other: BVal)
    requires
        !(other is Int),
    ensures
        port_value(BVal::Int(n)) == if 0 <= n <= 65535 {
            Ok::<u16, ConversionError>(n as u16)
        } else {
            Err(ConversionError::WrongBValueConstructor)
        },
        port_value(other) is Err,
{
}

// ---------------------------------------------------------------------------
// Answers of trackers
// ---------------------------------------------------------------------------

/// A tracker is read as the one that its URL names.
pub proof fn law_trackers_are_named_by_text(url: Seq<char>, other: BVal)
    requires
        !(other is Str),
    ensures
        tracker_value(BVal::Str(encode_utf8(url))) == tracker_at(url),
        tracker_value(other) is Err,
{
    encode_utf8_valid_utf8(url);
    encode_utf8_decode_utf8(url);
}

/// Answers that cannot be used are told apart: those that are not bencoded, those
/// that are no dictionary, those whose reason or whose peers cannot be read.
pub proof fn law_unusable_replies(
    data: Seq<u8>,
    entries: Map<Seq<u8>, BVal>,
    raw: Seq<u8>,
    error: ParseError,
)
    ensures
        parsed(data) == Err::<BVal, ParseError>(error) ==> http_reply(data)
            == HttpReplyView::Unparsable(error),
        parsed(data) is Ok && !(parsed(data)->Ok_0 is Dict) ==> http_reply(data) is NotADictionary,
        parsed(data) == Ok::<BVal, ParseError>(BVal::Dict(entries, raw)) ==> {
            let reason = ascii("failure reason"@);
            let peers = ascii("peers"@);
            &&& entries.contains_key(reason) && !(entries[reason] is Str) ==> http_reply(
                data,
            ) is BadReason
            &&& !entries.contains_key(reason) && entries.contains_key(peers) && !(
            entries[peers] is List) ==> http_reply(data) is BadPeers
        },
{
    lemma_peer_keys();
}

/// A UDP tracker's answer counts exactly if it is long enough, is of the right kind and
/// has the number of the question. A connection's name follows; or peers follow, six
/// bytes for each, behind twelve bytes of counts.
pub proof fn law_udp_answers(response: Seq<u8>, asked: u32)
    ensures
        connection_named(response, asked) is Some <==> response.len() >= 16 && u32_at(response, 0)
            == 0 && u32_at(response, 4) == asked,
        connection_named(response, asked) is Some ==> connection_named(response, asked)->Some_0
            == u64_at(response, 8),
        peers_named(response, asked) is Some <==> response.len() >= 20 && u32_at(response, 0) == 1
            && u32_at(response, 4) == asked,
        peers_named(response, asked) is Some ==> peers_named(response, asked)->Some_0.len() == (
        response.len() - 20) / 6,
{
}

// ---------------------------------------------------------------------------
// Messages
// ---------------------------------------------------------------------------

/// Messages of a kind that nobody has heard of are passed over.
pub proof fn law_unknown_messages_are_passed_over(
    w: World,
    t: TorrentView,
    kind: u8,
    payload: nat,
    pick: Option<PieceIndex>,
)
    requires
        kind > 8,
    ensures
        !faults(w, t, kind, payload),
        on_message(w, t, kind, payload, pick) == (w, Ok::<(), MsgError>(())),
{
}

} // verus!
