//! What trackers are told, and what is understood of their answers.
use vstd::prelude::*;
use vstd::utf8::{encode_utf8, is_ascii_chars, is_ascii_chars_encode_utf8};

use crate::text::{decimal, padded};
use crate::tracker::{
    announce_message, announce_text, connect_message, escaped, event_id, form_encoded, form_keeps,
    form_text, query_encoded, request_pairs, Event, TrackerRequest,
};
use crate::wire::{
    be16, be32, be64, law_numbers_are_read_back, lemma_u32_at, u16_at, u32_at, u64_at,
};

verus! {

// ---------------------------------------------------------------------------
// Numbers as text
// ---------------------------------------------------------------------------

pub open spec fn is_decimal_digit(c: char) -> bool {
    '0' <= c <= '9'
}

/// The number that a row of digits stands for.
pub open spec fn value_of_digits(text: Seq<char>) -> int
    decreases text.len(),
{
    if text.len() == 0 {
        0
    } else {
        10 * value_of_digits(text.drop_last()) + (text.last() as int - '0' as int)
    }
}

/// A number as text is made of digits, does not begin with a zero unless it is one,
/// and stands for the number.
pub proof fn law_decimal_notation(n: nat)
    ensures
        decimal(n).len() > 0,
        forall|i: int| 0 <= i < decimal(n).len() ==> is_decimal_digit(#[trigger] decimal(n)[i]),
        value_of_digits(decimal(n)) == n,
        n > 0 ==> decimal(n)[0] != '0',
        n == 0 ==> decimal(n).len() == 1,
    decreases n,
{
    reveal_with_fuel(value_of_digits, 2);
    let text = decimal(n);
    if n < 10 {
        assert(text.drop_last() =~= Seq::empty());
    } else {
        law_decimal_notation(n / 10);
        assert(text.drop_last() =~= decimal(n / 10));
        assert forall|i: int| 0 <= i < text.len() implies is_decimal_digit(#[trigger] text[i]) by {
            if i < decimal(n / 10).len() {
                assert(text[i] == decimal(n / 10)[i]);
            }
        }
    }
}

/// Text that is padded is the text and then blanks, and is as wide as it should be
/// or as long as the text.
pub proof fn law_padding(text: Seq<char>, width: nat)
    ensures
        padded(text, width).len() == if text.len() < width {
            width
        } else {
            text.len()
        },
        padded(text, width).take(text.len() as int) == text,
        forall|i: int|
            text.len() <= i < padded(text, width).len() ==> #[trigger] padded(text, width)[i]
                == ' ',
{
    assert(padded(text, width).take(text.len() as int) =~= text);
}

// ---------------------------------------------------------------------------
// What an HTTP tracker is told
// ---------------------------------------------------------------------------

/// How an event is told.
pub open spec fn event_part(event: Option<Event>) -> Seq<char> {
    match event {
        None => Seq::empty(),
        Some(Event::Started) => "&event=started"@,
        Some(Event::Completed) => "&event=completed"@,
        Some(Event::Stopped) => "&event=stopped"@,
    }
}

/// What follows the port.
pub open spec fn query_end(request: TrackerRequest) -> Seq<char> {
    event_part(request.event) + ("&info_hash="@ + query_encoded(request.info_hash@) + "&peer_id="@
        + query_encoded(request.peer_id@))
}

/// The query that tells a tracker everything there is to tell, in this order.
pub open spec fn whole_query(request: TrackerRequest) -> Seq<char> {
    "compact=1&uploaded="@ + (decimal(request.uploaded as nat) + ("&downloaded="@ + (decimal(
        request.downloaded as nat,
    ) + ("&left="@ + (decimal(request.left as nat) + ("&port="@ + (decimal(request.port as nat)
        + query_end(request))))))))
}

/// Whether text can stand in a form as it is: lower case letters and digits.
pub open spec fn plain(text: Seq<char>) -> bool {
    forall|i: int|
        0 <= i < text.len() ==> is_decimal_digit(#[trigger] text[i]) || 'a' <= text[i] <= 'z'
}

proof fn lemma_plain(text: Seq<char>)
    requires
        plain(text),
    ensures
        form_text(encode_utf8(text)) == text,
{
    assert(is_ascii_chars(text)) by {
        assert forall|i: int| 0 <= i < text.len() implies '\0' <= #[trigger] text[i]
            <= '\u{7f}' by {
            assert(is_decimal_digit(text[i]) || 'a' <= text[i] <= 'z');
        }
    }
    is_ascii_chars_encode_utf8(text);
    let bytes = encode_utf8(text);
    assert forall|i: int| 0 <= i < text.len() implies #[trigger] bytes[i] as char == text[i]
        && form_keeps(bytes[i]) && bytes[i] != 32 by {
        assert(is_decimal_digit(text[i]) || 'a' <= text[i] <= 'z');
        assert(text[i] as u8 == bytes[i]);
    }
    lemma_kept(bytes, text);
}

proof fn lemma_kept(bytes: Seq<u8>, text: Seq<char>)
    requires
        bytes.len() == text.len(),
        forall|i: int|
            0 <= i < text.len() ==> #[trigger] bytes[i] as char == text[i] && form_keeps(bytes[i])
                && bytes[i] != 32,
    ensures
        form_text(bytes) == text,
    decreases bytes.len(),
{
    if bytes.len() > 0 {
        let n = bytes.len() - 1;
        assert(bytes[n] as char == text[n]);
        lemma_kept(bytes.drop_last(), text.drop_last());
        assert(form_text(bytes) =~= text);
    } else {
        assert(form_text(bytes) =~= text);
    }
}

proof fn lemma_add_pair(
    pairs: Seq<(Seq<char>, Seq<char>)>,
    name: Seq<char>,
    value: Seq<char>,
    label: Seq<char>,
)
    requires
        plain(name),
        plain(value),
        form_encoded(pairs).len() > 0,
        label == seq!['&'] + name + seq!['='],
    ensures
        form_encoded(pairs.push((name, value))) == form_encoded(pairs) + label + value,
{
    lemma_plain(name);
    lemma_plain(value);
    let longer = pairs.push((name, value));
    assert(longer.drop_last() =~= pairs);
    assert(form_encoded(longer) =~= form_encoded(pairs) + label + value);
}

proof fn lemma_plain_number(n: nat)
    ensures
        plain(decimal(n)),
{
    law_decimal_notation(n);
    assert forall|i: int| 0 <= i < decimal(n).len() implies is_decimal_digit(
        #[trigger] decimal(n)[i],
    ) || 'a' <= decimal(n)[i] <= 'z' by {}
}

proof fn lemma_five_pairs(request: TrackerRequest)
    ensures
        ({
            let pairs = request_pairs(TrackerRequest { event: None, ..request });
            form_encoded(pairs) == "compact=1&uploaded="@ + decimal(request.uploaded as nat)
                + "&downloaded="@ + decimal(request.downloaded as nat) + "&left="@ + decimal(
                request.left as nat,
            ) + "&port="@ + decimal(request.port as nat)
        }),
{
    let u = decimal(request.uploaded as nat);
    let d = decimal(request.downloaded as nat);
    let l = decimal(request.left as nat);
    let p = decimal(request.port as nat);
    let none: Seq<(Seq<char>, Seq<char>)> = Seq::empty();
    let one = none.push(("compact"@, "1"@));
    let two = one.push(("uploaded"@, u));
    let three = two.push(("downloaded"@, d));
    let four = three.push(("left"@, l));
    let five = four.push(("port"@, p));
    assert(request_pairs(TrackerRequest { event: None, ..request }) =~= five);
    reveal_strlit("compact");
    reveal_strlit("1");
    reveal_strlit("uploaded");
    reveal_strlit("downloaded");
    reveal_strlit("left");
    reveal_strlit("port");
    reveal_strlit("compact=1&uploaded=");
    reveal_strlit("&downloaded=");
    reveal_strlit("&left=");
    reveal_strlit("&port=");
    lemma_plain("compact"@);
    lemma_plain("1"@);
    lemma_plain_number(request.uploaded as nat);
    lemma_plain_number(request.downloaded as nat);
    lemma_plain_number(request.left as nat);
    lemma_plain_number(request.port as nat);
    reveal_with_fuel(form_encoded, 2);
    assert(one.drop_last() =~= none);
    assert(one.last() == ("compact"@, "1"@));
    assert(form_encoded(none) =~= Seq::<char>::empty());
    let first = "compact"@ + seq!['='] + "1"@;
    assert(form_encoded(one) =~= first);
    let label = seq!['&'] + "uploaded"@ + seq!['='];
    lemma_add_pair(one, "uploaded"@, u, label);
    assert(first + label =~= "compact=1&uploaded="@);
    assert("&downloaded="@ =~= seq!['&'] + "downloaded"@ + seq!['=']);
    lemma_add_pair(two, "downloaded"@, d, "&downloaded="@);
    assert("&left="@ =~= seq!['&'] + "left"@ + seq!['=']);
    lemma_add_pair(three, "left"@, l, "&left="@);
    assert("&port="@ =~= seq!['&'] + "port"@ + seq!['=']);
    lemma_add_pair(four, "port"@, p, "&port="@);
}

proof fn lemma_event_pair(request: TrackerRequest)
    ensures
        form_encoded(request_pairs(request)) == form_encoded(
            request_pairs(TrackerRequest { event: None, ..request }),
        ) + event_part(request.event),
{
    let pairs = request_pairs(TrackerRequest { event: None, ..request });
    lemma_five_pairs(request);
    reveal_strlit("compact=1&uploaded=");
    match request.event {
        None => {
            assert(form_encoded(pairs) + Seq::<char>::empty() =~= form_encoded(pairs));
        },
        Some(event) => {
            reveal_strlit("event");
            reveal_strlit("started");
            reveal_strlit("completed");
            reveal_strlit("stopped");
            reveal_strlit("&event=started");
            reveal_strlit("&event=completed");
            reveal_strlit("&event=stopped");
            let label = seq!['&'] + "event"@ + seq!['='];
            let name = match event {
                Event::Started => "started"@,
                Event::Completed => "completed"@,
                Event::Stopped => "stopped"@,
            };
            lemma_add_pair(pairs, "event"@, name, label);
            assert(label + name =~= event_part(request.event));
            assert(request_pairs(request) =~= pairs.push(("event"@, name)));
            assert(form_encoded(pairs) + label + name =~= form_encoded(pairs) + event_part(
                request.event,
            ));
        },
    }
}

/// An HTTP tracker is told, in this order: that compact answers are welcome, how
/// much was sent and received, how much is missing, the port, the event if there is
/// one, the info hash and the peer id.
pub proof fn law_query_tells_everything(request: TrackerRequest)
    ensures
        announce_text(request) == whole_query(request),
{
    lemma_five_pairs(request);
    lemma_event_pair(request);
    let u = decimal(request.uploaded as nat);
    let d = decimal(request.downloaded as nat);
    let l = decimal(request.left as nat);
    let p = decimal(request.port as nat);
    let event = event_part(request.event);
    let hash = query_encoded(request.info_hash@);
    let id = query_encoded(request.peer_id@);
    let to_u = "compact=1&uploaded="@ + u;
    let to_d = to_u + "&downloaded="@ + d;
    let to_l = to_d + "&left="@ + l;
    let to_p = to_l + "&port="@ + p;
    let tail = "&info_hash="@ + hash + "&peer_id="@ + id;
    let end = event + tail;
    lemma_regroup(to_p + event, "&info_hash="@, hash);
    lemma_regroup(to_p + event, "&info_hash="@ + hash, "&peer_id="@);
    lemma_regroup(to_p + event, "&info_hash="@ + hash + "&peer_id="@, id);
    lemma_regroup(to_p, event, tail);
    lemma_regroup(to_l + "&port="@, p, end);
    lemma_regroup(to_l, "&port="@, p + end);
    let from_p = "&port="@ + (p + end);
    lemma_regroup(to_d + "&left="@, l, from_p);
    lemma_regroup(to_d, "&left="@, l + from_p);
    let from_l = "&left="@ + (l + from_p);
    lemma_regroup(to_u + "&downloaded="@, d, from_l);
    lemma_regroup(to_u, "&downloaded="@, d + from_l);
    let from_d = "&downloaded="@ + (d + from_l);
    lemma_regroup("compact=1&uploaded="@, u, from_d);
}

proof fn lemma_regroup(a: Seq<char>, b: Seq<char>, c: Seq<char>)
    ensures
        (a + b) + c == a + (b + c),
{
    assert((a + b) + c =~= a + (b + c));
}

proof fn lemma_same_front(front: Seq<char>, a: Seq<char>, b: Seq<char>)
    requires
        front + a == front + b,
    ensures
        a == b,
{
    assert((front + a).skip(front.len() as int) =~= a);
    assert((front + b).skip(front.len() as int) =~= b);
}

proof fn lemma_same_number(a: nat, b: nat, x: Seq<char>, y: Seq<char>)
    requires
        decimal(a) + x == decimal(b) + y,
        x.len() > 0 && x[0] == '&',
        y.len() > 0 && y[0] == '&',
    ensures
        a == b,
        x == y,
{
    law_decimal_notation(a);
    law_decimal_notation(b);
    let da = decimal(a);
    let db = decimal(b);
    if da.len() < db.len() {
        assert((da + x)[da.len() as int] == x[0]);
        assert((db + y)[da.len() as int] == db[da.len() as int]);
        assert(false);
    }
    if db.len() < da.len() {
        assert((db + y)[db.len() as int] == y[0]);
        assert((da + x)[db.len() as int] == da[db.len() as int]);
        assert(false);
    }
    assert((da + x).take(da.len() as int) =~= da);
    assert((db + y).take(da.len() as int) =~= db);
    assert(da == db);
    lemma_same_front(da, x, y);
}

/// Requests that differ in what was sent or received, in what is missing, in the
/// port or in the event give different queries.
pub proof fn law_queries_differ(a: TrackerRequest, b: TrackerRequest)
    requires
        announce_text(a) == announce_text(b),
    ensures
        a.uploaded == b.uploaded,
        a.downloaded == b.downloaded,
        a.left == b.left,
        a.port == b.port,
        a.event == b.event,
{
    law_query_tells_everything(a);
    law_query_tells_everything(b);
    reveal_strlit("&downloaded=");
    reveal_strlit("&left=");
    reveal_strlit("&port=");
    reveal_strlit("&info_hash=");
    reveal_strlit("&event=started");
    reveal_strlit("&event=completed");
    reveal_strlit("&event=stopped");
    let (pa, pb) = (
        "&port="@ + (decimal(a.port as nat) + query_end(a)),
        "&port="@ + (decimal(b.port as nat) + query_end(b)),
    );
    let (la, lb) = (
        "&left="@ + (decimal(a.left as nat) + pa),
        "&left="@ + (decimal(b.left as nat) + pb),
    );
    let (da, db) = (
        "&downloaded="@ + (decimal(a.downloaded as nat) + la),
        "&downloaded="@ + (decimal(b.downloaded as nat) + lb),
    );
    lemma_same_front(
        "compact=1&uploaded="@,
        decimal(a.uploaded as nat) + da,
        decimal(b.uploaded as nat) + db,
    );
    lemma_same_number(a.uploaded as nat, b.uploaded as nat, da, db);
    lemma_same_front("&downloaded="@, decimal(a.downloaded as nat) + la, decimal(
        b.downloaded as nat,
    ) + lb);
    lemma_same_number(a.downloaded as nat, b.downloaded as nat, la, lb);
    lemma_same_front("&left="@, decimal(a.left as nat) + pa, decimal(b.left as nat) + pb);
    lemma_same_number(a.left as nat, b.left as nat, pa, pb);
    lemma_same_front("&port="@, decimal(a.port as nat) + query_end(a), decimal(b.port as nat)
        + query_end(b));
    lemma_same_number(a.port as nat, b.port as nat, query_end(a), query_end(b));
    let (ea, eb) = (query_end(a), query_end(b));
    assert(ea[1] == eb[1]);
    assert(ea[7] == eb[7]);
    assert(ea[9] == eb[9]);
}

/// What a hexadecimal digit stands for.
pub open spec fn hex_value(c: char) -> int {
    if '0' <= c <= '9' {
        c as int - '0' as int
    } else {
        c as int - 'A' as int + 10
    }
}

/// In a query bytes stand one behind the other, each by itself: visible ones as they
/// are, but for those that end a query or stand around one; all others as a percent
/// sign and two hexadecimal digits that stand for the byte.
pub proof fn law_query_encoding(first: Seq<u8>, second: Seq<u8>, byte: u8)
    ensures
        query_encoded(first + second) == query_encoded(first) + query_encoded(second),
        ({
            let text = query_encoded(seq![byte]);
            let visible = 33 <= byte <= 126 && byte as char != '"' && byte as char != '#'
                && byte as char != '<' && byte as char != '>';
            &&& visible ==> text == seq![byte as char]
            &&& !visible ==> text.len() == 3 && text[0] == '%' && 16 * hex_value(text[1])
                + hex_value(text[2]) == byte && (is_decimal_digit(text[1]) || 'A' <= text[1]
                <= 'F') && (is_decimal_digit(text[2]) || 'A' <= text[2] <= 'F')
        }),
    decreases second.len(),
{
    reveal_with_fuel(query_encoded, 2);
    assert(seq![byte].drop_last() =~= Seq::empty());
    assert(seq![byte].last() == byte);
    assert(Seq::<char>::empty() + seq![byte as char] =~= seq![byte as char]);
    assert(Seq::<char>::empty() + escaped(byte) =~= escaped(byte));
    if second.len() == 0 {
        assert(first + second =~= first);
        assert(query_encoded(first) + query_encoded(second) =~= query_encoded(first));
    } else {
        law_query_encoding(first, second.drop_last(), byte);
        assert((first + second).drop_last() =~= first + second.drop_last());
        assert(query_encoded(first + second) =~= query_encoded(first) + query_encoded(second));
    }
}

// ---------------------------------------------------------------------------
// What a UDP tracker is told
// ---------------------------------------------------------------------------

/// What a UDP tracker is told, field by field: first a request for a connection,
/// then the announcement.
#[verifier::rlimit(50)]
pub proof fn law_udp_messages(request: TrackerRequest, transaction_id: u32, connection_id: u64)
    requires
        request.info_hash@.len() == 20,
        request.peer_id@.len() == 20,
    ensures
        ({
            let m = connect_message(transaction_id);
            &&& m.len() == 16
            &&& u64_at(m, 0) == 0x41727101980
            &&& u32_at(m, 8) == 0
            &&& u32_at(m, 12) == transaction_id
        }),
        ({
            let m = announce_message(request, transaction_id, connection_id);
            &&& m.len() == 98
            &&& u64_at(m, 0) == connection_id
            &&& u32_at(m, 8) == 1
            &&& u32_at(m, 12) == transaction_id
            &&& m.subrange(16, 36) == request.info_hash@
            &&& m.subrange(36, 56) == request.peer_id@
            &&& u64_at(m, 56) == request.downloaded
            &&& u64_at(m, 64) == request.left
            &&& u64_at(m, 72) == request.uploaded
            &&& u32_at(m, 80) == match request.event {
                None => 0u32,
                Some(Event::Completed) => 1,
                Some(Event::Started) => 2,
                Some(Event::Stopped) => 3,
            }
            &&& u32_at(m, 84) == 0
            &&& u32_at(m, 88) == 0
            &&& u32_at(m, 92) == 0xffff_ffff
            &&& u16_at(m, 96) == request.port
        }),
{
    let c = connect_message(transaction_id);
    lemma_u64_part(c, 0, 0x41727101980);
    lemma_u32_part(c, 8, 0);
    lemma_u32_part(c, 12, transaction_id);
    let m = announce_message(request, transaction_id, connection_id);
    lemma_u64_part(m, 0, connection_id);
    lemma_u32_part(m, 8, 1);
    lemma_u32_part(m, 12, transaction_id);
    assert(m.subrange(16, 36) =~= request.info_hash@);
    assert(m.subrange(36, 56) =~= request.peer_id@);
    lemma_u64_part(m, 56, request.downloaded);
    lemma_u64_part(m, 64, request.left);
    lemma_u64_part(m, 72, request.uploaded);
    lemma_u32_part(m, 80, event_id(request.event));
    lemma_u32_part(m, 84, 0);
    lemma_u32_part(m, 88, 0);
    lemma_u32_part(m, 92, 0xffff_ffff);
    law_numbers_are_read_back(request.port, 0, 0);
    assert(m[96] == be16(request.port)[0] && m[97] == be16(request.port)[1]);
}

proof fn lemma_u32_part(m: Seq<u8>, pos: int, n: u32)
    ensures
        0 <= pos && pos + 4 <= m.len() && m.subrange(pos, pos + 4) =~= be32(n) ==> u32_at(m, pos)
            == n,
{
    if 0 <= pos && pos + 4 <= m.len() && m.subrange(pos, pos + 4) =~= be32(n) {
        lemma_u32_at(m, pos, n);
    }
}

proof fn lemma_u64_part(m: Seq<u8>, pos: int, n: u64)
    ensures
        0 <= pos && pos + 8 <= m.len() && m.subrange(pos, pos + 8) =~= be64(n) ==> u64_at(m, pos)
            == n,
{
    if 0 <= pos && pos + 8 <= m.len() && m.subrange(pos, pos + 8) =~= be64(n) {
        let part = m.subrange(pos, pos + 8);
        law_numbers_are_read_back(0, 0, n);
        assert(part[0] == m[pos] && part[1] == m[pos + 1] && part[2] == m[pos + 2] && part[3]
            == m[pos + 3]);
        assert(part[4] == m[pos + 4] && part[5] == m[pos + 5] && part[6] == m[pos + 6] && part[7]
            == m[pos + 7]);
        assert(u64_at(part, 0) == u64_at(m, pos));
    }
}

} // verus!
