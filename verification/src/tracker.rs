//! What is said to trackers, and what they answer.
use url::form_urlencoded;
use url::percent_encoding::{percent_encode, QUERY_ENCODE_SET};
use url::Url;
use vstd::prelude::*;
use vstd::slice::slice_subrange;
use vstd::string::StringExecFns;
use vstd::utf8::encode_utf8;

use crate::bencode::{
    lemma_model, lemma_well_formed, parse_bvalue, parsed, BVal, BValue, Dict, ParseError,
};
use crate::chance::any_u32;
use crate::conversion::{
    agrees, list_value, text_value, ConversionError, ConversionResult, FromBValue,
};
use crate::peer::{
    compact_peers, compact_text, law_compact_peers_are_read_back, peer_value, read_compact_peers,
    PeerInfo,
};
use crate::text::{decimal, decimal_text, push_decimal};
use crate::wire::{
    be16, be32, be64, first_u32, first_u64, law_numbers_are_read_back, lemma_u32_at, push_u16,
    push_u32, push_u64, u32_at, u64_at,
};

verus! {

/// What has happened to the download.
#[derive(Clone, Copy, Debug, PartialEq, Eq, Structural)]
pub enum Event {
    Started,
    Completed,
    Stopped,
}

/// The name of an event.
pub open spec fn event_name(event: Event) -> Seq<char> {
    match event {
        Event::Started => "started"@,
        Event::Completed => "completed"@,
        Event::Stopped => "stopped"@,
    }
}

impl Event {
    pub fn as_slice(&self) -> (r: &'static str)
        ensures
            r@ == event_name(*self),
    {
        match *self {
            Event::Started => "started",
            Event::Completed => "completed",
            Event::Stopped => "stopped",
        }
    }
}

/// The number of an event.
pub open spec fn event_id(event: Option<Event>) -> u32 {
    match event {
        None => 0,
        Some(Event::Started) => 2,
        Some(Event::Completed) => 1,
        Some(Event::Stopped) => 3,
    }
}

pub fn event_to_id(event: Option<Event>) -> (r: u32)
    ensures
        r == event_id(event),
{
    match event {
        None => 0,
        Some(Event::Started) => 2,
        Some(Event::Completed) => 1,
        Some(Event::Stopped) => 3,
    }
}

/// What a tracker is told.
#[derive(Debug)]
pub struct TrackerRequest<'a> {
    pub info_hash: &'a [u8],
    pub peer_id: &'a [u8],
    pub event: Option<Event>,
    pub uploaded: u64,
    pub downloaded: u64,
    pub left: u64,
    pub port: u16,
}

// ---------------------------------------------------------------------------
// Which tracker
// ---------------------------------------------------------------------------

/// A tracker: the URL of one that speaks HTTP, or the host and port of one
/// that speaks UDP.
#[derive(Debug)]
pub enum Tracker {
    Http(String),
    Udp(String),
}

/// What a [`Tracker`] says.
pub enum TrackerView {
    Http(Seq<char>),
    Udp(Seq<char>),
}

impl DeepView for Tracker {
    type V = TrackerView;

    open spec fn deep_view(&self) -> TrackerView {
        match *self {
            Tracker::Http(url) => TrackerView::Http(url@),
            Tracker::Udp(address) => TrackerView::Udp(address@),
        }
    }
}

/// The parts of a URL.
#[derive(Debug)]
pub struct UrlParts {
    pub scheme: String,
    pub host: Option<String>,
    pub port: Option<u16>,
}

/// What [`UrlParts`] say.
#[verifier::ext_equal]
pub struct UrlView {
    pub scheme: Seq<char>,
    pub host: Option<Seq<char>>,
    pub port: Option<u16>,
}

impl View for UrlParts {
    type V = UrlView;

    open spec fn view(&self) -> UrlView {
        UrlView {
            scheme: self.scheme@,
            host: match self.host {
                Some(host) => Some(host@),
                None => None,
            },
            port: self.port,
        }
    }
}

pub open spec fn parts_view(parts: Option<UrlParts>) -> Option<UrlView> {
    match parts {
        Some(parts) => Some(parts@),
        None => None,
    }
}

/// The scheme of the URL that `Url::parse` makes of a text; `None` if it makes
/// none.
pub uninterp spec fn url_scheme(text: Seq<char>) -> Option<Seq<char>>;

/// The host of the URL that `Url::parse` makes of a text, as `Url::host` gives
/// it.
pub uninterp spec fn url_host(text: Seq<char>) -> Option<Seq<char>>;

/// The port of the URL that `Url::parse` makes of a text, as `Url::port` gives
/// it.
pub uninterp spec fn url_port(text: Seq<char>) -> Option<u16>;

/// What `Url::serialize` writes for the URL that `Url::parse` makes of a text,
/// once it has been given another scheme; `None` if there is no such URL.
pub uninterp spec fn url_with_scheme(text: Seq<char>, scheme: Seq<char>) -> Option<Seq<char>>;

/// The parts of the URL that a text is.
pub open spec fn url_parts(text: Seq<char>) -> Option<UrlView> {
    match url_scheme(text) {
        Some(scheme) => Some(UrlView { scheme, host: url_host(text), port: url_port(text) }),
        None => None,
    }
}

/// `Url::parse` of url: the scheme, host and port of the URL that `text` is, or
/// `None` where it is none.
#[verifier::external_body]
fn parse_url(text: &str) -> (r: Option<UrlParts>)
    ensures
        parts_view(r) == match url_scheme(text@) {
            Some(scheme) => Some(
                UrlView { scheme, host: url_host(text@), port: url_port(text@) },
            ),
            None => None,
        },
{
    let url = Url::parse(text).ok()?;
    let host = url.host().map(|host| host.to_string());
    let port = url.port();
    Some(UrlParts { scheme: url.scheme, host, port })
}

/// `Url::parse` and `Url::serialize` of url, with another scheme put in between:
/// the text of the URL that `text` is, with that scheme.
#[verifier::external_body]
fn change_scheme(text: &str, scheme: String) -> (r: Option<String>)
    ensures
        match url_with_scheme(text@, scheme@) {
            Some(changed) => r matches Some(s) && s@ == changed,
            None => r is None,
        },
{
    let mut url = Url::parse(text).ok()?;
    url.scheme = scheme;
    Some(url.serialize())
}

/// What kind of tracker a URL names.
#[derive(Clone, Copy, Debug, PartialEq, Eq, Structural)]
pub enum TrackerKind {
    /// Not a URL.
    NoUrl,
    Http,
    Udp,
    /// A scheme that is not spoken here.
    Unknown,
}

pub open spec fn kind_of(parts: Option<UrlView>) -> TrackerKind {
    match parts {
        None => TrackerKind::NoUrl,
        Some(parts) => if parts.scheme == "http"@ {
            TrackerKind::Http
        } else if parts.scheme == "udp"@ {
            TrackerKind::Udp
        } else {
            TrackerKind::Unknown
        },
    }
}

/// What kind of tracker a URL with these parts names.
pub fn tracker_kind(parts: &Option<UrlParts>) -> (r: TrackerKind)
    ensures
        r == kind_of(parts_view(*parts)),
{
    match parts {
        None => TrackerKind::NoUrl,
        Some(parts) => {
            let http = String::from_str("http");
            let udp = String::from_str("udp");
            if parts.scheme == http {
                TrackerKind::Http
            } else if parts.scheme == udp {
                TrackerKind::Udp
            } else {
                TrackerKind::Unknown
            }
        },
    }
}

/// `host:port`, where a URL has both.
pub open spec fn address_of(parts: Option<UrlView>) -> Option<Seq<char>> {
    match parts {
        Some(parts) => match (parts.host, parts.port) {
            (Some(host), Some(port)) => Some(host + ":"@ + decimal(port as nat)),
            _ => None,
        },
        None => None,
    }
}

/// The address that a URL with these parts names.
pub fn tracker_address(parts: Option<UrlParts>) -> (r: Option<String>)
    ensures
        match address_of(parts_view(parts)) {
            Some(address) => r matches Some(s) && s@ == address,
            None => r is None,
        },
{
    match parts {
        Some(parts) => match (parts.host, parts.port) {
            (Some(host), Some(port)) => {
                let mut address = host;
                address.append(":");
                push_decimal(&mut address, port as u64);
                Some(address)
            },
            _ => None,
        },
        None => None,
    }
}

/// The tracker that a URL names. Of one that speaks UDP the URL does not show
/// host and port; they are those of the same URL with the scheme `http`.
pub open spec fn tracker_at(url: Seq<char>) -> ConversionResult<TrackerView> {
    match kind_of(url_parts(url)) {
        TrackerKind::NoUrl => Err(ConversionError::OtherError),
        TrackerKind::Http => Ok(TrackerView::Http(url)),
        TrackerKind::Udp => match url_with_scheme(url, "http"@) {
            Some(changed) => match address_of(url_parts(changed)) {
                Some(address) => Ok(TrackerView::Udp(address)),
                None => Err(ConversionError::UnusableTracker),
            },
            None => Err(ConversionError::UnusableTracker),
        },
        TrackerKind::Unknown => Err(ConversionError::UnusableTracker),
    }
}

pub open spec fn tracker_value(v: BVal) -> ConversionResult<TrackerView> {
    match text_value(v) {
        Err(e) => Err(e),
        Ok(url) => tracker_at(url),
    }
}

impl Tracker {
    /// The tracker that a URL names.
    pub fn from_url(url: String) -> (r: ConversionResult<Tracker>)
        ensures
            agrees(r, tracker_at(url@)),
    {
        match tracker_kind(&parse_url(url.as_str())) {
            TrackerKind::NoUrl => Err(ConversionError::OtherError),
            TrackerKind::Http => Ok(Tracker::Http(url)),
            TrackerKind::Udp => {
                let http = String::from_str("http");
                match change_scheme(url.as_str(), http) {
                    Some(changed) => match tracker_address(parse_url(changed.as_str())) {
                        Some(address) => Ok(Tracker::Udp(address)),
                        None => Err(ConversionError::UnusableTracker),
                    },
                    None => Err(ConversionError::UnusableTracker),
                }
            },
            TrackerKind::Unknown => Err(ConversionError::UnusableTracker),
        }
    }
}

impl<'a> FromBValue<'a> for Tracker {
    open spec fn reads(v: BVal) -> ConversionResult<TrackerView> {
        tracker_value(v)
    }

    fn from_bvalue(bvalue: BValue<'a>) -> (r: ConversionResult<Tracker>) {
        let url: String = match FromBValue::from_bvalue(bvalue) {
            Ok(url) => url,
            Err(e) => {
                return Err(e);
            },
        };
        Tracker::from_url(url)
    }
}

// ---------------------------------------------------------------------------
// Trackers that speak HTTP
// ---------------------------------------------------------------------------

pub open spec fn hex_digit(n: int) -> char {
    if n < 10 {
        (48 + n) as char
    } else {
        (55 + n) as char
    }
}

/// A byte with a percent sign in front, in hexadecimal notation.
pub open spec fn escaped(byte: u8) -> Seq<char> {
    seq!['%', hex_digit(byte as int / 16), hex_digit(byte as int % 16)]
}

/// Whether a byte may stand in a query as it is.
pub open spec fn query_keeps(byte: u8) -> bool {
    33 <= byte <= 126 && byte != 34 && byte != 35 && byte != 60 && byte != 62
}

/// Bytes as part of a query.
pub open spec fn query_encoded(bytes: Seq<u8>) -> Seq<char>
    decreases bytes.len(),
{
    if bytes.len() == 0 {
        Seq::empty()
    } else {
        query_encoded(bytes.drop_last()) + if query_keeps(bytes.last()) {
            seq![bytes.last() as char]
        } else {
            escaped(bytes.last())
        }
    }
}

/// Whether a byte may stand in a form as it is.
pub open spec fn form_keeps(byte: u8) -> bool {
    ||| 48 <= byte <= 57
    ||| 65 <= byte <= 90
    ||| 97 <= byte <= 122
    ||| byte == 42
    ||| byte == 45
    ||| byte == 46
    ||| byte == 95
}

/// Bytes as part of a form.
pub open spec fn form_text(bytes: Seq<u8>) -> Seq<char>
    decreases bytes.len(),
{
    if bytes.len() == 0 {
        Seq::empty()
    } else {
        form_text(bytes.drop_last()) + if bytes.last() == 32 {
            seq!['+']
        } else if form_keeps(bytes.last()) {
            seq![bytes.last() as char]
        } else {
            escaped(bytes.last())
        }
    }
}

/// Names and values as a form.
pub open spec fn form_encoded(pairs: Seq<(Seq<char>, Seq<char>)>) -> Seq<char>
    decreases pairs.len(),
{
    if pairs.len() == 0 {
        Seq::empty()
    } else {
        let before = form_encoded(pairs.drop_last());
        let (name, value) = pairs.last();
        (if before.len() > 0 {
            before.push('&')
        } else {
            before
        }) + form_text(encode_utf8(name)) + seq!['='] + form_text(encode_utf8(value))
    }
}

pub open spec fn pair_views(pairs: Seq<(&str, &str)>) -> Seq<(Seq<char>, Seq<char>)> {
    pairs.map_values(|p: (&str, &str)| (p.0@, p.1@))
}

/// `form_urlencoded::serialize` of url: `name=value` for every pair, with `&`
/// between them. Letters, digits and `*-._` stay, a blank becomes `+`, and all
/// other bytes of the UTF-8 encoding are escaped.
#[verifier::external_body]
fn serialize_form(pairs: &Vec<(&str, &str)>) -> (r: String)
    ensures
        r@ == form_encoded(pair_views(pairs@)),
{
    form_urlencoded::serialize(pairs)
}

/// `percent_encode` of url with `QUERY_ENCODE_SET`: visible ASCII characters
/// stay, but for `"`, `#`, `<` and `>`; all other bytes are escaped.
#[verifier::external_body]
fn encode_for_query(bytes: &[u8]) -> (r: String)
    ensures
        r@ == query_encoded(bytes@),
{
    percent_encode(bytes, QUERY_ENCODE_SET)
}

/// The names and values of a request.
pub open spec fn request_pairs(request: TrackerRequest) -> Seq<(Seq<char>, Seq<char>)> {
    let pairs = seq![
        ("compact"@, "1"@),
        ("uploaded"@, decimal(request.uploaded as nat)),
        ("downloaded"@, decimal(request.downloaded as nat)),
        ("left"@, decimal(request.left as nat)),
        ("port"@, decimal(request.port as nat)),
    ];
    match request.event {
        Some(event) => pairs.push(("event"@, event_name(event))),
        None => pairs,
    }
}

/// The query that tells a tracker about the download.
pub open spec fn announce_text(request: TrackerRequest) -> Seq<char> {
    form_encoded(request_pairs(request)) + "&info_hash="@ + query_encoded(request.info_hash@)
        + "&peer_id="@ + query_encoded(request.peer_id@)
}

/// The query that tells a tracker about the download.
pub fn announce_query(request: &TrackerRequest<'_>) -> (r: String)
    ensures
        r@ == announce_text(*request),
{
    let downloaded_s = decimal_text(request.downloaded);
    let uploaded_s = decimal_text(request.uploaded);
    let left_s = decimal_text(request.left);
    let port_s = decimal_text(request.port as u64);
    let mut params: Vec<(&str, &str)> = Vec::new();
    params.push(("compact", "1"));
    params.push(("uploaded", uploaded_s.as_str()));
    params.push(("downloaded", downloaded_s.as_str()));
    params.push(("left", left_s.as_str()));
    params.push(("port", port_s.as_str()));
    if let Some(e) = request.event {
        params.push(("event", e.as_slice()));
    }
    assert(pair_views(params@) =~= request_pairs(*request));
    let mut query = serialize_form(&params);
    let encoded_hash = encode_for_query(request.info_hash);
    let encoded_id = encode_for_query(request.peer_id);
    query.append("&info_hash=");
    query.append(encoded_hash.as_str());
    query.append("&peer_id=");
    query.append(encoded_id.as_str());
    query
}

/// What a tracker that speaks HTTP has answered.
#[derive(Debug)]
pub enum HttpReply {
    Peers(Vec<PeerInfo>),
    /// The tracker does not want to, and says why.
    Failure(String),
    /// Something that is not a dictionary.
    NotADictionary,
    /// Something that is not bencoded.
    Unparsable(ParseError),
    /// The tracker does not want to, and the reason cannot be read.
    BadReason(ConversionError),
    /// The peers cannot be read.
    BadPeers(ConversionError),
    /// No peers are named.
    NoPeers,
}

/// What an [`HttpReply`] says.
pub enum HttpReplyView {
    Peers(Seq<PeerInfo>),
    Failure(Seq<char>),
    NotADictionary,
    Unparsable(ParseError),
    BadReason(ConversionError),
    BadPeers(ConversionError),
    NoPeers,
}

impl View for HttpReply {
    type V = HttpReplyView;

    open spec fn view(&self) -> HttpReplyView {
        match *self {
            HttpReply::Peers(peers) => HttpReplyView::Peers(peers@),
            HttpReply::Failure(reason) => HttpReplyView::Failure(reason@),
            HttpReply::NotADictionary => HttpReplyView::NotADictionary,
            HttpReply::Unparsable(e) => HttpReplyView::Unparsable(e),
            HttpReply::BadReason(e) => HttpReplyView::BadReason(e),
            HttpReply::BadPeers(e) => HttpReplyView::BadPeers(e),
            HttpReply::NoPeers => HttpReplyView::NoPeers,
        }
    }
}

pub open spec fn failure_key() -> Seq<u8> {
    seq![102u8, 97, 105, 108, 117, 114, 101, 32, 114, 101, 97, 115, 111, 110]
}

pub open spec fn peers_key() -> Seq<u8> {
    seq![112u8, 101, 101, 114, 115]
}

/// What the answer of a tracker says: a dictionary with a `failure reason`, or
/// else with a list of `peers`.
pub open spec fn http_reply(data: Seq<u8>) -> HttpReplyView {
    match parsed(data) {
        Err(e) => HttpReplyView::Unparsable(e),
        Ok(BVal::Dict(entries, raw)) => if entries.contains_key(failure_key()) {
            match text_value(entries[failure_key()]) {
                Ok(reason) => HttpReplyView::Failure(reason),
                Err(e) => HttpReplyView::BadReason(e),
            }
        } else if entries.contains_key(peers_key()) {
            match list_value(entries[peers_key()], |peer: BVal| peer_value(peer)) {
                Ok(peers) => HttpReplyView::Peers(peers),
                Err(e) => HttpReplyView::BadPeers(e),
            }
        } else {
            HttpReplyView::NoPeers
        },
        Ok(_) => HttpReplyView::NotADictionary,
    }
}

/// Reads the answer of a tracker.
pub fn read_http_reply(data: &[u8]) -> (r: HttpReply)
    ensures
        r@ == http_reply(data@),
{
    broadcast use lemma_model, lemma_well_formed;

    let bvalue = match parse_bvalue(data) {
        Ok(bvalue) => bvalue,
        Err(e) => {
            return HttpReply::Unparsable(e);
        },
    };
    match bvalue {
        BValue::Dict(dict, _) => {
            let mut dict = dict;
            let failure_name: [u8; 14] = [
                102,
                97,
                105,
                108,
                117,
                114,
                101,
                32,
                114,
                101,
                97,
                115,
                111,
                110,
            ];
            let peers_name: [u8; 5] = [112, 101, 101, 114, 115];
            proof {
                assert(failure_name@ =~= failure_key());
                assert(peers_name@ =~= peers_key());
                assert(failure_key().len() == 14 && peers_key().len() == 5);
            }
            if let Some(reason) = dict.remove(&failure_name) {
                let reason: ConversionResult<String> = FromBValue::from_bvalue(reason);
                return match reason {
                    Ok(reason) => HttpReply::Failure(reason),
                    Err(e) => HttpReply::BadReason(e),
                };
            }
            match dict.remove(&peers_name) {
                Some(peers) => {
                    assert((|item: BVal| <PeerInfo as FromBValue<'_>>::reads(item)) =~= (
                    |peer: BVal| peer_value(peer)));
                    let peers: ConversionResult<Vec<PeerInfo>> = FromBValue::from_bvalue(peers);
                    match peers {
                        Ok(peers) => {
                            assert(peers.deep_view() =~= peers@);
                            HttpReply::Peers(peers)
                        },
                        Err(e) => HttpReply::BadPeers(e),
                    }
                },
                None => HttpReply::NoPeers,
            }
        },
        _ => HttpReply::NotADictionary,
    }
}

// ---------------------------------------------------------------------------
// Trackers that speak UDP
// ---------------------------------------------------------------------------

/// The number with which a conversation begins.
pub const PROTOCOL_ID: u64 = 0x41727101980;

/// A request for a connection: 16 bytes.
pub open spec fn connect_message(transaction_id: u32) -> Seq<u8> {
    be64(PROTOCOL_ID) + be32(0) + be32(transaction_id)
}

/// A request for a connection, under the given number.
pub fn connect_request(transaction_id: u32) -> (r: Vec<u8>)
    ensures
        r@ == connect_message(transaction_id),
        r@.len() == 16,
{
    let mut out: Vec<u8> = Vec::new();
    push_u64(&mut out, PROTOCOL_ID);
    push_u32(&mut out, 0);
    push_u32(&mut out, transaction_id);
    assert(out@ =~= connect_message(transaction_id));
    out
}

/// The connection that an answer names: one to a request for a connection, with
/// the right number, and long enough.
pub open spec fn connection_named(response: Seq<u8>, transaction_id: u32) -> Option<u64> {
    if response.len() >= 16 && u32_at(response, 0) == 0 && u32_at(response, 4) == transaction_id {
        Some(u64_at(response, 8))
    } else {
        None
    }
}

/// Reads the answer to a request for a connection.
pub fn read_connect_response(response: &[u8], transaction_id: u32) -> (r: Option<u64>)
    ensures
        r == connection_named(response@, transaction_id),
{
    let end = response.len();
    if end < 16 {
        return None;
    }
    let action = first_u32(response);
    let response_id = first_u32(slice_subrange(response, 4, end));
    if action != 0 || response_id != transaction_id {
        return None;
    }
    Some(first_u64(slice_subrange(response, 8, end)))
}

/// An announcement: 98 bytes, where hash and id have 20 each. No address, no
/// key, and as many peers as the tracker likes.
pub open spec fn announce_message(
    request: TrackerRequest,
    transaction_id: u32,
    connection_id: u64,
) -> Seq<u8> {
    be64(connection_id) + be32(1) + be32(transaction_id) + request.info_hash@ + request.peer_id@
        + be64(request.downloaded) + be64(request.left) + be64(request.uploaded) + be32(
        event_id(request.event),
    ) + be32(0) + be32(0) + be32(0xffff_ffff) + be16(request.port)
}

/// An announcement, under the given number.
pub fn announce_request(
    request: &TrackerRequest<'_>,
    transaction_id: u32,
    connection_id: u64,
) -> (r: Vec<u8>)
    requires
        request.info_hash@.len() == 20,
        request.peer_id@.len() == 20,
    ensures
        r@ == announce_message(*request, transaction_id, connection_id),
        r@.len() == 98,
{
    let mut out: Vec<u8> = Vec::new();
    push_u64(&mut out, connection_id);
    push_u32(&mut out, 1);
    push_u32(&mut out, transaction_id);
    out.extend_from_slice(request.info_hash);
    out.extend_from_slice(request.peer_id);
    push_u64(&mut out, request.downloaded);
    push_u64(&mut out, request.left);
    push_u64(&mut out, request.uploaded);
    push_u32(&mut out, event_to_id(request.event));
    push_u32(&mut out, 0);
    push_u32(&mut out, 0);
    push_u32(&mut out, 0xffff_ffff);
    push_u16(&mut out, request.port);
    assert(out@ =~= announce_message(*request, transaction_id, connection_id));
    out
}

/// The peers that an answer names: one to an announcement, with the right
/// number, and long enough. They stand behind 20 bytes, six bytes for each.
pub open spec fn peers_named(response: Seq<u8>, transaction_id: u32) -> Option<Seq<PeerInfo>> {
    if response.len() >= 20 && u32_at(response, 0) == 1 && u32_at(response, 4) == transaction_id {
        Some(compact_peers(response, 20))
    } else {
        None
    }
}

/// Reads the answer to an announcement.
pub fn read_announce_response(response: &[u8], transaction_id: u32) -> (r: Option<Vec<PeerInfo>>)
    ensures
        match peers_named(response@, transaction_id) {
            Some(peers) => r matches Some(v) && v@ == peers,
            None => r is None,
        },
{
    let end = response.len();
    if end < 20 {
        return None;
    }
    let action = first_u32(response);
    let response_id = first_u32(slice_subrange(response, 4, end));
    if action != 1 || response_id != transaction_id {
        return None;
    }
    Some(read_compact_peers(response, 20))
}

/// A request for a connection under a number that chance gives: the number, and
/// the request.
pub fn begin_connect() -> (r: (u32, Vec<u8>))
    ensures
        r.1@ == connect_message(r.0),
{
    let transaction_id = any_u32();
    (transaction_id, connect_request(transaction_id))
}

/// An announcement under a number that chance gives: the number, and the
/// announcement.
pub fn begin_announce(request: &TrackerRequest<'_>, connection_id: u64) -> (r: (u32, Vec<u8>))
    requires
        request.info_hash@.len() == 20,
        request.peer_id@.len() == 20,
    ensures
        r.1@ == announce_message(*request, r.0, connection_id),
{
    let transaction_id = any_u32();
    (transaction_id, announce_request(request, transaction_id, connection_id))
}

/// A connection that a tracker names is the one that is taken, and so are the
/// peers: in the answers to questions of the same number.
pub proof fn law_answers_are_understood(
    transaction_id: u32,
    connection_id: u64,
    counts: Seq<u8>,
    peers: Seq<PeerInfo>,
)
    requires
        counts.len() == 12,
    ensures
        connection_named(be32(0) + be32(transaction_id) + be64(connection_id), transaction_id)
            == Some(connection_id),
        peers_named(
            be32(1) + be32(transaction_id) + counts + compact_text(peers),
            transaction_id,
        ) == Some(peers),
{
    let named = be32(0) + be32(transaction_id) + be64(connection_id);
    assert(named.subrange(0, 4) =~= be32(0));
    assert(named.subrange(4, 8) =~= be32(transaction_id));
    lemma_u32_at(named, 0, 0);
    lemma_u32_at(named, 4, transaction_id);
    law_numbers_are_read_back(0, 0, connection_id);
    assert(named.subrange(8, 16) =~= be64(connection_id));
    assert(forall|i: int| 0 <= i < 8 ==> named[8 + i] == be64(connection_id)[i]);
    assert(u64_at(named, 8) == u64_at(be64(connection_id), 0)) by {
        assert(named[8] == be64(connection_id)[0] && named[9] == be64(connection_id)[1]);
        assert(named[10] == be64(connection_id)[2] && named[11] == be64(connection_id)[3]);
        assert(named[12] == be64(connection_id)[4] && named[13] == be64(connection_id)[5]);
        assert(named[14] == be64(connection_id)[6] && named[15] == be64(connection_id)[7]);
    }
    let header = be32(1) + be32(transaction_id) + counts;
    let answer = header + compact_text(peers);
    assert(answer.subrange(0, 4) =~= be32(1));
    assert(answer.subrange(4, 8) =~= be32(transaction_id));
    lemma_u32_at(answer, 0, 1);
    lemma_u32_at(answer, 4, transaction_id);
    law_compact_peers_are_read_back(header, peers);
}

/// An answer under another number, or to another question, is not taken.
pub proof fn law_answers_match_questions(response: Seq<u8>, asked: u32, other: u32)
    requires
        asked != other,
    ensures
        connection_named(response, asked) is Some ==> connection_named(response, other) is None,
        peers_named(response, asked) is Some ==> peers_named(response, other) is None,
        connection_named(response, asked) is Some ==> peers_named(response, asked) is None,
{
}

} // verus!
