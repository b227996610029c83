//! Peers, as trackers name them.
use vstd::prelude::*;
use vstd::slice::slice_subrange;

use crate::bencode::{
    decimal_value, digit_run, lemma_model, lemma_next_digit, lemma_well_formed, number_at, BVal,
    BValue, Dict,
};
use crate::conversion::{
    bytes_value, integer_value, items_value, ConversionError, ConversionResult, FromBValue,
};
use crate::wire::{be16, be32, first_u16, first_u32, law_numbers_are_read_back, u16_at, u32_at};

verus! {

/// Where a peer is: an IPv4 address, as the number that its four bytes write,
/// and a port.
#[derive(Clone, Copy, Debug, PartialEq, Eq, Structural)]
pub struct PeerInfo {
    pub ip: u32,
    pub port: u16,
}

impl DeepView for PeerInfo {
    type V = PeerInfo;

    open spec fn deep_view(&self) -> PeerInfo {
        *self
    }
}

/// A list of peers, in either of the two forms that trackers use.
#[derive(Debug)]
pub struct PeerInfoList {
    pub peers: Vec<PeerInfo>,
}

impl DeepView for PeerInfoList {
    type V = Seq<PeerInfo>;

    open spec fn deep_view(&self) -> Seq<PeerInfo> {
        self.peers@
    }
}

/// The peer that six bytes name: four for the address, two for the port.
pub open spec fn peer_at(bytes: Seq<u8>, pos: int) -> PeerInfo {
    PeerInfo { ip: u32_at(bytes, pos), port: u16_at(bytes, pos + 4) }
}

/// The peers that bytes name, from `pos` on, six bytes for each. What is left
/// over names nothing.
pub open spec fn compact_peers(bytes: Seq<u8>, pos: int) -> Seq<PeerInfo> {
    Seq::new(((bytes.len() - pos) / 6) as nat, |i: int| peer_at(bytes, pos + 6 * i))
}

/// Reads the peers that bytes name, from `pos` on.
pub fn read_compact_peers(bytes: &[u8], pos: usize) -> (r: Vec<PeerInfo>)
    requires
        pos <= bytes@.len(),
    ensures
        r@ == compact_peers(bytes@, pos as int),
{
    let count: usize = (bytes.len() - pos) / 6;
    let mut peers: Vec<PeerInfo> = Vec::new();
    let mut i: usize = 0;
    let end = bytes.len();
    while i < count
        invariant
            i <= count,
            end == bytes@.len(),
            pos <= end,
            count == (end - pos) / 6,
            peers@ =~= compact_peers(bytes@, pos as int).take(i as int),
        decreases count - i,
    {
        let at: usize = pos + 6 * i;
        let ip = first_u32(slice_subrange(bytes, at, end));
        let port = first_u16(slice_subrange(bytes, at + 4, end));
        peers.push(PeerInfo { ip, port });
        i = i + 1;
    }
    peers
}

/// Six bytes for each peer.
pub open spec fn compact_text(peers: Seq<PeerInfo>) -> Seq<u8>
    decreases peers.len(),
{
    if peers.len() == 0 {
        Seq::empty()
    } else {
        compact_text(peers.drop_last()) + be32(peers.last().ip) + be16(peers.last().port)
    }
}

/// Peers that were written compactly are read back, whatever stands in front of
/// them.
pub proof fn law_compact_peers_are_read_back(header: Seq<u8>, peers: Seq<PeerInfo>)
    ensures
        compact_text(peers).len() == 6 * peers.len(),
        compact_peers(header + compact_text(peers), header.len() as int) == peers,
    decreases peers.len(),
{
    let bytes = header + compact_text(peers);
    let start = header.len() as int;
    if peers.len() > 0 {
        let shorter = peers.drop_last();
        let before = header + compact_text(shorter);
        law_compact_peers_are_read_back(header, shorter);
        let last = peers.last();
        let at = start + 6 * shorter.len();
        assert(bytes =~= before + be32(last.ip) + be16(last.port));
        law_numbers_are_read_back(last.port, last.ip, 0);
        assert(forall|i: int| 0 <= i < 4 ==> bytes[at + i] == be32(last.ip)[i]);
        assert(forall|i: int| 0 <= i < 2 ==> bytes[at + 4 + i] == be16(last.port)[i]);
        assert(bytes[at] == be32(last.ip)[0] && bytes[at + 1] == be32(last.ip)[1] && bytes[at + 2]
            == be32(last.ip)[2] && bytes[at + 3] == be32(last.ip)[3]);
        assert(bytes[at + 4] == be16(last.port)[0] && bytes[at + 5] == be16(last.port)[1]);
        assert(peer_at(bytes, at) == last);
        assert forall|i: int| 0 <= i < shorter.len() implies peer_at(bytes, start + 6 * i)
            == peers[i] by {
            assert(compact_peers(before, start)[i] == shorter[i]);
            assert(peer_at(bytes, start + 6 * i) == peer_at(before, start + 6 * i));
        }
    }
    assert(compact_peers(bytes, start) =~= peers);
}

// ---------------------------------------------------------------------------
// Addresses in dotted notation
// ---------------------------------------------------------------------------

/// The number that `n` decimal numbers with dots between them write from `pos`
/// to the end, each below 256 and of at most three digits, behind `value`.
pub open spec fn quad_at(text: Seq<u8>, pos: int, n: nat, value: int) -> Option<int>
    decreases n,
{
    let length = digit_run(text, pos);
    let next = pos + length;
    let sum = 256 * value + number_at(text, pos);
    if n == 0 || length < 1 || length > 3 || number_at(text, pos) > 255 {
        None
    } else if n == 1 {
        if next == text.len() {
            Some(sum)
        } else {
            None
        }
    } else if next < text.len() && text[next] == 46 {
        quad_at(text, next + 1, (n - 1) as nat, sum)
    } else {
        None
    }
}

/// Reads a number of at most three digits, below 256: the number, and where it
/// ends.
fn read_octet(text: &[u8], pos: usize) -> (r: Option<(u8, usize)>)
    requires
        pos <= text@.len(),
    ensures
        match r {
            Some((value, end)) => {
                &&& 1 <= digit_run(text@, pos as int) <= 3
                &&& value == number_at(text@, pos as int)
                &&& end == pos + digit_run(text@, pos as int)
                &&& end <= text@.len()
            },
            None => {
                ||| digit_run(text@, pos as int) < 1
                ||| digit_run(text@, pos as int) > 3
                ||| number_at(text@, pos as int) > 255
            },
        },
{
    let mut value: u32 = 0;
    let mut end: usize = pos;
    proof {
        assert(text@.subrange(pos as int, pos as int) =~= Seq::empty());
    }
    while end < text.len() && text[end] >= 48 && text[end] <= 57
        invariant
            pos <= end <= text@.len(),
            end - pos <= 3,
            value <= 999,
            end - pos <= 2 ==> value <= 99,
            end - pos <= 1 ==> value <= 9,
            end - pos <= 0 ==> value == 0,
            digit_run(text@, pos as int) == (end - pos) + digit_run(text@, end as int),
            value == decimal_value(text@.subrange(pos as int, end as int)),
        decreases text@.len() - end,
    {
        if end - pos == 3 {
            return None;
        }
        proof {
            lemma_next_digit(text@, pos as int, end as int);
        }
        value = 10 * value + (text[end] - 48) as u32;
        end = end + 1;
    }
    if end == pos || value > 255 {
        return None;
    }
    Some((value as u8, end))
}

/// Reads an address in dotted notation.
pub fn read_address(text: &[u8]) -> (r: Option<u32>)
    ensures
        match quad_at(text@, 0, 4, 0) {
            Some(value) => r matches Some(ip) && ip == value,
            None => r is None,
        },
{
    let mut value: u32 = 0;
    let mut pos: usize = 0;
    let mut left: u8 = 4;
    loop
        invariant
            1 <= left <= 4,
            pos <= text@.len(),
            left == 4 ==> value == 0,
            left == 3 ==> value <= 0xff,
            left == 2 ==> value <= 0xffff,
            left == 1 ==> value <= 0xff_ffff,
            quad_at(text@, 0, 4, 0) == quad_at(text@, pos as int, left as nat, value as int),
        decreases left,
    {
        let (octet, end) = match read_octet(text, pos) {
            Some(found) => found,
            None => {
                return None;
            },
        };
        let sum: u32 = 256 * value + octet as u32;
        if left == 1 {
            return if end == text.len() {
                Some(sum)
            } else {
                None
            };
        }
        if end >= text.len() || text[end] != 46 {
            return None;
        }
        value = sum;
        pos = end + 1;
        left = left - 1;
    }
}

// ---------------------------------------------------------------------------
// Peers out of bencoded values
// ---------------------------------------------------------------------------

pub open spec fn peer_id_key() -> Seq<u8> {
    seq![112u8, 101, 101, 114, 32, 105, 100]
}

pub open spec fn ip_key() -> Seq<u8> {
    seq![105u8, 112]
}

pub open spec fn port_key() -> Seq<u8> {
    seq![112u8, 111, 114, 116]
}

/// The address that a string value holds.
pub open spec fn ip_value(v: BVal) -> ConversionResult<u32> {
    match bytes_value(v) {
        Err(e) => Err(e),
        Ok(text) => match quad_at(text, 0, 4, 0) {
            Some(ip) => Ok(ip as u32),
            None => Err(ConversionError::OtherError),
        },
    }
}

pub open spec fn port_value(v: BVal) -> ConversionResult<u16> {
    match integer_value(v, 0, u16::MAX as int) {
        Ok(n) => Ok(n as u16),
        Err(e) => Err(e),
    }
}

/// The peer that a dictionary with a `peer id`, an `ip` and a `port` describes.
pub open spec fn peer_value(v: BVal) -> ConversionResult<PeerInfo> {
    match v {
        BVal::Dict(entries, raw) => if entries.contains_key(peer_id_key())
            && entries.contains_key(ip_key()) && entries.contains_key(port_key()) {
            match ip_value(entries[ip_key()]) {
                Err(e) => Err(e),
                Ok(ip) => match port_value(entries[port_key()]) {
                    Err(e) => Err(e),
                    Ok(port) => Ok(PeerInfo { ip, port }),
                },
            }
        } else {
            Err(ConversionError::KeyDoesNotExist)
        },
        _ => Err(ConversionError::WrongBValueConstructor),
    }
}

/// The peers that a value names: a string with six bytes for each, or a list of
/// dictionaries.
pub open spec fn peer_list_value(v: BVal) -> ConversionResult<Seq<PeerInfo>> {
    match v {
        BVal::Str(bytes) => if bytes.len() % 6 != 0 {
            Err(ConversionError::OtherError)
        } else {
            Ok(compact_peers(bytes, 0))
        },
        BVal::List(items) => items_value(items, |item: BVal| peer_value(item)),
        _ => Err(ConversionError::WrongBValueConstructor),
    }
}

impl<'a> FromBValue<'a> for u16 {
    open spec fn reads(v: BVal) -> ConversionResult<u16> {
        port_value(v)
    }

    fn from_bvalue(bvalue: BValue<'a>) -> (r: ConversionResult<u16>) {
        broadcast use lemma_model;

        match bvalue {
            BValue::Int(n) if n >= 0 && n <= 65535 => Ok(n as u16),
            _ => Err(ConversionError::WrongBValueConstructor),
        }
    }
}

fn ip_from_bvalue<'a>(bvalue: BValue<'a>) -> (r: ConversionResult<u32>)
    requires
        bvalue.wf(),
    ensures
        r == ip_value(bvalue@),
{
    let text: &'a [u8] = match FromBValue::from_bvalue(bvalue) {
        Ok(text) => text,
        Err(e) => {
            return Err(e);
        },
    };
    assert(text.deep_view() =~= text@);
    match read_address(text) {
        Some(ip) => Ok(ip),
        None => Err(ConversionError::OtherError),
    }
}

impl<'a> FromBValue<'a> for PeerInfo {
    open spec fn reads(v: BVal) -> ConversionResult<PeerInfo> {
        peer_value(v)
    }

    fn from_bvalue(bvalue: BValue<'a>) -> (r: ConversionResult<PeerInfo>) {
        broadcast use lemma_model, lemma_well_formed;

        match bvalue {
            BValue::Dict(dict, _) => {
                let mut dict = dict;
                let peer_id_name: [u8; 7] = [112, 101, 101, 114, 32, 105, 100];
                let ip_name: [u8; 2] = [105, 112];
                let port_name: [u8; 4] = [112, 111, 114, 116];
                proof {
                    assert(peer_id_name@ =~= peer_id_key());
                    assert(ip_name@ =~= ip_key());
                    assert(port_name@ =~= port_key());
                    assert(peer_id_key().len() == 7 && ip_key().len() == 2 && port_key().len()
                        == 4);
                }
                let peer_id = dict.remove(&peer_id_name);
                let ip = dict.remove(&ip_name);
                let port = dict.remove(&port_name);
                match (peer_id, ip, port) {
                    (Some(_id), Some(ip), Some(port)) => {
                        let ip = match ip_from_bvalue(ip) {
                            Ok(ip) => ip,
                            Err(e) => {
                                return Err(e);
                            },
                        };
                        let port: u16 = match FromBValue::from_bvalue(port) {
                            Ok(port) => port,
                            Err(e) => {
                                return Err(e);
                            },
                        };
                        Ok(PeerInfo { ip, port })
                    },
                    _ => Err(ConversionError::KeyDoesNotExist),
                }
            },
            _ => Err(ConversionError::WrongBValueConstructor),
        }
    }
}

impl<'a> FromBValue<'a> for PeerInfoList {
    open spec fn reads(v: BVal) -> ConversionResult<Seq<PeerInfo>> {
        peer_list_value(v)
    }

    fn from_bvalue(bvalue: BValue<'a>) -> (r: ConversionResult<PeerInfoList>) {
        broadcast use lemma_model, lemma_well_formed;

        let peers: Vec<PeerInfo> = match bvalue {
            BValue::String(bytes) => {
                if bytes.len() % 6 != 0 {
                    return Err(ConversionError::OtherError);
                }
                read_compact_peers(bytes, 0)
            },
            BValue::List(items) => {
                assert((|item: BVal| <PeerInfo as FromBValue<'a>>::reads(item)) =~= (|item: BVal|
                    peer_value(item)));
                let peers: Vec<PeerInfo> = match FromBValue::from_bvalue(BValue::List(items)) {
                    Ok(peers) => peers,
                    Err(e) => {
                        return Err(e);
                    },
                };
                assert(peers.deep_view() =~= peers@);
                peers
            },
            _ => {
                return Err(ConversionError::WrongBValueConstructor);
            },
        };
        Ok(PeerInfoList { peers })
    }
}

} // verus!
