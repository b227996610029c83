//! Torrent files.
use vstd::prelude::*;

use crate::bencode::{parse_bvalue, parsed, BVal, ParseError, ParseResult};
use crate::conversion::{looked_up, FromBValue};
use crate::torrent_info::{torrent_value, TorrentInfo, TorrentView};
use crate::tracker::{tracker_value, Tracker, TrackerView};

verus! {

pub open spec fn info_key() -> Seq<u8> {
    seq![105u8, 110, 102, 111]
}

pub open spec fn announce_key() -> Seq<u8> {
    seq![97u8, 110, 110, 111, 117, 110, 99, 101]
}

/// What a torrent file says: where the tracker is, under `announce`, and what
/// the torrent is, under `info`. `None` where either cannot be read.
pub open spec fn torrent_file(v: BVal) -> Option<(TrackerView, TorrentView)> {
    match (looked_up(v, info_key()), looked_up(v, announce_key())) {
        (Ok(info), Ok(announce)) => match (tracker_value(announce), torrent_value(info)) {
            (Ok(tracker), Ok(torrent)) => Some((tracker, torrent)),
            _ => None,
        },
        _ => None,
    }
}

/// Reads a torrent file. The outer result is about its grammar.
pub fn parse_torrent_file(data: &[u8]) -> (r: ParseResult<Option<(Tracker, TorrentInfo)>>)
    ensures
        match parsed(data@) {
            Err(e) => r == Err::<Option<(Tracker, TorrentInfo)>, ParseError>(e),
            Ok(v) => match torrent_file(v) {
                Some((tracker, torrent)) => {
                    &&& r matches Ok(Some((tr, to)))
                    &&& tr.deep_view() == tracker
                    &&& to@ == torrent
                    &&& to@.wf()
                },
                None => r matches Ok(None),
            },
        },
{
    let mut bvalue = match parse_bvalue(data) {
        Ok(bvalue) => bvalue,
        Err(e) => {
            return Err(e);
        },
    };
    let info_name: [u8; 4] = [105, 110, 102, 111];
    let announce_name: [u8; 8] = [97, 110, 110, 111, 117, 110, 99, 101];
    proof {
        assert(info_name@ =~= info_key());
        assert(announce_name@ =~= announce_key());
        assert(info_key().len() == 4 && announce_key().len() == 8);
    }
    let (info, tracker) = match (bvalue.get(&info_name), bvalue.get(&announce_name)) {
        (Ok(info), Ok(tracker)) => (info, tracker),
        _ => {
            return Ok(None);
        },
    };
    match (
        <Tracker as FromBValue>::from_bvalue(tracker),
        <TorrentInfo as FromBValue>::from_bvalue(info),
    ) {
        (Ok(tracker_value), Ok(info_value)) => Ok(Some((tracker_value, info_value))),
        _ => Ok(None),
    }
}

} // verus!
