use gearbox::bencode::{parse_bvalue, BValue, ParseError};
use gearbox::conversion::{ConversionError, FromBValue};
use gearbox::peer::{read_address, PeerInfo, PeerInfoList};
use gearbox::tracker::{
    announce_query, announce_request, begin_announce, begin_connect, connect_request, event_to_id,
    read_announce_response, read_connect_response, read_http_reply, tracker_address, tracker_kind,
    Event, HttpReply, Tracker, TrackerKind, TrackerRequest, UrlParts,
};

fn sample<'a>(info_hash: &'a [u8], peer_id: &'a [u8], event: Option<Event>) -> TrackerRequest<'a> {
    TrackerRequest {
        info_hash,
        peer_id,
        event,
        uploaded: 10,
        downloaded: 200,
        left: 18446744073709551615,
        port: 8765,
    }
}

#[test]
fn events_have_names_and_numbers() {
    assert_eq!(Event::Started.as_slice(), "started");
    assert_eq!(Event::Completed.as_slice(), "completed");
    assert_eq!(Event::Stopped.as_slice(), "stopped");
    assert_eq!(event_to_id(None), 0);
    assert_eq!(event_to_id(Some(Event::Completed)), 1);
    assert_eq!(event_to_id(Some(Event::Started)), 2);
    assert_eq!(event_to_id(Some(Event::Stopped)), 3);
}

#[test]
fn announcements_are_queries() {
    assert_eq!(
        announce_query(&sample(b"ab \x00\xff\"#<>&%~", b"-GB-1.0_*", None)),
        "compact=1&uploaded=10&downloaded=200&left=18446744073709551615&port=8765\
         &info_hash=ab%20%00%FF%22%23%3C%3E&%~&peer_id=-GB-1.0_*"
    );
    assert_eq!(
        announce_query(&sample(b"", b"", Some(Event::Started))),
        "compact=1&uploaded=10&downloaded=200&left=18446744073709551615&port=8765\
         &event=started&info_hash=&peer_id="
    );
}

fn tracker_of(url: &str) -> Result<Tracker, ConversionError> {
    Tracker::from_bvalue(BValue::String(url.as_bytes()))
}

#[test]
fn trackers_are_told_apart_by_their_urls() {
    match tracker_of("HTTP://Example.org/announce?x=y").unwrap() {
        Tracker::Http(url) => assert_eq!(url, "HTTP://Example.org/announce?x=y"),
        other => panic!("{:?}", other),
    }
    match tracker_of("udp://Tracker.example.org:1337/announce").unwrap() {
        Tracker::Udp(address) => assert_eq!(address, "tracker.example.org:1337"),
        other => panic!("{:?}", other),
    }
    assert_eq!(tracker_of("no url").err(), Some(ConversionError::OtherError));
    assert_eq!(
        tracker_of("udp://tracker.example.org/").err(),
        Some(ConversionError::UnusableTracker)
    );
    assert_eq!(
        tracker_of("https://example.org/").err(),
        Some(ConversionError::UnusableTracker)
    );
    assert_eq!(
        Tracker::from_bvalue(BValue::Int(1)).err(),
        Some(ConversionError::WrongBValueConstructor)
    );
    assert_eq!(
        Tracker::from_bvalue(BValue::String(b"\xff")).err(),
        Some(ConversionError::BadEncoding)
    );
    assert_eq!(ConversionError::UnusableTracker.message(), "Unusable tracker");
    assert_eq!(ConversionError::TooLarge.message(), "Too large");
}

#[test]
fn the_parts_of_a_url_decide() {
    let parts = |scheme: &str, host: Option<&str>, port: Option<u16>| {
        Some(UrlParts { scheme: scheme.to_string(), host: host.map(|h| h.to_string()), port })
    };
    assert_eq!(tracker_kind(&None), TrackerKind::NoUrl);
    assert_eq!(tracker_kind(&parts("http", None, None)), TrackerKind::Http);
    assert_eq!(tracker_kind(&parts("udp", None, None)), TrackerKind::Udp);
    assert_eq!(tracker_kind(&parts("ftp", None, None)), TrackerKind::Unknown);
    assert_eq!(tracker_address(None), None);
    assert_eq!(tracker_address(parts("http", Some("a"), None)), None);
    assert_eq!(tracker_address(parts("http", None, Some(1))), None);
    assert_eq!(tracker_address(parts("x", Some("a"), Some(80))), Some("a:80".to_string()));
}

#[test]
fn http_replies_are_read() {
    let peers = b"d5:peersld2:ip9:127.0.0.17:peer id1:x4:porti80eeee";
    match read_http_reply(peers) {
        HttpReply::Peers(peers) => {
            assert_eq!(peers, vec![PeerInfo { ip: 0x7f000001, port: 80 }])
        }
        other => panic!("{:?}", other),
    }
    match read_http_reply(b"d14:failure reason2:no5:peerslee") {
        HttpReply::Failure(reason) => assert_eq!(reason, "no"),
        other => panic!("{:?}", other),
    }
    assert!(matches!(read_http_reply(b"i1e"), HttpReply::NotADictionary));
    assert!(matches!(read_http_reply(b""), HttpReply::Unparsable(ParseError::EmptyInput)));
    assert!(matches!(
        read_http_reply(b"d14:failure reason1:\xffe"),
        HttpReply::BadReason(ConversionError::BadEncoding)
    ));
    assert!(matches!(
        read_http_reply(b"d5:peers6:abcdefe"),
        HttpReply::BadPeers(ConversionError::WrongBValueConstructor)
    ));
    assert!(matches!(read_http_reply(b"de"), HttpReply::NoPeers));
}

#[test]
fn peers_come_in_two_forms() {
    let read = |text: &'static [u8]| {
        PeerInfoList::from_bvalue(parse_bvalue(text).unwrap()).map(|list| list.peers)
    };
    assert_eq!(
        read(b"12:\x7f\x00\x00\x01\x1f\x90\x0a\x00\x00\x02\x00\x50"),
        Ok(vec![
            PeerInfo { ip: 0x7f000001, port: 8080 },
            PeerInfo { ip: 0x0a000002, port: 80 }
        ])
    );
    assert_eq!(read(b"0:"), Ok(vec![]));
    assert_eq!(read(b"5:abcde"), Err(ConversionError::OtherError));
    assert_eq!(read(b"i1e"), Err(ConversionError::WrongBValueConstructor));
    assert_eq!(
        read(b"ld2:ip7:1.2.3.47:peer id0:4:porti65535eee"),
        Ok(vec![PeerInfo { ip: 0x01020304, port: 65535 }])
    );
    assert_eq!(
        read(b"ld2:ip7:1.2.3.44:porti1eee"),
        Err(ConversionError::KeyDoesNotExist)
    );
    assert_eq!(
        read(b"ld2:ip7:1.2.3.47:peer id0:4:porti65536eee"),
        Err(ConversionError::WrongBValueConstructor)
    );
    assert_eq!(
        read(b"ld2:ip3:1.27:peer id0:4:porti1eee"),
        Err(ConversionError::OtherError)
    );
    assert_eq!(read(b"li1ee"), Err(ConversionError::WrongBValueConstructor));
}

#[test]
fn addresses_have_four_numbers() {
    assert_eq!(read_address(b"255.255.255.255"), Some(0xffffffff));
    assert_eq!(read_address(b"0.0.0.0"), Some(0));
    for bad in [&b"1.2.3"[..], b"1.2.3.4.5", b"1.2.3.256", b"1..3.4", b"a.b.c.d", b"", b"1.2.3.4 "] {
        assert_eq!(read_address(bad), None);
    }
}

#[test]
fn connections_are_asked_for_over_udp() {
    let request = connect_request(0x01020304);
    assert_eq!(request, [0, 0, 4, 0x17, 0x27, 0x10, 0x19, 0x80, 0, 0, 0, 0, 1, 2, 3, 4]);
    let mut response = vec![0, 0, 0, 0, 1, 2, 3, 4, 0, 0, 0, 0, 0, 0, 1, 0];
    assert_eq!(read_connect_response(&response, 0x01020304), Some(256));
    assert_eq!(read_connect_response(&response, 0x01020305), None);
    assert_eq!(read_connect_response(&response[..15], 0x01020304), None);
    response[3] = 1;
    assert_eq!(read_connect_response(&response, 0x01020304), None);
    let (id, request) = begin_connect();
    assert_eq!(request, connect_request(id));
}

#[test]
fn announcements_go_over_udp() {
    let request = sample(&[1; 20], &[2; 20], Some(Event::Stopped));
    let mut expected = vec![0, 0, 0, 0, 0, 0, 0, 7, 0, 0, 0, 1, 0, 0, 0, 9];
    expected.extend_from_slice(&[1; 20]);
    expected.extend_from_slice(&[2; 20]);
    expected.extend_from_slice(&[0, 0, 0, 0, 0, 0, 0, 200]);
    expected.extend_from_slice(&[255; 8]);
    expected.extend_from_slice(&[0, 0, 0, 0, 0, 0, 0, 10]);
    expected.extend_from_slice(&[0, 0, 0, 3, 0, 0, 0, 0, 0, 0, 0, 0, 255, 255, 255, 255]);
    expected.extend_from_slice(&[0x22, 0x3d]);
    assert_eq!(expected.len(), 98);
    assert_eq!(announce_request(&request, 9, 7), expected);
    let (id, bytes) = begin_announce(&request, 7);
    assert_eq!(bytes, announce_request(&request, id, 7));
}

#[test]
fn peers_are_named_over_udp() {
    let mut response = vec![0, 0, 0, 1, 0, 0, 0, 9, 0, 0, 0, 0, 0, 0, 0, 0, 0, 0, 0, 0];
    assert_eq!(read_announce_response(&response, 9), Some(vec![]));
    response.extend_from_slice(&[127, 0, 0, 1, 0, 80, 1, 2, 3]);
    assert_eq!(
        read_announce_response(&response, 9),
        Some(vec![PeerInfo { ip: 0x7f000001, port: 80 }])
    );
    assert_eq!(read_announce_response(&response, 8), None);
    assert_eq!(read_announce_response(&response[..19], 9), None);
    response[3] = 0;
    assert_eq!(read_announce_response(&response, 9), None);
}
