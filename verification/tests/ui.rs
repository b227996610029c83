use gearbox::peer_protocol::CommonInfo;
use gearbox::piece_set::PieceSet;
use gearbox::text::{decimal_text, push_padded};
use gearbox::torrent_info::{FileInfo, TorrentInfo};
use gearbox::types::Stats;
use gearbox::ui::{on_terminal_event, simple_moving_average, TerminalEvent, UI};
use std::collections::VecDeque;

#[test]
fn averages_are_taken_over_ten_ticks() {
    let mut history = VecDeque::new();
    assert_eq!(simple_moving_average(&mut history, 10), 10);
    assert_eq!(simple_moving_average(&mut history, 21), 15);
    for _ in 0..8 {
        simple_moving_average(&mut history, 0);
    }
    assert_eq!(history.len(), 10);
    assert_eq!(simple_moving_average(&mut history, 9), 3);
    assert_eq!(history.len(), 10);
    assert_eq!(history[0], 21);
}

#[test]
fn the_screen_shows_the_download() {
    let file = FileInfo { path: vec!["a".to_string()], length: 1000 };
    let torrent =
        TorrentInfo::new("some name".to_string(), 1000, vec![0; 20], vec![file], b"").unwrap();
    let mut common = CommonInfo::new(&torrent, PieceSet::new_empty(&torrent));
    let mut ui = UI::init(common.current_stats());
    common.bytes_downloaded = 300;
    common.bytes_uploaded = 12;
    let lines = ui.update(&common);
    assert_eq!(
        lines,
        vec![
            "gearbox!",
            "Torrent Name: some name",
            "Downloaded: 300",
            "Uploaded: 12",
            "Remaining: 1000         B",
            "Downloading at: 300        B/s",
            "Uploading at: 12         B/s",
            "\nPress q to quit",
        ]
    );
    let lines = ui.update(&common);
    assert_eq!(lines[5], "Downloading at: 150        B/s");
    assert_eq!(ui.last_stats(), Stats { downloaded: 300, uploaded: 12, remaining: 1000 });
}

#[test]
fn numbers_are_padded_and_not_cut() {
    let mut text = String::new();
    push_padded(&mut text, "12", 4);
    push_padded(&mut text, "12345", 4);
    assert_eq!(text, "12  12345");
    assert_eq!(decimal_text(0), "0");
    assert_eq!(decimal_text(18446744073709551615), "18446744073709551615");
}

#[test]
fn only_q_quits() {
    assert_eq!(on_terminal_event(TerminalEvent::NoEvent), Some(false));
    assert_eq!(on_terminal_event(TerminalEvent::Key('q')), Some(true));
    assert_eq!(on_terminal_event(TerminalEvent::Key('x')), None);
    assert_eq!(on_terminal_event(TerminalEvent::Other), None);
}
