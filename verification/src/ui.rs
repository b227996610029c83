//! What is shown on the terminal.
use std::collections::VecDeque;
use vstd::prelude::*;
use vstd::string::StringExecFns;

use crate::peer_protocol::{stats_of, CommonInfo};
use crate::text::{decimal, decimal_text, padded, push_padded};
use crate::types::Stats;

verus! {

/// Over how many ticks speeds are averaged.
pub const SMA_WINDOW_SIZE: usize = 10;

pub open spec fn sum_of(history: Seq<u64>) -> int
    decreases history.len(),
{
    if history.len() == 0 {
        0
    } else {
        sum_of(history.drop_last()) + history.last()
    }
}

/// The history with a new value, without the oldest one if it was full.
pub open spec fn with_newest(history: Seq<u64>, new: u64) -> Seq<u64> {
    if history.len() == SMA_WINDOW_SIZE {
        history.drop_first().push(new)
    } else {
        history.push(new)
    }
}

/// The mean of a history, rounded down.
pub open spec fn mean_of(history: Seq<u64>) -> int {
    sum_of(history) / (history.len() as int)
}

/// Takes a new value into a history, and gives the mean.
pub fn simple_moving_average(history: &mut VecDeque<u64>, new: u64) -> (r: u64)
    requires
        sum_of(with_newest(old(history)@, new)) <= u64::MAX,
    ensures
        final(history)@ == with_newest(old(history)@, new),
        r == mean_of(final(history)@),
{
    if history.len() == SMA_WINDOW_SIZE {
        let _ = history.pop_front();
        assert(history@ =~= old(history)@.drop_first());
    }
    history.push_back(new);
    let ghost all = history@;
    let mut total: u64 = 0;
    let mut i: usize = 0;
    assert(all.take(0) =~= Seq::empty());
    while i < history.len()
        invariant
            history@ == all,
            i <= all.len(),
            sum_of(all) <= u64::MAX,
            total == sum_of(all.take(i as int)),
        decreases all.len() - i,
    {
        proof {
            assert(all.take(i + 1).drop_last() =~= all.take(i as int));
            lemma_sum_grows(all, i + 1);
        }
        total = total + history[i];
        i = i + 1;
    }
    assert(all.take(i as int) =~= all);
    total / history.len() as u64
}

proof fn lemma_sum_grows(history: Seq<u64>, n: int)
    requires
        0 <= n <= history.len(),
    ensures
        0 <= sum_of(history.take(n)) <= sum_of(history),
    decreases history.len() - n, history.len(),
{
    if n < history.len() {
        lemma_sum_grows(history, n + 1);
        assert(history.take(n + 1).drop_last() =~= history.take(n));
        lemma_sum_not_negative(history.take(n));
    } else {
        assert(history.take(n) =~= history);
        lemma_sum_not_negative(history);
    }
}

proof fn lemma_sum_not_negative(history: Seq<u64>)
    ensures
        0 <= sum_of(history),
    decreases history.len(),
{
    if history.len() > 0 {
        lemma_sum_not_negative(history.drop_last());
    }
}

/// Without its first value a history sums up to that much less.
proof fn lemma_sum_drop_first(history: Seq<u64>)
    requires
        history.len() > 0,
    ensures
        sum_of(history.drop_first()) == sum_of(history) - history[0],
    decreases history.len(),
{
    let rest = history.drop_first();
    if history.len() > 1 {
        lemma_sum_drop_first(history.drop_last());
        assert(rest.drop_last() =~= history.drop_last().drop_first());
        assert(rest.last() == history.last());
    } else {
        assert(history.drop_last() =~= Seq::empty());
        assert(rest =~= Seq::empty());
    }
}

/// A new value adds at most itself to the sum.
pub proof fn lemma_sum_with_newest(history: Seq<u64>, new: u64)
    ensures
        0 <= sum_of(with_newest(history, new)) <= sum_of(history) + new,
{
    lemma_sum_not_negative(with_newest(history, new));
    if history.len() == SMA_WINDOW_SIZE {
        lemma_sum_drop_first(history);
        assert(history.drop_first().push(new).drop_last() =~= history.drop_first());
    } else {
        assert(history.push(new).drop_last() =~= history);
    }
}

/// What is remembered between two ticks.
#[verifier::ext_equal]
pub struct UiView {
    pub last_stats: Stats,
    pub uploaded: Seq<u64>,
    pub downloaded: Seq<u64>,
}

impl UiView {
    /// What was counted in the ticks that are remembered is part of the whole.
    pub open spec fn wf(self) -> bool {
        &&& sum_of(self.uploaded) <= self.last_stats.uploaded
        &&& sum_of(self.downloaded) <= self.last_stats.downloaded
    }

    /// The state after a tick.
    pub open spec fn after(self, stats: Stats) -> UiView {
        UiView {
            last_stats: stats,
            uploaded: with_newest(
                self.uploaded,
                (stats.uploaded - self.last_stats.uploaded) as u64,
            ),
            downloaded: with_newest(
                self.downloaded,
                (stats.downloaded - self.last_stats.downloaded) as u64,
            ),
        }
    }
}

/// The lines of the screen, from the top.
pub open spec fn screen_text(name: Seq<char>, ui: UiView) -> Seq<Seq<char>> {
    let stats = ui.last_stats;
    seq![
        "gearbox!"@,
        "Torrent Name: "@ + name,
        "Downloaded: "@ + decimal(stats.downloaded as nat),
        "Uploaded: "@ + decimal(stats.uploaded as nat),
        "Remaining: "@ + padded(decimal(stats.remaining as nat), 12) + " B"@,
        "Downloading at: "@ + padded(decimal(mean_of(ui.downloaded) as nat), 10) + " B/s"@,
        "Uploading at: "@ + padded(decimal(mean_of(ui.uploaded) as nat), 10) + " B/s"@,
        "\nPress q to quit"@,
    ]
}

/// The state of the terminal.
pub struct UI {
    last_stats: Stats,
    uploaded_history: VecDeque<u64>,
    downloaded_history: VecDeque<u64>,
}

impl View for UI {
    type V = UiView;

    closed spec fn view(&self) -> UiView {
        UiView {
            last_stats: self.last_stats,
            uploaded: self.uploaded_history@,
            downloaded: self.downloaded_history@,
        }
    }
}

fn labelled(label: &str, part: &str) -> (r: String)
    ensures
        r@ == label@ + part@,
{
    let mut line = String::from_str(label);
    line.append(part);
    line
}

fn labelled_padded(label: &str, n: u64, width: usize, unit: &str) -> (r: String)
    ensures
        r@ == label@ + padded(decimal(n as nat), width as nat) + unit@,
{
    let mut line = String::from_str(label);
    let number = decimal_text(n);
    push_padded(&mut line, number.as_str(), width);
    line.append(unit);
    line
}

impl UI {
    pub fn init(stats: Stats) -> (r: UI)
        ensures
            r@.wf(),
            r@ == (UiView { last_stats: stats, uploaded: Seq::empty(), downloaded: Seq::empty() }),
    {
        UI {
            last_stats: stats,
            uploaded_history: VecDeque::with_capacity(SMA_WINDOW_SIZE),
            downloaded_history: VecDeque::with_capacity(SMA_WINDOW_SIZE),
        }
    }

    /// The counts of the last tick.
    pub fn last_stats(&self) -> (r: Stats)
        ensures
            r == self@.last_stats,
    {
        self.last_stats
    }

    /// A second has passed. Gives the lines of the screen. What was sent and
    /// received cannot have become less.
    pub fn update(&mut self, common: &CommonInfo<'_>) -> (r: Vec<String>)
        requires
            old(self)@.wf(),
            common.torrent@.can_count(common@.our_pieces),
            common@.uploaded >= old(self)@.last_stats.uploaded,
            common@.downloaded >= old(self)@.last_stats.downloaded,
        ensures
            final(self)@.wf(),
            final(self)@ == old(self)@.after(stats_of(common@, common.torrent@)),
            r@.map_values(|s: String| s@) == screen_text(common.torrent@.name, final(self)@),
    {
        let stats = common.current_stats();
        let name = common.torrent.name();
        let up_since_last_tick: u64 = stats.uploaded - self.last_stats.uploaded;
        let down_since_last_tick: u64 = stats.downloaded - self.last_stats.downloaded;
        proof {
            lemma_sum_with_newest(self@.uploaded, up_since_last_tick);
            lemma_sum_with_newest(self@.downloaded, down_since_last_tick);
        }
        let up_avg = simple_moving_average(&mut self.uploaded_history, up_since_last_tick);
        let down_avg = simple_moving_average(&mut self.downloaded_history, down_since_last_tick);
        self.last_stats = stats;

        let downloaded = decimal_text(stats.downloaded);
        let uploaded = decimal_text(stats.uploaded);
        let mut lines: Vec<String> = Vec::new();
        lines.push(String::from_str("gearbox!"));
        lines.push(labelled("Torrent Name: ", name));
        lines.push(labelled("Downloaded: ", downloaded.as_str()));
        lines.push(labelled("Uploaded: ", uploaded.as_str()));
        lines.push(labelled_padded("Remaining: ", stats.remaining, 12, " B"));
        lines.push(labelled_padded("Downloading at: ", down_avg, 10, " B/s"));
        lines.push(labelled_padded("Uploading at: ", up_avg, 10, " B/s"));
        lines.push(String::from_str("\nPress q to quit"));
        assert(lines@.map_values(|s: String| s@) =~= screen_text(name@, self@));
        lines
    }
}

/// What the terminal reports.
#[derive(Clone, Copy, Debug, PartialEq, Eq, Structural)]
pub enum TerminalEvent {
    /// Nothing more.
    NoEvent,
    /// A key with a character on it.
    Key(char),
    /// Anything else.
    Other,
}

/// Whether to stop looking at events, and if so, whether to quit: when there
/// are no more, or at the key `q`.
pub open spec fn quit_on(event: TerminalEvent) -> Option<bool> {
    match event {
        TerminalEvent::NoEvent => Some(false),
        TerminalEvent::Key(c) => if c == 'q' {
            Some(true)
        } else {
            None
        },
        TerminalEvent::Other => None,
    }
}

pub fn on_terminal_event(event: TerminalEvent) -> (r: Option<bool>)
    ensures
        r == quit_on(event),
{
    match event {
        TerminalEvent::NoEvent => Some(false),
        TerminalEvent::Key(c) => {
            if c == 'q' {
                Some(true)
            } else {
                None
            }
        },
        TerminalEvent::Other => None,
    }
}

/// A mean lies between the smallest and the largest value of the history, so
/// does a speed that is shown.
pub proof fn law_mean_is_between(history: Seq<u64>, low: u64, high: u64)
    requires
        history.len() > 0,
        forall|i: int| 0 <= i < history.len() ==> low <= #[trigger] history[i] <= high,
    ensures
        low <= mean_of(history) <= high,
{
    lemma_sum_between(history, low, high);
    let n = history.len() as int;
    let sum = sum_of(history);
    assert(low <= sum / n <= high) by (nonlinear_arith)
        requires
            n > 0,
            low * n <= sum <= high * n,
    ;
}

proof fn lemma_sum_between(history: Seq<u64>, low: u64, high: u64)
    requires
        forall|i: int| 0 <= i < history.len() ==> low <= #[trigger] history[i] <= high,
    ensures
        low * history.len() <= sum_of(history) <= high * history.len(),
    decreases history.len(),
{
    if history.len() > 0 {
        let init = history.drop_last();
        assert forall|i: int| 0 <= i < init.len() implies low <= #[trigger] init[i] <= high by {
            assert(init[i] == history[i]);
        }
        lemma_sum_between(init, low, high);
        let n = init.len() as int;
        assert(low * (n + 1) == low * n + low) by (nonlinear_arith);
        assert(high * (n + 1) == high * n + high) by (nonlinear_arith);
        assert(history[history.len() - 1] == history.last());
    }
}

} // verus!
