//! What comes of reading from a peer.
use vstd::prelude::*;

use crate::buffers::{lemma_advanced, smaller, Ring};
use crate::protocol_laws::law_message_is_consumed;
use crate::protocol_model::{
    after_messages, consumed, faults, incoming, leads_to, messages_lead_to, on_message,
    pick_is_legal, reading_leads_to, ConnView, Ended, Incoming, Outcome, World, RECV_BUF_SIZE,
};
use crate::torrent_info::TorrentView;
use crate::types::PieceIndex;
use crate::wire::{be32, lemma_u32_at, u32_at};

verus! {

/// A message on the wire: the number of bytes that follow, the kind, and the rest.
pub open spec fn framed(kind: u8, payload: Seq<u8>) -> Seq<u8> {
    be32((1 + payload.len()) as u32) + seq![kind] + payload
}

/// As long as no whole message is there, nothing is done but to keep what has come,
/// behind what was there.
pub proof fn law_parts_of_messages_wait(
    t: TorrentView,
    w: World,
    data: Seq<u8>,
    after: World,
    outcome: Outcome,
)
    requires
        w.conn.recv.wf(),
        w.conn.recv.position + w.conn.recv.unread.len() + data.len() <= w.conn.recv.capacity,
        ({
            let all = w.conn.recv.unread + data;
            all.len() < 4 || all.len() < u32_at(all, 0) + 4
        }),
        reading_leads_to(t, w, data, after, outcome),
    ensures
        outcome is Waiting,
        after.common == w.common,
        after.conn.recv.unread == w.conn.recv.unread + data,
        after.conn == (ConnView { recv: after.conn.recv, ..w.conn }),
{
    let recv = w.conn.recv.written(data);
    assert(data.take(smaller(data.len() as int, w.conn.recv.free())) =~= data);
    assert(recv.unread =~= w.conn.recv.unread + data);
    assert(recv.window() =~= recv.unread);
}

/// Reading does something exactly if a whole message is there.
pub proof fn law_whole_messages_are_dealt_with(
    t: TorrentView,
    w: World,
    data: Seq<u8>,
    after: World,
    outcome: Outcome,
)
    requires
        w.conn.recv.wf(),
        w.conn.recv.position + w.conn.recv.unread.len() + data.len() <= w.conn.recv.capacity,
        ({
            let all = w.conn.recv.unread + data;
            all.len() >= 4 && all.len() >= u32_at(all, 0) + 4
        }),
        reading_leads_to(t, w, data, after, outcome),
    ensures
        !(outcome is Waiting),
        messages_lead_to(
            t,
            World {
                conn: ConnView {
                    recv: Ring { unread: w.conn.recv.unread + data, ..w.conn.recv },
                    ..w.conn
                },
                ..w
            },
            after,
            outcome,
        ),
{
    let recv = w.conn.recv.written(data);
    assert(data.take(smaller(data.len() as int, w.conn.recv.free())) =~= data);
    assert(recv.unread =~= w.conn.recv.unread + data);
    assert(recv.window() =~= recv.unread);
    assert(recv == (Ring { unread: w.conn.recv.unread + data, ..w.conn.recv }));
}

proof fn lemma_frame(recv: Ring, kind: u8, payload: Seq<u8>, behind: Seq<u8>)
    requires
        recv.wf(),
        recv.position + recv.unread.len() <= recv.capacity,
        recv.unread == framed(kind, payload) + behind,
        payload.len() < u32::MAX,
    ensures
        incoming(recv) == (Incoming::Message { kind, payload: payload.len() }),
        recv.advanced(5).unread == payload + behind,
        recv.advanced(5).window() == payload + behind,
        recv.advanced(5).wf(),
{
    let length = (1 + payload.len()) as u32;
    assert(recv.window() =~= recv.unread);
    assert(recv.unread.subrange(0, 4) =~= be32(length));
    lemma_u32_at(recv.unread, 0, length);
    lemma_advanced(recv, 5);
    assert(recv.unread.skip(5) =~= payload + behind);
    if recv.position + 5 < recv.capacity {
        vstd::arithmetic::div_mod::lemma_small_mod((recv.position + 5) as nat, recv.capacity);
        assert(recv.advanced(5).window() =~= payload + behind);
    } else {
        assert((payload + behind).len() == 0);
        assert(recv.advanced(5).window() =~= payload + behind);
    }
}

/// Messages are dealt with one after the other, each by itself: the first one in the
/// buffer, seen without its first five bytes, and then, if it is accepted, what is
/// behind it. If it is not accepted, or has no answer, that is the end.
pub proof fn law_messages_come_in_order(
    t: TorrentView,
    w: World,
    kind: u8,
    payload: Seq<u8>,
    behind: Seq<u8>,
    picks: Seq<Option<PieceIndex>>,
    end: World,
    ended: Ended,
)
    requires
        w.conn.recv.wf(),
        w.conn.recv.capacity == RECV_BUF_SIZE,
        w.conn.recv.position + w.conn.recv.unread.len() <= w.conn.recv.capacity,
        w.conn.recv.unread == framed(kind, payload) + behind,
        leads_to(t, w, picks, end, ended),
    ensures
        ({
            let open = w.past(5);
            &&& open.window() == payload + behind
            &&& open.common == w.common
            &&& open.conn == (ConnView { recv: open.conn.recv, ..w.conn })
            &&& faults(open, t, kind, payload.len()) ==> ended is Fault && end == open
            &&& !faults(open, t, kind, payload.len()) ==> {
                &&& picks.len() > 0
                &&& pick_is_legal(open, t, kind, payload.len(), picks[0])
                &&& match on_message(open, t, kind, payload.len(), picks[0]) {
                    (next, Err(e)) => end == next && ended == Ended::Rejected(e),
                    (next, Ok(())) => {
                        &&& consumed(next, kind, payload.len()).conn.recv.unread == behind
                        &&& consumed(next, kind, payload.len()).common == next.common
                        &&& consumed(next, kind, payload.len()).conn == (ConnView {
                            recv: consumed(next, kind, payload.len()).conn.recv,
                            ..next.conn
                        })
                        &&& leads_to(
                            t,
                            consumed(next, kind, payload.len()),
                            picks.drop_first(),
                            end,
                            ended,
                        )
                    },
                }
            }
        }),
{
    reveal(leads_to);
    assert(payload.len() < u32::MAX);
    lemma_frame(w.conn.recv, kind, payload, behind);
    let open = w.past(5);
    if !faults(open, t, kind, payload.len()) {
        if on_message(open, t, kind, payload.len(), picks[0]).1 is Ok {
            law_message_is_consumed(w, t, kind, payload.len(), picks[0]);
            assert(w.conn.recv.unread.skip((5 + payload.len()) as int) =~= behind);
        }
    }
}

/// A message without content is passed over, and what is behind it is dealt with.
pub proof fn law_keep_alives_are_passed_over(
    t: TorrentView,
    w: World,
    behind: Seq<u8>,
    picks: Seq<Option<PieceIndex>>,
    end: World,
    ended: Ended,
)
    requires
        w.conn.recv.wf(),
        w.conn.recv.position + w.conn.recv.unread.len() <= w.conn.recv.capacity,
        w.conn.recv.unread == seq![0u8, 0, 0, 0] + behind,
        leads_to(t, w, picks, end, ended),
    ensures
        w.past(4).conn.recv.unread == behind,
        w.past(4).common == w.common,
        w.past(4).conn == (ConnView { recv: w.past(4).conn.recv, ..w.conn }),
        leads_to(t, w.past(4), picks, end, ended),
{
    reveal(leads_to);
    let recv = w.conn.recv;
    assert(recv.window() =~= recv.unread);
    assert(be32(0) =~= seq![0u8, 0, 0, 0]);
    assert(recv.unread.subrange(0, 4) =~= be32(0));
    lemma_u32_at(recv.unread, 0, 0);
    lemma_advanced(recv, 4);
    assert(recv.unread.skip(4) =~= behind);
}

/// Once nothing whole is left, the messages have been dealt with, and no piece has
/// been picked without a message.
pub proof fn law_nothing_left_is_the_end(
    t: TorrentView,
    w: World,
    picks: Seq<Option<PieceIndex>>,
    end: World,
    ended: Ended,
)
    requires
        w.conn.recv.wf(),
        w.conn.recv.unread.len() < 4,
        leads_to(t, w, picks, end, ended),
    ensures
        ended is Drained,
        end == w,
        picks.len() == 0,
{
    reveal(leads_to);
    lemma_advanced(w.conn.recv, 0);
}

/// A lone message that is accepted is dealt with by itself, and the answers go into
/// the send buffer if there is room for them.
pub proof fn law_lone_message_is_dealt_with(
    t: TorrentView,
    w: World,
    kind: u8,
    payload: Seq<u8>,
    after: World,
    outcome: Outcome,
)
    requires
        w.conn.recv.wf(),
        w.conn.recv.capacity == RECV_BUF_SIZE,
        w.conn.recv.position + w.conn.recv.unread.len() <= w.conn.recv.capacity,
        w.conn.recv.unread == framed(kind, payload),
        !faults(w.past(5), t, kind, payload.len()),
        messages_lead_to(t, w, after, outcome),
    ensures
        exists|pick: Option<PieceIndex>| #[trigger]
            pick_is_legal(w.past(5), t, kind, payload.len(), pick) && {
                let (next, result) = on_message(w.past(5), t, kind, payload.len(), pick);
                match result {
                    Err(e) => after == next && outcome == Outcome::Rejected(e),
                    Ok(()) => {
                        let rest = consumed(next, kind, payload.len());
                        &&& rest.conn.recv.unread.len() == 0
                        &&& (after, outcome) == after_messages(rest, Ended::Drained)
                    },
                }
            },
{
    let (picks, end, ended) = choose|
        picks: Seq<Option<PieceIndex>>,
        end: World,
        ended: Ended,
    | #[trigger] leads_to(t, w, picks, end, ended) && (after, outcome) == after_messages(end, ended);
    assert(framed(kind, payload) + Seq::<u8>::empty() =~= framed(kind, payload));
    law_messages_come_in_order(t, w, kind, payload, Seq::empty(), picks, end, ended);
    let pick = picks[0];
    assert(pick_is_legal(w.past(5), t, kind, payload.len(), pick));
    let (next, result) = on_message(w.past(5), t, kind, payload.len(), pick);
    if result is Ok {
        let rest = consumed(next, kind, payload.len());
        assert(incoming(rest.conn.recv) is Wait);
        reveal(leads_to);
    }
}

} // verus!
