//! What holds of handshakes, messages, blocks on disk, queues, sockets and the screen.
use vstd::prelude::*;

use crate::bits::unpacked;
use crate::buffers::smaller;
use crate::event_handler::{opened, readable_action, writable_action, ReadHint};
use crate::file_sections::{
    covered, cursor_at, file_start, law_sections_cover_block, lemma_located, section_fits,
    untruncated, FileSection,
};
use crate::files::{
    block_sections, lemma_without_first, lemma_without_none, queue_after, transfers_of,
};
use crate::handshake::{handshake_message, handshake_result, protocol_name, HandshakeError};
use crate::messages::{encoded, kind, PeerMsg};
use crate::peer_protocol::stats_of;
use crate::piece_set::{fills, in_both, Pieces};
use crate::protocol_model::CommonView;
use crate::text::{decimal, padded};
use crate::torrent_info::{law_bytes_left_are_missing_pieces, TorrentView};
use crate::types::{
    BlockInfo, BlockRequest, ConnectionId, PieceIndex, PieceReaderMessage, Stats, Token,
};
use crate::ui::{mean_of, quit_on, screen_text, sum_of, with_newest, TerminalEvent, UiView};
use crate::value_laws::ascii;
use crate::wire::be32;

verus! {

// ---------------------------------------------------------------------------
// Handshakes and messages
// ---------------------------------------------------------------------------

/// A handshake has 68 bytes: a length and the name of the protocol, eight zeros, the
/// info hash and the id. Whoever gets 48 bytes or more accepts them exactly if name
/// and info hash are right; the other bytes do not matter. A wrong name is noticed
/// before a wrong info hash.
pub proof fn law_handshake_layout(info_hash: Seq<u8>, peer_id: Seq<u8>, received: Seq<u8>)
    requires
        info_hash.len() == 20,
        peer_id.len() == 20,
        received.len() >= 48,
    ensures
        ({
            let sent = handshake_message(info_hash, peer_id);
            &&& sent.len() == 68
            &&& sent[0] == 19
            &&& sent.subrange(1, 20) == ascii("BitTorrent protocol"@)
            &&& forall|i: int| 20 <= i < 28 ==> #[trigger] sent[i] == 0
            &&& sent.subrange(28, 48) == info_hash
            &&& sent.subrange(48, 68) == peer_id
        }),
        ({
            let named = received[0] == 19 && received.subrange(1, 20) == ascii(
                "BitTorrent protocol"@,
            );
            let result = handshake_result(received, info_hash);
            &&& result is Ok <==> named && received.subrange(28, 48) == info_hash
            &&& result == Err::<(), HandshakeError>(HandshakeError::BadProtocolHeader) <==> !named
        }),
{
    reveal_strlit("BitTorrent protocol");
    let name = ascii("BitTorrent protocol"@);
    let sent = handshake_message(info_hash, peer_id);
    assert(seq![19u8] + name =~= protocol_name());
    assert(sent.subrange(1, 20) =~= name);
    assert(sent.subrange(28, 48) =~= info_hash);
    assert(sent.subrange(48, 68) =~= peer_id);
    assert(received.subrange(0, 20) =~= seq![received[0]] + received.subrange(1, 20));
    if received.subrange(0, 20) == protocol_name() {
        assert(received.subrange(0, 20)[0] == 19);
        assert(received.subrange(1, 20) =~= received.subrange(0, 20).skip(1));
        assert(protocol_name().skip(1) =~= name);
    }
}

/// What messages look like on the wire: four bytes of length, one byte that says which
/// message it is, and the numbers, four bytes each.
#[verifier::spinoff_prover]
#[verifier::rlimit(50)]
pub proof fn law_message_layout(msg: PeerMsg)
    ensures
        match msg {
            PeerMsg::Choke => encoded(msg) == seq![0u8, 0, 0, 1, 0],
            PeerMsg::Unchoke => encoded(msg) == seq![0u8, 0, 0, 1, 1],
            PeerMsg::Interested => encoded(msg) == seq![0u8, 0, 0, 1, 2],
            PeerMsg::NotInterested => encoded(msg) == seq![0u8, 0, 0, 1, 3],
            PeerMsg::Have(index) => encoded(msg) == seq![0u8, 0, 0, 5, 4] + be32(index.0),
            PeerMsg::Request(block) => encoded(msg) == seq![0u8, 0, 0, 13, 6] + be32(
                block.piece_index.0,
            ) + be32(block.offset) + be32(block.length),
        },
{
    assert(be32(1) =~= seq![0u8, 0, 0, 1]);
    assert(be32(5) =~= seq![0u8, 0, 0, 5]);
    assert(be32(13) =~= seq![0u8, 0, 0, 13]);
    match msg {
        PeerMsg::Have(index) => {
            assert(be32(5) + seq![4u8] =~= seq![0u8, 0, 0, 5, 4]);
        },
        PeerMsg::Request(block) => {
            let numbers = be32(block.piece_index.0) + be32(block.offset) + be32(block.length);
            assert(be32(13) + seq![6u8] =~= seq![0u8, 0, 0, 13, 6]);
            assert(encoded(msg) == seq![0u8, 0, 0, 13, 6] + numbers);
        },
        _ => {
            assert(be32(1) + seq![kind(msg)] =~= seq![0u8, 0, 0, 1, kind(msg)]);
        },
    }
}

/// Numbers have their most significant byte first.
pub proof fn law_numbers_are_big_endian(number: u32)
    ensures
        ({
            let digits = be32(number);
            &&& digits.len() == 4
            &&& number == 0x100_0000 * (digits[0] as int) + 0x1_0000 * digits[1] + 256 * digits[2]
                + digits[3]
        }),
{
}

/// In a bitfield, the piece of index `i` stands in byte `i / 8`, from the highest bit to
/// the lowest.
pub proof fn law_bits_of_bytes(bytes: Seq<u8>, i: int)
    requires
        0 <= i < 8 * bytes.len(),
    ensures
        unpacked(bytes).len() == 8 * bytes.len(),
        unpacked(bytes)[i] == ((bytes[i / 8] >> ((7 - i % 8) as u8)) & 1u8 == 1),
{
    let byte = bytes[i / 8];
    let shift = (7 - i % 8) as u8;
    assert({
        &&& shift == 7 ==> (byte >> shift) & 1u8 == (byte / 128u8) % 2u8
        &&& shift == 6 ==> (byte >> shift) & 1u8 == (byte / 64u8) % 2u8
        &&& shift == 5 ==> (byte >> shift) & 1u8 == (byte / 32u8) % 2u8
        &&& shift == 4 ==> (byte >> shift) & 1u8 == (byte / 16u8) % 2u8
        &&& shift == 3 ==> (byte >> shift) & 1u8 == (byte / 8u8) % 2u8
        &&& shift == 2 ==> (byte >> shift) & 1u8 == (byte / 4u8) % 2u8
        &&& shift == 1 ==> (byte >> shift) & 1u8 == (byte / 2u8) % 2u8
        &&& shift == 0 ==> (byte >> shift) & 1u8 == byte % 2u8
    }) by (bit_vector);
}

/// A connection begins with both sides choked and neither interested; the peer is
/// taken to have nothing, and nothing is asked for, read or waited for.
pub proof fn law_connections_begin_choked(t: TorrentView, ours: Pieces, id: ConnectionId)
    ensures
        ({
            let conn = opened(t, ours, id);
            &&& conn.id == id
            &&& conn.state.we_choked && conn.state.peer_choked
            &&& !conn.state.we_interested && !conn.state.peer_interested
            &&& conn.peers_pieces.count == 0
            &&& conn.peers_pieces.bits.len() == t.piece_count()
            &&& forall|i: PieceIndex| !(#[trigger] conn.peers_pieces.has(i))
            &&& conn.current is None && conn.assembling is None
            &&& conn.msgs_out.len() == 0 && conn.blocks_out.len() == 0
            &&& conn.peer_requests.len() == 0 && conn.next_blocks.len() == 0
            &&& conn.requested == 0
            &&& conn.recv.unread.len() == 0 && conn.recv.capacity == 32768
            &&& ours.count == 0 ==> conn.send.unread.len() == 0
        }),
{
}

/// If two sets have a piece in common, one is picked, and it is in both; only if they
/// have none, none is.
pub proof fn law_pick_is_owed(wanted: Pieces, offered: Pieces, index: PieceIndex)
    ensures
        wanted.has(index) && offered.has(index) ==> wanted.can_pick(offered, Some(index))
            && !wanted.can_pick(offered, None),
        wanted.can_pick(offered, Some(index)) ==> wanted.has(index) && offered.has(index),
{
    if wanted.has(index) && offered.has(index) {
        assert(in_both(wanted.bits, offered.bits, index.0 as int));
    }
}

// ---------------------------------------------------------------------------
// Pieces and files
// ---------------------------------------------------------------------------

/// A piece has the length that all have, or what is left of the files.
pub proof fn law_piece_lengths(t: TorrentView, index: PieceIndex)
    requires
        index.0 * t.piece_length <= t.total_size,
        t.total_size - index.0 * t.piece_length <= u32::MAX,
    ensures
        t.piece_len(index) == smaller(
            t.piece_length as int,
            t.total_size - index.0 * t.piece_length,
        ),
{
}

/// Torrents of up to 32 bits of bytes are regular, if there are as many hashes as
/// pieces: so what holds of regular torrents holds of them.
pub proof fn law_ordinary_torrents_are_regular(t: TorrentView)
    requires
        t.hashes.len() <= u32::MAX,
        t.hashes.len() > 0,
        t.hashes.len() % 20 == 0,
        t.total_size <= u32::MAX,
        (t.hashes.len() / 20 - 1) * t.piece_length < t.total_size <= (t.hashes.len() / 20)
            * t.piece_length,
    ensures
        t.piece_count() == t.hashes.len() / 20,
        t.regular(),
        t.piece_len(t.last_piece()) == t.total_size - (t.hashes.len() / 20 - 1) * t.piece_length,
{
    let count = t.hashes.len() as int / 20;
    let last = count - 1;
    let pl = t.piece_length as int;
    assert(count * pl == last * pl + pl) by (nonlinear_arith)
        requires
            count == last + 1,
    ;
    assert forall|i: PieceIndex| i.0 < last implies #[trigger] t.piece_len(i)
        == t.piece_length by {
        let n = i.0 as int;
        assert(0 <= n * pl && n * pl + pl <= last * pl) by (nonlinear_arith)
            requires
                0 <= n,
                n + 1 <= last,
                0 <= pl,
        ;
        law_piece_lengths(t, i);
    }
    assert(0 <= last * pl) by (nonlinear_arith)
        requires
            0 <= last,
            0 <= pl,
    ;
    law_piece_lengths(t, t.last_piece());
}

/// Every piece of a regular torrent starts where the one before it ends, and the last
/// one ends where the files end.
pub proof fn law_pieces_follow_each_other(t: TorrentView, index: PieceIndex)
    requires
        t.regular(),
        index.0 < t.piece_count(),
    ensures
        t.piece_start(PieceIndex(0)) == 0,
        index.0 + 1 < t.piece_count() ==> t.piece_start(PieceIndex((index.0 + 1) as u32))
            == t.piece_start(index) + t.piece_len(index),
        index.0 + 1 == t.piece_count() ==> t.piece_start(index) + t.piece_len(index)
            == t.total_size,
{
    let n = index.0 as int;
    let pl = t.piece_length as int;
    assert((n + 1) * pl == n * pl + pl) by (nonlinear_arith);
}

/// What is told of the progress: what was received and sent, and how many bytes the
/// missing pieces have.
pub proof fn law_stats_tell_what_is_missing(common: CommonView, t: TorrentView)
    requires
        t.regular(),
        common.our_pieces.exact(),
        common.our_pieces.bits.len() == t.piece_count(),
    ensures
        ({
            let stats = stats_of(common, t);
            &&& stats.downloaded == common.downloaded
            &&& stats.uploaded == common.uploaded
            &&& stats.remaining == t.missing_bytes(common.our_pieces.bits, t.piece_count() as nat)
        }),
{
    law_bytes_left_are_missing_pieces(t, common.our_pieces);
}

/// A set is taken to be complete if it has as many pieces as there is room for.
pub proof fn law_complete_sets_fill_their_room(pieces: Pieces, room: usize)
    requires
        room <= u32::MAX,
    ensures
        fills(pieces, room) <==> pieces.count == room,
{
}

/// A block is read and written part by part: the first part is its beginning, each
/// part begins where the one before ended, and together they are the whole block, or
/// all of it that the files hold. Each part lies in one file, where it belongs.
pub proof fn law_transfers_hold_block(t: TorrentView, block: BlockInfo, k: int)
    requires
        t.wf(),
        t.files.len() <= usize::MAX,
        block.length > 0,
        t.block_start(block.piece_index, block.offset) < t.total_size,
        untruncated(
            t.files,
            cursor_at(t.files, t.block_start(block.piece_index, block.offset), block.length as int),
        ),
        0 <= k < transfers_of(block_sections(t, block)).len(),
    ensures
        ({
            let parts = transfers_of(block_sections(t, block));
            let start = block.piece_index.0 * t.piece_length + block.offset;
            let part = parts[k];
            &&& parts[0].start == 0
            &&& parts.last().end == smaller(block.length as int, t.total_size - start)
            &&& k + 1 < parts.len() ==> parts[k + 1].start == part.end
            &&& part.end == part.start + part.section.length
            &&& part.section.file_index < t.files.len()
            &&& part.section.offset + part.section.length
                <= t.files[part.section.file_index as int].length
            &&& file_start(t.files, part.section.file_index as int) + part.section.offset == start
                + part.start
        }),
{
    let start = t.block_start(block.piece_index, block.offset);
    let all = block_sections(t, block);
    let n = all.len() as int;
    let pl = t.piece_length as int;
    assert(0 <= block.piece_index.0 * pl) by (nonlinear_arith)
        requires
            0 <= pl,
            0 <= block.piece_index.0,
    ;
    law_sections_cover_block(t.files, start, block.length);
    assert(section_fits(t.files, start, all, k));
    lemma_covered_grows(all, k);
    lemma_covered_grows(all, k + 1);
    lemma_covered_grows(all, n);
    assert(all.take(0) =~= Seq::empty());
    assert(all.take(n) =~= all);
    assert(all.take(k + 1).drop_last() =~= all.take(k));
    assert(all.take(k + 1).last() == all[k]);
}

proof fn lemma_covered_grows(parts: Seq<FileSection>, n: int)
    requires
        0 <= n <= parts.len(),
    ensures
        0 <= covered(parts.take(n)) <= covered(parts),
    decreases parts.len() - n,
{
    if n < parts.len() {
        lemma_covered_grows(parts, n + 1);
        assert(parts.take(n + 1).drop_last() =~= parts.take(n));
        lemma_covered_not_negative(parts.take(n));
    } else {
        assert(parts.take(n) =~= parts);
        lemma_covered_not_negative(parts);
    }
}

proof fn lemma_covered_not_negative(parts: Seq<FileSection>)
    ensures
        0 <= covered(parts),
    decreases parts.len(),
{
    if parts.len() > 0 {
        lemma_covered_not_negative(parts.drop_last());
    }
}

/// A block that begins inside the files has a part.
pub proof fn law_blocks_have_parts(t: TorrentView, block: BlockInfo)
    requires
        t.wf(),
        block.length > 0,
        t.block_start(block.piece_index, block.offset) < t.total_size,
    ensures
        transfers_of(block_sections(t, block)).len() > 0,
{
    let start = t.block_start(block.piece_index, block.offset);
    let pl = t.piece_length as int;
    assert(0 <= block.piece_index.0 * pl) by (nonlinear_arith)
        requires
            0 <= pl,
            0 <= block.piece_index.0,
    ;
    assert(t.files.take(0) =~= Seq::empty());
    lemma_located(t.files, 0, start);
}

// ---------------------------------------------------------------------------
// The queue of the disk reader
// ---------------------------------------------------------------------------

/// A request goes to the end of the queue. Cancelling one takes out the first that the
/// connection made for the block and leaves all others as they are; if there is none,
/// the queue stays as it is.
pub proof fn law_one_request_is_cancelled(
    requests: Seq<BlockRequest>,
    request: BlockRequest,
    i: int,
)
    ensures
        queue_after(requests, PieceReaderMessage::Request(request)) == requests.push(request),
        ({
            let id = request.receiver.id;
            let block = request.block_info;
            let after = queue_after(requests, PieceReaderMessage::CancelRequest(block, id));
            &&& 0 <= i < requests.len() && requests[i].receiver.id == id && requests[i].block_info
                == block && (forall|j: int|
                0 <= j < i ==> !((#[trigger] requests[j]).receiver.id == id
                    && requests[j].block_info == block)) ==> after == requests.remove(i)
            &&& (forall|j: int|
                0 <= j < requests.len() ==> !((#[trigger] requests[j]).receiver.id == id
                    && requests[j].block_info == block)) ==> after == requests
        }),
{
    let id = request.receiver.id;
    let block = request.block_info;
    if 0 <= i < requests.len() && requests[i].receiver.id == id && requests[i].block_info == block
        && (forall|j: int|
        0 <= j < i ==> !((#[trigger] requests[j]).receiver.id == id && requests[j].block_info
            == block)) {
        lemma_without_first(requests, id, block, i);
    }
    if forall|j: int|
        0 <= j < requests.len() ==> !((#[trigger] requests[j]).receiver.id == id
            && requests[j].block_info == block) {
        lemma_without_none(requests, id, block);
    }
}

// ---------------------------------------------------------------------------
// Sockets
// ---------------------------------------------------------------------------

/// What is done with a socket that can be read or written: token 0 is the listening
/// socket, tokens below 1024 are shaking hands, the others talk. Errors end a
/// connection, whatever else there is.
pub proof fn law_sockets_by_token(token: Token, hint: ReadHint, in_nursery: bool, is_open: bool)
    ensures
        ({
            let broken = hint.hup || hint.error;
            let shaking = 0 < token.0 < 1024 && in_nursery;
            let action = readable_action(token, hint, in_nursery);
            &&& action is Accept <==> token.0 == 0
            &&& action is DropHandshake <==> shaking && broken
            &&& action is ReadHandshake <==> shaking && !broken && hint.data
            &&& action is CloseConnection <==> token.0 >= 1024 && broken
            &&& action is ReadConnection <==> token.0 >= 1024 && !broken && hint.data
        }),
        ({
            let action = writable_action(token, in_nursery, is_open);
            &&& action is WriteHandshake <==> token.0 < 1024 && in_nursery
            &&& action is WriteConnection <==> token.0 >= 1024 && is_open
        }),
{
}

// ---------------------------------------------------------------------------
// The screen
// ---------------------------------------------------------------------------

/// A history holds the newest ten values, in their order.
pub proof fn law_history_keeps_newest(history: Seq<u64>, new: u64, i: int)
    requires
        history.len() <= 10,
    ensures
        ({
            let after = with_newest(history, new);
            let gone: int = if history.len() == 10 {
                1
            } else {
                0
            };
            &&& after.len() == history.len() + 1 - gone
            &&& after.last() == new
            &&& gone <= i < history.len() ==> after[i - gone] == history[i]
        }),
{
}

/// What is remembered after some ticks.
pub open spec fn ticked(ui: UiView, ticks: Seq<Stats>) -> UiView
    decreases ticks.len(),
{
    if ticks.len() == 0 {
        ui
    } else {
        ticked(ui, ticks.drop_last()).after(ticks.last())
    }
}

/// What was counted after `n` ticks: received and sent.
pub open spec fn counted_at(start: Stats, ticks: Seq<Stats>, n: int) -> Stats {
    if n <= 0 {
        start
    } else {
        ticks[n - 1]
    }
}

/// A history in which stands what each of the last ticks added to a count.
spec fn adds_up(history: Seq<u64>, count: spec_fn(int) -> u64, from: int) -> bool {
    forall|i: int|
        0 <= i < history.len() ==> #[trigger] history[i] == count(from + i + 1) - count(from + i)
}

proof fn lemma_adds_up(history: Seq<u64>, count: spec_fn(int) -> u64, from: int)
    requires
        adds_up(history, count, from),
    ensures
        sum_of(history) == count(from + history.len()) - count(from),
    decreases history.len(),
{
    if history.len() > 0 {
        let init = history.drop_last();
        assert(adds_up(init, count, from)) by {
            assert forall|i: int| 0 <= i < init.len() implies #[trigger] init[i] == count(
                from + i + 1,
            ) - count(from + i) by {
                assert(init[i] == history[i]);
            }
        }
        lemma_adds_up(init, count, from);
        assert(history.last() == history[history.len() - 1]);
    }
}

/// Whether counts never become less.
pub open spec fn counts_grow(start: Stats, ticks: Seq<Stats>) -> bool {
    forall|n: int|
        #![trigger ticks[n]]
        0 <= n < ticks.len() ==> {
            &&& counted_at(start, ticks, n).downloaded <= ticks[n].downloaded
            &&& counted_at(start, ticks, n).uploaded <= ticks[n].uploaded
        }
}

/// One tick more adds what it adds to the count.
proof fn lemma_one_more(history: Seq<u64>, count: spec_fn(int) -> u64, n: int, new: u64)
    requires
        0 <= n,
        history.len() == smaller(n, 10),
        adds_up(history, count, n - history.len()),
        new == count(n + 1) - count(n),
    ensures
        with_newest(history, new).len() == smaller(n + 1, 10),
        adds_up(with_newest(history, new), count, n + 1 - with_newest(history, new).len()),
{
    let after = with_newest(history, new);
    let from = n + 1 - after.len();
    assert forall|i: int| 0 <= i < after.len() implies #[trigger] after[i] == count(from + i + 1)
        - count(from + i) by {
        if i < after.len() - 1 {
            let j = i + history.len() + 1 - after.len();
            assert(after[i] == history[j]);
            assert(n - history.len() + j == from + i);
        }
    }
}

proof fn lemma_ticked(start: Stats, ticks: Seq<Stats>, n: int)
    requires
        counts_grow(start, ticks),
        0 <= n <= ticks.len(),
    ensures
        ({
            let ui = UiView { last_stats: start, uploaded: Seq::empty(), downloaded: Seq::empty() };
            let after = ticked(ui, ticks.take(n));
            let seen = smaller(n, 10);
            &&& after.last_stats == counted_at(start, ticks, n)
            &&& after.downloaded.len() == seen && after.uploaded.len() == seen
            &&& adds_up(after.downloaded, |m: int| counted_at(start, ticks, m).downloaded, n - seen)
            &&& adds_up(after.uploaded, |m: int| counted_at(start, ticks, m).uploaded, n - seen)
        }),
    decreases n,
{
    let ui = UiView { last_stats: start, uploaded: Seq::empty(), downloaded: Seq::empty() };
    if n > 0 {
        let last = n - 1;
        lemma_ticked(start, ticks, last);
        assert(ticks.take(n).drop_last() =~= ticks.take(last));
        assert(ticks.take(n).last() == ticks[last]);
        let before = ticked(ui, ticks.take(last));
        let down = |m: int| counted_at(start, ticks, m).downloaded;
        let up = |m: int| counted_at(start, ticks, m).uploaded;
        let new_down = (ticks[last].downloaded - before.last_stats.downloaded) as u64;
        let new_up = (ticks[last].uploaded - before.last_stats.uploaded) as u64;
        lemma_one_more(before.downloaded, down, last, new_down);
        lemma_one_more(before.uploaded, up, last, new_up);
    }
}

/// The speeds that are shown are what has been received and sent in the last ten ticks,
/// or since the beginning if there were fewer, by tick.
pub proof fn law_speeds_are_means(start: Stats, ticks: Seq<Stats>)
    requires
        ticks.len() > 0,
        counts_grow(start, ticks),
    ensures
        ({
            let ui = UiView { last_stats: start, uploaded: Seq::empty(), downloaded: Seq::empty() };
            let after = ticked(ui, ticks);
            let seen: int = if ticks.len() < 10 {
                ticks.len() as int
            } else {
                10
            };
            let since = counted_at(start, ticks, ticks.len() - seen);
            &&& after.last_stats == ticks.last()
            &&& mean_of(after.downloaded) == (ticks.last().downloaded - since.downloaded) / seen
            &&& mean_of(after.uploaded) == (ticks.last().uploaded - since.uploaded) / seen
        }),
{
    let ui = UiView { last_stats: start, uploaded: Seq::empty(), downloaded: Seq::empty() };
    let after = ticked(ui, ticks);
    let seen = smaller(ticks.len() as int, 10);
    let from = ticks.len() - seen;
    let down = |n: int| counted_at(start, ticks, n).downloaded;
    let up = |n: int| counted_at(start, ticks, n).uploaded;
    lemma_ticked(start, ticks, ticks.len() as int);
    assert(ticks.take(ticks.len() as int) =~= ticks);
    lemma_adds_up(after.downloaded, down, from);
    lemma_adds_up(after.uploaded, up, from);
}

/// What the screen shows: the counts in full, and the means of the last ticks.
pub proof fn law_screen_shows_counts(name: Seq<char>, ui: UiView)
    ensures
        ({
            let lines = screen_text(name, ui);
            &&& lines.len() == 8
            &&& lines[0] == "gearbox!"@
            &&& lines[1] == "Torrent Name: "@ + name
            &&& lines[2] == "Downloaded: "@ + decimal(ui.last_stats.downloaded as nat)
            &&& lines[3] == "Uploaded: "@ + decimal(ui.last_stats.uploaded as nat)
            &&& lines[4] == "Remaining: "@ + padded(decimal(ui.last_stats.remaining as nat), 12)
                + " B"@
            &&& lines[5] == "Downloading at: "@ + padded(
                decimal((sum_of(ui.downloaded) / ui.downloaded.len() as int) as nat),
                10,
            ) + " B/s"@
            &&& lines[6] == "Uploading at: "@ + padded(
                decimal((sum_of(ui.uploaded) / ui.uploaded.len() as int) as nat),
                10,
            ) + " B/s"@
            &&& lines[7] == "\nPress q to quit"@
        }),
{
}

/// The client is left at the key `q`, and at no other.
pub proof fn law_only_one_key_quits(event: TerminalEvent)
    ensures
        quit_on(event) == Some(true) <==> event == TerminalEvent::Key('q'),
        quit_on(event) == Some(false) <==> event == TerminalEvent::NoEvent,
{
}

} // verus!
