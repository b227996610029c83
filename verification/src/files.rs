//! The queue of the disk reader, and where blocks go on disk.
use std::collections::VecDeque;
use vstd::prelude::*;

use crate::file_sections::{covered, cursor_at, sections, FileSection};
use crate::torrent_info::{TorrentInfo, TorrentView};
use crate::types::{BlockInfo, BlockRequest, ConnectionId, PieceReaderMessage};

verus! {

// ---------------------------------------------------------------------------
// The request queue
// ---------------------------------------------------------------------------

/// Blocks that are to be read, in the order in which they were asked for.
pub struct RequestQueue {
    requests: VecDeque<BlockRequest>,
    temp_buf: VecDeque<BlockRequest>,
}

impl View for RequestQueue {
    type V = Seq<BlockRequest>;

    closed spec fn view(&self) -> Seq<BlockRequest> {
        self.requests@
    }
}

/// The requests that are not for a connection, in their order.
pub open spec fn without_connection(requests: Seq<BlockRequest>, id: ConnectionId) -> Seq<
    BlockRequest,
> {
    requests.filter(|r: BlockRequest| r.receiver.id != id)
}

/// Whether a request is the one that a connection made for a block.
pub open spec fn is_request_for(r: BlockRequest, id: ConnectionId, block: BlockInfo) -> bool {
    r.receiver.id == id && r.block_info == block
}

/// The requests without the first one that a connection made for a block, if
/// there is one.
pub open spec fn without_request(
    requests: Seq<BlockRequest>,
    id: ConnectionId,
    block: BlockInfo,
) -> Seq<BlockRequest>
    decreases requests.len(),
{
    if requests.len() == 0 {
        requests
    } else if is_request_for(requests[0], id, block) {
        requests.drop_first()
    } else {
        seq![requests[0]] + without_request(requests.drop_first(), id, block)
    }
}

/// The queue once the disk reader has been told something.
pub open spec fn queue_after(requests: Seq<BlockRequest>, msg: PieceReaderMessage) -> Seq<
    BlockRequest,
> {
    match msg {
        PieceReaderMessage::Request(request) => requests.push(request),
        PieceReaderMessage::CancelRequestsForConnection(id) => without_connection(requests, id),
        PieceReaderMessage::CancelRequest(block, id) => without_request(requests, id, block),
    }
}

impl RequestQueue {
    /// Between two calls nothing waits to be put back.
    pub closed spec fn wf(self) -> bool {
        self.temp_buf@.len() == 0
    }

    pub fn new() -> (r: RequestQueue)
        ensures
            r.wf(),
            r@ == Seq::<BlockRequest>::empty(),
    {
        RequestQueue {
            requests: VecDeque::with_capacity(16),
            temp_buf: VecDeque::with_capacity(16),
        }
    }

    pub fn enqueue(&mut self, request: BlockRequest)
        requires
            old(self).wf(),
        ensures
            final(self).wf(),
            final(self)@ == old(self)@.push(request),
    {
        self.requests.push_back(request);
    }

    /// Takes out the request that has waited longest.
    pub fn dequeue(&mut self) -> (r: Option<BlockRequest>)
        requires
            old(self).wf(),
        ensures
            final(self).wf(),
            match r {
                Some(request) => old(self)@.len() > 0 && request == old(self)@[0] && final(self)@
                    == old(self)@.drop_first(),
                None => old(self)@.len() == 0 && final(self)@ == old(self)@,
            },
    {
        let r = self.requests.pop_front();
        proof {
            if r is Some {
                assert(self@ =~= old(self)@.drop_first());
            }
        }
        r
    }

    /// Drops all requests of a connection.
    pub fn cancel_all_from_peer(&mut self, conn_id: ConnectionId)
        requires
            old(self).wf(),
        ensures
            final(self).wf(),
            final(self)@ == without_connection(old(self)@, conn_id),
    {
        let ghost all = self.requests@;
        let ghost keeps = |r: BlockRequest| r.receiver.id != conn_id;
        let ghost mut done: int = 0;
        proof {
            reveal(Seq::filter);
            assert(all.skip(0) =~= all);
            assert(all.take(0) =~= Seq::empty());
        }
        while self.requests.len() > 0
            invariant
                0 <= done <= all.len(),
                keeps == (|r: BlockRequest| r.receiver.id != conn_id),
                self.requests@ == all.skip(done),
                self.temp_buf@ == all.take(done).filter(keeps),
            decreases self.requests@.len(),
        {
            if let Some(request) = self.requests.pop_front() {
                proof {
                    assert(request == all[done]);
                    assert(self.requests@ =~= all.skip(done + 1));
                    assert(all.take(done + 1).drop_last() =~= all.take(done));
                    assert(all.take(done + 1).last() == request);
                    reveal(Seq::filter);
                }
                if request.receiver.id != conn_id {
                    self.temp_buf.push_back(request);
                }
                proof {
                    done = done + 1;
                }
            }
        }
        assert(all.take(done) =~= all);
        std::mem::swap(&mut self.temp_buf, &mut self.requests);
    }

    /// Drops the first request that a connection made for a block.
    pub fn cancel_request(&mut self, conn_id: ConnectionId, info: &BlockInfo)
        requires
            old(self).wf(),
        ensures
            final(self).wf(),
            final(self)@ == without_request(old(self)@, conn_id, *info),
    {
        let ghost all = self.requests@;
        let mut i: usize = 0;
        while i < self.requests.len()
            invariant
                *self == *old(self),
                self.wf(),
                all == self.requests@,
                i <= all.len(),
                forall|j: int|
                    0 <= j < i ==> !is_request_for(#[trigger] all[j], conn_id, *info),
            decreases all.len() - i,
        {
            let request = self.requests[i];
            if request.receiver.id == conn_id && request.block_info == *info {
                let _ = self.requests.remove(i);
                proof {
                    lemma_without_first(all, conn_id, *info, i as int);
                }
                return ;
            }
            i = i + 1;
        }
        proof {
            lemma_without_none(all, conn_id, *info);
        }
    }

    /// Does what the disk reader has been told.
    pub fn handle_message(&mut self, msg: PieceReaderMessage)
        requires
            old(self).wf(),
        ensures
            final(self).wf(),
            final(self)@ == queue_after(old(self)@, msg),
    {
        match msg {
            PieceReaderMessage::Request(request) => self.enqueue(request),
            PieceReaderMessage::CancelRequestsForConnection(conn_id) => self.cancel_all_from_peer(
                conn_id,
            ),
            PieceReaderMessage::CancelRequest(info, conn_id) => self.cancel_request(conn_id, &info),
        }
    }
}

pub proof fn lemma_without_first(
    requests: Seq<BlockRequest>,
    id: ConnectionId,
    block: BlockInfo,
    i: int,
)
    requires
        0 <= i < requests.len(),
        is_request_for(requests[i], id, block),
        forall|j: int| 0 <= j < i ==> !is_request_for(#[trigger] requests[j], id, block),
    ensures
        without_request(requests, id, block) == requests.remove(i),
    decreases i,
{
    let rest = requests.drop_first();
    if i == 0 {
        assert(requests.remove(0) =~= rest);
    } else {
        assert(!is_request_for(requests[0], id, block));
        assert forall|j: int| 0 <= j < i - 1 implies !is_request_for(
            #[trigger] rest[j],
            id,
            block,
        ) by {
            assert(rest[j] == requests[j + 1]);
        }
        lemma_without_first(rest, id, block, i - 1);
        assert(requests.remove(i) =~= seq![requests[0]] + rest.remove(i - 1));
    }
}

pub proof fn lemma_without_none(requests: Seq<BlockRequest>, id: ConnectionId, block: BlockInfo)
    requires
        forall|j: int| 0 <= j < requests.len() ==> !is_request_for(#[trigger] requests[j], id, block),
    ensures
        without_request(requests, id, block) == requests,
    decreases requests.len(),
{
    if requests.len() > 0 {
        let rest = requests.drop_first();
        assert forall|j: int| 0 <= j < rest.len() implies !is_request_for(
            #[trigger] rest[j],
            id,
            block,
        ) by {
            assert(rest[j] == requests[j + 1]);
        }
        lemma_without_none(rest, id, block);
        assert(requests =~= seq![requests[0]] + rest);
    }
}

/// Once the requests of a connection are cancelled, none of them is left, and
/// all others are.
pub proof fn law_cancelled_connection(requests: Seq<BlockRequest>, id: ConnectionId, i: int)
    requires
        0 <= i < requests.len(),
    ensures
        without_connection(requests, id).contains(requests[i]) <==> requests[i].receiver.id != id,
        forall|j: int|
            0 <= j < without_connection(requests, id).len() ==> (
            #[trigger] without_connection(requests, id)[j]).receiver.id != id,
{
    let keeps = |r: BlockRequest| r.receiver.id != id;
    broadcast use vstd::seq_lib::group_filter_ensures;

    assert(requests.contains(requests[i]));
    let left = requests.filter(keeps);
    if left.contains(requests[i]) {
        assert(keeps(requests[i]));
    }
    assert forall|j: int| 0 <= j < left.len() implies (#[trigger] left[j]).receiver.id != id by {
        assert(left.contains(left[j]));
        assert(keeps(left[j]));
    }
}

/// What was asked for and then cancelled is as if it had not been asked for,
/// unless the same connection had asked for the block before.
pub proof fn law_cancel_undoes_request(requests: Seq<BlockRequest>, request: BlockRequest)
    requires
        forall|j: int|
            0 <= j < requests.len() ==> !is_request_for(
                #[trigger] requests[j],
                request.receiver.id,
                request.block_info,
            ),
    ensures
        queue_after(
            queue_after(requests, PieceReaderMessage::Request(request)),
            PieceReaderMessage::CancelRequest(request.block_info, request.receiver.id),
        ) == requests,
{
    let longer = requests.push(request);
    assert forall|j: int| 0 <= j < requests.len() implies !is_request_for(
        #[trigger] longer[j],
        request.receiver.id,
        request.block_info,
    ) by {
        assert(longer[j] == requests[j]);
    }
    lemma_without_first(
        longer,
        request.receiver.id,
        request.block_info,
        requests.len() as int,
    );
    assert(longer.remove(requests.len() as int) =~= requests);
}

// ---------------------------------------------------------------------------
// Blocks and files
// ---------------------------------------------------------------------------

/// A part of a block, and where in the files it lies.
#[derive(Clone, Copy, Debug, PartialEq, Eq, Structural)]
pub struct Transfer {
    pub section: FileSection,
    /// Where the part starts in the block.
    pub start: usize,
    /// Where it ends.
    pub end: usize,
}

/// The parts of a block: for every section the bytes that follow those of the
/// sections before.
pub open spec fn transfers_of(parts: Seq<FileSection>) -> Seq<Transfer> {
    Seq::new(
        parts.len(),
        |k: int|
            Transfer {
                section: parts[k],
                start: covered(parts.take(k)) as usize,
                end: covered(parts.take(k + 1)) as usize,
            },
    )
}

/// The sections of a block.
pub open spec fn block_sections(t: TorrentView, block: BlockInfo) -> Seq<FileSection> {
    sections(
        t.files,
        cursor_at(t.files, t.block_start(block.piece_index, block.offset), block.length as int),
    )
}

/// What has to be read or written for a block, section by section. The block
/// has to start inside the files.
pub fn plan_transfers(torrent: &TorrentInfo, block: &BlockInfo) -> (r: Vec<Transfer>)
    requires
        torrent@.wf(),
        torrent@.block_start(block.piece_index, block.offset) < torrent@.total_size,
    ensures
        r@ == transfers_of(block_sections(torrent@, *block)),
        forall|k: int|
            0 <= k < r@.len() ==> (#[trigger] r@[k]).start <= r@[k].end <= block.length
                && r@[k].end - r@[k].start == r@[k].section.length,
{
    let ghost all = block_sections(torrent@, *block);
    let ghost files = torrent@.files;
    let mut iter = torrent.map_block(block.piece_index, block.offset, block.length);
    let mut result: Vec<Transfer> = Vec::new();
    let mut start: usize = 0;
    let ghost mut seen: Seq<FileSection> = Seq::empty();
    proof {
        assert(seen + all =~= all);
    }
    loop
        invariant
            iter.wf(),
            iter.files() == files,
            files == torrent@.files,
            all == seen + sections(files, iter.cursor()),
            start == covered(seen),
            iter.cursor().wanted + covered(seen) == block.length,
            result@ =~= transfers_of(seen),
            forall|k: int|
                0 <= k < result@.len() ==> (#[trigger] result@[k]).start <= result@[k].end
                    <= block.length && result@[k].end - result@[k].start
                    == result@[k].section.length,
        ensures
            all == seen,
            result@ =~= transfers_of(seen),
            forall|k: int|
                0 <= k < result@.len() ==> (#[trigger] result@[k]).start <= result@[k].end
                    <= block.length && result@[k].end - result@[k].start
                    == result@[k].section.length,
        decreases iter.files().len() - iter.cursor().file,
    {
        let ghost cur = iter.cursor();
        match iter.next() {
            None => {
                proof {
                    assert(seen + sections(files, cur) =~= seen);
                }
                break ;
            },
            Some(section) => {
                let end: usize = start + section.length as usize;
                let ghost longer = seen.push(section);
                result.push(Transfer { section, start, end });
                proof {
                    assert(longer.drop_last() =~= seen);
                    assert(longer + sections(files, iter.cursor()) =~= seen + sections(files, cur));
                    assert forall|k: int| 0 <= k < longer.len() implies result@[k]
                        == #[trigger] transfers_of(longer)[k] by {
                        if k < seen.len() {
                            assert(result@[k] == transfers_of(seen)[k]);
                            assert(longer.take(k) =~= seen.take(k));
                            assert(longer.take(k + 1) =~= seen.take(k + 1));
                        } else {
                            assert(longer.take(k) =~= seen);
                            assert(longer.take(k + 1) =~= longer);
                        }
                    }
                    seen = longer;
                }
                start = end;
            },
        }
    }
    result
}

} // verus!
