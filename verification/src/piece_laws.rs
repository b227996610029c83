//! What holds of a piece that is put together out of blocks.
use vstd::prelude::*;

use crate::buffers::smaller;
use crate::digest::sha1_digest;
use crate::piece_data::{joined, slot, CurrentPieceInfo, PieceView};
use crate::torrent_info::TorrentView;
use crate::types::PieceIndex;

verus! {

/// How many blocks a piece of some length has: whole ones, and one for the rest.
pub open spec fn number_of_blocks(length: int) -> int {
    (length + 16383) / 16384
}

/// The block with number `k` of a piece that holds `content`.
pub open spec fn nth_block(content: Seq<u8>, k: int) -> Seq<u8> {
    content.subrange(16384 * k, smaller(16384 * (k + 1), content.len() as int))
}

/// A piece, once blocks of `content` have been added one after the other, those
/// with the numbers in `order`.
pub open spec fn filled(piece: PieceView, content: Seq<u8>, order: Seq<int>) -> PieceView
    decreases order.len(),
{
    if order.len() == 0 {
        piece
    } else {
        filled(piece, content, order.drop_last()).with_block(
            (16384 * order.last()) as u32,
            nth_block(content, order.last()),
        )
    }
}

/// Whether numbers are from 0 to `n`, and none comes twice.
pub open spec fn distinct_below(order: Seq<int>, n: int) -> bool {
    &&& order.no_duplicates()
    &&& forall|i: int| 0 <= i < order.len() ==> 0 <= #[trigger] order[i] < n
}

/// The blocks that were added are in their slots, and the other slots are empty.
proof fn lemma_filled(t: TorrentView, index: PieceIndex, content: Seq<u8>, order: Seq<int>)
    requires
        content.len() <= u32::MAX,
        number_of_blocks(content.len() as int) <= u16::MAX,
        order.len() <= number_of_blocks(content.len() as int),
        distinct_below(order, number_of_blocks(content.len() as int)),
    ensures
        ({
            let piece = filled(PieceView::empty(t, index), content, order);
            let n = number_of_blocks(content.len() as int);
            &&& piece.index == index
            &&& piece.block_count == PieceView::empty(t, index).block_count
            &&& piece.received == order.len()
            &&& piece.blocks.len() <= n
            &&& forall|k: int|
                0 <= k < n && #[trigger] order.contains(k) ==> k < piece.blocks.len()
                    && piece.blocks[k] == Some(nth_block(content, k))
            &&& forall|k: int|
                0 <= k < piece.blocks.len() && !order.contains(k)
                    ==> #[trigger] piece.blocks[k] is None
        }),
    decreases order.len(),
{
    let n = number_of_blocks(content.len() as int);
    if order.len() > 0 {
        let fewer = order.drop_last();
        let last = order.last();
        assert(order[order.len() - 1] == last);
        assert forall|i: int| 0 <= i < fewer.len() implies 0 <= #[trigger] fewer[i] < n by {
            assert(fewer[i] == order[i]);
        }
        lemma_filled(t, index, content, fewer);
        let before = filled(PieceView::empty(t, index), content, fewer);
        let piece = filled(PieceView::empty(t, index), content, order);
        assert(16384 * last <= u32::MAX);
        assert(slot((16384 * last) as u32) == last);
        assert forall|k: int| 0 <= k < n && #[trigger] order.contains(k) implies k
            < piece.blocks.len() && piece.blocks[k] == Some(nth_block(content, k)) by {
            if k != last {
                let i = choose|i: int| 0 <= i < order.len() && order[i] == k;
                assert(fewer[i] == k);
                assert(fewer.contains(k));
                assert(before.blocks[k] == Some(nth_block(content, k)));
            }
        }
        assert forall|k: int| 0 <= k < piece.blocks.len() && !order.contains(k) implies
            #[trigger] piece.blocks[k] is None by {
            assert(k != last);
            if fewer.contains(k) {
                let i = choose|i: int| 0 <= i < fewer.len() && fewer[i] == k;
                assert(order[i] == k);
            }
            if k < before.blocks.len() {
                assert(before.blocks[k] is None);
            }
        }
    }
}

/// Distinct numbers below `n`, `n` of them, are all numbers below `n`.
proof fn lemma_all_below(order: Seq<int>, n: int, k: int)
    requires
        distinct_below(order, n),
        order.len() == n,
        0 <= k < n,
    ensures
        order.contains(k),
{
    let numbers = order.to_set();
    let all = vstd::set_lib::set_int_range(0, n);
    order.unique_seq_to_set();
    vstd::set_lib::lemma_int_range(0, n);
    assert(numbers.subset_of(all));
    vstd::set_lib::lemma_subset_equality(numbers, all);
    assert(all.contains(k));
}

/// Blocks that are all there make up the content again.
proof fn lemma_joined(blocks: Seq<Option<Seq<u8>>>, content: Seq<u8>, n: int)
    requires
        0 <= n <= blocks.len(),
        n <= number_of_blocks(content.len() as int),
        forall|k: int| 0 <= k < n ==> #[trigger] blocks[k] == Some(nth_block(content, k)),
    ensures
        joined(blocks.take(n)) == content.take(smaller(16384 * n, content.len() as int)),
    decreases n,
{
    if n == 0 {
        assert(blocks.take(0) =~= Seq::empty());
    } else {
        lemma_joined(blocks, content, n - 1);
        assert(blocks.take(n).drop_last() =~= blocks.take(n - 1));
        assert(blocks.take(n).last() == blocks[n - 1]);
        assert(16384 * (n - 1) <= content.len());
        assert(content.take(16384 * (n - 1)) + nth_block(content, n - 1) =~= content.take(
            smaller(16384 * n, content.len() as int),
        ));
    }
}

/// A piece is its content. In whatever order the blocks of some content come,
/// once all are there, and not before, the piece is whole; every block is
/// accepted; and the piece passes exactly if the digest of all the content is the
/// hash that the torrent has for the piece.
pub proof fn law_piece_is_its_content(
    t: TorrentView,
    index: PieceIndex,
    content: Seq<u8>,
    order: Seq<int>,
)
    requires
        content.len() == t.piece_len(index),
        number_of_blocks(content.len() as int) <= u16::MAX,
        order.len() <= number_of_blocks(content.len() as int),
        distinct_below(order, number_of_blocks(content.len() as int)),
    ensures
        ({
            let n = number_of_blocks(content.len() as int);
            let piece = filled(PieceView::empty(t, index), content, order);
            &&& piece.index == index
            &&& piece.complete() <==> order.len() == n
            &&& order.len() < n ==> forall|k: int|
                0 <= k < n && !order.contains(k) ==> #[trigger] piece.accepts((16384 * k) as u32)
            &&& forall|k: int|
                0 <= k < n && order.contains(k) ==> !(#[trigger] piece.accepts((16384 * k) as u32))
            &&& order.len() == n ==> {
                &&& joined(piece.blocks) == content
                &&& piece.matches_hash(t) <==> sha1_digest(content) == t.piece_hash(index)
            }
        }),
{
    let n = number_of_blocks(content.len() as int);
    let piece = filled(PieceView::empty(t, index), content, order);
    lemma_filled(t, index, content, order);
    assert(piece.block_count == n);
    assert forall|k: int| 0 <= k < n && !order.contains(k) && order.len() < n implies
        #[trigger] piece.accepts((16384 * k) as u32) by {
        assert(slot((16384 * k) as u32) == k);
        if k < piece.blocks.len() {
            assert(piece.blocks[k] is None);
        }
    }
    assert forall|k: int| 0 <= k < n && order.contains(k) implies !(#[trigger] piece.accepts(
        (16384 * k) as u32,
    )) by {
        assert(slot((16384 * k) as u32) == k);
        assert(piece.blocks[k] is Some);
    }
    if order.len() == n {
        assert forall|k: int| 0 <= k < n implies k < piece.blocks.len()
            && #[trigger] piece.blocks[k] == Some(nth_block(content, k)) by {
            lemma_all_below(order, n, k);
        }
        if n > 0 {
            assert(piece.blocks[n - 1] == Some(nth_block(content, n - 1)));
        }
        assert(piece.blocks.len() == n);
        lemma_joined(piece.blocks, content, n);
        assert(piece.blocks.take(n) =~= piece.blocks);
        assert(content.take(smaller(16384 * n, content.len() as int)) =~= content);
    }
}

/// The blocks that are asked for, one after the other from the start of a piece,
/// are exactly the blocks that the piece is put together from.
pub proof fn law_requests_are_the_blocks(index: PieceIndex, length: u32, k: int)
    requires
        0 <= k < number_of_blocks(length as int),
    ensures
        ({
            let fresh = CurrentPieceInfo { index, requested_up_to: 0, length };
            let blocks = fresh.blocks_left();
            &&& blocks.len() == number_of_blocks(length as int)
            &&& blocks[k].piece_index == index
            &&& blocks[k].offset == 16384 * k
            &&& blocks[k].length == smaller(16384, length - 16384 * k)
        }),
{
    lemma_blocks_left(CurrentPieceInfo { index, requested_up_to: 0, length }, 0, k);
}

proof fn lemma_blocks_left(current: CurrentPieceInfo, first: int, k: int)
    requires
        0 <= first <= number_of_blocks(current.length as int),
        current.requested_up_to == smaller(16384 * first, current.length as int),
    ensures
        current.blocks_left().len() == number_of_blocks(current.length as int) - first,
        first <= k < number_of_blocks(current.length as int) ==> {
            let block = current.blocks_left()[k - first];
            &&& block.piece_index == current.index
            &&& block.offset == 16384 * k
            &&& block.length == smaller(16384, current.length - 16384 * k)
        },
    decreases number_of_blocks(current.length as int) - first,
{
    if first < number_of_blocks(current.length as int) {
        lemma_blocks_left(current.after_block(), first + 1, k);
    }
}

/// The hashes of the pieces, one after the other, are all the hashes: that of a
/// piece stands behind those of the pieces before it.
pub proof fn law_hashes_stand_in_order(t: TorrentView, index: PieceIndex, j: int)
    requires
        t.wf(),
        index.0 < t.piece_count(),
        0 <= j < 20,
    ensures
        t.piece_hash(index).len() == 20,
        t.piece_hash(index)[j] == t.hashes[20 * index.0 + j],
{
}

} // verus!
