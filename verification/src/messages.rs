//! The messages that are sent to peers.
use vstd::prelude::*;

use crate::types::{BlockInfo, PieceIndex};
use crate::wire::{be32, lemma_u32_at, push_u32, u32_at};

verus! {

/// A message to a peer.
#[derive(Clone, Copy, Debug, PartialEq, Eq, Structural)]
pub enum PeerMsg {
    Choke,
    Unchoke,
    Interested,
    NotInterested,
    Have(PieceIndex),
    Request(BlockInfo),
}

/// The byte that says which message it is.
pub open spec fn kind(msg: PeerMsg) -> u8 {
    match msg {
        PeerMsg::Choke => 0,
        PeerMsg::Unchoke => 1,
        PeerMsg::Interested => 2,
        PeerMsg::NotInterested => 3,
        PeerMsg::Have(_) => 4,
        PeerMsg::Request(_) => 6,
    }
}

/// What follows that byte.
pub open spec fn payload(msg: PeerMsg) -> Seq<u8> {
    match msg {
        PeerMsg::Have(index) => be32(index.0),
        PeerMsg::Request(block) => be32(block.piece_index.0) + be32(block.offset) + be32(
            block.length,
        ),
        _ => Seq::empty(),
    }
}

/// A message on the wire: how long it is, which one it is, and the rest.
pub open spec fn encoded(msg: PeerMsg) -> Seq<u8> {
    be32((1 + payload(msg).len()) as u32) + seq![kind(msg)] + payload(msg)
}

/// Messages on the wire, one behind the other.
pub open spec fn encoded_all(msgs: Seq<PeerMsg>) -> Seq<u8>
    decreases msgs.len(),
{
    if msgs.len() == 0 {
        Seq::empty()
    } else {
        encoded_all(msgs.drop_last()) + encoded(msgs.last())
    }
}

impl PeerMsg {
    /// Writes the message behind `out`.
    pub fn serialise(&self, out: &mut Vec<u8>)
        ensures
            final(out)@ == old(out)@ + encoded(*self),
    {
        let ghost before = out@;
        match *self {
            PeerMsg::Choke => {
                push_u32(out, 1);
                out.push(0);
            },
            PeerMsg::Unchoke => {
                push_u32(out, 1);
                out.push(1);
            },
            PeerMsg::Interested => {
                push_u32(out, 1);
                out.push(2);
            },
            PeerMsg::NotInterested => {
                push_u32(out, 1);
                out.push(3);
            },
            PeerMsg::Have(index) => {
                push_u32(out, 5);
                out.push(4);
                push_u32(out, index.0);
            },
            PeerMsg::Request(block_info) => {
                push_u32(out, 13);
                out.push(6);
                push_u32(out, block_info.piece_index.0);
                push_u32(out, block_info.offset);
                push_u32(out, block_info.length);
            },
        }
        assert(out@ =~= before + encoded(*self));
    }
}

/// A message says how many bytes follow, then which message it is, then what
/// it is about; and none is longer than 17 bytes.
pub proof fn law_framing(msg: PeerMsg)
    ensures
        encoded(msg).len() == 5 + payload(msg).len(),
        encoded(msg).len() <= 17,
        u32_at(encoded(msg), 0) == encoded(msg).len() - 4,
        encoded(msg)[4] == kind(msg),
        msg matches PeerMsg::Have(index) ==> u32_at(encoded(msg), 5) == index.0,
        msg matches PeerMsg::Request(block) ==> {
            &&& u32_at(encoded(msg), 5) == block.piece_index.0
            &&& u32_at(encoded(msg), 9) == block.offset
            &&& u32_at(encoded(msg), 13) == block.length
        },
{
    let text = encoded(msg);
    assert(text.subrange(0, 4) =~= be32((1 + payload(msg).len()) as u32));
    lemma_u32_at(text, 0, (1 + payload(msg).len()) as u32);
    match msg {
        PeerMsg::Have(index) => {
            assert(text.subrange(5, 9) =~= be32(index.0));
            lemma_u32_at(text, 5, index.0);
        },
        PeerMsg::Request(block) => {
            assert(text.subrange(5, 9) =~= be32(block.piece_index.0));
            lemma_u32_at(text, 5, block.piece_index.0);
            assert(text.subrange(9, 13) =~= be32(block.offset));
            lemma_u32_at(text, 9, block.offset);
            assert(text.subrange(13, 17) =~= be32(block.length));
            lemma_u32_at(text, 13, block.length);
        },
        _ => {},
    }
}

/// What is written can be told apart: no message is the beginning of another.
pub proof fn law_messages_differ(a: PeerMsg, b: PeerMsg, behind_a: Seq<u8>, behind_b: Seq<u8>)
    requires
        encoded(a) + behind_a == encoded(b) + behind_b,
    ensures
        a == b,
        behind_a == behind_b,
{
    law_framing(a);
    law_framing(b);
    let text = encoded(a) + behind_a;
    assert forall|i: int| 0 <= i < encoded(a).len() implies #[trigger] encoded(a)[i]
        == text[i] by {}
    assert forall|i: int| 0 <= i < encoded(b).len() implies #[trigger] encoded(b)[i]
        == text[i] by {}
    assert(encoded(a)[4] == encoded(b)[4]);
    assert(kind(a) == kind(b));
    assert(encoded(a).len() == encoded(b).len());
    assert(encoded(a) =~= encoded(b));
    assert(a == b);
    assert(behind_a =~= text.skip(encoded(a).len() as int));
    assert(behind_b =~= text.skip(encoded(b).len() as int));
}

} // verus!
