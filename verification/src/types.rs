//! The names that the parts of the client share.
use bytes::RingBuf;
use vstd::prelude::*;
use vstd::std_specs::convert::FromSpecImpl;

verus! {

/// The number of a piece of the torrent.
#[derive(Clone, Copy, Debug, PartialEq, Eq, Structural)]
pub struct PieceIndex(pub u32);

impl From<u32> for PieceIndex {
    fn from(n: u32) -> (r: PieceIndex) {
        PieceIndex(n)
    }
}

impl FromSpecImpl<u32> for PieceIndex {
    open spec fn obeys_from_spec() -> bool {
        true
    }

    open spec fn from_spec(n: u32) -> PieceIndex {
        PieceIndex(n)
    }
}

impl From<PieceIndex> for u32 {
    fn from(index: PieceIndex) -> (r: u32) {
        index.0
    }
}

impl FromSpecImpl<PieceIndex> for u32 {
    open spec fn obeys_from_spec() -> bool {
        true
    }

    open spec fn from_spec(index: PieceIndex) -> u32 {
        index.0
    }
}

/// The number of a connection. Numbers are not used again, tokens are.
#[derive(Clone, Copy, Debug, PartialEq, Eq, Structural)]
pub struct ConnectionId(pub u32);

impl From<u32> for ConnectionId {
    fn from(n: u32) -> (r: ConnectionId) {
        ConnectionId(n)
    }
}

impl FromSpecImpl<u32> for ConnectionId {
    open spec fn obeys_from_spec() -> bool {
        true
    }

    open spec fn from_spec(n: u32) -> ConnectionId {
        ConnectionId(n)
    }
}

/// The place of a connection in the event loop.
#[derive(Clone, Copy, Debug, PartialEq, Eq, Structural)]
pub struct Token(pub usize);

/// A block that somebody wants read from disk.
#[derive(Clone, Copy, Debug, PartialEq, Eq, Structural)]
pub struct BlockRequest {
    pub block_info: BlockInfo,
    pub receiver: BlockReceiver,
}

/// A part of a piece.
#[derive(Clone, Copy, Debug, PartialEq, Eq, Structural)]
pub struct BlockInfo {
    pub piece_index: PieceIndex,
    pub offset: u32,
    pub length: u32,
}

/// A block that a peer has sent.
#[derive(Debug)]
pub struct BlockFromPeer {
    pub info: BlockInfo,
    pub data: RingBuf,
}

impl BlockFromPeer {
    pub fn new(info: BlockInfo, data: RingBuf) -> (r: BlockFromPeer)
        ensures
            r.info == info,
            r.data == data,
    {
        BlockFromPeer { info, data }
    }
}

/// A block that was read from disk, and who asked for it.
#[derive(Debug)]
pub struct BlockFromDisk {
    pub receiver: BlockReceiver,
    pub info: BlockInfo,
    pub data: RingBuf,
}

/// The connection that a block is for.
#[derive(Clone, Copy, Debug, PartialEq, Eq, Structural)]
pub struct BlockReceiver {
    pub id: ConnectionId,
    pub token: Token,
}

/// What connections tell the disk reader.
#[derive(Clone, Copy, Debug, PartialEq, Eq, Structural)]
pub enum PieceReaderMessage {
    Request(BlockRequest),
    CancelRequest(BlockInfo, ConnectionId),
    CancelRequestsForConnection(ConnectionId),
}

/// How far the download has come, in bytes.
#[derive(Clone, Copy, Debug, PartialEq, Eq, Structural)]
pub struct Stats {
    pub downloaded: u64,
    pub uploaded: u64,
    pub remaining: u64,
}

} // verus!
