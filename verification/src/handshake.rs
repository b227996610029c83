//! The handshake with which a connection begins.
use bytes::ByteBuf;
use vstd::prelude::*;
use vstd::slice::slice_subrange;

use crate::buffers::{
    byte_buf_advance, byte_buf_bytes, byte_buf_flip, byte_buf_len, byte_buf_new, byte_buf_unread,
    byte_buf_write, byte_buf_written, power_of_two_from, smaller,
};
use crate::byte_slices::bytes_equal;
use crate::torrent_info::TorrentInfo;

verus! {

/// How long a handshake is: the name of the protocol and its length, eight
/// bytes of flags, the info hash, and the peer id.
pub const HANDSHAKE_BYTES_LENGTH: usize = 68;

/// Why a handshake is not accepted.
#[derive(Clone, Copy, Debug, PartialEq, Eq, Structural)]
pub enum HandshakeError {
    BadProtocolHeader,
    BadInfoHash,
}

/// `\x13BitTorrent protocol`
pub open spec fn protocol_name() -> Seq<u8> {
    seq![
        19u8,
        66,
        105,
        116,
        84,
        111,
        114,
        114,
        101,
        110,
        116,
        32,
        112,
        114,
        111,
        116,
        111,
        99,
        111,
        108,
    ]
}

/// What a handshake begins with: the name of the protocol, and no flags.
pub open spec fn handshake_header() -> Seq<u8> {
    protocol_name() + seq![0u8, 0, 0, 0, 0, 0, 0, 0]
}

/// The handshake of a peer with the given id, for a torrent with the given
/// info hash.
pub open spec fn handshake_message(info_hash: Seq<u8>, peer_id: Seq<u8>) -> Seq<u8> {
    handshake_header() + info_hash + peer_id
}

/// What is thought of a handshake.
pub open spec fn handshake_result(handshake: Seq<u8>, info_hash: Seq<u8>) -> Result<
    (),
    HandshakeError,
> {
    if handshake.subrange(0, 20) != protocol_name() {
        Err(HandshakeError::BadProtocolHeader)
    } else if handshake.subrange(28, 48) != info_hash {
        Err(HandshakeError::BadInfoHash)
    } else {
        Ok(())
    }
}

/// The room for a handshake of ours.
pub const HANDSHAKE_BUFFER: usize = 128;

fn protocol_name_bytes() -> (r: [u8; 20])
    ensures
        r@ == protocol_name(),
{
    let name: [u8; 20] = [
        19,
        66,
        105,
        116,
        84,
        111,
        114,
        114,
        101,
        110,
        116,
        32,
        112,
        114,
        111,
        116,
        111,
        99,
        111,
        108,
    ];
    assert(name@ =~= protocol_name());
    name
}

/// How far a handshake has come.
#[verifier::ext_equal]
pub struct HandshakeView {
    /// What has come, and zeros behind it.
    pub received: Seq<u8>,
    pub bytes_received: int,
    /// What is still to be sent.
    pub unsent: Seq<u8>,
}

/// A connection that has not finished its handshake. The socket belongs to the
/// application.
pub struct HandshakingConnection {
    recv_buf: Vec<u8>,
    send_buf: ByteBuf,
    bytes_received: usize,
}

impl View for HandshakingConnection {
    type V = HandshakeView;

    closed spec fn view(&self) -> HandshakeView {
        HandshakeView {
            received: self.recv_buf@,
            bytes_received: self.bytes_received as int,
            unsent: byte_buf_unread(self.send_buf),
        }
    }
}

impl HandshakingConnection {
    pub open spec fn wf(self) -> bool {
        &&& self@.received.len() == HANDSHAKE_BYTES_LENGTH
        &&& 0 <= self@.bytes_received <= HANDSHAKE_BYTES_LENGTH
    }

    /// A connection on which nothing has been said. What is to be sent is our
    /// handshake, as far as the buffer has room for it.
    pub fn new(torrent: &TorrentInfo, own_id: &[u8]) -> (r: HandshakingConnection)
        requires
            torrent@.wf(),
            own_id@.len() <= u32::MAX,
        ensures
            r.wf(),
            r@ == (HandshakeView {
                received: Seq::new(HANDSHAKE_BYTES_LENGTH as nat, |i: int| 0u8),
                bytes_received: 0,
                unsent: handshake_message(torrent@.info_hash, own_id@).take(
                    smaller(48 + own_id@.len() as int, HANDSHAKE_BUFFER as int),
                ),
            }),
    {
        proof {
            reveal_with_fuel(power_of_two_from, 9);
        }
        let mut send_buf = byte_buf_new(HANDSHAKE_BYTES_LENGTH);
        let name = protocol_name_bytes();
        let flags: [u8; 8] = [0, 0, 0, 0, 0, 0, 0, 0];
        byte_buf_write(&mut send_buf, &name);
        byte_buf_write(&mut send_buf, &flags);
        assert(byte_buf_written(send_buf) =~= handshake_header());
        byte_buf_write(&mut send_buf, torrent.info_hash());
        byte_buf_write(&mut send_buf, own_id);
        proof {
            let whole = handshake_message(torrent@.info_hash, own_id@);
            assert(byte_buf_written(send_buf) =~= whole.take(
                smaller(48 + own_id@.len() as int, HANDSHAKE_BUFFER as int),
            ));
        }
        let mut recv_buf: Vec<u8> = Vec::new();
        recv_buf.resize(HANDSHAKE_BYTES_LENGTH, 0);
        assert(recv_buf@ =~= Seq::new(HANDSHAKE_BYTES_LENGTH as nat, |i: int| 0u8));
        HandshakingConnection { recv_buf, send_buf: byte_buf_flip(send_buf), bytes_received: 0 }
    }

    /// How many bytes of the peer's handshake are missing.
    pub fn bytes_missing(&self) -> (r: usize)
        requires
            self.wf(),
        ensures
            r == HANDSHAKE_BYTES_LENGTH - self@.bytes_received,
    {
        HANDSHAKE_BYTES_LENGTH - self.bytes_received
    }

    /// Takes in what was read from the socket, which is not to be more than is
    /// missing.
    pub fn receive(&mut self, data: &[u8])
        requires
            old(self).wf(),
            old(self)@.bytes_received + data@.len() <= HANDSHAKE_BYTES_LENGTH,
        ensures
            final(self).wf(),
            final(self)@ == (HandshakeView {
                received: old(self)@.received.take(old(self)@.bytes_received) + data@ + old(
                    self,
                )@.received.skip(old(self)@.bytes_received + data@.len()),
                bytes_received: old(self)@.bytes_received + data@.len(),
                ..old(self)@
            }),
    {
        let start = self.bytes_received;
        let ghost before = self.recv_buf@;
        let mut i: usize = 0;
        assert(self.recv_buf@ =~= before.take(start as int) + data@.take(0) + before.skip(
            start as int,
        ));
        while i < data.len()
            invariant
                i <= data@.len(),
                start == self.bytes_received,
                start + data@.len() <= HANDSHAKE_BYTES_LENGTH,
                self.recv_buf@.len() == HANDSHAKE_BYTES_LENGTH,
                before.len() == HANDSHAKE_BYTES_LENGTH,
                self.recv_buf@ == before.take(start as int) + data@.take(i as int) + before.skip(
                    start + i,
                ),
                self.send_buf == old(self).send_buf,
                self.bytes_received == old(self).bytes_received,
            decreases data@.len() - i,
        {
            self.recv_buf.set(start + i, data[i]);
            i = i + 1;
            assert(self.recv_buf@ =~= before.take(start as int) + data@.take(i as int)
                + before.skip(start + i));
        }
        assert(data@.take(i as int) =~= data@);
        self.bytes_received = self.bytes_received + data.len();
    }

    /// Whether something is still to be sent.
    pub fn has_data_to_send(&self) -> (r: bool)
        ensures
            r == (self@.unsent.len() > 0),
    {
        byte_buf_len(&self.send_buf) > 0
    }

    /// What is to be offered to the socket.
    pub fn bytes_to_send(&self) -> (r: &[u8])
        requires
            self@.unsent.len() > 0,
        ensures
            r@ == self@.unsent,
    {
        byte_buf_bytes(&self.send_buf)
    }

    /// The socket has taken so many bytes.
    pub fn sent(&mut self, n: usize)
        ensures
            final(self)@ == (HandshakeView {
                unsent: old(self)@.unsent.skip(smaller(n as int, old(self)@.unsent.len() as int)),
                ..old(self)@
            }),
            old(self).wf() ==> final(self).wf(),
    {
        byte_buf_advance(&mut self.send_buf, n);
    }

    /// Whether a whole handshake has been sent, and a whole one received.
    pub fn handshake_finished(&self) -> (r: bool)
        ensures
            r == (self@.unsent.len() == 0 && self@.bytes_received >= HANDSHAKE_BYTES_LENGTH),
    {
        byte_buf_len(&self.send_buf) == 0 && self.bytes_received >= HANDSHAKE_BYTES_LENGTH
    }

    /// Ends the handshake: what the peer has said is looked at.
    pub fn finish_handshake(self, torrent: &TorrentInfo) -> (r: Result<(), HandshakeError>)
        requires
            self.wf(),
        ensures
            r == handshake_result(self@.received, torrent@.info_hash),
    {
        HandshakingConnection::verify_handshake(self.recv_buf.as_slice(), torrent)
    }

    /// Whether a handshake is one for this torrent.
    pub fn verify_handshake(handshake: &[u8], torrent: &TorrentInfo) -> (r: Result<
        (),
        HandshakeError,
    >)
        requires
            handshake@.len() >= 48,
        ensures
            r == handshake_result(handshake@, torrent@.info_hash),
    {
        let name = protocol_name_bytes();
        if !bytes_equal(slice_subrange(handshake, 0, 20), &name) {
            return Err(HandshakeError::BadProtocolHeader);
        }
        if !bytes_equal(torrent.info_hash(), slice_subrange(handshake, 28, 48)) {
            return Err(HandshakeError::BadInfoHash);
        }
        Ok(())
    }
}

/// What one side sends, the other side accepts, if it is for the same torrent;
/// and it is refused if it is for another.
pub proof fn law_handshake_verifies(info_hash: Seq<u8>, other: Seq<u8>, peer_id: Seq<u8>)
    requires
        info_hash.len() == 20,
        peer_id.len() == 20,
    ensures
        handshake_message(info_hash, peer_id).len() == HANDSHAKE_BYTES_LENGTH,
        handshake_result(handshake_message(info_hash, peer_id), info_hash) is Ok,
        other != info_hash ==> handshake_result(handshake_message(info_hash, peer_id), other)
            == Err::<(), HandshakeError>(HandshakeError::BadInfoHash),
{
    let message = handshake_message(info_hash, peer_id);
    assert(message.subrange(0, 20) =~= protocol_name());
    assert(message.subrange(28, 48) =~= info_hash);
}

} // verus!
