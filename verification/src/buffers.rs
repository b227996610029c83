//! The ring buffers that connections read into and write from.
use bytes::{Buf, ByteBuf, MutBuf, MutByteBuf, RingBuf};
use vstd::prelude::*;
use vstd::slice::slice_subrange;

verus! {

/// `RingBuf` of bytes.
#[verifier::external_type_specification]
#[verifier::external_body]
pub struct ExRingBuf(RingBuf);

/// The bytes that are in a ring buffer and have not been read.
pub uninterp spec fn ring_unread(buf: RingBuf) -> Seq<u8>;

/// How many bytes a ring buffer was made for.
pub uninterp spec fn ring_capacity(buf: RingBuf) -> nat;

/// Where in its memory the unread bytes of a ring buffer start.
pub uninterp spec fn ring_position(buf: RingBuf) -> nat;

/// What a ring buffer holds. Reading goes around at the end of the memory:
/// only what comes before it can be seen at a time.
#[verifier::ext_equal]
pub struct Ring {
    pub unread: Seq<u8>,
    pub capacity: nat,
    pub position: nat,
}

pub open spec fn ring(buf: RingBuf) -> Ring {
    Ring {
        unread: ring_unread(buf),
        capacity: ring_capacity(buf),
        position: ring_position(buf),
    }
}

pub open spec fn smaller(a: int, b: int) -> int {
    if a <= b {
        a
    } else {
        b
    }
}

impl Ring {
    /// The unread bytes that lie next to each other in memory.
    pub open spec fn window(self) -> Seq<u8> {
        self.unread.take(smaller(self.unread.len() as int, self.capacity - self.position))
    }

    /// The buffer without its first `n` unread bytes, or without any if there
    /// are fewer.
    pub open spec fn advanced(self, n: nat) -> Ring {
        if self.capacity == 0 {
            self
        } else {
            let count = smaller(n as int, self.unread.len() as int);
            Ring {
                unread: self.unread.skip(count),
                position: (self.position + count) as nat % self.capacity,
                ..self
            }
        }
    }

    /// The buffer with as much of `bytes` behind it as there is room for.
    pub open spec fn written(self, bytes: Seq<u8>) -> Ring {
        Ring {
            unread: self.unread + bytes.take(
                smaller(bytes.len() as int, self.capacity - self.unread.len()),
            ),
            ..self
        }
    }

    pub open spec fn free(self) -> int {
        self.capacity - self.unread.len()
    }

    pub open spec fn wf(self) -> bool {
        &&& self.unread.len() <= self.capacity
        &&& self.position < self.capacity
    }

    /// An empty buffer of some capacity.
    pub open spec fn empty(capacity: nat) -> Ring {
        Ring { unread: Seq::empty(), capacity, position: 0 }
    }
}

/// Dropping bytes leaves a buffer in order.
pub proof fn lemma_advanced(ring: Ring, n: nat)
    requires
        ring.wf(),
    ensures
        ring.advanced(n).wf(),
        ring.advanced(n).capacity == ring.capacity,
        ring.advanced(n).unread.len() == ring.unread.len() - smaller(
            n as int,
            ring.unread.len() as int,
        ),
        ring.window().len() <= ring.unread.len(),
{
}

/// The smallest power of two that is `p` or larger and not below `n`, where
/// `p` is one.
pub open spec fn power_of_two_from(n: nat, p: nat) -> nat
    decreases
            if n > p {
                n - p
            } else {
                0
            },
{
    if p == 0 || n <= p {
        p
    } else {
        power_of_two_from(n, 2 * p)
    }
}

/// The smallest power of two that is not below `n`.
pub open spec fn next_power_of_two(n: nat) -> nat {
    power_of_two_from(n, 1)
}

/// `RingBuf::new` of bytes: an empty buffer, of the smallest power of two that
/// is not below `capacity`.
#[verifier::external_body]
pub(crate) fn ring_new(capacity: usize) -> (r: RingBuf)
    requires
        0 < capacity <= 0x4000_0000,
    ensures
        ring_unread(r) == Seq::<u8>::empty(),
        ring_capacity(r) == next_power_of_two(capacity as nat),
        ring_position(r) == 0,
{
    RingBuf::new(capacity)
}

/// `Buf::remaining` of a `RingBuf`: how many bytes are unread.
#[verifier::external_body]
pub(crate) fn ring_len(buf: &RingBuf) -> (r: usize)
    ensures
        r == ring_unread(*buf).len(),
{
    Buf::remaining(buf)
}

/// `MutBuf::remaining` of a `RingBuf`: how many bytes can still be written.
#[verifier::external_body]
pub(crate) fn ring_free(buf: &RingBuf) -> (r: usize)
    ensures
        r == ring_capacity(*buf) - ring_unread(*buf).len(),
{
    MutBuf::remaining(buf)
}

/// `Buf::bytes` of a `RingBuf`: the unread bytes up to the end of the memory.
/// A buffer of capacity zero has no memory to look at.
#[verifier::external_body]
pub(crate) fn ring_window(buf: &RingBuf) -> (r: &[u8])
    requires
        ring_capacity(*buf) > 0,
    ensures
        r@ == ring(*buf).window(),
{
    Buf::bytes(buf)
}

/// `Buf::advance` of a `RingBuf`: drops unread bytes, `n` of them or all.
#[verifier::external_body]
pub(crate) fn ring_advance(buf: &mut RingBuf, n: usize)
    ensures
        ring(*final(buf)) == ring(*old(buf)).advanced(n as nat),
{
    Buf::advance(buf, n)
}

/// `MutBuf::write_slice` of a `RingBuf`: puts `bytes` behind what is unread,
/// as far as there is room, and says how many it put there.
#[verifier::external_body]
pub(crate) fn ring_write(buf: &mut RingBuf, bytes: &[u8]) -> (r: usize)
    ensures
        r == smaller(bytes@.len() as int, ring(*old(buf)).free()),
        ring(*final(buf)) == ring(*old(buf)).written(bytes@),
{
    buf.write_slice(bytes)
}

/// `RingBuf::clone` of bytes: a buffer of the same capacity, with the same
/// unread bytes in the same place.
#[verifier::external_body]
pub(crate) fn ring_clone(buf: &RingBuf) -> (r: RingBuf)
    requires
        ring_capacity(*buf) > 0,
    ensures
        ring(r) == ring(*buf),
{
    buf.clone()
}

/// What can be seen of a buffer, and what can be seen once that has been
/// dropped, are all its unread bytes.
proof fn lemma_two_windows(ring: Ring)
    requires
        ring.wf(),
    ensures
        ring.window() + ring.advanced(ring.window().len()).window() == ring.unread,
{
    let seen = ring.window().len();
    let rest = ring.advanced(seen);
    if seen < ring.unread.len() {
        assert(ring.position + seen == ring.capacity);
        assert(ring.capacity % ring.capacity == 0) by {
            vstd::arithmetic::div_mod::lemma_mod_self_0(ring.capacity as int);
        }
        assert(rest.position == 0);
        assert(rest.window() =~= rest.unread);
    } else {
        assert(rest.unread =~= Seq::empty());
        assert(rest.window() =~= Seq::empty());
    }
    assert(ring.window() + rest.window() =~= ring.unread);
}

/// The first `n` unread bytes of a buffer, wherever they lie in its memory.
pub fn first_bytes(buf: &RingBuf, n: usize) -> (r: Vec<u8>)
    requires
        ring(*buf).wf(),
        n <= ring(*buf).unread.len(),
    ensures
        r@ == ring(*buf).unread.take(n as int),
{
    let mut bytes: Vec<u8> = Vec::new();
    let window = ring_window(buf);
    if n <= window.len() {
        bytes.extend_from_slice(slice_subrange(window, 0, n));
    } else {
        let seen = window.len();
        bytes.extend_from_slice(window);
        let mut rest = ring_clone(buf);
        ring_advance(&mut rest, seen);
        proof {
            lemma_two_windows(ring(*buf));
        }
        bytes.extend_from_slice(slice_subrange(ring_window(&rest), 0, n - seen));
    }
    assert(bytes@ =~= ring(*buf).unread.take(n as int));
    bytes
}

/// `ByteBuf` of bytes: a buffer that is read from.
#[verifier::external_type_specification]
#[verifier::external_body]
pub struct ExByteBuf(ByteBuf);

/// `MutByteBuf` of bytes: a buffer that is written to.
#[verifier::external_type_specification]
#[verifier::external_body]
pub struct ExMutByteBuf(MutByteBuf);

/// The bytes that are in a buffer and have not been read.
pub uninterp spec fn byte_buf_unread(buf: ByteBuf) -> Seq<u8>;

/// The bytes that have been written to a buffer.
pub uninterp spec fn byte_buf_written(buf: MutByteBuf) -> Seq<u8>;

/// How many bytes a buffer was made for.
pub uninterp spec fn byte_buf_capacity(buf: MutByteBuf) -> nat;

/// `ByteBuf::mut_with_capacity` of bytes: an empty buffer, of the smallest
/// power of two that is not below `capacity`.
#[verifier::external_body]
pub(crate) fn byte_buf_new(capacity: usize) -> (r: MutByteBuf)
    requires
        0 < capacity <= 0x4000_0000,
    ensures
        byte_buf_written(r) == Seq::<u8>::empty(),
        byte_buf_capacity(r) == next_power_of_two(capacity as nat),
{
    ByteBuf::mut_with_capacity(capacity)
}

/// `MutByteBuf::write_slice` of bytes: puts `bytes` behind what was written, as
/// far as there is room.
#[verifier::external_body]
pub(crate) fn byte_buf_write(buf: &mut MutByteBuf, bytes: &[u8])
    requires
        bytes@.len() <= u32::MAX,
    ensures
        byte_buf_capacity(*final(buf)) == byte_buf_capacity(*old(buf)),
        byte_buf_written(*final(buf)) == byte_buf_written(*old(buf)) + bytes@.take(
            smaller(
                bytes@.len() as int,
                byte_buf_capacity(*old(buf)) - byte_buf_written(*old(buf)).len(),
            ),
        ),
{
    buf.write_slice(bytes);
}

/// `MutByteBuf::flip` of bytes: what was written can be read.
#[verifier::external_body]
pub(crate) fn byte_buf_flip(buf: MutByteBuf) -> (r: ByteBuf)
    ensures
        byte_buf_unread(r) == byte_buf_written(buf),
{
    buf.flip()
}

/// `Buf::remaining` of a `ByteBuf`: how many bytes have not been read.
#[verifier::external_body]
pub(crate) fn byte_buf_len(buf: &ByteBuf) -> (r: usize)
    ensures
        r == byte_buf_unread(*buf).len(),
{
    Buf::remaining(buf)
}

/// `Buf::bytes` of a `ByteBuf`: the bytes that have not been read. A buffer that
/// has never held any may have no memory to look at.
#[verifier::external_body]
pub(crate) fn byte_buf_bytes(buf: &ByteBuf) -> (r: &[u8])
    requires
        byte_buf_unread(*buf).len() > 0,
    ensures
        r@ == byte_buf_unread(*buf),
{
    Buf::bytes(buf)
}

/// `Buf::advance` of a `ByteBuf`: drops unread bytes, `n` of them or all.
#[verifier::external_body]
pub(crate) fn byte_buf_advance(buf: &mut ByteBuf, n: usize)
    ensures
        byte_buf_unread(*final(buf)) == byte_buf_unread(*old(buf)).skip(
            smaller(n as int, byte_buf_unread(*old(buf)).len() as int),
        ),
{
    Buf::advance(buf, n)
}

} // verus!
