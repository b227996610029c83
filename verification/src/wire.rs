//! Numbers as they are written on the wire: the most significant byte first.
use byteorder::{BigEndian, ReadBytesExt, WriteBytesExt};
use vstd::prelude::*;

verus! {

pub open spec fn be16(n: u16) -> Seq<u8> {
    seq![(n / 256) as u8, (n % 256) as u8]
}

pub open spec fn be32(n: u32) -> Seq<u8> {
    seq![
        (n / 0x100_0000) as u8,
        (n / 0x1_0000 % 256) as u8,
        (n / 256 % 256) as u8,
        (n % 256) as u8,
    ]
}

pub open spec fn be64(n: u64) -> Seq<u8> {
    be32((n / 0x1_0000_0000) as u32) + be32((n % 0x1_0000_0000) as u32)
}

/// The number that the two bytes at `pos` write.
pub open spec fn u16_at(bytes: Seq<u8>, pos: int) -> u16 {
    (bytes[pos] * 256 + bytes[pos + 1]) as u16
}

/// The number that the four bytes at `pos` write.
pub open spec fn u32_at(bytes: Seq<u8>, pos: int) -> u32 {
    (bytes[pos] * 0x100_0000 + bytes[pos + 1] * 0x1_0000 + bytes[pos + 2] * 256 + bytes[pos
        + 3]) as u32
}

/// The number that the eight bytes at `pos` write.
pub open spec fn u64_at(bytes: Seq<u8>, pos: int) -> u64 {
    (u32_at(bytes, pos) * 0x1_0000_0000 + u32_at(bytes, pos + 4)) as u64
}

/// The low 32 bits of a number.
pub fn low_word(n: u64) -> (r: u32)
    ensures
        r == n % 0x1_0000_0000,
{
    assert(n as u32 == n % 0x1_0000_0000u64) by (bit_vector);
    n as u32
}

/// The low 16 bits of a number.
pub fn low_half(n: u32) -> (r: u16)
    ensures
        r == n % 0x1_0000,
{
    assert(n as u16 == n % 0x1_0000u32) by (bit_vector);
    n as u16
}

/// What is written is what is read.
pub proof fn lemma_u32_round_trip(n: u32)
    ensures
        be32(n).len() == 4,
        u32_at(be32(n), 0) == n,
{
}

/// What was written somewhere is read there.
pub proof fn lemma_u32_at(bytes: Seq<u8>, pos: int, n: u32)
    requires
        0 <= pos,
        pos + 4 <= bytes.len(),
        bytes.subrange(pos, pos + 4) == be32(n),
    ensures
        u32_at(bytes, pos) == n,
{
    let part = bytes.subrange(pos, pos + 4);
    assert(part[0] == bytes[pos]);
    assert(part[1] == bytes[pos + 1]);
    assert(part[2] == bytes[pos + 2]);
    assert(part[3] == bytes[pos + 3]);
    lemma_u32_round_trip(n);
}

/// Numbers of all three sizes are read as they were written.
pub proof fn law_numbers_are_read_back(small: u16, middle: u32, large: u64)
    ensures
        be16(small).len() == 2 && u16_at(be16(small), 0) == small,
        be32(middle).len() == 4 && u32_at(be32(middle), 0) == middle,
        be64(large).len() == 8 && u64_at(be64(large), 0) == large,
{
    let high = (large / 0x1_0000_0000) as u32;
    let low = (large % 0x1_0000_0000) as u32;
    lemma_u32_round_trip(middle);
    lemma_u32_round_trip(high);
    lemma_u32_round_trip(low);
    assert(u32_at(be64(large), 0) == u32_at(be32(high), 0));
    assert(u32_at(be64(large), 4) == u32_at(be32(low), 0));
}

/// `WriteBytesExt::write_u16` of byteorder on a `Vec`: it puts the two bytes
/// of `n` behind what is there, and cannot fail there.
#[verifier::external_body]
pub(crate) fn push_u16(out: &mut Vec<u8>, n: u16)
    ensures
        final(out)@ == old(out)@ + be16(n),
{
    out.write_u16::<BigEndian>(n).unwrap();
}

/// `WriteBytesExt::write_u32` of byteorder on a `Vec`: it puts the four bytes
/// of `n` behind what is there, and cannot fail there.
#[verifier::external_body]
pub(crate) fn push_u32(out: &mut Vec<u8>, n: u32)
    ensures
        final(out)@ == old(out)@ + be32(n),
{
    out.write_u32::<BigEndian>(n).unwrap();
}

/// `WriteBytesExt::write_u64` of byteorder on a `Vec`: it puts the eight bytes
/// of `n` behind what is there, and cannot fail there.
#[verifier::external_body]
pub(crate) fn push_u64(out: &mut Vec<u8>, n: u64)
    ensures
        final(out)@ == old(out)@ + be64(n),
{
    out.write_u64::<BigEndian>(n).unwrap();
}

/// `ReadBytesExt::read_u16` of byteorder on a slice: the number that its first
/// two bytes write. A shorter slice would be an error.
#[verifier::external_body]
pub(crate) fn first_u16(bytes: &[u8]) -> (r: u16)
    requires
        bytes@.len() >= 2,
    ensures
        r == u16_at(bytes@, 0),
{
    let mut reader = bytes;
    reader.read_u16::<BigEndian>().unwrap()
}

/// `ReadBytesExt::read_u32` of byteorder on a slice: the number that its first
/// four bytes write. A shorter slice would be an error.
#[verifier::external_body]
pub(crate) fn first_u32(bytes: &[u8]) -> (r: u32)
    requires
        bytes@.len() >= 4,
    ensures
        r == u32_at(bytes@, 0),
{
    let mut reader = bytes;
    reader.read_u32::<BigEndian>().unwrap()
}

/// `ReadBytesExt::read_u64` of byteorder on a slice: the number that its first
/// eight bytes write. A shorter slice would be an error.
#[verifier::external_body]
pub(crate) fn first_u64(bytes: &[u8]) -> (r: u64)
    requires
        bytes@.len() >= 8,
    ensures
        r == u64_at(bytes@, 0),
{
    let mut reader = bytes;
    reader.read_u64::<BigEndian>().unwrap()
}

} // verus!
