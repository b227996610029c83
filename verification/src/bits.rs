//! Bit vectors.
use bit_vec::BitVec;
use vstd::prelude::*;

verus! {

/// `BitVec` of bit-vec.
#[verifier::external_type_specification]
#[verifier::external_body]
#[verifier::reject_recursive_types(B)]
pub struct ExBitVec<B>(BitVec<B>);

/// The bits of a bit vector.
pub uninterp spec fn bit_values(bits: BitVec) -> Seq<bool>;

/// What the `k`th place from the left of a byte counts.
pub open spec fn place_value(k: int) -> int {
    if k == 0 {
        128
    } else if k == 1 {
        64
    } else if k == 2 {
        32
    } else if k == 3 {
        16
    } else if k == 4 {
        8
    } else if k == 5 {
        4
    } else if k == 6 {
        2
    } else {
        1
    }
}

/// What a bit in that place counts.
pub open spec fn bit_weight(bit: bool, k: int) -> int {
    if bit {
        place_value(k)
    } else {
        0
    }
}

/// The bit at `i`, where there is one.
pub open spec fn bit_or_zero(bits: Seq<bool>, i: int) -> bool {
    0 <= i < bits.len() && bits[i]
}

/// The byte that holds the eight bits from `start` on, the first one highest.
/// Bits past the end are zero.
pub open spec fn packed_byte(bits: Seq<bool>, start: int) -> u8 {
    (bit_weight(bit_or_zero(bits, start), 0) + bit_weight(bit_or_zero(bits, start + 1), 1)
        + bit_weight(bit_or_zero(bits, start + 2), 2) + bit_weight(bit_or_zero(bits, start + 3), 3)
        + bit_weight(bit_or_zero(bits, start + 4), 4) + bit_weight(bit_or_zero(bits, start + 5), 5)
        + bit_weight(bit_or_zero(bits, start + 6), 6) + bit_weight(
        bit_or_zero(bits, start + 7),
        7,
    )) as u8
}

/// The bits eight to a byte; the last byte is filled up with zeros.
pub open spec fn packed(bits: Seq<bool>) -> Seq<u8> {
    Seq::new((bits.len() + 7) as nat / 8, |i: int| packed_byte(bits, 8 * i))
}

/// `BitVec::from_elem` of bit-vec: `len` bits, all of them `bit`.
#[verifier::external_body]
pub(crate) fn bits_new(len: usize, bit: bool) -> (r: BitVec)
    requires
        len <= u32::MAX,
    ensures
        bit_values(r) == Seq::new(len as nat, |i: int| bit),
{
    BitVec::from_elem(len, bit)
}

/// `BitVec::clone` of bit-vec: the same bits.
#[verifier::external_body]
pub(crate) fn bits_clone(bits: &BitVec) -> (r: BitVec)
    ensures
        bit_values(r) == bit_values(*bits),
{
    bits.clone()
}

/// `BitVec::negate` of bit-vec: turns every bit.
#[verifier::external_body]
pub(crate) fn bits_negate(bits: &mut BitVec)
    ensures
        bit_values(*final(bits)) == bit_values(*old(bits)).map_values(|bit: bool| !bit),
{
    bits.negate()
}

/// `BitVec::len` of bit-vec.
#[verifier::external_body]
pub(crate) fn bits_len(bits: &BitVec) -> (r: usize)
    ensures
        r == bit_values(*bits).len(),
{
    bits.len()
}

/// `BitVec::get` of bit-vec: the bit at `i`, or `None` past the end.
#[verifier::external_body]
pub(crate) fn bits_get(bits: &BitVec, i: usize) -> (r: Option<bool>)
    ensures
        r == if i < bit_values(*bits).len() {
            Some(bit_values(*bits)[i as int])
        } else {
            None
        },
{
    bits.get(i)
}

/// `BitVec::set` of bit-vec: changes the bit at `i`. It panics past the end.
#[verifier::external_body]
pub(crate) fn bits_set(bits: &mut BitVec, i: usize, bit: bool)
    requires
        i < bit_values(*old(bits)).len(),
    ensures
        bit_values(*final(bits)) == bit_values(*old(bits)).update(i as int, bit),
{
    bits.set(i, bit)
}

/// `BitVec::to_bytes` of bit-vec: the bits eight to a byte, the first one in
/// the highest place of the first byte, the last byte filled up with zeros.
#[verifier::external_body]
pub(crate) fn bits_to_bytes(bits: &BitVec) -> (r: Vec<u8>)
    ensures
        r@ == packed(bit_values(*bits)),
{
    bits.to_bytes()
}

/// `==` of `BitVec` of bit-vec: whether two bit vectors hold the same bits.
#[verifier::external_body]
pub(crate) fn bits_equal(a: &BitVec, b: &BitVec) -> (r: bool)
    ensures
        r == (bit_values(*a) == bit_values(*b)),
{
    a == b
}

/// `BitVec::capacity` of bit-vec: for how many bits memory has been taken. It
/// is the allocator's business how many there are; no fewer than are in use.
/// They come in words of 32, unless there are more than can be counted.
#[verifier::external_body]
pub(crate) fn bits_capacity(bits: &BitVec) -> (r: usize)
    ensures
        r >= bit_values(*bits).len(),
        r % 32 == 0 || r == usize::MAX,
{
    bits.capacity()
}

/// The bit in the `k`th place from the left of a byte.
pub open spec fn byte_bit(byte: u8, k: int) -> bool {
    (byte as int / place_value(k)) % 2 == 1
}

/// The bits of bytes, each from its highest to its lowest.
pub open spec fn unpacked(bytes: Seq<u8>) -> Seq<bool> {
    Seq::new(8 * bytes.len(), |i: int| byte_bit(bytes[i / 8], i % 8))
}

/// The bit in the `k`th place from the left of a byte.
pub fn bit_of(byte: u8, k: u8) -> (r: bool)
    requires
        k < 8,
    ensures
        r == byte_bit(byte, k as int),
{
    let shift: u8 = 7 - k;
    assert({
        &&& shift == 7 ==> (byte >> shift) & 1u8 == (byte / 128u8) % 2u8
        &&& shift == 6 ==> (byte >> shift) & 1u8 == (byte / 64u8) % 2u8
        &&& shift == 5 ==> (byte >> shift) & 1u8 == (byte / 32u8) % 2u8
        &&& shift == 4 ==> (byte >> shift) & 1u8 == (byte / 16u8) % 2u8
        &&& shift == 3 ==> (byte >> shift) & 1u8 == (byte / 8u8) % 2u8
        &&& shift == 2 ==> (byte >> shift) & 1u8 == (byte / 4u8) % 2u8
        &&& shift == 1 ==> (byte >> shift) & 1u8 == (byte / 2u8) % 2u8
        &&& shift == 0 ==> (byte >> shift) & 1u8 == byte % 2u8
    }) by (bit_vector);
    (byte >> shift) & 1 == 1
}

spec fn zero_or_one(bit: bool) -> int {
    if bit {
        1
    } else {
        0
    }
}

proof fn lemma_packed_byte(bits: Seq<bool>, start: int, k: int)
    requires
        0 <= k < 8,
    ensures
        byte_bit(packed_byte(bits, start), k) == bit_or_zero(bits, start + k),
{
    let b0 = zero_or_one(bit_or_zero(bits, start));
    let b1 = zero_or_one(bit_or_zero(bits, start + 1));
    let b2 = zero_or_one(bit_or_zero(bits, start + 2));
    let b3 = zero_or_one(bit_or_zero(bits, start + 3));
    let b4 = zero_or_one(bit_or_zero(bits, start + 4));
    let b5 = zero_or_one(bit_or_zero(bits, start + 5));
    let b6 = zero_or_one(bit_or_zero(bits, start + 6));
    let b7 = zero_or_one(bit_or_zero(bits, start + 7));
    let sum = 128 * b0 + 64 * b1 + 32 * b2 + 16 * b3 + 8 * b4 + 4 * b5 + 2 * b6 + b7;
    assert(packed_byte(bits, start) as int == sum);
    lemma_digits(b0, b1, b2, b3, b4, b5, b6, b7, k);
}

/// The digits of a number below 256, written in base two.
proof fn lemma_digits(
    b0: int,
    b1: int,
    b2: int,
    b3: int,
    b4: int,
    b5: int,
    b6: int,
    b7: int,
    k: int,
)
    requires
        0 <= b0 <= 1,
        0 <= b1 <= 1,
        0 <= b2 <= 1,
        0 <= b3 <= 1,
        0 <= b4 <= 1,
        0 <= b5 <= 1,
        0 <= b6 <= 1,
        0 <= b7 <= 1,
        0 <= k < 8,
    ensures
        ({
            let sum = 128 * b0 + 64 * b1 + 32 * b2 + 16 * b3 + 8 * b4 + 4 * b5 + 2 * b6 + b7;
            (sum / place_value(k)) % 2 == if k == 0 {
                b0
            } else if k == 1 {
                b1
            } else if k == 2 {
                b2
            } else if k == 3 {
                b3
            } else if k == 4 {
                b4
            } else if k == 5 {
                b5
            } else if k == 6 {
                b6
            } else {
                b7
            }
        }),
{
    if k == 0 {
        lemma_digit(0, b0, 64 * b1 + 32 * b2 + 16 * b3 + 8 * b4 + 4 * b5 + 2 * b6 + b7, 128);
    } else if k == 1 {
        lemma_digit(b0, b1, 32 * b2 + 16 * b3 + 8 * b4 + 4 * b5 + 2 * b6 + b7, 64);
    } else if k == 2 {
        lemma_digit(2 * b0 + b1, b2, 16 * b3 + 8 * b4 + 4 * b5 + 2 * b6 + b7, 32);
    } else if k == 3 {
        lemma_digit(4 * b0 + 2 * b1 + b2, b3, 8 * b4 + 4 * b5 + 2 * b6 + b7, 16);
    } else if k == 4 {
        lemma_digit(8 * b0 + 4 * b1 + 2 * b2 + b3, b4, 4 * b5 + 2 * b6 + b7, 8);
    } else if k == 5 {
        lemma_digit(16 * b0 + 8 * b1 + 4 * b2 + 2 * b3 + b4, b5, 2 * b6 + b7, 4);
    } else if k == 6 {
        lemma_digit(32 * b0 + 16 * b1 + 8 * b2 + 4 * b3 + 2 * b4 + b5, b6, b7, 2);
    } else {
        lemma_digit(64 * b0 + 32 * b1 + 16 * b2 + 8 * b3 + 4 * b4 + 2 * b5 + b6, b7, 0, 1);
    }
}

proof fn lemma_digit(high: int, bit: int, low: int, place: int)
    requires
        0 <= high,
        0 <= bit <= 1,
        0 <= low < place,
    ensures
        (((2 * high + bit) * place + low) / place) % 2 == bit,
{
    let number = (2 * high + bit) * place + low;
    vstd::arithmetic::div_mod::lemma_fundamental_div_mod_converse(
        number,
        place,
        2 * high + bit,
        low,
    );
}

/// A bitfield holds the bits it was made of, and zeros behind them.
pub proof fn law_bitfield_round_trip(bits: Seq<bool>, i: int)
    requires
        0 <= i < unpacked(packed(bits)).len(),
    ensures
        unpacked(packed(bits)).len() >= bits.len(),
        unpacked(packed(bits))[i] == (i < bits.len() && bits[i]),
{
    lemma_packed_byte(bits, 8 * (i / 8), i % 8);
    assert(8 * (i / 8) + i % 8 == i);
}

} // verus!
