//! SHA-1.
use crypto::digest::Digest;
use crypto::sha1::Sha1;
use vstd::prelude::*;

verus! {

/// What `Sha1` of rust-crypto gives for a message: its SHA-1 digest.
pub uninterp spec fn sha1_digest(message: Seq<u8>) -> Seq<u8>;

/// `Sha1::input` and `Sha1::result` of rust-crypto: the 20 bytes of the digest
/// of `message`. The hasher counts bits in 64 bits, so a message has to be
/// shorter than 2^61 bytes.
#[verifier::external_body]
pub(crate) fn sha1(message: &[u8]) -> (r: Vec<u8>)
    requires
        message@.len() < 0x2000_0000_0000_0000,
    ensures
        r@ == sha1_digest(message@),
        r@.len() == 20,
{
    let mut hasher = Sha1::new();
    hasher.input(message);
    let mut digest = vec![0; 20];
    hasher.result(&mut digest[..]);
    digest
}

} // verus!
