//! Random numbers.
use rand::Rng;
use vstd::prelude::*;

verus! {

/// `Rng::gen_range` of rand, with the generator of the thread: some number
/// below `n`. Which one is chance.
#[verifier::external_body]
pub(crate) fn below(n: usize) -> (r: usize)
    requires
        n > 0,
    ensures
        r < n,
{
    rand::thread_rng().gen_range(0, n)
}

/// `rand::random`: any byte at all.
#[verifier::external_body]
pub(crate) fn any_u8() -> (r: u8) {
    rand::random()
}

/// `rand::random`: any number at all.
#[verifier::external_body]
pub(crate) fn any_u32() -> (r: u32) {
    rand::random()
}

} // verus!
