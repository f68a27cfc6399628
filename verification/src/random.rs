use vstd::prelude::*;

verus! {

/// `fastrand::bool`: a random boolean from the thread's generator. Nothing is stated
/// of which value comes back.
#[verifier::external_body]
pub(crate) fn random_bool() -> bool {
    fastrand::bool()
}

/// `fastrand::usize(0..n)`: a random index below `n`. The call panics on an empty
/// range, so `n` must be positive; the result lies in the range, and nothing more is
/// stated of it.
#[verifier::external_body]
pub(crate) fn random_below(n: usize) -> (r: usize)
    requires
        n > 0,
    ensures
        r < n,
{
    fastrand::usize(0..n)
}

/// `fastrand::u64(..)`: a random 64-bit number. Nothing is stated of which value comes back.
#[verifier::external_body]
pub(crate) fn random_u64() -> u64 {
    fastrand::u64(..)
}

} // verus!
