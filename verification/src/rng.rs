use vstd::prelude::*;

verus! {

/// Relies on rand::RngExt::random_range over the thread-local generator
/// rand::rng(): the result of sampling `0..n` lies in that range, so below
/// `n`. The call panics only on an empty range, which `n > 0` rules out.
/// Nothing more is assumed of the draw: callers are verified for every
/// value below `n`.
#[verifier::external_body]
pub(crate) fn rand_below(n: usize) -> (r: usize)
    requires
        n > 0,
    ensures
        r < n,
{
    rand::RngExt::random_range(&mut rand::rng(), 0..n)
}

} // verus!
