use vstd::prelude::*;
use rand::RngExt;

verus! {

/// Relies on rand::RngExt::random_range over `0..n`: the sample is drawn
/// uniformly from that range, which is non-empty because `n >= 1`, so the
/// result is below `n`. Which value comes back is left open.
#[verifier::external_body]
pub(crate) fn random_below(n: usize) -> (r: usize)
    requires
        1 <= n,
    ensures
        r < n,
{
    rand::rng().random_range(0..n)
}

/// Relies on rand::RngExt::random for bool: a fair coin flip. Nothing is
/// promised of the outcome.
#[verifier::external_body]
pub(crate) fn random_coin() -> bool {
    rand::rng().random()
}

} // verus!
