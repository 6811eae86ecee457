//! The library's single source of randomness, behind a trusted wrapper.

use vstd::prelude::*;

verus! {

/// Relies on rand::random_range over the range 0..n: the sampled value is
/// uniformly distributed in that range, so it is always below n. The
/// range is nonempty by the precondition, so the call cannot panic.
#[verifier::external_body]
pub(crate) fn random_below(n: usize) -> (r: usize)
    requires
        1 <= n,
    ensures
        r < n,
{
    rand::random_range(0..n)
}

} // verus!
