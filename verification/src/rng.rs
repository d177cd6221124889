//! The solver's only source of randomness.

use vstd::prelude::*;

verus! {

/// Relies on rand::Rng::gen_range over the range 0..n: the sample lies in
/// that range, and the range is non-empty so the call does not panic.
/// Nothing is assumed about the distribution or about repeated calls.
#[verifier::external_body]
pub fn rand_below(n: usize) -> (r: usize)
    requires
        n >= 1,
    ensures
        r < n,
{
    rand::Rng::gen_range(&mut rand::thread_rng(), 0..n)
}

} // verus!
