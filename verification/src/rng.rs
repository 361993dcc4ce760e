//! The one source of randomness the library consumes.
//!
//! Spatial sampling is fully deterministic; only palette picks and decoration
//! candidate draws consume randomness, and they take it from here. Nothing is
//! assumed about which value comes back beyond its range.

use vstd::prelude::*;

verus! {

/// Relies on rand::random_range over `0..n`: the result is uniform in the
/// range, and the call panics only on an empty range, which the
/// precondition rules out. Nothing else is assumed of the value.
#[verifier::external_body]
pub fn random_below(n: u64) -> (r: u64)
    requires
        n > 0,
    ensures
        r < n,
{
    rand::random_range(0..n)
}

} // verus!
