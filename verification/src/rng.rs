//! The injected source of randomness for polynomial coefficients.

use vstd::prelude::*;
use rand::Rng;

verus! {

/// Relies on `rand::Rng::gen_range` on `rand::thread_rng()`: returns a value
/// uniformly distributed in `[lo, hi)`. Nothing beyond the range is assumed:
/// every caller must be correct for any value the range admits.
#[verifier::external_body]
pub(crate) fn random_in_range(lo: i128, hi: i128) -> (r: i128)
    requires
        lo < hi,
    ensures
        lo <= r < hi,
{
    rand::thread_rng().gen_range(lo..hi)
}

} // verus!
