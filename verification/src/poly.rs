//! Polynomials over the field, as the schemes see them: evaluation as a
//! mathematical sum of monomials, and the shape of a freshly drawn
//! coefficient vector.

use vstd::prelude::*;
use vstd::arithmetic::power::pow;
use crate::arith::{is_mod_inverse, mod_inverse, spec_gcd};

verus! {

/// The sum of the first `k` monomials of the polynomial with the given
/// coefficients, evaluated at `x`: `c[0] + c[1]*x + ... + c[k-1]*x^(k-1)`.
pub open spec fn poly_eval_prefix(coeffs: Seq<i128>, x: int, k: int) -> int
    decreases k,
{
    if k <= 0 {
        0
    } else {
        poly_eval_prefix(coeffs, x, k - 1) + coeffs[k - 1] * pow(x, (k - 1) as nat)
    }
}

/// The full polynomial value at `x`, before any reduction.
pub open spec fn poly_eval(coeffs: Seq<i128>, x: int) -> int {
    poly_eval_prefix(coeffs, x, coeffs.len() as int)
}

/// A coefficient vector as generation draws it: `threshold` entries, the
/// secret first, every later coefficient drawn from `[lo, p)`.
pub open spec fn coeffs_for(c: Seq<i128>, secret: i128, threshold: i128, lo: i128, p: i128) -> bool {
    &&& c.len() == threshold
    &&& c[0] == secret
    &&& forall|i: int| 1 <= i < c.len() ==> lo <= #[trigger] c[i] < p
}

/// Every share `(x, y)` in the sequence sits on the polynomial: the index
/// of the `k`-th share is `k + 1` and its value is the reduced evaluation.
pub open spec fn shares_on_poly(shares: Seq<(i128, i128)>, c: Seq<i128>, p: int) -> bool {
    forall|k: int| 0 <= k < shares.len() ==> #[trigger] shares[k] == (
        (k + 1) as i128,
        (poly_eval(c, k + 1) % p) as i128,
    )
}

/// The pairwise difference of the `i`-th and `j`-th share indices has a
/// multiplicative inverse modulo `p`.
pub open spec fn pair_invertible(shares: Seq<(i128, i128)>, i: int, j: int, p: int) -> bool {
    spec_gcd(p as nat, ((shares[i].0 - shares[j].0) % p) as nat) == 1
}

/// The canonical inverse of the reduced difference of the `i`-th and
/// `j`-th share indices really is an inverse.
pub open spec fn diff_invertible(shares: Seq<(i128, i128)>, i: int, j: int, p: int) -> bool {
    is_mod_inverse(
        (shares[i].0 - shares[j].0) % p,
        mod_inverse((shares[i].0 - shares[j].0) % p, p),
        p,
    )
}

/// Every ordered pair of distinct positions has an invertible index
/// difference; under a prime modulus this just says the indices are
/// pairwise distinct modulo `p`.
pub open spec fn all_diffs_invertible(shares: Seq<(i128, i128)>, p: int) -> bool {
    forall|i: int, j: int|
        0 <= i < shares.len() && 0 <= j < shares.len() && i != j ==> #[trigger] pair_invertible(
            shares,
            i,
            j,
            p,
        )
}

} // verus!
