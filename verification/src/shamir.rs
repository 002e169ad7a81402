//! Shamir's threshold secret sharing: a random degree-(t-1) polynomial
//! with the secret as constant term, one share per index `1..=n`, and
//! reconstruction of `f(0)` by Lagrange interpolation.

use vstd::prelude::*;
use vstd::arithmetic::div_mod::{
    lemma_add_mod_noop, lemma_small_mod, lemma_mul_mod_noop_left,
    lemma_mul_mod_noop_right,
};
use vstd::arithmetic::mul::{lemma_mul_is_associative, lemma_mul_is_commutative};
use vstd::arithmetic::power::{lemma_pow0, pow};
use crate::arith::{
    is_mod_inverse, lemma_inverse_of_negation, lemma_mod_inverse_of, lemma_neg_mod, mod_inverse,
    modulus_in_range,
};
use crate::errors::SssError;
use crate::poly::{all_diffs_invertible, coeffs_for, pair_invertible, poly_eval, poly_eval_prefix, shares_on_poly};
use crate::rng::random_in_range;
use crate::utils::{mod_add, mod_inv, mod_mul, mod_sub};

verus! {

/// The fixed prime modulus of this scheme's field.
pub const SHAMIR_MODULUS: i128 = 2147483647;

/// The Lagrange basis weight of the `i`-th share at `x == 0`, accumulated
/// over the first `k` shares: the factor for `j != i` is
/// `x_j * (x_j - x_i)^-1`, each difference inverted on its own.
pub open spec fn lagrange_weight(shares: Seq<(i128, i128)>, i: int, p: int, k: int) -> int
    decreases k,
{
    if k <= 0 {
        1
    } else if k - 1 == i {
        lagrange_weight(shares, i, p, k - 1)
    } else {
        lagrange_weight(shares, i, p, k - 1) * shares[k - 1].0 * mod_inverse(
            (shares[k - 1].0 - shares[i].0) % p,
            p,
        )
    }
}

/// The interpolated value at `x == 0` over the first `k` shares, before
/// the final reduction: the sum of `y_i` times the `i`-th full weight.
pub open spec fn lagrange_sum(shares: Seq<(i128, i128)>, p: int, k: int) -> int
    decreases k,
{
    if k <= 0 {
        0
    } else {
        lagrange_sum(shares, p, k - 1) + shares[k - 1].1 * lagrange_weight(
            shares,
            k - 1,
            p,
            shares.len() as int,
        )
    }
}

/// The `t == n == 1` edge case: interpolating from a single share returns
/// the share's value — for a degree-0 polynomial, the secret itself.
pub proof fn lemma_single_share_interpolates(shares: Seq<(i128, i128)>, p: int)
    requires
        1 < p,
        shares.len() == 1,
        0 <= shares[0].1 < p,
    ensures
        lagrange_sum(shares, p, 1) % p == shares[0].1,
{
    assert(lagrange_weight(shares, 0, p, 0) == 1);
    assert(lagrange_weight(shares, 0, p, 1) == 1);
    assert(lagrange_sum(shares, p, 0) == 0);
    assert(lagrange_sum(shares, p, 1) == shares[0].1 as int);
    lemma_small_mod(shares[0].1 as nat, p as nat);
}

/// The quorum-of-two case of reconstruction recovering the secret:
/// interpolating through two shares of a degree-one polynomial returns
/// its constant term exactly, whenever the index difference is
/// invertible.
pub proof fn lemma_two_shares_interpolate(shares: Seq<(i128, i128)>, coeffs: Seq<i128>, p: int)
    requires
        1 < p,
        shares.len() == 2,
        coeffs.len() == 2,
        0 <= coeffs[0] < p,
        shares[0].1 as int == poly_eval(coeffs, shares[0].0 as int) % p,
        shares[1].1 as int == poly_eval(coeffs, shares[1].0 as int) % p,
        is_mod_inverse(
            (shares[1].0 - shares[0].0) % p,
            mod_inverse((shares[1].0 - shares[0].0) % p, p),
            p,
        ),
    ensures
        lagrange_sum(shares, p, 2) % p == coeffs[0],
{
    let x0: int = shares[0].0 as int;
    let x1: int = shares[1].0 as int;
    let y0: int = shares[0].1 as int;
    let y1: int = shares[1].1 as int;
    let c0: int = coeffs[0] as int;
    let c1: int = coeffs[1] as int;
    let d = x1 - x0;
    let u = mod_inverse(d % p, p);
    // The polynomial value at each index is `c0 + c1 * x`.
    assert(pow(x0, 0) == 1 && pow(x1, 0) == 1) by {
        lemma_pow0(x0);
        lemma_pow0(x1);
    }
    assert(pow(x0, 1) == x0 && pow(x1, 1) == x1) by {
        vstd::arithmetic::power::lemma_pow1(x0);
        vstd::arithmetic::power::lemma_pow1(x1);
    }
    assert(poly_eval_prefix(coeffs, x0, 0) == 0 && poly_eval_prefix(coeffs, x1, 0) == 0);
    assert(poly_eval_prefix(coeffs, x0, 1) == c0 && poly_eval_prefix(coeffs, x1, 1) == c0);
    assert(poly_eval(coeffs, x0) == c0 + c1 * x0);
    assert(poly_eval(coeffs, x1) == c0 + c1 * x1);
    // The second weight's inverse is the negation of the first's.
    lemma_inverse_of_negation(d % p, u, p);
    lemma_neg_mod(d, p);
    assert((x0 - x1) % p == (-(d % p)) % p);
    let v = mod_inverse((x0 - x1) % p, p);
    assert(v == (-u) % p);
    // Unfold the two weights and the sum.
    assert(lagrange_weight(shares, 0, p, 0) == 1);
    assert(lagrange_weight(shares, 0, p, 1) == 1);
    assert(lagrange_weight(shares, 0, p, 2) == (1 * shares[1].0) * u);
    assert(lagrange_weight(shares, 1, p, 0) == 1);
    assert(lagrange_weight(shares, 1, p, 1) == (1 * shares[0].0) * v);
    assert(lagrange_weight(shares, 1, p, 2) == (1 * shares[0].0) * v);
    assert(lagrange_sum(shares, p, 0) == 0);
    let a = y0 * ((1 * shares[1].0) * u);
    let b = y1 * ((1 * shares[0].0) * v);
    assert(lagrange_sum(shares, p, 1) == a);
    assert(lagrange_sum(shares, p, 2) == a + b);
    // Replace each reduced value by what it reduces, factor by factor.
    vstd::arithmetic::div_mod::lemma_mod_bound(c0 + c1 * x0, p);
    vstd::arithmetic::div_mod::lemma_mod_bound(c0 + c1 * x1, p);
    vstd::arithmetic::div_mod::lemma_mod_bound(-u, p);
    lemma_small_mod(y0 as nat, p as nat);
    lemma_small_mod(y1 as nat, p as nat);
    lemma_small_mod(v as nat, p as nat);
    crate::arith::lemma_mul_mod_congruence(y0, x1 * u, c0 + c1 * x0, x1 * u, p);
    assert(a % p == ((c0 + c1 * x0) * (x1 * u)) % p);
    crate::arith::lemma_mul_mod_congruence(x0, v, x0, -u, p);
    crate::arith::lemma_mul_mod_congruence(y1, x0 * v, c0 + c1 * x1, x0 * (-u), p);
    assert(b % p == ((c0 + c1 * x1) * (x0 * (-u))) % p);
    lemma_add_mod_noop(a, b, p);
    lemma_add_mod_noop((c0 + c1 * x0) * (x1 * u), (c0 + c1 * x1) * (x0 * (-u)), p);
    assert(lagrange_sum(shares, p, 2) % p == ((c0 + c1 * x0) * (x1 * u) + (c0 + c1 * x1) * (x0 * (
    -u))) % p);
    // The cross terms cancel, leaving the constant term times `d * u == 1`.
    assert((c0 + c1 * x0) * (x1 * u) + (c0 + c1 * x1) * (x0 * (-u)) == c0 * ((x1 - x0) * u))
        by (nonlinear_arith);
    lemma_mul_mod_noop_right(c0, (x1 - x0) * u, p);
    lemma_mul_mod_noop_left(x1 - x0, u, p);
    assert(((x1 - x0) * u) % p == 1int % p);
    lemma_mul_mod_noop_right(c0, 1, p);
    lemma_small_mod(c0 as nat, p as nat);
    assert((c0 * ((x1 - x0) * u)) % p == c0);
}

pub struct ShamirSecretSharing {
    pub secret: i128,
    pub total_shares: i128,
    pub threshold: i128,
    pub shares: Vec<(i128, i128)>,
    pub p: i128,
}

impl ShamirSecretSharing {
    /// A usable configuration: a positive threshold no larger than the
    /// share count, and a secret inside the field.
    pub open spec fn wf(self) -> bool {
        &&& 1 <= self.threshold <= self.total_shares
        &&& 0 <= self.secret < self.p
        &&& 1 < self.p
        &&& modulus_in_range(self.p as int)
    }

    /// Builds a scheme over the fixed prime, rejecting any configuration
    /// that breaks the data model instead of clamping it.
    pub fn init(secret: i128, total_shares: i128, threshold: i128) -> (r: Result<
        Self,
        SssError,
    >)
        ensures
            match r {
                Ok(s) => {
                    &&& 1 <= threshold <= total_shares
                    &&& 0 <= secret < SHAMIR_MODULUS
                    &&& s.secret == secret
                    &&& s.total_shares == total_shares
                    &&& s.threshold == threshold
                    &&& s.p == SHAMIR_MODULUS
                    &&& s.shares@.len() == 0
                    &&& s.wf()
                },
                Err(e) => {
                    &&& e == SssError::Configuration
                    &&& !(1 <= threshold <= total_shares && 0 <= secret < SHAMIR_MODULUS)
                },
            },
    {
        if threshold > total_shares || threshold < 1 || secret < 0 || secret >= SHAMIR_MODULUS {
            return Err(SssError::Configuration);
        }
        Ok(ShamirSecretSharing {
            secret,
            total_shares,
            threshold,
            shares: Vec::new(),
            p: SHAMIR_MODULUS,
        })
    }

    /// Evaluates the polynomial with the given coefficients at `x`, by
    /// accumulating reduced monomials; the result is the reduced value of
    /// the mathematical polynomial.
    pub fn calculate_y(&self, x: i128, coefficients: &Vec<i128>) -> (y: i128)
        requires
            self.wf(),
        ensures
            y as int == poly_eval(coefficients@, x as int) % (self.p as int),
            0 <= y < self.p,
    {
        let ghost pp = self.p as int;
        let ghost xx = x as int;
        let mut y: i128 = 0;
        let mut x_power: i128 = 1;
        let mut i: usize = 0;
        proof {
            lemma_small_mod(0, self.p as nat);
            lemma_small_mod(1, self.p as nat);
            lemma_pow0(xx);
        }
        while i < coefficients.len()
            invariant
                self.wf(),
                pp == self.p as int,
                xx == x as int,
                0 <= i <= coefficients@.len(),
                0 <= y < self.p,
                0 <= x_power < self.p,
                y as int == poly_eval_prefix(coefficients@, xx, i as int) % pp,
                x_power as int == pow(xx, i as nat) % pp,
            decreases coefficients@.len() - i,
        {
            let ghost y0 = y as int;
            let ghost xp0 = x_power as int;
            let coeff = coefficients[i];
            let term = mod_mul(coeff, x_power, self.p);
            y = mod_add(y, term, self.p);
            x_power = mod_mul(x_power, x, self.p);
            proof {
                lemma_mul_mod_noop_right(coeff as int, pow(xx, i as nat), pp);
                assert(term as int == (coeff as int * pow(xx, i as nat)) % pp);
                lemma_add_mod_noop(
                    poly_eval_prefix(coefficients@, xx, i as int),
                    coeff as int * pow(xx, i as nat),
                    pp,
                );
                lemma_small_mod(term as nat, self.p as nat);
                assert(y as int == poly_eval_prefix(coefficients@, xx, i as int + 1) % pp);
                lemma_mul_mod_noop_left(pow(xx, i as nat), xx, pp);
                lemma_mul_is_commutative(pow(xx, i as nat), xx);
                assert(pow(xx, (i + 1) as nat) == pow(xx, i as nat) * xx) by {
                    vstd::arithmetic::power::lemma_pow_adds(xx, i as nat, 1);
                    vstd::arithmetic::power::lemma_pow1(xx);
                }
                assert(x_power as int == pow(xx, (i + 1) as nat) % pp);
            }
            i = i + 1;
        }
        y
    }

    /// Draws `t - 1` fresh random coefficients from `[1, p)`, places the
    /// secret as the constant term, evaluates the polynomial at `1..=n`,
    /// and caches the resulting shares. Exactly `n` shares come back, with
    /// pairwise distinct indices `1..=n`, and all of them sit on one
    /// polynomial whose constant term is the secret.
    pub fn generate_shares(&mut self) -> (shares: Vec<(i128, i128)>)
        requires
            old(self).wf(),
            old(self).total_shares < i128::MAX,
        ensures
            final(self).secret == old(self).secret,
            final(self).total_shares == old(self).total_shares,
            final(self).threshold == old(self).threshold,
            final(self).p == old(self).p,
            final(self).wf(),
            final(self).shares@ == shares@,
            shares@.len() == old(self).total_shares as int,
            forall|k: int| 0 <= k < shares@.len() ==> (#[trigger] shares@[k]).0 == k + 1,
            forall|k1: int, k2: int|
                0 <= k1 < k2 < shares@.len() ==> (#[trigger] shares@[k1]).0 != (
                #[trigger] shares@[k2]).0,
            exists|c: Seq<i128>|
                coeffs_for(c, old(self).secret, old(self).threshold, 1, old(self).p)
                    && shares_on_poly(shares@, c, old(self).p as int),
    {
        let mut coefficients: Vec<i128> = Vec::new();
        coefficients.push(self.secret);
        let mut i: i128 = 1;
        while i < self.threshold
            invariant
                self.wf(),
                1 <= i <= self.threshold,
                coefficients@.len() == i,
                coefficients@[0] == self.secret,
                forall|j: int| 1 <= j < i ==> 1 <= #[trigger] coefficients@[j] < self.p,
            decreases self.threshold - i,
        {
            let coeff = random_in_range(1, self.p);
            coefficients.push(coeff);
            i = i + 1;
        }
        let mut shares: Vec<(i128, i128)> = Vec::new();
        let mut x: i128 = 1;
        while x <= self.total_shares
            invariant
                self.wf(),
                self.total_shares < i128::MAX,
                1 <= x <= self.total_shares + 1,
                shares@.len() == x - 1,
                forall|k: int|
                    0 <= k < shares@.len() ==> #[trigger] shares@[k] == (
                        (k + 1) as i128,
                        (poly_eval(coefficients@, k + 1) % (self.p as int)) as i128,
                    ),
            decreases self.total_shares - x + 1,
        {
            let y = self.calculate_y(x, &coefficients);
            shares.push((x, y));
            x = x + 1;
        }
        let mut cache: Vec<(i128, i128)> = Vec::new();
        let mut j: usize = 0;
        while j < shares.len()
            invariant
                0 <= j <= shares@.len(),
                cache@.len() == j,
                forall|k: int| 0 <= k < j ==> #[trigger] cache@[k] == shares@[k],
            decreases shares@.len() - j,
        {
            cache.push(shares[j]);
            j = j + 1;
        }
        proof {
            assert(cache@ =~= shares@);
        }
        self.shares = cache;
        proof {
            assert(shares_on_poly(shares@, coefficients@, self.p as int));
            assert(coeffs_for(coefficients@, self.secret, self.threshold, 1, self.p));
        }
        shares
    }

    /// Lagrange interpolation of `f(0)` from the given shares: the exact
    /// interpolated value, for every quorum size and order. Fails with
    /// `InsufficientShares` exactly when fewer than `threshold` shares are
    /// given; otherwise succeeds exactly when every pairwise index
    /// difference is invertible, and then returns the reduced interpolated
    /// sum. Deterministic, and mutates nothing.
    pub fn reconstruct_secret(&self, shares: &Vec<(i128, i128)>) -> (r: Result<i128, SssError>)
        requires
            self.wf(),
        ensures
            match r {
                Ok(v) => {
                    &&& shares@.len() >= self.threshold
                    &&& all_diffs_invertible(shares@, self.p as int)
                    &&& v as int == lagrange_sum(shares@, self.p as int, shares@.len() as int) % (
                    self.p as int)
                    &&& 0 <= v < self.p
                },
                Err(e) => {
                    ||| (shares@.len() < self.threshold && e == SssError::InsufficientShares)
                    ||| (shares@.len() >= self.threshold && !all_diffs_invertible(
                        shares@,
                        self.p as int,
                    ) && e == SssError::NoInverse)
                },
            },
    {
        if (shares.len() as i128) < self.threshold {
            return Err(SssError::InsufficientShares);
        }
        let ghost pp = self.p as int;
        let n = shares.len();
        let mut secret: i128 = 0;
        let mut i: usize = 0;
        proof {
            lemma_small_mod(0, self.p as nat);
        }
        while i < n
            invariant
                self.wf(),
                pp == self.p as int,
                n == shares@.len(),
                n >= self.threshold,
                0 <= i <= n,
                0 <= secret < self.p,
                secret as int == lagrange_sum(shares@, pp, i as int) % pp,
                forall|i2: int, j2: int|
                    0 <= i2 < i && 0 <= j2 < n && i2 != j2 ==> #[trigger] pair_invertible(
                        shares@,
                        j2,
                        i2,
                        pp,
                    ),
            decreases n - i,
        {
            let (x_i, y_i) = shares[i];
            let mut term: i128 = y_i;
            let mut j: usize = 0;
            proof {
                lemma_mul_mod_noop_right(y_i as int, 1, pp);
            }
            while j < n
                invariant
                    self.wf(),
                    pp == self.p as int,
                    n == shares@.len(),
                    n >= self.threshold,
                    i < n,
                    (x_i, y_i) == shares@[i as int],
                    0 <= j <= n,
                    term as int % pp == (y_i as int * lagrange_weight(shares@, i as int, pp, j as int))
                        % pp,
                    forall|j2: int|
                        0 <= j2 < j && j2 != i ==> #[trigger] pair_invertible(
                            shares@,
                            j2,
                            i as int,
                            pp,
                        ),
                decreases n - j,
            {
                if i != j {
                    let ghost w0 = lagrange_weight(shares@, i as int, pp, j as int);
                    let ghost t0 = term as int;
                    let (x_j, _) = shares[j];
                    term = mod_mul(term, x_j, self.p);
                    let diff = mod_sub(x_j, x_i, self.p);
                    let inverse = match mod_inv(diff, self.p) {
                        Ok(inv) => inv,
                        Err(_) => {
                            proof {
                                lemma_small_mod(diff as nat, self.p as nat);
                                assert(!pair_invertible(shares@, j as int, i as int, pp));
                                assert(!all_diffs_invertible(shares@, pp));
                            }
                            return Err(SssError::NoInverse);
                        },
                    };
                    let ghost t1 = term as int;
                    term = mod_mul(term, inverse, self.p);
                    proof {
                        lemma_mod_inverse_of(diff as int, inverse as int, pp);
                        assert(mod_inverse((x_j - x_i) % pp, pp) == inverse as int);
                        let yw = y_i as int * w0;
                        lemma_mul_mod_noop_left(t0, x_j as int, pp);
                        lemma_mul_mod_noop_left(yw, x_j as int, pp);
                        assert(t1 == (yw * x_j) % pp);
                        lemma_mul_mod_noop_left(yw * x_j, inverse as int, pp);
                        assert(term as int == ((yw * x_j) * inverse) % pp);
                        lemma_mul_is_associative(y_i as int, w0, x_j as int);
                        lemma_mul_is_associative(y_i as int, w0 * x_j, inverse as int);
                        lemma_mul_is_associative(w0, x_j as int, inverse as int);
                        assert((yw * x_j) * inverse == y_i as int * lagrange_weight(
                            shares@,
                            i as int,
                            pp,
                            j as int + 1,
                        ));
                        lemma_small_mod(term as nat, self.p as nat);
                        lemma_small_mod(diff as nat, self.p as nat);
                        assert(pair_invertible(shares@, j as int, i as int, pp));
                    }
                } else {
                    proof {
                        assert(lagrange_weight(shares@, i as int, pp, j as int + 1)
                            == lagrange_weight(shares@, i as int, pp, j as int));
                    }
                }
                j = j + 1;
            }
            let ghost s0 = secret as int;
            secret = mod_add(secret, term, self.p);
            proof {
                let ls = lagrange_sum(shares@, pp, i as int);
                let yw = y_i as int * lagrange_weight(shares@, i as int, pp, n as int);
                lemma_add_mod_noop(s0, term as int, pp);
                lemma_small_mod(s0 as nat, self.p as nat);
                lemma_add_mod_noop(ls, yw, pp);
                assert(secret as int == (ls + yw) % pp);
                assert(lagrange_sum(shares@, pp, i as int + 1) == ls + shares@[i as int].1
                    * lagrange_weight(shares@, i as int, pp, shares@.len() as int));
            }
            i = i + 1;
        }
        proof {
            assert(all_diffs_invertible(shares@, pp));
        }
        Ok(secret)
    }
}

} // verus!
