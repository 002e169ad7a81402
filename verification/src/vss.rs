//! Feldman's verifiable secret sharing: Shamir-style share generation plus
//! a public commitment `g^c mod p` to every polynomial coefficient, a check
//! that a share sits on the committed polynomial, and Lagrange
//! reconstruction with the numerator/denominator convention.

use vstd::prelude::*;
use vstd::arithmetic::div_mod::{
    lemma_add_mod_noop, lemma_mod_bound, lemma_small_mod, lemma_mul_mod_noop_general,
    lemma_mul_mod_noop_left, lemma_mul_mod_noop_right,
};
use vstd::arithmetic::mul::{lemma_mul_is_associative, lemma_mul_is_commutative};
use vstd::arithmetic::power::{
    lemma_pow0, lemma_pow1, lemma_pow_adds, lemma_pow_mod_noop, lemma_pow_multiplies, pow,
};
use crate::arith::{
    is_mod_inverse, lemma_inverse_of_product, lemma_mod_inverse_of,
    lemma_mul_mod_congruence, mod_inverse, modulus_in_range, spec_gcd,
};
use crate::errors::SssError;
use crate::poly::{coeffs_for, diff_invertible, poly_eval, poly_eval_prefix, shares_on_poly};
use crate::shamir::{lagrange_sum, lagrange_weight};
use crate::rng::random_in_range;
use crate::utils::{mod_add, mod_inv, mod_mul, mod_pow, mod_sub};

verus! {

/// The commitments publish the reduced power of `g` for every coefficient.
pub open spec fn commitments_match(comms: Seq<i128>, c: Seq<i128>, g: i128, p: int) -> bool {
    &&& comms.len() == c.len()
    &&& forall|i: int|
        0 <= i < c.len() ==> #[trigger] comms[i] as int == pow(g as int, c[i] as nat) % p
}

/// The right-hand side of the verification equation over the first `k`
/// commitments, reduced: `comms[0] * comms[1]^x * comms[2]^(x^2) * ...`
/// modulo `p`, with each exponent the true power `x^i` of the index.
pub open spec fn verify_rhs(comms: Seq<i128>, x: int, p: int, k: int) -> int
    decreases k,
{
    if k <= 1 {
        (comms[0] as int) % p
    } else {
        (verify_rhs(comms, x, p, k - 1) * (pow(
            comms[k - 1] as int,
            pow(x, (k - 1) as nat) as nat,
        ) % p)) % p
    }
}

/// The verification equation: `g^y == comms[0] * prod comms[i]^(x^i) (mod p)`,
/// over the true powers of the share index.
pub open spec fn feldman_verify(g: i128, x: i128, y: i128, comms: Seq<i128>, p: int) -> bool {
    pow(g as int, y as nat) % p == verify_rhs(comms, x as int, p, comms.len() as int)
}

/// The Lagrange numerator for the `i`-th share over the first `k` shares:
/// the product of the other indices.
pub open spec fn fe_numerator(shares: Seq<(i128, i128)>, i: int, k: int) -> int
    decreases k,
{
    if k <= 0 {
        1
    } else if k - 1 == i {
        fe_numerator(shares, i, k - 1)
    } else {
        fe_numerator(shares, i, k - 1) * shares[k - 1].0
    }
}

/// The Lagrange denominator for the `i`-th share over the first `k`
/// shares: the product of the raw index differences `x_j - x_i`.
pub open spec fn fe_denominator(shares: Seq<(i128, i128)>, i: int, k: int) -> int
    decreases k,
{
    if k <= 0 {
        1
    } else if k - 1 == i {
        fe_denominator(shares, i, k - 1)
    } else {
        fe_denominator(shares, i, k - 1) * (shares[k - 1].0 - shares[i].0)
    }
}

/// The reduced denominator of the `i`-th share has an inverse modulo `p`.
pub open spec fn den_invertible(shares: Seq<(i128, i128)>, i: int, p: int) -> bool {
    spec_gcd(p as nat, (fe_denominator(shares, i, shares.len() as int) % p) as nat) == 1
}

/// Every share's Lagrange denominator is invertible; under a prime modulus
/// this just says the indices are pairwise distinct modulo `p`.
pub open spec fn all_dens_invertible(shares: Seq<(i128, i128)>, p: int) -> bool {
    forall|i: int| 0 <= i < shares.len() ==> #[trigger] den_invertible(shares, i, p)
}

/// The interpolated value at `x == 0` over the first `k` shares, before
/// the final reduction: each term is `y_i * numerator_i * denominator_i^-1`.
pub open spec fn fe_lagrange_sum(shares: Seq<(i128, i128)>, p: int, k: int) -> int
    decreases k,
{
    if k <= 0 {
        0
    } else {
        fe_lagrange_sum(shares, p, k - 1) + shares[k - 1].1 * fe_numerator(
            shares,
            k - 1,
            shares.len() as int,
        ) * mod_inverse(fe_denominator(shares, k - 1, shares.len() as int) % p, p)
    }
}

/// A partial polynomial evaluation with non-negative coefficients at a
/// positive point is non-negative.
proof fn lemma_prefix_nonneg(coeffs: Seq<i128>, x: int, k: int)
    requires
        1 <= x,
        forall|i: int| 0 <= i < coeffs.len() ==> 0 <= #[trigger] coeffs[i],
        0 <= k <= coeffs.len(),
    ensures
        poly_eval_prefix(coeffs, x, k) >= 0,
    decreases k,
{
    if k > 0 {
        lemma_prefix_nonneg(coeffs, x, k - 1);
        vstd::arithmetic::power::lemma_pow_positive(x, (k - 1) as nat);
        vstd::arithmetic::mul::lemma_mul_nonnegative(coeffs[k - 1] as int, pow(x, (k - 1) as nat));
    }
}

/// The right-hand side of verification over the first `k` commitments is
/// `g` raised to the partial polynomial value, reduced.
proof fn lemma_verify_rhs_exp(coeffs: Seq<i128>, comms: Seq<i128>, g: i128, x: i128, p: i128, k: int)
    requires
        1 < p,
        0 <= g,
        coeffs.len() >= 1,
        comms.len() == coeffs.len(),
        forall|i: int| 0 <= i < coeffs.len() ==> 0 <= #[trigger] coeffs[i],
        forall|i: int|
            0 <= i < comms.len() ==> #[trigger] comms[i] as int == pow(g as int, coeffs[i] as nat)
                % (p as int),
        1 <= x,
        1 <= k <= coeffs.len(),
    ensures
        verify_rhs(comms, x as int, p as int, k) == pow(
            g as int,
            poly_eval_prefix(coeffs, x as int, k) as nat,
        ) % (p as int),
    decreases k,
{
    let gg = g as int;
    let xx = x as int;
    let pp = p as int;
    if k == 1 {
        lemma_pow0(xx);
        assert(poly_eval_prefix(coeffs, xx, 0) == 0);
        assert(poly_eval_prefix(coeffs, xx, 1) == coeffs[0]);
        assert(comms[0] as int == pow(gg, coeffs[0] as nat) % pp);
        lemma_mod_bound(pow(gg, coeffs[0] as nat), pp);
        lemma_small_mod(comms[0] as nat, p as nat);
    } else {
        lemma_verify_rhs_exp(coeffs, comms, g, x, p, k - 1);
        let e1 = poly_eval_prefix(coeffs, xx, k - 1);
        let ak = coeffs[k - 1] as int;
        let xk = pow(xx, (k - 1) as nat);
        lemma_prefix_nonneg(coeffs, xx, k - 1);
        vstd::arithmetic::power::lemma_pow_positive(xx, (k - 1) as nat);
        vstd::arithmetic::mul::lemma_mul_nonnegative(ak, xk);
        // The k-th factor is the commitment to `a_k` raised to `x^(k-1)`,
        // which is `g` raised to `a_k * x^(k-1)`.
        lemma_pow_mod_noop(pow(gg, ak as nat), xk as nat, pp);
        lemma_pow_multiplies(gg, ak as nat, xk as nat);
        assert(pow(comms[k - 1] as int, xk as nat) % pp == pow(gg, (ak * xk) as nat) % pp);
        // Multiply the two reduced powers of `g` and merge the exponents.
        lemma_mul_mod_noop_general(pow(gg, e1 as nat), pow(gg, (ak * xk) as nat), pp);
        lemma_pow_adds(gg, e1 as nat, (ak * xk) as nat);
        assert(poly_eval_prefix(coeffs, xx, k) == e1 + ak * xk);
        assert(verify_rhs(comms, xx, pp, k) == (verify_rhs(comms, xx, pp, k - 1) * (pow(
            comms[k - 1] as int,
            pow(xx, (k - 1) as nat) as nat,
        ) % pp)) % pp);
        assert(verify_rhs(comms, xx, pp, k) == pow(gg, (e1 + ak * xk) as nat) % pp);
    }
}

/// Completeness of share verification: any `(x, y)` whose value is the
/// exact, unreduced evaluation of the committed polynomial passes the
/// check against the matching commitments. The value must be unreduced:
/// exponents live modulo the order of `g`, not modulo `p`, so a reduced
/// value names a different group element. One input outside that range,
/// for which a generated share fails its own verification, is `p == 23`,
/// `g == 2`, coefficients `[5, 10]`, `x == 2`.
pub proof fn lemma_verify_share_complete(
    coeffs: Seq<i128>,
    comms: Seq<i128>,
    g: i128,
    x: i128,
    y: i128,
    p: i128,
)
    requires
        1 < p,
        0 <= g,
        coeffs.len() >= 1,
        comms.len() == coeffs.len(),
        forall|i: int| 0 <= i < coeffs.len() ==> 0 <= #[trigger] coeffs[i],
        forall|i: int|
            0 <= i < comms.len() ==> #[trigger] comms[i] as int == pow(g as int, coeffs[i] as nat)
                % (p as int),
        1 <= x,
        y as int == poly_eval(coeffs, x as int),
    ensures
        feldman_verify(g, x, y, comms, p as int),
{
    lemma_verify_rhs_exp(coeffs, comms, g, x, p, coeffs.len() as int);
    lemma_prefix_nonneg(coeffs, x as int, coeffs.len() as int);
}

pub struct FeldmanVSS {
    pub secret: i128,
    pub total_shares: i128,
    pub threshold: i128,
    pub shares: Vec<(i128, i128)>,
    pub commitments: Vec<i128>,
    pub p: i128,
    pub g: i128,
}

impl FeldmanVSS {
    /// A usable configuration: a positive threshold no larger than the
    /// share count, the secret and the generator inside the field, and a
    /// modulus the arithmetic layer accepts.
    pub open spec fn wf(self) -> bool {
        &&& 1 <= self.threshold <= self.total_shares
        &&& 0 <= self.secret < self.p
        &&& 1 < self.p
        &&& modulus_in_range(self.p as int)
        &&& 0 <= self.g < self.p
    }

    /// Builds a scheme, rejecting any configuration that breaks the data
    /// model instead of clamping it.
    pub fn init(secret: i128, total_shares: i128, threshold: i128, p: i128, g: i128) -> (r:
        Result<Self, SssError>)
        ensures
            match r {
                Ok(s) => {
                    &&& s.secret == secret
                    &&& s.total_shares == total_shares
                    &&& s.threshold == threshold
                    &&& s.p == p
                    &&& s.g == g
                    &&& s.shares@.len() == 0
                    &&& s.commitments@.len() == 0
                    &&& s.wf()
                },
                Err(e) => {
                    &&& e == SssError::Configuration
                    &&& !(1 <= threshold <= total_shares && 0 <= secret < p && 1 < p
                        && modulus_in_range(p as int) && 0 <= g < p)
                },
            },
    {
        if threshold > total_shares || threshold < 1 || secret < 0 || p <= 1 || secret >= p
            || p > 0x7fff_ffff_ffff_ffff || g < 0 || g >= p {
            return Err(SssError::Configuration);
        }
        Ok(FeldmanVSS {
            secret,
            total_shares,
            threshold,
            shares: Vec::new(),
            commitments: Vec::new(),
            p,
            g,
        })
    }

    /// One commitment per coefficient: the reduced power `g^c mod p`.
    pub fn generate_commitments(&self, coefficients: &Vec<i128>) -> (comms: Vec<i128>)
        requires
            self.wf(),
            forall|i: int| 0 <= i < coefficients@.len() ==> 0 <= #[trigger] coefficients@[i],
        ensures
            commitments_match(comms@, coefficients@, self.g, self.p as int),
            forall|i: int| 0 <= i < comms@.len() ==> 0 <= #[trigger] comms@[i] < self.p,
    {
        let mut comms: Vec<i128> = Vec::new();
        let mut i: usize = 0;
        while i < coefficients.len()
            invariant
                self.wf(),
                forall|k: int| 0 <= k < coefficients@.len() ==> 0 <= #[trigger] coefficients@[k],
                0 <= i <= coefficients@.len(),
                comms@.len() == i,
                forall|k: int|
                    0 <= k < i ==> #[trigger] comms@[k] as int == pow(
                        self.g as int,
                        coefficients@[k] as nat,
                    ) % (self.p as int),
                forall|k: int| 0 <= k < i ==> 0 <= #[trigger] comms@[k] < self.p,
            decreases coefficients@.len() - i,
        {
            let c = coefficients[i];
            let comm = match mod_pow(self.g, c, self.p) {
                Ok(v) => v,
                Err(_) => {
                    proof {
                        assert(false);
                    }
                    0
                },
            };
            comms.push(comm);
            i = i + 1;
        }
        comms
    }

    /// Deterministic generation from a given coefficient vector: evaluates
    /// the polynomial at `1..=n`, computes the commitments, and caches
    /// both. The shares sit exactly on the given polynomial.
    pub fn generate_shares_with_coefficients(&mut self, coefficients: &Vec<i128>) -> (r: (
        Vec<(i128, i128)>,
        Vec<i128>,
    ))
        requires
            old(self).wf(),
            old(self).total_shares < i128::MAX,
            coeffs_for(coefficients@, old(self).secret, old(self).threshold, 0, old(self).p),
        ensures
            final(self).secret == old(self).secret,
            final(self).total_shares == old(self).total_shares,
            final(self).threshold == old(self).threshold,
            final(self).p == old(self).p,
            final(self).g == old(self).g,
            final(self).wf(),
            final(self).shares@ == r.0@,
            final(self).commitments@ == r.1@,
            r.0@.len() == old(self).total_shares as int,
            shares_on_poly(r.0@, coefficients@, old(self).p as int),
            commitments_match(r.1@, coefficients@, old(self).g, old(self).p as int),
    {
        proof {
            assert(forall|i: int|
                0 <= i < coefficients@.len() ==> 0 <= #[trigger] coefficients@[i]);
        }
        let commitments = self.generate_commitments(coefficients);
        let ghost pp = self.p as int;
        let mut shares: Vec<(i128, i128)> = Vec::new();
        let mut x: i128 = 1;
        while x <= self.total_shares
            invariant
                self.wf(),
                self.total_shares < i128::MAX,
                pp == self.p as int,
                coeffs_for(coefficients@, self.secret, self.threshold, 0, self.p),
                1 <= x <= self.total_shares + 1,
                shares@.len() == x - 1,
                forall|k: int|
                    0 <= k < shares@.len() ==> #[trigger] shares@[k] == (
                        (k + 1) as i128,
                        (poly_eval(coefficients@, k + 1) % pp) as i128,
                    ),
            decreases self.total_shares - x + 1,
        {
            let ghost xx = x as int;
            let mut y: i128 = coefficients[0];
            let mut x_power: i128 = 1;
            let mut i: usize = 1;
            proof {
                lemma_small_mod(y as nat, self.p as nat);
                lemma_small_mod(1, self.p as nat);
                lemma_pow0(xx);
                assert(poly_eval_prefix(coefficients@, xx, 0) == 0);
                assert(poly_eval_prefix(coefficients@, xx, 1) == coefficients@[0] * pow(xx, 0));
            }
            while i < coefficients.len()
                invariant
                    self.wf(),
                    pp == self.p as int,
                    xx == x as int,
                    1 <= i <= coefficients@.len(),
                    0 <= y < self.p,
                    0 <= x_power < self.p,
                    y as int == poly_eval_prefix(coefficients@, xx, i as int) % pp,
                    x_power as int == pow(xx, (i - 1) as nat) % pp,
                decreases coefficients@.len() - i,
            {
                let ghost y0 = y as int;
                x_power = mod_mul(x_power, x, self.p);
                let coeff = coefficients[i];
                let term = mod_mul(coeff, x_power, self.p);
                y = mod_add(y, term, self.p);
                proof {
                    lemma_mul_mod_noop_left(pow(xx, (i - 1) as nat), xx, pp);
                    lemma_mul_is_commutative(pow(xx, (i - 1) as nat), xx);
                    assert(pow(xx, i as nat) == pow(xx, (i - 1) as nat) * xx) by {
                        lemma_pow_adds(xx, (i - 1) as nat, 1);
                        lemma_pow1(xx);
                    }
                    assert(x_power as int == pow(xx, i as nat) % pp);
                    lemma_mul_mod_noop_right(coeff as int, pow(xx, i as nat), pp);
                    assert(term as int == (coeff as int * pow(xx, i as nat)) % pp);
                    lemma_add_mod_noop(
                        poly_eval_prefix(coefficients@, xx, i as int),
                        coeff as int * pow(xx, i as nat),
                        pp,
                    );
                    lemma_small_mod(term as nat, self.p as nat);
                    lemma_small_mod(y0 as nat, self.p as nat);
                    assert(y as int == poly_eval_prefix(coefficients@, xx, i as int + 1) % pp);
                }
                i = i + 1;
            }
            shares.push((x, y));
            x = x + 1;
        }
        let mut share_cache: Vec<(i128, i128)> = Vec::new();
        let mut j: usize = 0;
        while j < shares.len()
            invariant
                0 <= j <= shares@.len(),
                share_cache@.len() == j,
                forall|k: int| 0 <= k < j ==> #[trigger] share_cache@[k] == shares@[k],
            decreases shares@.len() - j,
        {
            share_cache.push(shares[j]);
            j = j + 1;
        }
        let mut comm_cache: Vec<i128> = Vec::new();
        let mut j2: usize = 0;
        while j2 < commitments.len()
            invariant
                0 <= j2 <= commitments@.len(),
                comm_cache@.len() == j2,
                forall|k: int| 0 <= k < j2 ==> #[trigger] comm_cache@[k] == commitments@[k],
            decreases commitments@.len() - j2,
        {
            comm_cache.push(commitments[j2]);
            j2 = j2 + 1;
        }
        proof {
            assert(share_cache@ =~= shares@);
            assert(comm_cache@ =~= commitments@);
        }
        self.shares = share_cache;
        self.commitments = comm_cache;
        (shares, commitments)
    }

    /// Draws `t - 1` fresh random coefficients from `[0, p)`, places the
    /// secret first, and produces the shares together with their
    /// commitments, caching both. Exactly `n` shares come back with
    /// pairwise distinct indices `1..=n`, and some polynomial with the
    /// secret as constant term carries all of them and the commitments.
    pub fn generate_shares(&mut self) -> (r: (Vec<(i128, i128)>, Vec<i128>))
        requires
            old(self).wf(),
            old(self).total_shares < i128::MAX,
        ensures
            final(self).secret == old(self).secret,
            final(self).total_shares == old(self).total_shares,
            final(self).threshold == old(self).threshold,
            final(self).p == old(self).p,
            final(self).g == old(self).g,
            final(self).wf(),
            final(self).shares@ == r.0@,
            final(self).commitments@ == r.1@,
            r.0@.len() == old(self).total_shares as int,
            r.1@.len() == old(self).threshold as int,
            forall|k: int| 0 <= k < r.0@.len() ==> (#[trigger] r.0@[k]).0 == k + 1,
            forall|k1: int, k2: int|
                0 <= k1 < k2 < r.0@.len() ==> (#[trigger] r.0@[k1]).0 != (#[trigger] r.0@[k2]).0,
            exists|c: Seq<i128>|
                coeffs_for(c, old(self).secret, old(self).threshold, 0, old(self).p)
                    && shares_on_poly(r.0@, c, old(self).p as int) && commitments_match(
                    r.1@,
                    c,
                    old(self).g,
                    old(self).p as int,
                ),
    {
        let mut coefficients: Vec<i128> = Vec::new();
        coefficients.push(self.secret);
        let mut i: i128 = 1;
        while i < self.threshold
            invariant
                self.wf(),
                1 <= i <= self.threshold,
                coefficients@.len() == i,
                coefficients@[0] == self.secret,
                forall|j: int| 1 <= j < i ==> 0 <= #[trigger] coefficients@[j] < self.p,
            decreases self.threshold - i,
        {
            let coeff = random_in_range(0, self.p);
            coefficients.push(coeff);
            i = i + 1;
        }
        let (shares, commitments) = self.generate_shares_with_coefficients(&coefficients);
        proof {
            assert(coeffs_for(coefficients@, old(self).secret, old(self).threshold, 0, old(self).p));
        }
        (shares, commitments)
    }

    /// Checks the verification equation `g^y == comms[0] * prod
    /// comms[i]^(x^i) (mod p)` for a claimed share `(x, y)` against the
    /// published commitments, over the true powers `x^i` of the index;
    /// returns exactly its truth value and mutates nothing. Each factor
    /// `c^(x^i)` is computed by raising `c` to `x` repeatedly, `i` times,
    /// so no exponent is ever reduced.
    pub fn verify_share(&self, x: i128, y: i128, commitments: &Vec<i128>) -> (valid: bool)
        requires
            self.wf(),
            commitments@.len() >= 1,
            1 <= x,
            0 <= y,
        ensures
            valid == feldman_verify(self.g, x, y, commitments@, self.p as int),
    {
        let ghost pp = self.p as int;
        let lhs = match mod_pow(self.g, y, self.p) {
            Ok(v) => v,
            Err(_) => {
                proof {
                    assert(false);
                }
                0
            },
        };
        let mut rhs = mod_add(commitments[0], 0, self.p);
        let mut i: usize = 1;
        while i < commitments.len()
            invariant
                self.wf(),
                pp == self.p as int,
                commitments@.len() >= 1,
                1 <= x,
                1 <= i <= commitments@.len(),
                rhs as int == verify_rhs(commitments@, x as int, pp, i as int),
            decreases commitments@.len() - i,
        {
            let c = commitments[i];
            let mut term = c;
            let mut j: usize = 0;
            while j < i
                invariant
                    self.wf(),
                    pp == self.p as int,
                    1 <= x,
                    i < commitments@.len(),
                    c == commitments@[i as int],
                    0 <= j <= i,
                    j == 0 ==> term == c,
                    j >= 1 ==> term as int == pow(c as int, pow(x as int, j as nat) as nat) % pp,
                decreases i - j,
            {
                let ghost t0 = term as int;
                let ghost j0 = j as nat;
                term = match mod_pow(term, x, self.p) {
                    Ok(v) => v,
                    Err(_) => {
                        proof {
                            assert(false);
                        }
                        0
                    },
                };
                proof {
                    lemma_pow1(x as int);
                    if j0 == 0 {
                        assert(term as int == pow(c as int, pow(x as int, 1) as nat) % pp);
                    } else {
                        let ej = pow(x as int, j0) as nat;
                        vstd::arithmetic::power::lemma_pow_positive(x as int, j0);
                        vstd::arithmetic::power::lemma_pow_positive(x as int, (j0 + 1) as nat);
                        lemma_pow_mod_noop(pow(c as int, ej), x as nat, pp);
                        lemma_pow_multiplies(c as int, ej, x as nat);
                        lemma_pow_adds(x as int, j0, 1);
                        assert(pow(x as int, (j0 + 1) as nat) == pow(x as int, j0) * (x as int));
                        assert(term as int == pow(
                            c as int,
                            pow(x as int, (j0 + 1) as nat) as nat,
                        ) % pp);
                    }
                }
                j = j + 1;
            }
            rhs = mod_mul(rhs, term, self.p);
            proof {
                assert(rhs as int == verify_rhs(commitments@, x as int, pp, i as int + 1));
            }
            i = i + 1;
        }
        lhs == rhs
    }

    /// Lagrange interpolation of `f(0)` from the given shares, computed as
    /// `y_i * numerator_i * denominator_i^-1` per term. Fails with
    /// `InsufficientShares` exactly when fewer than `threshold` shares are
    /// given; otherwise succeeds exactly when every term's denominator is
    /// invertible, and then returns the reduced interpolated sum.
    /// Deterministic, and mutates nothing.
    pub fn reconstruct_secret(&self, shares: &Vec<(i128, i128)>) -> (r: Result<i128, SssError>)
        requires
            self.wf(),
        ensures
            match r {
                Ok(v) => {
                    &&& shares@.len() >= self.threshold
                    &&& all_dens_invertible(shares@, self.p as int)
                    &&& v as int == fe_lagrange_sum(shares@, self.p as int, shares@.len() as int)
                        % (self.p as int)
                    &&& 0 <= v < self.p
                },
                Err(e) => {
                    ||| (shares@.len() < self.threshold && e == SssError::InsufficientShares)
                    ||| (shares@.len() >= self.threshold && !all_dens_invertible(
                        shares@,
                        self.p as int,
                    ) && e == SssError::NoInverse)
                },
            },
    {
        if (shares.len() as i128) < self.threshold {
            return Err(SssError::InsufficientShares);
        }
        let ghost pp = self.p as int;
        let n = shares.len();
        let mut secret: i128 = 0;
        let mut i: usize = 0;
        proof {
            lemma_small_mod(0, self.p as nat);
        }
        while i < n
            invariant
                self.wf(),
                pp == self.p as int,
                n == shares@.len(),
                n >= self.threshold,
                0 <= i <= n,
                0 <= secret < self.p,
                secret as int == fe_lagrange_sum(shares@, pp, i as int) % pp,
                forall|i2: int| 0 <= i2 < i ==> #[trigger] den_invertible(shares@, i2, pp),
            decreases n - i,
        {
            let (x_i, y_i) = shares[i];
            let mut numerator: i128 = 1;
            let mut denominator: i128 = 1;
            let mut j: usize = 0;
            proof {
                lemma_small_mod(1, self.p as nat);
            }
            while j < n
                invariant
                    self.wf(),
                    pp == self.p as int,
                    n == shares@.len(),
                    i < n,
                    (x_i, y_i) == shares@[i as int],
                    0 <= j <= n,
                    0 <= numerator < self.p,
                    0 <= denominator < self.p,
                    numerator as int == fe_numerator(shares@, i as int, j as int) % pp,
                    denominator as int == fe_denominator(shares@, i as int, j as int) % pp,
                decreases n - j,
            {
                if i != j {
                    let ghost num0 = fe_numerator(shares@, i as int, j as int);
                    let ghost den0 = fe_denominator(shares@, i as int, j as int);
                    let (x_j, _) = shares[j];
                    numerator = mod_mul(numerator, x_j, self.p);
                    let diff = mod_sub(x_j, x_i, self.p);
                    denominator = mod_mul(denominator, diff, self.p);
                    proof {
                        lemma_mul_mod_noop_left(num0, x_j as int, pp);
                        assert(numerator as int == (num0 * x_j) % pp);
                        lemma_mul_mod_noop_general(den0, x_j as int - x_i as int, pp);
                        assert(denominator as int == (den0 * (x_j - x_i)) % pp);
                    }
                } else {
                    proof {
                        assert(fe_numerator(shares@, i as int, j as int + 1) == fe_numerator(
                            shares@,
                            i as int,
                            j as int,
                        ));
                        assert(fe_denominator(shares@, i as int, j as int + 1) == fe_denominator(
                            shares@,
                            i as int,
                            j as int,
                        ));
                    }
                }
                j = j + 1;
            }
            let denominator_inv = match mod_inv(denominator, self.p) {
                Ok(v) => v,
                Err(_) => {
                    proof {
                        lemma_small_mod(denominator as nat, self.p as nat);
                        assert(!den_invertible(shares@, i as int, pp));
                        assert(!all_dens_invertible(shares@, pp));
                    }
                    return Err(SssError::NoInverse);
                },
            };
            proof {
                lemma_small_mod(denominator as nat, self.p as nat);
                lemma_mod_inverse_of(denominator as int, denominator_inv as int, pp);
            }
            let inner = mod_mul(numerator, denominator_inv, self.p);
            let term = mod_mul(y_i, inner, self.p);
            let ghost s0 = secret as int;
            secret = mod_add(secret, term, self.p);
            proof {
                let num = fe_numerator(shares@, i as int, n as int);
                let den = fe_denominator(shares@, i as int, n as int);
                let inv = mod_inverse(den % pp, pp);
                lemma_mul_mod_noop_left(num, inv, pp);
                assert(inner as int == (num * inv) % pp);
                lemma_mul_mod_noop_right(y_i as int, num * inv, pp);
                lemma_mul_is_associative(y_i as int, num, inv);
                assert(term as int == (y_i * num * inv) % pp);
                lemma_add_mod_noop(fe_lagrange_sum(shares@, pp, i as int), y_i * num * inv, pp);
                lemma_small_mod(term as nat, self.p as nat);
                lemma_small_mod(s0 as nat, self.p as nat);
                assert(fe_lagrange_sum(shares@, pp, i as int + 1) == fe_lagrange_sum(
                    shares@,
                    pp,
                    i as int,
                ) + shares@[i as int].1 * num * inv);
                assert(den_invertible(shares@, i as int, pp));
            }
            i = i + 1;
        }
        Ok(secret)
    }
}

/// The `t == n == 1` edge case for this scheme's convention: a single
/// share interpolates to its own value.
pub proof fn lemma_single_share_interpolates_feldman(shares: Seq<(i128, i128)>, p: int)
    requires
        1 < p,
        shares.len() == 1,
        0 <= shares[0].1 < p,
    ensures
        fe_lagrange_sum(shares, p, 1) % p == shares[0].1,
{
    assert(fe_numerator(shares, 0, 0) == 1);
    assert(fe_numerator(shares, 0, 1) == 1);
    assert(fe_denominator(shares, 0, 0) == 1);
    assert(fe_denominator(shares, 0, 1) == 1);
    lemma_small_mod(1, p as nat);
    assert((1int * 1int) % p == 1int % p);
    lemma_mod_inverse_of(1int, 1int, p);
    assert(fe_lagrange_sum(shares, p, 0) == 0);
    assert(fe_lagrange_sum(shares, p, 1) == shares[0].1 as int);
    lemma_small_mod(shares[0].1 as nat, p as nat);
}

/// Over the first `k` positions, the per-factor-inverted Lagrange weight
/// equals the product-inverted numerator/denominator form: inverting each
/// difference as it appears and inverting the product of all differences
/// at the end give the same field element.
proof fn lemma_weight_conventions(shares: Seq<(i128, i128)>, i: int, p: int, k: int)
    requires
        1 < p,
        0 <= i < shares.len(),
        0 <= k <= shares.len(),
        forall|a: int, b: int|
            0 <= a < shares.len() && 0 <= b < shares.len() && a != b ==> #[trigger] diff_invertible(
                shares,
                a,
                b,
                p,
            ),
    ensures
        is_mod_inverse(
            fe_denominator(shares, i, k) % p,
            mod_inverse(fe_denominator(shares, i, k) % p, p),
            p,
        ),
        lagrange_weight(shares, i, p, k) % p == (fe_numerator(shares, i, k) * mod_inverse(
            fe_denominator(shares, i, k) % p,
            p,
        )) % p,
    decreases k,
{
    if k == 0 {
        lemma_mod_bound(1, p);
        lemma_mul_mod_noop_general(1, 1, p);
        assert(((1int % p) * (1int % p)) % p == 1int % p);
        lemma_mod_inverse_of(1int % p, 1int % p, p);
        lemma_small_mod(1, p as nat);
    } else {
        lemma_weight_conventions(shares, i, p, k - 1);
        let j = k - 1;
        let w0 = lagrange_weight(shares, i, p, j);
        let n0 = fe_numerator(shares, i, j);
        let d0 = fe_denominator(shares, i, j);
        let invden0 = mod_inverse(d0 % p, p);
        if j == i {
            assert(fe_denominator(shares, i, k) == d0);
            assert(fe_numerator(shares, i, k) == n0);
            assert(lagrange_weight(shares, i, p, k) == w0);
        } else {
            let xj: int = shares[j].0 as int;
            let d: int = shares[j].0 - shares[i].0;
            assert(diff_invertible(shares, j, i, p));
            let inv_d = mod_inverse(d % p, p);
            assert(is_mod_inverse(d % p, inv_d, p));
            // The denominator gains the factor `d`, its inverse `inv_d`.
            let dk = fe_denominator(shares, i, k);
            assert(dk == d0 * d);
            lemma_inverse_of_product(d0 % p, invden0, d % p, inv_d, p);
            lemma_mul_mod_noop_general(d0, d, p);
            assert(dk % p == ((d0 % p) * (d % p)) % p);
            let invdenk = mod_inverse(dk % p, p);
            assert(invdenk == (invden0 * inv_d) % p);
            assert(is_mod_inverse(dk % p, invdenk, p));
            // Unfold the weight one step and regroup its factors.
            let wk = lagrange_weight(shares, i, p, k);
            assert(wk == w0 * shares[j].0 * inv_d);
            assert(wk == w0 * (xj * inv_d)) by {
                lemma_mul_is_associative(w0, xj, inv_d);
            }
            lemma_mul_mod_congruence(w0, xj * inv_d, n0 * invden0, xj * inv_d, p);
            assert(wk % p == ((n0 * invden0) * (xj * inv_d)) % p);
            assert((n0 * invden0) * (xj * inv_d) == (n0 * xj) * (invden0 * inv_d))
                by (nonlinear_arith);
            lemma_small_mod(invdenk as nat, p as nat);
            lemma_mod_bound(invden0 * inv_d, p);
            lemma_mul_mod_congruence(n0 * xj, invden0 * inv_d, n0 * xj, invdenk, p);
            assert(fe_numerator(shares, i, k) == n0 * xj);
        }
    }
}

/// The two interpolated sums agree term by term.
proof fn lemma_sums_conventions(shares: Seq<(i128, i128)>, p: int, k: int)
    requires
        1 < p,
        0 <= k <= shares.len(),
        forall|a: int, b: int|
            0 <= a < shares.len() && 0 <= b < shares.len() && a != b ==> #[trigger] diff_invertible(
                shares,
                a,
                b,
                p,
            ),
    ensures
        lagrange_sum(shares, p, k) % p == fe_lagrange_sum(shares, p, k) % p,
    decreases k,
{
    if k > 0 {
        lemma_sums_conventions(shares, p, k - 1);
        let i = k - 1;
        let nlen = shares.len() as int;
        lemma_weight_conventions(shares, i, p, nlen);
        let w = lagrange_weight(shares, i, p, nlen);
        let num = fe_numerator(shares, i, nlen);
        let invden = mod_inverse(fe_denominator(shares, i, nlen) % p, p);
        let y: int = shares[i].1 as int;
        lemma_mul_mod_congruence(y, w, y, num * invden, p);
        assert(y * (num * invden) == (y * num) * invden) by {
            lemma_mul_is_associative(y, num, invden);
        }
        lemma_add_mod_noop(lagrange_sum(shares, p, k - 1), y * w, p);
        lemma_add_mod_noop(fe_lagrange_sum(shares, p, k - 1), y * num * invden, p);
        assert(lagrange_sum(shares, p, k) == lagrange_sum(shares, p, k - 1) + y * w);
        assert(fe_lagrange_sum(shares, p, k) == fe_lagrange_sum(shares, p, k - 1) + y * num
            * invden);
    }
}

/// The two reconstruction conventions interpolate identically, for every
/// quorum size: Shamir-style reconstruction inverts each index difference
/// as it appears, Feldman-style reconstruction inverts the product of all
/// of them once, and the resulting field elements coincide.
pub proof fn lemma_reconstruction_conventions_agree(shares: Seq<(i128, i128)>, p: int)
    requires
        1 < p,
        forall|a: int, b: int|
            0 <= a < shares.len() && 0 <= b < shares.len() && a != b ==> #[trigger] diff_invertible(
                shares,
                a,
                b,
                p,
            ),
    ensures
        lagrange_sum(shares, p, shares.len() as int) % p == fe_lagrange_sum(
            shares,
            p,
            shares.len() as int,
        ) % p,
{
    lemma_sums_conventions(shares, p, shares.len() as int);
}

} // verus!
