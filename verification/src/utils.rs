//! Finite-field arithmetic over a prime modulus: addition, multiplication,
//! inverse by the extended Euclidean algorithm, and square-and-multiply
//! exponentiation. Every result is the exact mathematical residue.

use vstd::prelude::*;
use vstd::arithmetic::div_mod::{
    lemma_add_mod_noop, lemma_fundamental_div_mod, lemma_mod_bound,
    lemma_mod_sub_multiples_vanish, lemma_small_mod, lemma_mul_mod_noop_general,
    lemma_mul_mod_noop_left, lemma_mul_mod_noop_right, lemma_sub_mod_noop,
};
use vstd::arithmetic::mul::{
    lemma_mul_is_associative, lemma_mul_is_commutative, lemma_mul_is_distributive_sub,
};
use vstd::arithmetic::power::{
    lemma_pow1, lemma_pow_mod_noop, lemma_pow_multiplies, lemma_square_is_pow2, pow,
};
use crate::arith::{is_mod_inverse, mod_inverse, modulus_in_range, spec_gcd};
use crate::arith::lemma_mod_inverse_of;
use crate::errors::SssError;

verus! {

/// The Euclidean residue of `a` modulo a positive `p`, always in `[0, p)`.
fn norm(a: i128, p: i128) -> (r: i128)
    requires
        1 <= p,
    ensures
        r == a as int % p as int,
        0 <= r < p,
{
    proof {
        lemma_mod_bound(a as int, p as int);
    }
    match a.checked_rem_euclid(p) {
        Some(r) => r,
        None => {
            proof {
                assert(false);
            }
            0
        },
    }
}

/// Modular addition: `(a + b) mod p`, for any operands, including negative ones.
pub fn mod_add(a: i128, b: i128, p: i128) -> (r: i128)
    requires
        modulus_in_range(p as int),
    ensures
        r == (a + b) % (p as int),
        0 <= r < p,
{
    let an = norm(a, p);
    let bn = norm(b, p);
    let s = an + bn;
    proof {
        lemma_add_mod_noop(a as int, b as int, p as int);
        if s >= p {
            lemma_mod_sub_multiples_vanish(s as int, p as int);
            lemma_small_mod((s - p) as nat, p as nat);
        } else {
            lemma_small_mod(s as nat, p as nat);
        }
    }
    if s >= p {
        s - p
    } else {
        s
    }
}

/// Modular subtraction: `(a - b) mod p`, for any operands.
pub(crate) fn mod_sub(a: i128, b: i128, p: i128) -> (r: i128)
    requires
        modulus_in_range(p as int),
    ensures
        r == (a - b) % (p as int),
        0 <= r < p,
{
    let an = norm(a, p);
    let bn = norm(b, p);
    proof {
        vstd::arithmetic::div_mod::lemma_sub_mod_noop(a as int, b as int, p as int);
        if an >= bn {
            lemma_small_mod((an - bn) as nat, p as nat);
        } else {
            vstd::arithmetic::div_mod::lemma_mod_add_multiples_vanish(
                an as int - bn as int,
                p as int,
            );
            lemma_small_mod((an + p - bn) as nat, p as nat);
        }
    }
    if an >= bn {
        an - bn
    } else {
        an + p - bn
    }
}

/// Modular multiplication: operands are normalized into `[0, p)` first, and
/// the product is taken in an `i128` wide enough for the admitted moduli.
pub fn mod_mul(a: i128, b: i128, p: i128) -> (r: i128)
    requires
        modulus_in_range(p as int),
    ensures
        r == (a * b) % (p as int),
        0 <= r < p,
{
    let an = norm(a, p);
    let bn = norm(b, p);
    proof {
        lemma_mul_mod_noop_general(a as int, b as int, p as int);
        vstd::arithmetic::mul::lemma_mul_upper_bound(an as int, p - 1, bn as int, p - 1);
        vstd::arithmetic::mul::lemma_mul_upper_bound(
            p - 1,
            0x7fff_ffff_ffff_fffe,
            p - 1,
            0x7fff_ffff_ffff_fffe,
        );
        vstd::arithmetic::mul::lemma_mul_nonnegative(an as int, bn as int);
    }
    let product = an * bn;
    norm(product, p)
}

/// Modular inverse by the extended Euclidean algorithm: the unique `x` in
/// `[0, p)` with `a * x == 1 (mod p)`, exactly when `a mod p` and `p` are
/// coprime. A non-positive modulus and a non-invertible element are each
/// reported as their own error, never mapped to a default value.
pub fn mod_inv(a: i128, p: i128) -> (r: Result<i128, SssError>)
    requires
        p as int <= 0x7fff_ffff_ffff_ffff,
    ensures
        match r {
            Ok(x) => {
                &&& 0 < p
                &&& spec_gcd(p as nat, (a as int % p as int) as nat) == 1
                &&& is_mod_inverse(a as int, x as int, p as int)
            },
            Err(e) => {
                ||| (p <= 0 && e == SssError::InvalidModulus)
                ||| (0 < p && spec_gcd(p as nat, (a as int % p as int) as nat) != 1 && e
                    == SssError::NoInverse)
            },
        },
{
    if p <= 0 {
        return Err(SssError::InvalidModulus);
    }
    if p == 1 {
        proof {
            lemma_mod_bound(a as int, 1);
        }
        return Ok(0);
    }
    let a_norm = norm(a, p);
    let mut t: i128 = 0;
    let mut new_t: i128 = 1;
    let mut r: i128 = p;
    let mut new_r: i128 = a_norm;
    proof {
        lemma_small_mod(0, p as nat);
        lemma_small_mod(a_norm as nat, p as nat);
    }
    while new_r != 0
        invariant
            2 <= p <= 0x7fff_ffff_ffff_ffff,
            a_norm == a as int % p as int,
            0 <= a_norm < p,
            0 <= new_r < r,
            r <= p,
            0 <= t < p,
            0 <= new_t < p,
            (t as int * a_norm as int) % (p as int) == r as int % p as int,
            (new_t as int * a_norm as int) % (p as int) == new_r as int % p as int,
            spec_gcd(r as nat, new_r as nat) == spec_gcd(p as nat, a_norm as nat),
        decreases new_r,
    {
        let ghost t0 = t as int;
        let ghost nt0 = new_t as int;
        let ghost r0 = r as int;
        let ghost nr0 = new_r as int;
        let ghost pp = p as int;
        let ghost aa = a_norm as int;
        let quotient = match r.checked_div_euclid(new_r) {
            Some(q) => q,
            None => {
                proof {
                    assert(false);
                }
                0
            },
        };
        let rem = match r.checked_rem_euclid(new_r) {
            Some(x) => x,
            None => {
                proof {
                    assert(false);
                }
                0
            },
        };
        let ghost q = quotient as int;
        proof {
            lemma_fundamental_div_mod(r0, nr0);
            lemma_mod_bound(r0, nr0);
        }
        let prod = mod_mul(quotient, new_t, p);
        let temp_t = mod_sub(t, prod, p);
        proof {
            // The Bezout relation carries over to the updated coefficient:
            // temp_t * a_norm == r - q * new_r == rem (mod p).
            lemma_mul_mod_noop_left(t0 - prod, aa, pp);
            lemma_mul_is_commutative(t0 - prod, aa);
            lemma_mul_is_distributive_sub(aa, t0, prod as int);
            lemma_mul_is_commutative(aa, t0);
            lemma_mul_is_commutative(aa, prod as int);
            assert((t0 - prod) * aa == t0 * aa - prod * aa);
            lemma_mul_mod_noop_left(q * nt0, aa, pp);
            lemma_mul_is_associative(q, nt0, aa);
            lemma_mul_mod_noop_right(q, nt0 * aa, pp);
            lemma_mul_mod_noop_right(q, nr0, pp);
            assert((prod * aa) % pp == (q * nr0) % pp);
            lemma_sub_mod_noop(t0 * aa, prod * aa, pp);
            lemma_sub_mod_noop(t0 * aa, q * nr0, pp);
            lemma_sub_mod_noop(r0, q * nr0, pp);
            assert((t0 * aa - prod * aa) % pp == (r0 - q * nr0) % pp);
            assert(r0 - q * nr0 == rem) by {
                lemma_mul_is_commutative(nr0, q);
            }
            assert((temp_t as int * aa) % pp == rem as int % pp);
            assert(spec_gcd(nr0 as nat, rem as nat) == spec_gcd(r0 as nat, nr0 as nat));
        }
        t = new_t;
        new_t = temp_t;
        r = new_r;
        new_r = rem;
    }
    proof {
        assert(spec_gcd(p as nat, a_norm as nat) == r as nat);
    }
    if r != 1 {
        return Err(SssError::NoInverse);
    }
    proof {
        lemma_small_mod(1, p as nat);
        lemma_small_mod(r as nat, p as nat);
        lemma_mul_mod_noop_right(t as int, a as int, p as int);
        lemma_mul_is_commutative(t as int, a as int);
        assert((a as int * t as int) % (p as int) == 1int % (p as int));
    }
    Ok(t)
}

/// Square-and-multiply exponentiation for a non-negative exponent.
fn pow_nonneg(base: i128, exp: u128, m: i128) -> (r: i128)
    requires
        2 <= m as int <= 0x7fff_ffff_ffff_ffff,
    ensures
        r as int == pow(base as int, exp as nat) % (m as int),
        0 <= r < m,
{
    let mut result: i128 = 1;
    let mut b = norm(base, m);
    let mut e = exp;
    proof {
        lemma_pow_mod_noop(base as int, exp as nat, m as int);
        lemma_small_mod(1, m as nat);
        lemma_mul_mod_noop_left(pow(b as int, e as nat), 1, m as int);
        lemma_mul_is_commutative(pow(b as int, e as nat), 1);
        lemma_pow_mod_noop(base as int, e as nat, m as int);
        assert((result as int * pow(b as int, e as nat)) % (m as int) == pow(
            base as int,
            exp as nat,
        ) % (m as int)) by {
            lemma_mul_mod_noop_left(pow(base as int % m as int, e as nat), 1, m as int);
            lemma_mul_is_commutative(1, pow(b as int, e as nat));
        }
    }
    while e > 0
        invariant
            2 <= m as int <= 0x7fff_ffff_ffff_ffff,
            0 <= result < m,
            0 <= b < m,
            (result as int * pow(b as int, e as nat)) % (m as int) == pow(
                base as int,
                exp as nat,
            ) % (m as int),
        decreases e,
    {
        let ghost r0 = result as int;
        let ghost b0 = b as int;
        let ghost e0 = e as nat;
        let ghost mm = m as int;
        let e_half = e / 2;
        let ghost e1 = e_half as nat;
        if e % 2 == 1 {
            result = mod_mul(result, b, m);
        }
        b = mod_mul(b, b, m);
        e = e_half;
        proof {
            lemma_square_is_pow2(b0);
            lemma_pow_mod_noop(b0 * b0, e1, mm);
            lemma_pow_multiplies(b0, 2, e1);
            assert(pow(b as int, e1) % mm == pow(b0, 2 * e1) % mm);
            if e0 % 2 == 1 {
                assert(e0 == 2 * e1 + 1);
                assert(pow(b0, e0) == b0 * pow(b0, 2 * e1)) by {
                    vstd::arithmetic::power::lemma_pow_adds(b0, 1, 2 * e1);
                    lemma_pow1(b0);
                }
                // result' == (r0 * b0) % m, so fold both reductions away.
                lemma_mul_mod_noop_left(r0 * b0, pow(b as int, e1), mm);
                lemma_mul_mod_noop_right(r0 * b0, pow(b as int, e1), mm);
                lemma_mul_mod_noop_right(r0 * b0, pow(b0, 2 * e1), mm);
                assert((result as int * pow(b as int, e1)) % mm == ((r0 * b0) * pow(b0, 2 * e1))
                    % mm);
                lemma_mul_is_associative(r0, b0, pow(b0, 2 * e1));
                assert((r0 * b0) * pow(b0, 2 * e1) == r0 * pow(b0, e0));
            } else {
                assert(e0 == 2 * e1);
                lemma_mul_mod_noop_right(r0, pow(b as int, e1), mm);
                lemma_mul_mod_noop_right(r0, pow(b0, 2 * e1), mm);
                assert((result as int * pow(b as int, e1)) % mm == (r0 * pow(b0, e0)) % mm);
            }
        }
    }
    proof {
        assert(pow(b as int, 0) == 1) by {
            vstd::arithmetic::power::lemma_pow0(b as int);
        }
        lemma_small_mod(result as nat, m as nat);
    }
    result
}

/// Modular exponentiation. A non-negative exponent always succeeds; a
/// negative exponent first inverts the base, and surfaces the inverse's
/// error when the base is not invertible.
pub fn mod_pow(base: i128, exp: i128, modulus: i128) -> (r: Result<i128, SssError>)
    requires
        modulus_in_range(modulus as int),
        exp != i128::MIN,
    ensures
        match r {
            Ok(v) => {
                &&& 0 <= v < modulus
                &&& (exp >= 0 ==> v as int == pow(base as int, exp as nat) % (modulus as int))
                &&& (exp < 0 ==> is_mod_inverse(
                    base as int,
                    mod_inverse(base as int, modulus as int),
                    modulus as int,
                ) && v as int == pow(
                    mod_inverse(base as int, modulus as int),
                    (-(exp as int)) as nat,
                ) % (modulus as int))
                &&& (exp >= 0 || spec_gcd(
                    modulus as nat,
                    (base as int % modulus as int) as nat,
                ) == 1)
            },
            Err(e) => {
                &&& exp < 0
                &&& spec_gcd(modulus as nat, (base as int % modulus as int) as nat) != 1
                &&& e == SssError::NoInverse
            },
        },
{
    if modulus == 1 {
        proof {
            lemma_mod_bound(pow(base as int, exp as nat), 1);
            lemma_mod_bound(base as int, 1);
            if exp < 0 {
                lemma_mod_bound(base as int * 0, 1);
                lemma_mod_inverse_of(base as int, 0, 1);
                lemma_mod_bound(pow(mod_inverse(base as int, 1), (-(exp as int)) as nat), 1);
            }
        }
        return Ok(0);
    }
    if exp < 0 {
        let pos_exp = -exp;
        match mod_inv(base, modulus) {
            Ok(inv) => {
                proof {
                    lemma_mod_inverse_of(base as int, inv as int, modulus as int);
                }
                Ok(pow_nonneg(inv, pos_exp as u128, modulus))
            },
            Err(e) => Err(e),
        }
    } else {
        Ok(pow_nonneg(base, exp as u128, modulus))
    }
}

} // verus!
