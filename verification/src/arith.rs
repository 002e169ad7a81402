//! Mathematical vocabulary of the library: greatest common divisors,
//! primality, modular inverses, and the lemmas that relate them.

use vstd::prelude::*;
use vstd::arithmetic::div_mod::{
    lemma_add_mod_noop, lemma_fundamental_div_mod, lemma_mod_bound, lemma_mod_pos_bound,
    lemma_mul_mod_noop_general,
    lemma_mul_mod_noop_left, lemma_mul_mod_noop_right, lemma_small_mod,
};
use vstd::arithmetic::mul::{lemma_mul_is_associative, lemma_mul_is_commutative};
use vstd::arithmetic::power::{lemma1_pow, lemma_pow_distributes, lemma_pow_mod_noop, pow};

verus! {

/// Moduli the executable layer accepts: positive, and small enough that the
/// product of two reduced elements fits in an `i128` intermediate.
pub open spec fn modulus_in_range(p: int) -> bool {
    0 < p <= 0x7fff_ffff_ffff_ffff
}

/// Greatest common divisor by the Euclidean recursion.
pub open spec fn spec_gcd(a: nat, b: nat) -> nat
    decreases b,
{
    if b == 0 {
        a
    } else {
        spec_gcd(b, a % b)
    }
}

/// A prime: at least 2, with no divisor strictly between 1 and itself.
pub open spec fn is_prime(p: int) -> bool {
    p >= 2 && forall|d: int| 2 <= d < p ==> #[trigger] (p % d) != 0
}

/// `x` is the canonical multiplicative inverse of `a` modulo `p`.
/// The right-hand side is `1 % p` rather than `1` so that the trivial
/// modulus `p == 1` keeps the statement consistent.
pub open spec fn is_mod_inverse(a: int, x: int, p: int) -> bool {
    0 <= x < p && (a * x) % p == 1int % p
}

/// The multiplicative inverse of `a` modulo `p`, where one exists.
pub open spec fn mod_inverse(a: int, p: int) -> int {
    choose|x: int| is_mod_inverse(a, x, p)
}

/// A divisor of two numbers divides any linear combination of them.
proof fn lemma_mod_linear_combo(x: int, y: int, q: int, d: int)
    requires
        d > 0,
        x % d == 0,
        y % d == 0,
    ensures
        (x + q * y) % d == 0,
{
    lemma_mul_mod_noop_right(q, y, d);
    assert((q * y) % d == (q * (y % d)) % d);
    assert(q * (y % d) == 0) by {
        assert(y % d == 0);
    }
    lemma_small_mod(0, d as nat);
    lemma_add_mod_noop(x, q * y, d);
}

/// The gcd of two numbers, not both zero, is positive.
pub proof fn lemma_gcd_positive(a: nat, b: nat)
    requires
        a > 0 || b > 0,
    ensures
        spec_gcd(a, b) > 0,
    decreases b,
{
    if b > 0 {
        lemma_mod_pos_bound(a as int, b as int);
        lemma_gcd_positive(b, a % b);
    }
}

/// The gcd of two numbers divides both of them.
pub proof fn lemma_gcd_divides(a: nat, b: nat)
    requires
        a > 0 || b > 0,
    ensures
        spec_gcd(a, b) > 0,
        a % spec_gcd(a, b) == 0,
        b % spec_gcd(a, b) == 0,
    decreases b,
{
    lemma_gcd_positive(a, b);
    let g = spec_gcd(a, b);
    if b == 0 {
        assert(a % g == 0) by {
            lemma_mod_pos_bound(a as int, a as int);
            lemma_fundamental_div_mod(a as int, a as int);
        }
        lemma_small_mod(0, g);
    } else {
        lemma_mod_pos_bound(a as int, b as int);
        lemma_gcd_divides(b, a % b);
        assert(b % g == 0);
        assert((a % b) % g == 0);
        lemma_fundamental_div_mod(a as int, b as int);
        assert(a as int == b as int * (a as int / b as int) + (a as int % b as int));
        lemma_mod_linear_combo((a % b) as int, b as int, a as int / b as int, g as int);
        assert((a % b) as int + (a as int / b as int) * b as int == a as int) by {
            lemma_mul_is_commutative(a as int / b as int, b as int);
        }
    }
}

/// A positive divisor of a positive number is no larger than it.
pub proof fn lemma_divisor_le(n: nat, d: nat)
    requires
        d > 0,
        n > 0,
        n % d == 0,
    ensures
        d <= n,
{
    if d > n {
        lemma_small_mod(n, d);
    }
}

/// A nonzero residue is coprime to a prime modulus. Together with the
/// contracts of `mod_inv` and `mod_mul` this gives the cancellation law
/// `mod_mul(a, mod_inv(a, p), p) == 1` for every `a` in `[1, p)`.
pub proof fn lemma_prime_coprime(p: int, a: int)
    requires
        is_prime(p),
        1 <= a < p,
    ensures
        spec_gcd(p as nat, a as nat) == 1,
{
    let g = spec_gcd(p as nat, a as nat);
    lemma_gcd_divides(p as nat, a as nat);
    lemma_divisor_le(a as nat, g);
    if g >= 2 {
        assert(p % (g as int) == 0);
        assert(2 <= g < p);
        assert(false);
    }
}

/// The multiplicative inverse modulo `p` is unique within `[0, p)`.
pub proof fn lemma_mod_inverse_unique(a: int, x: int, y: int, p: int)
    requires
        p >= 1,
        is_mod_inverse(a, x, p),
        is_mod_inverse(a, y, p),
    ensures
        x == y,
{
    lemma_small_mod(x as nat, p as nat);
    lemma_small_mod(y as nat, p as nat);
    assert((x * (a * y)) % p == x % p) by {
        lemma_mul_mod_noop_right(x, a * y, p);
        lemma_mul_mod_noop_right(x, 1, p);
        assert((x * ((a * y) % p)) % p == (x * (1int % p)) % p);
    }
    assert(((x * a) * y) % p == y % p) by {
        lemma_mul_mod_noop_left(x * a, y, p);
        lemma_mul_mod_noop_left(1, y, p);
        lemma_mul_is_commutative(x, a);
        assert(((x * a) % p) * y % p == ((1int % p) * y) % p);
    }
    lemma_mul_is_associative(x, a, y);
}

/// A witness that satisfies the inverse equation pins down `mod_inverse`.
pub proof fn lemma_mod_inverse_of(a: int, w: int, p: int)
    requires
        p >= 1,
        is_mod_inverse(a, w, p),
    ensures
        mod_inverse(a, p) == w,
        is_mod_inverse(a, mod_inverse(a, p), p),
{
    assert(is_mod_inverse(a, w, p));
    assert(exists|x: int| is_mod_inverse(a, x, p));
    let c = choose|x: int| is_mod_inverse(a, x, p);
    assert(is_mod_inverse(a, c, p));
    lemma_mod_inverse_unique(a, c, w, p);
}

/// Raising an element and its inverse to the same power yields a pair of
/// inverses again: `b^k * bi^k == 1 (mod p)`. This is why a negative
/// exponent can be handled by inverting the base first.
pub proof fn lemma_pow_of_inverse(b: int, bi: int, k: nat, p: int)
    requires
        p >= 1,
        (b * bi) % p == 1int % p,
    ensures
        (pow(b, k) * pow(bi, k)) % p == 1int % p,
        is_mod_inverse(pow(b, k) % p, pow(bi, k) % p, p),
{
    lemma_pow_distributes(b, bi, k);
    lemma_pow_mod_noop(b * bi, k, p);
    lemma_pow_mod_noop(1, k, p);
    lemma1_pow(k);
    assert(pow((b * bi) % p, k) % p == pow(b * bi, k) % p);
    assert(pow(1int % p, k) % p == pow(1, k) % p);
    assert((pow(b, k) * pow(bi, k)) % p == 1int % p);
    lemma_mod_bound(pow(b, k), p);
    lemma_mod_bound(pow(bi, k), p);
    lemma_mul_mod_noop_general(pow(b, k), pow(bi, k), p);
}

/// Congruent factors give congruent products.
pub proof fn lemma_mul_mod_congruence(a: int, b: int, a2: int, b2: int, p: int)
    requires
        p >= 1,
        a % p == a2 % p,
        b % p == b2 % p,
    ensures
        (a * b) % p == (a2 * b2) % p,
{
    lemma_mul_mod_noop_general(a, b, p);
    lemma_mul_mod_noop_general(a2, b2, p);
}

/// The inverse of a product is the reduced product of the inverses.
pub proof fn lemma_inverse_of_product(a: int, ia: int, b: int, ib: int, p: int)
    requires
        p >= 1,
        is_mod_inverse(a, ia, p),
        is_mod_inverse(b, ib, p),
    ensures
        is_mod_inverse((a * b) % p, (ia * ib) % p, p),
        mod_inverse((a * b) % p, p) == (ia * ib) % p,
{
    lemma_mod_bound(a * b, p);
    lemma_mod_bound(ia * ib, p);
    assert((a * b) * (ia * ib) == (a * ia) * (b * ib)) by (nonlinear_arith);
    lemma_mul_mod_noop_general(a * b, ia * ib, p);
    lemma_mul_mod_noop_general(a * ia, b * ib, p);
    lemma_mul_mod_noop_general(1, 1, p);
    assert(((a * b) % p * ((ia * ib) % p)) % p == 1int % p);
    lemma_mod_inverse_of((a * b) % p, (ia * ib) % p, p);
}

/// The inverse of a negated element is the reduced negated inverse.
pub proof fn lemma_inverse_of_negation(a: int, ia: int, p: int)
    requires
        p >= 1,
        is_mod_inverse(a, ia, p),
    ensures
        is_mod_inverse((-a) % p, (-ia) % p, p),
        mod_inverse((-a) % p, p) == (-ia) % p,
{
    lemma_mod_bound(-a, p);
    lemma_mod_bound(-ia, p);
    assert((-a) * (-ia) == a * ia) by (nonlinear_arith);
    lemma_mul_mod_noop_general(-a, -ia, p);
    assert(((-a) % p * ((-ia) % p)) % p == 1int % p);
    lemma_mod_inverse_of((-a) % p, (-ia) % p, p);
}

/// Negation commutes with reduction: `(-(d % p)) % p == (-d) % p`.
pub proof fn lemma_neg_mod(d: int, p: int)
    requires
        p >= 1,
    ensures
        (-(d % p)) % p == (-d) % p,
{
    vstd::arithmetic::div_mod::lemma_sub_mod_noop(0, d, p);
    lemma_small_mod(0, p as nat);
}

/// A zero exponent yields 1 under any modulus above 1.
pub proof fn lemma_pow_zero_mod(b: int, p: int)
    requires
        1 < p,
    ensures
        pow(b, 0) % p == 1,
{
    vstd::arithmetic::power::lemma_pow0(b);
    lemma_small_mod(1, p as nat);
}

/// The law behind a negative exponent: whenever `base` has an inverse
/// modulo `p`, the inverse of the `k`-th power of `base` is the `k`-th
/// power of the inverse of `base` — so exponentiating by `-k` and
/// inverting the `k`-th power give the same field element.
pub proof fn lemma_mod_pow_negative_exponent(base: int, k: nat, w: int, p: int)
    requires
        1 < p,
        is_mod_inverse(base, mod_inverse(base, p), p),
        is_mod_inverse(pow(base, k) % p, w, p),
    ensures
        w == pow(mod_inverse(base, p), k) % p,
{
    lemma_pow_of_inverse(base, mod_inverse(base, p), k, p);
    lemma_mod_inverse_unique(pow(base, k) % p, w, pow(mod_inverse(base, p), k) % p, p);
}

} // verus!
