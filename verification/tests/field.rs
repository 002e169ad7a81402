use secret_sharing::errors::SssError;
use secret_sharing::utils::{mod_add, mod_inv, mod_mul, mod_pow};

#[test]
fn test_mod_add_handles_negative_operands() {
    assert_eq!(mod_add(-5, 3, 7), 5);
    assert_eq!(mod_add(10, 9, 7), 5);
    assert_eq!(mod_add(-1, -1, 7), 5);
    assert_eq!(mod_add(0, 0, 7), 0);
    assert_eq!(mod_add(6, 1, 7), 0);
}

#[test]
fn test_mod_mul_handles_negative_operands() {
    assert_eq!(mod_mul(-4, 5, 7), 1);
    assert_eq!(mod_mul(3, 4, 7), 5);
    assert_eq!(mod_mul(-3, -4, 7), 5);
    assert_eq!(mod_mul(123456789, 987654321, 104729), 10150);
}

#[test]
fn test_mod_inv_cancels_for_every_nonzero_element() {
    // Over a prime field every nonzero element has an inverse, and
    // multiplying by it gives 1.
    let p = 23;
    for a in 1..p {
        let inv = mod_inv(a, p).unwrap();
        assert_eq!(mod_mul(a, inv, p), 1);
    }
    let big_p = 2147483647;
    for a in [1, 2, 12345, 2147483646] {
        let inv = mod_inv(a, big_p).unwrap();
        assert_eq!(mod_mul(a, inv, big_p), 1);
    }
}

#[test]
fn test_mod_inv_error_cases() {
    assert_eq!(mod_inv(3, 0).err().unwrap(), SssError::InvalidModulus);
    assert_eq!(mod_inv(3, -5).err().unwrap(), SssError::InvalidModulus);
    assert_eq!(mod_inv(2, 4).err().unwrap(), SssError::NoInverse);
    assert_eq!(mod_inv(0, 7).err().unwrap(), SssError::NoInverse);
    assert_eq!(mod_inv(3, 0).err().unwrap().message(), "Modulus must be positive");
    assert_eq!(mod_inv(2, 4).err().unwrap().message(), "No modular inverse exists");
}

#[test]
fn test_mod_pow_zero_exponent_gives_one() {
    assert_eq!(mod_pow(5, 0, 7).unwrap(), 1);
    assert_eq!(mod_pow(0, 0, 7).unwrap(), 1);
    assert_eq!(mod_pow(-3, 0, 23).unwrap(), 1);
    assert_eq!(mod_pow(5, 0, 2).unwrap(), 1);
}

#[test]
fn test_mod_pow_trivial_modulus() {
    assert_eq!(mod_pow(5, 3, 1).unwrap(), 0);
    assert_eq!(mod_pow(5, -3, 1).unwrap(), 0);
    assert_eq!(mod_pow(5, 0, 1).unwrap(), 0);
}

#[test]
fn test_mod_pow_exact_values() {
    assert_eq!(mod_pow(3, 5, 7).unwrap(), 5);
    assert_eq!(mod_pow(2, 10, 1000).unwrap(), 24);
    assert_eq!(mod_pow(2, 11, 23).unwrap(), 1);
    assert_eq!(mod_pow(-2, 3, 23).unwrap(), 15);
}

#[test]
fn test_mod_pow_negative_exponent_inverts_the_power() {
    // Exponentiating by -k agrees with inverting the k-th power.
    for (base, k, p) in [(2, 4, 23), (7, 5, 104729), (3, 1, 23), (5, 9, 999983)] {
        let neg = mod_pow(base, -k, p).unwrap();
        let inv_of_pow = mod_inv(mod_pow(base, k, p).unwrap(), p).unwrap();
        assert_eq!(neg, inv_of_pow);
    }
}

#[test]
fn test_mod_pow_negative_exponent_without_inverse_fails() {
    assert_eq!(mod_pow(2, -1, 4).err().unwrap(), SssError::NoInverse);
    assert_eq!(mod_pow(0, -2, 7).err().unwrap(), SssError::NoInverse);
}
