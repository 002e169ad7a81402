//! Threshold secret sharing over a prime field: Shamir's scheme and
//! Feldman's verifiable extension, on top of verified modular arithmetic.

pub mod arith;
pub mod errors;
pub mod rng;
pub mod poly;
pub mod shamir;
pub mod utils;
pub mod vss;
