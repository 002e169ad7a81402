//! Typed failures of the sharing schemes and of the field arithmetic.

use vstd::prelude::*;

verus! {

/// Every failure the library can report. No operation ever falls back to a
/// default value: each path returns either an exact result or one of these.
#[derive(Clone, Copy, Debug, PartialEq, Eq, Structural)]
pub enum SssError {
    /// The configuration handed to a scheme constructor is invalid
    /// (threshold above the share count, secret outside the field, bad modulus).
    Configuration,
    /// Fewer shares than the threshold were given to reconstruction.
    InsufficientShares,
    /// An element had no multiplicative inverse modulo the modulus.
    NoInverse,
    /// The modulus given to an inverse computation was not positive.
    InvalidModulus,
}

impl SssError {
    /// A human-readable description of the failure.
    pub fn message(&self) -> (m: &'static str)
        ensures
            m@ == self.message_spec(),
    {
        match self {
            SssError::Configuration => "Invalid scheme configuration",
            SssError::InsufficientShares => "Not enough shares",
            SssError::NoInverse => "No modular inverse exists",
            SssError::InvalidModulus => "Modulus must be positive",
        }
    }

    pub open spec fn message_spec(self) -> Seq<char> {
        match self {
            SssError::Configuration => "Invalid scheme configuration"@,
            SssError::InsufficientShares => "Not enough shares"@,
            SssError::NoInverse => "No modular inverse exists"@,
            SssError::InvalidModulus => "Modulus must be positive"@,
        }
    }
}

} // verus!
