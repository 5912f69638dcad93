//! Failures that the library reports to its callers.
use vstd::prelude::*;

verus! {

/// Why an operation did not produce its result.
#[derive(Clone, Copy, Debug, PartialEq, Eq, Structural)]
pub enum RsaError {
    /// A search for a prime pair or a blinding factor ran out of attempts:
    /// `bits` is the bit length searched for, `rounds` the Miller-Rabin
    /// round count (both 0 for a blinding factor), and `attempts` the
    /// ceiling that was reached.
    SearchExhausted { bits: u64, rounds: u32, attempts: u32 },
    /// The public exponent has no inverse modulo the totient of the
    /// chosen primes.
    NoModularInverse,
    /// An input lies outside the domain of the operation.
    DomainViolation,
}

} // verus!
