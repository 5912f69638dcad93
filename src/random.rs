//! Draws from a seeded random source.
use crate::bignum::Big;
use num_bigint::{BigUint, RandBigInt};
use num_prime::RandPrime;
use rand::rngs::StdRng;
use vstd::arithmetic::power2::pow2;
use vstd::prelude::*;

verus! {

/// rand's seeded standard generator, carried through opaque.
#[verifier::external_type_specification]
#[verifier::external_body]
pub struct ExStdRng(StdRng);

/// Relies on num_bigint's `RandBigInt::gen_biguint_range`: a value in
/// `[low, high)`; it panics unless `low < high`.
#[verifier::external_body]
pub(crate) fn random_in_range(rng: &mut StdRng, low: &Big, high: &Big) -> (r: Big)
    requires
        low.val() < high.val(),
    ensures
        low.val() <= r.val() < high.val(),
{
    let l = BigUint::new(low.digits.clone());
    Big { digits: rng.gen_biguint_range(&l, &BigUint::new(high.digits.clone())).to_u32_digits() }
}

/// Relies on num_prime's `RandPrime::gen_prime_exact` for `BigUint`: it sets
/// bit `bits - 1` of a random draw and returns it or the next probable prime
/// above it; it panics when `bits` is zero.
#[verifier::external_body]
pub(crate) fn random_prime_exact(rng: &mut StdRng, bits: usize) -> (r: Big)
    requires
        bits >= 1,
    ensures
        r.val() >= pow2((bits - 1) as nat),
{
    let p: BigUint = rng.gen_prime_exact(bits, None);
    Big { digits: p.to_u32_digits() }
}

/// Relies on num_prime's `RandPrime::gen_prime` for `BigUint`: an odd draw
/// of at most `bits` bits when it passes `is_prime`, else the next probable
/// prime above it, so never 0 or 1; it panics when `bits` is zero.
#[verifier::external_body]
pub(crate) fn random_prime(rng: &mut StdRng, bits: usize) -> (r: Big)
    requires
        bits >= 1,
    ensures
        r.val() >= 2,
{
    let p: BigUint = rng.gen_prime(bits, None);
    Big { digits: p.to_u32_digits() }
}

} // verus!
