//! Generation of RSA key pairs from random primes, with independently drawn
//! factors or with factors tied by `p - 1 = c * q`.
use crate::bignum::{big_add, big_div, big_lt, big_mul, big_pow, big_sub, Big};
use crate::error::RsaError;
use crate::keys::KeyPair;
use crate::primality::{is_probably_prime, passes_all, quick_prime_test};
use crate::random::{random_prime, random_prime_exact};
use rand::rngs::StdRng;
use vstd::arithmetic::div_mod::lemma_fundamental_div_mod_converse;
use vstd::arithmetic::power::{lemma_pow_positive, pow};
use vstd::arithmetic::power2::pow2;
use vstd::prelude::*;

verus! {

/// How much the cofactor grows after each rejected candidate.
pub const COFACTOR_STEP: u64 = 10;

/// Some `rounds` bases that `n` passes were tried on it.
pub open spec fn passed_rounds(n: nat, rounds: nat) -> bool {
    exists|bases: Seq<nat>| bases.len() == rounds && passes_all(n, bases)
}

/// A key pair whose factors both passed `rounds` Miller-Rabin rounds.
pub open spec fn verified_key(kp: KeyPair, rounds: nat) -> bool {
    kp.wf() && passed_rounds(kp.p(), rounds) && passed_rounds(kp.q(), rounds)
}

/// Whether `candidate` passes all of `rounds` Miller-Rabin rounds; a
/// candidate below 4 never does.
fn survives(candidate: &Big, rounds: u32, rng: &mut StdRng) -> (r: bool)
    ensures
        r ==> candidate.val() >= 4 && passed_rounds(candidate.val(), rounds as nat),
{
    match is_probably_prime(candidate, rounds, rng) {
        Ok(b) => b,
        Err(_) => false,
    }
}

/// The error of a search over primes of `bits` bits with `rounds` rounds
/// that ran out of `attempts`.
pub open spec fn exhausted(bits: nat, rounds: u32, attempts: u32) -> RsaError {
    RsaError::SearchExhausted { bits: bits as u64, rounds, attempts }
}

/// Draws two primes of `bits` bits at a time until both pass `rounds`
/// Miller-Rabin rounds and yield a key pair, for at most `max_attempts` pairs.
pub fn keygen(bits: usize, rounds: u32, max_attempts: u32, rng: &mut StdRng) -> (r: Result<
    KeyPair,
    RsaError,
>)
    ensures
        r == Err::<KeyPair, RsaError>(RsaError::DomainViolation) <==> (bits < 3 || rounds == 0),
        r is Err ==> r == Err::<KeyPair, RsaError>(RsaError::DomainViolation) || r == Err::<
            KeyPair,
            RsaError,
        >(exhausted(bits as nat, rounds, max_attempts)),
        max_attempts == 0 && bits >= 3 && rounds > 0 ==> r == Err::<KeyPair, RsaError>(
            exhausted(bits as nat, rounds, max_attempts),
        ),
        r matches Ok(kp) ==> verified_key(kp, rounds as nat),
        r matches Ok(kp) ==> kp.p() >= pow2((bits - 1) as nat) && kp.q() >= pow2(
            (bits - 1) as nat,
        ),
{
    if bits < 3 || rounds == 0 {
        return Err(RsaError::DomainViolation);
    }
    let mut attempts: u32 = 0;
    while attempts < max_attempts
        invariant
            bits >= 3,
            rounds > 0,
        decreases max_attempts - attempts,
    {
        let p = random_prime_exact(rng, bits);
        let q = random_prime_exact(rng, bits);
        if survives(&p, rounds, rng) && survives(&q, rounds, rng) {
            match KeyPair::from_primes(p, q) {
                Ok(kp) => {
                    return Ok(kp);
                },
                Err(_) => {},
            }
        }
        attempts = attempts + 1;
    }
    Err(RsaError::SearchExhausted { bits: bits as u64, rounds, attempts: max_attempts })
}

/// A key pair from the structured search, with the cofactor `c` that gave
/// `p = c * q + 1`.
#[derive(Clone, Debug)]
pub struct StructuredKeyPair {
    pub key_pair: KeyPair,
    pub cofactor: Big,
}

impl StructuredKeyPair {
    pub open spec fn wf(&self, rounds: nat) -> bool {
        &&& verified_key(self.key_pair, rounds)
        &&& self.key_pair.p() == self.cofactor.val() * self.key_pair.q() + 1
    }
}

/// The first cofactor tried for `q`: `(2^p_bits - 1) / q`.
pub open spec fn start_cofactor(p_bits: nat, q: nat) -> nat {
    ((pow(2, p_bits) - 1) as nat) / q
}

/// The cofactor was reached from the start value in fewer than
/// `max_attempts` steps.
pub open spec fn reached_cofactor(c: nat, p_bits: nat, q: nat, max_attempts: nat) -> bool {
    exists|k: nat| k < max_attempts && c == start_cofactor(p_bits, q) + #[trigger] (COFACTOR_STEP * k)
}

/// For a drawn `q`, tries `p = c * q + 1` for `c` from `(2^p_bits - 1) / q`
/// upwards in steps of `COFACTOR_STEP`, at most `max_attempts` values; a `p`
/// that passes the quick test and, with `q`, `rounds` Miller-Rabin rounds
/// and has a key derived from it is returned.
pub fn search_cofactor(q: &Big, p_bits: u32, rounds: u32, max_attempts: u32, rng: &mut StdRng) -> (r:
    Option<StructuredKeyPair>)
    requires
        q.val() > 0,
        rounds > 0,
    ensures
        max_attempts == 0 ==> r is None,
        r matches Some(skp) ==> {
            &&& skp.wf(rounds as nat)
            &&& skp.key_pair.q() == q.val()
            &&& reached_cofactor(skp.cofactor.val(), p_bits as nat, q.val(), max_attempts as nat)
        },
{
    let one = Big::from_u64(1);
    let step = Big::from_u64(COFACTOR_STEP);
    let power = big_pow(&Big::from_u64(2), p_bits);
    proof {
        lemma_pow_positive(2, p_bits as nat);
    }
    let bound = big_sub(&power, &one);
    let mut c = big_div(&bound, q);
    let mut attempts: u32 = 0;
    while attempts < max_attempts
        invariant
            q.val() > 0,
            rounds > 0,
            one.val() == 1,
            step.val() == COFACTOR_STEP,
            attempts <= max_attempts,
            c.val() == start_cofactor(p_bits as nat, q.val()) + COFACTOR_STEP * attempts,
        decreases max_attempts - attempts,
    {
        let p = big_add(&big_mul(&c, q), &one);
        if quick_prime_test(&p) && survives(&p, rounds, rng) && survives(q, rounds, rng) {
            let cofactor = c.duplicate();
            match KeyPair::from_primes(p, q.duplicate()) {
                Ok(key_pair) => {
                    assert(reached_cofactor(
                        cofactor.val(),
                        p_bits as nat,
                        q.val(),
                        max_attempts as nat,
                    )) by {
                        assert((attempts as nat) < (max_attempts as nat));
                    }
                    return Some(StructuredKeyPair { key_pair, cofactor });
                },
                Err(_) => {},
            }
        }
        c = big_add(&c, &step);
        attempts = attempts + 1;
    }
    None
}

/// Searches for primes with `p - 1 = c * q`: draws a prime `q` of about
/// `q_bits` bits and runs `search_cofactor` on it, for at most `max_draws`
/// values of `q`.
pub fn dsa_keygen(
    q_bits: usize,
    p_bits: u32,
    rounds: u32,
    max_attempts: u32,
    max_draws: u32,
    rng: &mut StdRng,
) -> (r: Result<StructuredKeyPair, RsaError>)
    ensures
        r == Err::<StructuredKeyPair, RsaError>(RsaError::DomainViolation) <==> (q_bits == 0
            || rounds == 0),
        r is Err ==> r == Err::<StructuredKeyPair, RsaError>(RsaError::DomainViolation) || r
            == Err::<StructuredKeyPair, RsaError>(exhausted(p_bits as nat, rounds, max_draws)),
        (max_attempts == 0 || max_draws == 0) && q_bits > 0 && rounds > 0 ==> r == Err::<
            StructuredKeyPair,
            RsaError,
        >(exhausted(p_bits as nat, rounds, max_draws)),
        r matches Ok(skp) ==> skp.wf(rounds as nat),
        r matches Ok(skp) ==> ((skp.key_pair.p() - 1) as nat) % skp.key_pair.q() == 0 && ((
        skp.key_pair.p() - 1) as nat) / skp.key_pair.q() == skp.cofactor.val(),
        r matches Ok(skp) ==> reached_cofactor(
            skp.cofactor.val(),
            p_bits as nat,
            skp.key_pair.q(),
            max_attempts as nat,
        ),
{
    if q_bits == 0 || rounds == 0 {
        return Err(RsaError::DomainViolation);
    }
    let mut draws: u32 = 0;
    while draws < max_draws
        invariant
            q_bits > 0,
            rounds > 0,
        decreases max_draws - draws,
    {
        let q = random_prime(rng, q_bits);
        match search_cofactor(&q, p_bits, rounds, max_attempts, rng) {
            Some(skp) => {
                proof {
                    lemma_fundamental_div_mod_converse(
                        (skp.key_pair.p() - 1) as int,
                        skp.key_pair.q() as int,
                        skp.cofactor.val() as int,
                        0,
                    );
                }
                return Ok(skp);
            },
            None => {},
        }
        draws = draws + 1;
    }
    Err(RsaError::SearchExhausted { bits: p_bits as u64, rounds, attempts: max_draws })
}

} // verus!
