//! Raw (unpadded) RSA signing and verification.
use crate::bignum::{big_eq, big_lt, big_modpow, Big};
use crate::error::RsaError;
use crate::keys::KeyPair;
use crate::keys::totient;
use crate::number_theory::{is_prime, lemma_crt_distinct_primes, lemma_exponent_identity_mod_prime};
use vstd::arithmetic::div_mod::lemma_mod_bound;
use vstd::arithmetic::mul::lemma_mul_is_commutative;
use vstd::arithmetic::power::{lemma_pow_mod_noop, lemma_pow_multiplies, pow};
use vstd::prelude::*;

verus! {

/// `x ^ exponent mod n`.
pub open spec fn raw_rsa(x: nat, exponent: nat, n: nat) -> nat
    recommends
        n > 0,
{
    (pow(x as int, exponent) % (n as int)) as nat
}

/// Whether `s` is a valid raw signature on `m` under modulus `n` and public
/// exponent `e`.
pub open spec fn verifies(m: nat, s: nat, e: nat, n: nat) -> bool {
    n > 0 && m == raw_rsa(s, e, n)
}

/// Signs `m` as `m ^ d mod n`; a message that is not below the modulus is
/// refused.
pub fn sign(m: &Big, key_pair: &KeyPair) -> (r: Result<Big, RsaError>)
    ensures
        r is Err <==> m.val() >= key_pair.n(),
        r is Err ==> r == Err::<Big, RsaError>(RsaError::DomainViolation),
        r matches Ok(s) ==> s.val() == raw_rsa(m.val(), key_pair.d(), key_pair.n()),
{
    if !big_lt(m, &key_pair.public_key.n) {
        return Err(RsaError::DomainViolation);
    }
    Ok(big_modpow(m, &key_pair.private_key.d, &key_pair.public_key.n))
}

/// Whether `s ^ e mod n` equals `m`; never under a zero modulus.
pub fn verify(m: &Big, s: &Big, key_pair: &KeyPair) -> (r: bool)
    ensures
        r == verifies(m.val(), s.val(), key_pair.e(), key_pair.n()),
{
    let zero = Big::from_u64(0);
    if !big_lt(&zero, &key_pair.public_key.n) {
        return false;
    }
    let x = big_modpow(s, &key_pair.public_key.e, &key_pair.public_key.n);
    big_eq(m, &x)
}

/// Under a key pair whose factors are prime, raising any `x < n` to `d * e`
/// gives back `x` modulo `n`.
pub proof fn lemma_exponent_identity(kp: KeyPair, x: nat)
    requires
        kp.wf(),
        is_prime(kp.p()),
        is_prime(kp.q()),
        x < kp.n(),
    ensures
        pow(x as int, kp.d() * kp.e()) % (kp.n() as int) == x,
{
    let (e, d, p, q) = (kp.e(), kp.d(), kp.p(), kp.q());
    lemma_mul_is_commutative(e as int, d as int);
    lemma_mul_is_commutative((p - 1) as int, (q - 1) as int);
    assert((d * e) % totient(p, q) == 1);
    lemma_exponent_identity_mod_prime(x, p, (q - 1) as nat, d * e);
    lemma_exponent_identity_mod_prime(x, q, (p - 1) as nat, d * e);
    lemma_crt_distinct_primes(pow(x as int, d * e), x, p, q);
}

/// Under a key pair whose factors are prime, the only signature below `n`
/// that verifies on `m` is `m^d mod n`.
pub proof fn lemma_signature_unique(kp: KeyPair, m: nat, s: nat)
    requires
        kp.wf(),
        is_prime(kp.p()),
        is_prime(kp.q()),
        s < kp.n(),
        verifies(m, s, kp.e(), kp.n()),
    ensures
        s == raw_rsa(m, kp.d(), kp.n()),
{
    let (n, e, d) = (kp.n() as int, kp.e(), kp.d());
    let ps = pow(s as int, e);
    lemma_pow_mod_noop(ps, d, n);
    lemma_pow_multiplies(s as int, e, d);
    lemma_mul_is_commutative(e as int, d as int);
    lemma_exponent_identity(kp, s);
}

/// Signing round-trips: under a key pair whose two factors are prime, the
/// raw signature `m^d mod n` on any message `m < n` verifies.
pub proof fn lemma_sign_verify_round_trip(kp: KeyPair, m: nat)
    requires
        kp.wf(),
        is_prime(kp.p()),
        is_prime(kp.q()),
        m < kp.n(),
    ensures
        verifies(m, raw_rsa(m, kp.d(), kp.n()), kp.e(), kp.n()),
{
    let (n, e, d, p, q) = (kp.n(), kp.e(), kp.d(), kp.p(), kp.q());
    let nn = n as int;
    assert(n >= 9) by (nonlinear_arith)
        requires
            p >= 3,
            q >= 3,
            n == p * q,
    ;
    let pd = pow(m as int, d);
    lemma_mod_bound(pd, nn);
    lemma_pow_mod_noop(pd, e, nn);
    lemma_pow_multiplies(m as int, d, e);
    lemma_exponent_identity(kp, m);
}

} // verus!
