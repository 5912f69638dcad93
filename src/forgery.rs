//! The blinding forgery: a valid raw signature on a chosen message, made
//! from one answer of a signing oracle on a disguised message and the
//! public key alone.
use crate::bignum::{big_eq, big_lt, big_modinv, big_modpow, big_mul, big_rem, is_mod_inverse, Big};
use crate::error::RsaError;
use crate::keys::KeyPair;
use crate::random::random_in_range;
use crate::number_theory::is_prime;
use crate::signature::{lemma_sign_verify_round_trip, lemma_signature_unique, raw_rsa, sign, verifies};
use rand::rngs::StdRng;
use vstd::arithmetic::div_mod::{
    lemma_mul_mod_noop_left, lemma_mul_mod_noop_right, lemma_small_mod,
};
use vstd::arithmetic::mul::{lemma_mul_is_associative, lemma_mul_is_commutative};
use vstd::arithmetic::power::{lemma1_pow, lemma_pow_distributes, lemma_pow_mod_noop, pow};
use vstd::prelude::*;

verus! {

/// The disguised message `(r ^ e mod n) * m mod n` handed to the oracle.
pub open spec fn blind(r: nat, e: nat, m: nat, n: nat) -> nat
    recommends
        n > 0,
{
    (raw_rsa(r, e, n) * m) % n
}

/// The oracle's answer with the blinding removed: `r_inv * answer mod n`.
pub open spec fn unblind(r_inv: nat, answer: nat, n: nat) -> nat
    recommends
        n > 0,
{
    (r_inv * answer) % n
}

/// The values of one forgery attempt.
#[derive(Clone, Debug)]
pub struct ForgeryContext {
    /// The blinding factor `r`.
    pub blinding: Big,
    /// The inverse of `r` modulo `n`.
    pub blinding_inverse: Big,
    /// The message `m` that the forged signature is for.
    pub message: Big,
    /// The query `(r ^ e mod n) * m mod n` sent to the oracle.
    pub query: Big,
    /// The oracle's signature on the query.
    pub answer: Big,
    /// The forged signature on `m`.
    pub signature: Big,
}

impl ForgeryContext {
    /// The steps of the protocol, carried out under the key pair `kp`.
    pub open spec fn wf(&self, kp: KeyPair) -> bool {
        let n = kp.n();
        let r = self.blinding.val();
        &&& 2 <= r < n
        &&& raw_rsa(r, kp.e(), n) != 1
        &&& is_mod_inverse(r, self.blinding_inverse.val(), n)
        &&& self.query.val() == blind(r, kp.e(), self.message.val(), n)
        &&& self.answer.val() == raw_rsa(self.query.val(), kp.d(), n)
        &&& self.signature.val() == unblind(self.blinding_inverse.val(), self.answer.val(), n)
    }
}

proof fn lemma_pow_product_mod(a: int, b: int, e: nat, n: int)
    requires
        n > 0,
    ensures
        pow((a * b) % n, e) % n == (pow(a, e) * pow(b, e)) % n,
{
    lemma_pow_mod_noop(a * b, e, n);
    lemma_pow_distributes(a, b, e);
}

proof fn lemma_unit_pow(x: int, e: nat, n: int)
    requires
        n > 1,
        x % n == 1,
    ensures
        pow(x, e) % n == 1,
{
    lemma_pow_mod_noop(x, e, n);
    lemma1_pow(e);
    lemma_small_mod(1, n as nat);
}

/// Unblinding keeps validity: for a blinding factor `r` with inverse `r_inv`
/// modulo `n`, the unblinded answer `r_inv * answer mod n` is a valid
/// signature on `m` exactly when `answer` is a valid signature on the blinded
/// message `(r ^ e mod n) * m mod n`.
pub proof fn lemma_unblinding_keeps_validity(
    n: nat,
    e: nat,
    m: nat,
    r: nat,
    r_inv: nat,
    answer: nat,
)
    requires
        n > 1,
        m < n,
        answer < n,
        is_mod_inverse(r, r_inv, n),
    ensures
        verifies(m, unblind(r_inv, answer, n), e, n) == verifies(blind(r, e, m, n), answer, e, n),
{
    let nn = n as int;
    let s = unblind(r_inv, answer, n) as int;
    let t = blind(r, e, m, n) as int;
    let pr = pow(r as int, e);
    let pinv = pow(r_inv as int, e);
    let pa = pow(answer as int, e);
    let ps = pow(s, e);
    lemma_small_mod(1, n);
    lemma_small_mod(m, n);
    lemma_small_mod(answer, n);
    assert((r * r_inv) % n == 1);
    if verifies(blind(r, e, m, n), answer, e, n) {
        assert(pa % nn == t);
        lemma_pow_product_mod(r_inv as int, answer as int, e, nn);
        assert(ps % nn == (pinv * pa) % nn);
        lemma_mul_mod_noop_right(pinv, pa, nn);
        lemma_mul_mod_noop_right(pinv, (pr % nn) * m, nn);
        lemma_mul_is_associative(pinv, pr % nn, m as int);
        lemma_mul_mod_noop_left(pinv * (pr % nn), m as int, nn);
        lemma_mul_mod_noop_right(pinv, pr, nn);
        lemma_pow_distributes(r_inv as int, r as int, e);
        lemma_mul_is_commutative(r_inv as int, r as int);
        lemma_unit_pow((r_inv * r) as int, e, nn);
        assert((pinv * (pr % nn)) % nn == 1);
        assert(t == ((pr % nn) * m) % nn);
        assert(ps % nn == (pinv * t) % nn);
        assert((pinv * t) % nn == (pinv * ((pr % nn) * m)) % nn);
        assert((pinv * ((pr % nn) * m)) % nn == ((pinv * (pr % nn)) * m) % nn);
        assert(((pinv * (pr % nn)) * m) % nn == (1 * (m as int)) % nn);
        assert(ps % nn == m);
    }
    if verifies(m, unblind(r_inv, answer, n), e, n) {
        assert(ps % nn == m);
        lemma_mul_mod_noop_right(r as int, (r_inv * answer) as int, nn);
        lemma_mul_is_associative(r as int, r_inv as int, answer as int);
        lemma_mul_mod_noop_left((r * r_inv) as int, answer as int, nn);
        assert((r * s) % nn == answer);
        lemma_pow_product_mod(r as int, s, e, nn);
        assert(pa % nn == (pr * ps) % nn);
        lemma_mul_mod_noop_right(pr, ps, nn);
        lemma_mul_mod_noop_left(pr, m as int, nn);
        assert(pa % nn == t);
    }
}

/// The forgery succeeds: under a key pair whose two factors are prime, the
/// signature of every completed attempt on a message `m < n` verifies on `m`.
pub proof fn lemma_forgery_verifies(kp: KeyPair, ctx: ForgeryContext)
    requires
        kp.wf(),
        is_prime(kp.p()),
        is_prime(kp.q()),
        ctx.wf(kp),
        ctx.message.val() < kp.n(),
    ensures
        verifies(ctx.message.val(), ctx.signature.val(), kp.e(), kp.n()),
{
    let n = kp.n();
    assert(n >= 9) by (nonlinear_arith)
        requires
            kp.p() >= 3,
            kp.q() >= 3,
            n == kp.p() * kp.q(),
    ;
    lemma_sign_verify_round_trip(kp, ctx.query.val());
    lemma_unblinding_keeps_validity(
        n,
        kp.e(),
        ctx.message.val(),
        ctx.blinding.val(),
        ctx.blinding_inverse.val(),
        ctx.answer.val(),
    );
}

/// One forgery attempt with the blinding factor `r`: it fails when
/// `r ^ e mod n == 1` or `r` has no inverse modulo `n`; otherwise it asks the
/// signing oracle for a signature `s'` on `(r ^ e mod n) * m mod n` and
/// unblinds it to `r^-1 * s' mod n`.
pub fn forge_with_factor(m: &Big, key_pair: &KeyPair, r: Big) -> (res: Option<ForgeryContext>)
    requires
        key_pair.wf(),
        m.val() < key_pair.n(),
        2 <= r.val() < key_pair.n(),
    ensures
        res is Some <==> (raw_rsa(r.val(), key_pair.e(), key_pair.n()) != 1 && exists|x: nat|
            is_mod_inverse(r.val(), x, key_pair.n())),
        res matches Some(ctx) ==> {
            &&& ctx.blinding.val() == r.val()
            &&& ctx.message.val() == m.val()
            &&& ctx.wf(*key_pair)
            &&& verifies(m.val(), ctx.signature.val(), key_pair.e(), key_pair.n()) == verifies(
                ctx.query.val(),
                ctx.answer.val(),
                key_pair.e(),
                key_pair.n(),
            )
            &&& (is_prime(key_pair.p()) && is_prime(key_pair.q()) ==> verifies(
                m.val(),
                ctx.signature.val(),
                key_pair.e(),
                key_pair.n(),
            ))
            &&& (is_prime(key_pair.p()) && is_prime(key_pair.q()) ==> ctx.signature.val()
                == raw_rsa(m.val(), key_pair.d(), key_pair.n()))
        },
{
    let n = &key_pair.public_key.n;
    let one = Big::from_u64(1);
    let re = big_modpow(&r, &key_pair.public_key.e, n);
    if big_eq(&re, &one) {
        return None;
    }
    let query = big_rem(&big_mul(&re, m), n);
    let answer = match sign(&query, key_pair) {
        Ok(s) => s,
        Err(_) => {
            return None;
        },
    };
    match big_modinv(&r, n) {
        Some(r_inv) => {
            let signature = big_rem(&big_mul(&r_inv, &answer), n);
            let ctx = ForgeryContext {
                blinding: r,
                blinding_inverse: r_inv,
                message: m.duplicate(),
                query,
                answer,
                signature,
            };
            proof {
                if is_prime(key_pair.p()) && is_prime(key_pair.q()) {
                    lemma_forgery_verifies(*key_pair, ctx);
                    lemma_signature_unique(*key_pair, m.val(), ctx.signature.val());
                }
                lemma_unblinding_keeps_validity(
                    n.val(),
                    key_pair.e(),
                    m.val(),
                    ctx.blinding.val(),
                    ctx.blinding_inverse.val(),
                    ctx.answer.val(),
                );
            }
            Some(ctx)
        },
        None => None,
    }
}

/// Forges a signature on `m` without signing `m`: draws blinding factors
/// from `2 .. n` and runs `forge_with_factor` on each, for at most
/// `max_attempts` draws.
pub fn universal_forgery(m: &Big, key_pair: &KeyPair, max_attempts: u32, rng: &mut StdRng) -> (r:
    Result<ForgeryContext, RsaError>)
    requires
        key_pair.wf(),
    ensures
        r == Err::<ForgeryContext, RsaError>(RsaError::DomainViolation) <==> m.val()
            >= key_pair.n(),
        r is Err ==> r == Err::<ForgeryContext, RsaError>(RsaError::DomainViolation) || r
            == Err::<ForgeryContext, RsaError>(
            RsaError::SearchExhausted { bits: 0, rounds: 0, attempts: max_attempts },
        ),
        max_attempts == 0 && m.val() < key_pair.n() ==> r == Err::<ForgeryContext, RsaError>(
            RsaError::SearchExhausted { bits: 0, rounds: 0, attempts: max_attempts },
        ),
        r matches Ok(ctx) ==> {
            &&& ctx.message.val() == m.val()
            &&& ctx.wf(*key_pair)
            &&& verifies(m.val(), ctx.signature.val(), key_pair.e(), key_pair.n()) == verifies(
                ctx.query.val(),
                ctx.answer.val(),
                key_pair.e(),
                key_pair.n(),
            )
        },
        r matches Ok(ctx) ==> (is_prime(key_pair.p()) && is_prime(key_pair.q()) ==> verifies(
            m.val(),
            ctx.signature.val(),
            key_pair.e(),
            key_pair.n(),
        ) && ctx.signature.val() == raw_rsa(m.val(), key_pair.d(), key_pair.n())),
{
    let n = &key_pair.public_key.n;
    if !big_lt(m, n) {
        return Err(RsaError::DomainViolation);
    }
    proof {
        let (p, q) = (key_pair.p(), key_pair.q());
        assert(p * q >= 9) by (nonlinear_arith)
            requires
                p >= 3,
                q >= 3,
        ;
    }
    let two = Big::from_u64(2);
    let mut attempts: u32 = 0;
    while attempts < max_attempts
        invariant
            key_pair.wf(),
            n == &key_pair.public_key.n,
            n.val() >= 9,
            m.val() < n.val(),
            two.val() == 2,
        decreases max_attempts - attempts,
    {
        let r = random_in_range(rng, &two, n);
        match forge_with_factor(m, key_pair, r) {
            Some(ctx) => {
                return Ok(ctx);
            },
            None => {},
        }
        attempts = attempts + 1;
    }
    Err(RsaError::SearchExhausted { bits: 0, rounds: 0, attempts: max_attempts })
}

} // verus!
