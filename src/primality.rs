//! Probabilistic primality testing by repeated Miller-Rabin rounds.
use crate::bignum::{big_lt, big_sub, Big};
use crate::error::RsaError;
use crate::number_theory::{is_prime, lemma_fermat_unit, lemma_square_root_of_one};
use crate::random::random_in_range;
use num_bigint::BigUint;
use num_prime::PrimalityUtils;
use rand::rngs::StdRng;
use vstd::arithmetic::div_mod::{lemma_mul_mod_noop, lemma_small_mod};
use vstd::arithmetic::power::{lemma_pow_multiplies, lemma_pow_positive, pow};
use vstd::prelude::*;

verus! {

/// `u` is odd and `u * 2^s == x`.
pub open spec fn odd_decomposition(x: int, s: nat, u: nat) -> bool {
    u % 2 == 1 && u * pow(2, s) == x
}

/// `b^(u * 2^i) mod n`.
pub open spec fn square_chain(n: nat, b: nat, u: nat, i: nat) -> int {
    pow(b as int, u * (pow(2, i) as nat)) % (n as int)
}

/// The strong probable prime test of `n` to base `b`: with `n - 1 = u * 2^s`
/// and `u` odd, either `b^u mod n` is 1 or one of `b^(u * 2^i) mod n` for
/// `i <= s` is `n - 1`.
pub open spec fn strong_probable_prime(n: nat, b: nat) -> bool {
    exists|s: nat, u: nat|
        #[trigger] odd_decomposition(n - 1, s, u) && (square_chain(n, b, u, 0) == 1 || exists|
            i: nat,
        | i <= s && #[trigger] square_chain(n, b, u, i) == n - 1)
}

/// Relies on num_prime's `PrimalityUtils::is_sprp` for `BigUint`: with
/// `n - 1 = u * 2^s`, it computes `x = base^u mod n`, accepts when `x` is 1
/// or `n - 1`, then squares `x` modulo `n` up to `s` times, rejecting at 1
/// and accepting at `n - 1`, and rejects at the end.
#[verifier::external_body]
fn sprp_test(n: &Big, base: &Big) -> (r: bool)
    requires
        n.val() >= 3,
    ensures
        r == strong_probable_prime(n.val(), base.val()),
{
    BigUint::new(n.digits.clone()).is_sprp(BigUint::new(base.digits.clone()))
}

/// Relies on num_prime's `nt_funcs::is_prime` with the Baillie-PSW settings
/// (no random bases), read through `Primality::probably`; the answer is not
/// stated.
#[verifier::external_body]
pub(crate) fn quick_prime_test(n: &Big) -> (r: bool) {
    let config = Some(num_prime::PrimalityTestConfig::bpsw());
    num_prime::nt_funcs::is_prime(&BigUint::new(n.digits.clone()), config).probably()
}

/// A Miller-Rabin base for `n`: one of `2 ..= n - 2`.
pub open spec fn is_base_for(n: nat, b: nat) -> bool {
    2 <= b && b + 2 <= n
}

/// `b` is a base for `n` that shows `n` composite.
pub open spec fn is_witness(n: nat, b: nat) -> bool {
    is_base_for(n, b) && !strong_probable_prime(n, b)
}

/// Every base in `bases` is a base for `n` that `n` passes.
pub open spec fn passes_all(n: nat, bases: Seq<nat>) -> bool {
    forall|i: int| 0 <= i < bases.len() ==> is_base_for(n, #[trigger] bases[i])
        && strong_probable_prime(n, bases[i])
}

proof fn odd_part(x: nat) -> (r: (nat, nat))
    requires
        x > 0,
    ensures
        odd_decomposition(x as int, r.0, r.1),
    decreases x,
{
    reveal(pow);
    if x % 2 == 1 {
        assert(pow(2, 0) == 1);
        (0, x)
    } else {
        let (s, u) = odd_part(x / 2);
        assert(pow(2, s + 1) == 2 * pow(2, s));
        assert(u * pow(2, s + 1) == 2 * (u * pow(2, s))) by (nonlinear_arith)
            requires
                pow(2, s + 1) == 2 * pow(2, s),
        ;
        (s + 1, u)
    }
}

proof fn lemma_square_chain_step(n: nat, b: nat, u: nat, i: nat)
    requires
        n > 0,
    ensures
        square_chain(n, b, u, i + 1) == (square_chain(n, b, u, i) * square_chain(n, b, u, i)) % (
        n as int),
{
    reveal(pow);
    let e = u * (pow(2, i) as nat);
    let e2 = u * (pow(2, i + 1) as nat);
    assert(pow(2, i) >= 0) by {
        lemma_pow_positive(2, i);
    }
    assert(pow(2, i + 1) == 2 * pow(2, i));
    assert(e2 == e * 2) by (nonlinear_arith)
        requires
            e == u * (pow(2, i) as nat),
            e2 == u * (pow(2, i + 1) as nat),
            pow(2, i + 1) == 2 * pow(2, i),
            pow(2, i) >= 0,
    ;
    lemma_pow_multiplies(b as int, e, 2);
    let y = pow(b as int, e);
    assert(pow(y, 2) == y * pow(y, 1));
    assert(pow(y, 1) == y * pow(y, 0));
    assert(pow(y, 2) == y * y);
    lemma_mul_mod_noop(y, y, n as int);
}

proof fn lemma_last_before_one(p: nat, b: nat, u: nat, s: nat) -> (i: nat)
    requires
        square_chain(p, b, u, 0) != 1,
        square_chain(p, b, u, s) == 1,
    ensures
        i < s,
        square_chain(p, b, u, i) != 1,
        square_chain(p, b, u, i + 1) == 1,
    decreases s,
{
    let j = (s - 1) as nat;
    if square_chain(p, b, u, j) != 1 {
        j
    } else {
        lemma_last_before_one(p, b, u, j)
    }
}

/// A prime passes the strong probable prime test to every base that it
/// does not divide.
pub proof fn lemma_prime_is_strong_probable_prime(p: nat, b: nat)
    requires
        is_prime(p),
        p >= 3,
        1 <= b < p,
    ensures
        strong_probable_prime(p, b),
{
    let (s, u) = odd_part((p - 1) as nat);
    lemma_small_mod(b, p);
    lemma_fermat_unit(b, p);
    lemma_pow_positive(2, s);
    assert(u * (pow(2, s) as nat) == p - 1);
    assert(square_chain(p, b, u, s) == 1);
    if square_chain(p, b, u, 0) != 1 {
        let i = lemma_last_before_one(p, b, u, s);
        lemma_square_chain_step(p, b, u, i);
        let x = square_chain(p, b, u, i);
        assert(0 <= x < p);
        lemma_square_root_of_one(p, x as nat);
        assert(square_chain(p, b, u, i) == p - 1);
    }
    assert(odd_decomposition(p - 1, s, u));
}

/// Runs one Miller-Rabin round on `candidate` for each of `bases` in order,
/// stopping at the first base that finds it composite.
pub fn miller_rabin(candidate: &Big, bases: &Vec<Big>) -> (r: Result<bool, RsaError>)
    ensures
        r is Err <==> candidate.val() < 4,
        r is Err ==> r == Err::<bool, RsaError>(RsaError::DomainViolation),
        r matches Ok(b) ==> (b <==> forall|i: int|
            0 <= i < bases@.len() ==> strong_probable_prime(
                candidate.val(),
                #[trigger] bases@[i].val(),
            )),
{
    let four = Big::from_u64(4);
    if big_lt(candidate, &four) {
        return Err(RsaError::DomainViolation);
    }
    let mut i: usize = 0;
    while i < bases.len()
        invariant
            i <= bases@.len(),
            candidate.val() >= 4,
            forall|j: int| 0 <= j < i ==> strong_probable_prime(
                candidate.val(),
                #[trigger] bases@[j].val(),
            ),
        decreases bases@.len() - i,
    {
        if !sprp_test(candidate, &bases[i]) {
            return Ok(false);
        }
        i = i + 1;
    }
    Ok(true)
}

/// Runs `rounds` Miller-Rabin rounds on `candidate`, each with a fresh random
/// base from `2 ..= candidate - 2`, and stops at the first round that finds it
/// composite.
pub fn is_probably_prime(candidate: &Big, rounds: u32, rng: &mut StdRng) -> (r: Result<
    bool,
    RsaError,
>)
    ensures
        r is Err <==> (candidate.val() < 4 || rounds == 0),
        r is Err ==> r == Err::<bool, RsaError>(RsaError::DomainViolation),
        r == Ok::<bool, RsaError>(false) ==> exists|b: nat| is_witness(candidate.val(), b),
        r == Ok::<bool, RsaError>(true) ==> exists|bases: Seq<nat>|
            bases.len() == rounds && passes_all(candidate.val(), bases),
        r == Ok::<bool, RsaError>(false) ==> !is_prime(candidate.val()),
        is_prime(candidate.val()) && candidate.val() >= 4 && rounds > 0 ==> r == Ok::<
            bool,
            RsaError,
        >(true),
{
    let four = Big::from_u64(4);
    if rounds == 0 || big_lt(candidate, &four) {
        return Err(RsaError::DomainViolation);
    }
    let two = Big::from_u64(2);
    let one = Big::from_u64(1);
    let high = big_sub(candidate, &one);
    let ghost mut bases: Seq<nat> = Seq::empty();
    let mut i: u32 = 0;
    while i < rounds
        invariant
            i <= rounds,
            bases.len() == i,
            passes_all(candidate.val(), bases),
            two.val() == 2,
            high.val() + 1 == candidate.val(),
            candidate.val() >= 4,
        decreases rounds - i,
    {
        let base = random_in_range(rng, &two, &high);
        proof {
            if is_prime(candidate.val()) {
                lemma_prime_is_strong_probable_prime(candidate.val(), base.val());
            }
        }
        if !sprp_test(candidate, &base) {
            assert(is_witness(candidate.val(), base.val()));
            return Ok(false);
        }
        proof {
            bases = bases.push(base.val());
            assert(bases[bases.len() - 1] == base.val());
        }
        i = i + 1;
    }
    Ok(true)
}

} // verus!
