//! Arbitrary-precision naturals, held as little-endian base 2^32 digits.
//!
//! Arithmetic is done by `num_bigint::BigUint`; each operation below states
//! its result over the digits' value.
use num_bigint::BigUint;
use vstd::arithmetic::power::pow;
use vstd::prelude::*;

verus! {

/// The base of one digit.
pub open spec fn digit_base() -> nat {
    0x1_0000_0000
}

/// The value of a little-endian digit sequence.
pub open spec fn digits_value(s: Seq<u32>) -> nat
    decreases s.len(),
{
    if s.len() == 0 {
        0
    } else {
        s[0] as nat + digit_base() * digits_value(s.drop_first())
    }
}

/// A natural number of any size.
#[derive(Clone, Debug)]
pub struct Big {
    /// Little-endian base 2^32 digits.
    pub digits: Vec<u32>,
}

impl Big {
    pub open spec fn val(&self) -> nat {
        digits_value(self.digits@)
    }

    pub fn from_digits(digits: Vec<u32>) -> (r: Big)
        ensures
            r.digits@ == digits@,
    {
        Big { digits }
    }

    /// A copy of the same value.
    pub fn duplicate(&self) -> (r: Big)
        ensures
            r.val() == self.val(),
    {
        let digits = self.digits.clone();
        assert(digits@ == self.digits@);
        Big { digits }
    }

    pub fn from_u64(x: u64) -> (r: Big)
        ensures
            r.val() == x,
    {
        let lo: u32 = (x % 0x1_0000_0000) as u32;
        let hi: u32 = (x / 0x1_0000_0000) as u32;
        let mut digits: Vec<u32> = Vec::new();
        digits.push(lo);
        digits.push(hi);
        proof {
            let s = digits@;
            assert(s.drop_first().drop_first().len() == 0);
            assert(digits_value(s.drop_first().drop_first()) == 0);
            assert(digits_value(s.drop_first()) == hi as nat);
            assert(x as int == 0x1_0000_0000 * (x as int / 0x1_0000_0000) + x as int % 0x1_0000_0000)
                by (nonlinear_arith);
        }
        Big { digits }
    }
}

/// Relies on `Add for &BigUint`: the sum.
#[verifier::external_body]
pub(crate) fn big_add(a: &Big, b: &Big) -> (r: Big)
    ensures
        r.val() == a.val() + b.val(),
{
    Big { digits: (&BigUint::new(a.digits.clone()) + &BigUint::new(b.digits.clone())).to_u32_digits() }
}

/// Relies on `Sub for &BigUint`: the difference, which panics below zero.
#[verifier::external_body]
pub(crate) fn big_sub(a: &Big, b: &Big) -> (r: Big)
    requires
        a.val() >= b.val(),
    ensures
        r.val() == a.val() - b.val(),
{
    Big { digits: (&BigUint::new(a.digits.clone()) - &BigUint::new(b.digits.clone())).to_u32_digits() }
}

/// Relies on `Mul for &BigUint`: the product.
#[verifier::external_body]
pub(crate) fn big_mul(a: &Big, b: &Big) -> (r: Big)
    ensures
        r.val() == a.val() * b.val(),
{
    Big { digits: (&BigUint::new(a.digits.clone()) * &BigUint::new(b.digits.clone())).to_u32_digits() }
}

/// Relies on `Div for &BigUint`: the floor quotient, which panics on a zero divisor.
#[verifier::external_body]
pub(crate) fn big_div(a: &Big, b: &Big) -> (r: Big)
    requires
        b.val() > 0,
    ensures
        r.val() == a.val() / b.val(),
{
    Big { digits: (&BigUint::new(a.digits.clone()) / &BigUint::new(b.digits.clone())).to_u32_digits() }
}

/// Relies on `Rem for &BigUint`: the remainder, which panics on a zero divisor.
#[verifier::external_body]
pub(crate) fn big_rem(a: &Big, b: &Big) -> (r: Big)
    requires
        b.val() > 0,
    ensures
        r.val() == a.val() % b.val(),
{
    Big { digits: (&BigUint::new(a.digits.clone()) % &BigUint::new(b.digits.clone())).to_u32_digits() }
}

/// Relies on `BigUint::pow`: `a` raised to `e`.
#[verifier::external_body]
pub(crate) fn big_pow(a: &Big, e: u32) -> (r: Big)
    ensures
        r.val() == pow(a.val() as int, e as nat),
{
    Big { digits: BigUint::new(a.digits.clone()).pow(e).to_u32_digits() }
}

/// Relies on `BigUint::modpow`: `(base ^ exponent) % modulus`, which panics
/// on a zero modulus.
#[verifier::external_body]
pub(crate) fn big_modpow(base: &Big, exponent: &Big, modulus: &Big) -> (r: Big)
    requires
        modulus.val() > 0,
    ensures
        r.val() == pow(base.val() as int, exponent.val()) % (modulus.val() as int),
{
    let m = BigUint::new(modulus.digits.clone());
    Big { digits: BigUint::new(base.digits.clone()).modpow(&BigUint::new(exponent.digits.clone()), &m).to_u32_digits() }
}

/// Whether `x` is an inverse of `a` modulo `m`, taken from `[0, m)`.
pub open spec fn is_mod_inverse(a: nat, x: nat, m: nat) -> bool {
    &&& x < m
    &&& (a * x) % m == 1nat % m
}

/// Relies on `BigUint::modinv`: the inverse in `[0, modulus)` when one exists,
/// else `None`; it panics on a zero modulus.
#[verifier::external_body]
pub(crate) fn big_modinv(a: &Big, modulus: &Big) -> (r: Option<Big>)
    requires
        modulus.val() > 0,
    ensures
        r matches Some(x) ==> is_mod_inverse(a.val(), x.val(), modulus.val()),
        r is None ==> forall|x: nat| !#[trigger] is_mod_inverse(a.val(), x, modulus.val()),
{
    let m = BigUint::new(modulus.digits.clone());
    BigUint::new(a.digits.clone()).modinv(&m).map(|x| Big { digits: x.to_u32_digits() })
}

/// Relies on `PartialEq for BigUint`: equality of values.
#[verifier::external_body]
pub(crate) fn big_eq(a: &Big, b: &Big) -> (r: bool)
    ensures
        r == (a.val() == b.val()),
{
    BigUint::new(a.digits.clone()) == BigUint::new(b.digits.clone())
}

/// Relies on `PartialOrd for BigUint`: the order of values.
#[verifier::external_body]
pub(crate) fn big_lt(a: &Big, b: &Big) -> (r: bool)
    ensures
        r == (a.val() < b.val()),
{
    BigUint::new(a.digits.clone()) < BigUint::new(b.digits.clone())
}

} // verus!
