//! RSA key material and its derivation from a pair of primes.
use crate::bignum::{big_eq, big_lt, big_modinv, big_mul, big_sub, is_mod_inverse, Big};
use crate::error::RsaError;
use vstd::arithmetic::div_mod::lemma_small_mod;
use vstd::prelude::*;

verus! {

/// The fixed public exponent.
pub const PUBLIC_EXPONENT: u64 = 65537;

/// The public half of a key: modulus and public exponent.
#[derive(Clone, Debug)]
pub struct PublicKey {
    pub n: Big,
    pub e: Big,
}

/// The secret half of a key: the two prime factors and the private exponent.
#[derive(Clone, Debug)]
pub struct PrivateKey {
    pub p: Big,
    pub q: Big,
    pub d: Big,
}

/// A matching public and private key.
#[derive(Clone, Debug)]
pub struct KeyPair {
    pub public_key: PublicKey,
    pub private_key: PrivateKey,
}

/// Euler's totient of `p * q` for distinct primes `p` and `q`.
pub open spec fn totient(p: nat, q: nat) -> nat {
    ((p - 1) * (q - 1)) as nat
}

/// What a key derivation asks of its two factors.
pub open spec fn valid_factors(p: nat, q: nat) -> bool {
    p >= 3 && q >= 3 && p != q
}

/// The relations that tie the parts of a key pair together.
pub open spec fn key_relations(n: nat, e: nat, p: nat, q: nat, d: nat) -> bool {
    &&& valid_factors(p, q)
    &&& n == p * q
    &&& e == PUBLIC_EXPONENT
    &&& d < totient(p, q)
    &&& (e * d) % totient(p, q) == 1
}

impl KeyPair {
    pub open spec fn n(&self) -> nat {
        self.public_key.n.val()
    }

    pub open spec fn e(&self) -> nat {
        self.public_key.e.val()
    }

    pub open spec fn p(&self) -> nat {
        self.private_key.p.val()
    }

    pub open spec fn q(&self) -> nat {
        self.private_key.q.val()
    }

    pub open spec fn d(&self) -> nat {
        self.private_key.d.val()
    }

    /// The key pair's invariant.
    pub open spec fn wf(&self) -> bool {
        key_relations(self.n(), self.e(), self.p(), self.q(), self.d())
    }

    /// Derives the modulus, the public exponent 65537 and the private
    /// exponent from two factors, which are meant to be primes; their
    /// primality is not checked here.
    pub fn from_primes(p: Big, q: Big) -> (r: Result<KeyPair, RsaError>)
        ensures
            r is Err <==> !valid_factors(p.val(), q.val()) || (forall|x: nat|
                !#[trigger] is_mod_inverse(PUBLIC_EXPONENT as nat, x, totient(p.val(), q.val()))),
            r == Err::<KeyPair, RsaError>(RsaError::DomainViolation) <==> !valid_factors(
                p.val(),
                q.val(),
            ),
            r is Err ==> r == Err::<KeyPair, RsaError>(RsaError::DomainViolation) || r == Err::<
                KeyPair,
                RsaError,
            >(RsaError::NoModularInverse),
            r matches Ok(kp) ==> kp.wf() && kp.p() == p.val() && kp.q() == q.val(),
    {
        let three = Big::from_u64(3);
        if big_lt(&p, &three) || big_lt(&q, &three) || big_eq(&p, &q) {
            return Err(RsaError::DomainViolation);
        }
        let one = Big::from_u64(1);
        let n = big_mul(&p, &q);
        let pm1 = big_sub(&p, &one);
        let qm1 = big_sub(&q, &one);
        let phi = big_mul(&pm1, &qm1);
        let e = Big::from_u64(PUBLIC_EXPONENT);
        proof {
            let (a, b) = (pm1.val(), qm1.val());
            assert(a >= 2 && b >= 2);
            assert(a * b >= 4) by (nonlinear_arith)
                requires
                    a >= 2,
                    b >= 2,
            ;
            lemma_small_mod(1, phi.val());
            assert(phi.val() == totient(p.val(), q.val()));
        }
        match big_modinv(&e, &phi) {
            None => Err(RsaError::NoModularInverse),
            Some(d) => {
                assert(is_mod_inverse(PUBLIC_EXPONENT as nat, d.val(), totient(p.val(), q.val())));
                Ok(
                KeyPair { public_key: PublicKey { n, e }, private_key: PrivateKey { p, q, d } },
                )
            },
        }
    }
}

} // verus!
