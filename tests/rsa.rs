use num_bigint::BigUint;
use rand::rngs::StdRng;
use rand::SeedableRng;
use rsa_forgery::bignum::Big;
use rsa_forgery::error::RsaError;
use rsa_forgery::forgery::{forge_with_factor, universal_forgery};
use rsa_forgery::keygen::{dsa_keygen, keygen, search_cofactor, COFACTOR_STEP};
use rsa_forgery::keys::KeyPair;
use rsa_forgery::primality::{is_probably_prime, miller_rabin};
use rsa_forgery::signature::{sign, verify};

fn to_uint(b: &Big) -> BigUint {
    BigUint::new(b.digits.clone())
}

fn from_uint(u: &BigUint) -> Big {
    Big::from_digits(u.to_u32_digits())
}

fn small(x: u64) -> Big {
    Big::from_u64(x)
}

fn make_key(rng: &mut StdRng) -> KeyPair {
    keygen(256, 20, 100, rng).unwrap()
}

fn fixed_key() -> KeyPair {
    KeyPair::from_primes(small(4294967291), small(4294967279)).unwrap()
}

#[test]
fn test_verify() {
    let mut rng = StdRng::seed_from_u64(1);
    let keypair = make_key(&mut rng);
    let keypair2 = make_key(&mut rng);

    assert_ne!(to_uint(&keypair.public_key.n), to_uint(&keypair2.public_key.n));

    let message: u64 = 4;
    let x = small(message);

    let s = sign(&x, &keypair).unwrap();

    assert_eq!(true, verify(&x, &s, &keypair));
    assert_eq!(false, verify(&x, &s, &keypair2));
}

#[test]
fn generated_key_relations() {
    let mut rng = StdRng::seed_from_u64(2);
    for _ in 0..3 {
        let kp = make_key(&mut rng);
        let p = to_uint(&kp.private_key.p);
        let q = to_uint(&kp.private_key.q);
        let n = to_uint(&kp.public_key.n);
        let e = to_uint(&kp.public_key.e);
        let d = to_uint(&kp.private_key.d);
        let one = BigUint::from(1u32);
        let phi = (&p - &one) * (&q - &one);
        assert_eq!(n, &p * &q);
        assert_eq!(e, BigUint::from(65537u32));
        assert_eq!((&e * &d) % &phi, one);
        assert_ne!(p, q);
        assert!(p.bits() >= 256 && q.bits() >= 256);
    }
}

#[test]
fn structured_pair_quotient_is_cofactor() {
    let mut rng = StdRng::seed_from_u64(3);
    let skp = dsa_keygen(128, 512, 500, 50, 20, &mut rng).unwrap();
    let p = to_uint(&skp.key_pair.private_key.p);
    let q = to_uint(&skp.key_pair.private_key.q);
    let c = to_uint(&skp.cofactor);
    let pm1 = &p - BigUint::from(1u32);
    assert_eq!(&pm1 % &q, BigUint::from(0u32));
    assert_eq!(&pm1 / &q, c);
    assert_eq!(to_uint(&skp.key_pair.public_key.n), &p * &q);
}

#[test]
fn structured_search_errors() {
    let mut rng = StdRng::seed_from_u64(4);
    assert_eq!(dsa_keygen(0, 512, 20, 10, 10, &mut rng).unwrap_err(), RsaError::DomainViolation);
    assert_eq!(dsa_keygen(128, 512, 0, 10, 10, &mut rng).unwrap_err(), RsaError::DomainViolation);
    assert_eq!(
        dsa_keygen(128, 512, 20, 0, 10, &mut rng).unwrap_err(),
        RsaError::SearchExhausted { bits: 512, rounds: 20, attempts: 10 }
    );
    assert_eq!(
        dsa_keygen(128, 512, 20, 10, 0, &mut rng).unwrap_err(),
        RsaError::SearchExhausted { bits: 512, rounds: 20, attempts: 0 }
    );
}

#[test]
fn keygen_errors() {
    let mut rng = StdRng::seed_from_u64(5);
    assert_eq!(keygen(2, 20, 10, &mut rng).unwrap_err(), RsaError::DomainViolation);
    assert_eq!(keygen(64, 0, 10, &mut rng).unwrap_err(), RsaError::DomainViolation);
    assert_eq!(
        keygen(64, 20, 0, &mut rng).unwrap_err(),
        RsaError::SearchExhausted { bits: 64, rounds: 20, attempts: 0 }
    );
}

#[test]
fn primality_accepts_known_primes() {
    let mut rng = StdRng::seed_from_u64(6);
    for p in [5u64, 7, 11, 13, 97, 7919, 2305843009213693951] {
        assert_eq!(is_probably_prime(&small(p), 20, &mut rng), Ok(true), "{}", p);
    }
    let m127 = (BigUint::from(1u32) << 127usize) - BigUint::from(1u32);
    assert_eq!(is_probably_prime(&from_uint(&m127), 20, &mut rng), Ok(true));
}

#[test]
fn primality_rejects_composites() {
    let mut rng = StdRng::seed_from_u64(7);
    for _ in 0..20 {
        for c in [4u64, 9, 15, 21, 561, 1105, 4294967297] {
            assert_eq!(is_probably_prime(&small(c), 20, &mut rng), Ok(false), "{}", c);
        }
    }
}

#[test]
fn primality_domain() {
    let mut rng = StdRng::seed_from_u64(8);
    assert_eq!(is_probably_prime(&small(3), 20, &mut rng), Err(RsaError::DomainViolation));
    assert_eq!(is_probably_prime(&small(0), 20, &mut rng), Err(RsaError::DomainViolation));
    assert_eq!(is_probably_prime(&small(7), 0, &mut rng), Err(RsaError::DomainViolation));
}

#[test]
fn sign_verify_round_trip() {
    let mut rng = StdRng::seed_from_u64(9);
    let kp = make_key(&mut rng);
    let n = to_uint(&kp.public_key.n);
    let ms = [BigUint::from(0u32), BigUint::from(1u32), BigUint::from(4u32), &n - BigUint::from(1u32), &n / BigUint::from(3u32)];
    for m in ms.iter() {
        let mb = from_uint(m);
        let s = sign(&mb, &kp).unwrap();
        assert!(verify(&mb, &s, &kp));
    }
}

#[test]
fn cross_key_signature_rejected() {
    let mut rng = StdRng::seed_from_u64(10);
    let first = make_key(&mut rng);
    let second = make_key(&mut rng);
    for m in [2u64, 4, 12345] {
        let s = sign(&small(m), &first).unwrap();
        assert!(!verify(&small(m), &s, &second));
        let s2 = sign(&small(m), &second).unwrap();
        assert!(!verify(&small(m), &s2, &first));
    }
}

#[test]
fn sign_rejects_message_not_below_modulus() {
    let kp = fixed_key();
    assert_eq!(sign(&kp.public_key.n, &kp).unwrap_err(), RsaError::DomainViolation);
    assert_eq!(sign(&small(u64::MAX), &kp).unwrap_err(), RsaError::DomainViolation);
}

#[test]
fn forgery_end_to_end() {
    let mut rng = StdRng::seed_from_u64(11);
    let skp = dsa_keygen(128, 256, 500, 50, 20, &mut rng).unwrap();
    let kp = skp.key_pair;
    let m = small(4);
    let ctx = universal_forgery(&m, &kp, 100, &mut rng).unwrap();
    assert!(verify(&m, &ctx.signature, &kp));
    assert_eq!(to_uint(&ctx.message), BigUint::from(4u32));
    let direct = sign(&m, &kp).unwrap();
    assert_eq!(to_uint(&ctx.signature), to_uint(&direct));
}

#[test]
fn forgery_on_generated_key() {
    let mut rng = StdRng::seed_from_u64(12);
    let kp = make_key(&mut rng);
    let n = to_uint(&kp.public_key.n);
    for m in [BigUint::from(4u32), &n - BigUint::from(2u32)] {
        let mb = from_uint(&m);
        let ctx = universal_forgery(&mb, &kp, 100, &mut rng).unwrap();
        assert!(verify(&mb, &ctx.signature, &kp));
        let r = to_uint(&ctx.blinding);
        assert!(r >= BigUint::from(2u32) && r < n);
        let q = (r.modpow(&to_uint(&kp.public_key.e), &n) * &m) % &n;
        assert_eq!(to_uint(&ctx.query), q);
    }
}

#[test]
fn forgery_errors() {
    let mut rng = StdRng::seed_from_u64(13);
    let kp = fixed_key();
    assert_eq!(universal_forgery(&kp.public_key.n, &kp, 10, &mut rng).unwrap_err(), RsaError::DomainViolation);
    assert_eq!(
        universal_forgery(&small(4), &kp, 0, &mut rng).unwrap_err(),
        RsaError::SearchExhausted { bits: 0, rounds: 0, attempts: 0 }
    );
}

#[test]
fn concrete_small_key() {
    let kp = fixed_key();
    assert_eq!(to_uint(&kp.public_key.n), BigUint::from(18446743979220271189u64));
    assert_eq!(to_uint(&kp.public_key.e), BigUint::from(65537u32));
    assert_eq!(to_uint(&kp.private_key.d), BigUint::from(9331878932546167513u64));
    let s = sign(&small(7), &kp).unwrap();
    assert_eq!(to_uint(&s), BigUint::from(11250208491064896699u64));
    assert!(verify(&small(7), &s, &kp));
    let s1 = from_uint(&(to_uint(&s) + BigUint::from(1u32)));
    assert!(!verify(&small(7), &s1, &kp));
}

#[test]
fn from_primes_errors() {
    assert_eq!(KeyPair::from_primes(small(7), small(7)).unwrap_err(), RsaError::DomainViolation);
    assert_eq!(KeyPair::from_primes(small(2), small(7)).unwrap_err(), RsaError::DomainViolation);
    assert_eq!(KeyPair::from_primes(small(65538), small(5)).unwrap_err(), RsaError::NoModularInverse);
}

#[test]
fn small_values_and_derived_key() {
    assert_eq!(to_uint(&small(0x1234_5678_9abc_def0)), BigUint::from(0x1234_5678_9abc_def0u64));
    assert_eq!(to_uint(&small(0)), BigUint::from(0u32));
    let kp = KeyPair::from_primes(small(61), small(53)).unwrap();
    assert_eq!(to_uint(&kp.public_key.n), BigUint::from(3233u32));
    assert_eq!(to_uint(&kp.private_key.d), BigUint::from(2753u32));
    let s = sign(&small(65), &kp).unwrap();
    assert_eq!(to_uint(&s), BigUint::from(588u32));
    assert!(verify(&small(65), &s, &kp));
}

#[test]
fn forgery_with_fixed_factor() {
    let kp = fixed_key();
    let m = small(4);
    let ctx = forge_with_factor(&m, &kp, small(3)).unwrap();
    assert_eq!(to_uint(&ctx.blinding), BigUint::from(3u32));
    let n = to_uint(&kp.public_key.n);
    let e = to_uint(&kp.public_key.e);
    let expected_query = (BigUint::from(3u32).modpow(&e, &n) * BigUint::from(4u32)) % &n;
    assert_eq!(to_uint(&ctx.query), expected_query);
    assert_eq!(to_uint(&ctx.signature), to_uint(&sign(&m, &kp).unwrap()));
    assert!(verify(&m, &ctx.signature, &kp));
    // r = p shares a factor with n: no inverse
    assert!(forge_with_factor(&m, &kp, small(4294967291)).is_none());
}

#[test]
fn cofactor_search_on_given_prime() {
    let mut rng = StdRng::seed_from_u64(14);
    let q = BigUint::from(4294967279u64);
    let skp = search_cofactor(&from_uint(&q), 129, 20, 500, &mut rng).unwrap();
    let start = ((BigUint::from(1u32) << 129usize) - BigUint::from(1u32)) / &q;
    let c = to_uint(&skp.cofactor);
    assert!(c >= start);
    let k = (&c - &start) / BigUint::from(COFACTOR_STEP);
    assert_eq!(&start + &k * BigUint::from(COFACTOR_STEP), c);
    assert_eq!(k, BigUint::from(75u32));
    assert_eq!(to_uint(&skp.key_pair.private_key.p), &c * &q + BigUint::from(1u32));
    assert!(search_cofactor(&from_uint(&q), 129, 20, 0, &mut rng).is_none());
}

#[test]
fn miller_rabin_on_given_bases() {
    let bases = vec![small(2), small(3), small(5)];
    assert_eq!(miller_rabin(&small(97), &bases), Ok(true));
    assert_eq!(miller_rabin(&small(91), &bases), Ok(false));
    // 2047 = 23 * 89 is a strong pseudoprime to base 2 only
    assert_eq!(miller_rabin(&small(2047), &vec![small(2)]), Ok(true));
    assert_eq!(miller_rabin(&small(2047), &vec![small(2), small(3)]), Ok(false));
    assert_eq!(miller_rabin(&small(3), &bases), Err(RsaError::DomainViolation));
    assert_eq!(miller_rabin(&small(91), &vec![]), Ok(true));
}
