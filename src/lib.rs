//! Textbook RSA key generation, raw signing and verification, and the
//! blinding forgery against a signing oracle.
pub mod bignum;
pub mod error;
pub mod primality;
pub mod random;
pub mod keys;
pub mod keygen;
pub mod signature;
pub mod forgery;
pub mod number_theory;
