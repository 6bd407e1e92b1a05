//! Arbitrary-precision unsigned arithmetic with explicit bit-length tracking,
//! and a probable-prime / safe-prime search engine built on it.
//!
//! The magnitude of an [`UnsignedInteger`] is a little-endian sequence of
//! 64-bit words, and a separately tracked declared bit length that callers of
//! cryptographic protocols rely on for group and exponent sizing.  The prime
//! search draws random candidates of a declared bit length, filters them
//! against a table of small primes, and confirms survivors with a strong
//! probabilistic primality test.

pub mod limbs;
pub mod uint;
pub mod scratch;
pub mod add;
pub mod bitops;
pub mod rng;
pub mod primes;
pub mod backend;
pub mod search;
pub mod modulus;
pub mod parse;
pub mod curve_el_gamal;

pub use limbs::val;
pub use uint::UnsignedInteger;
pub use rng::{SecureRng, GeneralRng, OsEntropy, StreamRng};
pub use search::{gen_prime, gen_safe_prime};
pub use modulus::gen_rsa_modulus;
pub use curve_el_gamal::CurveElGamal;
