//! Textbook RSA from first principles over fixed-width integers: modular
//! exponentiation, the Euclidean gcd, a two-stage primality test (trial
//! division up to the hundredth prime, then sixteen Miller-Rabin rounds),
//! random probable-prime generation, a modular extended-Euclidean inverse,
//! and key generation with encryption and decryption on top of them.
//!
//! Every arithmetic routine carries a contract against a mathematical
//! model (`pow`, `gcd`, divisibility); randomness enters only through one
//! trusted draw from `rand`, and everything downstream of a draw is
//! verified for every value the draw could produce. This is a study
//! library, not a production cryptosystem: no padding, no constant-time
//! guarantees, and moduli capped at 2^64 so that squarings stay inside
//! `u128`.

pub mod arith;
pub mod inverse;
pub mod keys;
pub mod primality;
pub mod primegen;
mod rng;

pub use keys::gen_rsa_keypair;
pub use keys::keypair_from_factors;
pub use keys::lemma_round_trip_is_single_power;
pub use keys::valid_keypair;
pub use keys::RSAPrivateKey;
pub use keys::RSAPublicKey;

pub use primegen::gen_prime;
pub use primegen::gen_prime_in_range;
pub use primegen::MAX_PRIME_ATTEMPTS;

pub use primality::has_small_divisor;
pub use primality::is_divisible_small_prime;
pub use primality::is_prime;
pub use primality::is_prime_spec;
pub use primality::lemma_composite_has_small_divisor;
pub use primality::miller_rabin;
pub use primality::miller_rabin_round;
pub use primality::mr_all_rounds;
pub use primality::mr_round_passes;
pub use primality::sieve_rejects;

pub use inverse::eea_mod;
pub use inverse::EEAResult;

pub use arith::divides;
pub use arith::gcd;
pub use arith::ggt;
pub use arith::lemma_gcd_divides;
pub use arith::lemma_gcd_is_largest;
pub use arith::pow_mod;
pub use arith::powmod;
pub use arith::MODULUS_LIMIT;
