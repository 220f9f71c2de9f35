//! Deterministic primality testing for the primitive integer types.
//!
//! Numbers are tested by trial division by the primes below ten, then by the
//! Miller-Rabin test with a fixed set of bases chosen by the magnitude of the
//! candidate, which makes the verdict exact for every 64-bit value.
pub mod modular;
pub mod witness;
pub mod decision;
pub mod primality;
pub mod number_theory;

pub use modular::{mulmod_u64, powmod_u64};
pub use witness::improved_felmat_test;
pub use decision::miller_rabin_primality_test;
pub use primality::{is_prime_u64, IsPrime};
