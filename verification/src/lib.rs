//! The cryptographic layer of a homomorphic-encryption toolchain: arithmetic
//! modulo a machine-word prime, the ring `R_q = Z_q[X]/(X^N + 1)`, the
//! negacyclic number-theoretic transform, parameter validation and a seeded
//! deterministic random number generator.

pub mod arith;
pub mod modulus;
pub mod ntt;
pub mod ntt_laws;
pub mod ntt_product;
pub mod params;
pub mod ring;
pub mod ring_laws;
pub mod rng;
pub mod sums;

pub use modulus::Modulus;
pub use rng::Rng;
