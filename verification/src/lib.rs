//! Rune ring signatures.
//!
//! A ring signature lets one member of a set of public keys sign a message
//! so that a verifier learns that some member signed, but not which one.
//! Rune builds on lattice polynomial arithmetic in `Z_q[X]/(X^n + 1)`, a
//! sequential challenge chain, and Fiat-Shamir hashing with SHAKE256.

pub mod algebra;
pub mod challenge;
pub mod error;
pub mod keys;
pub mod math;
pub mod params;
pub mod rng;
pub mod signature;

pub use error::RuneError;
pub use keys::{generate_shared_a, keygen, PublicKey, SecretKey};
pub use math::Poly;
pub use params::{rune_128, rune_256, Params};
pub use rng::RandomSource;
pub use signature::{ring_sign, ring_verify, RingSignature};
