//! Ring signatures over secp256k1: spontaneous anonymous group signatures.
//!
//! A signer proves to hold the private key of some member of a ring of public keys, without
//! telling which. `sag` signs and verifies; `protocol` says what that computes and `laws` what
//! holds of it. `ring_laws` and `key_laws` say what each step and each form of a key must satisfy,
//! for rings of every size and messages of every length.

pub mod bytes;
pub mod hash;
pub mod hex;
pub mod key_laws;
pub mod laws;
pub mod open_ring;
pub mod point;
pub mod protocol;
pub mod ring_laws;
pub mod sag;
pub mod scalar;
pub mod types;
pub mod utils;
