//! secp256r1 / P-256 ECDSA: field and scalar arithmetic, curve points, signature
//! encodings, deterministic signing and verification, each stated and proved in Verus.
#![allow(unused_imports)]

pub mod limbs;
pub mod modular;
pub mod field;
pub mod scalar;
pub mod group;
pub mod laws;
mod wipe;
mod constants;
mod error;
mod hash;
mod rfc6979;
mod ecdsa;

pub use ecdsa::{DerSignature, EncodedPoint, Signature, SigningKey, VerifyingKey};
pub use error::{Error, Result};
