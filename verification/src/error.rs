//! Errors of key construction, signature parsing, signing and verification.
#![allow(unused_imports)]

use vstd::prelude::*;

verus! {

/// Errors returned by key construction, signature parsing, signing, and verification.
#[derive(Debug)]
pub enum Error {
    /// A prehashed API received a digest with the wrong length.
    InvalidDigestLength { expected: usize, actual: usize },
    /// The API rejected malformed input.
    InvalidInput(String),
    /// A syntactically valid ECDSA signature did not verify.
    InvalidSignature,
}

/// Result type used by this crate.
pub type Result<T> = core::result::Result<T, Error>;

} // verus!
