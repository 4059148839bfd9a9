//! SHA-256 and HMAC-SHA-256 from the `sha2` and `hmac` crates.
#![allow(unused_imports)]

use hmac::{Hmac, Mac};
use sha2::{Digest, Sha256};
use vstd::prelude::*;

verus! {

/// The SHA-256 digest of a message.
pub uninterp spec fn sha256_digest(message: Seq<u8>) -> Seq<u8>;

/// The HMAC-SHA-256 tag of `data` under `key`.
pub uninterp spec fn hmac_sha256_tag(key: Seq<u8>, data: Seq<u8>) -> Seq<u8>;

/// Calls `sha2::Sha256::digest`; the contract says only that the 32-byte result is
/// the digest of the message, a function of the message alone.
#[verifier::external_body]
pub(crate) fn sha256(message: &[u8]) -> (r: [u8; 32])
    ensures
        r@ == sha256_digest(message@),
{
    Sha256::digest(message).into()
}

/// Calls `hmac::Hmac::<Sha256>::new_from_slice` (which accepts a key of any length),
/// `Mac::update` with `head` and then `tail`, and `Mac::finalize`. The contract says
/// that the 32-byte result is the tag of `head || tail` under `key`: updates are
/// incremental, so two of them authenticate the concatenation.
#[verifier::external_body]
pub(crate) fn hmac_sha256(key: &[u8; 32], head: &[u8], tail: &[u8]) -> (r: [u8; 32])
    ensures
        r@ == hmac_sha256_tag(key@, head@ + tail@),
{
    let mut mac = <Hmac<Sha256> as Mac>::new_from_slice(key).expect("HMAC accepts keys of any size");
    mac.update(head);
    mac.update(tail);
    mac.finalize().into_bytes().into()
}

} // verus!
