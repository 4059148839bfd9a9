//! Deterministic nonces of RFC 6979 with HMAC-SHA-256.
#![allow(unused_imports)]

use vstd::prelude::*;

use crate::hash::{hmac_sha256, hmac_sha256_tag};
use crate::limbs::{be_bytes, be_nat};
use crate::scalar::{scalar_order, Scalar};

verus! {

/// `K = HMAC(K, V || 0x00)`, then `V = HMAC(K, V)`: the step after a rejected candidate.
pub open spec fn drbg_retry(key: Seq<u8>, value: Seq<u8>) -> (Seq<u8>, Seq<u8>) {
    let key2 = hmac_sha256_tag(key, value + seq![0u8]);
    (key2, hmac_sha256_tag(key2, value))
}

/// The state after seeding with the secret `x` and the reduced digest `h`, both 32 bytes:
/// `K = 0^32`, `V = 1^32`, then two rounds of `K = HMAC(K, V || t || x || h)`,
/// `V = HMAC(K, V)` with `t` first `0x00`, then `0x01`.
pub open spec fn drbg_init(x: Seq<u8>, h: Seq<u8>) -> (Seq<u8>, Seq<u8>) {
    let key0 = Seq::new(32, |i: int| 0u8);
    let value0 = Seq::new(32, |i: int| 1u8);
    let key1 = hmac_sha256_tag(key0, value0 + (seq![0u8] + x + h));
    let value1 = hmac_sha256_tag(key1, value0);
    let key2 = hmac_sha256_tag(key1, value1 + (seq![1u8] + x + h));
    let value2 = hmac_sha256_tag(key2, value1);
    (key2, value2)
}

/// The first candidate `V = HMAC(K, V)` that is a nonzero scalar below `n`, with the
/// state it leaves, trying at most `fuel + 1` candidates.
#[verifier::opaque]
pub open spec fn nonce_search(key: Seq<u8>, value: Seq<u8>, fuel: nat) -> Option<(nat, Seq<u8>, Seq<u8>)>
    decreases fuel,
{
    let candidate = hmac_sha256_tag(key, value);
    if 0 < be_nat(candidate) < scalar_order() {
        Some((be_nat(candidate), key, candidate))
    } else if fuel == 0 {
        None
    } else {
        let next = drbg_retry(key, candidate);
        nonce_search(next.0, next.1, (fuel - 1) as nat)
    }
}

/// The HMAC-DRBG state `(K, V)` of RFC 6979.
pub(crate) struct Rfc6979 {
    key: [u8; 32],
    value: [u8; 32],
}

impl View for Rfc6979 {
    type V = (Seq<u8>, Seq<u8>);

    closed spec fn view(&self) -> (Seq<u8>, Seq<u8>) {
        (self.key@, self.value@)
    }
}

impl Rfc6979 {
    /// Seeds the generator from the secret scalar bytes and the digest, reduced modulo `n`.
    pub(crate) fn new(secret: [u8; 32], digest: [u8; 32]) -> (r: Self)
        ensures
            r@ == drbg_init(secret@, be_bytes(be_nat(digest@) % scalar_order(), 32)),
    {
        let mut secret = secret;
        let mut digest = Scalar::from_be_bytes_reduced(digest).to_be_bytes();
        let ghost h = digest@;
        let mut out = Self { key: [0u8; 32], value: [1u8; 32] };
        let ghost key0 = out.key@;
        let ghost value0 = out.value@;
        assert(key0 =~= Seq::new(32, |i: int| 0u8));
        assert(value0 =~= Seq::new(32, |i: int| 1u8));

        let mut suffix = [0u8; 65];
        for i in 0..32
            invariant
                suffix[0] == 0,
                forall|j: int| 0 <= j < i ==> suffix[1 + j] == secret[j],
        {
            suffix[1 + i] = secret[i];
        }
        for i in 0..32
            invariant
                suffix[0] == 0,
                forall|j: int| 0 <= j < 32 ==> suffix[1 + j] == secret[j],
                forall|j: int| 0 <= j < i ==> suffix[33 + j] == digest[j],
        {
            suffix[33 + i] = digest[i];
        }
        assert(suffix@ =~= seq![0u8] + secret@ + h);

        out.rekey(&suffix);
        out.update_value();
        suffix[0] = 1;
        assert(suffix@ =~= seq![1u8] + secret@ + h);
        out.rekey(&suffix);
        out.update_value();

        crate::wipe::wipe_bytes(&mut suffix);
        crate::wipe::wipe_bytes(&mut secret);
        crate::wipe::wipe_bytes(&mut digest);
        out
    }

    /// The next candidate that is a nonzero scalar below `n`; `None` once `2^64`
    /// candidates have been rejected in a row.
    pub(crate) fn next(&mut self) -> (r: Option<Scalar>)
        ensures
            match nonce_search(old(self)@.0, old(self)@.1, u64::MAX as nat) {
                Some((k, key, value)) => r matches Some(s) && s@ == k && final(self)@ == (key, value),
                None => r is None,
            },
            r matches Some(s) ==> s@ != 0,
    {
        let mut attempts: u64 = 0;
        proof {
            reveal(nonce_search);
        }
        loop
            invariant
                nonce_search(old(self)@.0, old(self)@.1, u64::MAX as nat) == nonce_search(
                    self@.0,
                    self@.1,
                    (u64::MAX - attempts) as nat,
                ),
            decreases u64::MAX - attempts,
        {
            proof {
                reveal(nonce_search);
            }
            let ghost before = self@;
            self.update_value();

            if let Some(scalar) = Scalar::from_be_bytes(self.value) {
                if !scalar.is_zero() {
                    return Some(scalar);
                }
            }

            if attempts == u64::MAX {
                return None;
            }
            self.retry();
            attempts = attempts + 1;
            assert(self@ == drbg_retry(before.0, hmac_sha256_tag(before.0, before.1)));
        }
    }

    /// Moves past a rejected candidate: `K = HMAC(K, V || 0x00)`, `V = HMAC(K, V)`.
    pub(crate) fn retry(&mut self)
        ensures
            final(self)@ == drbg_retry(old(self)@.0, old(self)@.1),
    {
        let zero = [0u8; 1];
        assert(zero@ =~= seq![0u8]);
        self.rekey(&zero);
        self.update_value();
    }

    /// `K = HMAC(K, V || suffix)`.
    fn rekey(&mut self, suffix: &[u8])
        ensures
            final(self)@ == (hmac_sha256_tag(old(self)@.0, old(self)@.1 + suffix@), old(self)@.1),
    {
        let mut key = hmac_sha256(&self.key, &self.value, suffix);
        self.key = key;
        crate::wipe::wipe_bytes(&mut key);
    }

    /// `V = HMAC(K, V)`.
    fn update_value(&mut self)
        ensures
            final(self)@ == (old(self)@.0, hmac_sha256_tag(old(self)@.0, old(self)@.1)),
    {
        let empty: [u8; 0] = [];
        let mut value = hmac_sha256(&self.key, &self.value, &empty);
        proof {
            assert(self.value@ + empty@ =~= self.value@);
        }
        self.value = value;
        crate::wipe::wipe_bytes(&mut value);
    }

    /// Clears the state.
    pub(crate) fn wipe(&mut self) {
        crate::wipe::wipe_bytes(&mut self.key);
        crate::wipe::wipe_bytes(&mut self.value);
    }
}

} // verus!
