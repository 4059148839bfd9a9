//! ECDSA over P-256: signatures and their encodings, signing and verifying keys.
#![allow(unused_imports)]

use vstd::prelude::*;
use vstd::std_specs::cmp::PartialEqSpecImpl;

use crate::constants::{
    COMPRESSED_SEC1_PUBLIC_KEY_LEN, DIGEST_LEN, ORDER_BYTES, UNCOMPRESSED_SEC1_PUBLIC_KEY_LEN,
};
use crate::error::Error;
use crate::field::{field_mul, field_prime, FieldElement};
use crate::group::{
    affine_to_jacobian, decompress_y, generator_jacobian, jacobian_add, jacobian_to_affine,
    on_curve, sec1_uncompressed, wnaf, wnaf_horner, window8_sum, AffinePoint, ProjectivePoint,
};
use crate::hash::{sha256, sha256_digest};
use crate::limbs::{be_bytes, be_nat, copy_bytes32};
use crate::rfc6979::{drbg_init, drbg_retry, nonce_search, Rfc6979};
use crate::scalar::{inversion_exponent, scalar_add, scalar_mul, scalar_order, scalar_pow, Scalar};

mod der;

pub use der::{
    der_int_at, der_integer, der_integer_content, der_len_at, der_parse, der_signature,
    lemma_der_parse_complete, lemma_der_parse_sound, lemma_minimal_be, lemma_minimal_be_of, minimal_be,
    DerSignature,
};

verus! {

/// The normalised result of the fixed-base table computation for `k`: the sum over the
/// bytes of `k` of the table entries, each built with the Jacobian formulas.
#[verifier::opaque]
pub open spec fn generator_multiple(k: nat) -> (nat, nat, bool) {
    jacobian_to_affine(window8_sum(generator_jacobian(), be_bytes(k, 32), 32))
}

/// The signature that the nonce `k` gives for the secret `d` and the reduced digest `z`:
/// `r = x(kG) mod n`, `s = k^(n-2) (z + r d) mod n`; `None` when `kG` is the identity,
/// `r = 0` or `s = 0`.
#[verifier::opaque]
pub open spec fn signature_for_nonce(d: nat, z: nat, k: nat) -> Option<(nat, nat)> {
    let point = generator_multiple(k);
    if point.2 {
        None
    } else {
        let r = point.0 % scalar_order();
        if r == 0 {
            None
        } else {
            let s = scalar_mul(scalar_pow(k, inversion_exponent()), scalar_add(z, scalar_mul(r, d)));
            if s == 0 {
                None
            } else {
                Some((r, s))
            }
        }
    }
}

/// Draws nonces from the generator state until one gives a signature, moving past each
/// nonce that does not; at most `fuel + 1` nonces.
pub open spec fn signature_search(d: nat, z: nat, key: Seq<u8>, value: Seq<u8>, fuel: nat) -> Option<(nat, nat)>
    decreases fuel,
{
    match nonce_search(key, value, u64::MAX as nat) {
        None => None,
        Some((k, key1, value1)) => match signature_for_nonce(d, z, k) {
            Some(sig) => Some(sig),
            None => if fuel == 0 {
                None
            } else {
                let next = drbg_retry(key1, value1);
                signature_search(d, z, next.0, next.1, (fuel - 1) as nat)
            },
        },
    }
}

/// The deterministic signature of the 32-byte digest under the secret `d`.
pub open spec fn rfc6979_signature(d: nat, digest: Seq<u8>) -> Option<(nat, nat)> {
    let z = be_nat(digest) % scalar_order();
    let state = drbg_init(be_bytes(d, 32), be_bytes(z, 32));
    signature_search(d, z, state.0, state.1, u64::MAX as nat)
}

/// `u1 * G + u2 * Q` with `w = s^(n-2)`, `u1 = z w`, `u2 = r w`, as verification computes it.
#[verifier::opaque]
pub open spec fn verification_point(q: (nat, nat), z: nat, r: nat, s: nat) -> (nat, nat, nat) {
    let w = scalar_pow(s, inversion_exponent());
    let u1 = scalar_mul(z, w);
    let u2 = scalar_mul(r, w);
    jacobian_add(
        window8_sum(generator_jacobian(), be_bytes(u1, 32), 32),
        wnaf_horner((q.0, q.1, 1), wnaf(u2, 6)),
    )
}

/// The Jacobian point is finite with affine x-coordinate `x`.
pub open spec fn has_affine_x(p: (nat, nat, nat), x: nat) -> bool {
    p.2 != 0 && p.0 == field_mul(x, field_mul(p.2, p.2))
}

/// Whether the ECDSA equation holds: the point is finite and its x-coordinate is `r`
/// or `r + n` (the latter only when below `p`).
pub open spec fn signature_verifies(q: (nat, nat), z: nat, r: nat, s: nat) -> bool {
    let point = verification_point(q, z, r, s);
    &&& s != 0
    &&& point.2 != 0
    &&& (has_affine_x(point, r) || (r + scalar_order() < field_prime() && has_affine_x(
        point,
        r + scalar_order(),
    )))
}

/// The public key that a SEC1 encoding names: 65 bytes `0x04 || x || y` of a curve
/// point, or 33 bytes `0x02/0x03 || x` whose `y` has the parity of the tag.
pub open spec fn sec1_decode(b: Seq<u8>) -> Option<(nat, nat)> {
    if b.len() == 65 {
        let x = be_nat(b.subrange(1, 33));
        let y = be_nat(b.subrange(33, 65));
        if b[0] == 4 && x < field_prime() && y < field_prime() && on_curve(x, y) {
            Some((x, y))
        } else {
            None
        }
    } else if b.len() == 33 {
        let x = be_nat(b.subrange(1, 33));
        let y = decompress_y(x, b[0] == 3);
        if (b[0] == 2 || b[0] == 3) && x < field_prime() && y is Some {
            Some((x, y->0))
        } else {
            None
        }
    } else {
        None
    }
}

/// The compressed SEC1 encoding `(0x02 | y mod 2) || x`.
pub open spec fn sec1_compressed(x: nat, y: nat) -> Seq<u8> {
    seq![if y % 2 == 0 { 2u8 } else { 3u8 }] + be_bytes(x, 32)
}

/// An ECDSA signature over the P-256 curve: two scalars `r` and `s` in `[1, n-1]`.
#[derive(Clone, Copy, Debug)]
pub struct Signature {
    r: Scalar,
    s: Scalar,
}

impl View for Signature {
    type V = (nat, nat);

    closed spec fn view(&self) -> (nat, nat) {
        (self.r@, self.s@)
    }
}

impl Signature {
    /// Both scalars are nonzero.
    #[verifier::type_invariant]
    pub closed spec fn wf(self) -> bool {
        self.r@ != 0 && self.s@ != 0
    }

    /// The values of a well-formed signature are nonzero and below `n`.
    pub proof fn lemma_range(self)
        requires
            self.wf(),
        ensures
            0 < self@.0 < scalar_order(),
            0 < self@.1 < scalar_order(),
    {
        self.r.lemma_value_bound();
        self.s.lemma_value_bound();
    }

    /// The signature with values `(r, s)`, both nonzero and below `n`.
    pub fn from_scalars(r: [u8; 32], s: [u8; 32]) -> (res: Result<Self, Error>)
        ensures
            res is Ok <==> (0 < be_nat(r@) < scalar_order() && 0 < be_nat(s@) < scalar_order()),
            res matches Ok(sig) ==> sig@ == (be_nat(r@), be_nat(s@)),
            res matches Err(e) ==> e is InvalidInput,
    {
        let r = match Scalar::from_be_bytes(r) {
            Some(r) => r,
            None => return Err(Error::InvalidInput("invalid ECDSA r scalar".to_owned())),
        };
        if r.is_zero() {
            return Err(Error::InvalidInput("invalid ECDSA r scalar".to_owned()));
        }
        let s = match Scalar::from_be_bytes(s) {
            Some(s) => s,
            None => return Err(Error::InvalidInput("invalid ECDSA s scalar".to_owned())),
        };
        if s.is_zero() {
            return Err(Error::InvalidInput("invalid ECDSA s scalar".to_owned()));
        }

        Ok(Self { r, s })
    }

    /// Parses the fixed-width `r || s` encoding.
    pub fn from_slice(bytes: &[u8]) -> (res: Result<Self, Error>)
        ensures
            res is Ok <==> (bytes@.len() == 64 && 0 < be_nat(bytes@.subrange(0, 32)) < scalar_order()
                && 0 < be_nat(bytes@.subrange(32, 64)) < scalar_order()),
            res matches Ok(sig) ==> sig@ == (
                be_nat(bytes@.subrange(0, 32)),
                be_nat(bytes@.subrange(32, 64)),
            ),
            res matches Err(e) ==> e is InvalidInput,
    {
        if bytes.len() != 64 {
            return Err(Error::InvalidInput("expected 64-byte signature".to_owned()));
        }
        let r = copy_bytes32(bytes, 0);
        let s = copy_bytes32(bytes, DIGEST_LEN);
        Self::from_scalars(r, s)
    }

    /// The fixed-width `r || s` encoding.
    pub fn to_bytes(self) -> (out: [u8; 64])
        ensures
            out@ == be_bytes(self@.0, 32) + be_bytes(self@.1, 32),
    {
        let r = self.r.to_be_bytes();
        let s = self.s.to_be_bytes();
        let mut out = [0u8; 64];
        for i in 0..32
            invariant
                forall|j: int| 0 <= j < i ==> out[j] == r[j],
        {
            out[i] = r[i];
        }
        for i in 0..32
            invariant
                forall|j: int| 0 <= j < 32 ==> out[j] == r[j],
                forall|j: int| 0 <= j < i ==> out[32 + j] == s[j],
        {
            out[32 + i] = s[i];
        }
        assert(out@ =~= r@ + s@);
        out
    }

    /// The `r` scalar.
    pub fn r(self) -> (r: Scalar)
        ensures
            r@ == self@.0,
    {
        self.r
    }

    /// The `s` scalar.
    pub fn s(self) -> (s: Scalar)
        ensures
            s@ == self@.1,
    {
        self.s
    }
}

impl PartialEq for Signature {
    fn eq(&self, other: &Self) -> (r: bool) {
        self.r == other.r && self.s == other.s
    }
}

impl PartialEqSpecImpl for Signature {
    open spec fn obeys_eq_spec() -> bool {
        true
    }

    open spec fn eq_spec(&self, other: &Self) -> bool {
        self@ == other@
    }
}

impl Eq for Signature {
}

/// A SEC1-encoded public key: 33 bytes compressed or 65 bytes uncompressed.
#[derive(Clone, Copy, Debug, PartialEq, Eq)]
pub struct EncodedPoint {
    bytes: [u8; 65],
    len: usize,
}

impl View for EncodedPoint {
    type V = Seq<u8>;

    closed spec fn view(&self) -> Seq<u8> {
        self.bytes@.take(self.len as int)
    }
}

impl EncodedPoint {
    /// The length fits the buffer.
    #[verifier::type_invariant]
    closed spec fn fits(self) -> bool {
        self.len <= 65
    }

    /// The encoded bytes.
    pub fn as_bytes(&self) -> (r: &[u8])
        ensures
            r@ == self@,
    {
        proof {
            use_type_invariant(self);
        }
        let all = self.bytes.as_slice();
        let r = &all[0..self.len];
        assert(r@ =~= self@);
        r
    }
}

impl AsRef<[u8]> for EncodedPoint {
    fn as_ref(&self) -> (r: &[u8])
        ensures
            r@ == self@,
    {
        self.as_bytes()
    }
}

/// An ECDSA verifying key for P-256: a finite curve point.
#[derive(Clone, Copy, Debug)]
pub struct VerifyingKey {
    public_key: AffinePoint,
}

impl View for VerifyingKey {
    type V = (nat, nat);

    closed spec fn view(&self) -> (nat, nat) {
        (self.public_key@.0, self.public_key@.1)
    }
}

impl VerifyingKey {
    /// The point is finite and on the curve.
    #[verifier::type_invariant]
    closed spec fn finite(self) -> bool {
        &&& !self.public_key@.2
        &&& on_curve(self.public_key@.0, self.public_key@.1)
    }

    /// Parses a compressed (33-byte) or uncompressed (65-byte) SEC1 public key.
    pub fn from_sec1_bytes(public_key_sec1: &[u8]) -> (res: Result<Self, Error>)
        ensures
            res is Ok <==> sec1_decode(public_key_sec1@) is Some,
            res matches Ok(key) ==> sec1_decode(public_key_sec1@) == Some(key@),
            res matches Ok(key) ==> on_curve(key@.0, key@.1),
            res matches Err(e) ==> e is InvalidInput,
    {
        let len = public_key_sec1.len();
        let public_key = if len == UNCOMPRESSED_SEC1_PUBLIC_KEY_LEN {
            let mut bytes = [0u8; 65];
            for i in 0..65
                invariant
                    public_key_sec1@.len() == 65,
                    forall|j: int| 0 <= j < i ==> bytes[j] == public_key_sec1@[j],
            {
                bytes[i] = public_key_sec1[i];
            }
            assert(bytes@ =~= public_key_sec1@);
            AffinePoint::from_sec1_uncompressed(bytes)
        } else if len == COMPRESSED_SEC1_PUBLIC_KEY_LEN {
            let mut bytes = [0u8; 33];
            for i in 0..33
                invariant
                    public_key_sec1@.len() == 33,
                    forall|j: int| 0 <= j < i ==> bytes[j] == public_key_sec1@[j],
            {
                bytes[i] = public_key_sec1[i];
            }
            assert(bytes@ =~= public_key_sec1@);
            AffinePoint::from_sec1_compressed(bytes)
        } else {
            None
        };

        proof {
            let b = public_key_sec1@;
            if b.len() == 33 {
                let x = be_nat(b.subrange(1, 33));
                if decompress_y(x, b[0] == 3) is Some {
                    crate::group::lemma_decompress_on_curve(x, b[0] == 3);
                }
            }
        }
        match public_key {
            Some(public_key) => Ok(Self { public_key }),
            None => Err(Error::InvalidInput("invalid secp256r1 public key".to_owned())),
        }
    }

    /// The SEC1 encoding: compressed `0x02/0x03 || x` when `compress`, else
    /// uncompressed `0x04 || x || y`. The uncompressed encoding of a point on the curve
    /// decodes back to it; so does the compressed one when square-root recovery gives
    /// `y` back.
    pub fn to_encoded_point(&self, compress: bool) -> (r: EncodedPoint)
        ensures
            r@ == (if compress {
                sec1_compressed(self@.0, self@.1)
            } else {
                sec1_uncompressed(self@.0, self@.1)
            }),
            on_curve(self@.0, self@.1),
            !compress ==> sec1_decode(r@) == Some(self@),
            compress && decompress_y(self@.0, self@.1 % 2 == 1) == Some(self@.1) ==> sec1_decode(r@)
                == Some(self@),
    {
        proof {
            use_type_invariant(self);
            self.public_key.lemma_view_bound();
            if on_curve(self@.0, self@.1) {
                crate::laws::lemma_sec1_uncompressed_round_trip(self@.0, self@.1);
            }
            if decompress_y(self@.0, self@.1 % 2 == 1) == Some(self@.1) {
                crate::laws::lemma_sec1_compressed_round_trip(self@.0, self@.1);
            }
        }
        let uncompressed = self.public_key.to_sec1_uncompressed().unwrap();

        if !compress {
            let r = EncodedPoint { bytes: uncompressed, len: UNCOMPRESSED_SEC1_PUBLIC_KEY_LEN };
            assert(r@ =~= uncompressed@);
            return r;
        }

        let mut bytes = [0u8; 65];
        let y = self.public_key.y().unwrap();
        let y_bytes = y.to_be_bytes();
        proof {
            crate::limbs::lemma_be_parity(y_bytes@);
            assert(y_bytes@.last() == y_bytes[31]);
        }
        bytes[0] = if y_bytes[DIGEST_LEN - 1] & 1 == 0 {
            0x02
        } else {
            0x03
        };
        for i in 1..33
            invariant
                bytes[0] == (if self@.1 % 2 == 0 { 2u8 } else { 3u8 }),
                uncompressed@ == sec1_uncompressed(self@.0, self@.1),
                forall|j: int| 1 <= j < i ==> bytes[j] == uncompressed[j],
        {
            bytes[i] = uncompressed[i];
        }
        let r = EncodedPoint { bytes, len: 33 };
        proof {
            crate::limbs::lemma_be_bytes(self@.0, 32);
            assert(r@ =~= sec1_compressed(self@.0, self@.1));
        }
        r
    }

    /// Verifies a signature over the SHA-256 digest of the message.
    pub fn verify(&self, message: &[u8], signature: &Signature) -> (res: Result<(), Error>)
        ensures
            res is Ok <==> signature_verifies(
                self@,
                be_nat(sha256_digest(message@)) % scalar_order(),
                signature@.0,
                signature@.1,
            ),
            res matches Err(e) ==> e is InvalidSignature,
    {
        let digest = sha256(message);
        self.verify_prehash(&digest, signature)
    }

    /// Verifies a signature over a 32-byte digest.
    pub fn verify_prehash(&self, digest: &[u8], signature: &Signature) -> (res: Result<(), Error>)
        ensures
            digest@.len() != 32 ==> res == Err::<(), Error>(
                Error::InvalidDigestLength { expected: 32, actual: digest@.len() as usize },
            ),
            digest@.len() == 32 ==> (res is Ok <==> signature_verifies(
                self@,
                be_nat(digest@) % scalar_order(),
                signature@.0,
                signature@.1,
            )),
            digest@.len() == 32 ==> (res matches Err(e) ==> e is InvalidSignature),
    {
        let digest = digest_32(digest)?;
        if self.verify_digest_signature(digest, signature) {
            Ok(())
        } else {
            Err(Error::InvalidSignature)
        }
    }

    /// Verifies a strict DER signature over a 32-byte digest.
    pub fn verify_prehashed_der(&self, digest: &[u8], signature_der: &[u8]) -> (res: Result<(), Error>)
        ensures
            match der::der_parse(signature_der@) {
                Some((r, s)) => if 0 < be_nat(r) < scalar_order() && 0 < be_nat(s) < scalar_order() {
                    &&& digest@.len() != 32 ==> res == Err::<(), Error>(
                        Error::InvalidDigestLength { expected: 32, actual: digest@.len() as usize },
                    )
                    &&& digest@.len() == 32 ==> (res is Ok <==> signature_verifies(
                        self@,
                        be_nat(digest@) % scalar_order(),
                        be_nat(r),
                        be_nat(s),
                    ))
                    &&& digest@.len() == 32 ==> (res matches Err(e) ==> e is InvalidSignature)
                } else {
                    res matches Err(e) && e is InvalidInput
                },
                None => res matches Err(e) && e is InvalidInput,
            },
    {
        let signature = Signature::from_der(signature_der)?;
        self.verify_prehash(digest, &signature)
    }

    /// Checks the ECDSA equation for a 32-byte digest.
    fn verify_digest_signature(&self, digest: [u8; 32], signature: &Signature) -> (r: bool)
        ensures
            r == signature_verifies(self@, be_nat(digest@) % scalar_order(), signature@.0, signature@.1),
    {
        proof {
            use_type_invariant(self);
            reveal(verification_point);
        }
        let z = Scalar::from_be_bytes_reduced(digest);
        let w = match signature.s.invert() {
            Some(w) => w,
            None => return false,
        };
        let u1 = z * w;
        let u2 = signature.r * w;
        let point = ProjectivePoint::mul_generator_vartime(u1.to_be_bytes())
            + ProjectivePoint::from_affine(self.public_key).mul_scalar_wnaf6_vartime(u2.to_be_bytes());
        proof {
            u2.lemma_value_bound();
            crate::limbs::lemma_be_bytes(u2@, 32);
            crate::limbs::lemma_pow256_values();
        }

        !point.is_identity() && projective_x_matches_signature_r(point, signature.r)
    }
}

impl PartialEq for VerifyingKey {
    fn eq(&self, other: &Self) -> (r: bool) {
        proof {
            use_type_invariant(self);
            use_type_invariant(other);
        }
        self.public_key == other.public_key
    }
}

impl PartialEqSpecImpl for VerifyingKey {
    open spec fn obeys_eq_spec() -> bool {
        true
    }

    open spec fn eq_spec(&self, other: &Self) -> bool {
        self@ == other@
    }
}

impl Eq for VerifyingKey {
}

/// The public point `d * G` as the fixed-base table computes it; `None` when it is the identity.
pub open spec fn public_key_of(d: nat) -> Option<(nat, nat)> {
    let point = generator_multiple(d);
    if point.2 {
        None
    } else {
        Some((point.0, point.1))
    }
}

/// The public point `d * G` is finite and satisfies the curve equation.
pub open spec fn public_key_on_curve(d: nat) -> bool {
    public_key_of(d) matches Some(q) && on_curve(q.0, q.1)
}

/// An ECDSA signing key for P-256: a secret scalar in `[1, n-1]` with its verifying key.
pub struct SigningKey {
    secret: Scalar,
    verifying_key: VerifyingKey,
}

impl Clone for SigningKey {
    fn clone(&self) -> (r: Self)
        ensures
            r@ == self@,
    {
        proof {
            use_type_invariant(self);
        }
        SigningKey { secret: self.secret, verifying_key: self.verifying_key }
    }
}

impl View for SigningKey {
    type V = nat;

    closed spec fn view(&self) -> nat {
        self.secret@
    }
}

impl SigningKey {
    /// The secret is nonzero and the verifying key is its public point.
    #[verifier::type_invariant]
    closed spec fn consistent(self) -> bool {
        &&& self.secret@ != 0
        &&& public_key_of(self.secret@) == Some(self.verifying_key@)
    }

    /// The key for a canonical, nonzero 32-byte big-endian scalar.
    pub fn from_bytes(bytes: [u8; 32]) -> (res: Result<Self, Error>)
        ensures
            res is Ok <==> (0 < be_nat(bytes@) < scalar_order() && public_key_on_curve(be_nat(bytes@))),
            res matches Ok(key) ==> key@ == be_nat(bytes@),
            res matches Ok(key) ==> public_key_of(be_nat(bytes@)) == Some(key.verifying_key_view()),
            res matches Err(e) ==> e is InvalidInput,
    {
        proof {
            reveal(generator_multiple);
        }
        let mut bytes = bytes;
        let secret = match Scalar::from_be_bytes(bytes) {
            Some(secret) => secret,
            None => {
                crate::wipe::wipe_bytes(&mut bytes);
                return Err(Error::InvalidInput("invalid signing key scalar".to_owned()));
            },
        };
        crate::wipe::wipe_bytes(&mut bytes);
        if secret.is_zero() {
            return Err(Error::InvalidInput("invalid signing key scalar".to_owned()));
        }
        let mut scalar_bytes = secret.to_be_bytes();
        let public_key = ProjectivePoint::mul_generator_vartime(scalar_bytes).to_affine();
        crate::wipe::wipe_bytes(&mut scalar_bytes);
        if public_key.is_identity() || !public_key.is_on_curve() {
            return Err(Error::InvalidInput("invalid signing key scalar".to_owned()));
        }

        Ok(Self { secret, verifying_key: VerifyingKey { public_key } })
    }

    /// The key for a canonical, nonzero 32-byte big-endian scalar given as a slice.
    pub fn from_slice(bytes: &[u8]) -> (res: Result<Self, Error>)
        ensures
            res is Ok <==> (bytes@.len() == 32 && 0 < be_nat(bytes@) < scalar_order()
                && public_key_on_curve(be_nat(bytes@))),
            res matches Ok(key) ==> key@ == be_nat(bytes@),
            res matches Err(e) ==> e is InvalidInput,
    {
        if bytes.len() != DIGEST_LEN {
            return Err(Error::InvalidInput("expected 32-byte signing key".to_owned()));
        }
        let mut array = copy_bytes32(bytes, 0);
        assert(array@ =~= bytes@);
        let key = Self::from_bytes(array);
        crate::wipe::wipe_bytes(&mut array);
        key
    }

    /// The verifying key, the public point of the secret.
    pub fn verifying_key(&self) -> (r: &VerifyingKey)
        ensures
            public_key_of(self@) == Some(r@),
            r@ == self.verifying_key_view(),
    {
        proof {
            use_type_invariant(self);
        }
        &self.verifying_key
    }

    /// The secret as a canonical big-endian 32-byte scalar: a number in `[1, n-1]`
    /// whose public point is this key's verifying key.
    pub fn to_bytes(&self) -> (r: [u8; 32])
        ensures
            r@ == be_bytes(self@, 32),
            be_nat(r@) == self@,
            0 < self@ < scalar_order(),
            public_key_of(self@) == Some(self.verifying_key_view()),
            on_curve(self.verifying_key_view().0, self.verifying_key_view().1),
    {
        proof {
            use_type_invariant(self);
            use_type_invariant(&self.verifying_key);
            self.secret.lemma_value_bound();
        }
        self.secret.to_be_bytes()
    }

    /// The point of the verifying key.
    pub closed spec fn verifying_key_view(&self) -> (nat, nat) {
        self.verifying_key@
    }

    /// Overwrites the secret with zeros through `zeroize` and consumes the key.
    pub fn wipe(self) {
        let SigningKey { mut secret, verifying_key } = self;
        secret.zeroize();
    }

    /// Signs the SHA-256 digest of the message with a deterministic RFC 6979 nonce.
    pub fn sign(&self, message: &[u8]) -> (res: Result<Signature, Error>)
        ensures
            match rfc6979_signature(self@, sha256_digest(message@)) {
                Some(sig) => res matches Ok(s) && s@ == sig,
                None => res matches Err(e) && e is InvalidInput,
            },
    {
        let digest = sha256(message);
        self.sign_prehash(&digest)
    }

    /// Signs a 32-byte digest with a deterministic RFC 6979 nonce.
    pub fn sign_prehash(&self, digest: &[u8]) -> (res: Result<Signature, Error>)
        ensures
            digest@.len() != 32 ==> res == Err::<Signature, Error>(
                Error::InvalidDigestLength { expected: 32, actual: digest@.len() as usize },
            ),
            digest@.len() == 32 ==> match rfc6979_signature(self@, digest@) {
                Some(sig) => res matches Ok(s) && s@ == sig,
                None => res matches Err(e) && e is InvalidInput,
            },
    {
        proof {
            use_type_invariant(self);
        }
        let digest_bytes = digest_32(digest)?;
        let z = Scalar::from_be_bytes_reduced(digest_bytes);
        let mut secret = self.secret.to_be_bytes();
        let mut nonce = Rfc6979::new(secret, digest_bytes);
        crate::wipe::wipe_bytes(&mut secret);
        let ghost d = self@;
        let mut attempts: u64 = 0;

        loop
            invariant
                d == self@,
                d != 0,
                digest@.len() == 32,
                digest_bytes@ == digest@,
                z@ == be_nat(digest@) % scalar_order(),
                signature_search(d, z@, nonce@.0, nonce@.1, (u64::MAX - attempts) as nat)
                    == rfc6979_signature(d, digest@),
            decreases u64::MAX - attempts,
        {
            let mut k = match nonce.next() {
                Some(k) => k,
                None => {
                    nonce.wipe();
                    return Err(Error::InvalidInput("no acceptable RFC 6979 nonce".to_owned()));
                },
            };

            let attempt = sign_with_nonce(self.secret, z, k);
            k.zeroize();
            if let Some(signature) = attempt {
                nonce.wipe();
                return Ok(signature);
            }

            if attempts == u64::MAX {
                nonce.wipe();
                return Err(Error::InvalidInput("no acceptable RFC 6979 nonce".to_owned()));
            }
            nonce.retry();
            attempts = attempts + 1;
        }
    }
}

/// The signature that the nonce `k` gives, if any: `r = x(kG) mod n`, `s = k^-1 (z + r d)`.
fn sign_with_nonce(secret: Scalar, z: Scalar, k: Scalar) -> (res: Option<Signature>)
    requires
        k@ != 0,
    ensures
        match signature_for_nonce(secret@, z@, k@) {
            Some(sig) => res matches Some(s) && s@ == sig,
            None => res is None,
        },
{
    proof {
        reveal(signature_for_nonce);
        reveal(generator_multiple);
    }
    let mut k_bytes = k.to_be_bytes();
    let point = ProjectivePoint::mul_generator_vartime(k_bytes).to_affine();
    crate::wipe::wipe_bytes(&mut k_bytes);
    let r = match scalar_from_x_coordinate(point) {
        Some(r) => r,
        None => return None,
    };
    if r.is_zero() {
        return None;
    }
    let mut k_inv = match k.invert() {
        Some(k_inv) => k_inv,
        None => return None,
    };
    let s = k_inv * (z + r * secret);
    k_inv.zeroize();
    if s.is_zero() {
        return None;
    }
    Some(Signature { r, s })
}

/// The digest as a 32-byte array, or the length error.
fn digest_32(digest: &[u8]) -> (res: Result<[u8; 32], Error>)
    ensures
        res is Ok <==> digest@.len() == 32,
        res matches Ok(d) ==> d@ == digest@,
        digest@.len() != 32 ==> res == Err::<[u8; 32], Error>(
            Error::InvalidDigestLength { expected: 32, actual: digest@.len() as usize },
        ),
{
    if digest.len() != DIGEST_LEN {
        return Err(Error::InvalidDigestLength { expected: DIGEST_LEN, actual: digest.len() });
    }
    let d = copy_bytes32(digest, 0);
    assert(d@ =~= digest@);
    Ok(d)
}

/// The x-coordinate of a finite point, reduced modulo `n`; `None` for the identity.
fn scalar_from_x_coordinate(point: AffinePoint) -> (r: Option<Scalar>)
    ensures
        r is None <==> point@.2,
        r matches Some(s) ==> s@ == point@.0 % scalar_order(),
{
    let x = point.x()?;
    Some(Scalar::from_be_bytes_reduced(x.to_be_bytes()))
}

/// Whether the point has affine x-coordinate `r`, or `r + n` when that is below `p`.
fn projective_x_matches_signature_r(point: ProjectivePoint, r: Scalar) -> (b: bool)
    ensures
        b == (has_affine_x(point@, r@) || (r@ + scalar_order() < field_prime() && has_affine_x(
            point@,
            r@ + scalar_order(),
        ))),
{
    let r_bytes = r.to_be_bytes();
    proof {
        r.lemma_value_bound();
        lemma_order_below_prime();
    }
    let r_field = FieldElement::from_be_bytes(r_bytes).unwrap();

    if point.has_affine_x(r_field) {
        return true;
    }
    match r_plus_order_field(r_bytes) {
        Some(candidate) => point.has_affine_x(candidate),
        None => false,
    }
}

/// `n < p`.
proof fn lemma_order_below_prime()
    ensures
        scalar_order() < field_prime(),
{
}

/// `ORDER_BYTES` holds `n`.
proof fn lemma_order_bytes()
    ensures
        be_nat(ORDER_BYTES@) == scalar_order(),
{
    let s = ORDER_BYTES@;
    crate::limbs::lemma_be_nat32(s);
    crate::limbs::lemma_be_nat8(s.subrange(0, 8));
    crate::limbs::lemma_be_nat8(s.subrange(8, 16));
    crate::limbs::lemma_be_nat8(s.subrange(16, 24));
    crate::limbs::lemma_be_nat8(s.subrange(24, 32));
}

/// One byte of carried addition: the low byte and the carry.
proof fn lemma_byte_carry(sum: u16)
    ensures
        (sum as u8) == sum % 256,
        sum >> 8u16 == sum / 256,
{
    assert((sum as u8) == sum % 256) by (bit_vector);
    assert(sum >> 8u16 == sum / 256) by (bit_vector);
}

/// The value of a byte string is its first byte's weight plus the value of the rest.
proof fn lemma_be_nat_first(s: Seq<u8>, i: int)
    requires
        0 <= i < s.len(),
    ensures
        be_nat(s.subrange(i, s.len() as int)) == s[i] * crate::limbs::pow256((s.len() - i - 1) as nat)
            + be_nat(s.subrange(i + 1, s.len() as int)),
{
    let t = s.subrange(i, s.len() as int);
    assert(t =~= seq![s[i]] + s.subrange(i + 1, s.len() as int));
    crate::limbs::lemma_be_nat_concat(seq![s[i]], s.subrange(i + 1, s.len() as int));
    assert(be_nat(seq![s[i]]) == s[i]) by {
        assert(seq![s[i]].drop_last() =~= Seq::<u8>::empty());
        reveal_with_fuel(be_nat, 2);
    }
}

/// `r + n` as a field element, when it is below `p`.
fn r_plus_order_field(r: [u8; 32]) -> (out: Option<FieldElement>)
    ensures
        out is Some <==> be_nat(r@) + scalar_order() < field_prime(),
        out matches Some(f) ==> f@ == be_nat(r@) + scalar_order(),
{
    let mut out = [0u8; 32];
    let mut carry: u16 = 0;
    let ghost order = ORDER_BYTES@;
    proof {
        lemma_order_bytes();
        assert(out@.subrange(32, 32) =~= Seq::<u8>::empty());
        assert(r@.subrange(32, 32) =~= Seq::<u8>::empty());
        assert(order.subrange(32, 32) =~= Seq::<u8>::empty());
    }

    for k in 0..32
        invariant
            carry <= 1,
            order == ORDER_BYTES@,
            be_nat(out@.subrange(32 - k, 32)) + carry * crate::limbs::pow256(k as nat) == be_nat(
                r@.subrange(32 - k, 32),
            ) + be_nat(order.subrange(32 - k, 32)),
    {
        let i = 31 - k;
        let ghost before = out@;
        let ghost c0 = carry;
        let sum = r[i] as u16 + ORDER_BYTES[i] as u16 + carry;
        out[i] = sum as u8;
        carry = sum >> 8;
        proof {
            lemma_byte_carry(sum);
            assert(out@.subrange(i + 1, 32) =~= before.subrange(i + 1, 32));
            lemma_be_nat_first(out@, i as int);
            lemma_be_nat_first(r@, i as int);
            lemma_be_nat_first(order, i as int);
            let p = crate::limbs::pow256(k as nat) as int;
            assert(crate::limbs::pow256((k + 1) as nat) == 256 * p);
            let lo = (sum % 256) as int;
            let hi = (sum / 256) as int;
            let a = r[i as int] as int;
            let b = order[i as int] as int;
            assert(lo * p + hi * (256 * p) == a * p + b * p + (c0 as int) * p) by (nonlinear_arith)
                requires
                    lo + 256 * hi == a + b + c0,
            ;
        }
    }

    if carry == 0 {
        proof {
            assert(out@.subrange(0, 32) =~= out@);
            assert(r@.subrange(0, 32) =~= r@);
            assert(order.subrange(0, 32) =~= order);
        }
        FieldElement::from_be_bytes(out)
    } else {
        proof {
            crate::limbs::lemma_pow256_values();
            assert(r@.subrange(0, 32) =~= r@);
            assert(order.subrange(0, 32) =~= order);
            crate::limbs::lemma_be_nat_bound(out@.subrange(0, 32));
        }
        None
    }
}

} // verus!
