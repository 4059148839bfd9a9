use openssl::{
    bn::{BigNum, BigNumContext},
    ec::{EcGroup, EcKey, EcPoint},
    ecdsa::EcdsaSig,
    hash::MessageDigest,
    nid::Nid,
    pkey::{PKey, Private},
    sign::Verifier as OpenSslVerifier,
};
use p256::ecdsa::{
    signature::hazmat::PrehashVerifier, signature::Signer as _, signature::Verifier as _,
    Signature as P256Signature, SigningKey,
};
use secp256r1::{Signature, SigningKey as RustSigningKey};
use sha2::{Digest as _, Sha256};

const MESSAGE: &[u8] = b"secp256r1 verification benchmark message";

fn fixture() -> (Vec<u8>, Vec<u8>) {
    let secret = [7u8; 32];
    let signing_key = SigningKey::from_slice(&secret).unwrap();
    let verifying_key = signing_key.verifying_key();
    let signature: P256Signature = signing_key.sign(MESSAGE);

    (
        verifying_key.to_encoded_point(false).as_bytes().to_vec(),
        signature.to_der().as_bytes().to_vec(),
    )
}

fn sample_bytes<const N: usize>(mut seed: u64) -> [u8; N] {
    let mut bytes = [0u8; N];

    for chunk in bytes.chunks_mut(8) {
        seed ^= seed << 13;
        seed ^= seed >> 7;
        seed ^= seed << 17;
        chunk.copy_from_slice(&seed.to_be_bytes()[..chunk.len()]);
    }

    bytes
}

fn sample_secret(seed: u64) -> [u8; 32] {
    let mut secret = sample_bytes(seed);

    // Keep the sample strictly below the group order without rejection.
    secret[0] &= 0x7f;
    if secret.iter().all(|byte| *byte == 0) {
        secret[31] = 1;
    }

    secret
}

fn openssl_private_key(secret: &[u8; 32]) -> EcKey<Private> {
    let group = EcGroup::from_curve_name(Nid::X9_62_PRIME256V1).unwrap();
    let private_key = BigNum::from_slice(secret).unwrap();
    let mut context = BigNumContext::new().unwrap();
    let mut public_key = EcPoint::new(&group).unwrap();
    public_key
        .mul_generator2(&group, &private_key, &mut context)
        .unwrap();

    EcKey::from_private_components(&group, &private_key, &public_key).unwrap()
}

fn openssl_verifies(public_key: &[u8], message: &[u8], signature_der: &[u8]) -> bool {
    let group = EcGroup::from_curve_name(Nid::X9_62_PRIME256V1).unwrap();
    let mut context = BigNumContext::new().unwrap();
    let point = EcPoint::from_bytes(&group, public_key, &mut context).unwrap();
    let ec_key = EcKey::from_public_key(&group, &point).unwrap();
    let pkey = PKey::from_ec_key(ec_key).unwrap();
    let mut verifier = OpenSslVerifier::new(MessageDigest::sha256(), &pkey).unwrap();

    verifier.update(message).unwrap();
    verifier.verify(signature_der).unwrap()
}

#[test]
fn openssl_verifies_der_signature() {
    let (public_key, signature_der) = fixture();
    let group = EcGroup::from_curve_name(Nid::X9_62_PRIME256V1).unwrap();
    let mut context = BigNumContext::new().unwrap();
    let point = EcPoint::from_bytes(&group, &public_key, &mut context).unwrap();
    let ec_key = EcKey::from_public_key(&group, &point).unwrap();
    let pkey = PKey::from_ec_key(ec_key).unwrap();
    let mut verifier = OpenSslVerifier::new(MessageDigest::sha256(), &pkey).unwrap();

    verifier.update(MESSAGE).unwrap();

    assert!(verifier.verify(&signature_der).unwrap());
}

#[test]
fn openssl_verifies_signature_der() {
    let secret = [7u8; 32];
    let signing_key = RustSigningKey::from_slice(&secret).unwrap();
    let signature = signing_key.sign(MESSAGE).unwrap();
    let public_key = signing_key.verifying_key().to_encoded_point(false);
    let group = EcGroup::from_curve_name(Nid::X9_62_PRIME256V1).unwrap();
    let mut context = BigNumContext::new().unwrap();
    let point = EcPoint::from_bytes(&group, public_key.as_bytes(), &mut context).unwrap();
    let ec_key = EcKey::from_public_key(&group, &point).unwrap();
    let pkey = PKey::from_ec_key(ec_key).unwrap();
    let mut verifier = OpenSslVerifier::new(MessageDigest::sha256(), &pkey).unwrap();

    verifier.update(MESSAGE).unwrap();

    assert!(verifier.verify(signature.to_der().as_bytes()).unwrap());
}

#[test]
fn randomized_signatures_verify_across_implementations() {
    for seed in 1..=32 {
        let secret = sample_secret(seed);
        let message = sample_bytes::<113>(seed ^ 0xa5a5_a5a5_a5a5_a5a5);
        let signing_key = RustSigningKey::from_slice(&secret).unwrap();
        let verifying_key = signing_key.verifying_key();
        let public_key = verifying_key.to_encoded_point(false);
        let p256_signing_key = SigningKey::from_slice(&secret).unwrap();
        let p256_verifying_key = p256_signing_key.verifying_key();

        let signature = signing_key.sign(&message).unwrap();
        let p256_signature = P256Signature::from_slice(&signature.to_bytes()).unwrap();
        assert!(
            p256_verifying_key.verify(&message, &p256_signature).is_ok(),
            "p256 rejected our signature for seed {seed}"
        );
        assert!(
            openssl_verifies(
                public_key.as_bytes(),
                &message,
                signature.to_der().as_bytes()
            ),
            "OpenSSL rejected our signature for seed {seed}"
        );

        let p256_signature: P256Signature = p256_signing_key.sign(&message);
        let signature = Signature::from_slice(&p256_signature.to_bytes()).unwrap();
        assert!(
            verifying_key.verify(&message, &signature).is_ok(),
            "we rejected p256 signature for seed {seed}"
        );
        assert!(
            openssl_verifies(
                public_key.as_bytes(),
                &message,
                p256_signature.to_der().as_bytes(),
            ),
            "OpenSSL rejected p256 signature for seed {seed}"
        );
    }
}

#[test]
fn randomized_openssl_prehash_signatures_verify_with_rust_and_p256() {
    for seed in 1..=16 {
        let secret = sample_secret(seed);
        let digest = Sha256::digest(sample_bytes::<97>(seed ^ 0x5a5a_5a5a_5a5a_5a5a));
        let signing_key = RustSigningKey::from_slice(&secret).unwrap();
        let verifying_key = signing_key.verifying_key();
        let p256_signing_key = SigningKey::from_slice(&secret).unwrap();
        let openssl_key = openssl_private_key(&secret);
        let openssl_signature = EcdsaSig::sign(&digest, &openssl_key).unwrap();
        let signature_der = openssl_signature.to_der().unwrap();

        assert!(
            verifying_key
                .verify_prehashed_der(&digest, &signature_der)
                .is_ok(),
            "we rejected OpenSSL signature for seed {seed}"
        );

        let p256_signature = P256Signature::from_der(&signature_der).unwrap();
        assert!(
            p256_signing_key
                .verifying_key()
                .verify_prehash(&digest, &p256_signature)
                .is_ok(),
            "p256 rejected OpenSSL signature for seed {seed}"
        );
    }
}
