use secp256r1::{Error, Signature, SigningKey, VerifyingKey};
use sha2::{Digest as _, Sha256};

fn hex32(text: &str) -> [u8; 32] {
    let mut out = [0u8; 32];
    for i in 0..32 {
        out[i] = u8::from_str_radix(&text[2 * i..2 * i + 2], 16).unwrap();
    }
    out
}

fn rfc6979_key() -> SigningKey {
    SigningKey::from_bytes(hex32("C9AFA9D845BA75166B5C215767B1D6934E50C3DB36E89B127B8A622B120F6721"))
        .unwrap()
}

#[test]
fn rfc6979_sample_vector() {
    let key = rfc6979_key();
    let signature = key.sign(b"sample").unwrap();
    let mut expected = [0u8; 64];
    expected[..32].copy_from_slice(&hex32(
        "EFD48B2AACB6A8FD1140DD9CD45E81D69D2C877B56AAF991C34D0EA84EAF3716",
    ));
    expected[32..].copy_from_slice(&hex32(
        "F7CB1C942D657C41D436C7A1B6E29F65F3E900DBB9AFF4064DC4AB2F843ACDA8",
    ));
    assert_eq!(signature.to_bytes(), expected);
}

#[test]
fn rfc6979_public_key_vector() {
    let key = rfc6979_key();
    let encoded = key.verifying_key().to_encoded_point(false);
    let mut expected = vec![0x04];
    expected.extend_from_slice(&hex32(
        "60FED4BA255A9D31C961EB74C6356D68C049B8923B61FA6CE669622E60F29FB6",
    ));
    expected.extend_from_slice(&hex32(
        "7903FE1008B8BC99A41AE9E95628BC64F2F1B20C2D7E9F5177A3C294D4462299",
    ));
    assert_eq!(encoded.as_bytes(), expected.as_slice());
    let compressed = key.verifying_key().to_encoded_point(true);
    assert_eq!(compressed.as_bytes()[0], 0x03);
    assert_eq!(&compressed.as_bytes()[1..], &expected[1..33]);
}

#[test]
fn signing_hashes_the_message_with_sha256() {
    let key = rfc6979_key();
    let digest = Sha256::digest(b"sample");
    assert_eq!(key.sign(b"sample").unwrap(), key.sign_prehash(&digest).unwrap());
    assert_ne!(key.sign(b"sample").unwrap(), key.sign_prehash(b"sample sample sample sample 32b!").unwrap());
}

#[test]
fn signing_is_deterministic() {
    let key = SigningKey::from_slice(&[9u8; 32]).unwrap();
    let first = key.sign(b"message").unwrap();
    let second = key.sign(b"message").unwrap();
    assert_eq!(first, second);
    assert_ne!(first, key.sign(b"other message").unwrap());
}

#[test]
fn fixed_width_round_trip() {
    let key = SigningKey::from_slice(&[3u8; 32]).unwrap();
    let signature = key.sign(b"round trip").unwrap();
    let bytes = signature.to_bytes();
    assert_eq!(Signature::from_slice(&bytes).unwrap(), signature);
    assert_eq!(&bytes[..32], &signature.r().to_be_bytes());
    assert_eq!(&bytes[32..], &signature.s().to_be_bytes());
}

#[test]
fn der_round_trip() {
    let key = SigningKey::from_slice(&[3u8; 32]).unwrap();
    let signature = key.sign(b"round trip").unwrap();
    let der = signature.to_der();
    assert_eq!(Signature::from_der(der.as_bytes()).unwrap(), signature);
    assert_eq!(der.as_bytes()[0], 0x30);
    assert_eq!(der.as_bytes()[1] as usize, der.as_bytes().len() - 2);
}

#[test]
fn der_of_small_values() {
    let mut r = [0u8; 32];
    let mut s = [0u8; 32];
    r[31] = 1;
    s[31] = 0x80;
    let signature = Signature::from_scalars(r, s).unwrap();
    assert_eq!(
        signature.to_der().as_bytes(),
        &[0x30, 0x07, 0x02, 0x01, 0x01, 0x02, 0x02, 0x00, 0x80]
    );
}

#[test]
fn scalars_must_be_nonzero_and_canonical() {
    let zero = [0u8; 32];
    let mut one = [0u8; 32];
    one[31] = 1;
    assert!(matches!(Signature::from_scalars(zero, one), Err(Error::InvalidInput(_))));
    assert!(matches!(Signature::from_scalars(one, zero), Err(Error::InvalidInput(_))));
    assert!(matches!(Signature::from_scalars([0xff; 32], one), Err(Error::InvalidInput(_))));
    assert!(matches!(Signature::from_slice(&[1u8; 63]), Err(Error::InvalidInput(_))));
}

#[test]
fn wrong_digest_length_is_reported() {
    let key = SigningKey::from_slice(&[5u8; 32]).unwrap();
    let signature = key.sign(b"x").unwrap();
    assert!(matches!(
        key.verifying_key().verify_prehash(&[0u8; 31], &signature),
        Err(Error::InvalidDigestLength { expected: 32, actual: 31 })
    ));
    assert!(matches!(
        key.sign_prehash(&[0u8; 33]),
        Err(Error::InvalidDigestLength { expected: 32, actual: 33 })
    ));
}

#[test]
fn verification_rejects_other_message_and_key() {
    let key = SigningKey::from_slice(&[5u8; 32]).unwrap();
    let other = SigningKey::from_slice(&[6u8; 32]).unwrap();
    let signature = key.sign(b"hello").unwrap();
    assert!(key.verifying_key().verify(b"hello", &signature).is_ok());
    assert!(matches!(key.verifying_key().verify(b"hellp", &signature), Err(Error::InvalidSignature)));
    assert!(matches!(other.verifying_key().verify(b"hello", &signature), Err(Error::InvalidSignature)));
}

#[test]
fn signing_keys_reject_zero_order_and_wrong_length() {
    assert!(matches!(SigningKey::from_bytes([0u8; 32]), Err(Error::InvalidInput(_))));
    assert!(matches!(SigningKey::from_bytes([0xff; 32]), Err(Error::InvalidInput(_))));
    assert!(matches!(SigningKey::from_slice(&[1u8; 31]), Err(Error::InvalidInput(_))));
    let key = SigningKey::from_slice(&[1u8; 32]).unwrap();
    assert_eq!(key.to_bytes(), [1u8; 32]);
    assert_eq!(*key.clone().verifying_key(), *key.verifying_key());
}

#[test]
fn public_key_encodings_parse_to_the_same_key() {
    let key = SigningKey::from_slice(&[7u8; 32]).unwrap();
    let uncompressed = key.verifying_key().to_encoded_point(false);
    let compressed = key.verifying_key().to_encoded_point(true);
    assert_eq!(uncompressed.as_bytes().len(), 65);
    assert_eq!(compressed.as_bytes().len(), 33);
    let a = VerifyingKey::from_sec1_bytes(uncompressed.as_bytes()).unwrap();
    let b = VerifyingKey::from_sec1_bytes(compressed.as_bytes()).unwrap();
    assert_eq!(a, b);
    assert!(matches!(VerifyingKey::from_sec1_bytes(&[4u8; 64]), Err(Error::InvalidInput(_))));
}

#[test]
fn der_verification_rejects_malformed_der() {
    let key = SigningKey::from_slice(&[5u8; 32]).unwrap();
    let digest = Sha256::digest(b"der");
    let signature = key.sign_prehash(&digest).unwrap();
    let der = signature.to_der();
    assert!(key.verifying_key().verify_prehashed_der(&digest, der.as_bytes()).is_ok());
    let truncated = &der.as_bytes()[..der.as_bytes().len() - 1];
    assert!(matches!(
        key.verifying_key().verify_prehashed_der(&digest, truncated),
        Err(Error::InvalidInput(_))
    ));
}

#[test]
fn signing_key_bytes_round_trip_and_wipe() {
    let key = SigningKey::from_slice(&[11u8; 32]).unwrap();
    let again = SigningKey::from_bytes(key.to_bytes()).unwrap();
    assert_eq!(again.to_bytes(), key.to_bytes());
    assert_eq!(*again.verifying_key(), *key.verifying_key());
    again.wipe();
    let encoded = key.verifying_key().to_encoded_point(false);
    assert_eq!(VerifyingKey::from_sec1_bytes(encoded.as_bytes()).unwrap(), *key.verifying_key());
}

#[test]
fn encodings_compare_by_value() {
    let key = SigningKey::from_slice(&[5u8; 32]).unwrap();
    let verifying_key = key.verifying_key();
    assert_eq!(verifying_key.to_encoded_point(false), verifying_key.to_encoded_point(false));
    assert_eq!(verifying_key.to_encoded_point(true), verifying_key.to_encoded_point(true));
    assert_ne!(verifying_key.to_encoded_point(true), verifying_key.to_encoded_point(false));
    let signature = key.sign(b"compare").unwrap();
    assert_eq!(signature.to_der(), signature.to_der());
    assert_ne!(signature.to_der(), key.sign(b"compare again").unwrap().to_der());
}
