use p256::{
    elliptic_curve::{bigint::U256, ff::PrimeField, ops::Reduce},
    Scalar as P256Scalar,
};
use secp256r1::scalar::Scalar;

const A: [u8; 32] = [
    0x12, 0x34, 0x56, 0x78, 0x90, 0xab, 0xcd, 0xef, 0x11, 0x22, 0x33, 0x44, 0x55, 0x66, 0x77,
    0x88, 0x12, 0x34, 0x56, 0x78, 0x90, 0xab, 0xcd, 0xef, 0x11, 0x22, 0x33, 0x44, 0x55, 0x66,
    0x77, 0x88,
];
const B: [u8; 32] = [
    0x0f, 0xed, 0xcb, 0xa9, 0x87, 0x65, 0x43, 0x21, 0xff, 0xee, 0xdd, 0xcc, 0xbb, 0xaa, 0x99,
    0x88, 0x77, 0x66, 0x55, 0x44, 0x33, 0x22, 0x11, 0x00, 0x80, 0x70, 0x60, 0x50, 0x40, 0x30,
    0x20, 0x10,
];
const N: [u8; 32] = [
    0xff, 0xff, 0xff, 0xff, 0x00, 0x00, 0x00, 0x00, 0xff, 0xff, 0xff, 0xff, 0xff, 0xff, 0xff,
    0xff, 0xbc, 0xe6, 0xfa, 0xad, 0xa7, 0x17, 0x9e, 0x84, 0xf3, 0xb9, 0xca, 0xc2, 0xfc, 0x63,
    0x25, 0x51,
];

fn p256_scalar(bytes: [u8; 32]) -> P256Scalar {
    Option::from(P256Scalar::from_repr(bytes.into())).unwrap()
}

fn assert_matches_p256(rust: Scalar, p256: P256Scalar) {
    let p256_bytes: [u8; 32] = p256.to_repr().into();
    assert_eq!(rust.to_be_bytes(), p256_bytes);
}

fn sample(mut seed: u64) -> [u8; 32] {
    let mut bytes = [0u8; 32];

    for chunk in bytes.chunks_exact_mut(8) {
        seed ^= seed << 13;
        seed ^= seed >> 7;
        seed ^= seed << 17;
        chunk.copy_from_slice(&seed.to_be_bytes());
    }

    bytes[0] &= 0x7f;
    bytes
}

#[test]
fn rejects_non_canonical_order() {
    assert!(Scalar::from_be_bytes(N).is_none());
}

#[test]
fn round_trips() {
    for bytes in [[0u8; 32], A, B] {
        assert_eq!(Scalar::from_be_bytes(bytes).unwrap().to_be_bytes(), bytes);
    }
}

#[test]
fn arithmetic_matches_p256() {
    let a = Scalar::from_be_bytes(A).unwrap();
    let b = Scalar::from_be_bytes(B).unwrap();
    let p256_a = p256_scalar(A);
    let p256_b = p256_scalar(B);

    assert_matches_p256(a + b, p256_a + p256_b);
    assert_matches_p256(a - b, p256_a - p256_b);
    assert_matches_p256(a * b, p256_a * p256_b);
    assert_matches_p256(a.square(), p256_a.square());
    assert_matches_p256(a.invert().unwrap(), Option::from(p256_a.invert()).unwrap());
}

#[test]
fn reduced_bytes_match_p256() {
    let rust = Scalar::from_be_bytes_reduced(N);
    let p256 = P256Scalar::reduce(U256::from_be_slice(&N));
    assert_matches_p256(rust, p256);
}

#[test]
fn scalar_arithmetic_matches_p256_for_many_samples() {
    for i in 1..128 {
        let a = sample(i);
        let b = sample(i ^ 0xa5a5_a5a5_a5a5_a5a5);
        let rust_a = Scalar::from_be_bytes(a).unwrap();
        let rust_b = Scalar::from_be_bytes(b).unwrap();
        let p256_a = p256_scalar(a);
        let p256_b = p256_scalar(b);

        assert_matches_p256(rust_a + rust_b, p256_a + p256_b);
        assert_matches_p256(rust_a - rust_b, p256_a - p256_b);
        assert_matches_p256(rust_a * rust_b, p256_a * p256_b);
        assert_matches_p256(rust_a.square(), p256_a.square());
        assert_matches_p256(rust_a.invert().unwrap(), Option::from(p256_a.invert()).unwrap());
    }
}

#[test]
fn scalar_reduction_of_order_plus_one_is_one() {
    let mut bytes = N;
    bytes[31] += 1;
    let mut one = [0u8; 32];
    one[31] = 1;
    assert_eq!(Scalar::from_be_bytes_reduced(bytes).to_be_bytes(), one);
    assert!(Scalar::from_be_bytes_reduced(N).is_zero());
}

#[test]
fn scalar_zero_has_no_inverse_and_zeroize_clears() {
    assert!(Scalar::zero().invert().is_none());
    let mut a = Scalar::from_be_bytes(A).unwrap();
    a.zeroize();
    assert!(a.is_zero());
}
