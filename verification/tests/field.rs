use p256::{elliptic_curve::ff::PrimeField, FieldElement as P256FieldElement};
use secp256r1::field::FieldElement;

const A: [u8; 32] = [
    0x12, 0x34, 0x56, 0x78, 0x90, 0xab, 0xcd, 0xef, 0x11, 0x22, 0x33, 0x44, 0x55, 0x66, 0x77,
    0x88, 0x99, 0xaa, 0xbb, 0xcc, 0xdd, 0xee, 0xff, 0x00, 0x10, 0x20, 0x30, 0x40, 0x50, 0x60,
    0x70, 0x80,
];
const B: [u8; 32] = [
    0x0f, 0xed, 0xcb, 0xa9, 0x87, 0x65, 0x43, 0x21, 0xff, 0xee, 0xdd, 0xcc, 0xbb, 0xaa, 0x99,
    0x88, 0x77, 0x66, 0x55, 0x44, 0x33, 0x22, 0x11, 0x00, 0x80, 0x70, 0x60, 0x50, 0x40, 0x30,
    0x20, 0x10,
];
const P_MINUS_ONE: [u8; 32] = [
    0xff, 0xff, 0xff, 0xff, 0x00, 0x00, 0x00, 0x01, 0x00, 0x00, 0x00, 0x00, 0x00, 0x00, 0x00,
    0x00, 0x00, 0x00, 0x00, 0x00, 0xff, 0xff, 0xff, 0xff, 0xff, 0xff, 0xff, 0xff, 0xff, 0xff,
    0xff, 0xfe,
];
const P: [u8; 32] = [
    0xff, 0xff, 0xff, 0xff, 0x00, 0x00, 0x00, 0x01, 0x00, 0x00, 0x00, 0x00, 0x00, 0x00, 0x00,
    0x00, 0x00, 0x00, 0x00, 0x00, 0xff, 0xff, 0xff, 0xff, 0xff, 0xff, 0xff, 0xff, 0xff, 0xff,
    0xff, 0xff,
];

fn p256_field(bytes: [u8; 32]) -> P256FieldElement {
    Option::from(P256FieldElement::from_repr(bytes.into())).unwrap()
}

fn assert_matches_p256(rust: FieldElement, p256: P256FieldElement, operation: &'static str) {
    let p256_bytes: [u8; 32] = p256.to_repr().into();
    assert_eq!(rust.to_be_bytes(), p256_bytes, "{operation}");
}

fn sample(mut seed: u64) -> [u8; 32] {
    let mut bytes = [0u8; 32];

    for chunk in bytes.chunks_exact_mut(8) {
        seed ^= seed << 13;
        seed ^= seed >> 7;
        seed ^= seed << 17;
        chunk.copy_from_slice(&seed.to_be_bytes());
    }

    bytes[0] &= 0x7f;
    bytes
}

#[test]
fn rejects_non_canonical_values() {
    assert!(FieldElement::from_be_bytes(P).is_none());
}

#[test]
fn round_trips_canonical_values() {
    for bytes in [[0u8; 32], A, B, P_MINUS_ONE] {
        let element = FieldElement::from_be_bytes(bytes).unwrap();
        assert_eq!(element.to_be_bytes(), bytes);
    }
}

#[test]
fn field_add_matches_p256() {
    assert_matches_p256(
        FieldElement::from_be_bytes(A).unwrap() + FieldElement::from_be_bytes(B).unwrap(),
        p256_field(A) + p256_field(B),
        "add",
    );
}

#[test]
fn sub_matches_p256() {
    assert_matches_p256(
        FieldElement::from_be_bytes(A).unwrap() - FieldElement::from_be_bytes(B).unwrap(),
        p256_field(A) - p256_field(B),
        "sub",
    );
}

#[test]
fn mul_matches_p256() {
    assert_matches_p256(
        FieldElement::from_be_bytes(A).unwrap() * FieldElement::from_be_bytes(B).unwrap(),
        p256_field(A) * p256_field(B),
        "mul",
    );
}

#[test]
fn square_matches_p256() {
    assert_matches_p256(
        FieldElement::from_be_bytes(A).unwrap().square(),
        p256_field(A).square(),
        "square",
    );
}

#[test]
fn edge_values_match_p256() {
    let rust = FieldElement::from_be_bytes(P_MINUS_ONE).unwrap();
    let p256 = p256_field(P_MINUS_ONE);
    let mut one_bytes = [0u8; 32];
    one_bytes[31] = 1;
    let rust_one = FieldElement::one();
    let p256_one = p256_field(one_bytes);

    assert_matches_p256(rust + rust, p256 + p256, "p_minus_one add");
    assert_matches_p256(rust - rust_one, p256 - p256_one, "p_minus_one sub");
    assert_matches_p256(rust * rust, p256 * p256, "p_minus_one mul");
    assert_matches_p256(rust.square(), p256.square(), "p_minus_one square");
}

#[test]
fn field_arithmetic_matches_p256_for_many_samples() {
    for i in 0..256 {
        let a = sample(i);
        let b = sample(i ^ 0xa5a5_a5a5_a5a5_a5a5);
        let rust_a = FieldElement::from_be_bytes(a).unwrap();
        let rust_b = FieldElement::from_be_bytes(b).unwrap();
        let p256_a = p256_field(a);
        let p256_b = p256_field(b);

        assert_matches_p256(rust_a + rust_b, p256_a + p256_b, "add");
        assert_matches_p256(rust_a - rust_b, p256_a - p256_b, "sub");
        assert_matches_p256(rust_a * rust_b, p256_a * p256_b, "mul");
        assert_matches_p256(rust_a.square(), p256_a.square(), "square");
    }
}

#[test]
fn field_invert_matches_p256() {
    let rust = FieldElement::from_be_bytes(A).unwrap().invert().unwrap();
    let p256 = Option::from(p256_field(A).invert()).unwrap();
    assert_matches_p256(rust, p256, "invert");
    assert!(FieldElement::from_be_bytes([0u8; 32]).unwrap().invert().is_none());
}

#[test]
fn field_from_u64_and_zero() {
    let mut bytes = [0u8; 32];
    bytes[31] = 5;
    assert_eq!(FieldElement::from_u64(5).to_be_bytes(), bytes);
    assert!(FieldElement::zero().is_zero());
    assert!(!FieldElement::one().is_zero());
    assert_eq!(-FieldElement::one(), FieldElement::from_be_bytes(P_MINUS_ONE).unwrap());
}
