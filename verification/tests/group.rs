use p256::{
    elliptic_curve::{ff::PrimeField, group::Group, sec1::ToEncodedPoint},
    ProjectivePoint as P256ProjectivePoint, Scalar,
};
use secp256r1::field::FieldElement;
use secp256r1::group::{AffinePoint, ProjectivePoint};

const SCALAR: [u8; 32] = [
    0x12, 0x34, 0x56, 0x78, 0x90, 0xab, 0xcd, 0xef, 0x11, 0x22, 0x33, 0x44, 0x55, 0x66, 0x77,
    0x88, 0x12, 0x34, 0x56, 0x78, 0x90, 0xab, 0xcd, 0xef, 0x11, 0x22, 0x33, 0x44, 0x55, 0x66,
    0x77, 0x88,
];

fn assert_matches_p256(rust: ProjectivePoint, p256: P256ProjectivePoint) {
    let rust_bytes = rust.to_sec1_uncompressed().unwrap();
    let p256_bytes = p256.to_affine().to_encoded_point(false);
    assert_eq!(rust_bytes.as_slice(), p256_bytes.as_bytes());
}

#[test]
fn generator_matches_p256() {
    assert_matches_p256(ProjectivePoint::generator(), P256ProjectivePoint::generator());
}

#[test]
fn parses_and_serializes_generator() {
    let bytes = ProjectivePoint::generator().to_sec1_uncompressed().unwrap();
    assert_eq!(AffinePoint::from_sec1_uncompressed(bytes).unwrap(), AffinePoint::generator());
}

#[test]
fn double_matches_p256() {
    let p256 = P256ProjectivePoint::generator().double();
    assert_matches_p256(ProjectivePoint::generator().double(), p256);
}

#[test]
fn group_add_matches_p256() {
    let rust_g = ProjectivePoint::generator();
    let rust_2g = rust_g.double();
    let p256_g = P256ProjectivePoint::generator();
    let p256_2g = p256_g.double();

    assert_matches_p256(rust_2g + rust_g, p256_2g + p256_g);
}

#[test]
fn mixed_add_matches_p256() {
    let rust_g = ProjectivePoint::generator();
    let rust_2g = rust_g.double();
    let p256_g = P256ProjectivePoint::generator();
    let p256_2g = p256_g.double();

    assert_matches_p256(rust_2g.add_mixed(AffinePoint::generator()), p256_2g + p256_g);
}

#[test]
fn scalar_mul_matches_p256() {
    let scalar = Option::<Scalar>::from(Scalar::from_repr(SCALAR.into())).unwrap();
    assert_matches_p256(
        ProjectivePoint::generator().mul_scalar_vartime(SCALAR),
        P256ProjectivePoint::generator() * scalar,
    );
    assert_matches_p256(
        ProjectivePoint::generator().mul_scalar_wnaf5_vartime(SCALAR),
        P256ProjectivePoint::generator() * scalar,
    );
    assert_matches_p256(
        ProjectivePoint::generator().mul_scalar_wnaf6_vartime(SCALAR),
        P256ProjectivePoint::generator() * scalar,
    );
    assert_matches_p256(
        ProjectivePoint::mul_affine_scalar_vartime(AffinePoint::generator(), SCALAR),
        P256ProjectivePoint::generator() * scalar,
    );
}

#[test]
fn base_scalar_mul_matches_p256() {
    let scalar = Option::<Scalar>::from(Scalar::from_repr(SCALAR.into())).unwrap();
    assert_matches_p256(
        ProjectivePoint::mul_generator_vartime(SCALAR),
        P256ProjectivePoint::generator() * scalar,
    );
}

#[test]
fn shamir_double_scalar_mul_matches_p256() {
    let scalar = Option::<Scalar>::from(Scalar::from_repr(SCALAR.into())).unwrap();
    let point = ProjectivePoint::generator().double().to_affine();
    let p256_point = P256ProjectivePoint::generator().double();

    assert_matches_p256(
        ProjectivePoint::double_scalar_mul_shamir_vartime(SCALAR, point, SCALAR),
        (P256ProjectivePoint::generator() * scalar) + (p256_point * scalar),
    );
}

#[test]
fn shamir_window8_double_scalar_mul_matches_p256() {
    let scalar = Option::<Scalar>::from(Scalar::from_repr(SCALAR.into())).unwrap();
    let point = ProjectivePoint::generator().double().to_affine();
    let p256_point = P256ProjectivePoint::generator().double();

    assert_matches_p256(
        ProjectivePoint::double_scalar_mul_shamir_window8_vartime(SCALAR, point, SCALAR),
        (P256ProjectivePoint::generator() * scalar) + (p256_point * scalar),
    );
}

#[test]
fn identity_and_negation() {
    let g = ProjectivePoint::generator();
    assert!(ProjectivePoint::identity().is_identity());
    assert!((g - g).is_identity());
    assert!((g + (-g)).is_identity());
    assert!(ProjectivePoint::identity().to_sec1_uncompressed().is_none());
    assert!(AffinePoint::identity().is_identity());
    assert!(AffinePoint::identity().x().is_none());
    assert_eq!((g + ProjectivePoint::identity()), g);
    let zero = [0u8; 32];
    assert!(g.mul_scalar_vartime(zero).is_identity());
    assert!(g.mul_scalar_wnaf6_vartime(zero).is_identity());
}

#[test]
fn compressed_generator_round_trips() {
    let bytes = AffinePoint::generator().to_sec1_uncompressed().unwrap();
    let mut compressed = [0u8; 33];
    compressed[0] = 0x02 | (bytes[64] & 1);
    compressed[1..].copy_from_slice(&bytes[1..33]);
    assert_eq!(AffinePoint::from_sec1_compressed(compressed).unwrap(), AffinePoint::generator());
    compressed[0] ^= 1;
    let other = AffinePoint::from_sec1_compressed(compressed).unwrap();
    assert_eq!(other, -AffinePoint::generator());
}

#[test]
fn rejects_point_off_curve() {
    let mut bytes = AffinePoint::generator().to_sec1_uncompressed().unwrap();
    bytes[64] ^= 1;
    assert!(AffinePoint::from_sec1_uncompressed(bytes).is_none());
    let mut tagged = AffinePoint::generator().to_sec1_uncompressed().unwrap();
    tagged[0] = 0x05;
    assert!(AffinePoint::from_sec1_uncompressed(tagged).is_none());
}

#[test]
fn affine_x_test_matches_normalised_point() {
    let g2 = ProjectivePoint::generator().double();
    let affine = g2.to_affine();
    assert!(g2.has_affine_x(affine.x().unwrap()));
    assert!(!g2.has_affine_x(affine.y().unwrap()));
    assert_eq!(ProjectivePoint::from_affine(affine).to_affine(), affine);
}

#[test]
fn negation_twice_is_identity_map() {
    let g = ProjectivePoint::generator().double();
    assert_eq!(-(-g), g);
    let a = AffinePoint::generator();
    assert_eq!(-(-a), a);
    assert_eq!(ProjectivePoint::from_affine(a).to_affine(), a);
}

fn affine_coords(p: ProjectivePoint) -> (FieldElement, FieldElement) {
    let a = p.to_affine();
    (a.x().unwrap(), a.y().unwrap())
}

#[test]
fn doubling_is_tangent_doubling() {
    let (x, y) = affine_coords(ProjectivePoint::generator());
    let three = FieldElement::from_u64(3);
    let two = FieldElement::from_u64(2);
    let l = (three * x.square() - three) * (two * y).invert().unwrap();
    let x3 = l.square() - two * x;
    let y3 = l * (x - x3) - y;
    assert_eq!(affine_coords(ProjectivePoint::generator().double()), (x3, y3));
}

#[test]
fn addition_is_chord_addition() {
    let g = ProjectivePoint::generator();
    let g2 = g.double();
    let (x1, y1) = affine_coords(g2);
    let (x2, y2) = affine_coords(g);
    let l = (y2 - y1) * (x2 - x1).invert().unwrap();
    let x3 = l.square() - x1 - x2;
    let y3 = l * (x1 - x3) - y1;
    assert_eq!(affine_coords(g2 + g), (x3, y3));
    assert_eq!(affine_coords(g2.add_mixed(AffinePoint::generator())), (x3, y3));
}
