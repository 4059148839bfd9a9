//! P-256 elliptic curve group operations.
//!
//! Points are represented in two forms:
//!
//! - [`AffinePoint`] — standard `(x, y)` coordinates, used for storage and
//!   table entries. Includes an `infinity` flag for the identity element.
//! - [`ProjectivePoint`] — Jacobian `(X : Y : Z)` coordinates, used during
//!   multi-step scalar multiplication to avoid per-step field inversions.
//!
//! The contracts state every operation over the field values of the
//! coordinates, with the Jacobian formulas for `a = -3` that the code uses.
#![allow(unused_imports)]

use core::ops::{Add, Neg, Sub};
use vstd::prelude::*;
use vstd::std_specs::cmp::PartialEqSpecImpl;
use vstd::std_specs::ops::{AddSpecImpl, NegSpecImpl, SubSpecImpl};

use crate::field::{
    field_add, field_element, field_mul, field_neg, field_pow, field_prime, field_sub, FieldElement,
};
mod curve;
mod tables;
mod wnaf;

pub use curve::{
    affine_add_with, affine_double_with, chord_slope, cong, lemma_add_mixed_represents,
    jacobian_reduced, lemma_double_on_curve, lemma_mixed_multiple_agrees, lemma_ops_reduced, lemma_window4_points_are_multiples,
    lemma_add_identity, lemma_add_mixed_agrees, lemma_add_represents, lemma_affine_add_commutes,
    lemma_double_represents, represents, tangent_slope,
};

pub use tables::{
    batch_normalized, generator_affine, generator_jacobian, inverse_suffix, jacobian_views,
    mixed_multiple, row_base, shamir4_horner, shamir4_step, shamir8_horner, shamir8_step,
    window4_entry, window4_mixed_horner, window4_mixed_step, window4_points, window8_entry,
    window8_points, window8_sum, z_prefix,
};
pub use wnaf::{
    lemma_wnaf_digit, lemma_wnaf_digits_bounded, lemma_wnaf_length, lemma_wnaf_rest, lemma_wnaf_sparse,
    lemma_wnaf_top_positive, lemma_wnaf_used,
    lemma_wnaf_value, limbs5_nat, odd_multiple, wnaf, wnaf_add_digit, wnaf_digit, wnaf_horner,
    wnaf_next, wnaf_rest, wnaf_used, wnaf_value,
};

use crate::limbs::{be_bytes, be_nat, copy_bytes32, lemma_be_bytes, lemma_be_nat_injective, lemma_be_parity};

verus! {

/// The curve coefficient `b` of `y^2 = x^3 - 3x + b`.
pub open spec fn curve_b() -> nat {
    0x5ac6_35d8_aa3a_93e7_b3eb_bd55_7698_86bc_651d_06b0_cc53_b0f6_3bce_3c3e_27d2_604bnat
}

/// The x-coordinate of the standard generator.
pub open spec fn generator_x() -> nat {
    0x6b17_d1f2_e12c_4247_f8bc_e6e5_63a4_40f2_7703_7d81_2deb_33a0_f4a1_3945_d898_c296nat
}

/// The y-coordinate of the standard generator.
pub open spec fn generator_y() -> nat {
    0x4fe3_42e2_fe1a_7f9b_8ee7_eb4a_7c0f_9e16_2bce_3357_6b31_5ece_cbb6_4068_37bf_51f5nat
}

/// `2a` in GF(p).
pub open spec fn fdouble(a: nat) -> nat {
    field_add(a, a)
}

/// `3a` in GF(p), as `a + a + a`.
pub open spec fn ftriple(a: nat) -> nat {
    field_add(field_add(a, a), a)
}

/// The right side of the curve equation, `x^3 - 3x + b`.
pub open spec fn curve_rhs(x: nat) -> nat {
    field_add(field_sub(field_mul(field_mul(x, x), x), ftriple(x)), curve_b())
}

/// `(x, y)` satisfies `y^2 = x^3 - 3x + b` in GF(p).
pub open spec fn on_curve(x: nat, y: nat) -> bool {
    field_mul(y, y) == curve_rhs(x)
}

/// The Jacobian identity `(0 : 1 : 0)`.
pub open spec fn jacobian_identity() -> (nat, nat, nat) {
    (0, 1, 0)
}

/// The affine identity as stored: `(0, 0, infinity)`.
pub open spec fn affine_identity() -> (nat, nat, bool) {
    (0, 0, true)
}

/// An affine point lifted to Jacobian coordinates with `Z = 1`.
pub open spec fn affine_to_jacobian(a: (nat, nat, bool)) -> (nat, nat, nat) {
    if a.2 {
        jacobian_identity()
    } else {
        (a.0, a.1, 1)
    }
}

/// Negation `(X : -Y : Z)`.
pub open spec fn jacobian_neg(p: (nat, nat, nat)) -> (nat, nat, nat) {
    (p.0, field_neg(p.1), p.2)
}

/// Jacobian doubling for `a = -3`; points with `Z = 0` or `Y = 0` double to the identity.
pub open spec fn jacobian_double(p: (nat, nat, nat)) -> (nat, nat, nat) {
    let (x, y, z) = p;
    if z == 0 || y == 0 {
        jacobian_identity()
    } else {
        let xx = field_mul(x, x);
        let yy = field_mul(y, y);
        let yyyy = field_mul(yy, yy);
        let zz = field_mul(z, z);
        let s = fdouble(field_sub(field_sub(field_mul(field_add(x, yy), field_add(x, yy)), xx), yyyy));
        let m = ftriple(field_sub(xx, field_mul(zz, zz)));
        let x3 = field_sub(field_mul(m, m), fdouble(s));
        let y3 = field_sub(field_mul(m, field_sub(s, x3)), fdouble(fdouble(fdouble(yyyy))));
        let z3 = field_sub(field_sub(field_mul(field_add(y, z), field_add(y, z)), yy), zz);
        (x3, y3, z3)
    }
}

/// Mixed Jacobian-affine addition; equal inputs are doubled and opposite ones give the identity.
pub open spec fn jacobian_add_mixed(p: (nat, nat, nat), a: (nat, nat, bool)) -> (nat, nat, nat) {
    let (x1, y1, z1) = p;
    if a.2 {
        p
    } else if z1 == 0 {
        affine_to_jacobian(a)
    } else {
        let z1z1 = field_mul(z1, z1);
        let u2 = field_mul(a.0, z1z1);
        let s2 = field_mul(field_mul(a.1, z1), z1z1);
        let h = field_sub(u2, x1);
        let r = fdouble(field_sub(s2, y1));
        if h == 0 {
            if r == 0 {
                jacobian_double(p)
            } else {
                jacobian_identity()
            }
        } else {
            let hh = field_mul(h, h);
            let i = fdouble(fdouble(hh));
            let j = field_mul(h, i);
            let v = field_mul(x1, i);
            let x3 = field_sub(field_sub(field_mul(r, r), j), fdouble(v));
            let y3 = field_sub(field_mul(r, field_sub(v, x3)), fdouble(field_mul(y1, j)));
            let z3 = field_sub(field_sub(field_mul(field_add(z1, h), field_add(z1, h)), z1z1), hh);
            (x3, y3, z3)
        }
    }
}

/// General Jacobian addition; equal inputs are doubled and opposite ones give the identity.
pub open spec fn jacobian_add(p: (nat, nat, nat), q: (nat, nat, nat)) -> (nat, nat, nat) {
    let (x1, y1, z1) = p;
    let (x2, y2, z2) = q;
    if z1 == 0 {
        q
    } else if z2 == 0 {
        p
    } else {
        let z1z1 = field_mul(z1, z1);
        let z2z2 = field_mul(z2, z2);
        let u1 = field_mul(x1, z2z2);
        let u2 = field_mul(x2, z1z1);
        let s1 = field_mul(field_mul(y1, z2), z2z2);
        let s2 = field_mul(field_mul(y2, z1), z1z1);
        if u1 == u2 {
            if s1 == s2 {
                jacobian_double(p)
            } else {
                jacobian_identity()
            }
        } else {
            let h = field_sub(u2, u1);
            let i = field_mul(fdouble(h), fdouble(h));
            let j = field_mul(h, i);
            let r = fdouble(field_sub(s2, s1));
            let v = field_mul(u1, i);
            let x3 = field_sub(field_sub(field_mul(r, r), j), fdouble(v));
            let y3 = field_sub(field_mul(r, field_sub(v, x3)), fdouble(field_mul(s1, j)));
            let z3 = field_mul(
                field_sub(field_sub(field_mul(field_add(z1, z2), field_add(z1, z2)), z1z1), z2z2),
                h,
            );
            (x3, y3, z3)
        }
    }
}

/// Normalisation `(X / Z^2, Y / Z^3)` with the inverse `Z^(p-2)`; `Z = 0` gives the identity.
pub open spec fn jacobian_to_affine(p: (nat, nat, nat)) -> (nat, nat, bool) {
    if p.2 == 0 {
        affine_identity()
    } else {
        let zi = field_pow(p.2, (field_prime() - 2) as nat);
        let zi2 = field_mul(zi, zi);
        (field_mul(p.0, zi2), field_mul(field_mul(p.1, zi2), zi), false)
    }
}

/// The uncompressed SEC1 encoding `0x04 || x || y`.
pub open spec fn sec1_uncompressed(x: nat, y: nat) -> Seq<u8> {
    seq![4u8] + be_bytes(x, 32) + be_bytes(y, 32)
}

/// The square-root candidate `v^((p+1)/4)`.
pub open spec fn sqrt_candidate(v: nat) -> nat {
    field_pow(v, ((field_prime() + 1) / 4) as nat)
}

/// The y-coordinate recovered from `x` and a parity: the square-root candidate of
/// `x^3 - 3x + b` or its negation, whichever has the parity; `None` when the
/// candidate does not square back or no choice has the parity.
pub open spec fn decompress_y(x: nat, odd: bool) -> Option<nat> {
    let c = sqrt_candidate(curve_rhs(x));
    if field_mul(c, c) != curve_rhs(x) {
        None
    } else {
        let y = if (c % 2 == 1) == odd { c } else { field_neg(c) };
        if (y % 2 == 1) == odd {
            Some(y)
        } else {
            None
        }
    }
}

/// A recovered `y` is reduced and completes a point on the curve.
pub proof fn lemma_decompress_on_curve(x: nat, odd: bool)
    requires
        decompress_y(x, odd) is Some,
    ensures
        decompress_y(x, odd)->0 < field_prime(),
        on_curve(x, decompress_y(x, odd)->0),
{
    let c = sqrt_candidate(curve_rhs(x));
    let m = field_prime() as int;
    assert(c < field_prime());
    let y = decompress_y(x, odd)->0;
    if y != c {
        assert(y == field_neg(c));
        if c == 0 {
            assert(y == 0);
        } else {
            vstd::arithmetic::div_mod::lemma_fundamental_div_mod_converse(0 - c, m, -1, m - c);
            assert(y == m - c);
            let ci = c as int;
            assert((m - ci) * (m - ci) == m * (m - 2 * ci) + ci * ci) by (nonlinear_arith);
            vstd::arithmetic::div_mod::lemma_mod_multiples_vanish(m - 2 * ci, ci * ci, m);
        }
    }
}

fn curve_b_element() -> (r: FieldElement)
    ensures
        r@ == curve_b(),
{
    FieldElement::from_montgomery_limbs(
        [0xd89c_df62_29c4_bddf, 0xacf0_05cd_7884_3090, 0xe5a2_20ab_f721_2ed6, 0xdc30_061d_0487_4834],
    )
}

fn generator_x_element() -> (r: FieldElement)
    ensures
        r@ == generator_x(),
{
    FieldElement::from_montgomery_limbs(
        [0x79e7_30d4_18a9_143c, 0x75ba_95fc_5fed_b601, 0x79fb_732b_7762_2510, 0x1890_5f76_a537_55c6],
    )
}

fn generator_y_element() -> (r: FieldElement)
    ensures
        r@ == generator_y(),
{
    FieldElement::from_montgomery_limbs(
        [0xddf2_5357_ce95_560a, 0x8b4a_b8e4_ba19_e45c, 0xd2e8_8688_dd21_f325, 0x8571_ff18_2588_5d85],
    )
}

/// `x + x`
fn double(x: FieldElement) -> (r: FieldElement)
    ensures
        r@ == fdouble(x@),
{
    x + x
}

/// `x + x + x`
fn triple(x: FieldElement) -> (r: FieldElement)
    ensures
        r@ == ftriple(x@),
{
    x + x + x
}

/// A point in affine coordinates, or the identity.
#[derive(Clone, Copy, Debug)]
pub struct AffinePoint {
    x: FieldElement,
    y: FieldElement,
    infinity: bool,
}

impl View for AffinePoint {
    type V = (nat, nat, bool);

    closed spec fn view(&self) -> (nat, nat, bool) {
        (self.x@, self.y@, self.infinity)
    }
}

/// A point in Jacobian coordinates `(X : Y : Z)`, standing for `(X / Z^2, Y / Z^3)`.
#[derive(Clone, Copy, Debug)]
pub struct ProjectivePoint {
    x: FieldElement,
    y: FieldElement,
    z: FieldElement,
}

impl View for ProjectivePoint {
    type V = (nat, nat, nat);

    closed spec fn view(&self) -> (nat, nat, nat) {
        (self.x@, self.y@, self.z@)
    }
}

/// The affine point whose view is `v`.
pub closed spec fn affine_point(v: (nat, nat, bool)) -> AffinePoint {
    AffinePoint { x: field_element(v.0), y: field_element(v.1), infinity: v.2 }
}

/// The Jacobian point whose view is `v`.
pub closed spec fn projective_point(v: (nat, nat, nat)) -> ProjectivePoint {
    ProjectivePoint { x: field_element(v.0), y: field_element(v.1), z: field_element(v.2) }
}

impl AffinePoint {
    /// The identity is stored as `(0, 0)`.
    #[verifier::type_invariant]
    pub closed spec fn identity_normal(self) -> bool {
        self.infinity ==> self.x@ == 0 && self.y@ == 0
    }

    /// The coordinates are reduced field elements.
    pub closed spec fn wf(self) -> bool {
        self.x.wf() && self.y.wf()
    }

    /// Both coordinates are reduced.
    pub proof fn lemma_view_bound(self)
        ensures
            self@.0 < field_prime(),
            self@.1 < field_prime(),
    {
        self.x.lemma_value_bound();
        self.y.lemma_value_bound();
    }

    /// A well-formed point is the one that `affine_point` names for its view.
    pub proof fn lemma_canonical(self)
        requires
            self.wf(),
        ensures
            self == affine_point(self@),
    {
        self.x.lemma_canonical();
        self.y.lemma_canonical();
    }

    /// The identity.
    pub fn identity() -> (r: Self)
        ensures
            r@ == affine_identity(),
            r.wf(),
    {
        let r = Self { x: FieldElement::zero(), y: FieldElement::zero(), infinity: true };
        proof {
            use_type_invariant(&r.x);
            use_type_invariant(&r.y);
        }
        r
    }

    /// The standard generator.
    pub fn generator() -> (r: Self)
        ensures
            r@ == (generator_x(), generator_y(), false),
            r.wf(),
    {
        let r = Self { x: generator_x_element(), y: generator_y_element(), infinity: false };
        proof {
            use_type_invariant(&r.x);
            use_type_invariant(&r.y);
        }
        r
    }

    /// The finite point `(x, y)` when it lies on the curve.
    pub fn new(x: FieldElement, y: FieldElement) -> (r: Option<Self>)
        ensures
            r is Some <==> on_curve(x@, y@),
            r matches Some(pt) ==> pt@ == (x@, y@, false) && pt.wf(),
    {
        proof {
            use_type_invariant(&x);
            use_type_invariant(&y);
        }
        let point = Self { x, y, infinity: false };

        if point.is_on_curve() {
            Some(point)
        } else {
            None
        }
    }

    /// Whether the point is the identity or satisfies the curve equation.
    pub(crate) fn is_on_curve(self) -> (r: bool)
        ensures
            r == (self@.2 || on_curve(self@.0, self@.1)),
    {
        if self.infinity {
            return true;
        }
        let y2 = self.y.square();
        let x2 = self.x.square();
        let x3 = x2 * self.x;
        let three_x = triple(self.x);
        y2 == x3 - three_x + curve_b_element()
    }

    /// Lifts to Jacobian coordinates; normalising the result gives this point back.
    pub fn to_projective(self) -> (r: ProjectivePoint)
        ensures
            r@ == affine_to_jacobian(self@),
            jacobian_to_affine(r@) == self@,
    {
        proof {
            use_type_invariant(&self);
            self.x.lemma_value_bound();
            self.y.lemma_value_bound();
            crate::laws::lemma_affine_round_trip(self@);
        }
        if self.infinity {
            ProjectivePoint::identity()
        } else {
            ProjectivePoint { x: self.x, y: self.y, z: FieldElement::one() }
        }
    }

    /// Whether this is the identity.
    pub fn is_identity(self) -> (r: bool)
        ensures
            r == self@.2,
    {
        self.infinity
    }

    /// The x-coordinate of a finite point.
    pub fn x(self) -> (r: Option<FieldElement>)
        ensures
            r is None <==> self@.2,
            r matches Some(x) ==> x@ == self@.0,
    {
        if !self.infinity {
            Some(self.x)
        } else {
            None
        }
    }

    /// The y-coordinate of a finite point.
    pub fn y(self) -> (r: Option<FieldElement>)
        ensures
            r is None <==> self@.2,
            r matches Some(y) ==> y@ == self@.1,
    {
        if !self.infinity {
            Some(self.y)
        } else {
            None
        }
    }
}

impl AffinePoint {
    /// Parses `0x04 || x || y`; `None` unless the tag is `0x04`, both coordinates are
    /// canonical and the point is on the curve.
    pub fn from_sec1_uncompressed(bytes: [u8; 65]) -> (r: Option<Self>)
        ensures
            ({
                let x = be_nat(bytes@.subrange(1, 33));
                let y = be_nat(bytes@.subrange(33, 65));
                &&& r is Some <==> (bytes[0] == 4 && x < field_prime() && y < field_prime()
                    && on_curve(x, y))
                &&& r matches Some(pt) ==> pt@ == (x, y, false)
            }),
    {
        if bytes[0] != 0x04 {
            return None;
        }

        let x = copy_bytes32(&bytes, 1);
        let y = copy_bytes32(&bytes, 33);

        Self::new(FieldElement::from_be_bytes(x)?, FieldElement::from_be_bytes(y)?)
    }

    /// Parses `0x02/0x03 || x`, recovering `y` with the parity that the tag gives.
    #[verifier::rlimit(30)]
    pub fn from_sec1_compressed(bytes: [u8; 33]) -> (r: Option<Self>)
        ensures
            ({
                let x = be_nat(bytes@.subrange(1, 33));
                let y = decompress_y(x, bytes[0] == 3);
                &&& r is Some <==> ((bytes[0] == 2 || bytes[0] == 3) && x < field_prime()
                    && y is Some)
                &&& r matches Some(pt) ==> pt@ == (x, y->0, false)
            }),
    {
        if bytes[0] != 0x02 && bytes[0] != 0x03 {
            return None;
        }

        let x_bytes = copy_bytes32(&bytes, 1);
        let x = FieldElement::from_be_bytes(x_bytes)?;
        let rhs = x.square() * x - triple(x) + curve_b_element();
        let mut y = rhs.sqrt()?;
        let tag = bytes[0];
        let tag_bit = tag & 1;
        proof {
            assert(tag_bit <= 1u8 && (tag_bit == 1u8 <==> tag == 3u8)) by (bit_vector)
                requires
                    tag_bit == tag & 1u8,
                    tag == 2u8 || tag == 3u8,
            ;
        }

        let ghost c = y@;
        assert(rhs@ == curve_rhs(x@));
        assert(c == sqrt_candidate(curve_rhs(x@)));
        assert(field_mul(c, c) == curve_rhs(x@));
        let y_bytes = y.to_be_bytes();
        proof {
            lemma_be_parity(y_bytes@);
            assert(y_bytes@.last() == y_bytes[31]);
            assert((y_bytes[31] & 1) == c % 2);
        }
        let ghost odd = tag == 3;
        let ghost chosen = if (c % 2 == 1) == odd { c } else { field_neg(c) };
        if (y_bytes[31] & 1) != tag_bit {
            y = y.neg();
        }
        assert(y@ == chosen);

        let y_bytes = y.to_be_bytes();
        proof {
            lemma_be_parity(y_bytes@);
            assert(y_bytes@.last() == y_bytes[31]);
            assert((y_bytes[31] & 1) == y@ % 2);
        }
        if (y_bytes[31] & 1) == tag_bit {
            assert(decompress_y(x@, odd) == Some(chosen));
            Some(Self { x, y, infinity: false })
        } else {
            assert(decompress_y(x@, odd) is None);
            None
        }
    }

    /// The encoding `0x04 || x || y` of a finite point.
    pub fn to_sec1_uncompressed(self) -> (r: Option<[u8; 65]>)
        ensures
            r is None <==> self@.2,
            r matches Some(b) ==> b@ == sec1_uncompressed(self@.0, self@.1),
    {
        if self.infinity {
            return None;
        }

        let x = self.x.to_be_bytes();
        let y = self.y.to_be_bytes();
        let mut out = [0u8; 65];
        out[0] = 0x04;
        for i in 0..32
            invariant
                out[0] == 4,
                forall|j: int| 0 <= j < i ==> out[1 + j] == x[j],
        {
            out[1 + i] = x[i];
        }
        for i in 0..32
            invariant
                out[0] == 4,
                forall|j: int| 0 <= j < 32 ==> out[1 + j] == x[j],
                forall|j: int| 0 <= j < i ==> out[33 + j] == y[j],
        {
            out[33 + i] = y[i];
        }
        proof {
            assert(out@ =~= sec1_uncompressed(self@.0, self@.1));
        }
        Some(out)
    }
}

impl Neg for AffinePoint {
    type Output = Self;

    fn neg(self) -> (r: Self)
        ensures
            r@ == if self@.2 { self@ } else { (self@.0, field_neg(self@.1), false) },
    {
        proof {
            use_type_invariant(&self.x);
            use_type_invariant(&self.y);
        }
        let r = if self.infinity {
            self
        } else {
            Self { x: self.x, y: self.y.neg(), infinity: false }
        };
        proof {
            use_type_invariant(&r.x);
            use_type_invariant(&r.y);
            r.lemma_canonical();
        }
        r
    }
}

impl NegSpecImpl for AffinePoint {
    open spec fn obeys_neg_spec() -> bool {
        true
    }

    open spec fn neg_req(self) -> bool {
        true
    }

    open spec fn neg_spec(self) -> Self {
        affine_point(if self@.2 { self@ } else { (self@.0, field_neg(self@.1), false) })
    }
}

impl ProjectivePoint {
    /// The coordinates are reduced field elements.
    pub closed spec fn wf(self) -> bool {
        self.x.wf() && self.y.wf() && self.z.wf()
    }

    /// A well-formed point is the one that `projective_point` names for its view.
    pub proof fn lemma_canonical(self)
        requires
            self.wf(),
        ensures
            self == projective_point(self@),
    {
        self.x.lemma_canonical();
        self.y.lemma_canonical();
        self.z.lemma_canonical();
    }

    /// Normalises to affine coordinates with one field inversion.
    pub fn to_affine(self) -> (r: AffinePoint)
        ensures
            r@ == jacobian_to_affine(self@),
    {
        match self.z.invert() {
            Some(zinv) => {
                let zinv2 = zinv.square();
                AffinePoint { x: self.x * zinv2, y: self.y * zinv2 * zinv, infinity: false }
            },
            None => AffinePoint::identity(),
        }
    }

    /// The uncompressed SEC1 encoding of the normalised point.
    pub fn to_sec1_uncompressed(self) -> (r: Option<[u8; 65]>)
        ensures
            ({
                let a = jacobian_to_affine(self@);
                &&& r is None <==> a.2
                &&& r matches Some(b) ==> b@ == sec1_uncompressed(a.0, a.1)
            }),
    {
        self.to_affine().to_sec1_uncompressed()
    }

    /// Doubles the point.
    pub fn double(self) -> (r: Self)
        ensures
            r@ == jacobian_double(self@),
    {
        if self.is_identity() || self.y.is_zero() {
            return Self::identity();
        }

        let xx = self.x.square();
        let yy = self.y.square();
        let yyyy = yy.square();
        let zz = self.z.square();
        let s = double((self.x + yy).square() - xx - yyyy);
        let m = triple(xx - zz.square());
        let x = m.square() - double(s);
        let y = m * (s - x) - double(double(double(yyyy)));
        let z = (self.y + self.z).square() - yy - zz;

        Self { x, y, z }
    }

    /// Adds an affine point.
    pub fn add_mixed(self, rhs: AffinePoint) -> (r: Self)
        ensures
            r@ == jacobian_add_mixed(self@, rhs@),
    {
        if rhs.infinity {
            return self;
        }
        if self.is_identity() {
            return rhs.to_projective();
        }

        let z1z1 = self.z.square();
        let u2 = rhs.x * z1z1;
        let s2 = rhs.y * self.z * z1z1;
        let h = u2 - self.x;
        let slope_num = double(s2 - self.y);

        if h.is_zero() {
            return if slope_num.is_zero() {
                self.double()
            } else {
                Self::identity()
            };
        }

        let hh = h.square();
        let i = double(double(hh));
        let j = h * i;
        let v = self.x * i;
        let x = slope_num.square() - j - double(v);
        let y = slope_num * (v - x) - double(self.y * j);
        let z = (self.z + h).square() - z1z1 - hh;

        Self { x, y, z }
    }
}

impl Add for ProjectivePoint {
    type Output = Self;

    fn add(self, rhs: Self) -> (r: Self)
        ensures
            r@ == jacobian_add(self@, rhs@),
    {
        let r = self.add_points(rhs);
        proof {
            use_type_invariant(&r.x);
            use_type_invariant(&r.y);
            use_type_invariant(&r.z);
            r.lemma_canonical();
        }
        r
    }
}

impl AddSpecImpl for ProjectivePoint {
    open spec fn obeys_add_spec() -> bool {
        true
    }

    open spec fn add_req(self, rhs: Self) -> bool {
        true
    }

    open spec fn add_spec(self, rhs: Self) -> Self {
        projective_point(jacobian_add(self@, rhs@))
    }
}

impl Sub for ProjectivePoint {
    type Output = Self;

    fn sub(self, rhs: Self) -> (r: Self)
        ensures
            r@ == jacobian_add(self@, jacobian_neg(rhs@)),
    {
        let r = self + rhs.neg();
        proof {
            use_type_invariant(&r.x);
            use_type_invariant(&r.y);
            use_type_invariant(&r.z);
            r.lemma_canonical();
        }
        r
    }
}

impl SubSpecImpl for ProjectivePoint {
    open spec fn obeys_sub_spec() -> bool {
        true
    }

    open spec fn sub_req(self, rhs: Self) -> bool {
        true
    }

    open spec fn sub_spec(self, rhs: Self) -> Self {
        projective_point(jacobian_add(self@, jacobian_neg(rhs@)))
    }
}

impl Neg for ProjectivePoint {
    type Output = Self;

    fn neg(self) -> (r: Self)
        ensures
            r@ == jacobian_neg(self@),
    {
        let r = Self { x: self.x, y: self.y.neg(), z: self.z };
        proof {
            use_type_invariant(&r.x);
            use_type_invariant(&r.y);
            use_type_invariant(&r.z);
            r.lemma_canonical();
        }
        r
    }
}

impl NegSpecImpl for ProjectivePoint {
    open spec fn obeys_neg_spec() -> bool {
        true
    }

    open spec fn neg_req(self) -> bool {
        true
    }

    open spec fn neg_spec(self) -> Self {
        projective_point(jacobian_neg(self@))
    }
}

impl ProjectivePoint {
    /// General addition of two Jacobian points.
    fn add_points(self, rhs: Self) -> (r: Self)
        ensures
            r@ == jacobian_add(self@, rhs@),
    {
        if self.is_identity() {
            return rhs;
        }
        if rhs.is_identity() {
            return self;
        }

        let z1z1 = self.z.square();
        let z2z2 = rhs.z.square();
        let u1 = self.x * z2z2;
        let u2 = rhs.x * z1z1;
        let s1 = self.y * rhs.z * z2z2;
        let s2 = rhs.y * self.z * z1z1;

        if u1 == u2 {
            return if s1 == s2 {
                self.double()
            } else {
                Self::identity()
            };
        }

        let h = u2 - u1;
        let i = double(h).square();
        let j = h * i;
        let slope_num = double(s2 - s1);
        let v = u1 * i;
        let x = slope_num.square() - j - double(v);
        let y = slope_num * (v - x) - double(s1 * j);
        let z = ((self.z + rhs.z).square() - z1z1 - z2z2) * h;

        Self { x, y, z }
    }
}

impl ProjectivePoint {
    /// The identity `(0 : 1 : 0)`.
    pub fn identity() -> (r: Self)
        ensures
            r@ == jacobian_identity(),
    {
        Self { x: FieldElement::zero(), y: FieldElement::one(), z: FieldElement::zero() }
    }

    /// The standard generator with `Z = 1`.
    pub fn generator() -> (r: Self)
        ensures
            r@ == (generator_x(), generator_y(), 1nat),
    {
        Self { x: generator_x_element(), y: generator_y_element(), z: FieldElement::one() }
    }

    /// Lifts an affine point; normalising the result gives the point back.
    pub fn from_affine(point: AffinePoint) -> (r: Self)
        ensures
            r@ == affine_to_jacobian(point@),
            jacobian_to_affine(r@) == point@,
    {
        point.to_projective()
    }

    /// Whether `Z = 0`.
    pub fn is_identity(self) -> (r: bool)
        ensures
            r == (self@.2 == 0),
    {
        self.z.is_zero()
    }

    /// Whether the point is finite with affine x-coordinate `x`, tested as `X == x * Z^2`.
    pub fn has_affine_x(self, x: FieldElement) -> (r: bool)
        ensures
            r == (self@.2 != 0 && self@.0 == field_mul(x@, field_mul(self@.2, self@.2))),
    {
        !self.is_identity() && self.x == x * self.z.square()
    }
}

impl PartialEq for AffinePoint {
    fn eq(&self, other: &Self) -> (r: bool) {
        self.x == other.x && self.y == other.y && self.infinity == other.infinity
    }
}

impl PartialEqSpecImpl for AffinePoint {
    open spec fn obeys_eq_spec() -> bool {
        true
    }

    open spec fn eq_spec(&self, other: &Self) -> bool {
        self@ == other@
    }
}

impl Eq for AffinePoint {
}

impl PartialEq for ProjectivePoint {
    fn eq(&self, other: &Self) -> (r: bool) {
        self.x == other.x && self.y == other.y && self.z == other.z
    }
}

impl PartialEqSpecImpl for ProjectivePoint {
    open spec fn obeys_eq_spec() -> bool {
        true
    }

    open spec fn eq_spec(&self, other: &Self) -> bool {
        self@ == other@
    }
}

impl Eq for ProjectivePoint {
}

/// `2^n * P` by repeated doubling.
pub open spec fn jacobian_double_n(p: (nat, nat, nat), n: nat) -> (nat, nat, nat)
    decreases n,
{
    if n == 0 {
        p
    } else {
        jacobian_double(jacobian_double_n(p, (n - 1) as nat))
    }
}

/// `i * P` as the running sum `((O + P) + P) + ...`.
pub open spec fn jacobian_multiple(p: (nat, nat, nat), i: nat) -> (nat, nat, nat)
    decreases i,
{
    if i == 0 {
        jacobian_identity()
    } else {
        jacobian_add(jacobian_multiple(p, (i - 1) as nat), p)
    }
}

/// One byte of base-16 Horner evaluation against the table of multiples of `P`.
pub open spec fn window4_step(out: (nat, nat, nat), p: (nat, nat, nat), byte: u8) -> (nat, nat, nat) {
    let hi = jacobian_add(jacobian_double_n(out, 4), jacobian_multiple(p, (byte / 16) as nat));
    jacobian_add(jacobian_double_n(hi, 4), jacobian_multiple(p, (byte % 16) as nat))
}

/// Base-16 Horner evaluation of the big-endian scalar `s` at `P`.
pub open spec fn window4_horner(p: (nat, nat, nat), s: Seq<u8>) -> (nat, nat, nat)
    decreases s.len(),
{
    if s.len() == 0 {
        jacobian_identity()
    } else {
        window4_step(window4_horner(p, s.drop_last()), p, s.last())
    }
}

proof fn lemma_nibbles(byte: u8)
    ensures
        byte >> 4u8 == byte / 16,
        byte & 0x0fu8 == byte % 16,
{
    assert(byte >> 4u8 == byte / 16) by (bit_vector);
    assert(byte & 0x0fu8 == byte % 16) by (bit_vector);
}

/// Doubles `count` times.
fn double_n(point: ProjectivePoint, count: usize) -> (r: ProjectivePoint)
    ensures
        r@ == jacobian_double_n(point@, count as nat),
{
    let mut out = point;
    for k in 0..count
        invariant
            out@ == jacobian_double_n(point@, k as nat),
    {
        out = out.double();
    }
    out
}

/// `P` is its own first multiple.
proof fn lemma_multiple_one(p: (nat, nat, nat))
    ensures
        jacobian_multiple(p, 1) == p,
{
    reveal_with_fuel(jacobian_multiple, 2);
}

/// Horner evaluation over one more byte is one more step.
proof fn lemma_window4_prefix(p: (nat, nat, nat), s: Seq<u8>, i: int)
    requires
        0 <= i < s.len(),
    ensures
        window4_horner(p, s.subrange(0, i + 1)) == window4_step(
            window4_horner(p, s.subrange(0, i)),
            p,
            s[i],
        ),
{
    assert(s.subrange(0, i + 1).drop_last() =~= s.subrange(0, i));
}

/// The multiples `0..16` of `P`, each the previous one plus `P`.
fn multiples_table(p: ProjectivePoint) -> (t: [ProjectivePoint; 16])
    ensures
        forall|j: int| 0 <= j < 16 ==> (#[trigger] t[j])@ == jacobian_multiple(p@, j as nat),
{
    let mut table = [ProjectivePoint::identity(); 16];
    table[1] = p;
    proof {
        lemma_multiple_one(p@);
    }
    for i in 2..16
        invariant
            forall|j: int| 0 <= j < i ==> (#[trigger] table[j])@ == jacobian_multiple(p@, j as nat),
    {
        table[i] = table[i - 1] + p;
    }
    table
}

impl ProjectivePoint {
    /// `k * P` for the big-endian scalar `k`, with a table of the multiples `0..16` of `P`
    /// and four doublings per nibble.
    pub fn mul_scalar_vartime(self, scalar: [u8; 32]) -> (r: Self)
        ensures
            r@ == window4_horner(self@, scalar@),
    {
        let mut scalar = scalar;
        let ghost s = scalar@;
        let table = multiples_table(self);
        let mut out = Self::identity();

        for i in 0..32
            invariant
                scalar@ == s,
                forall|j: int| 0 <= j < 16 ==> (#[trigger] table[j])@ == jacobian_multiple(self@, j as nat),
                out@ == window4_horner(self@, s.subrange(0, i as int)),
        {
            let byte = scalar[i];
            proof {
                lemma_nibbles(byte);
                lemma_window4_prefix(self@, s, i as int);
            }
            let hi = double_n(out, 4) + table[(byte >> 4) as usize];
            out = double_n(hi, 4) + table[(byte & 0x0f) as usize];
        }

        crate::wipe::wipe_bytes(&mut scalar);
        proof {
            assert(s.subrange(0, 32) =~= s);
        }
        out
    }
}

} // verus!
