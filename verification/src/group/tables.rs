//! Precomputed tables of multiples and the windowed scalar multiplications that read them.
#![allow(unused_imports)]

use vstd::prelude::*;

use super::{
    affine_identity, affine_to_jacobian, double_n, generator_x, generator_y, jacobian_add,
    jacobian_add_mixed, jacobian_double_n, jacobian_identity, jacobian_multiple, AffinePoint,
    ProjectivePoint,
};
use crate::field::{field_mul, field_pow, field_prime, FieldElement};

verus! {

/// The views of a sequence of Jacobian points.
pub open spec fn jacobian_views(v: Seq<ProjectivePoint>) -> Seq<(nat, nat, nat)> {
    v.map_values(|p: ProjectivePoint| p@)
}

/// The product of the nonzero `Z` coordinates among the first `i` points.
pub open spec fn z_prefix(pts: Seq<(nat, nat, nat)>, i: nat) -> nat
    decreases i,
{
    if i == 0 {
        1
    } else {
        let z = pts[i - 1].2;
        if z == 0 {
            z_prefix(pts, (i - 1) as nat)
        } else {
            field_mul(z_prefix(pts, (i - 1) as nat), z)
        }
    }
}

/// The inverse `x^(p-2)` of the whole product, times the nonzero `Z` from index `i` on.
pub open spec fn inverse_suffix(pts: Seq<(nat, nat, nat)>, i: nat) -> nat
    decreases pts.len() - i,
{
    if i >= pts.len() {
        field_pow(z_prefix(pts, pts.len()), (field_prime() - 2) as nat)
    } else {
        let z = pts[i as int].2;
        let a = inverse_suffix(pts, i + 1);
        if z == 0 {
            a
        } else {
            field_mul(a, z)
        }
    }
}

/// Entry `i` of the batch normalisation: the point scaled by the inverse of its `Z`,
/// taken as the inverse of the whole product times the other factors; identity
/// points, and every point when the product is zero, give the identity.
pub open spec fn batch_normalized(pts: Seq<(nat, nat, nat)>, i: int) -> (nat, nat, bool) {
    let p = pts[i];
    if z_prefix(pts, pts.len()) == 0 || p.2 == 0 {
        affine_identity()
    } else {
        let zi = field_mul(inverse_suffix(pts, (i + 1) as nat), z_prefix(pts, i as nat));
        let zi2 = field_mul(zi, zi);
        (field_mul(p.0, zi2), field_mul(field_mul(p.1, zi2), zi), false)
    }
}

/// Normalises every point with a single field inversion (Montgomery's trick).
fn batch_normalize(points: &Vec<ProjectivePoint>) -> (out: Vec<AffinePoint>)
    ensures
        out.len() == points.len(),
        forall|i: int|
            0 <= i < points.len() ==> (#[trigger] out[i])@ == batch_normalized(
                jacobian_views(points@),
                i,
            ),
{
    let ghost pts = jacobian_views(points@);
    let n = points.len();
    let mut products: Vec<FieldElement> = Vec::new();
    let mut acc = FieldElement::one();

    for i in 0..n
        invariant
            n == points.len(),
            pts == jacobian_views(points@),
            products.len() == i,
            acc@ == z_prefix(pts, i as nat),
            forall|j: int| 0 <= j < i ==> (#[trigger] products[j])@ == z_prefix(pts, j as nat),
    {
        products.push(acc);
        let point = points[i];
        assert(pts[i as int] == point@);
        if !point.is_identity() {
            acc = acc * point.z;
        }
    }

    let mut out: Vec<AffinePoint> = Vec::new();
    for i in 0..n
        invariant
            out.len() == i,
            forall|j: int| 0 <= j < i ==> (#[trigger] out[j])@ == affine_identity(),
    {
        out.push(AffinePoint::identity());
    }

    let mut acc_inverse = match acc.invert() {
        Some(inverse) => inverse,
        None => {
            assert forall|j: int| 0 <= j < n implies (#[trigger] out[j])@ == batch_normalized(pts, j) by {}
            return out;
        },
    };

    let mut i = n;
    while i > 0
        invariant
            n == points.len(),
            pts == jacobian_views(points@),
            pts.len() == n,
            products.len() == n,
            out.len() == n,
            i <= n,
            z_prefix(pts, n as nat) != 0,
            acc_inverse@ == inverse_suffix(pts, i as nat),
            forall|j: int| 0 <= j < n ==> (#[trigger] products[j])@ == z_prefix(pts, j as nat),
            forall|j: int| 0 <= j < i ==> (#[trigger] out[j])@ == affine_identity(),
            forall|j: int| i <= j < n ==> (#[trigger] out[j])@ == batch_normalized(pts, j),
        decreases i,
    {
        i = i - 1;
        let point = points[i];
        assert(pts[i as int] == point@);
        if !point.is_identity() {
            let z_inverse = acc_inverse * products[i];
            acc_inverse = acc_inverse * point.z;
            let z_inverse2 = z_inverse.square();
            let normalized = AffinePoint {
                x: point.x * z_inverse2,
                y: point.y * z_inverse2 * z_inverse,
                infinity: false,
            };
            out.set(i, normalized);
        }
    }

    out
}

/// `i` times the affine point `a`, adding it one at a time with mixed addition.
pub open spec fn mixed_multiple(a: (nat, nat, bool), i: nat) -> (nat, nat, nat)
    decreases i,
{
    if i == 0 {
        jacobian_identity()
    } else {
        jacobian_add_mixed(mixed_multiple(a, (i - 1) as nat), a)
    }
}

/// The sixteen multiples `0..16` of `a` before normalisation.
pub open spec fn window4_points(a: (nat, nat, bool)) -> Seq<(nat, nat, nat)> {
    Seq::new(16, |j: int| mixed_multiple(a, j as nat))
}

/// Entry `i` of the normalised table of multiples of `a`.
pub open spec fn window4_entry(a: (nat, nat, bool), i: nat) -> (nat, nat, bool) {
    batch_normalized(window4_points(a), i as int)
}

/// The normalised multiples `0..16` of `base`.
fn window4_table(base: AffinePoint) -> (t: Vec<AffinePoint>)
    ensures
        t.len() == 16,
        forall|i: int| 0 <= i < 16 ==> (#[trigger] t[i])@ == window4_entry(base@, i as nat),
{
    let mut projective: Vec<ProjectivePoint> = Vec::new();
    projective.push(ProjectivePoint::identity());

    for i in 1..16
        invariant
            projective.len() == i,
            forall|j: int| 0 <= j < i ==> (#[trigger] projective[j])@ == mixed_multiple(base@, j as nat),
    {
        let next = projective[i - 1].add_mixed(base);
        projective.push(next);
    }
    proof {
        assert(jacobian_views(projective@) =~= window4_points(base@));
    }
    batch_normalize(&projective)
}

/// One byte of base-16 Horner evaluation with mixed additions from the table of `a`.
pub open spec fn window4_mixed_step(out: (nat, nat, nat), a: (nat, nat, bool), byte: u8) -> (nat, nat, nat) {
    let hi = jacobian_add_mixed(jacobian_double_n(out, 4), window4_entry(a, (byte / 16) as nat));
    jacobian_add_mixed(jacobian_double_n(hi, 4), window4_entry(a, (byte % 16) as nat))
}

/// Base-16 Horner evaluation over the first `i` bytes of `s`.
pub open spec fn window4_mixed_horner(a: (nat, nat, bool), s: Seq<u8>, i: nat) -> (nat, nat, nat)
    decreases i,
{
    if i == 0 {
        jacobian_identity()
    } else {
        window4_mixed_step(window4_mixed_horner(a, s, (i - 1) as nat), a, s[i - 1])
    }
}

/// Base-16 Horner evaluation of the big-endian scalar against a table of multiples of `a`.
fn mul_window4_vartime(table: &Vec<AffinePoint>, scalar: &[u8; 32], Ghost(a): Ghost<(nat, nat, bool)>) -> (r: ProjectivePoint)
    requires
        table.len() == 16,
        forall|i: int| 0 <= i < 16 ==> (#[trigger] table[i])@ == window4_entry(a, i as nat),
    ensures
        r@ == window4_mixed_horner(a, scalar@, 32),
{
    let mut out = ProjectivePoint::identity();

    for i in 0..32
        invariant
            table.len() == 16,
            forall|j: int| 0 <= j < 16 ==> (#[trigger] table[j])@ == window4_entry(a, j as nat),
            out@ == window4_mixed_horner(a, scalar@, i as nat),
    {
        let byte = scalar[i];
        proof {
            super::lemma_nibbles(byte);
        }
        out = double_n(out, 4).add_mixed(table[(byte >> 4) as usize]);
        out = double_n(out, 4).add_mixed(table[(byte & 0x0f) as usize]);
    }

    out
}

impl ProjectivePoint {
    /// `k * A` for an affine base, through its normalised table of sixteen multiples.
    pub fn mul_affine_scalar_vartime(base: AffinePoint, scalar: [u8; 32]) -> (r: Self)
        ensures
            r@ == window4_mixed_horner(base@, scalar@, 32),
    {
        let mut scalar = scalar;
        let table = window4_table(base);
        let out = mul_window4_vartime(&table, &scalar, Ghost(base@));
        crate::wipe::wipe_bytes(&mut scalar);
        out
    }
}

/// The standard generator in Jacobian coordinates with `Z = 1`.
pub open spec fn generator_jacobian() -> (nat, nat, nat) {
    (generator_x(), generator_y(), 1)
}

/// The standard generator in affine coordinates.
pub open spec fn generator_affine() -> (nat, nat, bool) {
    (generator_x(), generator_y(), false)
}

/// The 256 multiples `0..256` of `p`, each the previous one plus `p`.
pub open spec fn window8_points(p: (nat, nat, nat)) -> Seq<(nat, nat, nat)> {
    Seq::new(256, |j: int| jacobian_multiple(p, j as nat))
}

/// Entry `i` of the normalised table of the multiples `0..256` of `p`.
pub open spec fn window8_entry(p: (nat, nat, nat), i: nat) -> (nat, nat, bool) {
    batch_normalized(window8_points(p), i as int)
}

/// The base of row `w` of the fixed-base table: `p` doubled `8w` times, eight at a time.
pub open spec fn row_base(p: (nat, nat, nat), w: nat) -> (nat, nat, nat)
    decreases w,
{
    if w == 0 {
        p
    } else {
        jacobian_double_n(row_base(p, (w - 1) as nat), 8)
    }
}

/// The normalised multiples `0..256` of `base`.
fn projective_window8_table(base: ProjectivePoint) -> (t: Vec<AffinePoint>)
    ensures
        t.len() == 256,
        forall|i: int| 0 <= i < 256 ==> (#[trigger] t[i])@ == window8_entry(base@, i as nat),
{
    let mut projective: Vec<ProjectivePoint> = Vec::new();
    projective.push(ProjectivePoint::identity());
    let mut multiple = ProjectivePoint::identity();

    for i in 1..256
        invariant
            projective.len() == i,
            multiple@ == jacobian_multiple(base@, (i - 1) as nat),
            forall|j: int| 0 <= j < i ==> (#[trigger] projective[j])@ == jacobian_multiple(base@, j as nat),
    {
        multiple = multiple + base;
        projective.push(multiple);
    }
    proof {
        assert(jacobian_views(projective@) =~= window8_points(base@));
    }
    batch_normalize(&projective)
}

/// Rows `0..32` of the fixed-base table: row `w` holds the normalised multiples of
/// `2^(8w) * base`.
fn build_window8_table(base: ProjectivePoint) -> (rows: Vec<Vec<AffinePoint>>)
    ensures
        rows.len() == 32,
        forall|w: int| 0 <= w < 32 ==> (#[trigger] rows[w]).len() == 256,
        forall|w: int, b: int|
            0 <= w < 32 && 0 <= b < 256 ==> (#[trigger] rows[w][b])@ == window8_entry(
                row_base(base@, w as nat),
                b as nat,
            ),
{
    let mut rows: Vec<Vec<AffinePoint>> = Vec::new();
    let mut row = base;

    for w in 0..32
        invariant
            rows.len() == w,
            row@ == row_base(base@, w as nat),
            forall|v: int| 0 <= v < w ==> (#[trigger] rows[v]).len() == 256,
            forall|v: int, b: int|
                0 <= v < w && 0 <= b < 256 ==> (#[trigger] rows[v][b])@ == window8_entry(
                    row_base(base@, v as nat),
                    b as nat,
                ),
    {
        rows.push(projective_window8_table(row));
        row = double_n(row, 8);
    }

    rows
}

/// The sum over the 32 windows of the table entry that each byte of the scalar picks,
/// least significant byte first.
pub open spec fn window8_sum(p: (nat, nat, nat), s: Seq<u8>, k: nat) -> (nat, nat, nat)
    decreases k,
{
    if k == 0 {
        jacobian_identity()
    } else {
        jacobian_add_mixed(
            window8_sum(p, s, (k - 1) as nat),
            window8_entry(row_base(p, (k - 1) as nat), s[32 - k] as nat),
        )
    }
}

/// Fixed-base multiplication: one mixed addition per byte of the scalar.
fn mul_window8_vartime(
    table: &Vec<Vec<AffinePoint>>,
    scalar: &[u8; 32],
    Ghost(p): Ghost<(nat, nat, nat)>,
) -> (r: ProjectivePoint)
    requires
        table.len() == 32,
        forall|w: int| 0 <= w < 32 ==> (#[trigger] table[w]).len() == 256,
        forall|w: int, b: int|
            0 <= w < 32 && 0 <= b < 256 ==> (#[trigger] table[w][b])@ == window8_entry(
                row_base(p, w as nat),
                b as nat,
            ),
    ensures
        r@ == window8_sum(p, scalar@, 32),
{
    let mut out = ProjectivePoint::identity();

    for window in 0..32
        invariant
            table.len() == 32,
            forall|w: int| 0 <= w < 32 ==> (#[trigger] table[w]).len() == 256,
            forall|w: int, b: int|
                0 <= w < 32 && 0 <= b < 256 ==> (#[trigger] table[w][b])@ == window8_entry(
                    row_base(p, w as nat),
                    b as nat,
                ),
            out@ == window8_sum(p, scalar@, window as nat),
    {
        let byte = scalar[31 - window];
        let row = &table[window];
        out = out.add_mixed(row[byte as usize]);
    }

    out
}

/// One byte of the interleaved base-16 evaluation of `g * a + q * b`.
pub open spec fn shamir4_step(
    out: (nat, nat, nat),
    g: (nat, nat, bool),
    q: (nat, nat, bool),
    gb: u8,
    qb: u8,
) -> (nat, nat, nat) {
    let d = jacobian_double_n(out, 4);
    let hi = jacobian_add_mixed(
        jacobian_add_mixed(d, window4_entry(g, (gb / 16) as nat)),
        window4_entry(q, (qb / 16) as nat),
    );
    let d2 = jacobian_double_n(hi, 4);
    jacobian_add_mixed(
        jacobian_add_mixed(d2, window4_entry(g, (gb % 16) as nat)),
        window4_entry(q, (qb % 16) as nat),
    )
}

/// The interleaved base-16 evaluation over the first `i` bytes of both scalars.
pub open spec fn shamir4_horner(
    g: (nat, nat, bool),
    q: (nat, nat, bool),
    gs: Seq<u8>,
    qs: Seq<u8>,
    i: nat,
) -> (nat, nat, nat)
    decreases i,
{
    if i == 0 {
        jacobian_identity()
    } else {
        shamir4_step(shamir4_horner(g, q, gs, qs, (i - 1) as nat), g, q, gs[i - 1], qs[i - 1])
    }
}

/// One byte of the interleaved base-256 evaluation of `g * a + q * b`.
pub open spec fn shamir8_step(
    out: (nat, nat, nat),
    g: (nat, nat, nat),
    q: (nat, nat, nat),
    gb: u8,
    qb: u8,
) -> (nat, nat, nat) {
    jacobian_add_mixed(
        jacobian_add_mixed(jacobian_double_n(out, 8), window8_entry(g, gb as nat)),
        window8_entry(q, qb as nat),
    )
}

/// The interleaved base-256 evaluation over the first `i` bytes of both scalars.
pub open spec fn shamir8_horner(
    g: (nat, nat, nat),
    q: (nat, nat, nat),
    gs: Seq<u8>,
    qs: Seq<u8>,
    i: nat,
) -> (nat, nat, nat)
    decreases i,
{
    if i == 0 {
        jacobian_identity()
    } else {
        shamir8_step(shamir8_horner(g, q, gs, qs, (i - 1) as nat), g, q, gs[i - 1], qs[i - 1])
    }
}

impl ProjectivePoint {
    /// `k * G` through the fixed-base table of the generator.
    pub fn mul_generator_vartime(scalar: [u8; 32]) -> (r: Self)
        ensures
            r@ == window8_sum(generator_jacobian(), scalar@, 32),
    {
        let mut scalar = scalar;
        let table = build_window8_table(ProjectivePoint::generator());
        let out = mul_window8_vartime(&table, &scalar, Ghost(generator_jacobian()));
        crate::wipe::wipe_bytes(&mut scalar);
        out
    }

    /// `a * G + b * Q`, interleaving base-16 windows of both scalars.
    pub fn double_scalar_mul_shamir_vartime(
        generator_scalar: [u8; 32],
        point: AffinePoint,
        point_scalar: [u8; 32],
    ) -> (r: Self)
        ensures
            r@ == shamir4_horner(generator_affine(), point@, generator_scalar@, point_scalar@, 32),
    {
        let mut generator_scalar = generator_scalar;
        let mut point_scalar = point_scalar;
        let generator_table = window4_table(AffinePoint::generator());
        let point_table = window4_table(point);
        let mut out = Self::identity();

        for i in 0..32
            invariant
                generator_table.len() == 16,
                point_table.len() == 16,
                forall|j: int| 0 <= j < 16 ==> (#[trigger] generator_table[j])@ == window4_entry(generator_affine(), j as nat),
                forall|j: int| 0 <= j < 16 ==> (#[trigger] point_table[j])@ == window4_entry(point@, j as nat),
                out@ == shamir4_horner(generator_affine(), point@, generator_scalar@, point_scalar@, i as nat),
        {
            let generator_byte = generator_scalar[i];
            let point_byte = point_scalar[i];
            proof {
                super::lemma_nibbles(generator_byte);
                super::lemma_nibbles(point_byte);
            }
            out = double_n(out, 4)
                .add_mixed(generator_table[(generator_byte >> 4) as usize])
                .add_mixed(point_table[(point_byte >> 4) as usize]);
            out = double_n(out, 4)
                .add_mixed(generator_table[(generator_byte & 0x0f) as usize])
                .add_mixed(point_table[(point_byte & 0x0f) as usize]);
        }

        crate::wipe::wipe_bytes(&mut generator_scalar);
        crate::wipe::wipe_bytes(&mut point_scalar);
        out
    }

    /// `a * G + b * Q`, interleaving base-256 windows of both scalars.
    pub fn double_scalar_mul_shamir_window8_vartime(
        generator_scalar: [u8; 32],
        point: AffinePoint,
        point_scalar: [u8; 32],
    ) -> (r: Self)
        ensures
            r@ == shamir8_horner(
                generator_jacobian(),
                affine_to_jacobian(point@),
                generator_scalar@,
                point_scalar@,
                32,
            ),
    {
        let mut generator_scalar = generator_scalar;
        let mut point_scalar = point_scalar;
        let generator_table = projective_window8_table(ProjectivePoint::generator());
        let point_table = projective_window8_table(ProjectivePoint::from_affine(point));
        let mut out = Self::identity();

        for i in 0..32
            invariant
                generator_table.len() == 256,
                point_table.len() == 256,
                forall|j: int| 0 <= j < 256 ==> (#[trigger] generator_table[j])@ == window8_entry(generator_jacobian(), j as nat),
                forall|j: int| 0 <= j < 256 ==> (#[trigger] point_table[j])@ == window8_entry(affine_to_jacobian(point@), j as nat),
                out@ == shamir8_horner(
                    generator_jacobian(),
                    affine_to_jacobian(point@),
                    generator_scalar@,
                    point_scalar@,
                    i as nat,
                ),
        {
            let generator_byte = generator_scalar[i];
            let point_byte = point_scalar[i];
            out = double_n(out, 8)
                .add_mixed(generator_table[generator_byte as usize])
                .add_mixed(point_table[point_byte as usize]);
        }

        crate::wipe::wipe_bytes(&mut generator_scalar);
        crate::wipe::wipe_bytes(&mut point_scalar);
        out
    }
}

} // verus!
