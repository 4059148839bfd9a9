//! The Jacobian formulas implement the chord-and-tangent operations on affine points:
//! a Jacobian point stands for `(X / Z^2, Y / Z^3)`, written without division as
//! `X = x Z^2`, `Y = y Z^3`, and each formula maps points that stand for `a` (and `b`)
//! to one that stands for the tangent double of `a`, or the chord sum of `a` and `b`.
#![allow(unused_imports)]

use vstd::arithmetic::div_mod::{lemma_add_mod_noop, lemma_mod_twice, lemma_mul_mod_noop, lemma_small_mod, lemma_sub_mod_noop};
use vstd::prelude::*;

use super::tables::{mixed_multiple, window4_points};
use super::{
    curve_b, curve_rhs, on_curve, jacobian_multiple, affine_to_jacobian, fdouble, ftriple, jacobian_add, jacobian_add_mixed, jacobian_double,
    jacobian_identity,
};
use crate::field::{field_add, field_mul, field_prime, field_sub};

verus! {

/// `a` and `b` are congruent modulo `p`.
pub open spec fn cong(a: int, b: int) -> bool {
    a % (field_prime() as int) == b % (field_prime() as int)
}

proof fn lemma_cong_mul(a: int, b: int, c: int, d: int)
    requires
        cong(a, c),
        cong(b, d),
    ensures
        cong(a * b, c * d),
{
    let m = field_prime() as int;
    lemma_mul_mod_noop(a, b, m);
    lemma_mul_mod_noop(c, d, m);
}

proof fn lemma_cong_add(a: int, b: int, c: int, d: int)
    requires
        cong(a, c),
        cong(b, d),
    ensures
        cong(a + b, c + d),
{
    let m = field_prime() as int;
    lemma_add_mod_noop(a, b, m);
    lemma_add_mod_noop(c, d, m);
}

proof fn lemma_cong_sub(a: int, b: int, c: int, d: int)
    requires
        cong(a, c),
        cong(b, d),
    ensures
        cong(a - b, c - d),
{
    let m = field_prime() as int;
    lemma_sub_mod_noop(a, b, m);
    lemma_sub_mod_noop(c, d, m);
}

/// Each field operation is congruent to the integer operation.
proof fn lemma_field_ops(a: nat, b: nat)
    ensures
        cong(field_mul(a, b) as int, a as int * b as int),
        cong(field_add(a, b) as int, a as int + b as int),
        cong(field_sub(a, b) as int, a as int - b as int),
        cong(fdouble(a) as int, 2 * (a as int)),
        cong(ftriple(a) as int, 3 * (a as int)),
{
    let m = field_prime() as int;
    let ai = a as int;
    let bi = b as int;
    lemma_mod_twice(ai * bi, m);
    lemma_mod_twice(ai + bi, m);
    lemma_mod_twice(ai - bi, m);
    lemma_mod_twice(ai + ai, m);
    let t = field_add(a, a) as int;
    lemma_add_mod_noop(t, ai, m);
    lemma_mod_twice(ai + ai + ai, m);
    lemma_add_mod_noop(ai + ai, ai, m);
}

/// Two reduced values that are congruent are equal.
proof fn lemma_cong_eq(a: nat, b: nat)
    requires
        a < field_prime(),
        b < field_prime(),
        cong(a as int, b as int),
    ensures
        a == b,
{
    lemma_small_mod(a, field_prime());
    lemma_small_mod(b, field_prime());
}

/// `(X : Y : Z)` stands for the affine point `a`: `X = x Z^2`, `Y = y Z^3`.
pub open spec fn represents(j: (nat, nat, nat), a: (nat, nat)) -> bool {
    let zz = field_mul(j.2, j.2);
    &&& j.0 == field_mul(a.0, zz)
    &&& j.1 == field_mul(a.1, field_mul(zz, j.2))
}

/// `l` is the slope of the tangent at `(x, y)` on `y^2 = x^3 - 3x + b`: `2y l = 3x^2 - 3`.
pub open spec fn tangent_slope(a: (nat, nat), l: nat) -> bool {
    field_mul(l, fdouble(a.1)) == field_sub(ftriple(field_mul(a.0, a.0)), 3)
}

/// Tangent doubling of an affine point along slope `l`:
/// `x3 = l^2 - 2x`, `y3 = l (x - x3) - y`.
pub open spec fn affine_double_with(a: (nat, nat), l: nat) -> (nat, nat) {
    let x3 = field_sub(field_mul(l, l), fdouble(a.0));
    (x3, field_sub(field_mul(l, field_sub(a.0, x3)), a.1))
}

/// The Jacobian doubling of a point standing for `a` stands for the tangent doubling of
/// `a`, for any slope of the tangent at `a`.
#[verifier::spinoff_prover]
pub proof fn lemma_double_represents(j: (nat, nat, nat), a: (nat, nat), l: nat)
    requires
        j.2 < field_prime(),
        j.2 != 0,
        j.1 != 0,
        represents(j, a),
        tangent_slope(a, l),
    ensures
        represents(jacobian_double(j), affine_double_with(a, l)),
{
    let (xj, yj, zj) = j;
    let bx = xj as int;
    let by = yj as int;
    let bz = zj as int;
    let x = a.0 as int;
    let y = a.1 as int;
    let li = l as int;
    let w = bz * bz;
    let w3 = w * bz;

    // The hypotheses as congruences.
    let zz = field_mul(zj, zj);
    lemma_field_ops(zj, zj);
    lemma_field_ops(a.0, zz);
    lemma_cong_mul(x, zz as int, x, w);
    assert(cong(bx, x * w));
    let zzz = field_mul(zz, zj);
    lemma_field_ops(zz, zj);
    lemma_cong_mul(zz as int, bz, w, bz);
    lemma_field_ops(a.1, zzz);
    lemma_cong_mul(y, zzz as int, y, w3);
    assert(cong(by, y * w3));
    let ax2 = field_mul(a.0, a.0);
    lemma_field_ops(a.0, a.0);
    lemma_field_ops(ax2, 0);
    lemma_field_ops(ftriple(ax2), 3);
    lemma_field_ops(a.1, 0);
    lemma_field_ops(l, fdouble(a.1));
    lemma_cong_mul(li, fdouble(a.1) as int, li, 2 * y);
    lemma_cong_mul(3, ax2 as int, 3, x * x);
    lemma_cong_sub(ftriple(ax2) as int, 3, 3 * (x * x), 3);
    assert(cong(li * (2 * y), 3 * (x * x) - 3));

    // The code's intermediate values, in the Jacobian coordinates.
    let xx = field_mul(xj, xj);
    let yy = field_mul(yj, yj);
    let yyyy = field_mul(yy, yy);
    let t1 = field_add(xj, yy);
    let t2 = field_mul(t1, t1);
    let t3 = field_sub(t2, xx);
    let t4 = field_sub(t3, yyyy);
    let s = fdouble(t4);
    let zz2 = field_mul(zz, zz);
    let u = field_sub(xx, zz2);
    let m = ftriple(u);
    lemma_field_ops(xj, xj);
    lemma_field_ops(yj, yj);
    lemma_field_ops(yy, yy);
    lemma_field_ops(xj, yy);
    lemma_field_ops(t1, t1);
    lemma_field_ops(t2, xx);
    lemma_field_ops(t3, yyyy);
    lemma_field_ops(t4, 0);
    lemma_field_ops(zz, zz);
    lemma_field_ops(xx, zz2);
    lemma_field_ops(u, 0);
    let yy_i = by * by;
    lemma_cong_mul(yy as int, yy as int, yy_i, yy_i);
    lemma_cong_add(bx, yy as int, bx, yy_i);
    lemma_cong_mul(t1 as int, t1 as int, bx + yy_i, bx + yy_i);
    lemma_cong_sub(t2 as int, xx as int, (bx + yy_i) * (bx + yy_i), bx * bx);
    lemma_cong_sub(t3 as int, yyyy as int, (bx + yy_i) * (bx + yy_i) - bx * bx, yy_i * yy_i);
    lemma_cong_mul(2, t4 as int, 2, (bx + yy_i) * (bx + yy_i) - bx * bx - yy_i * yy_i);
    assert(2 * ((bx + yy_i) * (bx + yy_i) - bx * bx - yy_i * yy_i) == 4 * (bx * yy_i))
        by (nonlinear_arith);
    assert(cong(s as int, 4 * (bx * yy_i)));
    lemma_cong_mul(zz as int, zz as int, w, w);
    lemma_cong_sub(xx as int, zz2 as int, bx * bx, w * w);
    lemma_cong_mul(3, u as int, 3, bx * bx - w * w);
    assert(cong(m as int, 3 * (bx * bx - w * w)));

    // The same values in the affine coordinates.
    let yw = y * w3;
    lemma_cong_mul(bx, bx, x * w, x * w);
    lemma_cong_sub(bx * bx, w * w, (x * w) * (x * w), w * w);
    lemma_cong_mul(3, bx * bx - w * w, 3, (x * w) * (x * w) - w * w);
    assert(3 * ((x * w) * (x * w) - w * w) == (w * w) * (3 * (x * x) - 3)) by (nonlinear_arith);
    lemma_cong_mul(w * w, 3 * (x * x) - 3, w * w, li * (2 * y));
    let ma = (w * w) * (li * (2 * y));
    assert(cong(m as int, ma));
    lemma_cong_mul(by, by, yw, yw);
    lemma_cong_mul(bx, yy_i, x * w, yw * yw);
    lemma_cong_mul(4, bx * yy_i, 4, (x * w) * (yw * yw));
    let sa = 4 * ((x * w) * (yw * yw));
    assert(cong(s as int, sa));
    lemma_cong_mul(yy_i, yy_i, yw * yw, yw * yw);
    let y4a = (yw * yw) * (yw * yw);
    assert(cong(yyyy as int, y4a));

    // The outputs.
    let x3 = field_sub(field_mul(m, m), fdouble(s));
    let y3 = field_sub(field_mul(m, field_sub(s, x3)), fdouble(fdouble(fdouble(yyyy))));
    let yz = field_add(yj, zj);
    let z3 = field_sub(field_sub(field_mul(yz, yz), yy), zz);
    assert(jacobian_double(j) == (x3, y3, z3));
    lemma_field_ops(m, m);
    lemma_field_ops(s, 0);
    lemma_field_ops(field_mul(m, m), fdouble(s));
    lemma_cong_mul(m as int, m as int, ma, ma);
    lemma_cong_mul(2, s as int, 2, sa);
    lemma_cong_sub(field_mul(m, m) as int, fdouble(s) as int, ma * ma, 2 * sa);
    let x3a_i = ma * ma - 2 * sa;
    assert(cong(x3 as int, x3a_i));
    lemma_field_ops(s, x3);
    lemma_cong_sub(s as int, x3 as int, sa, x3a_i);
    lemma_field_ops(m, field_sub(s, x3));
    lemma_cong_mul(m as int, field_sub(s, x3) as int, ma, sa - x3a_i);
    lemma_field_ops(yyyy, 0);
    let d1 = fdouble(yyyy);
    lemma_field_ops(d1, 0);
    let d2 = fdouble(d1);
    lemma_field_ops(d2, 0);
    lemma_cong_mul(2, yyyy as int, 2, y4a);
    lemma_cong_mul(2, d1 as int, 2, 2 * y4a);
    lemma_cong_mul(2, d2 as int, 2, 2 * (2 * y4a));
    lemma_field_ops(field_mul(m, field_sub(s, x3)), fdouble(d2));
    lemma_cong_sub(
        field_mul(m, field_sub(s, x3)) as int,
        fdouble(d2) as int,
        ma * (sa - x3a_i),
        2 * (2 * (2 * y4a)),
    );
    let y3a_i = ma * (sa - x3a_i) - 2 * (2 * (2 * y4a));
    assert(cong(y3 as int, y3a_i));
    lemma_field_ops(yj, zj);
    lemma_field_ops(yz, yz);
    lemma_field_ops(field_mul(yz, yz), yy);
    lemma_field_ops(field_sub(field_mul(yz, yz), yy), zz);
    lemma_cong_mul(yz as int, yz as int, by + bz, by + bz);
    lemma_cong_sub(field_mul(yz, yz) as int, yy as int, (by + bz) * (by + bz), by * by);
    lemma_cong_sub(
        field_sub(field_mul(yz, yz), yy) as int,
        zz as int,
        (by + bz) * (by + bz) - by * by,
        w,
    );
    assert((by + bz) * (by + bz) - by * by - w == 2 * (by * bz)) by (nonlinear_arith)
        requires
            w == bz * bz,
    ;
    lemma_cong_mul(by, bz, yw, bz);
    lemma_cong_mul(2, by * bz, 2, yw * bz);
    let z3a_i = 2 * (yw * bz);
    assert(cong(z3 as int, z3a_i));

    // The affine result and the Jacobian identity.
    let (ax3, ay3) = affine_double_with(a, l);
    lemma_field_ops(l, l);
    lemma_field_ops(a.0, 0);
    lemma_field_ops(field_mul(l, l), fdouble(a.0));
    lemma_cong_mul(2, x, 2, x);
    lemma_cong_sub(field_mul(l, l) as int, fdouble(a.0) as int, li * li, 2 * x);
    let ax3_i = li * li - 2 * x;
    assert(cong(ax3 as int, ax3_i));
    lemma_field_ops(a.0, ax3);
    lemma_cong_sub(x, ax3 as int, x, ax3_i);
    lemma_field_ops(l, field_sub(a.0, ax3));
    lemma_cong_mul(li, field_sub(a.0, ax3) as int, li, x - ax3_i);
    lemma_field_ops(field_mul(l, field_sub(a.0, ax3)), a.1);
    lemma_cong_sub(field_mul(l, field_sub(a.0, ax3)) as int, y, li * (x - ax3_i), y);
    let ay3_i = li * (x - ax3_i) - y;
    assert(cong(ay3 as int, ay3_i));

    let zz3 = field_mul(z3, z3);
    lemma_field_ops(z3, z3);
    lemma_cong_mul(z3 as int, z3 as int, z3a_i, z3a_i);
    lemma_field_ops(ax3, zz3);
    lemma_cong_mul(ax3 as int, zz3 as int, ax3_i, z3a_i * z3a_i);
    let q = yw * bz;
    assert(q == y * (w * w)) by (nonlinear_arith)
        requires
            q == yw * bz,
            yw == y * w3,
            w3 == w * bz,
            w == bz * bz,
    ;
    assert(ma == 2 * (li * q)) by (nonlinear_arith)
        requires
            ma == (w * w) * (li * (2 * y)),
            q == y * (w * w),
    ;
    assert(q * q == (yw * yw) * w) by (nonlinear_arith)
        requires
            q == yw * bz,
            w == bz * bz,
    ;
    assert(sa == 4 * (x * (q * q))) by (nonlinear_arith)
        requires
            sa == 4 * ((x * w) * (yw * yw)),
            q * q == (yw * yw) * w,
    ;
    assert(z3a_i == 2 * q);

    let zzz3 = field_mul(zz3, z3);
    lemma_field_ops(zz3, z3);
    lemma_cong_mul(zz3 as int, z3 as int, z3a_i * z3a_i, z3a_i);
    lemma_field_ops(ay3, zzz3);
    lemma_cong_mul(ay3 as int, zzz3 as int, ay3_i, (z3a_i * z3a_i) * z3a_i);
    let c = yw * yw;
    let q2 = q * q;
    let q3 = q * q2;
    assert(q2 == c * w);
    assert(y * (q * w) == c) by (nonlinear_arith)
        requires
            q == y * (w * w),
            c == yw * yw,
            yw == y * w3,
            w3 == w * bz,
            w == bz * bz,
    ;
    assert(y4a == c * c);
    assert(y * q3 == (y * (q * w)) * c) by (nonlinear_arith)
        requires
            q3 == q * q2,
            q2 == c * w,
    ;
    assert(y4a == y * q3);
    assert(ma * ma == 4 * (li * li) * q2) by (nonlinear_arith)
        requires
            ma == 2 * (li * q),
            q2 == q * q,
    ;
    assert(x3a_i == 4 * q2 * ax3_i) by (nonlinear_arith)
        requires
            ma * ma == 4 * (li * li) * q2,
            sa == 4 * (x * q2),
            x3a_i == ma * ma - 2 * sa,
            ax3_i == li * li - 2 * x,
    ;
    assert(sa - x3a_i == 4 * q2 * (x - ax3_i)) by (nonlinear_arith)
        requires
            sa == 4 * (x * q2),
            x3a_i == 4 * q2 * ax3_i,
    ;
    assert(ma * (sa - x3a_i) == 8 * q3 * (li * (x - ax3_i))) by (nonlinear_arith)
        requires
            ma == 2 * (li * q),
            sa - x3a_i == 4 * q2 * (x - ax3_i),
            q3 == q * q2,
    ;
    assert((z3a_i * z3a_i) * z3a_i == 8 * q3) by (nonlinear_arith)
        requires
            z3a_i == 2 * q,
            q3 == q * q2,
            q2 == q * q,
    ;
    assert(y3a_i == ay3_i * ((z3a_i * z3a_i) * z3a_i)) by (nonlinear_arith)
        requires
            y3a_i == ma * (sa - x3a_i) - 2 * (2 * (2 * y4a)),
            ma * (sa - x3a_i) == 8 * q3 * (li * (x - ax3_i)),
            y4a == y * q3,
            ay3_i == li * (x - ax3_i) - y,
            (z3a_i * z3a_i) * z3a_i == 8 * q3,
    ;
    lemma_cong_eq(y3, field_mul(ay3, zzz3));
    assert(x3a_i == ax3_i * (z3a_i * z3a_i)) by (nonlinear_arith)
        requires
            x3a_i == 4 * q2 * ax3_i,
            z3a_i == 2 * q,
            q2 == q * q,
    ;
    lemma_cong_eq(x3, field_mul(ax3, zz3));
}

/// `l` is the slope of the chord through `a` and `b`: `l (x_b - x_a) = y_b - y_a`.
pub open spec fn chord_slope(a: (nat, nat), b: (nat, nat), l: nat) -> bool {
    field_mul(l, field_sub(b.0, a.0)) == field_sub(b.1, a.1)
}

/// Chord addition of two affine points along slope `l`:
/// `x3 = l^2 - x_a - x_b`, `y3 = l (x_a - x3) - y_a`.
pub open spec fn affine_add_with(a: (nat, nat), b: (nat, nat), l: nat) -> (nat, nat) {
    let x3 = field_sub(field_sub(field_mul(l, l), a.0), b.0);
    (x3, field_sub(field_mul(l, field_sub(a.0, x3)), a.1))
}

/// Adding a finite affine point `b` to a Jacobian point standing for `a`, when the
/// x-coordinates differ, stands for the chord addition of `a` and `b`.
#[verifier::spinoff_prover]
pub proof fn lemma_add_mixed_represents(j: (nat, nat, nat), a: (nat, nat), b: (nat, nat), l: nat)
    requires
        j.2 < field_prime(),
        j.2 != 0,
        represents(j, a),
        chord_slope(a, b, l),
        field_sub(field_mul(b.0, field_mul(j.2, j.2)), j.0) != 0,
    ensures
        represents(jacobian_add_mixed(j, (b.0, b.1, false)), affine_add_with(a, b, l)),
{
    let (xj, yj, zj) = j;
    let bx = xj as int;
    let by = yj as int;
    let bz = zj as int;
    let x1 = a.0 as int;
    let y1 = a.1 as int;
    let x2 = b.0 as int;
    let y2 = b.1 as int;
    let li = l as int;
    let w = bz * bz;
    let w3 = w * bz;
    let dx = x2 - x1;

    let zz = field_mul(zj, zj);
    lemma_field_ops(zj, zj);
    lemma_field_ops(a.0, zz);
    lemma_cong_mul(x1, zz as int, x1, w);
    assert(cong(bx, x1 * w));
    let zzz = field_mul(zz, zj);
    lemma_field_ops(zz, zj);
    lemma_cong_mul(zz as int, bz, w, bz);
    lemma_field_ops(a.1, zzz);
    lemma_cong_mul(y1, zzz as int, y1, w3);
    assert(cong(by, y1 * w3));
    lemma_field_ops(b.0, a.0);
    lemma_field_ops(b.1, a.1);
    lemma_field_ops(l, field_sub(b.0, a.0));
    lemma_cong_mul(li, field_sub(b.0, a.0) as int, li, dx);
    assert(cong(li * dx, y2 - y1));

    // The code's values.
    let u2 = field_mul(b.0, zz);
    let s2 = field_mul(field_mul(b.1, zj), zz);
    let h = field_sub(u2, xj);
    let r = fdouble(field_sub(s2, yj));
    lemma_field_ops(b.0, zz);
    lemma_cong_mul(x2, zz as int, x2, w);
    lemma_field_ops(u2, xj);
    lemma_cong_sub(u2 as int, bx, x2 * w, x1 * w);
    let hd = dx * w;
    assert(x2 * w - x1 * w == hd) by (nonlinear_arith)
        requires
            hd == dx * w,
            dx == x2 - x1,
    ;
    assert(cong(h as int, hd));
    lemma_field_ops(b.1, zj);
    lemma_field_ops(field_mul(b.1, zj), zz);
    lemma_cong_mul(field_mul(b.1, zj) as int, zz as int, y2 * bz, w);
    lemma_field_ops(s2, yj);
    lemma_cong_sub(s2 as int, by, (y2 * bz) * w, y1 * w3);
    assert((y2 * bz) * w - y1 * w3 == (y2 - y1) * w3) by (nonlinear_arith)
        requires
            w3 == w * bz,
    ;
    lemma_cong_mul(y2 - y1, w3, li * dx, w3);
    let q = dx * w3;
    assert((li * dx) * w3 == li * q) by (nonlinear_arith)
        requires
            q == dx * w3,
    ;
    lemma_field_ops(field_sub(s2, yj), 0);
    lemma_cong_mul(2, field_sub(s2, yj) as int, 2, li * q);
    let ri = 2 * (li * q);
    assert(cong(r as int, ri));

    let hh = field_mul(h, h);
    let i = fdouble(fdouble(hh));
    let jj = field_mul(h, i);
    let v = field_mul(xj, i);
    lemma_field_ops(h, h);
    lemma_cong_mul(h as int, h as int, hd, hd);
    lemma_field_ops(hh, 0);
    lemma_field_ops(fdouble(hh), 0);
    lemma_cong_mul(2, hh as int, 2, hd * hd);
    lemma_cong_mul(2, fdouble(hh) as int, 2, 2 * (hd * hd));
    let ii = 2 * (2 * (hd * hd));
    assert(cong(i as int, ii));
    lemma_field_ops(h, i);
    lemma_cong_mul(h as int, i as int, hd, ii);
    lemma_field_ops(xj, i);
    lemma_cong_mul(bx, i as int, x1 * w, ii);
    let jji = hd * ii;
    let vi = (x1 * w) * ii;

    let x3 = field_sub(field_sub(field_mul(r, r), jj), fdouble(v));
    let y3 = field_sub(field_mul(r, field_sub(v, x3)), fdouble(field_mul(yj, jj)));
    let zh = field_add(zj, h);
    let z3 = field_sub(field_sub(field_mul(zh, zh), zz), hh);
    assert(jacobian_add_mixed(j, (b.0, b.1, false)) == (x3, y3, z3));
    lemma_field_ops(r, r);
    lemma_cong_mul(r as int, r as int, ri, ri);
    lemma_field_ops(field_mul(r, r), jj);
    lemma_cong_sub(field_mul(r, r) as int, jj as int, ri * ri, jji);
    lemma_field_ops(v, 0);
    lemma_cong_mul(2, v as int, 2, vi);
    lemma_field_ops(field_sub(field_mul(r, r), jj), fdouble(v));
    lemma_cong_sub(field_sub(field_mul(r, r), jj) as int, fdouble(v) as int, ri * ri - jji, 2 * vi);
    let x3i = ri * ri - jji - 2 * vi;
    assert(cong(x3 as int, x3i));
    lemma_field_ops(v, x3);
    lemma_cong_sub(v as int, x3 as int, vi, x3i);
    lemma_field_ops(r, field_sub(v, x3));
    lemma_cong_mul(r as int, field_sub(v, x3) as int, ri, vi - x3i);
    lemma_field_ops(yj, jj);
    lemma_cong_mul(by, jj as int, y1 * w3, jji);
    lemma_field_ops(field_mul(yj, jj), 0);
    lemma_cong_mul(2, field_mul(yj, jj) as int, 2, (y1 * w3) * jji);
    lemma_field_ops(field_mul(r, field_sub(v, x3)), fdouble(field_mul(yj, jj)));
    lemma_cong_sub(
        field_mul(r, field_sub(v, x3)) as int,
        fdouble(field_mul(yj, jj)) as int,
        ri * (vi - x3i),
        2 * ((y1 * w3) * jji),
    );
    let y3i = ri * (vi - x3i) - 2 * ((y1 * w3) * jji);
    assert(cong(y3 as int, y3i));
    lemma_field_ops(zj, h);
    lemma_cong_add(bz, h as int, bz, hd);
    lemma_field_ops(zh, zh);
    lemma_cong_mul(zh as int, zh as int, bz + hd, bz + hd);
    lemma_field_ops(field_mul(zh, zh), zz);
    lemma_cong_sub(field_mul(zh, zh) as int, zz as int, (bz + hd) * (bz + hd), w);
    lemma_field_ops(field_sub(field_mul(zh, zh), zz), hh);
    lemma_cong_sub(
        field_sub(field_mul(zh, zh), zz) as int,
        hh as int,
        (bz + hd) * (bz + hd) - w,
        hd * hd,
    );
    assert((bz + hd) * (bz + hd) - w - hd * hd == 2 * q) by (nonlinear_arith)
        requires
            w == bz * bz,
            hd == dx * w,
            q == dx * w3,
            w3 == w * bz,
    ;
    let z3i = 2 * q;
    assert(cong(z3 as int, z3i));

    // The affine result.
    let (ax3, ay3) = affine_add_with(a, b, l);
    lemma_field_ops(l, l);
    lemma_field_ops(field_mul(l, l), a.0);
    lemma_cong_sub(field_mul(l, l) as int, x1, li * li, x1);
    lemma_field_ops(field_sub(field_mul(l, l), a.0), b.0);
    lemma_cong_sub(field_sub(field_mul(l, l), a.0) as int, x2, li * li - x1, x2);
    let ax3i = li * li - x1 - x2;
    assert(cong(ax3 as int, ax3i));
    lemma_field_ops(a.0, ax3);
    lemma_cong_sub(x1, ax3 as int, x1, ax3i);
    lemma_field_ops(l, field_sub(a.0, ax3));
    lemma_cong_mul(li, field_sub(a.0, ax3) as int, li, x1 - ax3i);
    lemma_field_ops(field_mul(l, field_sub(a.0, ax3)), a.1);
    lemma_cong_sub(field_mul(l, field_sub(a.0, ax3)) as int, y1, li * (x1 - ax3i), y1);
    let ay3i = li * (x1 - ax3i) - y1;
    assert(cong(ay3 as int, ay3i));

    // The identities.
    let q2 = q * q;
    let q3 = q * q2;
    assert(q2 == (hd * hd) * w) by (nonlinear_arith)
        requires
            q == dx * w3,
            w3 == w * bz,
            w == bz * bz,
            hd == dx * w,
            q2 == q * q,
    ;
    assert(jji == 4 * (dx * q2)) by (nonlinear_arith)
        requires
            jji == hd * ii,
            ii == 2 * (2 * (hd * hd)),
            hd == dx * w,
            q2 == (hd * hd) * w,
    ;
    assert(vi == 4 * (x1 * q2)) by (nonlinear_arith)
        requires
            vi == (x1 * w) * ii,
            ii == 2 * (2 * (hd * hd)),
            q2 == (hd * hd) * w,
    ;
    assert(ri * ri == 4 * (li * li) * q2) by (nonlinear_arith)
        requires
            ri == 2 * (li * q),
            q2 == q * q,
    ;
    assert(x3i == 4 * q2 * ax3i) by (nonlinear_arith)
        requires
            x3i == ri * ri - jji - 2 * vi,
            ri * ri == 4 * (li * li) * q2,
            jji == 4 * (dx * q2),
            vi == 4 * (x1 * q2),
            ax3i == li * li - x1 - x2,
            dx == x2 - x1,
    ;
    assert(vi - x3i == 4 * q2 * (x1 - ax3i)) by (nonlinear_arith)
        requires
            vi == 4 * (x1 * q2),
            x3i == 4 * q2 * ax3i,
    ;
    assert(ri * (vi - x3i) == 8 * q3 * (li * (x1 - ax3i))) by (nonlinear_arith)
        requires
            ri == 2 * (li * q),
            vi - x3i == 4 * q2 * (x1 - ax3i),
            q3 == q * q2,
    ;
    assert((y1 * w3) * jji == 4 * (y1 * q3)) by (nonlinear_arith)
        requires
            jji == 4 * (dx * q2),
            q == dx * w3,
            q3 == q * q2,
    ;
    assert(y3i == ay3i * ((z3i * z3i) * z3i)) by (nonlinear_arith)
        requires
            y3i == ri * (vi - x3i) - 2 * ((y1 * w3) * jji),
            ri * (vi - x3i) == 8 * q3 * (li * (x1 - ax3i)),
            (y1 * w3) * jji == 4 * (y1 * q3),
            ay3i == li * (x1 - ax3i) - y1,
            z3i == 2 * q,
            q3 == q * q2,
            q2 == q * q,
    ;
    assert(x3i == ax3i * (z3i * z3i)) by (nonlinear_arith)
        requires
            x3i == 4 * q2 * ax3i,
            z3i == 2 * q,
            q2 == q * q,
    ;
    let zz3 = field_mul(z3, z3);
    lemma_field_ops(z3, z3);
    lemma_cong_mul(z3 as int, z3 as int, z3i, z3i);
    lemma_field_ops(ax3, zz3);
    lemma_cong_mul(ax3 as int, zz3 as int, ax3i, z3i * z3i);
    lemma_cong_eq(x3, field_mul(ax3, zz3));
    let zzz3 = field_mul(zz3, z3);
    lemma_field_ops(zz3, z3);
    lemma_cong_mul(zz3 as int, z3 as int, z3i * z3i, z3i);
    lemma_field_ops(ay3, zzz3);
    lemma_cong_mul(ay3 as int, zzz3 as int, ay3i, (z3i * z3i) * z3i);
    lemma_cong_eq(y3, field_mul(ay3, zzz3));
}

/// From `represents`: the coordinates are congruent to `x Z^2` and `y Z^3`.
proof fn lemma_represents_cong(j: (nat, nat, nat), a: (nat, nat))
    requires
        represents(j, a),
    ensures
        cong(j.0 as int, a.0 as int * (j.2 as int * j.2 as int)),
        cong(j.1 as int, a.1 as int * ((j.2 as int * j.2 as int) * j.2 as int)),
{
    let bz = j.2 as int;
    let zz = field_mul(j.2, j.2);
    lemma_field_ops(j.2, j.2);
    lemma_field_ops(a.0, zz);
    lemma_cong_mul(a.0 as int, zz as int, a.0 as int, bz * bz);
    let zzz = field_mul(zz, j.2);
    lemma_field_ops(zz, j.2);
    lemma_cong_mul(zz as int, bz, bz * bz, bz);
    lemma_field_ops(a.1, zzz);
    lemma_cong_mul(a.1 as int, zzz as int, a.1 as int, (bz * bz) * bz);
}

/// Adding two Jacobian points standing for `a` and `b`, when their x-coordinates
/// differ, stands for the chord addition of `a` and `b`.
#[verifier::spinoff_prover]
pub proof fn lemma_add_represents(j1: (nat, nat, nat), j2: (nat, nat, nat), a: (nat, nat), b: (nat, nat), l: nat)
    requires
        j1.2 < field_prime(),
        j2.2 < field_prime(),
        j1.2 != 0,
        j2.2 != 0,
        represents(j1, a),
        represents(j2, b),
        chord_slope(a, b, l),
        field_mul(j1.0, field_mul(j2.2, j2.2)) != field_mul(j2.0, field_mul(j1.2, j1.2)),
    ensures
        represents(jacobian_add(j1, j2), affine_add_with(a, b, l)),
{
    let z1 = j1.2 as int;
    let z2 = j2.2 as int;
    let x1 = a.0 as int;
    let y1 = a.1 as int;
    let x2 = b.0 as int;
    let y2 = b.1 as int;
    let li = l as int;
    let t = z1 * z2;
    let w = t * t;
    let w3 = w * t;
    let dx = x2 - x1;
    lemma_represents_cong(j1, a);
    lemma_represents_cong(j2, b);
    lemma_field_ops(b.0, a.0);
    lemma_field_ops(b.1, a.1);
    lemma_field_ops(l, field_sub(b.0, a.0));
    lemma_cong_mul(li, field_sub(b.0, a.0) as int, li, dx);
    assert(cong(li * dx, y2 - y1));

    let z1z1 = field_mul(j1.2, j1.2);
    let z2z2 = field_mul(j2.2, j2.2);
    let u1 = field_mul(j1.0, z2z2);
    let u2 = field_mul(j2.0, z1z1);
    let s1 = field_mul(field_mul(j1.1, j2.2), z2z2);
    let s2 = field_mul(field_mul(j2.1, j1.2), z1z1);
    lemma_field_ops(j1.2, j1.2);
    lemma_field_ops(j2.2, j2.2);
    lemma_field_ops(j1.0, z2z2);
    lemma_field_ops(j2.0, z1z1);
    lemma_cong_mul(j1.0 as int, z2z2 as int, x1 * (z1 * z1), z2 * z2);
    lemma_cong_mul(j2.0 as int, z1z1 as int, x2 * (z2 * z2), z1 * z1);
    assert((x1 * (z1 * z1)) * (z2 * z2) == x1 * w && (x2 * (z2 * z2)) * (z1 * z1) == x2 * w)
        by (nonlinear_arith)
        requires
            t == z1 * z2,
            w == t * t,
    ;
    assert(cong(u1 as int, x1 * w));
    assert(cong(u2 as int, x2 * w));
    lemma_field_ops(j1.1, j2.2);
    lemma_cong_mul(j1.1 as int, z2, y1 * ((z1 * z1) * z1), z2);
    lemma_field_ops(field_mul(j1.1, j2.2), z2z2);
    lemma_cong_mul(field_mul(j1.1, j2.2) as int, z2z2 as int, (y1 * ((z1 * z1) * z1)) * z2, z2 * z2);
    lemma_field_ops(j2.1, j1.2);
    lemma_cong_mul(j2.1 as int, z1, y2 * ((z2 * z2) * z2), z1);
    lemma_field_ops(field_mul(j2.1, j1.2), z1z1);
    lemma_cong_mul(field_mul(j2.1, j1.2) as int, z1z1 as int, (y2 * ((z2 * z2) * z2)) * z1, z1 * z1);
    assert(((y1 * ((z1 * z1) * z1)) * z2) * (z2 * z2) == y1 * w3 && ((y2 * ((z2 * z2) * z2)) * z1)
        * (z1 * z1) == y2 * w3) by (nonlinear_arith)
        requires
            t == z1 * z2,
            w == t * t,
            w3 == w * t,
    ;
    assert(cong(s1 as int, y1 * w3));
    assert(cong(s2 as int, y2 * w3));

    let h = field_sub(u2, u1);
    let r = fdouble(field_sub(s2, s1));
    lemma_field_ops(u2, u1);
    lemma_cong_sub(u2 as int, u1 as int, x2 * w, x1 * w);
    let hd = dx * w;
    assert(x2 * w - x1 * w == hd) by (nonlinear_arith)
        requires
            hd == dx * w,
            dx == x2 - x1,
    ;
    assert(cong(h as int, hd));
    lemma_field_ops(s2, s1);
    lemma_cong_sub(s2 as int, s1 as int, y2 * w3, y1 * w3);
    assert(y2 * w3 - y1 * w3 == (y2 - y1) * w3) by (nonlinear_arith);
    lemma_cong_mul(y2 - y1, w3, li * dx, w3);
    let q = dx * w3;
    assert((li * dx) * w3 == li * q) by (nonlinear_arith)
        requires
            q == dx * w3,
    ;
    lemma_field_ops(field_sub(s2, s1), 0);
    lemma_cong_mul(2, field_sub(s2, s1) as int, 2, li * q);
    let ri = 2 * (li * q);
    assert(cong(r as int, ri));

    let i = field_mul(fdouble(h), fdouble(h));
    let jj = field_mul(h, i);
    let v = field_mul(u1, i);
    lemma_field_ops(h, 0);
    lemma_cong_mul(2, h as int, 2, hd);
    lemma_field_ops(fdouble(h), fdouble(h));
    lemma_cong_mul(fdouble(h) as int, fdouble(h) as int, 2 * hd, 2 * hd);
    let ii = (2 * hd) * (2 * hd);
    assert(cong(i as int, ii));
    lemma_field_ops(h, i);
    lemma_cong_mul(h as int, i as int, hd, ii);
    lemma_field_ops(u1, i);
    lemma_cong_mul(u1 as int, i as int, x1 * w, ii);
    let jji = hd * ii;
    let vi = (x1 * w) * ii;

    let x3 = field_sub(field_sub(field_mul(r, r), jj), fdouble(v));
    let y3 = field_sub(field_mul(r, field_sub(v, x3)), fdouble(field_mul(s1, jj)));
    let zs = field_add(j1.2, j2.2);
    let zc = field_sub(field_sub(field_mul(zs, zs), z1z1), z2z2);
    let z3 = field_mul(zc, h);
    assert(jacobian_add(j1, j2) == (x3, y3, z3));
    lemma_field_ops(r, r);
    lemma_cong_mul(r as int, r as int, ri, ri);
    lemma_field_ops(field_mul(r, r), jj);
    lemma_cong_sub(field_mul(r, r) as int, jj as int, ri * ri, jji);
    lemma_field_ops(v, 0);
    lemma_cong_mul(2, v as int, 2, vi);
    lemma_field_ops(field_sub(field_mul(r, r), jj), fdouble(v));
    lemma_cong_sub(field_sub(field_mul(r, r), jj) as int, fdouble(v) as int, ri * ri - jji, 2 * vi);
    let x3i = ri * ri - jji - 2 * vi;
    assert(cong(x3 as int, x3i));
    lemma_field_ops(v, x3);
    lemma_cong_sub(v as int, x3 as int, vi, x3i);
    lemma_field_ops(r, field_sub(v, x3));
    lemma_cong_mul(r as int, field_sub(v, x3) as int, ri, vi - x3i);
    lemma_field_ops(s1, jj);
    lemma_cong_mul(s1 as int, jj as int, y1 * w3, jji);
    lemma_field_ops(field_mul(s1, jj), 0);
    lemma_cong_mul(2, field_mul(s1, jj) as int, 2, (y1 * w3) * jji);
    lemma_field_ops(field_mul(r, field_sub(v, x3)), fdouble(field_mul(s1, jj)));
    lemma_cong_sub(
        field_mul(r, field_sub(v, x3)) as int,
        fdouble(field_mul(s1, jj)) as int,
        ri * (vi - x3i),
        2 * ((y1 * w3) * jji),
    );
    let y3i = ri * (vi - x3i) - 2 * ((y1 * w3) * jji);
    assert(cong(y3 as int, y3i));
    lemma_field_ops(j1.2, j2.2);
    lemma_field_ops(zs, zs);
    lemma_cong_mul(zs as int, zs as int, z1 + z2, z1 + z2);
    lemma_field_ops(field_mul(zs, zs), z1z1);
    lemma_cong_sub(field_mul(zs, zs) as int, z1z1 as int, (z1 + z2) * (z1 + z2), z1 * z1);
    lemma_field_ops(field_sub(field_mul(zs, zs), z1z1), z2z2);
    lemma_cong_sub(
        field_sub(field_mul(zs, zs), z1z1) as int,
        z2z2 as int,
        (z1 + z2) * (z1 + z2) - z1 * z1,
        z2 * z2,
    );
    assert((z1 + z2) * (z1 + z2) - z1 * z1 - z2 * z2 == 2 * t) by (nonlinear_arith)
        requires
            t == z1 * z2,
    ;
    lemma_field_ops(zc, h);
    lemma_cong_mul(zc as int, h as int, 2 * t, hd);
    assert((2 * t) * hd == 2 * q) by (nonlinear_arith)
        requires
            hd == dx * w,
            q == dx * w3,
            w3 == w * t,
    ;
    let z3i = 2 * q;
    assert(cong(z3 as int, z3i));

    let (ax3, ay3) = affine_add_with(a, b, l);
    lemma_field_ops(l, l);
    lemma_field_ops(field_mul(l, l), a.0);
    lemma_cong_sub(field_mul(l, l) as int, x1, li * li, x1);
    lemma_field_ops(field_sub(field_mul(l, l), a.0), b.0);
    lemma_cong_sub(field_sub(field_mul(l, l), a.0) as int, x2, li * li - x1, x2);
    let ax3i = li * li - x1 - x2;
    assert(cong(ax3 as int, ax3i));
    lemma_field_ops(a.0, ax3);
    lemma_cong_sub(x1, ax3 as int, x1, ax3i);
    lemma_field_ops(l, field_sub(a.0, ax3));
    lemma_cong_mul(li, field_sub(a.0, ax3) as int, li, x1 - ax3i);
    lemma_field_ops(field_mul(l, field_sub(a.0, ax3)), a.1);
    lemma_cong_sub(field_mul(l, field_sub(a.0, ax3)) as int, y1, li * (x1 - ax3i), y1);
    let ay3i = li * (x1 - ax3i) - y1;
    assert(cong(ay3 as int, ay3i));

    let q2 = q * q;
    let q3 = q * q2;
    assert(q2 == (hd * hd) * w) by (nonlinear_arith)
        requires
            q == dx * w3,
            w3 == w * t,
            w == t * t,
            hd == dx * w,
            q2 == q * q,
    ;
    assert(jji == 4 * (dx * q2)) by (nonlinear_arith)
        requires
            jji == hd * ii,
            ii == (2 * hd) * (2 * hd),
            hd == dx * w,
            q2 == (hd * hd) * w,
    ;
    assert(vi == 4 * (x1 * q2)) by (nonlinear_arith)
        requires
            vi == (x1 * w) * ii,
            ii == (2 * hd) * (2 * hd),
            q2 == (hd * hd) * w,
    ;
    assert(ri * ri == 4 * (li * li) * q2) by (nonlinear_arith)
        requires
            ri == 2 * (li * q),
            q2 == q * q,
    ;
    assert(x3i == 4 * q2 * ax3i) by (nonlinear_arith)
        requires
            x3i == ri * ri - jji - 2 * vi,
            ri * ri == 4 * (li * li) * q2,
            jji == 4 * (dx * q2),
            vi == 4 * (x1 * q2),
            ax3i == li * li - x1 - x2,
            dx == x2 - x1,
    ;
    assert(vi - x3i == 4 * q2 * (x1 - ax3i)) by (nonlinear_arith)
        requires
            vi == 4 * (x1 * q2),
            x3i == 4 * q2 * ax3i,
    ;
    assert(ri * (vi - x3i) == 8 * q3 * (li * (x1 - ax3i))) by (nonlinear_arith)
        requires
            ri == 2 * (li * q),
            vi - x3i == 4 * q2 * (x1 - ax3i),
            q3 == q * q2,
    ;
    assert((y1 * w3) * jji == 4 * (y1 * q3)) by (nonlinear_arith)
        requires
            jji == 4 * (dx * q2),
            q == dx * w3,
            q3 == q * q2,
    ;
    assert(y3i == ay3i * ((z3i * z3i) * z3i)) by (nonlinear_arith)
        requires
            y3i == ri * (vi - x3i) - 2 * ((y1 * w3) * jji),
            ri * (vi - x3i) == 8 * q3 * (li * (x1 - ax3i)),
            (y1 * w3) * jji == 4 * (y1 * q3),
            ay3i == li * (x1 - ax3i) - y1,
            z3i == 2 * q,
            q3 == q * q2,
            q2 == q * q,
    ;
    assert(x3i == ax3i * (z3i * z3i)) by (nonlinear_arith)
        requires
            x3i == 4 * q2 * ax3i,
            z3i == 2 * q,
            q2 == q * q,
    ;
    let zz3 = field_mul(z3, z3);
    lemma_field_ops(z3, z3);
    lemma_cong_mul(z3 as int, z3 as int, z3i, z3i);
    lemma_field_ops(ax3, zz3);
    lemma_cong_mul(ax3 as int, zz3 as int, ax3i, z3i * z3i);
    lemma_cong_eq(x3, field_mul(ax3, zz3));
    let zzz3 = field_mul(zz3, z3);
    lemma_field_ops(zz3, z3);
    lemma_cong_mul(zz3 as int, z3 as int, z3i * z3i, z3i);
    lemma_field_ops(ay3, zzz3);
    lemma_cong_mul(ay3 as int, zzz3 as int, ay3i, (z3i * z3i) * z3i);
    lemma_cong_eq(y3, field_mul(ay3, zzz3));
}

/// A slope of the chord from `a` to `b` is one from `b` to `a`.
#[verifier::spinoff_prover]
#[verifier::rlimit(40)]
proof fn lemma_slope_symmetric(a: (nat, nat), b: (nat, nat), l: nat)
    requires
        chord_slope(a, b, l),
    ensures
        chord_slope(b, a, l),
{
    let li = l as int;
    let d = b.0 as int - a.0 as int;
    let e = b.1 as int - a.1 as int;
    lemma_field_ops(b.0, a.0);
    lemma_field_ops(b.1, a.1);
    lemma_field_ops(a.0, b.0);
    lemma_field_ops(a.1, b.1);
    lemma_field_ops(l, field_sub(b.0, a.0));
    lemma_field_ops(l, field_sub(a.0, b.0));
    lemma_cong_mul(li, field_sub(b.0, a.0) as int, li, d);
    lemma_cong_mul(li, field_sub(a.0, b.0) as int, li, 0 - d);
    assert(li * (0 - d) == 0 - li * d) by (nonlinear_arith);
    lemma_cong_sub(0, li * d, 0, e);
    lemma_cong_eq(field_mul(l, field_sub(a.0, b.0)), field_sub(a.1, b.1));
}

/// The x-coordinate of a chord sum does not depend on the order of the points.
#[verifier::spinoff_prover]
proof fn lemma_chord_x_symmetric(x1: nat, x2: nat, ll: nat)
    ensures
        field_sub(field_sub(ll, x1), x2) == field_sub(field_sub(ll, x2), x1),
{
    lemma_field_ops(ll, x1);
    lemma_field_ops(ll, x2);
    lemma_field_ops(field_sub(ll, x1), x2);
    lemma_field_ops(field_sub(ll, x2), x1);
    lemma_cong_sub(field_sub(ll, x1) as int, x2 as int, ll as int - x1 as int, x2 as int);
    lemma_cong_sub(field_sub(ll, x2) as int, x1 as int, ll as int - x2 as int, x1 as int);
    lemma_cong_eq(field_sub(field_sub(ll, x1), x2), field_sub(field_sub(ll, x2), x1));
}

/// `l (x_a - x3) - y_a = l (x_b - x3) - y_b` when `l` is a slope of the chord.
#[verifier::spinoff_prover]
proof fn lemma_chord_y_symmetric(a: (nat, nat), b: (nat, nat), l: nat, x3: nat)
    requires
        chord_slope(a, b, l),
    ensures
        field_sub(field_mul(l, field_sub(a.0, x3)), a.1) == field_sub(field_mul(l, field_sub(b.0, x3)), b.1),
{
    let li = l as int;
    let x1 = a.0 as int;
    let y1 = a.1 as int;
    let x2 = b.0 as int;
    let y2 = b.1 as int;
    let x3i = x3 as int;
    lemma_field_ops(b.0, a.0);
    lemma_field_ops(b.1, a.1);
    lemma_field_ops(l, field_sub(b.0, a.0));
    lemma_cong_mul(li, field_sub(b.0, a.0) as int, li, x2 - x1);
    let p1 = li * (x1 - x3i) - y1;
    let p2 = li * (x2 - x3i) - y2;
    let e = (y2 - y1) - li * (x2 - x1);
    lemma_cong_sub(y2 - y1, li * (x2 - x1), li * (x2 - x1), li * (x2 - x1));
    assert(p1 == p2 + e) by (nonlinear_arith)
        requires
            p1 == li * (x1 - x3i) - y1,
            p2 == li * (x2 - x3i) - y2,
            e == (y2 - y1) - li * (x2 - x1),
    ;
    lemma_cong_add(p2, e, p2, 0);
    lemma_field_ops(a.0, x3);
    lemma_field_ops(b.0, x3);
    lemma_field_ops(l, field_sub(a.0, x3));
    lemma_field_ops(l, field_sub(b.0, x3));
    lemma_cong_mul(li, field_sub(a.0, x3) as int, li, x1 - x3i);
    lemma_cong_mul(li, field_sub(b.0, x3) as int, li, x2 - x3i);
    lemma_field_ops(field_mul(l, field_sub(a.0, x3)), a.1);
    lemma_field_ops(field_mul(l, field_sub(b.0, x3)), b.1);
    lemma_cong_sub(field_mul(l, field_sub(a.0, x3)) as int, y1, li * (x1 - x3i), y1);
    lemma_cong_sub(field_mul(l, field_sub(b.0, x3)) as int, y2, li * (x2 - x3i), y2);
    lemma_cong_eq(
        field_sub(field_mul(l, field_sub(a.0, x3)), a.1),
        field_sub(field_mul(l, field_sub(b.0, x3)), b.1),
    );
}

/// Chord addition does not depend on the order of the points: a slope of the chord from
/// `a` to `b` is one from `b` to `a`, and both orders give the same point.
pub proof fn lemma_affine_add_commutes(a: (nat, nat), b: (nat, nat), l: nat)
    requires
        chord_slope(a, b, l),
    ensures
        chord_slope(b, a, l),
        affine_add_with(a, b, l) == affine_add_with(b, a, l),
{
    lemma_slope_symmetric(a, b, l);
    let ll = field_mul(l, l);
    lemma_chord_x_symmetric(a.0, b.0, ll);
    let x3 = field_sub(field_sub(ll, a.0), b.0);
    lemma_chord_y_symmetric(a, b, l, x3);
}

/// Adding the identity on either side leaves a point unchanged.
pub proof fn lemma_add_identity(j: (nat, nat, nat))
    ensures
        jacobian_add(j, jacobian_identity()) == j || j.2 == 0,
        jacobian_add(jacobian_identity(), j) == j,
{
}

/// Mixed addition of a finite affine point gives exactly what general addition gives
/// for the same point lifted with `Z = 1`.
#[verifier::spinoff_prover]
pub proof fn lemma_add_mixed_agrees(j: (nat, nat, nat), a: (nat, nat, bool))
    requires
        j.0 < field_prime(),
        j.1 < field_prime(),
        j.2 < field_prime(),
        a.0 < field_prime(),
        a.1 < field_prime(),
        !a.2,
    ensures
        jacobian_add_mixed(j, a) == jacobian_add(j, affine_to_jacobian(a)),
{
    let m = field_prime() as int;
    let (x1, y1, z1) = j;
    if z1 != 0 {
        let q = affine_to_jacobian(a);
        assert(q == (a.0, a.1, 1nat));
        lemma_small_mod(1, field_prime());
        lemma_small_mod(x1, field_prime());
        lemma_small_mod(y1, field_prime());
        assert(field_mul(1, 1) == 1);
        assert(field_mul(x1, 1) == x1);
        assert(field_mul(y1, 1) == y1);
        let z1z1 = field_mul(z1, z1);
        let u2 = field_mul(a.0, z1z1);
        let s2 = field_mul(field_mul(a.1, z1), z1z1);
        let h = field_sub(u2, x1);
        let d = field_sub(s2, y1);
        lemma_field_ops(u2, x1);
        lemma_field_ops(s2, y1);
        lemma_field_ops(d, 0);
        assert(u2 < field_prime());
        assert(s2 < field_prime());
        // `h` and `2 d` vanish exactly when the inputs agree.
        assert(h == 0 <==> u2 == x1) by {
            if h == 0 {
                lemma_small_mod(u2, field_prime());
                lemma_small_mod(x1, field_prime());
            }
            if u2 != x1 {
                let e = u2 as int - x1 as int;
                if e > 0 {
                    lemma_small_mod(e as nat, field_prime());
                } else {
                    vstd::arithmetic::div_mod::lemma_fundamental_div_mod_converse(e, m, -1, e + m);
                }
            }
        }
        assert(d == 0 <==> s2 == y1) by {
            if d == 0 {
                lemma_small_mod(s2, field_prime());
                lemma_small_mod(y1, field_prime());
            }
            if s2 != y1 {
                let e = s2 as int - y1 as int;
                if e > 0 {
                    lemma_small_mod(e as nat, field_prime());
                } else {
                    vstd::arithmetic::div_mod::lemma_fundamental_div_mod_converse(e, m, -1, e + m);
                }
            }
        }
        assert(fdouble(d) == 0 <==> d == 0) by {
            let dd = d as int;
            if dd + dd < m {
                lemma_small_mod((dd + dd) as nat, field_prime());
            } else {
                vstd::arithmetic::div_mod::lemma_fundamental_div_mod_converse(dd + dd, m, 1, dd + dd - m);
            }
        }
        if h != 0 {
            let hh = field_mul(h, h);
            let i_mixed = fdouble(fdouble(hh));
            let i_general = field_mul(fdouble(h), fdouble(h));
            lemma_field_ops(h, h);
            lemma_field_ops(h, 0);
            lemma_field_ops(hh, 0);
            lemma_field_ops(fdouble(hh), 0);
            lemma_field_ops(fdouble(h), fdouble(h));
            let hi = h as int;
            lemma_cong_mul(2, hh as int, 2, hi * hi);
            lemma_cong_mul(2, fdouble(hh) as int, 2, 2 * (hi * hi));
            lemma_cong_mul(fdouble(h) as int, fdouble(h) as int, 2 * hi, 2 * hi);
            assert((2 * hi) * (2 * hi) == 2 * (2 * (hi * hi))) by (nonlinear_arith);
            lemma_cong_eq(i_mixed, i_general);

            let zh = field_add(z1, h);
            let z3_mixed = field_sub(field_sub(field_mul(zh, zh), z1z1), hh);
            let zs = field_add(z1, 1);
            let zc = field_sub(field_sub(field_mul(zs, zs), z1z1), 1);
            let z3_general = field_mul(zc, h);
            let zi = z1 as int;
            lemma_field_ops(z1, z1);
            lemma_field_ops(z1, h);
            lemma_field_ops(zh, zh);
            lemma_field_ops(field_mul(zh, zh), z1z1);
            lemma_field_ops(field_sub(field_mul(zh, zh), z1z1), hh);
            lemma_cong_mul(zh as int, zh as int, zi + hi, zi + hi);
            lemma_cong_sub(field_mul(zh, zh) as int, z1z1 as int, (zi + hi) * (zi + hi), zi * zi);
            lemma_cong_sub(
                field_sub(field_mul(zh, zh), z1z1) as int,
                hh as int,
                (zi + hi) * (zi + hi) - zi * zi,
                hi * hi,
            );
            assert((zi + hi) * (zi + hi) - zi * zi - hi * hi == 2 * (zi * hi)) by (nonlinear_arith);
            lemma_field_ops(z1, 1);
            lemma_field_ops(zs, zs);
            lemma_field_ops(field_mul(zs, zs), z1z1);
            lemma_field_ops(field_sub(field_mul(zs, zs), z1z1), 1);
            lemma_field_ops(zc, h);
            lemma_cong_mul(zs as int, zs as int, zi + 1, zi + 1);
            lemma_cong_sub(field_mul(zs, zs) as int, z1z1 as int, (zi + 1) * (zi + 1), zi * zi);
            lemma_cong_sub(
                field_sub(field_mul(zs, zs), z1z1) as int,
                1,
                (zi + 1) * (zi + 1) - zi * zi,
                1,
            );
            assert((zi + 1) * (zi + 1) - zi * zi - 1 == 2 * zi) by (nonlinear_arith);
            lemma_cong_mul(zc as int, hi, 2 * zi, hi);
            assert((2 * zi) * hi == 2 * (zi * hi)) by (nonlinear_arith);
            lemma_cong_eq(z3_mixed, z3_general);
        }
    }
}

/// Every coordinate of a Jacobian point is reduced.
pub open spec fn jacobian_reduced(j: (nat, nat, nat)) -> bool {
    j.0 < field_prime() && j.1 < field_prime() && j.2 < field_prime()
}

/// Doubling and addition keep coordinates reduced.
pub proof fn lemma_ops_reduced(j: (nat, nat, nat), k: (nat, nat, nat))
    requires
        jacobian_reduced(j),
        jacobian_reduced(k),
    ensures
        jacobian_reduced(jacobian_double(j)),
        jacobian_reduced(jacobian_add(j, k)),
{
}

/// Adding a finite affine point again and again with mixed addition gives the same
/// points as adding its lift with `Z = 1` with general addition.
pub proof fn lemma_mixed_multiple_agrees(a: (nat, nat, bool), i: nat)
    requires
        a.0 < field_prime(),
        a.1 < field_prime(),
        !a.2,
    ensures
        mixed_multiple(a, i) == jacobian_multiple(affine_to_jacobian(a), i),
        jacobian_reduced(mixed_multiple(a, i)),
    decreases i,
{
    if i > 0 {
        lemma_mixed_multiple_agrees(a, (i - 1) as nat);
        let prev = mixed_multiple(a, (i - 1) as nat);
        lemma_add_mixed_agrees(prev, a);
        lemma_ops_reduced(prev, affine_to_jacobian(a));
    }
}

/// The table of sixteen multiples behind `mul_affine_scalar_vartime` holds, before
/// normalisation, the multiples that `mul_scalar_vartime` uses for the lifted point.
pub proof fn lemma_window4_points_are_multiples(a: (nat, nat, bool))
    requires
        a.0 < field_prime(),
        a.1 < field_prime(),
        !a.2,
    ensures
        window4_points(a) == Seq::new(16, |j: int| jacobian_multiple(affine_to_jacobian(a), j as nat)),
{
    assert forall|j: int| 0 <= j < 16 implies window4_points(a)[j] == jacobian_multiple(
        affine_to_jacobian(a),
        j as nat,
    ) by {
        lemma_mixed_multiple_agrees(a, j as nat);
    }
    assert(window4_points(a) =~= Seq::new(16, |j: int| jacobian_multiple(affine_to_jacobian(a), j as nat)));
}

/// `curve_rhs(x)` is congruent to `x^3 - 3x + b`.
proof fn lemma_curve_rhs_cong(x: nat)
    ensures
        cong(curve_rhs(x) as int, x as int * x as int * x as int - 3 * (x as int) + curve_b() as int),
{
    let xi = x as int;
    let xx = field_mul(x, x);
    lemma_field_ops(x, x);
    lemma_field_ops(xx, x);
    lemma_cong_mul(xx as int, xi, xi * xi, xi);
    lemma_field_ops(x, 0);
    lemma_field_ops(field_mul(xx, x), ftriple(x));
    lemma_cong_sub(field_mul(xx, x) as int, ftriple(x) as int, xi * xi * xi, 3 * xi);
    let d = field_sub(field_mul(xx, x), ftriple(x));
    lemma_field_ops(d, curve_b());
    lemma_cong_add(d as int, curve_b() as int, xi * xi * xi - 3 * xi, curve_b() as int);
}

/// Tangent doubling of a point on the curve stays on the curve.
#[verifier::spinoff_prover]
pub proof fn lemma_double_on_curve(a: (nat, nat), l: nat)
    requires
        a.0 < field_prime(),
        a.1 < field_prime(),
        on_curve(a.0, a.1),
        tangent_slope(a, l),
    ensures
        on_curve(affine_double_with(a, l).0, affine_double_with(a, l).1),
{
    let x = a.0 as int;
    let y = a.1 as int;
    let li = l as int;
    let b = curve_b() as int;
    let (ax3, ay3) = affine_double_with(a, l);

    // The hypotheses as congruences: `g0 = x^3 - 3x + b - y^2 = 0`, `g1 = 3x^2 - 3 - 2ly = 0`.
    lemma_curve_rhs_cong(a.0);
    lemma_field_ops(a.1, a.1);
    let g0 = x * x * x - 3 * x + b - y * y;
    lemma_cong_sub(x * x * x - 3 * x + b, y * y, y * y, y * y);
    assert(cong(g0, 0));
    let ax2 = field_mul(a.0, a.0);
    lemma_field_ops(a.0, a.0);
    lemma_field_ops(ax2, 0);
    lemma_field_ops(ftriple(ax2), 3);
    lemma_field_ops(a.1, 0);
    lemma_field_ops(l, fdouble(a.1));
    lemma_cong_mul(li, fdouble(a.1) as int, li, 2 * y);
    lemma_cong_mul(3, ax2 as int, 3, x * x);
    lemma_cong_sub(ftriple(ax2) as int, 3, 3 * (x * x), 3);
    let g1 = 3 * (x * x) - 3 - li * (2 * y);
    lemma_cong_sub(3 * (x * x) - 3, li * (2 * y), li * (2 * y), li * (2 * y));
    assert(cong(g1, 0));

    // The new coordinates as integers.
    lemma_field_ops(l, l);
    lemma_field_ops(a.0, 0);
    lemma_field_ops(field_mul(l, l), fdouble(a.0));
    lemma_cong_mul(2, x, 2, x);
    lemma_cong_sub(field_mul(l, l) as int, fdouble(a.0) as int, li * li, 2 * x);
    let x3 = li * li - 2 * x;
    assert(cong(ax3 as int, x3));
    lemma_field_ops(a.0, ax3);
    lemma_cong_sub(x, ax3 as int, x, x3);
    lemma_field_ops(l, field_sub(a.0, ax3));
    lemma_cong_mul(li, field_sub(a.0, ax3) as int, li, x - x3);
    lemma_field_ops(field_mul(l, field_sub(a.0, ax3)), a.1);
    lemma_cong_sub(field_mul(l, field_sub(a.0, ax3)) as int, y, li * (x - x3), y);
    let y3 = li * (x - x3) - y;
    assert(cong(ay3 as int, y3));

    // `x3^3 - 3 x3 + b - y3^2 = g1 (x3 - x) + g0`, a polynomial identity.
    let u = li * li - 3 * x;
    assert(x3 == x + u);
    assert(y3 == 0 - (li * u + y)) by (nonlinear_arith)
        requires
            y3 == li * (x - x3) - y,
            x3 == x + u,
    ;
    let c3 = x * x * x + 3 * (x * x) * u + 3 * x * (u * u) + u * u * u;
    assert(x3 * x3 * x3 == c3) by (nonlinear_arith)
        requires
            x3 == x + u,
            c3 == x * x * x + 3 * (x * x) * u + 3 * x * (u * u) + u * u * u,
    ;
    let lu = li * u;
    assert(y3 * y3 == lu * lu + 2 * lu * y + y * y) by (nonlinear_arith)
        requires
            y3 == 0 - (lu + y),
    ;
    assert(lu * lu == u * u * u + 3 * x * (u * u)) by (nonlinear_arith)
        requires
            lu == li * u,
            li * li == u + 3 * x,
    ;
    assert(2 * lu * y == u * (li * (2 * y))) by (nonlinear_arith)
        requires
            lu == li * u,
    ;
    assert(3 * (x * x) * u == u * (3 * (x * x))) by (nonlinear_arith);
    assert(g1 * (x3 - x) == u * (3 * (x * x)) - 3 * u - u * (li * (2 * y))) by (nonlinear_arith)
        requires
            g1 == 3 * (x * x) - 3 - li * (2 * y),
            x3 - x == u,
    ;
    assert(x3 * x3 * x3 - 3 * x3 + b - y3 * y3 == g1 * (x3 - x) + g0);
    lemma_cong_mul(g1, x3 - x, 0, x3 - x);
    lemma_cong_add(g1 * (x3 - x), g0, 0 * (x3 - x), 0);
    assert(cong(x3 * x3 * x3 - 3 * x3 + b - y3 * y3, 0));
    lemma_cong_add(x3 * x3 * x3 - 3 * x3 + b - y3 * y3, y3 * y3, 0, y3 * y3);

    // Back to the field values.
    lemma_field_ops(ay3, ay3);
    lemma_cong_mul(ay3 as int, ay3 as int, y3, y3);
    lemma_curve_rhs_cong(ax3);
    lemma_cong_mul(ax3 as int, ax3 as int, x3, x3);
    lemma_cong_mul(ax3 as int * ax3 as int, ax3 as int, x3 * x3, x3);
    lemma_cong_mul(3, ax3 as int, 3, x3);
    lemma_cong_sub(ax3 as int * ax3 as int * ax3 as int, 3 * (ax3 as int), x3 * x3 * x3, 3 * x3);
    lemma_cong_add(
        ax3 as int * ax3 as int * ax3 as int - 3 * (ax3 as int),
        b,
        x3 * x3 * x3 - 3 * x3,
        b,
    );
    lemma_cong_eq(field_mul(ay3, ay3), curve_rhs(ax3));
}

} // verus!
