//! Facts about residues modulo a positive modulus, used by the Montgomery
//! representations of the base field and the scalar field.
#![allow(unused_imports)]

use vstd::arithmetic::div_mod::*;
use vstd::arithmetic::mul::*;
use vstd::prelude::*;

verus! {

/// The residue of `(a + b)` is the residue of the sum of residues, through a Montgomery factor.
pub proof fn lemma_mont_add(la: int, lb: int, m: int, ri: int)
    requires
        m > 0,
    ensures
        (((la + lb) % m) * ri) % m == ((la * ri) % m + (lb * ri) % m) % m,
{
    lemma_mul_mod_noop_left(la + lb, ri, m);
    lemma_mul_is_distributive_add_other_way(ri, la, lb);
    lemma_add_mod_noop(la * ri, lb * ri, m);
}

pub proof fn lemma_mont_sub(la: int, lb: int, m: int, ri: int)
    requires
        m > 0,
    ensures
        (((la - lb) % m) * ri) % m == ((la * ri) % m - (lb * ri) % m) % m,
{
    lemma_mul_mod_noop_left(la - lb, ri, m);
    lemma_mul_is_distributive_sub_other_way(ri, la, lb);
    lemma_sub_mod_noop(la * ri, lb * ri, m);
}

pub proof fn lemma_mont_mul(la: int, lb: int, m: int, ri: int)
    requires
        m > 0,
    ensures
        (((la * lb * ri) % m) * ri) % m == (((la * ri) % m) * ((lb * ri) % m)) % m,
{
    lemma_mul_mod_noop_left(la * lb * ri, ri, m);
    lemma_mul_mod_noop(la * ri, lb * ri, m);
    assert((la * lb * ri) * ri == (la * ri) * (lb * ri)) by (nonlinear_arith);
}

/// Multiplying by a Montgomery factor and by its inverse cancels.
pub proof fn lemma_mont_cancel(l: int, m: int, ri: int, r: int)
    requires
        m > 0,
        (r * ri) % m == 1,
    ensures
        (((l * ri) % m) * r) % m == l % m,
{
    lemma_mul_mod_noop_left(l * ri, r, m);
    assert((l * ri) * r == l * (r * ri)) by (nonlinear_arith);
    lemma_mul_mod_noop_right(l, r * ri, m);
}

/// Distinct residues stay distinct after multiplying by an invertible factor.
pub proof fn lemma_mont_injective(la: int, lb: int, m: int, ri: int, r: int)
    requires
        m > 0,
        0 <= la < m,
        0 <= lb < m,
        (r * ri) % m == 1,
        (la * ri) % m == (lb * ri) % m,
    ensures
        la == lb,
{
    lemma_mont_cancel(la, m, ri, r);
    lemma_mont_cancel(lb, m, ri, r);
    lemma_small_mod(la as nat, m as nat);
    lemma_small_mod(lb as nat, m as nat);
}

/// `(l * r2 * ri) * ri == l` modulo `m` when `r2 * ri * ri == 1` modulo `m`.
pub proof fn lemma_mont_from_canonical(l: int, m: int, ri: int, r2: int)
    requires
        m > 0,
        (r2 * ri * ri) % m == 1,
    ensures
        (((l * r2 * ri) % m) * ri) % m == l % m,
{
    lemma_mul_mod_noop_left(l * r2 * ri, ri, m);
    assert(l * r2 * ri * ri == l * (r2 * ri * ri)) by (nonlinear_arith);
    lemma_mul_mod_noop_right(l, r2 * ri * ri, m);
}

} // verus!
