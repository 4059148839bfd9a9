//! Width-`w` non-adjacent form of a scalar, and multiplication through it.
#![allow(unused_imports)]

use vstd::arithmetic::div_mod::{
    lemma_fundamental_div_mod_converse, lemma_mod_decreases, lemma_mod_mod, lemma_mod_multiples_vanish,
};
use vstd::arithmetic::mul::lemma_mul_is_associative;
use vstd::arithmetic::power2::{lemma2_to64, lemma_pow2_pos, lemma_pow2_unfold, pow2};
use vstd::bits::{low_bits_mask, lemma_u64_low_bits_mask_is_mod, lemma_u64_shl_is_mul};
use vstd::prelude::*;

use super::{jacobian_add, jacobian_double, jacobian_identity, jacobian_neg, ProjectivePoint};
use crate::limbs::{adc, b1, b2, b3, b4, b5, be_nat, limbs_from_be_bytes, limbs_nat, sbb};

verus! {

/// The number held by five little-endian 64-bit limbs.
pub open spec fn limbs5_nat(l: [u64; 5]) -> nat {
    l[0] as nat + l[1] as nat * b1() + l[2] as nat * b2() + l[3] as nat * b3() + l[4] as nat * b4()
}

/// The signed digit that the width-`w` NAF takes from `k`: zero for even `k`, else
/// `k mod 2^w` moved into `(-2^(w-1), 2^(w-1))`.
pub open spec fn wnaf_digit(k: nat, w: nat) -> int {
    if k % 2 == 1 {
        let r = k % pow2(w);
        if r >= pow2((w - 1) as nat) {
            r - pow2(w)
        } else {
            r as int
        }
    } else {
        0
    }
}

/// What remains of `k` once its lowest digit is taken: `(k - d) / 2`.
pub open spec fn wnaf_next(k: nat, w: nat) -> nat {
    ((k - wnaf_digit(k, w)) / 2) as nat
}

/// The digit is odd or zero, below `2^(w-1)` in magnitude, and leaves an even remainder.
pub proof fn lemma_wnaf_digit(k: nat, w: nat)
    requires
        2 <= w,
    ensures
        -pow2((w - 1) as nat) < wnaf_digit(k, w) < pow2((w - 1) as nat),
        k % 2 == 1 ==> wnaf_digit(k, w) % 2 == 1,
        k % 2 == 0 ==> wnaf_digit(k, w) == 0,
        (k - wnaf_digit(k, w)) % 2 == 0,
        k > 0 ==> wnaf_next(k, w) < k,
        k - wnaf_digit(k, w) >= 0,
{
    lemma_pow2_unfold(w);
    lemma_pow2_unfold((w - 1) as nat);
    lemma_pow2_pos((w - 2) as nat);
    let half = pow2((w - 1) as nat);
    let m = pow2(w);
    if k % 2 == 1 {
        let r = k % m;
        lemma_mod_mod(k as int, 2, half as int);
        lemma_mod_decreases(k, m);
        assert(r % 2 == 1);
        assert(half % 2 == 0);
        if r >= half {
            assert(r != half);
        }
    }
}

/// The width-`w` NAF of `k`, least significant digit first.
pub open spec fn wnaf(k: nat, w: nat) -> Seq<int>
    decreases k,
    when 2 <= w
{
    if k == 0 {
        Seq::empty()
    } else {
        proof {
            lemma_wnaf_digit(k, w);
        }
        seq![wnaf_digit(k, w)] + wnaf(wnaf_next(k, w), w)
    }
}

/// `k` after `i` digits have been taken.
pub open spec fn wnaf_rest(k: nat, w: nat, i: nat) -> nat
    decreases i,
{
    if i == 0 {
        k
    } else {
        wnaf_next(wnaf_rest(k, w, (i - 1) as nat), w)
    }
}

/// The NAF digits from `i` on are the NAF of what remains after `i` digits.
pub proof fn lemma_wnaf_rest(k: nat, w: nat, i: nat)
    requires
        2 <= w,
        i <= wnaf(k, w).len(),
    ensures
        wnaf(k, w).subrange(i as int, wnaf(k, w).len() as int) == wnaf(wnaf_rest(k, w, i), w),
    decreases i,
{
    if i > 0 {
        lemma_wnaf_rest(k, w, (i - 1) as nat);
        let prev = wnaf_rest(k, w, (i - 1) as nat);
        let ds = wnaf(k, w);
        assert(ds.subrange(i - 1, ds.len() as int).len() > 0);
        assert(prev != 0);
        assert(wnaf(prev, w) == seq![wnaf_digit(prev, w)] + wnaf(wnaf_next(prev, w), w));
        assert(ds.subrange(i as int, ds.len() as int) =~= ds.subrange(i - 1, ds.len() as int).drop_first());
        assert(wnaf(prev, w).drop_first() =~= wnaf(wnaf_next(prev, w), w));
    } else {
        assert(wnaf(k, w).subrange(0, wnaf(k, w).len() as int) =~= wnaf(k, w));
    }
}

/// Every NAF digit is odd or zero and below `2^(w-1)` in magnitude.
pub proof fn lemma_wnaf_digits_bounded(k: nat, w: nat)
    requires
        2 <= w,
    ensures
        forall|i: int|
            0 <= i < wnaf(k, w).len() ==> -pow2((w - 1) as nat) < #[trigger] wnaf(k, w)[i] < pow2(
                (w - 1) as nat,
            ),
    decreases k,
{
    if k > 0 {
        lemma_wnaf_digit(k, w);
        lemma_wnaf_digits_bounded(wnaf_next(k, w), w);
        let ds = wnaf(k, w);
        assert forall|i: int| 0 <= i < ds.len() implies -pow2((w - 1) as nat) < #[trigger] ds[i]
            < pow2((w - 1) as nat) by {
            if i > 0 {
                assert(ds[i] == wnaf(wnaf_next(k, w), w)[i - 1]);
            }
        }
    }
}

/// The 32-byte big-endian scalar as five limbs, the top one zero.
fn scalar_limbs(scalar: &[u8; 32]) -> (r: [u64; 5])
    ensures
        limbs5_nat(r) == be_nat(scalar@),
{
    let l = limbs_from_be_bytes(*scalar);
    [l[0], l[1], l[2], l[3], 0]
}

/// Whether every limb is zero.
fn scalar_limbs_are_zero(limbs: [u64; 5]) -> (r: bool)
    ensures
        r == (limbs5_nat(limbs) == 0),
{
    limbs[0] == 0 && limbs[1] == 0 && limbs[2] == 0 && limbs[3] == 0 && limbs[4] == 0
}

/// Adds a word, carrying through the limbs; the sum wraps modulo `2^320`.
fn add_small(limbs: &mut [u64; 5], value: u64)
    ensures
        limbs5_nat(*final(limbs)) == (limbs5_nat(*old(limbs)) + value) % (b5() as int),
{
    let (s0, c) = adc(limbs[0], value, 0);
    let (s1, c) = adc(limbs[1], 0, c);
    let (s2, c) = adc(limbs[2], 0, c);
    let (s3, c) = adc(limbs[3], 0, c);
    let (s4, c) = adc(limbs[4], 0, c);
    proof {
        let x = limbs5_nat(*old(limbs)) + value;
        let y = s0 + s1 * b1() + s2 * b2() + s3 * b3() + s4 * b4();
        assert(x == y + c * b5());
        assert(c <= 1);
        lemma_fundamental_div_mod_converse(x as int, b5() as int, c as int, y as int);
    }
    *limbs = [s0, s1, s2, s3, s4];
}

/// Subtracts a word, borrowing through the limbs; the difference wraps modulo `2^320`.
fn sub_small(limbs: &mut [u64; 5], value: u64)
    ensures
        limbs5_nat(*final(limbs)) == (limbs5_nat(*old(limbs)) - value) % (b5() as int),
{
    let (d0, b) = sbb(limbs[0], value, 0);
    let (d1, b) = sbb(limbs[1], 0, b);
    let (d2, b) = sbb(limbs[2], 0, b);
    let (d3, b) = sbb(limbs[3], 0, b);
    let (d4, b) = sbb(limbs[4], 0, b);
    proof {
        let x = limbs5_nat(*old(limbs)) - value;
        let y = d0 + d1 * b1() + d2 * b2() + d3 * b3() + d4 * b4();
        assert(x == y - b * b5());
        lemma_fundamental_div_mod_converse(x, b5() as int, -(b as int), y as int);
    }
    *limbs = [d0, d1, d2, d3, d4];
}

/// `(a >> 1) | (b << 63)` is `a / 2 + (b mod 2) * 2^63`.
proof fn lemma_shift_pair(a: u64, b: u64)
    ensures
        (a >> 1u64) | (b << 63u64) == a / 2 + (b % 2) * 0x8000_0000_0000_0000,
        a >> 1u64 == a / 2,
{
    assert((a >> 1u64) | (b << 63u64) == a / 2 + (b % 2) * 0x8000_0000_0000_0000) by (bit_vector);
    assert(a >> 1u64 == a / 2) by (bit_vector);
}

/// Halves the number, dropping the lowest bit.
fn shift_right_one(limbs: &mut [u64; 5])
    ensures
        limbs5_nat(*final(limbs)) == limbs5_nat(*old(limbs)) / 2,
{
    let mut carry: u64 = 0;
    let mut i: usize = 5;
    let ghost l = *limbs;
    while i > 0
        invariant
            i <= 5,
            forall|j: int| 0 <= j < i ==> limbs[j] == l[j],
            forall|j: int| i <= j < 4 ==> limbs[j] == (l[j] >> 1u64) | (l[j + 1] << 63u64),
            i <= 4 ==> limbs[4] == l[4] >> 1u64,
            i == 5 ==> carry == 0,
            i < 5 ==> carry == l[i as int] << 63u64,
        decreases i,
    {
        i = i - 1;
        let limb = limbs[i];
        let next_carry = limb << 63;
        limbs[i] = (limb >> 1) | carry;
        carry = next_carry;
        proof {
            if i == 4 {
                assert(limb | 0u64 == limb) by (bit_vector);
                assert((limb >> 1u64) | 0u64 == limb >> 1u64) by (bit_vector);
            }
        }
    }
    proof {
        lemma_shift_pair(l[0], l[1]);
        lemma_shift_pair(l[1], l[2]);
        lemma_shift_pair(l[2], l[3]);
        lemma_shift_pair(l[3], l[4]);
        lemma_shift_pair(l[4], 0);
        let k = limbs5_nat(l);
        let h = limbs5_nat(*limbs);
        assert(k == 2 * h + l[0] % 2);
        lemma_fundamental_div_mod_converse(k as int, 2, h as int, (l[0] % 2) as int);
    }
}

/// The low limb decides the number modulo any divisor of `2^64`.
proof fn lemma_limbs5_low(l: [u64; 5], m: nat)
    requires
        m > 0,
        b1() % m == 0,
    ensures
        limbs5_nat(l) % m == (l[0] as nat) % m,
{
    let t = l[1] as nat + l[2] as nat * b1() + l[3] as nat * b2() + l[4] as nat * b3();
    assert(limbs5_nat(l) == l[0] + b1() * t);
    let q = b1() / m;
    vstd::arithmetic::div_mod::lemma_fundamental_div_mod(b1() as int, m as int);
    assert(b1() == m * q);
    lemma_mul_is_associative(m as int, q as int, t as int);
    lemma_mod_multiples_vanish((q * t) as int, l[0] as int, m as int);
}

/// The digits actually produced: the NAF, cut at 257 digits.
pub open spec fn wnaf_used(k: nat, w: nat) -> Seq<int> {
    let ds = wnaf(k, w);
    if ds.len() <= 257 {
        ds
    } else {
        ds.take(257)
    }
}

/// The width-`width` NAF digits of the big-endian scalar, at most 257 of them, and their count.
fn wnaf_digits(scalar: &[u8; 32], width: usize) -> (r: ([i8; 257], usize))
    requires
        2 <= width <= 8,
    ensures
        r.1 == wnaf_used(be_nat(scalar@), width as nat).len(),
        forall|j: int| 0 <= j < r.1 ==> r.0[j] == wnaf_used(be_nat(scalar@), width as nat)[j],
        forall|j: int| r.1 <= j < 257 ==> r.0[j] == 0,
{
    let mut k = scalar_limbs(scalar);
    let ghost k0 = be_nat(scalar@);
    let ghost w = width as nat;
    let ghost ds = wnaf(k0, w);
    let mut digits = [0i8; 257];
    let shift = width as u64;
    proof {
        lemma2_to64();
        lemma_pow2_unfold(w);
        lemma_pow2_unfold((w - 1) as nat);
        vstd::arithmetic::power2::lemma_pow2_adds(w, (64 - w) as nat);
        vstd::arithmetic::power2::lemma_pow2_strictly_increases(w, 9);
        lemma_pow2_pos((64 - w) as nat);
        lemma_u64_shl_is_mul(1, shift);
        lemma_u64_shl_is_mul(1, (shift - 1) as u64);
        vstd::arithmetic::div_mod::lemma_mod_multiples_vanish(pow2((64 - w) as nat) as int, 0, pow2(w) as int);
        lemma_wnaf_digits_bounded(k0, w);
        crate::limbs::lemma_be_nat_bound(scalar@);
        crate::limbs::lemma_pow256_values();
    }
    let mask = (1u64 << shift) - 1;
    let cutoff = (1u64 << (shift - 1)) as i64;
    let radix = (1u64 << shift) as i64;
    proof {
        assert(mask == low_bits_mask(w));
        assert(b1() % pow2(w) == 0);
    }
    let mut len: usize = 0;
    let mut i: usize = 0;

    while i < 257
        invariant
            2 <= w <= 8,
            w == width,
            ds == wnaf(k0, w),
            mask == pow2(w) - 1,
            mask == low_bits_mask(w),
            cutoff == pow2((w - 1) as nat),
            radix == pow2(w),
            pow2(w) == 2 * pow2((w - 1) as nat),
            pow2(w) <= 256,
            b1() % pow2(w) == 0,
            forall|j: int| 0 <= j < ds.len() ==> -pow2((w - 1) as nat) < #[trigger] ds[j] < pow2((w - 1) as nat),
            i <= 257,
            len == i,
            i <= ds.len(),
            limbs5_nat(k) == wnaf_rest(k0, w, i as nat),
            limbs5_nat(k) < b4() + 256,
            forall|j: int| 0 <= j < i ==> digits[j] == ds[j],
            forall|j: int| i <= j < 257 ==> digits[j] == 0,
        ensures
            len <= 257,
            len <= ds.len(),
            len == 257 || len == ds.len(),
            forall|j: int| 0 <= j < len ==> digits[j] == ds[j],
            forall|j: int| len <= j < 257 ==> digits[j] == 0,
        decreases 257 - i,
    {
        proof {
            lemma_wnaf_rest(k0, w, i as nat);
        }
        if scalar_limbs_are_zero(k) {
            proof {
                assert(wnaf(0, w).len() == 0);
                assert(ds.subrange(i as int, ds.len() as int).len() == 0);
            }
            break;
        }
        let ghost rest = limbs5_nat(k);
        proof {
            lemma_wnaf_digit(rest, w);
            assert(wnaf(rest, w) == seq![wnaf_digit(rest, w)] + wnaf(wnaf_next(rest, w), w));
            assert(ds.subrange(i as int, ds.len() as int)[0] == wnaf(rest, w)[0]);
            assert(ds[i as int] == wnaf_digit(rest, w));
            lemma_limbs5_low(k, 2);
            lemma_limbs5_low(k, pow2(w));
            let k0w = k[0];
            assert(k0w & 1 == k0w % 2) by (bit_vector);
            lemma_u64_low_bits_mask_is_mod(k[0], w);
            lemma_mod_mod(rest as int, 2, pow2((w - 1) as nat) as int);
        }
        if k[0] & 1 == 1 {
            let residue = (k[0] & mask) as i64;
            let signed_digit = if residue >= cutoff {
                residue - radix
            } else {
                residue
            };
            assert(signed_digit == wnaf_digit(rest, w));

            digits[i] = signed_digit as i8;
            if signed_digit > 0 {
                sub_small(&mut k, signed_digit as u64);
            } else {
                add_small(&mut k, (-signed_digit) as u64);
            }
            proof {
                vstd::arithmetic::div_mod::lemma_small_mod((rest - signed_digit) as nat, b5());
            }
        }
        assert(limbs5_nat(k) == rest - wnaf_digit(rest, w));

        shift_right_one(&mut k);
        len = i + 1;
        i = i + 1;
    }

    proof {
        assert(wnaf_used(k0, w).len() == len);
        assert forall|j: int| 0 <= j < len implies digits[j] == wnaf_used(k0, w)[j] by {}
    }
    crate::wipe::wipe_words(&mut k);
    (digits, len)
}

/// The odd multiples `P, 3P, 5P, ...`, each the previous one plus `2P`.
pub open spec fn odd_multiple(p: (nat, nat, nat), i: nat) -> (nat, nat, nat)
    decreases i,
{
    if i == 0 {
        p
    } else {
        jacobian_add(odd_multiple(p, (i - 1) as nat), jacobian_double(p))
    }
}

/// Adds the odd multiple `|d| * P` for a positive digit, subtracts it for a negative one.
#[verifier::opaque]
pub open spec fn wnaf_add_digit(q: (nat, nat, nat), p: (nat, nat, nat), d: int) -> (nat, nat, nat) {
    if d > 0 {
        jacobian_add(q, odd_multiple(p, (d / 2) as nat))
    } else if d < 0 {
        jacobian_add(q, jacobian_neg(odd_multiple(p, ((-d) / 2) as nat)))
    } else {
        q
    }
}

/// Horner evaluation of the signed digits, most significant last in the sequence.
pub open spec fn wnaf_horner(p: (nat, nat, nat), ds: Seq<int>) -> (nat, nat, nat)
    decreases ds.len(),
{
    if ds.len() == 0 {
        jacobian_identity()
    } else {
        wnaf_add_digit(jacobian_double(wnaf_horner(p, ds.drop_first())), p, ds[0])
    }
}

/// The first `n` odd multiples of `base`.
fn odd_projective_table(base: ProjectivePoint, n: usize) -> (t: Vec<ProjectivePoint>)
    requires
        n >= 1,
    ensures
        t.len() == n,
        forall|i: int| 0 <= i < n ==> (#[trigger] t[i])@ == odd_multiple(base@, i as nat),
{
    let mut table: Vec<ProjectivePoint> = Vec::new();
    table.push(base);

    let two_base = base.double();
    for i in 1..n
        invariant
            table.len() == i,
            two_base@ == jacobian_double(base@),
            forall|j: int| 0 <= j < i ==> (#[trigger] table[j])@ == odd_multiple(base@, j as nat),
    {
        let next = table[i - 1] + two_base;
        table.push(next);
    }

    table
}

/// Horner evaluation from index `i` is one digit step on the evaluation from `i + 1`.
proof fn lemma_wnaf_horner_step(p: (nat, nat, nat), ds: Seq<int>, i: int, len: int)
    requires
        0 <= i < len <= ds.len(),
    ensures
        wnaf_horner(p, ds.subrange(i, len)) == wnaf_add_digit(
            jacobian_double(wnaf_horner(p, ds.subrange(i + 1, len))),
            p,
            ds[i],
        ),
{
    assert(ds.subrange(i, len).drop_first() =~= ds.subrange(i + 1, len));
}

proof fn lemma_half(x: usize)
    ensures
        x >> 1usize == x / 2,
{
    assert(x >> 1usize == x / 2) by (bit_vector);
}

/// Doubles, then adds or subtracts the table entry that a signed digit picks.
fn wnaf_step(out: ProjectivePoint, table: &Vec<ProjectivePoint>, digit: i8, Ghost(p): Ghost<(nat, nat, nat)>) -> (r: ProjectivePoint)
    requires
        -2 * table.len() < digit < 2 * table.len(),
        2 * table.len() <= 128,
        forall|j: int| 0 <= j < table.len() ==> (#[trigger] table[j])@ == odd_multiple(p, j as nat),
    ensures
        r@ == wnaf_add_digit(jacobian_double(out@), p, digit as int),
{
    proof {
        reveal(wnaf_add_digit);
    }
    let out = out.double();
    if digit > 0 {
        proof {
            lemma_half(digit as usize);
        }
        out + table[(digit as usize) >> 1]
    } else if digit < 0 {
        proof {
            lemma_half((-digit) as usize);
        }
        out - table[((-digit) as usize) >> 1]
    } else {
        out
    }
}

/// `k * P` from the width-`width` NAF of `k` and a table of the odd multiples of `P`.
#[verifier::rlimit(30)]
fn mul_wnaf_projective_vartime(
    base: ProjectivePoint,
    scalar: &[u8; 32],
    width: usize,
    table_points: usize,
) -> (r: ProjectivePoint)
    requires
        2 <= width <= 8,
        table_points == pow2((width - 2) as nat),
    ensures
        r@ == wnaf_horner(base@, wnaf_used(be_nat(scalar@), width as nat)),
{
    proof {
        lemma2_to64();
        lemma_pow2_unfold((width - 1) as nat);
        lemma_pow2_pos((width - 2) as nat);
        lemma_wnaf_digits_bounded(be_nat(scalar@), width as nat);
    }
    let table = odd_projective_table(base, table_points);
    let (mut digits, len) = wnaf_digits(scalar, width);
    let ghost ds = wnaf_used(be_nat(scalar@), width as nat);
    let ghost half = pow2((width - 1) as nat);
    assert forall|j: int| 0 <= j < ds.len() implies -half < #[trigger] ds[j] < half by {
        assert(ds[j] == wnaf(be_nat(scalar@), width as nat)[j]);
    }
    let mut out = ProjectivePoint::identity();
    let mut i = len;

    while i > 0
        invariant
            i <= len,
            len == ds.len(),
            len <= 257,
            table.len() == table_points,
            half == 2 * table_points,
            half <= 128,
            forall|j: int| 0 <= j < table_points ==> (#[trigger] table[j])@ == odd_multiple(base@, j as nat),
            forall|j: int| 0 <= j < len ==> digits[j] == ds[j],
            forall|j: int| 0 <= j < ds.len() ==> -half < #[trigger] ds[j] < half,
            out@ == wnaf_horner(base@, ds.subrange(i as int, len as int)),
        decreases i,
    {
        i = i - 1;
        proof {
            lemma_wnaf_horner_step(base@, ds, i as int, len as int);
        }
        let digit = digits[i];
        out = wnaf_step(out, &table, digit, Ghost(base@));
    }

    crate::wipe::wipe_digits(&mut digits);
    proof {
        assert(ds.subrange(0, len as int) =~= ds);
    }
    out
}

impl ProjectivePoint {
    /// `k * P` through the width-5 NAF of `k`.
    pub fn mul_scalar_wnaf5_vartime(self, scalar: [u8; 32]) -> (r: Self)
        ensures
            r@ == wnaf_horner(self@, wnaf(be_nat(scalar@), 5)),
    {
        let mut scalar = scalar;
        proof {
            lemma2_to64();
            crate::limbs::lemma_be_nat_bound(scalar@);
            lemma_wnaf_used(be_nat(scalar@), 5);
        }
        let out = mul_wnaf_projective_vartime(self, &scalar, 5, 8);
        crate::wipe::wipe_bytes(&mut scalar);
        out
    }

    /// `k * P` through the width-6 NAF of `k`.
    pub fn mul_scalar_wnaf6_vartime(self, scalar: [u8; 32]) -> (r: Self)
        ensures
            r@ == wnaf_horner(self@, wnaf(be_nat(scalar@), 6)),
    {
        let mut scalar = scalar;
        proof {
            lemma2_to64();
            crate::limbs::lemma_be_nat_bound(scalar@);
            lemma_wnaf_used(be_nat(scalar@), 6);
        }
        let out = mul_wnaf_projective_vartime(self, &scalar, 6, 16);
        crate::wipe::wipe_bytes(&mut scalar);
        out
    }
}

/// The number that signed digits stand for, least significant first: `sum d_i 2^i`.
pub open spec fn wnaf_value(ds: Seq<int>) -> int
    decreases ds.len(),
{
    if ds.len() == 0 {
        0
    } else {
        ds[0] + 2 * wnaf_value(ds.drop_first())
    }
}

/// The width-`w` NAF of `k` stands for `k`.
pub proof fn lemma_wnaf_value(k: nat, w: nat)
    requires
        2 <= w,
    ensures
        wnaf_value(wnaf(k, w)) == k,
    decreases k,
{
    if k > 0 {
        lemma_wnaf_digit(k, w);
        lemma_wnaf_value(wnaf_next(k, w), w);
        let ds = wnaf(k, w);
        assert(ds.drop_first() =~= wnaf(wnaf_next(k, w), w));
    }
}

/// A number up to `2^m` has at most `m + 1` NAF digits.
pub proof fn lemma_wnaf_length(k: nat, w: nat, m: nat)
    requires
        2 <= w,
        k <= pow2(m),
    ensures
        wnaf(k, w).len() <= m + 1,
    decreases k,
{
    if k > 0 {
        lemma_wnaf_digit(k, w);
        lemma_pow2_unfold(w);
        lemma_pow2_pos(w);
        lemma_pow2_pos((w - 1) as nat);
        let d = wnaf_digit(k, w);
        let next = wnaf_next(k, w);
        let half = pow2((w - 1) as nat);
        let radix = pow2(w);
        if m == 0 {
            assert(pow2(0) == 1) by {
                lemma2_to64();
            }
            assert(k == 1);
            vstd::arithmetic::div_mod::lemma_small_mod(1, radix);
            assert(next == 0);
            assert(wnaf(0, w).len() == 0);
        } else {
            lemma_pow2_unfold(m);
            assert(k % 2 == 1 ==> k < pow2(m));
            if d < 0 {
                let r = k % radix;
                vstd::arithmetic::div_mod::lemma_fundamental_div_mod(k as int, radix as int);
                if m >= w {
                    vstd::arithmetic::power2::lemma_pow2_adds(w, (m - w) as nat);
                    let q = k / radix;
                    let e = pow2((m - w) as nat);
                    assert(q < e) by (nonlinear_arith)
                        requires
                            k == radix * q + r,
                            r >= 0,
                            k < radix * e,
                            radix > 0,
                            q >= 0,
                    ;
                    assert(radix * q <= radix * e - radix) by (nonlinear_arith)
                        requires
                            q < e,
                            radix > 0,
                    ;
                } else {
                    vstd::arithmetic::power2::lemma_pow2_strictly_increases(m, w);
                    if m < (w - 1) as nat {
                        vstd::arithmetic::power2::lemma_pow2_strictly_increases(m, (w - 1) as nat);
                    }
                    assert(k <= half);
                    assert(half % 2 == 0) by {
                        lemma_pow2_unfold((w - 1) as nat);
                        lemma_pow2_pos((w - 2) as nat);
                    }
                    assert(k < half);
                    vstd::arithmetic::div_mod::lemma_small_mod(k, radix);
                }
            }
            assert(next <= pow2((m - 1) as nat));
            lemma_wnaf_length(next, w, (m - 1) as nat);
            assert(wnaf(k, w).len() == 1 + wnaf(next, w).len());
        }
    }
}

/// For a scalar below `2^256` the produced digits are the whole NAF, which stands for it.
pub proof fn lemma_wnaf_used(k: nat, w: nat)
    requires
        2 <= w,
        k < crate::limbs::pow256(32),
    ensures
        wnaf_used(k, w) == wnaf(k, w),
        wnaf_value(wnaf_used(k, w)) == k,
{
    crate::limbs::lemma_pow2_bytes(32);
    lemma_wnaf_length(k, w, 256);
    lemma_wnaf_value(k, w);
}

/// A multiple of `2^j` has at least `j` zero digits at the bottom of its NAF.
proof fn lemma_wnaf_zero_run(k: nat, w: nat, j: nat)
    requires
        2 <= w,
        k % pow2(j) == 0,
    ensures
        forall|i: int| 0 <= i < j && i < wnaf(k, w).len() ==> #[trigger] wnaf(k, w)[i] == 0,
    decreases j,
{
    if j > 0 && k > 0 {
        lemma_pow2_unfold(j);
        lemma_pow2_pos((j - 1) as nat);
        let e = pow2((j - 1) as nat);
        let t = k / pow2(j);
        vstd::arithmetic::div_mod::lemma_fundamental_div_mod(k as int, pow2(j) as int);
        assert(k == 2 * (e * t)) by (nonlinear_arith)
            requires
                k == pow2(j) * t + 0,
                pow2(j) == 2 * e,
        ;
        lemma_wnaf_digit(k, w);
        assert(wnaf_digit(k, w) == 0);
        assert(wnaf_next(k, w) == e * t);
        vstd::arithmetic::div_mod::lemma_mod_multiples_basic(t as int, e as int);
        assert((e * t) % e == 0) by {
            vstd::arithmetic::mul::lemma_mul_is_commutative(e as int, t as int);
        }
        lemma_wnaf_zero_run(wnaf_next(k, w), w, (j - 1) as nat);
        let ds = wnaf(k, w);
        assert forall|i: int| 0 <= i < j && i < ds.len() implies #[trigger] ds[i] == 0 by {
            if i > 0 {
                assert(ds[i] == wnaf(wnaf_next(k, w), w)[i - 1]);
            }
        }
    }
}

/// After a nonzero digit the next `w - 1` digits of the NAF are zero.
pub proof fn lemma_wnaf_sparse(k: nat, w: nat)
    requires
        2 <= w,
    ensures
        forall|i: int, j: int|
            0 <= i < j < wnaf(k, w).len() && j < i + w && #[trigger] wnaf(k, w)[i] != 0 ==> #[trigger] wnaf(
                k,
                w,
            )[j] == 0,
    decreases k,
{
    if k > 0 {
        lemma_wnaf_digit(k, w);
        let d = wnaf_digit(k, w);
        let next = wnaf_next(k, w);
        lemma_wnaf_sparse(next, w);
        let ds = wnaf(k, w);
        let rest = wnaf(next, w);
        if d != 0 {
            lemma_pow2_unfold(w);
            lemma_pow2_pos((w - 1) as nat);
            let m = pow2(w);
            let e = pow2((w - 1) as nat);
            let q = k / m;
            let r = k % m;
            vstd::arithmetic::div_mod::lemma_fundamental_div_mod(k as int, m as int);
            let c: int = if d == r { q as int } else { (q + 1) as int };
            assert(k % 2 == 1);
            assert(d == r || d == r - m);
            assert(m * (q + 1) == m * q + m) by (nonlinear_arith);
            assert(k - d == m * c);
            assert(k - d == 2 * (e * c)) by (nonlinear_arith)
                requires
                    k - d == m * c,
                    m == 2 * e,
            ;
            assert(c >= 0);
            assert(next == e * c);
            vstd::arithmetic::div_mod::lemma_mod_multiples_basic(c, e as int);
            vstd::arithmetic::mul::lemma_mul_is_commutative(e as int, c);
            lemma_wnaf_zero_run(next, w, (w - 1) as nat);
        }
        assert forall|i: int, j: int|
            0 <= i < j < ds.len() && j < i + w && #[trigger] ds[i] != 0 implies #[trigger] ds[j] == 0 by {
            assert(ds[j] == rest[j - 1]);
            if i > 0 {
                assert(ds[i] == rest[i - 1]);
            }
        }
    }
}

/// The most significant NAF digit of a nonzero number is positive.
pub proof fn lemma_wnaf_top_positive(k: nat, w: nat)
    requires
        2 <= w,
        k > 0,
    ensures
        wnaf(k, w).len() > 0,
        wnaf(k, w)[wnaf(k, w).len() - 1] > 0,
    decreases k,
{
    lemma_wnaf_digit(k, w);
    let next = wnaf_next(k, w);
    let ds = wnaf(k, w);
    if next == 0 {
        assert(wnaf(0, w).len() == 0);
        assert(ds.len() == 1);
    } else {
        lemma_wnaf_top_positive(next, w);
        assert(ds[ds.len() - 1] == wnaf(next, w)[wnaf(next, w).len() - 1]);
    }
}

} // verus!
