//! Multi-precision arithmetic on little-endian arrays of 64-bit limbs,
//! shared by the base field and the scalar field.
#![allow(unused_imports)]

use vstd::prelude::*;

verus! {

/// 2^64
#[verifier::inline]
pub open spec fn b1() -> nat { 0x1_0000_0000_0000_0000nat }
/// 2^128
#[verifier::inline]
pub open spec fn b2() -> nat { 0x1_0000_0000_0000_0000_0000_0000_0000_0000nat }
/// 2^192
#[verifier::inline]
pub open spec fn b3() -> nat { 0x1_0000_0000_0000_0000_0000_0000_0000_0000_0000_0000_0000_0000nat }
/// 2^256
#[verifier::inline]
pub open spec fn b4() -> nat { 0x1_0000_0000_0000_0000_0000_0000_0000_0000_0000_0000_0000_0000_0000_0000_0000_0000nat }
/// 2^320
#[verifier::inline]
pub open spec fn b5() -> nat { 0x1_0000_0000_0000_0000_0000_0000_0000_0000_0000_0000_0000_0000_0000_0000_0000_0000_0000_0000_0000_0000nat }
/// 2^384
#[verifier::inline]
pub open spec fn b6() -> nat { 0x1_0000_0000_0000_0000_0000_0000_0000_0000_0000_0000_0000_0000_0000_0000_0000_0000_0000_0000_0000_0000_0000_0000_0000_0000nat }
/// 2^448
#[verifier::inline]
pub open spec fn b7() -> nat { 0x1_0000_0000_0000_0000_0000_0000_0000_0000_0000_0000_0000_0000_0000_0000_0000_0000_0000_0000_0000_0000_0000_0000_0000_0000_0000_0000_0000_0000nat }
/// 2^512
#[verifier::inline]
pub open spec fn b8() -> nat { 0x1_0000_0000_0000_0000_0000_0000_0000_0000_0000_0000_0000_0000_0000_0000_0000_0000_0000_0000_0000_0000_0000_0000_0000_0000_0000_0000_0000_0000_0000_0000_0000_0000nat }

/// The number held by four little-endian 64-bit limbs.
pub open spec fn limbs_nat(l: [u64; 4]) -> nat {
    l[0] as nat + l[1] as nat * b1() + l[2] as nat * b2() + l[3] as nat * b3()
}

/// The number held by eight little-endian 64-bit limbs.
pub open spec fn wide_nat(w: [u64; 8]) -> nat {
    w[0] as nat + w[1] as nat * b1() + w[2] as nat * b2() + w[3] as nat * b3() + w[4] as nat * b4()
        + w[5] as nat * b5() + w[6] as nat * b6() + w[7] as nat * b7()
}

pub proof fn lemma_split_u128(x: u128)
    ensures
        (x as u64) as nat == x as nat % b1(),
        ((x >> 64u32) as u64) as nat == x as nat / b1(),
        x as nat == (x as u64) as nat + ((x >> 64u32) as u64) as nat * b1(),
        (x >> 64u32) as nat == x as nat / b1(),
        (x >> 64u32) < b1(),
{
    assert(x >> 64u32 == x / 0x1_0000_0000_0000_0000u128) by (bit_vector);
    assert((x as u64) as u128 == x % 0x1_0000_0000_0000_0000u128) by (bit_vector);
    assert(((x >> 64u32) as u64) as u128 == x / 0x1_0000_0000_0000_0000u128) by (bit_vector);
}

/// Add with carry: `lo + hi * 2^64 == a + b + carry`.
pub fn adc(a: u64, b: u64, carry: u64) -> (r: (u64, u64))
    ensures
        r.0 + r.1 * b1() == a + b + carry,
        r.1 <= 2,
{
    let sum = (a as u128) + (b as u128) + (carry as u128);
    proof {
        lemma_split_u128(sum);
    }
    (sum as u64, (sum >> 64) as u64)
}

/// Subtract with borrow: `lo - bo * 2^64 == a - b - borrow`, `bo` is 0 or 1.
pub fn sbb(a: u64, b: u64, borrow: u64) -> (r: (u64, u64))
    requires
        borrow <= 1,
    ensures
        r.0 - r.1 * b1() == a - b - borrow,
        r.1 <= 1,
        r.1 == 1 <==> a < b + borrow,
{
    let subtrahend = (b as u128) + (borrow as u128);
    let difference = (a as u128).wrapping_sub(subtrahend);
    let top = difference >> 127;
    proof {
        lemma_split_u128(difference);
        assert(top == 0 <==> difference < 0x8000_0000_0000_0000_0000_0000_0000_0000u128)
            by (bit_vector)
            requires top == difference >> 127;
        if a as u128 >= subtrahend {
            assert(difference == a - subtrahend);
        } else {
            assert(difference == a - subtrahend + 0x1_0000_0000_0000_0000_0000_0000_0000_0000int);
        }
    }
    (difference as u64, if top != 0 { 1 } else { 0 })
}

/// Multiply-accumulate: `lo + hi * 2^64 == a + b * c + carry`.
pub fn mac(a: u64, b: u64, c: u64, carry: u64) -> (r: (u64, u64))
    ensures
        r.0 + r.1 * b1() == a + b * c + carry,
{
    proof {
        assert((b as u128) * (c as u128) <= 0xffff_ffff_ffff_fffe_0000_0000_0000_0001u128)
            by (nonlinear_arith)
            requires b <= 0xffff_ffff_ffff_ffffu64, c <= 0xffff_ffff_ffff_ffffu64;
    }
    let product = (a as u128) + (b as u128) * (c as u128) + (carry as u128);
    proof {
        lemma_split_u128(product);
    }
    (product as u64, (product >> 64) as u64)
}


/// Sum of two 256-bit numbers: `out + carry * 2^256 == a + b`.
pub fn add_limbs(a: [u64; 4], b: [u64; 4]) -> (r: ([u64; 4], u64))
    ensures
        limbs_nat(r.0) + r.1 * b4() == limbs_nat(a) + limbs_nat(b),
        r.1 <= 1,
{
    let (s0, c) = adc(a[0], b[0], 0);
    let (s1, c) = adc(a[1], b[1], c);
    let (s2, c) = adc(a[2], b[2], c);
    let (s3, c) = adc(a[3], b[3], c);
    ([s0, s1, s2, s3], c)
}

/// Difference of two 256-bit numbers: `out - borrow * 2^256 == a - b`.
pub fn sub_limbs(a: [u64; 4], b: [u64; 4]) -> (r: ([u64; 4], u64))
    ensures
        limbs_nat(r.0) - r.1 * b4() == limbs_nat(a) - limbs_nat(b),
        r.1 <= 1,
        r.1 == 1 <==> limbs_nat(a) < limbs_nat(b),
{
    let (d0, w) = sbb(a[0], b[0], 0);
    let (d1, w) = sbb(a[1], b[1], w);
    let (d2, w) = sbb(a[2], b[2], w);
    let (d3, w) = sbb(a[3], b[3], w);
    ([d0, d1, d2, d3], w)
}

/// Whether `a >= b` as 256-bit numbers.
pub fn ge_limbs(a: [u64; 4], b: [u64; 4]) -> (r: bool)
    ensures
        r == (limbs_nat(a) >= limbs_nat(b)),
{
    sub_limbs(a, b).1 == 0
}

pub proof fn lemma_limbs_bound(l: [u64; 4])
    ensures
        limbs_nat(l) < b4(),
{
}

/// `k * (y0 + y1 B + y2 B^2 + y3 B^3)` distributes over the limbs.
pub proof fn lemma_distribute4(k: int, y0: int, y1: int, y2: int, y3: int)
    ensures
        k * (y0 + y1 * b1() + y2 * b2() + y3 * b3()) == k * y0 + (k * y1) * b1() + (k * y2) * b2()
            + (k * y3) * b3(),
{
    let c1 = b1() as int;
    let c2 = b2() as int;
    let c3 = b3() as int;
    vstd::arithmetic::mul::lemma_mul_is_distributive_add(k, y0 + y1 * c1 + y2 * c2, y3 * c3);
    vstd::arithmetic::mul::lemma_mul_is_distributive_add(k, y0 + y1 * c1, y2 * c2);
    vstd::arithmetic::mul::lemma_mul_is_distributive_add(k, y0, y1 * c1);
    vstd::arithmetic::mul::lemma_mul_is_associative(k, y1, c1);
    vstd::arithmetic::mul::lemma_mul_is_associative(k, y2, c2);
    vstd::arithmetic::mul::lemma_mul_is_associative(k, y3, c3);
}

/// The product of two 4-limb numbers, expanded by the limbs of the left factor.
pub proof fn lemma_product_rows(a: [u64; 4], b: [u64; 4])
    ensures
        limbs_nat(a) * limbs_nat(b) == a[0] * limbs_nat(b) + (a[1] * limbs_nat(b)) * b1() + (a[2]
            * limbs_nat(b)) * b2() + (a[3] * limbs_nat(b)) * b3(),
        a[0] * limbs_nat(b) == a[0] * b[0] + (a[0] * b[1]) * b1() + (a[0] * b[2]) * b2() + (a[0]
            * b[3]) * b3(),
        a[1] * limbs_nat(b) == a[1] * b[0] + (a[1] * b[1]) * b1() + (a[1] * b[2]) * b2() + (a[1]
            * b[3]) * b3(),
        a[2] * limbs_nat(b) == a[2] * b[0] + (a[2] * b[1]) * b1() + (a[2] * b[2]) * b2() + (a[2]
            * b[3]) * b3(),
        a[3] * limbs_nat(b) == a[3] * b[0] + (a[3] * b[1]) * b1() + (a[3] * b[2]) * b2() + (a[3]
            * b[3]) * b3(),
{
    let y = limbs_nat(b) as int;
    lemma_distribute4(y, a[0] as int, a[1] as int, a[2] as int, a[3] as int);
    vstd::arithmetic::mul::lemma_mul_is_commutative(y, limbs_nat(a) as int);
    vstd::arithmetic::mul::lemma_mul_is_commutative(y, a[0] as int);
    vstd::arithmetic::mul::lemma_mul_is_commutative(y, a[1] as int);
    vstd::arithmetic::mul::lemma_mul_is_commutative(y, a[2] as int);
    vstd::arithmetic::mul::lemma_mul_is_commutative(y, a[3] as int);
    lemma_distribute4(a[0] as int, b[0] as int, b[1] as int, b[2] as int, b[3] as int);
    lemma_distribute4(a[1] as int, b[0] as int, b[1] as int, b[2] as int, b[3] as int);
    lemma_distribute4(a[2] as int, b[0] as int, b[1] as int, b[2] as int, b[3] as int);
    lemma_distribute4(a[3] as int, b[0] as int, b[1] as int, b[2] as int, b[3] as int);
}

/// Schoolbook product of two 256-bit numbers into eight limbs.
pub fn mul_wide(a: [u64; 4], b: [u64; 4]) -> (w: [u64; 8])
    ensures
        wide_nat(w) == limbs_nat(a) * limbs_nat(b),
{
    let (w0, carry) = mac(0, a[0], b[0], 0);
    let (w1, carry) = mac(0, a[0], b[1], carry);
    let (w2, carry) = mac(0, a[0], b[2], carry);
    let (w3, w4) = mac(0, a[0], b[3], carry);

    let (w1, carry) = mac(w1, a[1], b[0], 0);
    let (w2, carry) = mac(w2, a[1], b[1], carry);
    let (w3, carry) = mac(w3, a[1], b[2], carry);
    let (w4, w5) = mac(w4, a[1], b[3], carry);

    let (w2, carry) = mac(w2, a[2], b[0], 0);
    let (w3, carry) = mac(w3, a[2], b[1], carry);
    let (w4, carry) = mac(w4, a[2], b[2], carry);
    let (w5, w6) = mac(w5, a[2], b[3], carry);

    let (w3, carry) = mac(w3, a[3], b[0], 0);
    let (w4, carry) = mac(w4, a[3], b[1], carry);
    let (w5, carry) = mac(w5, a[3], b[2], carry);
    let (w6, w7) = mac(w6, a[3], b[3], carry);

    proof {
        lemma_product_rows(a, b);
    }
    [w0, w1, w2, w3, w4, w5, w6, w7]
}


/// Adds two 128-bit values, reporting whether the sum wrapped:
/// `sum + overflow * 2^128 == a + b`.
pub fn add_u128(a: u128, b: u128) -> (r: (u128, bool))
    ensures
        r.0 + (if r.1 { b2() } else { 0 }) == a + b,
{
    let sum = a.wrapping_add(b);
    (sum, sum < a)
}

/// Doubling a 128-bit value splits into a shifted value and the bit shifted out.
pub proof fn lemma_double_u128(p: u128)
    ensures
        p >> 127u32 <= 1,
        (p << 1u32) + (p >> 127u32) * b2() == 2 * p,
{
    assert(p >> 127u32 <= 1u128) by (bit_vector);
    assert((p << 1u32) == (p & 0x7fff_ffff_ffff_ffff_ffff_ffff_ffff_ffffu128) * 2u128)
        by (bit_vector);
    assert(p == (p & 0x7fff_ffff_ffff_ffff_ffff_ffff_ffff_ffffu128) + (p >> 127u32)
        * 0x8000_0000_0000_0000_0000_0000_0000_0000u128) by (bit_vector);
}

/// Or-ing a value below 2^64 with a value shifted left by 64 bits adds them.
pub proof fn lemma_or_high(acc: u128, top: u64)
    requires
        acc < b1(),
    ensures
        acc | ((top as u128) << 64u32) == acc + top * b1(),
{
    assert(acc | ((top as u128) << 64u32) == acc + (top as u128) * 0x1_0000_0000_0000_0000u128)
        by (bit_vector)
        requires
            acc < 0x1_0000_0000_0000_0000u128,
    ;
}

pub proof fn lemma_mul_u64_bound(x: u64, y: u64)
    ensures
        (x as nat) * (y as nat) <= 0xffff_ffff_ffff_fffe_0000_0000_0000_0001,
{
    assert((x as nat) * (y as nat) <= 0xffff_ffff_ffff_fffe_0000_0000_0000_0001) by (nonlinear_arith)
        requires
            x <= 0xffff_ffff_ffff_ffffu64,
            y <= 0xffff_ffff_ffff_ffffu64,
    ;
}

/// Column identities of the schoolbook square add up to the square.
pub proof fn lemma_square_columns(a: [u64; 4], w: [u64; 8], acc1: int, acc2: int, acc3: int,
    acc4: int, acc5: int, acc6: int, ov: int)
    requires
        a[0] * a[0] == w[0] + acc1 * b1(),
        acc1 + 2 * (a[0] * a[1]) == w[1] + acc2 * b1(),
        acc2 + 2 * (a[0] * a[2]) + a[1] * a[1] == w[2] + acc3 * b1(),
        acc3 + 2 * (a[0] * a[3]) + 2 * (a[1] * a[2]) == w[3] + acc4 * b1(),
        acc4 + 2 * (a[1] * a[3]) + a[2] * a[2] == w[4] + acc5 * b1(),
        acc5 + 2 * (a[2] * a[3]) == w[5] + acc6 * b1(),
        acc6 + a[3] * a[3] == w[6] + w[7] * b1() + ov * b2(),
        0 <= ov <= 1,
    ensures
        wide_nat(w) == limbs_nat(a) * limbs_nat(a),
        ov == 0,
{
    lemma_product_rows(a, a);
    vstd::arithmetic::mul::lemma_mul_is_commutative(a[0] as int, a[1] as int);
    vstd::arithmetic::mul::lemma_mul_is_commutative(a[0] as int, a[2] as int);
    vstd::arithmetic::mul::lemma_mul_is_commutative(a[0] as int, a[3] as int);
    vstd::arithmetic::mul::lemma_mul_is_commutative(a[1] as int, a[2] as int);
    vstd::arithmetic::mul::lemma_mul_is_commutative(a[1] as int, a[3] as int);
    vstd::arithmetic::mul::lemma_mul_is_commutative(a[2] as int, a[3] as int);
    assert(wide_nat(w) + ov * b8() == limbs_nat(a) * limbs_nat(a));
    lemma_limbs_bound(a);
    vstd::arithmetic::mul::lemma_mul_upper_bound(limbs_nat(a) as int, b4() - 1,
        limbs_nat(a) as int, b4() - 1);
}

/// Square of a 256-bit number into eight limbs, computing each cross product once.
#[verifier::rlimit(40)]
pub fn square_wide(a: [u64; 4]) -> (w: [u64; 8])
    ensures
        wide_nat(w) == limbs_nat(a) * limbs_nat(a),
{
    proof {
        lemma_mul_u64_bound(a[0], a[0]);
        lemma_mul_u64_bound(a[0], a[1]);
        lemma_mul_u64_bound(a[0], a[2]);
        lemma_mul_u64_bound(a[0], a[3]);
        lemma_mul_u64_bound(a[1], a[1]);
        lemma_mul_u64_bound(a[1], a[2]);
        lemma_mul_u64_bound(a[1], a[3]);
        lemma_mul_u64_bound(a[2], a[2]);
        lemma_mul_u64_bound(a[2], a[3]);
        lemma_mul_u64_bound(a[3], a[3]);
    }
    let a0 = a[0] as u128;
    let a1 = a[1] as u128;
    let a2 = a[2] as u128;
    let a3 = a[3] as u128;

    let p00 = a0 * a0;
    let w0 = p00 as u64;
    let mut acc = p00 >> 64;
    let mut top = 0u64;
    proof {
        lemma_split_u128(p00);
    }
    let ghost acc1 = acc;

    let p01 = a0 * a1;
    proof {
        lemma_double_u128(p01);
    }
    top += (p01 >> 127) as u64;
    let (sum, overflow) = add_u128(acc, p01 << 1);
    let w1 = sum as u64;
    acc = sum >> 64;
    top += if overflow { 1 } else { 0 };
    proof {
        lemma_split_u128(sum);
        lemma_or_high(acc, top);
    }

    acc |= (top as u128) << 64;
    let ghost acc2 = acc;
    assert(acc1 + 2 * p01 == w1 + acc2 * b1());
    top = 0;
    let p02 = a0 * a2;
    proof {
        lemma_double_u128(p02);
    }
    top += (p02 >> 127) as u64;
    let (sum, overflow) = add_u128(acc, p02 << 1);
    acc = sum;
    top += if overflow { 1 } else { 0 };
    let (sum, overflow) = add_u128(acc, a1 * a1);
    let w2 = sum as u64;
    acc = sum >> 64;
    top += if overflow { 1 } else { 0 };
    proof {
        lemma_split_u128(sum);
        lemma_or_high(acc, top);
    }

    acc |= (top as u128) << 64;
    let ghost acc3 = acc;
    assert(acc2 + 2 * p02 + a1 * a1 == w2 + acc3 * b1());
    top = 0;
    let p03 = a0 * a3;
    proof {
        lemma_double_u128(p03);
    }
    top += (p03 >> 127) as u64;
    let (sum, overflow) = add_u128(acc, p03 << 1);
    acc = sum;
    top += if overflow { 1 } else { 0 };
    let p12 = a1 * a2;
    proof {
        lemma_double_u128(p12);
    }
    top += (p12 >> 127) as u64;
    let (sum, overflow) = add_u128(acc, p12 << 1);
    let w3 = sum as u64;
    acc = sum >> 64;
    top += if overflow { 1 } else { 0 };
    proof {
        lemma_split_u128(sum);
        lemma_or_high(acc, top);
    }

    acc |= (top as u128) << 64;
    let ghost acc4 = acc;
    assert(acc3 + 2 * p03 + 2 * p12 == w3 + acc4 * b1());
    top = 0;
    let p13 = a1 * a3;
    proof {
        lemma_double_u128(p13);
    }
    top += (p13 >> 127) as u64;
    let (sum, overflow) = add_u128(acc, p13 << 1);
    acc = sum;
    top += if overflow { 1 } else { 0 };
    let (sum, overflow) = add_u128(acc, a2 * a2);
    let w4 = sum as u64;
    acc = sum >> 64;
    top += if overflow { 1 } else { 0 };
    proof {
        lemma_split_u128(sum);
        lemma_or_high(acc, top);
    }

    acc |= (top as u128) << 64;
    let ghost acc5 = acc;
    assert(acc4 + 2 * p13 + a2 * a2 == w4 + acc5 * b1());
    top = 0;
    let p23 = a2 * a3;
    proof {
        lemma_double_u128(p23);
    }
    top += (p23 >> 127) as u64;
    let (sum, overflow) = add_u128(acc, p23 << 1);
    let w5 = sum as u64;
    acc = sum >> 64;
    top += if overflow { 1 } else { 0 };
    proof {
        lemma_split_u128(sum);
        lemma_or_high(acc, top);
    }

    acc |= (top as u128) << 64;
    let ghost acc6 = acc;
    assert(acc5 + 2 * p23 == w5 + acc6 * b1());
    let (sum, overflow) = add_u128(acc, a3 * a3);
    let w6 = sum as u64;
    let w7 = (sum >> 64) as u64;
    proof {
        lemma_split_u128(sum);
        let w = [w0, w1, w2, w3, w4, w5, w6, w7];
        lemma_square_columns(a, w, acc1 as int, acc2 as int, acc3 as int, acc4 as int, acc5 as int,
            acc6 as int, if overflow { 1 } else { 0 });
        assert(!overflow);
    }
    [w0, w1, w2, w3, w4, w5, w6, w7]
}


/// The number whose big-endian base-256 digits are `s`.
pub open spec fn be_nat(s: Seq<u8>) -> nat
    decreases s.len(),
{
    if s.len() == 0 {
        0
    } else {
        be_nat(s.drop_last()) * 256 + s.last() as nat
    }
}

/// 256^n
pub open spec fn pow256(n: nat) -> nat
    decreases n,
{
    if n == 0 {
        1
    } else {
        256 * pow256((n - 1) as nat)
    }
}

pub proof fn lemma_pow256_values()
    ensures
        pow256(8) == b1(),
        pow256(16) == b2(),
        pow256(24) == b3(),
        pow256(32) == b4(),
{
    reveal_with_fuel(pow256, 33);
}

pub proof fn lemma_be_nat_concat(a: Seq<u8>, b: Seq<u8>)
    ensures
        be_nat(a + b) == be_nat(a) * pow256(b.len()) + be_nat(b),
    decreases b.len(),
{
    if b.len() == 0 {
        assert(a + b =~= a);
        assert(pow256(0) == 1);
        assert(be_nat(b) == 0);
    } else {
        let b2 = b.drop_last();
        assert((a + b).drop_last() =~= a + b2);
        assert((a + b).last() == b.last());
        assert(pow256(b.len()) == 256 * pow256(b2.len()));
        assert(be_nat(b) == be_nat(b2) * 256 + b.last() as nat);
        assert(be_nat(a + b) == be_nat(a + b2) * 256 + b.last() as nat);
        lemma_be_nat_concat(a, b2);
        let x = be_nat(a) as int;
        let p = pow256(b2.len()) as int;
        let y = be_nat(b2) as int;
        assert((x * p + y) * 256 == x * (256 * p) + y * 256) by (nonlinear_arith);
        assert(be_nat(a) * pow256(b.len()) == x * (256 * p));
    }
}

/// Appending eight bytes shifts the value by 64 bits.
pub proof fn lemma_be_nat_concat8(a: Seq<u8>, b: Seq<u8>)
    requires
        b.len() == 8,
    ensures
        be_nat(a + b) == be_nat(a) * b1() + be_nat(b),
{
    lemma_be_nat_concat(a, b);
    lemma_pow256_values();
}

pub proof fn lemma_be_nat_bound(s: Seq<u8>)
    ensures
        be_nat(s) < pow256(s.len()),
    decreases s.len(),
{
    if s.len() > 0 {
        lemma_be_nat_bound(s.drop_last());
        let x = be_nat(s.drop_last()) as int;
        let p = pow256((s.len() - 1) as nat) as int;
        assert(x * 256 + 255 < 256 * p) by (nonlinear_arith)
            requires
                x < p,
        ;
    }
}

/// Two byte strings of one length with the same value are equal.
pub proof fn lemma_be_nat_injective(s: Seq<u8>, t: Seq<u8>)
    requires
        s.len() == t.len(),
        be_nat(s) == be_nat(t),
    ensures
        s == t,
    decreases s.len(),
{
    if s.len() > 0 {
        let x = be_nat(s.drop_last()) as int;
        let y = be_nat(t.drop_last()) as int;
        let u = s.last() as int;
        let v = t.last() as int;
        assert(x == y && u == v) by (nonlinear_arith)
            requires
                x * 256 + u == y * 256 + v,
                0 <= u < 256,
                0 <= v < 256,
        ;
        lemma_be_nat_injective(s.drop_last(), t.drop_last());
        assert(s =~= s.drop_last().push(s.last()));
        assert(t =~= t.drop_last().push(t.last()));
    }
}

/// The value of eight big-endian bytes.
pub proof fn lemma_be_nat8(s: Seq<u8>)
    requires
        s.len() == 8,
    ensures
        be_nat(s) == s[0] * 0x100_0000_0000_0000nat + s[1] * 0x1_0000_0000_0000nat + s[2]
            * 0x100_0000_0000nat + s[3] * 0x1_0000_0000nat + s[4] * 0x100_0000nat + s[5]
            * 0x1_0000nat + s[6] * 0x100nat + s[7],
{
    assert forall|k: int| 1 <= k <= 8 implies be_nat(#[trigger] s.subrange(0, k)) == be_nat(
        s.subrange(0, k - 1),
    ) * 256 + s[k - 1] by {
        assert(s.subrange(0, k).drop_last() =~= s.subrange(0, k - 1));
    }
    assert(s.subrange(0, 0).len() == 0);
    assert(s.subrange(0, 8) =~= s);
    assert(be_nat(s.subrange(0, 1)) == s[0]);
    assert(be_nat(s.subrange(0, 2)) == be_nat(s.subrange(0, 1)) * 256 + s[1]);
    assert(be_nat(s.subrange(0, 3)) == be_nat(s.subrange(0, 2)) * 256 + s[2]);
    assert(be_nat(s.subrange(0, 4)) == be_nat(s.subrange(0, 3)) * 256 + s[3]);
    assert(be_nat(s.subrange(0, 5)) == be_nat(s.subrange(0, 4)) * 256 + s[4]);
    assert(be_nat(s.subrange(0, 6)) == be_nat(s.subrange(0, 5)) * 256 + s[5]);
    assert(be_nat(s.subrange(0, 7)) == be_nat(s.subrange(0, 6)) * 256 + s[6]);
    assert(be_nat(s) == be_nat(s.subrange(0, 7)) * 256 + s[7]);
}

/// Reads the big-endian 64-bit word at `bytes[offset..offset + 8]`.
pub fn load_be_u64(bytes: &[u8; 32], offset: usize) -> (r: u64)
    requires
        offset + 8 <= 32,
    ensures
        r == be_nat(bytes@.subrange(offset as int, offset + 8)),
{
    let b0 = bytes[offset];
    let b1 = bytes[offset + 1];
    let b2 = bytes[offset + 2];
    let b3 = bytes[offset + 3];
    let b4 = bytes[offset + 4];
    let b5 = bytes[offset + 5];
    let b6 = bytes[offset + 6];
    let b7 = bytes[offset + 7];
    let r = ((b0 as u64) << 56) | ((b1 as u64) << 48) | ((b2 as u64) << 40) | ((b3 as u64) << 32)
        | ((b4 as u64) << 24) | ((b5 as u64) << 16) | ((b6 as u64) << 8) | (b7 as u64);
    proof {
        assert(r == b0 as u64 * 0x100_0000_0000_0000u64 + b1 as u64 * 0x1_0000_0000_0000u64
            + b2 as u64 * 0x100_0000_0000u64 + b3 as u64 * 0x1_0000_0000u64 + b4 as u64
            * 0x100_0000u64 + b5 as u64 * 0x1_0000u64 + b6 as u64 * 0x100u64 + b7 as u64)
            by (bit_vector)
            requires
                r == ((b0 as u64) << 56u64) | ((b1 as u64) << 48u64) | ((b2 as u64) << 40u64)
                    | ((b3 as u64) << 32u64) | ((b4 as u64) << 24u64) | ((b5 as u64) << 16u64)
                    | ((b6 as u64) << 8u64) | (b7 as u64),
        ;
        lemma_be_nat8(bytes@.subrange(offset as int, offset + 8));
    }
    r
}

/// The eight big-endian bytes of a 64-bit word.
pub fn store_be_u64(x: u64) -> (r: [u8; 8])
    ensures
        be_nat(r@) == x,
{
    let r = [
        (x >> 56) as u8,
        (x >> 48) as u8,
        (x >> 40) as u8,
        (x >> 32) as u8,
        (x >> 24) as u8,
        (x >> 16) as u8,
        (x >> 8) as u8,
        x as u8,
    ];
    proof {
        assert(x == ((x >> 56u64) as u8) as u64 * 0x100_0000_0000_0000u64 + ((x >> 48u64) as u8)
            as u64 * 0x1_0000_0000_0000u64 + ((x >> 40u64) as u8) as u64 * 0x100_0000_0000u64
            + ((x >> 32u64) as u8) as u64 * 0x1_0000_0000u64 + ((x >> 24u64) as u8) as u64
            * 0x100_0000u64 + ((x >> 16u64) as u8) as u64 * 0x1_0000u64 + ((x >> 8u64) as u8)
            as u64 * 0x100u64 + (x as u8) as u64) by (bit_vector);
        lemma_be_nat8(r@);
    }
    r
}

/// The four 64-bit limbs of a 32-byte big-endian number, least significant first.
pub fn limbs_from_be_bytes(bytes: [u8; 32]) -> (limbs: [u64; 4])
    ensures
        limbs_nat(limbs) == be_nat(bytes@),
{
    let mut limbs = [0u64, 0, 0, 0];
    for i in 0..4
        invariant
            forall|j: int|
                0 <= j < i ==> limbs[j] as nat == be_nat(
                    #[trigger] bytes@.subrange(24 - 8 * j, 32 - 8 * j),
                ),
    {
        limbs[i] = load_be_u64(&bytes, 24 - 8 * i);
    }
    proof {
        let s = bytes@;
        let q0 = s.subrange(0, 8);
        let q1 = s.subrange(8, 16);
        let q2 = s.subrange(16, 24);
        let q3 = s.subrange(24, 32);
        assert(s =~= q0 + q1 + q2 + q3);
        assert(limbs[3] == be_nat(s.subrange(24 - 8 * 3, 32 - 8 * 3)));
        assert(limbs[2] == be_nat(s.subrange(24 - 8 * 2, 32 - 8 * 2)));
        assert(limbs[1] == be_nat(s.subrange(24 - 8 * 1, 32 - 8 * 1)));
        assert(limbs[0] == be_nat(s.subrange(24 - 8 * 0, 32 - 8 * 0)));
        lemma_pow256_values();
        lemma_be_nat_concat(q0 + q1 + q2, q3);
        lemma_be_nat_concat(q0 + q1, q2);
        lemma_be_nat_concat(q0, q1);
    }
    limbs
}

/// The 32-byte big-endian encoding of four 64-bit limbs.
pub fn be_bytes_from_limbs(limbs: [u64; 4]) -> (bytes: [u8; 32])
    ensures
        be_nat(bytes@) == limbs_nat(limbs),
{
    let q0 = store_be_u64(limbs[3]);
    let q1 = store_be_u64(limbs[2]);
    let q2 = store_be_u64(limbs[1]);
    let q3 = store_be_u64(limbs[0]);
    let bytes = [
        q0[0], q0[1], q0[2], q0[3], q0[4], q0[5], q0[6], q0[7],
        q1[0], q1[1], q1[2], q1[3], q1[4], q1[5], q1[6], q1[7],
        q2[0], q2[1], q2[2], q2[3], q2[4], q2[5], q2[6], q2[7],
        q3[0], q3[1], q3[2], q3[3], q3[4], q3[5], q3[6], q3[7],
    ];
    proof {
        assert(bytes@ =~= q0@ + q1@ + q2@ + q3@);
        assert(q0@.len() == 8 && q1@.len() == 8 && q2@.len() == 8 && q3@.len() == 8);
        lemma_pow256_values();
        lemma_be_nat_concat(q0@ + q1@ + q2@, q3@);
        lemma_be_nat_concat(q0@ + q1@, q2@);
        lemma_be_nat_concat(q0@, q1@);
        assert(be_nat(q0@) == limbs[3]);
        assert(be_nat(q0@ + q1@) == limbs[3] * b1() + limbs[2]);
        assert(be_nat(q0@ + q1@ + q2@) == limbs[3] * b2() + limbs[2] * b1() + limbs[1]);
        assert(be_nat(q0@ + q1@ + q2@ + q3@) == limbs_nat(limbs));
    }
    bytes
}


/// The limbs of a 4-limb number are its base-2^64 digits.
pub proof fn lemma_limbs_digits(l: [u64; 4])
    ensures
        limbs_nat(l) % b1() == l[0],
        (limbs_nat(l) / b1()) % b1() == l[1],
        (limbs_nat(l) / b2()) % b1() == l[2],
        limbs_nat(l) / b3() == l[3],
{
    let x = limbs_nat(l) as int;
    let (l0, l1, l2, l3) = (l[0] as int, l[1] as int, l[2] as int, l[3] as int);
    vstd::arithmetic::div_mod::lemma_fundamental_div_mod_converse(x, b1() as int, l1 + l2 * b1() + l3 * b2(), l0);
    vstd::arithmetic::div_mod::lemma_fundamental_div_mod_converse(l1 + l2 * b1() + l3 * b2(), b1() as int, l2 + l3 * b1(), l1);
    vstd::arithmetic::div_mod::lemma_fundamental_div_mod_converse(x, b2() as int, l2 + l3 * b1(), l0 + l1 * b1());
    vstd::arithmetic::div_mod::lemma_fundamental_div_mod_converse(l2 + l3 * b1(), b1() as int, l3, l2);
    vstd::arithmetic::div_mod::lemma_fundamental_div_mod_converse(x, b3() as int, l3, l0 + l1 * b1() + l2 * b2());
}

/// The value of 32 big-endian bytes, chunked into four 64-bit words.
pub proof fn lemma_be_nat32(s: Seq<u8>)
    requires
        s.len() == 32,
    ensures
        be_nat(s) == be_nat(s.subrange(0, 8)) * b3() + be_nat(s.subrange(8, 16)) * b2() + be_nat(
            s.subrange(16, 24),
        ) * b1() + be_nat(s.subrange(24, 32)),
{
    let q0 = s.subrange(0, 8);
    let q1 = s.subrange(8, 16);
    let q2 = s.subrange(16, 24);
    let q3 = s.subrange(24, 32);
    assert(s =~= q0 + q1 + q2 + q3);
    lemma_be_nat_concat8(q0 + q1 + q2, q3);
    lemma_be_nat_concat8(q0 + q1, q2);
    lemma_be_nat_concat8(q0, q1);
    assert(be_nat(q0 + q1) == be_nat(q0) * b1() + be_nat(q1));
    assert(be_nat(q0 + q1 + q2) == be_nat(q0) * b2() + be_nat(q1) * b1() + be_nat(q2));
}


/// The byte `q` places from the end is the base-256 digit of weight `256^q`.
pub proof fn lemma_be_byte(s: Seq<u8>, q: nat)
    requires
        q < s.len(),
    ensures
        (be_nat(s) / pow256(q)) % 256 == s[s.len() - 1 - q],
    decreases q,
{
    let t = s.drop_last();
    let x = be_nat(s) as int;
    vstd::arithmetic::div_mod::lemma_fundamental_div_mod_converse(x, 256, be_nat(t) as int, s.last() as int);
    if q == 0 {
        assert(pow256(0) == 1);
    } else {
        lemma_be_byte(t, (q - 1) as nat);
        lemma_pow256_positive((q - 1) as nat);
        let p = pow256((q - 1) as nat) as int;
        assert(pow256(q) == 256 * p);
        assert(x / 256 == be_nat(t));
        vstd::arithmetic::div_mod::lemma_div_denominator(x, 256, p);
        assert(x / (256 * p) == (x / 256) / p);
        assert(t[t.len() - 1 - (q - 1)] == s[s.len() - 1 - q]);
    }
}

pub proof fn lemma_pow256_positive(n: nat)
    ensures
        pow256(n) > 0,
    decreases n,
{
    if n > 0 {
        lemma_pow256_positive((n - 1) as nat);
    }
}

/// `2^(8q) == 256^q`
pub proof fn lemma_pow2_bytes(q: nat)
    ensures
        vstd::arithmetic::power2::pow2(8 * q) == pow256(q),
    decreases q,
{
    vstd::arithmetic::power2::lemma2_to64();
    if q > 0 {
        lemma_pow2_bytes((q - 1) as nat);
        vstd::arithmetic::power2::lemma_pow2_adds(8, 8 * (q - 1) as nat);
        assert(8 * q == 8 + 8 * (q - 1) as nat);
    }
}

/// Bit `i` of a 32-byte big-endian number is bit `i % 8` of byte `31 - i / 8`.
pub proof fn lemma_be_bit(s: Seq<u8>, i: nat)
    requires
        s.len() == 32,
        i < 256,
    ensures
        (be_nat(s) / vstd::arithmetic::power2::pow2(i)) % 2 == (s[31 - i / 8] as nat
            / vstd::arithmetic::power2::pow2(i % 8)) % 2,
{
    let q = i / 8;
    let r = i % 8;
    let x = be_nat(s) as int;
    let pq = pow256(q) as int;
    let pr = vstd::arithmetic::power2::pow2(r) as int;
    lemma_pow2_bytes(q);
    lemma_pow256_positive(q);
    vstd::arithmetic::power2::lemma_pow2_pos(r);
    vstd::arithmetic::power2::lemma_pow2_adds(8 * q, r);
    assert(i == 8 * q + r);
    vstd::arithmetic::div_mod::lemma_div_denominator(x, pq, pr);
    lemma_be_byte(s, q);
    let y = x / pq;
    vstd::arithmetic::div_mod::lemma_div_pos_is_pos(x, pq);
    let a = y / 256;
    let b = y % 256;
    vstd::arithmetic::div_mod::lemma_fundamental_div_mod(y, 256);
    // y / 2^r = a * 2^(8 - r) + b / 2^r
    vstd::arithmetic::power2::lemma2_to64();
    vstd::arithmetic::power2::lemma_pow2_adds((8 - r) as nat, r);
    let h = vstd::arithmetic::power2::pow2((8 - r) as nat) as int;
    assert(h * pr == 256);
    vstd::arithmetic::div_mod::lemma_fundamental_div_mod(b, pr);
    vstd::arithmetic::div_mod::lemma_div_pos_is_pos(b, pr);
    vstd::arithmetic::div_mod::lemma_mod_pos_bound(b, pr);
    assert(y == (a * h + b / pr) * pr + b % pr) by (nonlinear_arith)
        requires
            y == 256 * a + b,
            h * pr == 256,
            b == pr * (b / pr) + b % pr,
    ;
    vstd::arithmetic::div_mod::lemma_fundamental_div_mod_converse(y, pr, a * h + b / pr, b % pr);
    // a * 2^(8-r) is even
    vstd::arithmetic::power2::lemma_pow2_unfold((8 - r) as nat);
    let h2 = vstd::arithmetic::power2::pow2((8 - r - 1) as nat) as int;
    assert(a * h == 2 * (a * h2)) by (nonlinear_arith)
        requires
            h == 2 * h2,
    ;
    vstd::arithmetic::div_mod::lemma_mod_multiples_vanish(a * h2, b / pr, 2);
}


/// The `n`-byte big-endian encoding of `v mod 256^n`.
pub open spec fn be_bytes(v: nat, n: nat) -> Seq<u8>
    decreases n,
{
    if n == 0 {
        Seq::empty()
    } else {
        be_bytes(v / 256, (n - 1) as nat).push((v % 256) as u8)
    }
}

/// The encoding has `n` bytes and holds `v` when `v < 256^n`.
pub proof fn lemma_be_bytes(v: nat, n: nat)
    ensures
        be_bytes(v, n).len() == n,
        v < pow256(n) ==> be_nat(be_bytes(v, n)) == v,
    decreases n,
{
    if n > 0 {
        lemma_be_bytes(v / 256, (n - 1) as nat);
        let s = be_bytes(v, n);
        assert(s.drop_last() =~= be_bytes(v / 256, (n - 1) as nat));
        if v < pow256(n) {
            vstd::arithmetic::div_mod::lemma_fundamental_div_mod(v as int, 256);
            assert(v / 256 < pow256((n - 1) as nat));
        }
    }
}

/// A byte string of length `n` is the encoding of its value.
pub proof fn lemma_be_bytes_of_nat(s: Seq<u8>)
    ensures
        be_bytes(be_nat(s), s.len()) == s,
{
    lemma_be_nat_bound(s);
    lemma_be_bytes(be_nat(s), s.len());
    lemma_be_nat_injective(be_bytes(be_nat(s), s.len()), s);
}

/// The parity of a big-endian number is the parity of its last byte.
pub proof fn lemma_be_parity(s: Seq<u8>)
    requires
        s.len() > 0,
    ensures
        be_nat(s) % 2 == s.last() % 2,
        (s.last() & 1u8) == s.last() % 2,
{
    let b = s.last();
    assert((b & 1u8) == b % 2) by (bit_vector);
    let y = be_nat(s.drop_last()) as int;
    vstd::arithmetic::div_mod::lemma_mod_multiples_vanish(y * 128, b as int, 2);
}

/// Copies 32 bytes starting at `offset`.
pub fn copy_bytes32(src: &[u8], offset: usize) -> (r: [u8; 32])
    requires
        offset + 32 <= src.len(),
    ensures
        r@ == src@.subrange(offset as int, offset + 32),
{
    let mut r = [0u8; 32];
    for i in 0..32
        invariant
            offset + 32 <= src.len(),
            forall|j: int| 0 <= j < i ==> r[j] == src@[offset + j],
    {
        r[i] = src[offset + i];
    }
    assert(r@ =~= src@.subrange(offset as int, offset + 32));
    r
}

} // verus!
