//! P-256 scalar field arithmetic.
//!
//! [`Scalar`] represents an element of GF(n) where
//! `n = 0xffffffff00000000ffffffffffffffffbce6faada7179e84f3b9cac2fc632551`
//! is the P-256 group order. Internally scalars are stored in Montgomery
//! form; use [`from_be_bytes`][Scalar::from_be_bytes] and
//! [`to_be_bytes`][Scalar::to_be_bytes] to convert from/to canonical
//! big-endian representation.
#![allow(unused_imports)]

use core::ops::{Add, Mul, Neg, Sub};
use vstd::prelude::*;
use vstd::std_specs::cmp::PartialEqSpecImpl;
use vstd::std_specs::ops::{AddSpecImpl, MulSpecImpl, NegSpecImpl, SubSpecImpl};

use crate::limbs::{
    add_limbs, adc, b1, b2, b3, b4, b5, b6, b7, be_bytes_from_limbs, be_nat, ge_limbs,
    lemma_be_nat32, lemma_be_nat8, lemma_limbs_bound, lemma_limbs_digits, limbs_from_be_bytes, limbs_nat, mac, mul_wide, sbb, square_wide,
    sub_limbs, wide_nat,
};
use crate::modular::{
    lemma_mont_add, lemma_mont_cancel, lemma_mont_from_canonical, lemma_mont_injective,
    lemma_mont_mul, lemma_mont_sub,
};

verus! {

/// The order `n` of the P-256 group.
#[verifier::inline]
pub open spec fn scalar_order() -> nat {
    0xffff_ffff_0000_0000_ffff_ffff_ffff_ffff_bce6_faad_a717_9e84_f3b9_cac2_fc63_2551nat
}

/// `2^-256` modulo `n`: the factor that maps Montgomery limbs to values.
#[verifier::inline]
pub open spec fn scalar_rinv() -> nat {
    0x60d0_6633_4905_c1e9_07f8_b604_1e60_7725_bade_f3e2_4356_6faf_ce1b_c8f7_9c19_7c79nat
}

/// The scalar value represented by Montgomery limbs whose number is `l`.
pub open spec fn scalar_mont(l: nat) -> nat {
    (l * scalar_rinv()) % scalar_order()
}

/// Addition in GF(n).
pub open spec fn scalar_add(a: nat, b: nat) -> nat {
    (a + b) % scalar_order()
}

/// Subtraction in GF(n).
pub open spec fn scalar_sub(a: nat, b: nat) -> nat {
    ((a - b) % (scalar_order() as int)) as nat
}

/// Multiplication in GF(n).
pub open spec fn scalar_mul(a: nat, b: nat) -> nat {
    (a * b) % scalar_order()
}

/// Negation in GF(n).
pub open spec fn scalar_neg(a: nat) -> nat {
    ((0 - a) % (scalar_order() as int)) as nat
}

/// `x^e` reduced modulo `n`.
pub open spec fn scalar_pow(x: nat, e: nat) -> nat {
    (vstd::arithmetic::power::pow(x as int, e) % (scalar_order() as int)) as nat
}

const MODULUS: [u64; 4] = [
    0xf3b9_cac2_fc63_2551,
    0xbce6_faad_a717_9e84,
    0xffff_ffff_ffff_ffff,
    0xffff_ffff_0000_0000,
];

const MODULUS_INV: u64 = 0xccd1_c8aa_ee00_bc4f;

const MODULUS_MINUS_TWO: [u8; 32] = [
    0xff, 0xff, 0xff, 0xff, 0x00, 0x00, 0x00, 0x00, 0xff, 0xff, 0xff, 0xff, 0xff, 0xff, 0xff, 0xff,
    0xbc, 0xe6, 0xfa, 0xad, 0xa7, 0x17, 0x9e, 0x84, 0xf3, 0xb9, 0xca, 0xc2, 0xfc, 0x63, 0x25, 0x4f,
];

const INVERT_WINDOW: usize = 5;

const INVERT_TABLE_POINTS: usize = 16;

const R2: [u64; 4] = [
    0x8324_4c95_be79_eea2,
    0x4699_799c_49bd_6fa6,
    0x2845_b239_2b6b_ec59,
    0x66e1_2d94_f3d9_5620,
];

proof fn lemma_scalar_constants()
    ensures
        limbs_nat(MODULUS) == scalar_order(),
        limbs_nat(R2) == (b4() * b4()) % scalar_order(),
        (limbs_nat(R2) * scalar_rinv() * scalar_rinv()) % scalar_order() == 1,
        (b4() * scalar_rinv()) % scalar_order() == 1,
        scalar_order() < b4(),
        scalar_order() > 3,
        2 * scalar_order() > b4(),
{
}

/// An element of GF(n), held as its Montgomery limbs `x * 2^256 mod n`.
#[derive(Clone, Copy, Debug, Eq)]
pub struct Scalar {
    limbs: [u64; 4],
}

impl View for Scalar {
    type V = nat;

    /// The element of GF(n), in `0..n`.
    closed spec fn view(&self) -> nat {
        scalar_mont(limbs_nat(self.limbs))
    }
}

/// The scalar whose value is `v` (taken modulo `n`).
pub closed spec fn scalar_element(v: nat) -> Scalar {
    let m = (v * b4()) % scalar_order();
    Scalar {
        limbs: [
            (m % b1()) as u64,
            ((m / b1()) % b1()) as u64,
            ((m / b2()) % b1()) as u64,
            (m / b3()) as u64,
        ],
    }
}

impl Scalar {
    /// The limbs are a reduced Montgomery representative.
    #[verifier::type_invariant]
    pub closed spec fn wf(self) -> bool {
        limbs_nat(self.limbs) < scalar_order()
    }

    /// Every scalar has a value below `n`.
    pub proof fn lemma_value_bound(self)
        ensures
            self@ < scalar_order(),
    {
    }

    /// Two well-formed scalars are equal exactly when their values are.
    pub proof fn lemma_eq_iff(self, other: Self)
        requires
            self.wf(),
            other.wf(),
        ensures
            (self == other) <==> (self@ == other@),
    {
        if self@ == other@ {
            lemma_scalar_constants();
            lemma_mont_injective(
                limbs_nat(self.limbs) as int,
                limbs_nat(other.limbs) as int,
                scalar_order() as int,
                scalar_rinv() as int,
                b4() as int,
            );
            lemma_limbs_digits(self.limbs);
            lemma_limbs_digits(other.limbs);
            assert(self.limbs =~= other.limbs);
        }
    }

    /// A well-formed scalar is the one that `scalar_element` names for its value.
    pub proof fn lemma_canonical(self)
        requires
            self.wf(),
        ensures
            self == scalar_element(self@),
            scalar_element(self@).wf(),
    {
        lemma_scalar_constants();
        let l = limbs_nat(self.limbs) as int;
        let p = scalar_order() as int;
        lemma_mont_cancel(l, p, scalar_rinv() as int, b4() as int);
        vstd::arithmetic::mul::lemma_mul_is_commutative(self@ as int, b4() as int);
        vstd::arithmetic::div_mod::lemma_small_mod(l as nat, p as nat);
        let f = scalar_element(self@);
        lemma_limbs_digits(self.limbs);
        assert(f.limbs =~= self.limbs);
    }
}

impl Scalar {
    /// The additive identity.
    pub fn zero() -> (r: Self)
        ensures
            r@ == 0,
    {
        Self { limbs: [0, 0, 0, 0] }
    }

    /// The multiplicative identity.
    pub fn one() -> (r: Self)
        ensures
            r@ == 1,
    {
        let r = Self {
            limbs: [
                0x0c46_353d_039c_daaf,
                0x4319_0552_58e8_617b,
                0x0000_0000_0000_0000,
                0x0000_0000_ffff_ffff,
            ],
        };
        assert(limbs_nat(r.limbs) == b4() % scalar_order());
        r
    }


}

/// `sum + carry * 2^256`, reduced once modulo `n`.
fn reduce_sum(sum: [u64; 4], carry: u64) -> (out: [u64; 4])
    requires
        carry <= 1,
        limbs_nat(sum) + carry * b4() < 2 * scalar_order(),
    ensures
        limbs_nat(out) == (limbs_nat(sum) + carry * b4()) % (scalar_order() as int),
        limbs_nat(out) < scalar_order(),
{
    let (reduced, borrow) = sub_limbs(sum, MODULUS);
    proof {
        lemma_scalar_constants();
        lemma_limbs_bound(sum);
        lemma_limbs_bound(reduced);
        let s = limbs_nat(sum) + carry * b4();
        if s >= scalar_order() {
            vstd::arithmetic::div_mod::lemma_mod_multiples_vanish(1, (s - scalar_order()) as int, scalar_order() as int);
            vstd::arithmetic::div_mod::lemma_small_mod((s - scalar_order()) as nat, scalar_order());
        } else {
            vstd::arithmetic::div_mod::lemma_small_mod(s as nat, scalar_order());
        }
    }
    if carry != 0 || borrow == 0 {
        reduced
    } else {
        sum
    }
}

/// Subtracts `n` once from a value below `2n` held in five limbs when it is at least `n`.
fn reduce_wide(value: [u64; 5]) -> (out: [u64; 4])
    requires
        limbs_nat([value[0], value[1], value[2], value[3]]) + value[4] * b4() < 2 * scalar_order(),
    ensures
        ({
            let v = limbs_nat([value[0], value[1], value[2], value[3]]) + value[4] * b4();
            limbs_nat(out) == if v >= scalar_order() { v - scalar_order() } else { v }
        }),
        limbs_nat(out) < scalar_order(),
{
    proof {
        lemma_scalar_constants();
    }
    let (w0, borrow) = sbb(value[0], MODULUS[0], 0);
    let (w1, borrow) = sbb(value[1], MODULUS[1], borrow);
    let (w2, borrow) = sbb(value[2], MODULUS[2], borrow);
    let (w3, borrow) = sbb(value[3], MODULUS[3], borrow);
    let (_, borrow) = sbb(value[4], 0, borrow);

    if borrow == 0 {
        [w0, w1, w2, w3]
    } else {
        [value[0], value[1], value[2], value[3]]
    }
}

/// After adding `m * p` to `t` the value `v * 2^256` is reached; `v` is then
/// `t * 2^-256` modulo `n`, below `2p`.
proof fn lemma_reduce_tail(t: int, m: int, v: int)
    requires
        0 <= t < scalar_order() * b4(),
        0 <= m < b4(),
        0 <= v,
        t + m * scalar_order() == v * b4(),
    ensures
        v < 2 * scalar_order(),
        (t * scalar_rinv()) % (scalar_order() as int) == if v >= scalar_order() { v - scalar_order() } else { v },
{
    lemma_scalar_constants();
    let p = scalar_order() as int;
    assert(b4() * scalar_rinv() == 1 + 0x60d0_6633_a9d6_281c_50fe_77ec_c588_c6f6_48c9_4408_7d74_d2e4_ccd1_c8aa_ee00_bc4fint * p);
    let k = v * 0x60d0_6633_a9d6_281c_50fe_77ec_c588_c6f6_48c9_4408_7d74_d2e4_ccd1_c8aa_ee00_bc4fint - m * scalar_rinv();
    assert(t * scalar_rinv() == v * (b4() * scalar_rinv()) - m * scalar_rinv() * p);
    assert(t * scalar_rinv() == v + p * k);
    vstd::arithmetic::div_mod::lemma_mod_multiples_vanish(k, v, p);
    if v >= p {
        vstd::arithmetic::div_mod::lemma_mod_multiples_vanish(1, v - p, p);
        vstd::arithmetic::div_mod::lemma_small_mod((v - p) as nat, p as nat);
    } else {
        vstd::arithmetic::div_mod::lemma_small_mod(v as nat, p as nat);
    }
}

/// The Montgomery quotient digit `k = r * (-n^-1) mod 2^64` clears the low limb of `r + k * n`.
proof fn lemma_quotient_digit(r: u64, k: u64)
    requires
        k == r.wrapping_mul(MODULUS_INV),
    ensures
        (r + k * MODULUS[0]) % (b1() as int) == 0,
{
    let d = (r * MODULUS_INV) / (b1() as int);
    vstd::arithmetic::div_mod::lemma_fundamental_div_mod(r * MODULUS_INV, b1() as int);
    assert(k == (r * MODULUS_INV) % (b1() as int));
    assert(1 + MODULUS_INV * MODULUS[0] == 0xc2ff_c74d_ccaf_7720int * b1());
    assert(r + k * MODULUS[0] == (r * 0xc2ff_c74d_ccaf_7720int - d * MODULUS[0]) * b1());
    vstd::arithmetic::div_mod::lemma_mod_multiples_vanish(r * 0xc2ff_c74d_ccaf_7720int - d * MODULUS[0], 0, b1() as int);
}

/// One Montgomery step: `lo == 0` once `k` is the quotient digit of `r`.
proof fn lemma_low_limb_cleared(r: u64, k: u64, lo: u64, c: u64)
    requires
        k == r.wrapping_mul(MODULUS_INV),
        lo + c * b1() == r + k * MODULUS[0],
    ensures
        lo == 0,
{
    lemma_quotient_digit(r, k);
    vstd::arithmetic::div_mod::lemma_fundamental_div_mod(r + k * MODULUS[0], b1() as int);
}

/// Montgomery reduction of an eight-limb value `t < n * 2^256`: `t * 2^-256 mod n`.
#[verifier::rlimit(80)]
#[verifier::spinoff_prover]
fn montgomery_reduce_words(
    r0: u64,
    r1: u64,
    r2: u64,
    r3: u64,
    r4: u64,
    r5: u64,
    r6: u64,
    r7: u64,
) -> (out: [u64; 4])
    requires
        wide_nat([r0, r1, r2, r3, r4, r5, r6, r7]) < scalar_order() * b4(),
    ensures
        limbs_nat(out) == (wide_nat([r0, r1, r2, r3, r4, r5, r6, r7]) * scalar_rinv())
            % scalar_order(),
        limbs_nat(out) < scalar_order(),
{
    let ghost t = wide_nat([r0, r1, r2, r3, r4, r5, r6, r7]);
    proof {
        lemma_scalar_constants();
    }
    let k = r0.wrapping_mul(MODULUS_INV);
    let ghost k0 = k;
    let (lo, carry) = mac(r0, k, MODULUS[0], 0);
    proof {
        lemma_low_limb_cleared(r0, k, lo, carry);
    }
    let (r1, carry) = mac(r1, k, MODULUS[1], carry);
    let (r2, carry) = mac(r2, k, MODULUS[2], carry);
    let (r3, carry) = mac(r3, k, MODULUS[3], carry);
    let (r4, carry2) = adc(r4, 0, carry);
    assert(t + k0 * scalar_order() == r1 * b1() + r2 * b2() + r3 * b3() + r4 * b4() + (carry2 + r5)
        * b5() + r6 * b6() + r7 * b7());

    let k = r1.wrapping_mul(MODULUS_INV);
    let ghost k1 = k;
    let (lo, carry) = mac(r1, k, MODULUS[0], 0);
    proof {
        lemma_low_limb_cleared(r1, k, lo, carry);
    }
    let (r2, carry) = mac(r2, k, MODULUS[1], carry);
    let (r3, carry) = mac(r3, k, MODULUS[2], carry);
    let (r4, carry) = mac(r4, k, MODULUS[3], carry);
    let (r5, carry2) = adc(r5, carry2, carry);
    assert(t + (k0 + k1 * b1()) * scalar_order() == r2 * b2() + r3 * b3() + r4 * b4() + r5 * b5() + (
    carry2 + r6) * b6() + r7 * b7());

    let k = r2.wrapping_mul(MODULUS_INV);
    let ghost k2 = k;
    let (lo, carry) = mac(r2, k, MODULUS[0], 0);
    proof {
        lemma_low_limb_cleared(r2, k, lo, carry);
    }
    let (r3, carry) = mac(r3, k, MODULUS[1], carry);
    let (r4, carry) = mac(r4, k, MODULUS[2], carry);
    let (r5, carry) = mac(r5, k, MODULUS[3], carry);
    let (r6, carry2) = adc(r6, carry2, carry);
    assert(t + (k0 + k1 * b1() + k2 * b2()) * scalar_order() == r3 * b3() + r4 * b4() + r5 * b5()
        + r6 * b6() + (carry2 + r7) * b7());

    let k = r3.wrapping_mul(MODULUS_INV);
    let ghost k3 = k;
    let (lo, carry) = mac(r3, k, MODULUS[0], 0);
    proof {
        lemma_low_limb_cleared(r3, k, lo, carry);
    }
    let (r4, carry) = mac(r4, k, MODULUS[1], carry);
    let (r5, carry) = mac(r5, k, MODULUS[2], carry);
    let (r6, carry) = mac(r6, k, MODULUS[3], carry);
    let (r7, r8) = adc(r7, carry2, carry);
    proof {
        lemma_reduce_tail(t as int, k0 + k1 * b1() + k2 * b2() + k3 * b3(), limbs_nat([r4, r5, r6, r7]) + r8 * b4());
    }
    reduce_wide([r4, r5, r6, r7, r8])
}

/// Montgomery reduction of an eight-limb value.
fn montgomery_reduce(input: [u64; 8]) -> (out: [u64; 4])
    requires
        wide_nat(input) < scalar_order() * b4(),
    ensures
        limbs_nat(out) == (wide_nat(input) * scalar_rinv()) % scalar_order(),
        limbs_nat(out) < scalar_order(),
{
    proof {
        assert(input =~= [input[0], input[1], input[2], input[3], input[4], input[5], input[6], input[7]]);
    }
    montgomery_reduce_words(
        input[0], input[1], input[2], input[3], input[4], input[5], input[6], input[7],
    )
}

proof fn lemma_product_below(x: nat, y: nat)
    requires
        x < scalar_order(),
        y < scalar_order(),
    ensures
        x * y < scalar_order() * b4(),
{
    vstd::arithmetic::mul::lemma_mul_upper_bound(x as int, scalar_order() - 1, y as int, scalar_order() - 1);
    assert((scalar_order() - 1) * (scalar_order() - 1) < scalar_order() * b4());
}

/// Montgomery product: `a * b * 2^-256 mod p`.
fn montgomery_mul(a: [u64; 4], b: [u64; 4]) -> (out: [u64; 4])
    requires
        limbs_nat(a) < scalar_order(),
        limbs_nat(b) < scalar_order(),
    ensures
        limbs_nat(out) == (limbs_nat(a) * limbs_nat(b) * scalar_rinv()) % scalar_order(),
        limbs_nat(out) < scalar_order(),
{
    proof {
        lemma_product_below(limbs_nat(a), limbs_nat(b));
    }
    montgomery_reduce(mul_wide(a, b))
}

/// Montgomery square: `a * a * 2^-256 mod p`.
fn montgomery_square(a: [u64; 4]) -> (out: [u64; 4])
    requires
        limbs_nat(a) < scalar_order(),
    ensures
        limbs_nat(out) == (limbs_nat(a) * limbs_nat(a) * scalar_rinv()) % scalar_order(),
        limbs_nat(out) < scalar_order(),
{
    proof {
        lemma_product_below(limbs_nat(a), limbs_nat(a));
    }
    montgomery_reduce(square_wide(a))
}

/// Leaves Montgomery form: `a * 2^-256 mod p`.
fn from_montgomery(a: [u64; 4]) -> (out: [u64; 4])
    requires
        limbs_nat(a) < scalar_order(),
    ensures
        limbs_nat(out) == scalar_mont(limbs_nat(a)),
        limbs_nat(out) < scalar_order(),
{
    proof {
        lemma_scalar_constants();
    }
    montgomery_reduce([a[0], a[1], a[2], a[3], 0, 0, 0, 0])
}

impl Add for Scalar {
    type Output = Self;

    fn add(self, rhs: Self) -> (r: Self)
        ensures
            r@ == scalar_add(self@, rhs@),
    {
        proof {
            use_type_invariant(&self);
            use_type_invariant(&rhs);
            lemma_scalar_constants();
        }
        let (sum, carry) = add_limbs(self.limbs, rhs.limbs);
        let r = Self { limbs: reduce_sum(sum, carry) };
        proof {
            lemma_mont_add(limbs_nat(self.limbs) as int, limbs_nat(rhs.limbs) as int, scalar_order() as int, scalar_rinv() as int);
            r.lemma_canonical();
        }
        r
    }
}

impl AddSpecImpl for Scalar {
    open spec fn obeys_add_spec() -> bool {
        true
    }

    open spec fn add_req(self, rhs: Self) -> bool {
        true
    }

    open spec fn add_spec(self, rhs: Self) -> Self {
        scalar_element(scalar_add(self@, rhs@))
    }
}

impl Sub for Scalar {
    type Output = Self;

    fn sub(self, rhs: Self) -> (r: Self)
        ensures
            r@ == scalar_sub(self@, rhs@),
    {
        proof {
            use_type_invariant(&self);
            use_type_invariant(&rhs);
            lemma_scalar_constants();
        }
        let (difference, borrow) = sub_limbs(self.limbs, rhs.limbs);
        let (corrected, _) = add_limbs(difference, MODULUS);
        let r = Self { limbs: if borrow == 0 { difference } else { corrected } };
        proof {
            let la = limbs_nat(self.limbs) as int;
            let lb = limbs_nat(rhs.limbs) as int;
            let p = scalar_order() as int;
            lemma_limbs_bound(corrected);
            if la >= lb {
                vstd::arithmetic::div_mod::lemma_small_mod((la - lb) as nat, p as nat);
            } else {
                vstd::arithmetic::div_mod::lemma_mod_multiples_vanish(-1, la - lb + p, p);
                vstd::arithmetic::div_mod::lemma_small_mod((la - lb + p) as nat, p as nat);
            }
            assert(limbs_nat(r.limbs) == (la - lb) % p);
            lemma_mont_sub(la, lb, p, scalar_rinv() as int);
            r.lemma_canonical();
        }
        r
    }
}

impl SubSpecImpl for Scalar {
    open spec fn obeys_sub_spec() -> bool {
        true
    }

    open spec fn sub_req(self, rhs: Self) -> bool {
        true
    }

    open spec fn sub_spec(self, rhs: Self) -> Self {
        scalar_element(scalar_sub(self@, rhs@))
    }
}

impl Mul for Scalar {
    type Output = Self;

    fn mul(self, rhs: Self) -> (r: Self)
        ensures
            r@ == scalar_mul(self@, rhs@),
    {
        proof {
            use_type_invariant(&self);
            use_type_invariant(&rhs);
        }
        let r = Self { limbs: montgomery_mul(self.limbs, rhs.limbs) };
        proof {
            lemma_scalar_constants();
            lemma_mont_mul(limbs_nat(self.limbs) as int, limbs_nat(rhs.limbs) as int, scalar_order() as int, scalar_rinv() as int);
            r.lemma_canonical();
        }
        r
    }
}

impl MulSpecImpl for Scalar {
    open spec fn obeys_mul_spec() -> bool {
        true
    }

    open spec fn mul_req(self, rhs: Self) -> bool {
        true
    }

    open spec fn mul_spec(self, rhs: Self) -> Self {
        scalar_element(scalar_mul(self@, rhs@))
    }
}

/// `x^e * x^e == x^(2e)` and `x^e * x == x^(e + 1)` in GF(n).
pub proof fn lemma_scalar_pow_steps(x: nat, e: nat)
    requires
        x < scalar_order(),
    ensures
        scalar_mul(scalar_pow(x, e), scalar_pow(x, e)) == scalar_pow(x, e + e),
        scalar_mul(scalar_pow(x, e), x) == scalar_pow(x, e + 1),
        scalar_pow(x, 0) == 1,
        scalar_pow(x, e) < scalar_order(),
{
    let p = scalar_order() as int;
    let y = vstd::arithmetic::power::pow(x as int, e);
    vstd::arithmetic::power::lemma_pow_adds(x as int, e, e);
    vstd::arithmetic::power::lemma_pow_adds(x as int, e, 1);
    vstd::arithmetic::power::lemma_pow1(x as int);
    vstd::arithmetic::power::lemma_pow0(x as int);
    vstd::arithmetic::div_mod::lemma_mul_mod_noop(y, y, p);
    vstd::arithmetic::div_mod::lemma_mul_mod_noop_left(y, x as int, p);
    vstd::arithmetic::div_mod::lemma_small_mod(1, p as nat);
}

/// `x^a * x^b == x^(a + b)` in GF(n).
pub proof fn lemma_scalar_pow_add(x: nat, a: nat, b: nat)
    ensures
        scalar_mul(scalar_pow(x, a), scalar_pow(x, b)) == scalar_pow(x, a + b),
{
    let p = scalar_order() as int;
    vstd::arithmetic::power::lemma_pow_adds(x as int, a, b);
    vstd::arithmetic::div_mod::lemma_mul_mod_noop(vstd::arithmetic::power::pow(x as int, a), vstd::arithmetic::power::pow(x as int, b), p);
}

/// The exponent of the inversion, `n - 2`.
pub open spec fn inversion_exponent() -> nat {
    (scalar_order() - 2) as nat
}

/// The exponent with its lowest `b` bits dropped.
pub open spec fn exponent_prefix(b: nat) -> nat {
    inversion_exponent() / vstd::arithmetic::power2::pow2(b)
}

proof fn lemma_inversion_exponent()
    ensures
        be_nat(MODULUS_MINUS_TWO@) == inversion_exponent(),
        exponent_prefix(256) == 0,
        exponent_prefix(0) == inversion_exponent(),
{
    lemma_be_nat32(MODULUS_MINUS_TWO@);
    lemma_be_nat8(MODULUS_MINUS_TWO@.subrange(0, 8));
    lemma_be_nat8(MODULUS_MINUS_TWO@.subrange(8, 16));
    lemma_be_nat8(MODULUS_MINUS_TWO@.subrange(16, 24));
    lemma_be_nat8(MODULUS_MINUS_TWO@.subrange(24, 32));
    crate::limbs::lemma_pow2_bytes(32);
    crate::limbs::lemma_pow256_values();
    vstd::arithmetic::power2::lemma2_to64();
    vstd::arithmetic::div_mod::lemma_basic_div(inversion_exponent() as int, b4() as int);
}

/// Dropping one more bit halves the prefix: `prefix(b) == 2 * prefix(b + 1) + bit(b)`.
proof fn lemma_prefix_step(b: nat)
    ensures
        exponent_prefix(b) == 2 * exponent_prefix(b + 1) + exponent_prefix(b) % 2,
{
    let e = inversion_exponent() as int;
    vstd::arithmetic::power2::lemma_pow2_pos(b);
    vstd::arithmetic::power2::lemma_pow2_adds(b, 1);
    vstd::arithmetic::power2::lemma2_to64();
    vstd::arithmetic::div_mod::lemma_div_denominator(e, vstd::arithmetic::power2::pow2(b) as int, 2);
    vstd::arithmetic::div_mod::lemma_fundamental_div_mod(exponent_prefix(b) as int, 2);
}

/// Reads bit `bit` of `n - 2`.
fn modulus_minus_two_bit(bit: usize) -> (r: bool)
    requires
        bit < 256,
    ensures
        r == (exponent_prefix(bit as nat) % 2 == 1),
{
    let byte = MODULUS_MINUS_TWO[31 - bit / 8];
    let shift = (bit % 8) as u8;
    proof {
        lemma_inversion_exponent();
        crate::limbs::lemma_be_bit(MODULUS_MINUS_TWO@, bit as nat);
        vstd::bits::lemma_u8_shr_is_div(byte, shift);
        let y = byte >> shift;
        assert((y & 1u8 == 1u8) == (y % 2 == 1)) by (bit_vector);
    }
    ((byte >> shift) & 1) == 1
}

/// `[x, x^3, x^5, ..., x^31]`.
fn odd_powers(value: Scalar) -> (table: [Scalar; 16])
    ensures
        forall|i: int| 0 <= i < 16 ==> (#[trigger] table[i])@ == scalar_pow(value@, (2 * i + 1) as nat),
{
    let z = Scalar::zero();
    let mut table = [z; 16];
    proof {
        value.lemma_value_bound();
        lemma_scalar_pow_steps(value@, 0);
        lemma_scalar_pow_steps(value@, 1);
    }
    table[0] = value;

    let value_squared = value.square();
    for i in 1..16
        invariant
            value_squared@ == scalar_pow(value@, 2),
            forall|j: int| 0 <= j < i ==> (#[trigger] table[j])@ == scalar_pow(value@, (2 * j + 1) as nat),
    {
        proof {
            lemma_scalar_pow_add(value@, (2 * (i as int - 1) + 1) as nat, 2nat);
        }
        table[i] = table[i - 1] * value_squared;
    }

    table
}

impl Scalar {
    /// The inverse `x^(n-2)`, by a sliding window over the bits of `n - 2`; `None` for zero.
    #[verifier::rlimit(80)]
    #[verifier::spinoff_prover]
    pub fn invert(self) -> (r: Option<Self>)
        ensures
            r is None <==> self@ == 0,
            r matches Some(y) ==> y@ == scalar_pow(self@, inversion_exponent()),
    {
        if self.is_zero() {
            return None;
        }

        let mut table = odd_powers(self);
        let mut out = Self::one();
        let mut bit: isize = 255;
        proof {
            lemma_inversion_exponent();
            self.lemma_value_bound();
            lemma_scalar_pow_steps(self@, 0);
        }

        while bit >= 0
            invariant
                -1 <= bit <= 255,
                out@ == scalar_pow(self@, exponent_prefix((bit + 1) as nat)),
                forall|i: int| 0 <= i < 16 ==> (#[trigger] table[i])@ == scalar_pow(self@, (2 * i + 1) as nat),
            decreases bit + 1,
        {
            let ghost prefix = exponent_prefix((bit + 1) as nat);
            if !modulus_minus_two_bit(bit as usize) {
                proof {
                    lemma_prefix_step(bit as nat);
                    self.lemma_value_bound();
                    lemma_scalar_pow_steps(self@, prefix);
                }
                out = out.square();
                bit -= 1;
                continue;
            }

            let mut width = if bit as usize + 1 < INVERT_WINDOW { bit as usize + 1 } else { INVERT_WINDOW };
            while width > 1 && !modulus_minus_two_bit(bit as usize + 1 - width)
                invariant
                    1 <= width <= 5,
                    width <= bit + 1,
                    0 <= bit <= 255,
                decreases width,
            {
                width -= 1;
            }
            let low = bit as usize + 1 - width;
            proof {
                if width == 1 {
                    assert(low == bit);
                }
                assert(exponent_prefix(low as nat) % 2 == 1);
            }

            let mut value = 0usize;
            let mut i = bit as usize + 1;
            proof {
                vstd::arithmetic::power2::lemma2_to64();
            }
            while i > low
                invariant
                    low <= i <= bit + 1,
                    0 <= bit <= 255,
                    low == bit + 1 - width,
                    1 <= width <= 5,
                    value == exponent_prefix(i as nat) % vstd::arithmetic::power2::pow2((bit + 1 - i) as nat),
                decreases i,
            {
                i -= 1;
                let b = modulus_minus_two_bit(i);
                proof {
                    let k = (bit - i) as nat;
                    let x = exponent_prefix(i as nat) as int;
                    vstd::arithmetic::power2::lemma_pow2_pos(k);
                    vstd::arithmetic::power2::lemma_pow2_unfold(k + 1);
                    vstd::arithmetic::div_mod::lemma_mod_breakdown(x, 2, vstd::arithmetic::power2::pow2(k) as int);
                    lemma_prefix_step(i as nat);
                    vstd::arithmetic::div_mod::lemma_fundamental_div_mod(x, 2);
                    vstd::arithmetic::div_mod::lemma_mod_pos_bound(exponent_prefix((i + 1) as nat) as int, vstd::arithmetic::power2::pow2(k) as int);
                    vstd::arithmetic::power2::lemma2_to64();
                    vstd::arithmetic::power2::lemma_pow2_strictly_increases(k, 5);
                    let bv: usize = if b { 1 } else { 0 };
                    assert((value << 1usize) | bv == value * 2 + bv) by (bit_vector)
                        requires
                            value < 32,
                            bv <= 1,
                    ;
                }
                value = (value << 1) | if b { 1 } else { 0 };
            }
            proof {
                let x = exponent_prefix(low as nat) as int;
                let w = vstd::arithmetic::power2::pow2(width as nat) as int;
                vstd::arithmetic::power2::lemma_pow2_pos(width as nat);
                vstd::arithmetic::power2::lemma_pow2_pos(low as nat);
                vstd::arithmetic::power2::lemma_pow2_adds(low as nat, width as nat);
                vstd::arithmetic::div_mod::lemma_div_denominator(inversion_exponent() as int, vstd::arithmetic::power2::pow2(low as nat) as int, w);
                vstd::arithmetic::div_mod::lemma_fundamental_div_mod(x, w);
                vstd::arithmetic::power2::lemma_pow2_unfold(width as nat);
                vstd::arithmetic::div_mod::lemma_mod_mod(x, 2, vstd::arithmetic::power2::pow2((width - 1) as nat) as int);
                if width < 5 {
                    vstd::arithmetic::power2::lemma_pow2_strictly_increases(width as nat, 5);
                }
                vstd::arithmetic::div_mod::lemma_mod_pos_bound(x, w);
                assert(low + width == bit + 1);
                assert(vstd::arithmetic::power2::pow2(low as nat) * w == vstd::arithmetic::power2::pow2((bit + 1) as nat));
                assert(x / w == prefix);
                assert(value == x % w);
                vstd::arithmetic::mul::lemma_mul_is_commutative(prefix as int, w);
                assert(x == prefix * w + value);
            }

            let ghost before = out@;
            let mut j = 0usize;
            while j < width
                invariant
                    j <= width,
                    width <= 5,
                    out@ == scalar_pow(self@, prefix * vstd::arithmetic::power2::pow2(j as nat)),
                decreases width - j,
            {
                proof {
                    self.lemma_value_bound();
                    lemma_scalar_pow_steps(self@, prefix * vstd::arithmetic::power2::pow2(j as nat));
                    vstd::arithmetic::power2::lemma_pow2_unfold((j + 1) as nat);
                    vstd::arithmetic::mul::lemma_mul_is_distributive_add(prefix as int, vstd::arithmetic::power2::pow2(j as nat) as int, vstd::arithmetic::power2::pow2(j as nat) as int);
                }
                out = out.square();
                j += 1;
            }
            proof {
                assert(value >> 1usize == value / 2) by (bit_vector);
                assert(value / 2 < 16);
                assert(2 * (value / 2) + 1 == value);
                lemma_scalar_pow_add(self@, prefix * vstd::arithmetic::power2::pow2(width as nat), value as nat);
            }
            out = out * table[value >> 1];
            bit -= width as isize;
        }

        let mut k = 0usize;
        while k < INVERT_TABLE_POINTS
            invariant
                k <= 16,
            decreases 16 - k,
        {
            table[k].zeroize();
            k += 1;
        }
        proof {
            assert(exponent_prefix(0) == inversion_exponent());
        }
        Some(out)
    }

    /// Overwrites the limbs with zeros, leaving the scalar zero.
    pub fn zeroize(&mut self)
        ensures
            final(self)@ == 0,
    {
        crate::wipe::wipe_words(&mut self.limbs);
        proof {
            assert(self.limbs == [0u64, 0u64, 0u64, 0u64]);
        }
    }

    /// Parses a canonical big-endian encoding; `None` when the number is not below `n`.
    pub fn from_be_bytes(bytes: [u8; 32]) -> (r: Option<Self>)
        ensures
            r is Some <==> be_nat(bytes@) < scalar_order(),
            r matches Some(f) ==> f@ == be_nat(bytes@),
    {
        Self::from_canonical_limbs(limbs_from_be_bytes(bytes))
    }

    /// The canonical big-endian encoding of the value.
    pub fn to_be_bytes(self) -> (r: [u8; 32])
        ensures
            be_nat(r@) == self@,
            r@ == crate::limbs::be_bytes(self@, 32),
    {
        proof {
            use_type_invariant(&self);
        }
        let r = be_bytes_from_limbs(from_montgomery(self.limbs));
        proof {
            crate::limbs::lemma_be_bytes_of_nat(r@);
        }
        r
    }

    /// Whether the value is zero.
    pub fn is_zero(self) -> (r: bool)
        ensures
            r == (self@ == 0),
    {
        self == Self::zero()
    }

    /// The square of this element.
    pub fn square(self) -> (r: Self)
        ensures
            r@ == scalar_mul(self@, self@),
    {
        proof {
            use_type_invariant(&self);
        }
        let r = Self { limbs: montgomery_square(self.limbs) };
        proof {
            lemma_scalar_constants();
            lemma_mont_mul(limbs_nat(self.limbs) as int, limbs_nat(self.limbs) as int, scalar_order() as int, scalar_rinv() as int);
        }
        r
    }

    /// Reduces a 32-byte big-endian number modulo `n`.
    pub fn from_be_bytes_reduced(bytes: [u8; 32]) -> (r: Self)
        ensures
            r@ == be_nat(bytes@) % scalar_order(),
    {
        proof {
            lemma_scalar_constants();
        }
        let mut limbs = limbs_from_be_bytes(bytes);
        proof {
            crate::limbs::lemma_be_nat_bound(bytes@);
            crate::limbs::lemma_pow256_values();
        }

        if ge_limbs(limbs, MODULUS) {
            limbs = sub_limbs(limbs, MODULUS).0;
        }
        proof {
            let v = be_nat(bytes@);
            if v >= scalar_order() {
                vstd::arithmetic::div_mod::lemma_mod_multiples_vanish(1, v - scalar_order(), scalar_order() as int);
                vstd::arithmetic::div_mod::lemma_small_mod((v - scalar_order()) as nat, scalar_order());
            } else {
                vstd::arithmetic::div_mod::lemma_small_mod(v, scalar_order());
            }
        }
        let r = Self { limbs: montgomery_mul(limbs, R2) };
        proof {
            lemma_mont_from_canonical(limbs_nat(limbs) as int, scalar_order() as int, scalar_rinv() as int, limbs_nat(R2) as int);
            vstd::arithmetic::div_mod::lemma_small_mod(limbs_nat(limbs), scalar_order());
        }
        r
    }

    /// Checks the canonical range and converts to Montgomery form.
    fn from_canonical_limbs(limbs: [u64; 4]) -> (r: Option<Self>)
        ensures
            r is Some <==> limbs_nat(limbs) < scalar_order(),
            r matches Some(f) ==> f@ == limbs_nat(limbs),
    {
        proof {
            lemma_scalar_constants();
        }
        if ge_limbs(limbs, MODULUS) {
            None
        } else {
            let r = Self { limbs: montgomery_mul(limbs, R2) };
            proof {
                lemma_mont_from_canonical(limbs_nat(limbs) as int, scalar_order() as int, scalar_rinv() as int, limbs_nat(R2) as int);
                vstd::arithmetic::div_mod::lemma_small_mod(limbs_nat(limbs), scalar_order());
            }
            Some(r)
        }
    }
}

impl Neg for Scalar {
    type Output = Self;

    fn neg(self) -> (r: Self)
        ensures
            r@ == scalar_neg(self@),
    {
        Self::zero() - self
    }
}

impl NegSpecImpl for Scalar {
    open spec fn obeys_neg_spec() -> bool {
        true
    }

    open spec fn neg_req(self) -> bool {
        true
    }

    open spec fn neg_spec(self) -> Self {
        scalar_element(scalar_neg(self@))
    }
}

impl PartialEq for Scalar {
    fn eq(&self, other: &Self) -> (r: bool) {
        proof {
            use_type_invariant(self);
            use_type_invariant(other);
            self.lemma_eq_iff(*other);
        }
        self.limbs[0] == other.limbs[0] && self.limbs[1] == other.limbs[1] && self.limbs[2]
            == other.limbs[2] && self.limbs[3] == other.limbs[3]
    }
}

impl PartialEqSpecImpl for Scalar {
    open spec fn obeys_eq_spec() -> bool {
        true
    }

    open spec fn eq_spec(&self, other: &Self) -> bool {
        self@ == other@
    }
}

} // verus!
