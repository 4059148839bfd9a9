//! P-256 base field arithmetic.
//!
//! [`FieldElement`] represents an element of GF(p) where
//! `p = 2^256 - 2^224 + 2^192 + 2^96 - 1` (the P-256 field prime).
//! Internally elements are stored in Montgomery form; use
//! [`from_be_bytes`][FieldElement::from_be_bytes] and
//! [`to_be_bytes`][FieldElement::to_be_bytes] to convert from/to canonical
//! big-endian representation.
#![allow(unused_imports)]

use core::ops::{Add, Mul, Neg, Sub};
use vstd::prelude::*;
use vstd::std_specs::cmp::PartialEqSpecImpl;
use vstd::std_specs::ops::{AddSpecImpl, MulSpecImpl, NegSpecImpl, SubSpecImpl};

use crate::limbs::{
    add_limbs, adc, b1, b2, b3, b4, b5, b6, b7, be_bytes_from_limbs, be_nat, ge_limbs,
    lemma_be_nat32, lemma_be_nat8, lemma_limbs_bound, lemma_limbs_digits, limbs_from_be_bytes, limbs_nat, mac, mul_wide, sbb, square_wide,
    sub_limbs, wide_nat,
};
use crate::modular::{
    lemma_mont_add, lemma_mont_cancel, lemma_mont_from_canonical, lemma_mont_injective,
    lemma_mont_mul, lemma_mont_sub,
};

verus! {

/// The P-256 field prime `p`.
#[verifier::inline]
pub open spec fn field_prime() -> nat {
    0xffff_ffff_0000_0001_0000_0000_0000_0000_0000_0000_ffff_ffff_ffff_ffff_ffff_ffffnat
}

/// `2^-256` modulo `p`: the factor that maps Montgomery limbs to values.
#[verifier::inline]
pub open spec fn field_rinv() -> nat {
    0xffff_fffe_0000_0003_ffff_fffd_0000_0002_0000_0001_ffff_fffe_0000_0003_0000_0000nat
}

/// The field value represented by Montgomery limbs whose number is `l`.
pub open spec fn field_mont(l: nat) -> nat {
    (l * field_rinv()) % field_prime()
}

/// Addition in GF(p).
pub open spec fn field_add(a: nat, b: nat) -> nat {
    (a + b) % field_prime()
}

/// Subtraction in GF(p).
pub open spec fn field_sub(a: nat, b: nat) -> nat {
    ((a - b) % (field_prime() as int)) as nat
}

/// Multiplication in GF(p).
pub open spec fn field_mul(a: nat, b: nat) -> nat {
    (a * b) % field_prime()
}

/// Negation in GF(p).
pub open spec fn field_neg(a: nat) -> nat {
    ((0 - a) % (field_prime() as int)) as nat
}

/// `x^e` reduced modulo `p`.
pub open spec fn field_pow(x: nat, e: nat) -> nat {
    (vstd::arithmetic::power::pow(x as int, e) % (field_prime() as int)) as nat
}

const MODULUS: [u64; 4] = [
    0xffff_ffff_ffff_ffff,
    0x0000_0000_ffff_ffff,
    0x0000_0000_0000_0000,
    0xffff_ffff_0000_0001,
];

const R2: [u64; 4] = [
    0x0000_0000_0000_0003,
    0xffff_fffb_ffff_ffff,
    0xffff_ffff_ffff_fffe,
    0x0000_0004_ffff_fffd,
];

const P_MINUS_TWO: [u8; 32] = [
    0xff, 0xff, 0xff, 0xff, 0x00, 0x00, 0x00, 0x01, 0x00, 0x00, 0x00, 0x00, 0x00, 0x00, 0x00, 0x00,
    0x00, 0x00, 0x00, 0x00, 0xff, 0xff, 0xff, 0xff, 0xff, 0xff, 0xff, 0xff, 0xff, 0xff, 0xff, 0xfd,
];

const P_PLUS_ONE_DIV_4: [u8; 32] = [
    0x3f, 0xff, 0xff, 0xff, 0xc0, 0x00, 0x00, 0x00, 0x40, 0x00, 0x00, 0x00, 0x00, 0x00, 0x00, 0x00,
    0x00, 0x00, 0x00, 0x00, 0x40, 0x00, 0x00, 0x00, 0x00, 0x00, 0x00, 0x00, 0x00, 0x00, 0x00, 0x00,
];

proof fn lemma_field_constants()
    ensures
        limbs_nat(MODULUS) == field_prime(),
        limbs_nat(R2) == (b4() * b4()) % field_prime(),
        (limbs_nat(R2) * field_rinv() * field_rinv()) % field_prime() == 1,
        (b4() * field_rinv()) % field_prime() == 1,
        field_prime() < b4(),
        field_prime() > 3,
{
}

/// An element of GF(p), held as its Montgomery limbs `x * 2^256 mod p`.
#[derive(Clone, Copy, Debug, Eq)]
pub struct FieldElement {
    limbs: [u64; 4],
}

impl View for FieldElement {
    type V = nat;

    /// The element of GF(p), in `0..p`.
    closed spec fn view(&self) -> nat {
        field_mont(limbs_nat(self.limbs))
    }
}

/// The field element whose value is `v` (taken modulo `p`).
pub closed spec fn field_element(v: nat) -> FieldElement {
    let m = (v * b4()) % field_prime();
    FieldElement {
        limbs: [
            (m % b1()) as u64,
            ((m / b1()) % b1()) as u64,
            ((m / b2()) % b1()) as u64,
            (m / b3()) as u64,
        ],
    }
}

impl FieldElement {
    /// The limbs are a reduced Montgomery representative.
    #[verifier::type_invariant]
    pub closed spec fn wf(self) -> bool {
        limbs_nat(self.limbs) < field_prime()
    }

    /// Every field element has a value below `p`.
    pub proof fn lemma_value_bound(self)
        ensures
            self@ < field_prime(),
    {
    }

    /// Two well-formed field elements are equal exactly when their values are.
    pub proof fn lemma_eq_iff(self, other: Self)
        requires
            self.wf(),
            other.wf(),
        ensures
            (self == other) <==> (self@ == other@),
    {
        if self@ == other@ {
            lemma_field_constants();
            lemma_mont_injective(
                limbs_nat(self.limbs) as int,
                limbs_nat(other.limbs) as int,
                field_prime() as int,
                field_rinv() as int,
                b4() as int,
            );
            lemma_limbs_digits(self.limbs);
            lemma_limbs_digits(other.limbs);
            assert(self.limbs =~= other.limbs);
        }
    }

    /// A well-formed field element is the one that `field_element` names for its value.
    pub proof fn lemma_canonical(self)
        requires
            self.wf(),
        ensures
            self == field_element(self@),
            field_element(self@).wf(),
    {
        lemma_field_constants();
        let l = limbs_nat(self.limbs) as int;
        let p = field_prime() as int;
        lemma_mont_cancel(l, p, field_rinv() as int, b4() as int);
        vstd::arithmetic::mul::lemma_mul_is_commutative(self@ as int, b4() as int);
        vstd::arithmetic::div_mod::lemma_small_mod(l as nat, p as nat);
        let f = field_element(self@);
        lemma_limbs_digits(self.limbs);
        assert(f.limbs =~= self.limbs);
    }
}

impl FieldElement {
    /// The additive identity.
    pub fn zero() -> (r: Self)
        ensures
            r@ == 0,
    {
        Self { limbs: [0, 0, 0, 0] }
    }

    /// The multiplicative identity.
    pub fn one() -> (r: Self)
        ensures
            r@ == 1,
    {
        let r = Self {
            limbs: [
                0x0000_0000_0000_0001,
                0xffff_ffff_0000_0000,
                0xffff_ffff_ffff_ffff,
                0x0000_0000_ffff_fffe,
            ],
        };
        assert(limbs_nat(r.limbs) == b4() % field_prime());
        r
    }

    /// The Montgomery limbs, least significant first: `x * 2^256 mod p`.
    pub fn montgomery_limbs(self) -> (r: [u64; 4])
        ensures
            limbs_nat(r) == (self@ * b4()) % field_prime(),
    {
        proof {
            use_type_invariant(&self);
            self.lemma_canonical();
            lemma_limbs_digits(self.limbs);
            lemma_field_constants();
            lemma_mont_cancel(limbs_nat(self.limbs) as int, field_prime() as int, field_rinv() as int, b4() as int);
            vstd::arithmetic::div_mod::lemma_small_mod(limbs_nat(self.limbs), field_prime());
            vstd::arithmetic::mul::lemma_mul_is_commutative(self@ as int, b4() as int);
        }
        self.limbs
    }

    /// Builds an element from reduced Montgomery limbs.
    pub(crate) fn from_montgomery_limbs(limbs: [u64; 4]) -> (r: Self)
        requires
            limbs_nat(limbs) < field_prime(),
        ensures
            r@ == field_mont(limbs_nat(limbs)),
    {
        Self { limbs }
    }
}

/// `sum + carry * 2^256`, reduced once modulo `p`.
fn reduce_sum(sum: [u64; 4], carry: u64) -> (out: [u64; 4])
    requires
        carry <= 1,
        limbs_nat(sum) + carry * b4() < 2 * field_prime(),
    ensures
        limbs_nat(out) == (limbs_nat(sum) + carry * b4()) % (field_prime() as int),
        limbs_nat(out) < field_prime(),
{
    let (reduced, borrow) = sub_limbs(sum, MODULUS);
    proof {
        lemma_field_constants();
        lemma_limbs_bound(sum);
        lemma_limbs_bound(reduced);
        let s = limbs_nat(sum) + carry * b4();
        if s >= field_prime() {
            vstd::arithmetic::div_mod::lemma_mod_multiples_vanish(1, (s - field_prime()) as int, field_prime() as int);
            vstd::arithmetic::div_mod::lemma_small_mod((s - field_prime()) as nat, field_prime());
        } else {
            vstd::arithmetic::div_mod::lemma_small_mod(s as nat, field_prime());
        }
    }
    if carry != 0 || borrow == 0 {
        reduced
    } else {
        sum
    }
}

/// Subtracts `p` once from a value below `2p` held in five limbs when it is at least `p`.
fn reduce_wide(value: [u64; 5]) -> (out: [u64; 4])
    requires
        limbs_nat([value[0], value[1], value[2], value[3]]) + value[4] * b4() < 2 * field_prime(),
    ensures
        ({
            let v = limbs_nat([value[0], value[1], value[2], value[3]]) + value[4] * b4();
            limbs_nat(out) == if v >= field_prime() { v - field_prime() } else { v }
        }),
        limbs_nat(out) < field_prime(),
{
    proof {
        lemma_field_constants();
    }
    let (w0, borrow) = sbb(value[0], MODULUS[0], 0);
    let (w1, borrow) = sbb(value[1], MODULUS[1], borrow);
    let (w2, borrow) = sbb(value[2], MODULUS[2], borrow);
    let (w3, borrow) = sbb(value[3], MODULUS[3], borrow);
    let (t, borrow) = sbb(value[4], 0, borrow);

    if borrow == 0 {
        [w0, w1, w2, w3]
    } else {
        let (x0, carry) = adc(w0, MODULUS[0], 0);
        let (x1, carry) = adc(w1, MODULUS[1], carry);
        let (x2, carry) = adc(w2, MODULUS[2], carry);
        let (x3, carry) = adc(w3, MODULUS[3], carry);
        proof {
            lemma_limbs_bound([x0, x1, x2, x3]);
        }
        [x0, x1, x2, x3]
    }
}

/// After adding `m * p` to `t` the value `v * 2^256` is reached; `v` is then
/// `t * 2^-256` modulo `p`, below `2p`.
proof fn lemma_reduce_tail(t: int, m: int, v: int)
    requires
        0 <= t < field_prime() * b4(),
        0 <= m < b4(),
        0 <= v,
        t + m * field_prime() == v * b4(),
    ensures
        v < 2 * field_prime(),
        (t * field_rinv()) % (field_prime() as int) == if v >= field_prime() { v - field_prime() } else { v },
{
    lemma_field_constants();
    let p = field_prime() as int;
    assert(b4() * field_rinv() == 1 + 0xffff_ffff_0000_0002_0000_0000_0000_0000_0000_0001_0000_0000_0000_0000_0000_0001int * p);
    let k = v * 0xffff_ffff_0000_0002_0000_0000_0000_0000_0000_0001_0000_0000_0000_0000_0000_0001int - m * field_rinv();
    assert(t * field_rinv() == v * (b4() * field_rinv()) - m * field_rinv() * p);
    assert(t * field_rinv() == v + p * k);
    vstd::arithmetic::div_mod::lemma_mod_multiples_vanish(k, v, p);
    if v >= p {
        vstd::arithmetic::div_mod::lemma_mod_multiples_vanish(1, v - p, p);
        vstd::arithmetic::div_mod::lemma_small_mod((v - p) as nat, p as nat);
    } else {
        vstd::arithmetic::div_mod::lemma_small_mod(v as nat, p as nat);
    }
}

/// Montgomery reduction of an eight-limb value `t < p * 2^256`: `t * 2^-256 mod p`.
#[verifier::rlimit(80)]
#[verifier::spinoff_prover]
fn montgomery_reduce_words(
    r0: u64,
    r1: u64,
    r2: u64,
    r3: u64,
    r4: u64,
    r5: u64,
    r6: u64,
    r7: u64,
) -> (out: [u64; 4])
    requires
        wide_nat([r0, r1, r2, r3, r4, r5, r6, r7]) < field_prime() * b4(),
    ensures
        limbs_nat(out) == (wide_nat([r0, r1, r2, r3, r4, r5, r6, r7]) * field_rinv())
            % field_prime(),
        limbs_nat(out) < field_prime(),
{
    let ghost t = wide_nat([r0, r1, r2, r3, r4, r5, r6, r7]);
    let ghost k0 = r0;
    let (r1, carry) = mac(r1, r0, MODULUS[1], r0);
    let (r2, carry) = adc(r2, 0, carry);
    let (r3, carry) = mac(r3, r0, MODULUS[3], carry);
    let (r4, carry2) = adc(r4, 0, carry);
    assert(t + k0 * field_prime() == r1 * b1() + r2 * b2() + r3 * b3() + r4 * b4() + (carry2 + r5)
        * b5() + r6 * b6() + r7 * b7());

    let ghost k1 = r1;
    let (r2, carry) = mac(r2, r1, MODULUS[1], r1);
    let (r3, carry) = adc(r3, 0, carry);
    let (r4, carry) = mac(r4, r1, MODULUS[3], carry);
    let (r5, carry2) = adc(r5, carry2, carry);
    assert(t + (k0 + k1 * b1()) * field_prime() == r2 * b2() + r3 * b3() + r4 * b4() + r5 * b5() + (
    carry2 + r6) * b6() + r7 * b7());

    let ghost k2 = r2;
    let (r3, carry) = mac(r3, r2, MODULUS[1], r2);
    let (r4, carry) = adc(r4, 0, carry);
    let (r5, carry) = mac(r5, r2, MODULUS[3], carry);
    let (r6, carry2) = adc(r6, carry2, carry);
    assert(t + (k0 + k1 * b1() + k2 * b2()) * field_prime() == r3 * b3() + r4 * b4() + r5 * b5()
        + r6 * b6() + (carry2 + r7) * b7());

    let ghost k3 = r3;
    let (r4, carry) = mac(r4, r3, MODULUS[1], r3);
    let (r5, carry) = adc(r5, 0, carry);
    let (r6, carry) = mac(r6, r3, MODULUS[3], carry);
    let (r7, r8) = adc(r7, carry2, carry);
    proof {
        lemma_reduce_tail(t as int, k0 + k1 * b1() + k2 * b2() + k3 * b3(), limbs_nat([r4, r5, r6, r7]) + r8 * b4());
    }
    reduce_wide([r4, r5, r6, r7, r8])
}

/// Montgomery reduction of an eight-limb value.
fn montgomery_reduce(input: [u64; 8]) -> (out: [u64; 4])
    requires
        wide_nat(input) < field_prime() * b4(),
    ensures
        limbs_nat(out) == (wide_nat(input) * field_rinv()) % field_prime(),
        limbs_nat(out) < field_prime(),
{
    proof {
        assert(input =~= [input[0], input[1], input[2], input[3], input[4], input[5], input[6], input[7]]);
    }
    montgomery_reduce_words(
        input[0], input[1], input[2], input[3], input[4], input[5], input[6], input[7],
    )
}

proof fn lemma_product_below(x: nat, y: nat)
    requires
        x < field_prime(),
        y < field_prime(),
    ensures
        x * y < field_prime() * b4(),
{
    vstd::arithmetic::mul::lemma_mul_upper_bound(x as int, field_prime() - 1, y as int, field_prime() - 1);
    assert((field_prime() - 1) * (field_prime() - 1) < field_prime() * b4());
}

/// Montgomery product: `a * b * 2^-256 mod p`.
fn montgomery_mul(a: [u64; 4], b: [u64; 4]) -> (out: [u64; 4])
    requires
        limbs_nat(a) < field_prime(),
        limbs_nat(b) < field_prime(),
    ensures
        limbs_nat(out) == (limbs_nat(a) * limbs_nat(b) * field_rinv()) % field_prime(),
        limbs_nat(out) < field_prime(),
{
    proof {
        lemma_product_below(limbs_nat(a), limbs_nat(b));
    }
    montgomery_reduce(mul_wide(a, b))
}

/// Montgomery square: `a * a * 2^-256 mod p`.
fn montgomery_square(a: [u64; 4]) -> (out: [u64; 4])
    requires
        limbs_nat(a) < field_prime(),
    ensures
        limbs_nat(out) == (limbs_nat(a) * limbs_nat(a) * field_rinv()) % field_prime(),
        limbs_nat(out) < field_prime(),
{
    proof {
        lemma_product_below(limbs_nat(a), limbs_nat(a));
    }
    montgomery_reduce(square_wide(a))
}

/// Leaves Montgomery form: `a * 2^-256 mod p`.
fn from_montgomery(a: [u64; 4]) -> (out: [u64; 4])
    requires
        limbs_nat(a) < field_prime(),
    ensures
        limbs_nat(out) == field_mont(limbs_nat(a)),
        limbs_nat(out) < field_prime(),
{
    proof {
        lemma_field_constants();
    }
    montgomery_reduce([a[0], a[1], a[2], a[3], 0, 0, 0, 0])
}

impl Add for FieldElement {
    type Output = Self;

    fn add(self, rhs: Self) -> (r: Self)
        ensures
            r@ == field_add(self@, rhs@),
    {
        proof {
            use_type_invariant(&self);
            use_type_invariant(&rhs);
            lemma_field_constants();
        }
        let (sum, carry) = add_limbs(self.limbs, rhs.limbs);
        let r = Self { limbs: reduce_sum(sum, carry) };
        proof {
            lemma_mont_add(limbs_nat(self.limbs) as int, limbs_nat(rhs.limbs) as int, field_prime() as int, field_rinv() as int);
            r.lemma_canonical();
        }
        r
    }
}

impl AddSpecImpl for FieldElement {
    open spec fn obeys_add_spec() -> bool {
        true
    }

    open spec fn add_req(self, rhs: Self) -> bool {
        true
    }

    open spec fn add_spec(self, rhs: Self) -> Self {
        field_element(field_add(self@, rhs@))
    }
}

impl Sub for FieldElement {
    type Output = Self;

    fn sub(self, rhs: Self) -> (r: Self)
        ensures
            r@ == field_sub(self@, rhs@),
    {
        proof {
            use_type_invariant(&self);
            use_type_invariant(&rhs);
            lemma_field_constants();
        }
        let (difference, borrow) = sub_limbs(self.limbs, rhs.limbs);
        let (corrected, _) = add_limbs(difference, MODULUS);
        let r = Self { limbs: if borrow == 0 { difference } else { corrected } };
        proof {
            let la = limbs_nat(self.limbs) as int;
            let lb = limbs_nat(rhs.limbs) as int;
            let p = field_prime() as int;
            lemma_limbs_bound(corrected);
            if la >= lb {
                vstd::arithmetic::div_mod::lemma_small_mod((la - lb) as nat, p as nat);
            } else {
                vstd::arithmetic::div_mod::lemma_mod_multiples_vanish(-1, la - lb + p, p);
                vstd::arithmetic::div_mod::lemma_small_mod((la - lb + p) as nat, p as nat);
            }
            assert(limbs_nat(r.limbs) == (la - lb) % p);
            lemma_mont_sub(la, lb, p, field_rinv() as int);
            r.lemma_canonical();
        }
        r
    }
}

impl SubSpecImpl for FieldElement {
    open spec fn obeys_sub_spec() -> bool {
        true
    }

    open spec fn sub_req(self, rhs: Self) -> bool {
        true
    }

    open spec fn sub_spec(self, rhs: Self) -> Self {
        field_element(field_sub(self@, rhs@))
    }
}

impl Mul for FieldElement {
    type Output = Self;

    fn mul(self, rhs: Self) -> (r: Self)
        ensures
            r@ == field_mul(self@, rhs@),
    {
        proof {
            use_type_invariant(&self);
            use_type_invariant(&rhs);
        }
        let r = Self { limbs: montgomery_mul(self.limbs, rhs.limbs) };
        proof {
            lemma_field_constants();
            lemma_mont_mul(limbs_nat(self.limbs) as int, limbs_nat(rhs.limbs) as int, field_prime() as int, field_rinv() as int);
            r.lemma_canonical();
        }
        r
    }
}

impl MulSpecImpl for FieldElement {
    open spec fn obeys_mul_spec() -> bool {
        true
    }

    open spec fn mul_req(self, rhs: Self) -> bool {
        true
    }

    open spec fn mul_spec(self, rhs: Self) -> Self {
        field_element(field_mul(self@, rhs@))
    }
}

/// `x^e * x^e == x^(2e)` and `x^e * x == x^(e + 1)` in GF(p).
pub proof fn lemma_field_pow_steps(x: nat, e: nat)
    requires
        x < field_prime(),
    ensures
        field_mul(field_pow(x, e), field_pow(x, e)) == field_pow(x, e + e),
        field_mul(field_pow(x, e), x) == field_pow(x, e + 1),
        field_pow(x, 0) == 1,
        field_pow(x, e) < field_prime(),
{
    let p = field_prime() as int;
    let y = vstd::arithmetic::power::pow(x as int, e);
    vstd::arithmetic::power::lemma_pow_adds(x as int, e, e);
    vstd::arithmetic::power::lemma_pow_adds(x as int, e, 1);
    vstd::arithmetic::power::lemma_pow1(x as int);
    vstd::arithmetic::power::lemma_pow0(x as int);
    vstd::arithmetic::div_mod::lemma_mul_mod_noop(y, y, p);
    vstd::arithmetic::div_mod::lemma_mul_mod_noop_left(y, x as int, p);
    vstd::arithmetic::div_mod::lemma_small_mod(1, p as nat);
}

proof fn lemma_exponents()
    ensures
        be_nat(P_MINUS_TWO@) == field_prime() - 2,
        be_nat(P_PLUS_ONE_DIV_4@) == (field_prime() + 1) / 4,
{
    lemma_be_nat32(P_MINUS_TWO@);
    lemma_be_nat8(P_MINUS_TWO@.subrange(0, 8));
    lemma_be_nat8(P_MINUS_TWO@.subrange(8, 16));
    lemma_be_nat8(P_MINUS_TWO@.subrange(16, 24));
    lemma_be_nat8(P_MINUS_TWO@.subrange(24, 32));
    lemma_be_nat32(P_PLUS_ONE_DIV_4@);
    lemma_be_nat8(P_PLUS_ONE_DIV_4@.subrange(0, 8));
    lemma_be_nat8(P_PLUS_ONE_DIV_4@.subrange(8, 16));
    lemma_be_nat8(P_PLUS_ONE_DIV_4@.subrange(16, 24));
    lemma_be_nat8(P_PLUS_ONE_DIV_4@.subrange(24, 32));
}

proof fn lemma_byte_bit(byte: u8, b: u32)
    requires
        b < 8,
    ensures
        (byte >> b) as nat == 2 * (if b == 7 { 0 } else { (byte >> ((b + 1) as u32)) as nat }) + ((
        byte >> b) & 1) as nat,
        ((byte >> b) & 1) <= 1,
        b == 0 ==> (byte >> b) == byte,
{
    assert((byte >> b) & 1u8 <= 1u8) by (bit_vector);
    assert(b == 0 ==> (byte >> b) == byte) by (bit_vector);
    if b == 7 {
        assert((byte >> 7u32) == (byte >> 7u32) & 1u8) by (bit_vector);
    } else {
        assert((byte >> b) == 2u8 * (byte >> ((b + 1) as u32)) + ((byte >> b) & 1u8))
            by (bit_vector)
            requires
                b < 7,
        ;
    }
}

impl FieldElement {
    /// The element `value`.
    pub fn from_u64(value: u64) -> (r: Self)
        ensures
            r@ == value,
    {
        proof {
            lemma_field_constants();
        }
        Self::from_canonical_limbs([value, 0, 0, 0]).unwrap()
    }

    /// Parses a canonical big-endian encoding; `None` when the number is not below `p`.
    pub fn from_be_bytes(bytes: [u8; 32]) -> (r: Option<Self>)
        ensures
            r is Some <==> be_nat(bytes@) < field_prime(),
            r matches Some(f) ==> f@ == be_nat(bytes@),
    {
        Self::from_canonical_limbs(limbs_from_be_bytes(bytes))
    }

    /// The canonical big-endian encoding of the value.
    pub fn to_be_bytes(self) -> (r: [u8; 32])
        ensures
            be_nat(r@) == self@,
            r@ == crate::limbs::be_bytes(self@, 32),
    {
        proof {
            use_type_invariant(&self);
        }
        let r = be_bytes_from_limbs(from_montgomery(self.limbs));
        proof {
            crate::limbs::lemma_be_bytes_of_nat(r@);
        }
        r
    }

    /// Whether the value is zero.
    pub fn is_zero(self) -> (r: bool)
        ensures
            r == (self@ == 0),
    {
        self == Self::zero()
    }

    /// The square of this element.
    pub fn square(self) -> (r: Self)
        ensures
            r@ == field_mul(self@, self@),
    {
        proof {
            use_type_invariant(&self);
        }
        let r = Self { limbs: montgomery_square(self.limbs) };
        proof {
            lemma_field_constants();
            lemma_mont_mul(limbs_nat(self.limbs) as int, limbs_nat(self.limbs) as int, field_prime() as int, field_rinv() as int);
        }
        r
    }

    /// The inverse `x^(p-2)`; `None` for zero.
    pub fn invert(self) -> (r: Option<Self>)
        ensures
            r is None <==> self@ == 0,
            r matches Some(y) ==> y@ == field_pow(self@, (field_prime() - 2) as nat),
    {
        if self.is_zero() {
            return None;
        }
        proof {
            lemma_exponents();
        }
        Some(self.pow(P_MINUS_TWO))
    }

    /// A square root `x^((p+1)/4)`, returned when it squares back to this element.
    pub(crate) fn sqrt(self) -> (r: Option<Self>)
        ensures
            ({
                let c = field_pow(self@, ((field_prime() + 1) / 4) as nat);
                &&& r is Some <==> field_mul(c, c) == self@
                &&& r matches Some(y) ==> y@ == c
            }),
    {
        proof {
            lemma_exponents();
        }
        let candidate = self.pow(P_PLUS_ONE_DIV_4);
        if candidate.square() == self {
            Some(candidate)
        } else {
            None
        }
    }

    /// `self^e` where `e` is the big-endian number in `exponent`, by square and multiply.
    fn pow(self, exponent: [u8; 32]) -> (r: Self)
        ensures
            r@ == field_pow(self@, be_nat(exponent@)),
    {
        let x = self;
        proof {
            self.lemma_value_bound();
            lemma_field_pow_steps(self@, 0);
            assert(exponent@.subrange(0, 0).len() == 0);
        }
        let mut out = Self::one();
        for i in 0..32
            invariant
                out@ == field_pow(self@, be_nat(exponent@.subrange(0, i as int))),
                x == self,
        {
            let byte = exponent[i];
            let ghost e0 = be_nat(exponent@.subrange(0, i as int));
            let mut bit: u32 = 8;
            proof {
                vstd::arithmetic::power2::lemma2_to64();
                assert(e0 * vstd::arithmetic::power2::pow2(0) == e0 * 1);
            }
            while bit > 0
                invariant
                    bit <= 8,
                    x == self,
                    byte == exponent[i as int],
                    out@ == field_pow(
                        self@,
                        e0 * vstd::arithmetic::power2::pow2((8 - bit) as nat) + (if bit == 8 {
                            0
                        } else {
                            (byte >> bit) as nat
                        }),
                    ),
                decreases bit,
            {
                bit -= 1;
                let ghost e = e0 * vstd::arithmetic::power2::pow2((8 - bit - 1) as nat) + (if bit
                    == 7 {
                    0
                } else {
                    (byte >> ((bit + 1) as u32)) as nat
                });
                proof {
                    self.lemma_value_bound();
                    lemma_field_pow_steps(self@, e);
                    lemma_field_pow_steps(self@, e + e);
                    lemma_byte_bit(byte, bit);
                    vstd::arithmetic::power2::lemma_pow2_unfold((8 - bit) as nat);
                    vstd::arithmetic::mul::lemma_mul_is_distributive_add(e0 as int, vstd::arithmetic::power2::pow2((8 - bit - 1) as nat) as int, vstd::arithmetic::power2::pow2((8 - bit - 1) as nat) as int);
                }
                out = out.square();
                if ((byte >> bit) & 1) == 1 {
                    out = out * x;
                }
            }
            proof {
                let pre = exponent@.subrange(0, i as int);
                let next = exponent@.subrange(0, i + 1);
                assert(next.drop_last() =~= pre);
                lemma_byte_bit(byte, 0);
                assert(be_nat(next) == e0 * 256 + byte);
            }
        }
        proof {
            assert(exponent@.subrange(0, 32) =~= exponent@);
        }
        out
    }

    /// Checks the canonical range and converts to Montgomery form.
    fn from_canonical_limbs(limbs: [u64; 4]) -> (r: Option<Self>)
        ensures
            r is Some <==> limbs_nat(limbs) < field_prime(),
            r matches Some(f) ==> f@ == limbs_nat(limbs),
    {
        proof {
            lemma_field_constants();
        }
        if ge_limbs(limbs, MODULUS) {
            None
        } else {
            let r = Self { limbs: montgomery_mul(limbs, R2) };
            proof {
                lemma_mont_from_canonical(limbs_nat(limbs) as int, field_prime() as int, field_rinv() as int, limbs_nat(R2) as int);
                vstd::arithmetic::div_mod::lemma_small_mod(limbs_nat(limbs), field_prime());
            }
            Some(r)
        }
    }
}

impl Neg for FieldElement {
    type Output = Self;

    fn neg(self) -> (r: Self)
        ensures
            r@ == field_neg(self@),
    {
        proof {
            use_type_invariant(&self);
            lemma_field_constants();
        }
        let r = if self.is_zero() {
            self
        } else {
            Self::zero() - self
        };
        proof {
            use_type_invariant(&r);
            r.lemma_canonical();
        }
        r
    }
}

impl NegSpecImpl for FieldElement {
    open spec fn obeys_neg_spec() -> bool {
        true
    }

    open spec fn neg_req(self) -> bool {
        true
    }

    open spec fn neg_spec(self) -> Self {
        field_element(field_neg(self@))
    }
}

impl PartialEq for FieldElement {
    fn eq(&self, other: &Self) -> (r: bool) {
        proof {
            use_type_invariant(self);
            use_type_invariant(other);
            self.lemma_eq_iff(*other);
        }
        self.limbs[0] == other.limbs[0] && self.limbs[1] == other.limbs[1] && self.limbs[2]
            == other.limbs[2] && self.limbs[3] == other.limbs[3]
    }
}

impl PartialEqSpecImpl for FieldElement {
    open spec fn obeys_eq_spec() -> bool {
        true
    }

    open spec fn eq_spec(&self, other: &Self) -> bool {
        self@ == other@
    }
}

} // verus!
