//! Properties that relate the operations of the library to one another.
#![allow(unused_imports)]

use vstd::prelude::*;

use crate::ecdsa::{
    rfc6979_signature, sec1_decode, signature_for_nonce, signature_search,
};
use crate::field::field_prime;
use crate::ecdsa::sec1_compressed;
use crate::group::{
    decompress_y, affine_identity, affine_to_jacobian, jacobian_neg, jacobian_to_affine, on_curve, sec1_uncompressed,
};
use crate::field::{field_mul, field_neg, field_pow};
use crate::limbs::{be_bytes, be_nat, lemma_be_bytes, lemma_be_bytes_of_nat, lemma_pow256_values};
use crate::scalar::scalar_order;
use crate::group::{
    jacobian_add, jacobian_add_mixed, jacobian_double, jacobian_double_n, jacobian_identity, jacobian_multiple,
    shamir4_horner, shamir4_step, window4_entry, window4_horner, window4_mixed_horner, window4_mixed_step,
    window4_step, generator_affine, generator_jacobian, window8_sum,
};
use crate::limbs::pow256;
use crate::group::{row_base, shamir8_horner, window8_entry};
use crate::ecdsa::{has_affine_x, signature_verifies};
use crate::ecdsa::verification_point;
use crate::group::{lemma_wnaf_digit, odd_multiple, wnaf, wnaf_add_digit, wnaf_digit, wnaf_horner, wnaf_next};
use vstd::arithmetic::power2::{lemma_pow2_unfold, pow2};
use crate::scalar::{inversion_exponent, scalar_add, scalar_mul, scalar_neg, scalar_pow};
use vstd::arithmetic::power::{lemma1_pow, lemma_pow_adds, lemma_pow_distributes, lemma_pow_mod_noop, lemma_pow_multiplies, pow};
use vstd::arithmetic::div_mod::{lemma_mul_mod_noop, lemma_mul_mod_noop_left, lemma_mul_mod_noop_right, lemma_mod_twice, lemma_small_mod};

verus! {

/// Encoding a number below `2^256` in 32 bytes and reading it back gives the number;
/// this is what `to_be_bytes` followed by `from_be_bytes` does for field elements and
/// scalars.
pub proof fn lemma_bytes_round_trip(v: nat)
    requires
        v < crate::limbs::pow256(32),
    ensures
        be_bytes(v, 32).len() == 32,
        be_nat(be_bytes(v, 32)) == v,
{
    lemma_be_bytes(v, 32);
}

/// Reading 32 bytes and encoding the number again gives the same bytes, so
/// `from_be_bytes` followed by `to_be_bytes` is the identity on canonical encodings.
pub proof fn lemma_bytes_canonical(b: Seq<u8>)
    requires
        b.len() == 32,
    ensures
        be_bytes(be_nat(b), 32) == b,
{
    lemma_be_bytes_of_nat(b);
}

/// The fixed-width encoding `r || s` of a valid signature is accepted by `from_slice`,
/// which gives back `(r, s)`.
pub proof fn lemma_fixed_width_round_trip(r: nat, s: nat)
    requires
        0 < r < scalar_order(),
        0 < s < scalar_order(),
    ensures
        ({
            let b = be_bytes(r, 32) + be_bytes(s, 32);
            &&& b.len() == 64
            &&& be_nat(b.subrange(0, 32)) == r
            &&& be_nat(b.subrange(32, 64)) == s
        }),
{
    lemma_pow256_values();
    lemma_be_bytes(r, 32);
    lemma_be_bytes(s, 32);
    let b = be_bytes(r, 32) + be_bytes(s, 32);
    assert(b.subrange(0, 32) =~= be_bytes(r, 32));
    assert(b.subrange(32, 64) =~= be_bytes(s, 32));
}

/// The uncompressed SEC1 encoding of a curve point decodes to that point.
pub proof fn lemma_sec1_uncompressed_round_trip(x: nat, y: nat)
    requires
        x < field_prime(),
        y < field_prime(),
        on_curve(x, y),
    ensures
        sec1_decode(sec1_uncompressed(x, y)) == Some((x, y)),
{
    lemma_pow256_values();
    lemma_be_bytes(x, 32);
    lemma_be_bytes(y, 32);
    let b = sec1_uncompressed(x, y);
    assert(b.subrange(1, 33) =~= be_bytes(x, 32));
    assert(b.subrange(33, 65) =~= be_bytes(y, 32));
}

/// The compressed SEC1 encoding of a point decodes to that point whenever square-root
/// recovery with the parity of `y` gives `y` back.
pub proof fn lemma_sec1_compressed_round_trip(x: nat, y: nat)
    requires
        x < field_prime(),
        decompress_y(x, y % 2 == 1) == Some(y),
    ensures
        sec1_decode(sec1_compressed(x, y)) == Some((x, y)),
{
    lemma_pow256_values();
    lemma_be_bytes(x, 32);
    let b = sec1_compressed(x, y);
    assert(b.subrange(1, 33) =~= be_bytes(x, 32));
}

/// Every signature that the nonce search finds has `r` and `s` nonzero and below `n`.
proof fn lemma_search_range(d: nat, z: nat, key: Seq<u8>, value: Seq<u8>, fuel: nat)
    ensures
        signature_search(d, z, key, value, fuel) matches Some((r, s)) ==> 0 < r < scalar_order()
            && 0 < s < scalar_order(),
    decreases fuel,
{
    reveal(signature_for_nonce);
    if fuel > 0 {
        match crate::rfc6979::nonce_search(key, value, u64::MAX as nat) {
            Some((k, key1, value1)) => {
                let next = crate::rfc6979::drbg_retry(key1, value1);
                lemma_search_range(d, z, next.0, next.1, (fuel - 1) as nat);
            },
            None => {},
        }
    }
}

/// A deterministic signature, when there is one, has `r` and `s` in `[1, n-1]`.
pub proof fn lemma_signature_range(d: nat, digest: Seq<u8>)
    ensures
        rfc6979_signature(d, digest) matches Some((r, s)) ==> 0 < r < scalar_order() && 0 < s
            < scalar_order(),
{
    let z = be_nat(digest) % scalar_order();
    let state = crate::rfc6979::drbg_init(be_bytes(d, 32), be_bytes(z, 32));
    lemma_search_range(d, z, state.0, state.1, u64::MAX as nat);
}

/// Lifting an affine point to Jacobian coordinates and normalising it again gives the
/// point back.
pub proof fn lemma_affine_round_trip(a: (nat, nat, bool))
    requires
        a.0 < field_prime(),
        a.1 < field_prime(),
        a.2 ==> a == affine_identity(),
    ensures
        jacobian_to_affine(affine_to_jacobian(a)) == a,
{
    if !a.2 {
        vstd::arithmetic::power::lemma1_pow((field_prime() - 2) as nat);
        vstd::arithmetic::div_mod::lemma_small_mod(1, field_prime());
        vstd::arithmetic::div_mod::lemma_small_mod(a.0, field_prime());
        vstd::arithmetic::div_mod::lemma_small_mod(a.1, field_prime());
        assert(field_pow(1, (field_prime() - 2) as nat) == 1);
        assert(field_mul(1, 1) == 1);
        assert(field_mul(a.0, 1) == a.0);
        assert(field_mul(a.1, 1) == a.1);
    }
}

/// Negating a point twice gives it back.
pub proof fn lemma_neg_involution(p: (nat, nat, nat))
    requires
        p.1 < field_prime(),
    ensures
        jacobian_neg(jacobian_neg(p)) == p,
{
    let y = p.1 as int;
    let m = field_prime() as int;
    if y == 0 {
        assert(field_neg(0) == 0);
    } else {
        vstd::arithmetic::div_mod::lemma_fundamental_div_mod_converse(0 - y, m, -1, m - y);
        vstd::arithmetic::div_mod::lemma_fundamental_div_mod_converse(0 - (m - y), m, -1, y);
    }
}


/// Doubling the point at infinity any number of times leaves it there.
proof fn lemma_double_n_identity(n: nat)
    ensures
        jacobian_double_n(jacobian_identity(), n) == jacobian_identity(),
    decreases n,
{
    if n > 0 {
        lemma_double_n_identity((n - 1) as nat);
    }
}

/// Every byte of the encoding of zero is zero.
proof fn lemma_be_bytes_zero(n: nat)
    ensures
        be_bytes(0, n).len() == n,
        forall|j: int| 0 <= j < n ==> #[trigger] be_bytes(0, n)[j] == 0,
    decreases n,
{
    if n > 0 {
        lemma_be_bytes_zero((n - 1) as nat);
    }
}

/// One more leading zero byte does not change `k * P`.
proof fn lemma_window4_leading_zero(p: (nat, nat, nat), v: nat, n: nat)
    requires
        v < pow256(n),
    ensures
        window4_horner(p, be_bytes(v, n + 1)) == window4_horner(p, be_bytes(v, n)),
    decreases n,
{
    lemma_double_n_identity(4);
    let s = be_bytes(v, n + 1);
    assert(s.drop_last() =~= be_bytes(v / 256, n));
    if n == 0 {
        assert(v == 0);
        assert(be_bytes(v / 256, 0) =~= Seq::<u8>::empty());
    } else {
        vstd::arithmetic::div_mod::lemma_fundamental_div_mod(v as int, 256);
        assert(v / 256 < pow256((n - 1) as nat));
        lemma_window4_leading_zero(p, v / 256, (n - 1) as nat);
        assert(be_bytes(v, n).drop_last() =~= be_bytes(v / 256, (n - 1) as nat));
    }
}

/// Scalar multiplication by zero gives the point at infinity.
proof fn lemma_window4_zero(p: (nat, nat, nat), n: nat)
    ensures
        window4_horner(p, be_bytes(0, n)) == jacobian_identity(),
    decreases n,
{
    lemma_double_n_identity(4);
    if n > 0 {
        lemma_window4_zero(p, (n - 1) as nat);
        assert(be_bytes(0, n).drop_last() =~= be_bytes(0, (n - 1) as nat));
    }
}

/// `mul_scalar_vartime` by a scalar `k` below 16 is `P` added to itself `k` times, for any
/// Jacobian `P`, whatever its `Z`: in particular `0 * P` is the point at infinity and
/// `1 * P` is `P` itself.
#[verifier::spinoff_prover]
pub proof fn lemma_mul_scalar_small(p: (nat, nat, nat), k: nat)
    requires
        k < 16,
    ensures
        window4_horner(p, be_bytes(k, 32)) == jacobian_multiple(p, k),
{
    lemma_double_n_identity(4);
    lemma_window4_zero(p, 31);
    assert(be_bytes(k, 32).drop_last() =~= be_bytes(0, 31));
    assert(be_bytes(k, 32).last() == k);
}

/// `mul_scalar_vartime` is determined by its values on smaller scalars: `k * P` is
/// `16 (16 (floor(k / 256) * P) + h * P) + l * P`, with `h` and `l` the two base-16 digits
/// of the last byte of `k`. With `lemma_mul_scalar_small`, this fixes `k * P` for every
/// 32-byte scalar.
pub proof fn lemma_mul_scalar_recurrence(p: (nat, nat, nat), k: nat)
    requires
        k < pow256(32),
    ensures
        window4_horner(p, be_bytes(k, 32)) == jacobian_add(
            jacobian_double_n(
                jacobian_add(
                    jacobian_double_n(window4_horner(p, be_bytes(k / 256, 32)), 4),
                    window4_horner(p, be_bytes((k % 256) / 16, 32)),
                ),
                4,
            ),
            window4_horner(p, be_bytes(k % 16, 32)),
        ),
{
    let s = be_bytes(k, 32);
    assert(s.drop_last() =~= be_bytes(k / 256, 31));
    vstd::arithmetic::div_mod::lemma_fundamental_div_mod(k as int, 256);
    assert(k / 256 < pow256(31));
    lemma_window4_leading_zero(p, k / 256, 31);
    let byte = s.last();
    assert(byte == k % 256);
    lemma_mul_scalar_small(p, (k % 256) / 16);
    lemma_mul_scalar_small(p, k % 16);
    assert((k % 256) % 16 == k % 16) by {
        vstd::arithmetic::div_mod::lemma_mod_mod(k as int, 16, 16);
    }
}

/// Adding the normalised zero-th entry of a table (the point at infinity) changes nothing.
proof fn lemma_add_entry_zero(out: (nat, nat, nat), a: (nat, nat, bool))
    ensures
        window4_entry(a, 0).2,
        jacobian_add_mixed(out, window4_entry(a, 0)) == out,
{
}

/// With a zero second scalar, one interleaved step is a step of the single evaluation at `g`.
proof fn lemma_shamir4_steps(g: (nat, nat, bool), q: (nat, nat, bool), gs: Seq<u8>, qs: Seq<u8>, i: nat)
    requires
        i <= gs.len(),
        i <= qs.len(),
    ensures
        (forall|j: int| 0 <= j < i ==> #[trigger] qs[j] == 0) ==> shamir4_horner(g, q, gs, qs, i)
            == window4_mixed_horner(g, gs, i),
        (forall|j: int| 0 <= j < i ==> #[trigger] gs[j] == 0) ==> shamir4_horner(g, q, gs, qs, i)
            == window4_mixed_horner(q, qs, i),
    decreases i,
{
    if i > 0 {
        lemma_shamir4_steps(g, q, gs, qs, (i - 1) as nat);
        let prev = shamir4_horner(g, q, gs, qs, (i - 1) as nat);
        let d = jacobian_double_n(prev, 4);
        lemma_add_entry_zero(d, g);
        lemma_add_entry_zero(d, q);
        let gb = gs[i - 1];
        let qb = qs[i - 1];
        let hg = jacobian_add_mixed(d, window4_entry(g, (gb / 16) as nat));
        let hq = jacobian_add_mixed(d, window4_entry(q, (qb / 16) as nat));
        lemma_add_entry_zero(jacobian_double_n(hg, 4), g);
        lemma_add_entry_zero(jacobian_double_n(hq, 4), q);
        lemma_add_entry_zero(jacobian_double_n(jacobian_add_mixed(d, window4_entry(g, 0)), 4), g);
        if forall|j: int| 0 <= j < i ==> #[trigger] qs[j] == 0 {
            assert(qs[i - 1] == 0);
            assert forall|j: int| 0 <= j < i - 1 implies #[trigger] qs[j] == 0 by {
                assert(qs[j] == 0);
            }
            lemma_add_entry_zero(hg, q);
            lemma_add_entry_zero(
                jacobian_add_mixed(jacobian_double_n(hg, 4), window4_entry(g, (gb % 16) as nat)),
                q,
            );
        }
        if forall|j: int| 0 <= j < i ==> #[trigger] gs[j] == 0 {
            assert(gs[i - 1] == 0);
            assert forall|j: int| 0 <= j < i - 1 implies #[trigger] gs[j] == 0 by {
                assert(gs[j] == 0);
            }
        }
    }
}

/// `double_scalar_mul_shamir_vartime(a, Q, 0)` is `mul_affine_scalar_vartime(G, a)`, and
/// `double_scalar_mul_shamir_vartime(0, Q, b)` is `mul_affine_scalar_vartime(Q, b)`: the first
/// scalar multiplies the generator and the second the given point.
pub proof fn lemma_shamir_single_scalar(q: (nat, nat, bool), a: Seq<u8>, b: Seq<u8>)
    requires
        a.len() == 32,
        b.len() == 32,
    ensures
        shamir4_horner(generator_affine(), q, a, be_bytes(0, 32), 32) == window4_mixed_horner(
            generator_affine(),
            a,
            32,
        ),
        shamir4_horner(generator_affine(), q, be_bytes(0, 32), b, 32) == window4_mixed_horner(q, b, 32),
{
    lemma_be_bytes_zero(32);
    lemma_shamir4_steps(generator_affine(), q, a, be_bytes(0, 32), 32);
    lemma_shamir4_steps(generator_affine(), q, be_bytes(0, 32), b, 32);
}

/// The verifying key of a secret `d` is what `mul_generator_vartime` gives for the 32
/// big-endian bytes of `d`, normalised: `from_bytes(b)` derives its key as
/// `mul_generator_vartime(b).to_affine()`.
pub proof fn lemma_public_key_is_generator_product(b: Seq<u8>)
    requires
        b.len() == 32,
    ensures
        crate::ecdsa::public_key_of(be_nat(b)) == ({
            let point = jacobian_to_affine(window8_sum(generator_jacobian(), b, 32));
            if point.2 {
                None
            } else {
                Some((point.0, point.1))
            }
        }),
{
    reveal(crate::ecdsa::generator_multiple);
    lemma_be_bytes_of_nat(b);
}


/// Powers of a natural number are natural numbers.
proof fn lemma_pow_nonneg(b: int, e: nat)
    requires
        b >= 0,
    ensures
        pow(b, e) >= 0,
{
    if b > 0 {
        vstd::arithmetic::power::lemma_pow_positive(b, e);
    } else if e > 0 {
        vstd::arithmetic::power::lemma0_pow(e);
    } else {
        vstd::arithmetic::power::lemma_pow0(b);
    }
}

/// `(c x) (c^(n-2) y) = c^(n-1) (x y)`, modulo `n`.
proof fn lemma_scaled_product(c: nat, x: nat, y: nat)
    ensures
        scalar_mul(scalar_mul(c, x), (pow(c as int, inversion_exponent()) * pow(y as int, inversion_exponent()))
            as nat % scalar_order()) == scalar_mul(scalar_pow(c, (scalar_order() - 1) as nat), scalar_mul(x, scalar_pow(y, inversion_exponent()))),
{
    let n = scalar_order() as int;
    let e = inversion_exponent();
    let cc = pow(c as int, e);
    let a = pow(y as int, e);
    lemma_pow_nonneg(c as int, e);
    lemma_pow_nonneg(y as int, e);
    assert(cc >= 0 && a >= 0);
    lemma_pow_adds(c as int, e, 1);
    vstd::arithmetic::power::lemma_pow1(c as int);
    assert(pow(c as int, (scalar_order() - 1) as nat) == cc * c);
    let ci = c as int;
    let xi = x as int;
    lemma_mul_mod_noop(ci * xi, cc * a, n);
    lemma_mul_mod_noop_right(xi, a, n);
    lemma_mul_mod_noop(cc * ci, xi * a, n);
    assert((ci * xi) * (cc * a) == (cc * ci) * (xi * a)) by (nonlinear_arith);
}

/// Verification is projective in the signature: scaling the digest, `r` and `s` together by
/// any `c` with `c^(n-1) = 1` leaves the point `u1 G + u2 Q` unchanged, since `u1 = z / s` and
/// `u2 = r / s` stay the same. Every `c` in `[1, n-1]` qualifies by Fermat's little theorem,
/// which is not proved here; `lemma_verification_negation` proves the case `c = -1` outright.
pub proof fn lemma_verification_scaling(q: (nat, nat), z: nat, r: nat, s: nat, c: nat)
    requires
        scalar_pow(c, (scalar_order() - 1) as nat) == 1,
    ensures
        verification_point(q, scalar_mul(c, z), scalar_mul(c, r), scalar_mul(c, s)) == verification_point(q, z, r, s),
{
    reveal(verification_point);
    let n = scalar_order() as int;
    let e = inversion_exponent();
    let cs = scalar_mul(c, s);
    // w' = (c s)^e = c^e s^e
    lemma_pow_mod_noop((c * s) as int, e, n);
    lemma_pow_distributes(c as int, s as int, e);
    lemma_pow_nonneg(c as int, e);
    lemma_pow_nonneg(s as int, e);
    let w2 = scalar_pow(cs, e);
    assert(w2 == (pow(c as int, e) * pow(s as int, e)) as nat % scalar_order());
    lemma_scaled_product(c, z, s);
    lemma_scaled_product(c, r, s);
    let w = scalar_pow(s, e);
    let u1 = scalar_mul(z, w);
    let u2 = scalar_mul(r, w);
    assert(u1 < scalar_order() && u2 < scalar_order());
    lemma_small_mod(u1, scalar_order());
    lemma_small_mod(u2, scalar_order());
    assert(scalar_mul(1, u1) == u1);
    assert(scalar_mul(1, u2) == u2);
}

/// `(-1)^(n-1) = 1` modulo `n`, as `n - 1` is even.
proof fn lemma_minus_one_power()
    ensures
        scalar_pow((scalar_order() - 1) as nat, (scalar_order() - 1) as nat) == 1,
{
    let n = scalar_order() as int;
    let half = ((scalar_order() - 1) / 2) as nat;
    assert(2 * half == scalar_order() - 1);
    lemma_pow_mod_noop(-1, (scalar_order() - 1) as nat, n);
    assert((-1int) % n == n - 1);
    lemma_pow_multiplies(-1, 2, half);
    assert(pow(-1, 2) == 1) by {
        reveal_with_fuel(pow, 3);
    }
    lemma1_pow(half);
    lemma_small_mod(1, scalar_order());
}

/// Negating the digest, `r` and `s` together leaves the verification point unchanged.
pub proof fn lemma_verification_negation(q: (nat, nat), z: nat, r: nat, s: nat)
    ensures
        verification_point(q, scalar_neg(z), scalar_neg(r), scalar_neg(s)) == verification_point(q, z, r, s),
{
    let m = (scalar_order() - 1) as nat;
    lemma_minus_one_power();
    lemma_verification_scaling(q, z, r, s, m);
    assert forall|x: nat| #[trigger] scalar_mul(m, x) == scalar_neg(x) by {
        let n = scalar_order() as int;
        assert(m * x == n * x + (0 - x)) by (nonlinear_arith)
            requires
                m == n - 1,
        ;
        vstd::arithmetic::div_mod::lemma_mod_multiples_vanish(x as int, 0 - x, n);
    }
    assert(scalar_mul(m, z) == scalar_neg(z));
    assert(scalar_mul(m, r) == scalar_neg(r));
    assert(scalar_mul(m, s) == scalar_neg(s));
}

/// Verification reads the digest, `r` and `s` as residues modulo `n`: replacing any of them
/// by a number congruent to it modulo `n` leaves the verification point unchanged.
pub proof fn lemma_verification_residues(q: (nat, nat), z: nat, r: nat, s: nat)
    ensures
        verification_point(q, z % scalar_order(), r % scalar_order(), s % scalar_order()) == verification_point(q, z, r, s),
{
    reveal(verification_point);
    let n = scalar_order() as int;
    let e = inversion_exponent();
    lemma_pow_mod_noop(s as int, e, n);
    let w = scalar_pow(s, e);
    lemma_mul_mod_noop_left(z as int, w as int, n);
    lemma_mul_mod_noop_left(r as int, w as int, n);
}

/// The ECDSA signing equation: a signature `(r, s)` made with the nonce `k` for the secret
/// `d` and the reduced digest `z` has `s k = k^(n-1) (z + r d)` modulo `n`. For a nonce in
/// `[1, n-1]`, Fermat's little theorem (not proved here) makes `k^(n-1) = 1`, so this is
/// `s k = z + r d`.
pub proof fn lemma_signing_equation(d: nat, z: nat, k: nat)
    ensures
        signature_for_nonce(d, z, k) matches Some((r, s)) ==> scalar_mul(s, k) == scalar_mul(
            scalar_pow(k, (scalar_order() - 1) as nat),
            scalar_add(z, scalar_mul(r, d)),
        ),
{
    reveal(signature_for_nonce);
    if let Some((r, s)) = signature_for_nonce(d, z, k) {
        let n = scalar_order() as int;
        let e = inversion_exponent();
        let t = scalar_add(z, scalar_mul(r, d));
        let kk = pow(k as int, e);
        lemma_pow_nonneg(k as int, e);
        lemma_pow_adds(k as int, e, 1);
        vstd::arithmetic::power::lemma_pow1(k as int);
        assert(pow(k as int, (scalar_order() - 1) as nat) == kk * k);
        // s = (kk % n) * t % n
        lemma_mul_mod_noop_left(kk, t as int, n);
        lemma_mul_mod_noop_left(kk * t, k as int, n);
        lemma_mul_mod_noop_left(kk * k, t as int, n);
        assert((kk * t) * k == (kk * k) * t) by (nonlinear_arith);
    }
}

/// Signing reads the secret and the digest as residues modulo `n`.
pub proof fn lemma_signing_residues(d: nat, z: nat, k: nat)
    ensures
        signature_for_nonce(d % scalar_order(), z % scalar_order(), k) == signature_for_nonce(d, z, k),
{
    reveal(signature_for_nonce);
    let n = scalar_order() as int;
    assert forall|r: nat| #[trigger] scalar_add(z % scalar_order(), scalar_mul(r, d % scalar_order())) == scalar_add(z, scalar_mul(r, d)) by {
        lemma_mul_mod_noop_right(r as int, d as int, n);
        vstd::arithmetic::div_mod::lemma_add_mod_noop(z as int, scalar_mul(r, d) as int, n);
        vstd::arithmetic::div_mod::lemma_add_mod_noop(z as int % n, scalar_mul(r, d) as int, n);
        lemma_mod_twice(z as int, n);
    }
}


/// The width-`w` NAF multiplication (`mul_scalar_wnaf5_vartime`, `mul_scalar_wnaf6_vartime`)
/// of any Jacobian `P` by zero is the point at infinity, and by one is `P` itself,
/// whatever its `Z`.
pub proof fn lemma_wnaf_mul_zero_one(p: (nat, nat, nat), w: nat)
    requires
        2 <= w,
    ensures
        wnaf_horner(p, wnaf(0, w)) == jacobian_identity(),
        wnaf_horner(p, wnaf(1, w)) == p,
{
    lemma_wnaf_digit(1, w);
    lemma_pow2_unfold(w);
    lemma_pow2_unfold((w - 1) as nat);
    vstd::arithmetic::power2::lemma_pow2_pos((w - 2) as nat);
    assert(wnaf_digit(1, w) == 1) by {
        vstd::arithmetic::div_mod::lemma_small_mod(1, pow2(w));
    }
    assert(wnaf_next(1, w) == 0);
    let ds = wnaf(1, w);
    assert(wnaf(0, w) =~= Seq::<int>::empty());
    assert(ds == seq![wnaf_digit(1, w)] + wnaf(wnaf_next(1, w), w));
    assert(ds =~= seq![1int]);
    assert(ds.drop_first() =~= Seq::<int>::empty());
    reveal(wnaf_add_digit);
    assert(odd_multiple(p, 0) == p);
}

/// Doubling the scalar doubles the NAF product: `(2m) * P = 2 (m * P)` for every `m`.
pub proof fn lemma_wnaf_mul_double(p: (nat, nat, nat), m: nat, w: nat)
    requires
        2 <= w,
    ensures
        wnaf_horner(p, wnaf(2 * m, w)) == jacobian_double(wnaf_horner(p, wnaf(m, w))),
{
    reveal(wnaf_add_digit);
    if m == 0 {
        assert(wnaf(0, w) =~= Seq::<int>::empty());
    } else {
        lemma_wnaf_digit(2 * m, w);
        assert(wnaf_digit(2 * m, w) == 0);
        assert(wnaf_next(2 * m, w) == m);
        let ds = wnaf(2 * m, w);
        assert(ds.drop_first() =~= wnaf(m, w));
        assert(ds[0] == 0);
    }
}

/// The digit of an odd `k` leaves a multiple of `2^w`.
proof fn lemma_wnaf_digit_congruent(k: nat, w: nat)
    requires
        2 <= w,
        k % 2 == 1,
    ensures
        (k - wnaf_digit(k, w)) % (pow2(w) as int) == 0,
{
    lemma_pow2_unfold(w);
    vstd::arithmetic::power2::lemma_pow2_pos((w - 1) as nat);
    let d = wnaf_digit(k, w);
    let pw = pow2(w) as int;
    let q = k as int / pw;
    vstd::arithmetic::div_mod::lemma_fundamental_div_mod(k as int, pw);
    if (k % pow2(w)) as int >= pow2((w - 1) as nat) {
        assert(k - d == (q + 1) * pw) by (nonlinear_arith)
            requires
                k as int == pw * q + (k % pow2(w)) as int,
                d == (k % pow2(w)) as int - pw,
        ;
        vstd::arithmetic::div_mod::lemma_mod_multiples_basic(q + 1, pw);
    } else {
        assert(k - d == q * pw) by (nonlinear_arith)
            requires
                k as int == pw * q + (k % pow2(w)) as int,
                d == (k % pow2(w)) as int,
        ;
        vstd::arithmetic::div_mod::lemma_mod_multiples_basic(q, pw);
    }
}

/// An odd scalar below `2^(w-1)` is a single NAF digit.
proof fn lemma_wnaf_single(a: nat, w: nat)
    requires
        2 <= w,
        a % 2 == 1,
        a < pow2((w - 1) as nat),
    ensures
        wnaf(a, w) =~= seq![a as int],
{
    lemma_pow2_unfold(w);
    lemma_wnaf_digit(a, w);
    vstd::arithmetic::div_mod::lemma_small_mod(a, pow2(w));
    assert(wnaf_digit(a, w) == a);
    assert(wnaf_next(a, w) == 0);
    assert(wnaf(0, w) =~= Seq::<int>::empty());
    assert(wnaf(a, w) == seq![wnaf_digit(a, w)] + wnaf(wnaf_next(a, w), w));
}

/// The product of a single odd digit is the odd multiple.
proof fn lemma_wnaf_single_digit(p: (nat, nat, nat), a: nat, w: nat)
    requires
        2 <= w,
        a % 2 == 1,
        a < pow2((w - 1) as nat),
    ensures
        wnaf_horner(p, wnaf(a, w)) == odd_multiple(p, a / 2),
{
    lemma_wnaf_single(a, w);
    let ds = wnaf(a, w);
    assert(ds.drop_first() =~= Seq::<int>::empty());
    assert(wnaf_horner(p, ds.drop_first()) == jacobian_identity());
    reveal(wnaf_add_digit);
}

/// For an odd scalar `k`, the NAF product is `2 (((k - d) / 2) * P) + d * P`, where `d` is the
/// odd digit congruent to `k` modulo `2^w` taken between `-2^(w-1)` and `2^(w-1)`, and
/// `d * P` is itself the NAF product of `|d|` (negated when `d < 0`). With
/// `lemma_wnaf_mul_double` and `lemma_wnaf_mul_zero_one`, this fixes `k * P` for every scalar.
pub proof fn lemma_wnaf_mul_odd(p: (nat, nat, nat), k: nat, w: nat)
    requires
        2 <= w,
        k % 2 == 1,
    ensures
        ({
            let d = wnaf_digit(k, w);
            &&& -pow2((w - 1) as nat) < d < pow2((w - 1) as nat)
            &&& (k - d) % (pow2(w) as int) == 0
            &&& wnaf_horner(p, wnaf(k, w)) == jacobian_add(
                jacobian_double(wnaf_horner(p, wnaf(((k - d) / 2) as nat, w))),
                if d > 0 {
                    wnaf_horner(p, wnaf(d as nat, w))
                } else {
                    jacobian_neg(wnaf_horner(p, wnaf((-d) as nat, w)))
                },
            )
        }),
{
    reveal(wnaf_add_digit);
    lemma_wnaf_digit(k, w);
    lemma_wnaf_digit_congruent(k, w);
    let d = wnaf_digit(k, w);
    let ds = wnaf(k, w);
    assert(ds == seq![d] + wnaf(wnaf_next(k, w), w));
    assert(ds.drop_first() =~= wnaf(wnaf_next(k, w), w));
    assert(ds[0] == d);
    if d > 0 {
        lemma_wnaf_single_digit(p, d as nat, w);
    } else {
        lemma_wnaf_single_digit(p, (-d) as nat, w);
    }
}

/// The public key enters verification only through `r`: with `r = 0` the verification point
/// is the same for every key.
pub proof fn lemma_verification_key_through_r(q: (nat, nat), q2: (nat, nat), z: nat, s: nat)
    ensures
        verification_point(q, z, 0, s) == verification_point(q2, z, 0, s),
{
    reveal(verification_point);
    assert(scalar_mul(0, scalar_pow(s, inversion_exponent())) == 0);
    assert(wnaf(0, 6) =~= Seq::<int>::empty());
}

/// The `r` of a signature made with the nonce `k` is the x-coordinate, modulo `n`, of the
/// finite point that `mul_generator_vartime` gives for the 32 big-endian bytes of `k`.
pub proof fn lemma_signature_r(d: nat, z: nat, k: nat)
    ensures
        signature_for_nonce(d, z, k) matches Some((r, s)) ==> ({
            let point = jacobian_to_affine(window8_sum(generator_jacobian(), be_bytes(k, 32), 32));
            &&& !point.2
            &&& r == point.0 % scalar_order()
            &&& 0 < r
            &&& 0 < s < scalar_order()
        }),
{
    reveal(signature_for_nonce);
    reveal(crate::ecdsa::generator_multiple);
}


/// The zero-th entry of a normalised table of multiples is the point at infinity.
proof fn lemma_window8_entry_zero(p: (nat, nat, nat))
    ensures
        window8_entry(p, 0).2,
{
    assert(crate::group::window8_points(p)[0] == jacobian_identity());
}

/// The fixed-base sum (`mul_generator_vartime`, for the base `G`) of a scalar with a single
/// nonzero byte `b`, at position `i` from the least significant end (the scalar
/// `b * 256^i`), is entry `b` of the normalised table of the multiples `0..256` of
/// `2^(8i) * P`, that is of `P` doubled `8i` times.
pub proof fn lemma_window8_single_byte(p: (nat, nat, nat), s: Seq<u8>, i: nat)
    requires
        s.len() == 32,
        i < 32,
        forall|j: int| 0 <= j < 32 && j != 31 - i ==> #[trigger] s[j] == 0,
    ensures
        window8_sum(p, s, 32) == affine_to_jacobian(window8_entry(row_base(p, i), s[31 - i] as nat)),
{
    lemma_window8_single_byte_prefix(p, s, i, 32);
}

proof fn lemma_window8_single_byte_prefix(p: (nat, nat, nat), s: Seq<u8>, i: nat, k: nat)
    requires
        s.len() == 32,
        i < 32,
        k <= 32,
        forall|j: int| 0 <= j < 32 && j != 31 - i ==> #[trigger] s[j] == 0,
    ensures
        k <= i ==> window8_sum(p, s, k) == jacobian_identity(),
        k > i ==> window8_sum(p, s, k) == affine_to_jacobian(window8_entry(row_base(p, i), s[31 - i] as nat)),
    decreases k,
{
    if k > 0 {
        lemma_window8_single_byte_prefix(p, s, i, (k - 1) as nat);
        let j = 32 - k;
        lemma_window8_entry_zero(row_base(p, (k - 1) as nat));
        if j != 31 - i {
            assert(s[j] == 0);
        }
    }
}

/// Adding the normalised zero-th entry of a table of multiples changes nothing.
proof fn lemma_add_window8_zero(out: (nat, nat, nat), p: (nat, nat, nat))
    ensures
        jacobian_add_mixed(out, window8_entry(p, 0)) == out,
{
    lemma_window8_entry_zero(p);
}

proof fn lemma_shamir8_zero_steps(
    g: (nat, nat, nat),
    q: (nat, nat, nat),
    g2: (nat, nat, nat),
    q2: (nat, nat, nat),
    gs: Seq<u8>,
    qs: Seq<u8>,
    i: nat,
)
    requires
        i <= gs.len(),
        i <= qs.len(),
    ensures
        (forall|j: int| 0 <= j < i ==> #[trigger] qs[j] == 0) ==> shamir8_horner(g, q, gs, qs, i)
            == shamir8_horner(g, q2, gs, qs, i),
        (forall|j: int| 0 <= j < i ==> #[trigger] gs[j] == 0) ==> shamir8_horner(g, q, gs, qs, i)
            == shamir8_horner(g2, q, gs, qs, i),
    decreases i,
{
    if i > 0 {
        lemma_shamir8_zero_steps(g, q, g2, q2, gs, qs, (i - 1) as nat);
        if forall|j: int| 0 <= j < i ==> #[trigger] qs[j] == 0 {
            assert(qs[i - 1] == 0);
            assert forall|j: int| 0 <= j < i - 1 implies #[trigger] qs[j] == 0 by {
                assert(qs[j] == 0);
            }
            let prev = shamir8_horner(g, q, gs, qs, (i - 1) as nat);
            let h = jacobian_add_mixed(jacobian_double_n(prev, 8), window8_entry(g, gs[i - 1] as nat));
            lemma_add_window8_zero(h, q);
            lemma_add_window8_zero(h, q2);
        }
        if forall|j: int| 0 <= j < i ==> #[trigger] gs[j] == 0 {
            assert(gs[i - 1] == 0);
            assert forall|j: int| 0 <= j < i - 1 implies #[trigger] gs[j] == 0 by {
                assert(gs[j] == 0);
            }
            let prev = shamir8_horner(g, q, gs, qs, (i - 1) as nat);
            lemma_add_window8_zero(jacobian_double_n(prev, 8), g);
            lemma_add_window8_zero(jacobian_double_n(prev, 8), g2);
        }
    }
}

/// In the base-256 interleaved multiplication (`double_scalar_mul_shamir_window8_vartime`),
/// the first scalar multiplies the first base and the second scalar the second: with a
/// zero second scalar the result does not depend on the second base, and with a zero
/// first scalar it does not depend on the first base.
pub proof fn lemma_shamir8_single_scalar(
    g: (nat, nat, nat),
    q: (nat, nat, nat),
    g2: (nat, nat, nat),
    q2: (nat, nat, nat),
    a: Seq<u8>,
    b: Seq<u8>,
)
    requires
        a.len() == 32,
        b.len() == 32,
    ensures
        shamir8_horner(g, q, a, be_bytes(0, 32), 32) == shamir8_horner(g, q2, a, be_bytes(0, 32), 32),
        shamir8_horner(g, q, be_bytes(0, 32), b, 32) == shamir8_horner(g2, q, be_bytes(0, 32), b, 32),
{
    lemma_be_bytes_zero(32);
    lemma_shamir8_zero_steps(g, q, g2, q2, a, be_bytes(0, 32), 32);
    lemma_shamir8_zero_steps(g, q, g2, q2, be_bytes(0, 32), b, 32);
}

/// Verification accepts exactly when `s` is nonzero, the point `u1 G + u2 Q` is finite, and
/// its affine x-coordinate, a field element, is `r` modulo `n`.
pub proof fn lemma_verification_accepts(q: (nat, nat), z: nat, r: nat, s: nat)
    requires
        0 < r < scalar_order(),
    ensures
        signature_verifies(q, z, r, s) <==> ({
            let point = verification_point(q, z, r, s);
            &&& s != 0
            &&& point.2 != 0
            &&& exists|x: nat| x < field_prime() && x % scalar_order() == r && #[trigger] has_affine_x(point, x)
        }),
{
    let point = verification_point(q, z, r, s);
    let n = scalar_order();
    if signature_verifies(q, z, r, s) {
        if has_affine_x(point, r) {
            assert(r < field_prime());
            lemma_small_mod(r, n);
        } else {
            vstd::arithmetic::div_mod::lemma_mod_add_multiples_vanish(r as int, n as int);
            lemma_small_mod(r, n);
            assert(has_affine_x(point, r + n));
        }
    }
    if s != 0 && point.2 != 0 && exists|x: nat| x < field_prime() && x % n == r && #[trigger] has_affine_x(point, x) {
        let x = choose|x: nat| x < field_prime() && x % n == r && #[trigger] has_affine_x(point, x);
        vstd::arithmetic::div_mod::lemma_fundamental_div_mod(x as int, n as int);
        assert(field_prime() < 2 * n);
        assert(x / n < 2) by {
            vstd::arithmetic::div_mod::lemma_div_by_multiple_is_strongly_ordered(x as int, 2 * n as int, 2, n as int);
        }
        if x / n == 0 {
            assert(x == r);
        } else {
            assert(x == r + n);
        }
    }
}


/// A zero byte evaluated from the point at infinity stays at infinity.
proof fn lemma_mixed_step_zero(a: (nat, nat, bool))
    ensures
        window4_mixed_step(jacobian_identity(), a, 0) == jacobian_identity(),
{
    lemma_double_n_identity(4);
    lemma_add_entry_zero(jacobian_identity(), a);
}

/// `mul_affine_scalar_vartime` of an affine `A` by a scalar `k` below 16 is entry `k` of its
/// normalised table of the multiples `0..16` of `A`, lifted to `Z = 1`; in particular the
/// scalar zero gives the point at infinity.
pub proof fn lemma_mul_affine_small(a: (nat, nat, bool), k: nat)
    requires
        k < 16,
    ensures
        window4_mixed_horner(a, be_bytes(k, 32), 32) == affine_to_jacobian(window4_entry(a, k)),
{
    lemma_double_n_identity(4);
    lemma_add_entry_zero(jacobian_identity(), a);
    let s = be_bytes(k, 32);
    lemma_be_bytes(k, 32);
    assert(s.drop_last() =~= be_bytes(0, 31));
    lemma_be_bytes_zero(31);
    lemma_window4_mixed_zero_prefix(a, s, 31);
    assert(s[31] == k);
}

#[verifier::spinoff_prover]
proof fn lemma_window4_mixed_zero_prefix(a: (nat, nat, bool), s: Seq<u8>, i: nat)
    requires
        i <= 31,
        s.len() == 32,
        forall|j: int| 0 <= j < 31 ==> #[trigger] s[j] == 0,
    ensures
        window4_mixed_horner(a, s, i) == jacobian_identity(),
    decreases i,
{
    lemma_mixed_step_zero(a);
    if i > 0 {
        lemma_window4_mixed_zero_prefix(a, s, (i - 1) as nat);
        assert(s[i - 1] == 0);
    }
}

} // verus!
