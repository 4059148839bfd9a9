//! Strict DER encoding of ECDSA signatures: `SEQUENCE { INTEGER r, INTEGER s }`.
#![allow(unused_imports)]

use vstd::prelude::*;

use super::Signature;
use crate::error::Error;
use crate::limbs::{be_bytes, be_nat, lemma_be_nat_concat, pow256};
use crate::scalar::scalar_order;

verus! {

impl AsRef<[u8]> for DerSignature {
    fn as_ref(&self) -> (r: &[u8])
        ensures
            r@ == self@,
    {
        self.as_bytes()
    }
}

/// The minimal big-endian bytes of `v`: one byte below 256, else no leading zero.
pub open spec fn minimal_be(v: nat) -> Seq<u8>
    decreases v,
{
    if v < 256 {
        seq![v as u8]
    } else {
        minimal_be(v / 256).push((v % 256) as u8)
    }
}

/// The content octets of the DER INTEGER `v`: its minimal bytes, after a zero byte
/// when the top bit of the first is set.
pub open spec fn der_integer_content(v: nat) -> Seq<u8> {
    let m = minimal_be(v);
    if m[0] >= 0x80 {
        seq![0u8] + m
    } else {
        m
    }
}

/// The DER INTEGER `v`: tag `0x02`, one length byte, the content.
pub open spec fn der_integer(v: nat) -> Seq<u8> {
    let c = der_integer_content(v);
    seq![2u8, c.len() as u8] + c
}

/// The DER signature: tag `0x30`, one length byte, then the INTEGERs `r` and `s`.
pub open spec fn der_signature(r: nat, s: nat) -> Seq<u8> {
    let body = der_integer(r) + der_integer(s);
    seq![0x30u8, body.len() as u8] + body
}

/// A DER-encoded ECDSA signature, at most 72 bytes.
#[derive(Clone, Copy, Debug, PartialEq, Eq)]
pub struct DerSignature {
    bytes: [u8; 72],
    len: usize,
}

impl View for DerSignature {
    type V = Seq<u8>;

    closed spec fn view(&self) -> Seq<u8> {
        self.bytes@.take(self.len as int)
    }
}

impl DerSignature {
    /// The length fits the buffer.
    #[verifier::type_invariant]
    closed spec fn fits(self) -> bool {
        self.len <= 72
    }

    /// The encoded bytes.
    pub fn as_bytes(&self) -> (r: &[u8])
        ensures
            r@ == self@,
    {
        proof {
            use_type_invariant(self);
        }
        let all = self.bytes.as_slice();
        let r = &all[0..self.len];
        assert(r@ =~= self@);
        r
    }
}

/// The value of a single byte is the byte.
proof fn lemma_be_nat_single(b: u8)
    ensures
        be_nat(seq![b]) == b,
{
    assert(seq![b].drop_last() =~= Seq::<u8>::empty());
    reveal_with_fuel(be_nat, 2);
}

/// A string of zero bytes has value zero.
proof fn lemma_be_nat_zeros(s: Seq<u8>)
    requires
        forall|j: int| 0 <= j < s.len() ==> s[j] == 0,
    ensures
        be_nat(s) == 0,
    decreases s.len(),
{
    if s.len() > 0 {
        lemma_be_nat_zeros(s.drop_last());
    }
}

/// Leading zero bytes do not change the value.
proof fn lemma_be_nat_leading_zeros(s: Seq<u8>, f: int)
    requires
        0 <= f <= s.len(),
        forall|j: int| 0 <= j < f ==> s[j] == 0,
    ensures
        be_nat(s) == be_nat(s.subrange(f, s.len() as int)),
{
    let a = s.subrange(0, f);
    let b = s.subrange(f, s.len() as int);
    assert(s =~= a + b);
    lemma_be_nat_concat(a, b);
    lemma_be_nat_zeros(a);
}

/// A string whose first byte is nonzero is worth at least `256^(len - 1)`.
proof fn lemma_be_nat_lower(s: Seq<u8>)
    requires
        s.len() >= 1,
        s[0] != 0,
    ensures
        be_nat(s) >= pow256((s.len() - 1) as nat),
    decreases s.len(),
{
    if s.len() == 1 {
        assert(s =~= seq![s[0]]);
        lemma_be_nat_single(s[0]);
    } else {
        lemma_be_nat_lower(s.drop_last());
    }
}

/// A string without a redundant leading zero is the minimal encoding of its value.
pub proof fn lemma_minimal_be_of(s: Seq<u8>)
    requires
        s.len() >= 1,
        s.len() == 1 || s[0] != 0,
    ensures
        minimal_be(be_nat(s)) == s,
    decreases s.len(),
{
    if s.len() == 1 {
        assert(s =~= seq![s[0]]);
        lemma_be_nat_single(s[0]);
    } else {
        let t = s.drop_last();
        lemma_be_nat_lower(s);
        assert(pow256((s.len() - 1) as nat) >= 256) by {
            crate::limbs::lemma_pow256_positive((s.len() - 2) as nat);
        }
        let v = be_nat(s);
        vstd::arithmetic::div_mod::lemma_fundamental_div_mod_converse(
            v as int,
            256,
            be_nat(t) as int,
            s.last() as int,
        );
        assert(t[0] == s[0]);
        lemma_minimal_be_of(t);
        assert(s =~= t.push(s.last()));
    }
}

/// The minimal encoding is nonempty, holds the value, has no redundant leading zero,
/// and is no longer than any encoding that holds the value.
pub proof fn lemma_minimal_be(v: nat, k: nat)
    ensures
        minimal_be(v).len() >= 1,
        be_nat(minimal_be(v)) == v,
        minimal_be(v).len() > 1 ==> minimal_be(v)[0] != 0,
        k >= 1 && v < pow256(k) ==> minimal_be(v).len() <= k,
    decreases v,
{
    if v < 256 {
        lemma_be_nat_single(v as u8);
        if k >= 1 {
            crate::limbs::lemma_pow256_positive((k - 1) as nat);
        }
    } else {
        lemma_minimal_be(v / 256, (k - 1) as nat);
        let m = minimal_be(v / 256);
        let mv = minimal_be(v);
        assert(mv.drop_last() =~= m);
        assert(mv[0] == m[0]);
        if m.len() == 1 {
            assert(m[0] != 0) by {
                assert(be_nat(m) == v / 256);
                assert(m =~= seq![m[0]]);
                lemma_be_nat_single(m[0]);
            }
        }
        if k >= 1 && v < pow256(k) {
            if k == 1 {
                assert(pow256(1) == 256) by {
                    reveal_with_fuel(pow256, 2);
                }
            } else {
                assert(v / 256 < pow256((k - 1) as nat)) by {
                    vstd::arithmetic::div_mod::lemma_fundamental_div_mod(v as int, 256);
                }
            }
        }
    }
}

/// Writes the DER INTEGER holding the 32-byte big-endian number at `at`; returns its length.
fn write_der_integer(out: &mut [u8; 72], at: usize, bytes: [u8; 32]) -> (len: usize)
    requires
        at + 35 <= 72,
    ensures
        len == der_integer(be_nat(bytes@)).len(),
        len <= 35,
        final(out)@.subrange(at as int, at + len) == der_integer(be_nat(bytes@)),
        forall|j: int| 0 <= j < 72 && !(at <= j < at + len) ==> final(out)[j] == old(out)[j],
{
    let mut first_nonzero: usize = 31;
    let mut i: usize = 0;
    while i < 32
        invariant_except_break
            first_nonzero == 31,
        invariant
            i <= 32,
            forall|j: int| 0 <= j < i ==> bytes[j] == 0,
        ensures
            first_nonzero < 32,
            forall|j: int| 0 <= j < first_nonzero ==> bytes[j] == 0,
            first_nonzero == 31 || bytes[first_nonzero as int] != 0,
        decreases 32 - i,
    {
        if bytes[i] != 0 {
            first_nonzero = i;
            break;
        }
        i = i + 1;
    }

    let ghost c = bytes@.subrange(first_nonzero as int, 32);
    proof {
        lemma_be_nat_leading_zeros(bytes@, first_nonzero as int);
        lemma_minimal_be_of(c);
    }
    let ghost content = der_integer_content(be_nat(bytes@));
    let lead = bytes[first_nonzero];
    let integer_len = 32 - first_nonzero;
    proof {
        assert(lead & 0x80u8 != 0 <==> lead >= 0x80) by (bit_vector);
    }

    out[at] = 0x02;
    if lead & 0x80 != 0 {
        out[at + 1] = (integer_len + 1) as u8;
        out[at + 2] = 0;
        for j in 0..integer_len
            invariant
                integer_len == 32 - first_nonzero,
                at + 35 <= 72,
                forall|q: int| 0 <= q < j ==> #[trigger] out[at + 3 + q] == bytes[first_nonzero + q],
                out[at as int] == 2,
                out[at + 1] == (integer_len + 1) as u8,
                out[at + 2] == 0,
                forall|q: int| 0 <= q < 72 && !(at <= q < at + 3 + integer_len) ==> out[q] == old(out)[q],
        {
            out[at + 3 + j] = bytes[first_nonzero + j];
        }
        assert(content =~= seq![0u8] + c);
        let ghost d = der_integer(be_nat(bytes@));
        assert(d =~= seq![2u8, (integer_len + 1) as u8] + (seq![0u8] + c));
        assert forall|q: int| 0 <= q < d.len() implies #[trigger] out@.subrange(at as int, at + 3 + integer_len)[q] == d[q] by {
            if q >= 3 {
                assert(out[at + 3 + (q - 3)] == bytes[first_nonzero + (q - 3)]);
            }
        }
        assert(out@.subrange(at as int, at + 3 + integer_len) =~= d);
        3 + integer_len
    } else {
        out[at + 1] = integer_len as u8;
        for j in 0..integer_len
            invariant
                integer_len == 32 - first_nonzero,
                at + 35 <= 72,
                forall|q: int| 0 <= q < j ==> #[trigger] out[at + 2 + q] == bytes[first_nonzero + q],
                out[at as int] == 2,
                out[at + 1] == integer_len as u8,
                forall|q: int| 0 <= q < 72 && !(at <= q < at + 2 + integer_len) ==> out[q] == old(out)[q],
        {
            out[at + 2 + j] = bytes[first_nonzero + j];
        }
        assert(content =~= c);
        let ghost d = der_integer(be_nat(bytes@));
        assert(d =~= seq![2u8, integer_len as u8] + c);
        assert forall|q: int| 0 <= q < d.len() implies #[trigger] out@.subrange(at as int, at + 2 + integer_len)[q] == d[q] by {
            if q >= 2 {
                assert(out[at + 2 + (q - 2)] == bytes[first_nonzero + (q - 2)]);
            }
        }
        assert(out@.subrange(at as int, at + 2 + integer_len) =~= d);
        2 + integer_len
    }
}

impl Signature {
    /// The DER encoding `SEQUENCE { INTEGER r, INTEGER s }`.
    pub fn to_der(self) -> (der: DerSignature)
        ensures
            der@ == der_signature(self@.0, self@.1),
    {
        let mut out = [0u8; 72];
        let r = self.r.to_be_bytes();
        let s = self.s.to_be_bytes();
        let r_len = write_der_integer(&mut out, 2, r);
        let ghost after_r = out@;
        let s_len = write_der_integer(&mut out, 2 + r_len, s);
        out[0] = 0x30;
        out[1] = (r_len + s_len) as u8;
        let der = DerSignature { bytes: out, len: 2 + r_len + s_len };
        proof {
            assert(out@.subrange(2, 2 + r_len as int) =~= after_r.subrange(2, 2 + r_len as int));
            assert(out@.subrange(2 + r_len as int, 2 + r_len + s_len as int) =~= der_integer(self@.1));
            assert(der@ =~= der_signature(self@.0, self@.1));
        }
        der
    }
}

/// The DER length at `pos` and the position after it: one byte below `0x80`, or
/// `0x81`/`0x82` followed by one or two bytes without a leading zero holding at least 128.
pub open spec fn der_len_at(b: Seq<u8>, pos: int) -> Option<(nat, int)> {
    if !(0 <= pos < b.len()) {
        None
    } else if b[pos] < 0x80 {
        Some((b[pos] as nat, pos + 1))
    } else {
        let n = b[pos] - 0x80;
        if n == 0 || n > 2 || pos + 1 + n > b.len() || b[pos + 1] == 0 {
            None
        } else {
            let len = be_nat(b.subrange(pos + 1, pos + 1 + n));
            if len < 128 {
                None
            } else {
                Some((len, pos + 1 + n))
            }
        }
    }
}

/// The DER INTEGER at `pos`, as a 32-byte big-endian number, and the position after it.
/// The content is nonempty and not negative, has no redundant leading zero, and holds
/// at most 32 bytes once the sign byte is dropped.
pub open spec fn der_int_at(b: Seq<u8>, pos: int) -> Option<(Seq<u8>, int)> {
    if !(0 <= pos < b.len()) || b[pos] != 2 {
        None
    } else {
        match der_len_at(b, pos + 1) {
            None => None,
            Some((len, p)) => {
                if len == 0 || p + len > b.len() {
                    None
                } else {
                    let c = b.subrange(p, p + len);
                    if c[0] >= 0x80 || (c.len() > 1 && c[0] == 0 && c[1] < 0x80) {
                        None
                    } else {
                        let m = if c.len() > 1 && c[0] == 0 {
                            c.drop_first()
                        } else {
                            c
                        };
                        if m.len() > 32 {
                            None
                        } else {
                            Some((Seq::new((32 - m.len()) as nat, |i: int| 0u8) + m, p + len))
                        }
                    }
                }
            },
        }
    }
}

/// The two 32-byte numbers of a strict DER signature: `0x30`, a length that reaches
/// exactly the end of the input, and two INTEGERs that fill it.
pub open spec fn der_parse(b: Seq<u8>) -> Option<(Seq<u8>, Seq<u8>)> {
    if b.len() == 0 || b[0] != 0x30 {
        None
    } else {
        match der_len_at(b, 1) {
            None => None,
            Some((slen, p)) => {
                if p + slen != b.len() {
                    None
                } else {
                    match der_int_at(b, p) {
                        None => None,
                        Some((r, p2)) => match der_int_at(b, p2) {
                            None => None,
                            Some((s, p3)) => if p3 != b.len() {
                                None
                            } else {
                                Some((r, s))
                            },
                        },
                    }
                }
            },
        }
    }
}

/// A cursor over DER input.
struct DerParser<'a> {
    input: &'a [u8],
    position: usize,
}

impl<'a> DerParser<'a> {
    fn new(input: &'a [u8]) -> (p: Self)
        ensures
            p.input@ == input@,
            p.position == 0,
    {
        Self { input, position: 0 }
    }

    fn expect_byte(&mut self, expected: u8) -> (res: Result<(), Error>)
        ensures
            final(self).input@ == old(self).input@,
            res is Ok <==> (old(self).position < old(self).input@.len()
                && old(self).input@[old(self).position as int] == expected),
            res is Ok ==> final(self).position == old(self).position + 1,
            res matches Err(e) ==> e is InvalidInput,
    {
        let actual = self.read_byte()?;
        if actual == expected {
            Ok(())
        } else {
            Err(Error::InvalidInput("unexpected DER tag".to_owned()))
        }
    }

    fn read_len(&mut self) -> (res: Result<usize, Error>)
        ensures
            final(self).input@ == old(self).input@,
            match der_len_at(old(self).input@, old(self).position as int) {
                Some((len, p)) => res matches Ok(l) && l == len && final(self).position == p,
                None => res is Err,
            },
            res matches Err(e) ==> e is InvalidInput,
    {
        let ghost b = self.input@;
        let ghost p0 = self.position as int;
        let first = self.read_byte()?;
        proof {
            assert(first & 0x80u8 == 0 <==> first < 0x80) by (bit_vector);
            assert(first >= 0x80 ==> first & 0x7fu8 == first - 0x80) by (bit_vector);
        }
        if first & 0x80 == 0 {
            return Ok(first as usize);
        }

        let bytes = (first & 0x7f) as usize;
        if bytes == 0 || bytes > 2 {
            return Err(Error::InvalidInput("unsupported DER length encoding".to_owned()));
        }

        let mut len: usize = 0;
        for i in 0..bytes
            invariant
                self.input@ == b,
                b == old(self).input@,
                p0 == old(self).position,
                bytes == first - 0x80,
                1 <= bytes <= 2,
                0 <= p0 < b.len(),
                b[p0] == first,
                self.position == p0 + 1 + i,
                self.position <= b.len(),
                len == be_nat(b.subrange(p0 + 1, p0 + 1 + i)),
                len < 256 * 256,
                i > 0 ==> b[p0 + 1] != 0,
                i == 1 ==> len < 256,
                i == 0 ==> len == 0,
        {
            let byte = self.read_byte()?;
            if i == 0 && byte == 0 {
                return Err(Error::InvalidInput("non-minimal DER length encoding".to_owned()));
            }
            proof {
                assert(b.subrange(p0 + 1, p0 + 1 + i + 1).drop_last() =~= b.subrange(p0 + 1, p0 + 1 + i));
                assert(len < 256 ==> (len << 8usize) | (byte as usize) == len * 256 + byte) by (bit_vector);
                if i == 0 {
                    assert(b.subrange(p0 + 1, p0 + 1).len() == 0);
                }
            }
            len = (len << 8) | byte as usize;
        }

        if len < 128 {
            return Err(Error::InvalidInput("non-minimal DER length encoding".to_owned()));
        }

        Ok(len)
    }

    fn read_integer_32(&mut self) -> (res: Result<[u8; 32], Error>)
        ensures
            final(self).input@ == old(self).input@,
            match der_int_at(old(self).input@, old(self).position as int) {
                Some((v, p)) => res matches Ok(a) && a@ == v && final(self).position == p,
                None => res is Err,
            },
            res matches Err(e) ==> e is InvalidInput,
    {
        let ghost b = self.input@;
        let ghost p0 = self.position as int;
        self.expect_byte(0x02)?;
        let len = self.read_len()?;
        if len == 0 {
            return Err(Error::InvalidInput("empty DER integer".to_owned()));
        }

        let integer = self.read_bytes(len)?;
        let lead = integer[0];
        proof {
            assert(lead & 0x80u8 != 0 <==> lead >= 0x80) by (bit_vector);
        }
        if lead & 0x80 != 0 {
            return Err(Error::InvalidInput("negative DER integer".to_owned()));
        }

        let integer = if integer.len() > 1 && integer[0] == 0 {
            let second = integer[1];
            proof {
                assert(second & 0x80u8 == 0 <==> second < 0x80) by (bit_vector);
            }
            if second & 0x80 == 0 {
                return Err(Error::InvalidInput("non-minimal DER integer encoding".to_owned()));
            }
            let rest = &integer[1..integer.len()];
            assert(rest@ =~= integer@.drop_first());
            rest
        } else {
            integer
        };

        if integer.len() > 32 {
            return Err(Error::InvalidInput("oversized DER integer".to_owned()));
        }

        let mut out = [0u8; 32];
        let offset = 32 - integer.len();
        for j in 0..integer.len()
            invariant
                offset == 32 - integer@.len(),
                integer@.len() <= 32,
                forall|q: int| 0 <= q < offset ==> out[q] == 0,
                forall|q: int| 0 <= q < j ==> #[trigger] out[offset + q] == integer@[q],
        {
            out[offset + j] = integer[j];
        }
        proof {
            let m = integer@;
            let v = Seq::new((32 - m.len()) as nat, |i: int| 0u8) + m;
            assert forall|q: int| 0 <= q < 32 implies out@[q] == v[q] by {
                if q >= offset {
                    assert(out[offset + (q - offset)] == integer@[q - offset]);
                }
            }
            assert(out@ =~= v);
        }
        Ok(out)
    }

    fn read_byte(&mut self) -> (res: Result<u8, Error>)
        ensures
            final(self).input@ == old(self).input@,
            res is Ok <==> old(self).position < old(self).input@.len(),
            res matches Ok(b) ==> b == old(self).input@[old(self).position as int]
                && final(self).position == old(self).position + 1,
            res matches Err(e) ==> e is InvalidInput,
    {
        if self.position >= self.input.len() {
            return Err(Error::InvalidInput("truncated DER input".to_owned()));
        }
        let byte = self.input[self.position];
        self.position = self.position + 1;
        Ok(byte)
    }

    fn read_bytes(&mut self, len: usize) -> (res: Result<&'a [u8], Error>)
        ensures
            final(self).input@ == old(self).input@,
            res is Ok <==> old(self).position + len <= old(self).input@.len(),
            res matches Ok(bytes) ==> bytes@ == old(self).input@.subrange(
                old(self).position as int,
                old(self).position + len,
            ) && final(self).position == old(self).position + len,
            res matches Err(e) ==> e is InvalidInput,
    {
        let input_len = self.input.len();
        let end = match self.position.checked_add(len) {
            Some(end) => end,
            None => return Err(Error::InvalidInput("invalid DER length".to_owned())),
        };
        if end > input_len {
            return Err(Error::InvalidInput("truncated DER input".to_owned()));
        }
        let input = self.input;
        let bytes = &input[self.position..end];
        self.position = end;
        Ok(bytes)
    }
}

impl Signature {
    /// Parses a strict DER signature: no trailing bytes, minimal lengths and integers, no
    /// negative integers; then both numbers must be nonzero and below `n`.
    pub fn from_der(signature_der: &[u8]) -> (res: Result<Self, Error>)
        ensures
            match der_parse(signature_der@) {
                Some((r, s)) => (res is Ok <==> (0 < be_nat(r) < scalar_order() && 0 < be_nat(s)
                    < scalar_order())) && (res matches Ok(sig) ==> sig@ == (be_nat(r), be_nat(s))),
                None => res is Err,
            },
            res matches Err(e) ==> e is InvalidInput,
            res matches Ok(sig) ==> signature_der@ == der_signature(sig@.0, sig@.1),
            forall|a: nat, b: nat|
                0 < a < scalar_order() && 0 < b < scalar_order() && signature_der@ == #[trigger] der_signature(a, b)
                    ==> (res matches Ok(sig) && sig@ == (a, b)),
    {
        proof {
            if der_parse(signature_der@) is Some {
                lemma_der_parse_sound(signature_der@);
            }
            assert forall|a: nat, b: nat|
                0 < a < scalar_order() && 0 < b < scalar_order() && signature_der@ == der_signature(a, b)
                implies der_parse(signature_der@) == Some((be_bytes(a, 32), be_bytes(b, 32)))
                && be_nat(be_bytes(a, 32)) == a && be_nat(be_bytes(b, 32)) == b by {
                crate::limbs::lemma_pow256_values();
                lemma_der_parse_complete(a, b);
                crate::limbs::lemma_be_bytes(a, 32);
                crate::limbs::lemma_be_bytes(b, 32);
            }
        }
        let mut parser = DerParser::new(signature_der);
        parser.expect_byte(0x30)?;
        let sequence_len = parser.read_len()?;
        let sequence_end = match parser.position.checked_add(sequence_len) {
            Some(end) => end,
            None => return Err(Error::InvalidInput("invalid DER sequence length".to_owned())),
        };

        if sequence_end != signature_der.len() {
            return Err(Error::InvalidInput("DER signature has trailing data".to_owned()));
        }

        let r = parser.read_integer_32()?;
        let s = parser.read_integer_32()?;

        if parser.position != sequence_end {
            return Err(Error::InvalidInput("DER signature has trailing sequence data".to_owned()));
        }

        Self::from_scalars(r, s)
    }
}

/// A length below 128 can only have been read in the one-byte form.
proof fn lemma_der_len_short(b: Seq<u8>, q: int)
    requires
        der_len_at(b, q) matches Some((len, p)) && len < 128,
    ensures
        der_len_at(b, q) matches Some((len, p)) && p == q + 1 && b[q] == len,
{
}

/// Leading zeros followed by a minimal encoding give the 32-byte encoding of the value.
proof fn lemma_padded(m: Seq<u8>)
    requires
        1 <= m.len() <= 32,
    ensures
        ({
            let v = Seq::new((32 - m.len()) as nat, |i: int| 0u8) + m;
            &&& v.len() == 32
            &&& be_nat(v) == be_nat(m)
            &&& v == be_bytes(be_nat(m), 32)
        }),
{
    let v = Seq::new((32 - m.len()) as nat, |i: int| 0u8) + m;
    lemma_be_nat_leading_zeros(v, (32 - m.len()) as int);
    assert(v.subrange((32 - m.len()) as int, 32) =~= m);
    crate::limbs::lemma_be_nat_bound(v);
    crate::limbs::lemma_be_bytes(be_nat(m), 32);
    crate::limbs::lemma_be_nat_injective(v, be_bytes(be_nat(m), 32));
}

/// An INTEGER that parses is the DER INTEGER of the number it gives.
proof fn lemma_der_int_sound(b: Seq<u8>, pos: int)
    requires
        der_int_at(b, pos) is Some,
    ensures
        der_int_at(b, pos) matches Some((v, p)) && v.len() == 32 && pos < p <= b.len()
            && b.subrange(pos, p) == der_integer(be_nat(v)),
{
    let (len, p) = der_len_at(b, pos + 1)->0;
    let c = b.subrange(p, p + len);
    let stripped = c.len() > 1 && c[0] == 0;
    let m = if stripped { c.drop_first() } else { c };
    assert(m.len() <= 32);
    assert(len <= 33);
    lemma_der_len_short(b, pos + 1);
    lemma_padded(m);
    lemma_minimal_be_of(m);
    let (v, end) = der_int_at(b, pos)->0;
    assert(be_nat(v) == be_nat(m));
    if stripped {
        assert(c =~= seq![0u8] + m);
    }
    assert(der_integer_content(be_nat(v)) =~= c);
    assert(b.subrange(pos, p + len) =~= seq![2u8, len as u8] + c);
}

/// The DER INTEGER of a number below `2^256` parses back to its 32-byte encoding.
proof fn lemma_der_int_complete(b: Seq<u8>, pos: int, v: nat)
    requires
        v < pow256(32),
        0 <= pos,
        pos + der_integer(v).len() <= b.len(),
        b.subrange(pos, pos + der_integer(v).len()) == der_integer(v),
    ensures
        der_int_at(b, pos) == Some((be_bytes(v, 32), pos + der_integer(v).len())),
        der_integer(v).len() <= 35,
{
    let m = minimal_be(v);
    lemma_minimal_be(v, 32);
    let c = der_integer_content(v);
    let d = der_integer(v);
    assert(d[0] == b[pos]);
    assert(d[1] == b[pos + 1]);
    assert(c.len() <= 33);
    assert(der_len_at(b, pos + 1) == Some((c.len(), pos + 2)));
    assert forall|i: int| 0 <= i < c.len() implies b[pos + 2 + i] == c[i] by {
        assert(b.subrange(pos, pos + d.len())[2 + i] == d[2 + i]);
    }
    assert(b.subrange(pos + 2, pos + 2 + c.len()) =~= c);
    if m[0] >= 0x80 {
        assert(c.drop_first() =~= m);
    }
    lemma_padded(m);
}

/// A strict DER signature that parses is the DER encoding of the numbers it gives.
pub proof fn lemma_der_parse_sound(b: Seq<u8>)
    requires
        der_parse(b) is Some,
    ensures
        der_parse(b) matches Some((r, s)) && r.len() == 32 && s.len() == 32 && b == der_signature(
            be_nat(r),
            be_nat(s),
        ),
{
    let (slen, p) = der_len_at(b, 1)->0;
    lemma_der_int_sound(b, p);
    let (r, p2) = der_int_at(b, p)->0;
    lemma_der_int_sound(b, p2);
    let (s, p3) = der_int_at(b, p2)->0;
    assert(p2 - p <= 35);
    assert(p3 - p2 <= 35);
    lemma_der_len_short(b, 1);
    let body = der_integer(be_nat(r)) + der_integer(be_nat(s));
    assert(b.subrange(2, b.len() as int) =~= b.subrange(2, p2) + b.subrange(p2, p3));
    assert(b =~= seq![0x30u8, slen as u8] + b.subrange(2, b.len() as int));
}

/// The DER encoding of two numbers below `2^256` parses back to their 32-byte encodings.
pub proof fn lemma_der_parse_complete(r: nat, s: nat)
    requires
        r < pow256(32),
        s < pow256(32),
    ensures
        der_parse(der_signature(r, s)) == Some((be_bytes(r, 32), be_bytes(s, 32))),
{
    let b = der_signature(r, s);
    let dr = der_integer(r);
    let ds = der_integer(s);
    lemma_minimal_be(r, 32);
    lemma_minimal_be(s, 32);
    assert(dr.len() <= 35 && ds.len() <= 35);
    let a = 2 + dr.len() as int;
    assert(b.subrange(2, a) =~= dr);
    lemma_der_int_complete(b, 2, r);
    assert(b.subrange(a, a + ds.len()) =~= ds);
    lemma_der_int_complete(b, a, s);
    assert(der_len_at(b, 1) == Some(((dr.len() + ds.len()) as nat, 2int)));
}

} // verus!
