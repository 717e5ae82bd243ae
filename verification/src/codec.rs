//! Canonical fixed-size byte encodings of affine points.
//!
//! The compressed form stores the x-coordinate as little-endian field bytes
//! and packs a selector bit — whether `y` is the lexicographically larger
//! root for that `x` — into the spare top bit of the last byte. The
//! uncompressed form stores both coordinates verbatim. Decoding validates
//! the coordinate range, the curve equation, and membership in the
//! prime-order subgroup; any failure surfaces as the single
//! [`CodecError::InvalidEncoding`] kind.

use vstd::prelude::*;
use crate::affine::{spec_affine_reduced, GroupAffine};
use crate::curve::{
    spec_mul_bits, spec_on_curve, spec_proj_is_zero, spec_to_extended, spec_x_den, spec_x_num,
    CurveParameters, SpecAffine,
};
use crate::digits::{big_from_bytes_le, big_to_bytes_le, bval, npow, val};
use crate::field::{digits_lt, FieldCtx};
use crate::modular::{fmul, fneg, is_largest, lemma_npow_monotone};

verus! {

/// The failure of a decode: the buffer has the wrong size, a coordinate is
/// out of range, no point matches the encoding, or the point fails the
/// curve-equation or subgroup check.
#[derive(Clone, Copy, Debug, PartialEq, Eq, Structural)]
pub enum CodecError {
    /// The byte string is not the canonical encoding of any point.
    InvalidEncoding,
}

/// A power of a product splits into the product of powers, one factor at a
/// time: `b^(e1 + e2) = b^e1 · b^e2`.
pub proof fn lemma_npow_adds(b: nat, e1: nat, e2: nat)
    ensures
        npow(b, e1 + e2) == npow(b, e1) * npow(b, e2),
    decreases e1,
{
    if e1 == 0 {
        assert(npow(b, e2) == 1 * npow(b, e2));
    } else {
        lemma_npow_adds(b, (e1 - 1) as nat, e2);
        assert(b * (npow(b, (e1 - 1) as nat) * npow(b, e2))
            == (b * npow(b, (e1 - 1) as nat)) * npow(b, e2)) by (nonlinear_arith);
    }
}

/// Base-256 powers are base-2 powers: `256^k = 2^(8k)`.
pub proof fn lemma_npow_bytes(k: nat)
    ensures
        npow(256, k) == npow(2, 8 * k),
    decreases k,
{
    if k > 0 {
        lemma_npow_bytes((k - 1) as nat);
        lemma_npow_adds(2, 8, 8 * (k - 1) as nat);
        assert(npow(2, 8) == 256) by {
            reveal_with_fuel(npow, 9);
        }
        assert(256 * npow(2, 8 * (k - 1) as nat) == npow(2, 8) * npow(2, 8 * (k - 1) as nat));
    }
}

/// Appending a zero byte does not change the value a byte string stands
/// for.
pub proof fn lemma_bval_push_zero(s: Seq<u8>)
    ensures
        bval(s.push(0)) == bval(s),
    decreases s.len(),
{
    if s.len() == 0 {
        assert(s.push(0).len() == 1);
        assert(s.push(0)[0] == 0);
        assert(s.push(0).skip(1) =~= Seq::<u8>::empty());
        assert(bval(s.push(0)) == s.push(0)[0] + 0x100 * bval(s.push(0).skip(1)));
        assert(bval(s.push(0).skip(1)) == 0);
    } else {
        assert(s.push(0).skip(1) =~= s.skip(1).push(0));
        lemma_bval_push_zero(s.skip(1));
    }
}

/// A byte string whose last byte is nonzero stands for at least
/// `256^(len-1)`.
pub proof fn lemma_bval_min(s: Seq<u8>)
    requires
        s.len() > 0,
        s[s.len() - 1] != 0,
    ensures
        bval(s) >= npow(256, (s.len() - 1) as nat),
    decreases s.len(),
{
    if s.len() == 1 {
        assert(bval(s) == s[0] + 0x100 * bval(s.skip(1)));
        assert(npow(256, 0) == 1);
    } else {
        lemma_bval_min(s.skip(1));
        assert(s.skip(1)[s.skip(1).len() - 1] == s[s.len() - 1]);
        let e = (s.len() - 2) as nat;
        assert(0x100 * bval(s.skip(1)) >= 0x100 * npow(256, e)) by (nonlinear_arith)
            requires bval(s.skip(1)) >= npow(256, e);
        assert(256 * npow(256, e) == npow(256, e + 1));
    }
}

/// The last byte of a byte string is bounded by the value the string
/// stands for: `bval(s) >= 256^(len-1) · s[len-1]`.
pub proof fn lemma_bval_last(s: Seq<u8>)
    requires
        s.len() > 0,
    ensures
        bval(s) >= npow(256, (s.len() - 1) as nat) * s[s.len() - 1],
    decreases s.len(),
{
    if s.len() == 1 {
        assert(bval(s) == s[0] + 0x100 * bval(s.skip(1)));
        assert(npow(256, 0) == 1);
        assert(1 * (s[0] as nat) == s[0] as nat) by (nonlinear_arith);
    } else {
        lemma_bval_last(s.skip(1));
        assert(s.skip(1)[s.skip(1).len() - 1] == s[s.len() - 1]);
        let e = (s.len() - 2) as nat;
        let last = s[s.len() - 1] as nat;
        assert(0x100 * bval(s.skip(1)) >= 0x100 * (npow(256, e) * last)) by (nonlinear_arith)
            requires bval(s.skip(1)) >= npow(256, e) * last;
        assert(0x100 * (npow(256, e) * last) == (256 * npow(256, e)) * last)
            by (nonlinear_arith);
        assert(256 * npow(256, e) == npow(256, e + 1));
    }
}

/// The fixed-size little-endian byte form of a reduced field element; the
/// spare top bit of the last byte is always clear.
pub fn fe_to_bytes(f: &FieldCtx, x: &Vec<u32>) -> (r: Vec<u8>)
    requires
        f.wf(),
        val(x@) < f.p(),
    ensures
        r@.len() == f.byte_len,
        bval(r@) == val(x@),
        r@[f.byte_len - 1] < 128,
{
    let ghost ln = f.byte_len as nat;
    let mut b = big_to_bytes_le(x);
    proof {
        // the minimal representation fits in byte_len bytes
        if val(x@) > 0 {
            lemma_bval_min(b@);
            if b@.len() > ln {
                lemma_npow_monotone(256, ln, (b@.len() - 1) as nat);
                lemma_npow_bytes(ln);
                lemma_npow_monotone(2, (8 * f.byte_len - 1) as nat, 8 * ln);
                assert(false);
            }
        }
    }
    while b.len() < f.byte_len
        invariant
            b@.len() <= f.byte_len,
            bval(b@) == val(x@),
        decreases f.byte_len - b@.len(),
    {
        let ghost before = b@;
        b.push(0);
        proof {
            lemma_bval_push_zero(before);
        }
    }
    proof {
        // the top bit of the last byte is clear, as p < 2^(8·byte_len - 1)
        lemma_bval_last(b@);
        if b@[f.byte_len - 1] >= 128 {
            lemma_npow_bytes((ln - 1) as nat);
            lemma_npow_adds(2, 7, (8 * (ln - 1)) as nat);
            assert(npow(2, 7) == 128) by {
                reveal_with_fuel(npow, 8);
            }
            assert(npow(256, (ln - 1) as nat) * (b@[f.byte_len - 1] as nat)
                >= npow(256, (ln - 1) as nat) * 128) by (nonlinear_arith)
                requires b@[f.byte_len - 1] >= 128, npow(256, (ln - 1) as nat) >= 0;
            assert(false);
        }
    }
    b
}

/// The digits of the value a byte string stands for.
pub fn bytes_to_digits(b: &Vec<u8>) -> (r: Vec<u32>)
    ensures
        val(r@) == bval(b@),
{
    big_from_bytes_le(b)
}

/// The byte string with its flag bit stripped: the last byte masked to its
/// low seven bits.
pub open spec fn spec_strip_flag(s: Seq<u8>) -> Seq<u8>
    recommends
        s.len() > 0,
{
    s.update(s.len() - 1, s[s.len() - 1] & 0x7f)
}

/// The flag packed into the top bit of the last byte.
pub open spec fn spec_flag_bit(s: Seq<u8>) -> bool
    recommends
        s.len() > 0,
{
    s[s.len() - 1] & 0x80 == 0x80
}

/// What a successfully decoded compressed point satisfies for the stored
/// x-value `xv` and selector `flag`: the coordinates are reduced, `x` is the
/// stored value, `y` squares to the recovery quotient, the selector picks
/// the root, and the subgroup check passed.
pub open spec fn spec_decoded(
    params: CurveParameters,
    xv: nat,
    flag: bool,
    pt: SpecAffine,
) -> bool {
    let p = params.p();
    &&& pt == crate::curve::spec_recovered_x_point(params, xv, flag)
    &&& pt.x == xv
    &&& spec_affine_reduced(p, pt)
    &&& fmul(p, fmul(p, pt.y, pt.y), spec_x_den(p, params.d(), xv)) == spec_x_num(
        p,
        params.a(),
        xv,
    )
    &&& spec_on_curve(p, params.a(), params.d(), pt.x, pt.y)
    &&& (pt.y != fneg(p, pt.y) ==> (is_largest(p, pt.y) <==> flag))
    &&& spec_proj_is_zero(spec_mul_bits(p, params.a(), params.d(),
        spec_to_extended(p, pt), params.scalar.modulus@, 32 * params.scalar.modulus@.len()))
}

/// Why a compressed decode of the x-value `xv` with selector `flag` fails:
/// the coordinate is out of range, no point is recoverable from it, or the
/// recovered point is outside the prime-order subgroup.
pub open spec fn spec_decode_fails(params: CurveParameters, xv: nat, flag: bool) -> bool {
    let p = params.p();
    ||| xv >= p
    ||| !crate::curve::spec_x_recoverable(params, xv)
    ||| !spec_proj_is_zero(spec_mul_bits(p, params.a(), params.d(),
        spec_to_extended(p, crate::curve::spec_recovered_x_point(params, xv, flag)),
        params.scalar.modulus@, 32 * params.scalar.modulus@.len()))
}

/// The compressed encoding: the x-coordinate's field bytes with the
/// selector bit — whether `y` is the larger root — packed into the spare
/// top bit of the last byte. The identity encodes as `x = 0` with the
/// selector computed by the same rule.
pub fn serialize_compressed(params: &CurveParameters, pt: &GroupAffine) -> (r: Vec<u8>)
    requires
        params.wf(),
        spec_affine_reduced(params.p(), pt@),
    ensures
        r@.len() == params.base.byte_len,
        bval(spec_strip_flag(r@)) == pt@.x,
        spec_flag_bit(r@) == is_largest(params.p(), pt@.y),
{
    let mut b = fe_to_bytes(&params.base, &pt.x);
    let flag = params.base.is_largest(&pt.y);
    let last_index = params.base.byte_len - 1;
    let ghost plain = b@;
    if flag {
        let marked = b[last_index] | 0x80;
        b[last_index] = marked;
    }
    proof {
        let lb = plain[last_index as int];
        assert(lb < 128 ==> ((lb | 0x80) & 0x7f == lb && (lb | 0x80) & 0x80 == 0x80
            && lb & 0x7f == lb && lb & 0x80 != 0x80)) by (bit_vector);
        if flag {
            assert(spec_strip_flag(b@) =~= plain);
        } else {
            assert(spec_strip_flag(b@) =~= plain);
        }
    }
    b
}

/// Decodes a compressed point: reads the field bytes, strips and interprets
/// the selector bit, recovers `y`, and accepts only a point of the
/// prime-order subgroup.
pub fn deserialize_compressed(params: &CurveParameters, bytes: &Vec<u8>) -> (r: Result<
    GroupAffine,
    CodecError,
>)
    requires
        params.wf(),
    ensures
        match r {
            Ok(pt) => bytes@.len() == params.base.byte_len
                && spec_decoded(*params, bval(spec_strip_flag(bytes@)), spec_flag_bit(bytes@),
                    pt@),
            Err(_) => bytes@.len() != params.base.byte_len
                || spec_decode_fails(*params, bval(spec_strip_flag(bytes@)),
                    spec_flag_bit(bytes@)),
        },
        (r is Ok) <==> (bytes@.len() == params.base.byte_len && !spec_decode_fails(*params,
            bval(spec_strip_flag(bytes@)), spec_flag_bit(bytes@))),
{
    if bytes.len() != params.base.byte_len {
        return Err(CodecError::InvalidEncoding);
    }
    let last_index = params.base.byte_len - 1;
    let last = bytes[last_index];
    let flag = last & 0x80 == 0x80;
    let mut masked = clone_digits_u8(bytes);
    masked[last_index] = last & 0x7f;
    proof {
        assert(masked@ =~= spec_strip_flag(bytes@));
    }
    let xd = bytes_to_digits(&masked);
    if !digits_lt(&xd, &params.base.modulus) {
        return Err(CodecError::InvalidEncoding);
    }
    match GroupAffine::from_x_coordinate(params, &xd, flag) {
        None => Err(CodecError::InvalidEncoding),
        Some(pt) => {
            if pt.is_in_correct_subgroup_assuming_on_curve(params) {
                Ok(pt)
            } else {
                Err(CodecError::InvalidEncoding)
            }
        }
    }
}

/// A copy of a byte sequence.
fn clone_digits_u8(v: &Vec<u8>) -> (r: Vec<u8>)
    ensures
        r@ == v@,
{
    let r = v.clone();
    proof {
        assert(r@ =~= v@);
    }
    r
}

/// The uncompressed encoding: both coordinates' field bytes, x first, with
/// no flag packing — exactly twice the compressed size.
pub fn serialize_uncompressed(params: &CurveParameters, pt: &GroupAffine) -> (r: Vec<u8>)
    requires
        params.wf(),
        spec_affine_reduced(params.p(), pt@),
    ensures
        r@.len() == 2 * params.base.byte_len,
        bval(r@.take(params.base.byte_len as int)) == pt@.x,
        bval(r@.skip(params.base.byte_len as int)) == pt@.y,
{
    let mut b = fe_to_bytes(&params.base, &pt.x);
    let yb = fe_to_bytes(&params.base, &pt.y);
    let ghost xpart = b@;
    let mut i: usize = 0;
    while i < yb.len()
        invariant
            i <= yb@.len(),
            b@ == xpart + yb@.take(i as int),
        decreases yb@.len() - i,
    {
        b.push(yb[i]);
        proof {
            assert(xpart + yb@.take(i + 1) =~= (xpart + yb@.take(i as int)).push(yb@[i as int]));
        }
        i = i + 1;
    }
    proof {
        assert(yb@.take(yb@.len() as int) =~= yb@);
        assert(b@.take(xpart.len() as int) =~= xpart);
        assert(b@.skip(xpart.len() as int) =~= yb@);
    }
    b
}

/// Decodes an uncompressed point: reads both coordinates and accepts only
/// an on-curve point of the prime-order subgroup.
pub fn deserialize_uncompressed(params: &CurveParameters, bytes: &Vec<u8>) -> (r: Result<
    GroupAffine,
    CodecError,
>)
    requires
        params.wf(),
    ensures
        match r {
            Ok(pt) => {
                let p = params.p();
                bytes@.len() == 2 * params.base.byte_len
                    && pt@.x == bval(bytes@.take(params.base.byte_len as int))
                    && pt@.y == bval(bytes@.skip(params.base.byte_len as int))
                    && spec_affine_reduced(p, pt@)
                    && spec_on_curve(p, params.a(), params.d(), pt@.x, pt@.y)
                    && spec_proj_is_zero(spec_mul_bits(p, params.a(), params.d(),
                        spec_to_extended(p, pt@), params.scalar.modulus@,
                        32 * params.scalar.modulus@.len()))
            },
            Err(_) => {
                let p = params.p();
                let xv = bval(bytes@.take(params.base.byte_len as int));
                let yv = bval(bytes@.skip(params.base.byte_len as int));
                bytes@.len() != 2 * params.base.byte_len || xv >= p || yv >= p
                    || !spec_on_curve(p, params.a(), params.d(), xv, yv)
                    || !spec_proj_is_zero(spec_mul_bits(p, params.a(), params.d(),
                        spec_to_extended(p, SpecAffine { x: xv, y: yv }),
                        params.scalar.modulus@, 32 * params.scalar.modulus@.len()))
            },
        },
{
    let ln = params.base.byte_len;
    if bytes.len() != 2 * ln {
        return Err(CodecError::InvalidEncoding);
    }
    let mut xb: Vec<u8> = Vec::new();
    let mut i: usize = 0;
    while i < ln
        invariant
            i <= ln <= bytes@.len(),
            xb@ == bytes@.take(i as int),
        decreases ln - i,
    {
        xb.push(bytes[i]);
        proof {
            assert(bytes@.take(i + 1) =~= bytes@.take(i as int).push(bytes@[i as int]));
        }
        i = i + 1;
    }
    let mut yb: Vec<u8> = Vec::new();
    let mut j: usize = ln;
    while j < bytes.len()
        invariant
            ln <= j <= bytes@.len(),
            yb@ == bytes@.subrange(ln as int, j as int),
        decreases bytes@.len() - j,
    {
        yb.push(bytes[j]);
        proof {
            assert(bytes@.subrange(ln as int, j + 1)
                =~= bytes@.subrange(ln as int, j as int).push(bytes@[j as int]));
        }
        j = j + 1;
    }
    proof {
        assert(bytes@.subrange(ln as int, bytes@.len() as int) =~= bytes@.skip(ln as int));
    }
    let xd = bytes_to_digits(&xb);
    let yd = bytes_to_digits(&yb);
    if !digits_lt(&xd, &params.base.modulus) || !digits_lt(&yd, &params.base.modulus) {
        return Err(CodecError::InvalidEncoding);
    }
    let pt = GroupAffine { x: xd, y: yd };
    if !pt.is_on_curve(params) {
        return Err(CodecError::InvalidEncoding);
    }
    if !pt.is_in_correct_subgroup_assuming_on_curve(params) {
        return Err(CodecError::InvalidEncoding);
    }
    Ok(pt)
}

/// A byte string truncated or zero-padded to the length `l`.
pub open spec fn spec_padded(s: Seq<u8>, l: int) -> Seq<u8> {
    Seq::new(l as nat, |i: int| if i < s.len() { s[i] } else { 0 })
}

impl GroupAffine {
    /// Interprets a byte buffer as a field element plus the selector bit of
    /// the compressed encoding: a zero x maps directly to the identity, any
    /// other value goes through coordinate recovery. Bytes beyond the
    /// encoding size are ignored; missing bytes read as zero.
    pub fn from_random_bytes(params: &CurveParameters, bytes: &Vec<u8>) -> (r: Option<
        GroupAffine,
    >)
        requires
            params.wf(),
        ensures
            ({
                let p = params.p();
                let padded = spec_padded(bytes@, params.base.byte_len as int);
                let xv = bval(spec_strip_flag(padded));
                let flag = spec_flag_bit(padded);
                match r {
                    Some(pt) => xv < p && if xv == 0 {
                        pt@ == (SpecAffine { x: 0, y: 1 })
                    } else {
                        pt@.x == xv && spec_affine_reduced(p, pt@)
                            && fmul(p, fmul(p, pt@.y, pt@.y), spec_x_den(p, params.d(), xv))
                                == spec_x_num(p, params.a(), xv)
                            && spec_on_curve(p, params.a(), params.d(), pt@.x, pt@.y)
                            && (pt@.y != fneg(p, pt@.y)
                                ==> (is_largest(p, pt@.y) <==> flag))
                            && pt@ == crate::curve::spec_recovered_x_point(*params, xv, flag)
                    },
                    None => xv >= p
                        || (xv != 0 && !crate::curve::spec_x_recoverable(*params, xv)),
                }
            }),
            ({
                let padded = spec_padded(bytes@, params.base.byte_len as int);
                let xv = bval(spec_strip_flag(padded));
                (r is Some) <==> (xv < params.p() && (xv == 0
                    || crate::curve::spec_x_recoverable(*params, xv)))
            }),
    {
        let ln = params.base.byte_len;
        let mut padded: Vec<u8> = Vec::new();
        let mut i: usize = 0;
        while i < ln
            invariant
                i <= ln,
                padded@.len() == i,
                forall|j: int| 0 <= j < i
                    ==> padded@[j] == #[trigger] spec_padded(bytes@, ln as int)[j],
            decreases ln - i,
        {
            if i < bytes.len() {
                padded.push(bytes[i]);
            } else {
                padded.push(0);
            }
            i = i + 1;
        }
        proof {
            assert(padded@ =~= spec_padded(bytes@, ln as int));
        }
        let last_index = ln - 1;
        let last = padded[last_index];
        let flag = last & 0x80 == 0x80;
        let mut masked = padded;
        masked[last_index] = last & 0x7f;
        proof {
            assert(masked@ =~= spec_strip_flag(spec_padded(bytes@, ln as int)));
        }
        let xd = bytes_to_digits(&masked);
        if !digits_lt(&xd, &params.base.modulus) {
            return None;
        }
        if crate::field::digits_are_zero(&xd) {
            return Some(GroupAffine::zero());
        }
        GroupAffine::from_x_coordinate(params, &xd, flag)
    }
}

/// The compressed encoding size of a point on this curve, in bytes.
pub fn serialized_size(params: &CurveParameters) -> (r: usize)
    requires
        params.wf(),
    ensures
        r == params.base.byte_len,
{
    params.base.byte_len
}

/// The uncompressed encoding size: exactly twice the compressed size.
pub fn uncompressed_size(params: &CurveParameters) -> (r: usize)
    requires
        params.wf(),
    ensures
        r == 2 * params.base.byte_len,
{
    2 * params.base.byte_len
}

} // verus!
