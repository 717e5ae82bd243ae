//! Little-endian digit sequences as natural numbers, and the trusted
//! big-integer primitives that operate on them.
//!
//! A field element is held as a `Vec<u32>` of base `2^32` digits, least
//! significant digit first. The spec function [`val`] gives the natural
//! number such a sequence stands for; every contract in this crate is stated
//! in terms of it. The executable arithmetic is delegated to the
//! `num-bigint` crate through the trusted wrappers below, each of which
//! states exactly what the wrapped operation is documented to return.

use vstd::prelude::*;

verus! {

/// The natural number that a little-endian sequence of base `2^32` digits
/// stands for.
pub open spec fn val(s: Seq<u32>) -> nat
    decreases s.len(),
{
    if s.len() == 0 {
        0
    } else {
        s[0] as nat + 0x1_0000_0000 * val(s.skip(1))
    }
}

/// The natural number that a little-endian sequence of bytes stands for.
pub open spec fn bval(s: Seq<u8>) -> nat
    decreases s.len(),
{
    if s.len() == 0 {
        0
    } else {
        s[0] as nat + 0x100 * bval(s.skip(1))
    }
}

/// `b` to the power `e` over the natural numbers.
pub open spec fn npow(b: nat, e: nat) -> nat
    decreases e,
{
    if e == 0 {
        1
    } else {
        b * npow(b, (e - 1) as nat)
    }
}

/// Relies on `num_bigint::BigUint`: `from_slice` reads base `2^32` digits
/// least significant first, `+` is natural-number addition, and
/// `to_u32_digits` writes the same digit representation back.
#[verifier::external_body]
pub(crate) fn big_add(a: &Vec<u32>, b: &Vec<u32>) -> (r: Vec<u32>)
    ensures
        val(r@) == val(a@) + val(b@),
{
    let x = num_bigint::BigUint::from_slice(a.as_slice());
    let y = num_bigint::BigUint::from_slice(b.as_slice());
    (x + y).to_u32_digits()
}

/// Relies on `num_bigint::BigUint`: `-` is natural-number subtraction, which
/// panics on underflow; the precondition rules that out.
#[verifier::external_body]
pub(crate) fn big_sub(a: &Vec<u32>, b: &Vec<u32>) -> (r: Vec<u32>)
    requires
        val(b@) <= val(a@),
    ensures
        val(r@) == val(a@) - val(b@),
{
    let x = num_bigint::BigUint::from_slice(a.as_slice());
    let y = num_bigint::BigUint::from_slice(b.as_slice());
    (x - y).to_u32_digits()
}

/// Relies on `num_bigint::BigUint`: `*` is natural-number multiplication.
#[verifier::external_body]
pub(crate) fn big_mul(a: &Vec<u32>, b: &Vec<u32>) -> (r: Vec<u32>)
    ensures
        val(r@) == val(a@) * val(b@),
{
    let x = num_bigint::BigUint::from_slice(a.as_slice());
    let y = num_bigint::BigUint::from_slice(b.as_slice());
    (x * y).to_u32_digits()
}

/// Relies on `num_bigint::BigUint`: `%` is the Euclidean remainder, which
/// panics on a zero modulus; the precondition rules that out.
#[verifier::external_body]
pub(crate) fn big_rem(a: &Vec<u32>, m: &Vec<u32>) -> (r: Vec<u32>)
    requires
        val(m@) > 0,
    ensures
        val(r@) == val(a@) % val(m@),
{
    let x = num_bigint::BigUint::from_slice(a.as_slice());
    let y = num_bigint::BigUint::from_slice(m.as_slice());
    (x % y).to_u32_digits()
}

/// Relies on `num_bigint::BigUint::modpow`, documented to return
/// `(self ^ exponent) % modulus` and to panic on a zero modulus.
#[verifier::external_body]
pub(crate) fn big_modpow(b: &Vec<u32>, e: &Vec<u32>, m: &Vec<u32>) -> (r: Vec<u32>)
    requires
        val(m@) > 0,
    ensures
        val(r@) == npow(val(b@), val(e@)) % val(m@),
{
    let bb = num_bigint::BigUint::from_slice(b.as_slice());
    let ee = num_bigint::BigUint::from_slice(e.as_slice());
    let mm = num_bigint::BigUint::from_slice(m.as_slice());
    bb.modpow(&ee, &mm).to_u32_digits()
}

/// Relies on `num_bigint::BigUint::modinv`, documented to solve for `x` in
/// `[0, modulus)` with `self * x ≡ 1 (mod modulus)`, returning `None` exactly
/// when no such solution exists.
#[verifier::external_body]
pub(crate) fn big_modinv(a: &Vec<u32>, m: &Vec<u32>) -> (r: Option<Vec<u32>>)
    requires
        val(m@) > 0,
    ensures
        match r {
            Some(w) => val(w@) < val(m@) && (val(a@) * val(w@)) % val(m@) == 1nat % val(m@),
            None => forall|x: nat| x < val(m@) ==> #[trigger] ((val(a@) * x) % val(m@)) != 1nat % val(m@),
        },
{
    let x = num_bigint::BigUint::from_slice(a.as_slice());
    let y = num_bigint::BigUint::from_slice(m.as_slice());
    x.modinv(&y).map(|w| w.to_u32_digits())
}

/// Relies on `Ord for num_bigint::BigUint`, which orders by numeric value.
#[verifier::external_body]
pub(crate) fn big_cmp(a: &Vec<u32>, b: &Vec<u32>) -> (r: i8)
    ensures
        (r == -1i8) <==> val(a@) < val(b@),
        (r == 0i8) <==> val(a@) == val(b@),
        (r == 1i8) <==> val(a@) > val(b@),
{
    let x = num_bigint::BigUint::from_slice(a.as_slice());
    let y = num_bigint::BigUint::from_slice(b.as_slice());
    match x.cmp(&y) {
        core::cmp::Ordering::Less => -1,
        core::cmp::Ordering::Equal => 0,
        core::cmp::Ordering::Greater => 1,
    }
}

/// Relies on `num_bigint::BigUint::bits`, documented to return the fewest
/// bits necessary to express the value: `2^(r-1) <= v < 2^r` for a positive
/// value `v`, and `0` for zero.
#[verifier::external_body]
pub(crate) fn big_bits(a: &Vec<u32>) -> (r: u64)
    ensures
        val(a@) < npow(2, r as nat),
        val(a@) > 0 ==> r >= 1 && npow(2, (r - 1) as nat) <= val(a@),
        val(a@) == 0 ==> r == 0,
        r <= 32 * a@.len(),
    {
    num_bigint::BigUint::from_slice(a.as_slice()).bits()
}

/// Relies on `num_bigint::BigUint::to_bytes_le`, documented to return the
/// value's bytes in little-endian order: the minimal representation for a
/// positive value (so its last byte is nonzero), and `[0]` for zero.
#[verifier::external_body]
pub(crate) fn big_to_bytes_le(a: &Vec<u32>) -> (r: Vec<u8>)
    ensures
        bval(r@) == val(a@),
        r@.len() >= 1,
        val(a@) > 0 ==> r@[r@.len() - 1] != 0,
        val(a@) == 0 ==> r@.len() == 1,
{
    num_bigint::BigUint::from_slice(a.as_slice()).to_bytes_le()
}

/// Relies on `num_bigint::BigUint::from_bytes_le`, which reads bytes in
/// little-endian order.
#[verifier::external_body]
pub(crate) fn big_from_bytes_le(b: &Vec<u8>) -> (r: Vec<u32>)
    ensures
        val(r@) == bval(b@),
{
    num_bigint::BigUint::from_bytes_le(b.as_slice()).to_u32_digits()
}

} // verus!
