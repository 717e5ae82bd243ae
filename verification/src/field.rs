//! A prime-field capability: the field's modulus together with the
//! precomputed square-root metadata, and the executable field operations.
//!
//! Every operation is specified with the modular spec functions of
//! [`crate::modular`] over the values of the digit sequences involved.

use vstd::prelude::*;
use vstd::arithmetic::div_mod::{lemma_fundamental_div_mod, lemma_mod_bound, lemma_small_mod};
use crate::digits::{
    big_add, big_bits, big_cmp, big_modinv, big_modpow, big_mul, big_rem, big_sub, npow, val,
};
use crate::modular::{fadd, fmul, fneg, fsub, has_root, lemma_npow_monotone, lemma_npow_pos};
use crate::primes::is_prime;

verus! {

/// The largest digit count a modulus may have; fields beyond this size are
/// rejected at construction.
pub const MAX_MODULUS_DIGITS: usize = 1024;

/// A prime field, described by its modulus and the metadata that the
/// Tonelli–Shanks square root needs: the two-adicity `s` and odd factor `t`
/// of `p - 1 = 2^s * t`, the exponents `(t - 1) / 2` and `(p - 1) / 2`, and
/// a `2^s`-th root of unity derived from a quadratic non-residue.
pub struct FieldCtx {
    /// The field modulus `p`, a little-endian digit sequence.
    pub modulus: Vec<u32>,
    /// `s` with `p - 1 = 2^s * t`, `t` odd.
    pub two_adicity: u32,
    /// The odd factor `t` of `p - 1`.
    pub odd_factor: Vec<u32>,
    /// `(t - 1) / 2`.
    pub odd_factor_half: Vec<u32>,
    /// `(p - 1) / 2`, the Euler-criterion exponent.
    pub euler_exponent: Vec<u32>,
    /// A `2^s`-th root of unity: a quadratic non-residue raised to `t`.
    pub two_adic_root: Vec<u32>,
    /// The byte length of the canonical encoding of a field element; the
    /// modulus leaves the top bit of the last byte free.
    pub byte_len: usize,
}

impl FieldCtx {
    /// The modulus as a natural number.
    pub open spec fn p(&self) -> nat {
        val(self.modulus@)
    }

    /// The arithmetic relations the constructor establishes: the modulus is
    /// odd and at least three, the stored exponents decompose `p - 1` as
    /// stated, and the encoding length leaves a spare top bit.
    pub open spec fn wf(&self) -> bool {
        &&& is_prime(self.p())
        &&& self.p() >= 3
        &&& self.p() % 2 == 1
        &&& 2 * val(self.euler_exponent@) + 1 == self.p()
        &&& val(self.odd_factor@) % 2 == 1
        &&& 2 * val(self.odd_factor_half@) + 1 == val(self.odd_factor@)
        &&& self.p() - 1 == npow(2, self.two_adicity as nat) * val(self.odd_factor@)
        &&& val(self.two_adic_root@) < self.p()
        &&& self.two_adicity <= 32 * MAX_MODULUS_DIGITS as u32
        &&& self.modulus@.len() <= MAX_MODULUS_DIGITS
        &&& 1 <= self.byte_len <= 4 * MAX_MODULUS_DIGITS + 1
        &&& self.p() < npow(2, (8 * self.byte_len - 1) as nat)
    }

    /// The arithmetic relations on the constructor's inputs that
    /// [`Self::new`] checks: exactly the checkable part of [`Self::wf`].
    pub open spec fn spec_inputs_ok(
        modulus: Seq<u32>,
        two_adicity: u32,
        odd_factor: Seq<u32>,
        odd_factor_half: Seq<u32>,
        euler_exponent: Seq<u32>,
        two_adic_root: Seq<u32>,
    ) -> bool {
        &&& modulus.len() <= MAX_MODULUS_DIGITS
        &&& val(modulus) >= 3
        &&& val(modulus) % 2 == 1
        &&& 2 * val(euler_exponent) + 1 == val(modulus)
        &&& val(odd_factor) % 2 == 1
        &&& 2 * val(odd_factor_half) + 1 == val(odd_factor)
        &&& val(modulus) - 1 == npow(2, two_adicity as nat) * val(odd_factor)
        &&& val(two_adic_root) < val(modulus)
    }

    /// Builds a field context after checking every relation of [`Self::wf`];
    /// returns nothing exactly when one of the checked relations fails.
    pub fn new(
        modulus: Vec<u32>,
        two_adicity: u32,
        odd_factor: Vec<u32>,
        odd_factor_half: Vec<u32>,
        euler_exponent: Vec<u32>,
        two_adic_root: Vec<u32>,
    ) -> (r: Option<FieldCtx>)
        requires
            is_prime(val(modulus@)),
        ensures
            match r {
                Some(ctx) => ctx.wf() && ctx.modulus@ == modulus@
                    && ctx.two_adicity == two_adicity
                    && ctx.odd_factor@ == odd_factor@
                    && ctx.odd_factor_half@ == odd_factor_half@
                    && ctx.euler_exponent@ == euler_exponent@
                    && ctx.two_adic_root@ == two_adic_root@,
                None => !Self::spec_inputs_ok(modulus@, two_adicity, odd_factor@,
                    odd_factor_half@, euler_exponent@, two_adic_root@),
            },
            (r is Some) <==> Self::spec_inputs_ok(modulus@, two_adicity, odd_factor@,
                odd_factor_half@, euler_exponent@, two_adic_root@),
    {
        if modulus.len() > MAX_MODULUS_DIGITS {
            return None;
        }
        let one = one_digits();
        let two = small_digits(2);
        if big_cmp(&modulus, &small_digits(3)) == -1i8 {
            return None;
        }
        if big_cmp(&big_rem(&modulus, &two), &one) != 0i8 {
            return None;
        }
        // p = 2 * euler_exponent + 1
        if big_cmp(&big_add(&big_add(&euler_exponent, &euler_exponent), &one), &modulus) != 0i8 {
            return None;
        }
        // t odd
        if big_cmp(&big_rem(&odd_factor, &two), &one) != 0i8 {
            return None;
        }
        // t = 2 * odd_factor_half + 1
        if big_cmp(&big_add(&big_add(&odd_factor_half, &odd_factor_half), &one), &odd_factor)
            != 0i8 {
            return None;
        }
        // p - 1 = 2^two_adicity * t, by two_adicity doublings of t
        let bits = big_bits(&modulus);
        if two_adicity as u64 > bits {
            proof {
                // with the product relation, 2^s ≤ p - 1 < 2^bits forces
                // s ≤ bits; so the relation cannot hold here
                if val(modulus@) - 1 == npow(2, two_adicity as nat) * val(odd_factor@)
                    && val(odd_factor@) % 2 == 1 {
                    lemma_npow_monotone(2, bits as nat, two_adicity as nat);
                    lemma_npow_pos(2, bits as nat);
                    assert(npow(2, two_adicity as nat) * val(odd_factor@)
                        >= npow(2, two_adicity as nat) * 1) by (nonlinear_arith)
                        requires val(odd_factor@) >= 1, npow(2, two_adicity as nat) >= 0;
                    assert(false);
                }
            }
            return None;
        }
        let mut acc = big_add(&odd_factor, &zero_digits());
        proof {
            assert(npow(2, 0) == 1);
            assert(1 * val(odd_factor@) == val(odd_factor@)) by (nonlinear_arith);
        }
        let mut i: u32 = 0;
        while i < two_adicity
            invariant
                i <= two_adicity,
                val(acc@) == npow(2, i as nat) * val(odd_factor@),
            decreases two_adicity - i,
        {
            let doubled = big_add(&acc, &acc);
            proof {
                assert(npow(2, (i + 1) as nat) == 2 * npow(2, i as nat));
                assert(2 * (npow(2, i as nat) * val(odd_factor@))
                    == (2 * npow(2, i as nat)) * val(odd_factor@)) by (nonlinear_arith);
            }
            acc = doubled;
            i = i + 1;
        }
        let p_minus_one = big_sub(&modulus, &one);
        if big_cmp(&acc, &p_minus_one) != 0i8 {
            return None;
        }
        if big_cmp(&two_adic_root, &modulus) != -1i8 {
            return None;
        }
        // byte length: one byte more than the modulus needs, so the top bit
        // of the last byte is always free
        let byte_len: usize = (bits / 8) as usize + 1;
        proof {
            lemma_fundamental_div_mod(bits as int, 8);
            assert(8 * byte_len - 1 >= bits as nat);
            lemma_npow_monotone(2, bits as nat, (8 * byte_len - 1) as nat);
        }
        Some(FieldCtx {
            modulus,
            two_adicity,
            odd_factor,
            odd_factor_half,
            euler_exponent,
            two_adic_root,
            byte_len,
        })
    }
}

/// The digit sequence of the value zero.
pub fn zero_digits() -> (r: Vec<u32>)
    ensures
        val(r@) == 0,
{
    Vec::new()
}

/// The digit sequence of the value one.
pub fn one_digits() -> (r: Vec<u32>)
    ensures
        val(r@) == 1,
{
    small_digits(1)
}

/// The digit sequence of a single-digit value.
pub fn small_digits(x: u32) -> (r: Vec<u32>)
    ensures
        val(r@) == x,
{
    let mut r: Vec<u32> = Vec::new();
    r.push(x);
    proof {
        assert(r@.skip(1).len() == 0);
        assert(val(r@) == x + 0x1_0000_0000 * val(r@.skip(1)));
    }
    r
}

/// A copy of a digit sequence.
pub fn clone_digits(v: &Vec<u32>) -> (r: Vec<u32>)
    ensures
        r@ == v@,
{
    let r = v.clone();
    proof {
        assert(r@ =~= v@);
    }
    r
}

/// Whether the sequence stands for zero.
pub fn digits_are_zero(a: &Vec<u32>) -> (r: bool)
    ensures
        r == (val(a@) == 0),
{
    let z = zero_digits();
    big_cmp(a, &z) == 0i8
}

/// Whether two digit sequences stand for the same value.
pub fn digits_eq(a: &Vec<u32>, b: &Vec<u32>) -> (r: bool)
    ensures
        r == (val(a@) == val(b@)),
{
    big_cmp(a, b) == 0i8
}

/// Whether `a` stands for a smaller value than `b`.
pub fn digits_lt(a: &Vec<u32>, b: &Vec<u32>) -> (r: bool)
    ensures
        r == (val(a@) < val(b@)),
{
    big_cmp(a, b) == -1i8
}

impl FieldCtx {
    /// Reduces an arbitrary value into `[0, p)`.
    pub fn reduce(&self, a: &Vec<u32>) -> (r: Vec<u32>)
        requires
            self.wf(),
        ensures
            val(r@) == val(a@) % self.p(),
            val(r@) < self.p(),
    {
        let r = big_rem(a, &self.modulus);
        proof {
            lemma_mod_bound(val(a@) as int, self.p() as int);
        }
        r
    }

    /// Field addition.
    pub fn add(&self, a: &Vec<u32>, b: &Vec<u32>) -> (r: Vec<u32>)
        requires
            self.wf(),
        ensures
            val(r@) == fadd(self.p(), val(a@), val(b@)),
            val(r@) < self.p(),
    {
        self.reduce(&big_add(a, b))
    }

    /// Field subtraction; the subtrahend must be reduced.
    pub fn sub(&self, a: &Vec<u32>, b: &Vec<u32>) -> (r: Vec<u32>)
        requires
            self.wf(),
            val(b@) <= self.p(),
        ensures
            val(r@) == fsub(self.p(), val(a@), val(b@)),
            val(r@) < self.p(),
    {
        self.reduce(&big_sub(&big_add(a, &self.modulus), b))
    }

    /// Field negation; the operand must be reduced.
    pub fn neg(&self, a: &Vec<u32>) -> (r: Vec<u32>)
        requires
            self.wf(),
            val(a@) <= self.p(),
        ensures
            val(r@) == fneg(self.p(), val(a@)),
            val(r@) < self.p(),
    {
        self.reduce(&big_sub(&self.modulus, a))
    }

    /// Field multiplication.
    pub fn mul(&self, a: &Vec<u32>, b: &Vec<u32>) -> (r: Vec<u32>)
        requires
            self.wf(),
        ensures
            val(r@) == fmul(self.p(), val(a@), val(b@)),
            val(r@) < self.p(),
    {
        self.reduce(&big_mul(a, b))
    }

    /// Field squaring.
    pub fn square(&self, a: &Vec<u32>) -> (r: Vec<u32>)
        requires
            self.wf(),
        ensures
            val(r@) == fmul(self.p(), val(a@), val(a@)),
            val(r@) < self.p(),
    {
        self.mul(a, a)
    }

    /// Modular exponentiation.
    pub fn pow_mod(&self, b: &Vec<u32>, e: &Vec<u32>) -> (r: Vec<u32>)
        requires
            self.wf(),
        ensures
            val(r@) == npow(val(b@), val(e@)) % self.p(),
            val(r@) < self.p(),
    {
        let r = big_modpow(b, e, &self.modulus);
        proof {
            lemma_mod_bound(npow(val(b@), val(e@)) as int, self.p() as int);
        }
        r
    }

    /// The multiplicative inverse, when one exists: exactly when the operand
    /// is coprime to the modulus.
    pub fn inverse(&self, a: &Vec<u32>) -> (r: Option<Vec<u32>>)
        requires
            self.wf(),
        ensures
            match r {
                Some(w) => val(w@) < self.p()
                    && fmul(self.p(), val(a@), val(w@)) == 1nat % self.p(),
                None => forall|x: nat| x < self.p()
                    ==> #[trigger] fmul(self.p(), val(a@), x) != 1nat % self.p(),
            },
    {
        big_modinv(a, &self.modulus)
    }

    /// The principal square root of a reduced element, when the element is a
    /// quadratic residue (or zero), found by Tonelli–Shanks.
    ///
    /// A returned root is checked, so the positive answer is exact. A `None`
    /// answer carries a certificate: either the Euler-criterion power was not
    /// one, or no element of the field squares to the operand at all. The
    /// second certificate comes from a direct search that only runs when the
    /// stored two-adic metadata is inconsistent with the modulus, which the
    /// iteration-count guards of the main loop detect.
    pub fn sqrt(&self, s: &Vec<u32>) -> (r: Option<Vec<u32>>)
        requires
            self.wf(),
            val(s@) < self.p(),
        ensures
            match r {
                Some(x) => val(x@) < self.p()
                    && fmul(self.p(), val(x@), val(x@)) == val(s@)
                    && (val(s@) == 0
                        || npow(val(s@), val(self.euler_exponent@)) % self.p() == 1),
                None => val(s@) != 0 && (npow(val(s@), val(self.euler_exponent@)) % self.p() != 1
                    || !has_root(self.p(), val(s@))),
            },
    {
        let one = one_digits();
        if digits_are_zero(s) {
            let z = zero_digits();
            proof {
                lemma_small_mod(0, self.p());
                assert(fmul(self.p(), val(z@), val(z@)) == 0);
            }
            return Some(z);
        }
        let legendre = self.pow_mod(s, &self.euler_exponent);
        if !digits_eq(&legendre, &one) {
            return None;
        }
        // Tonelli–Shanks main loop; its result is checked afterwards, so no
        // functional invariant is needed here.
        let mut z = self.reduce(&self.two_adic_root);
        let mut w = self.pow_mod(s, &self.odd_factor_half);
        let mut x = self.mul(&w, s);
        let mut b = self.mul(&x, &w);
        let mut v: u32 = self.two_adicity;
        let mut fuel: u32 = self.two_adicity;
        let mut consistent = true;
        while consistent && fuel > 0 && !digits_eq(&b, &one)
            invariant
                self.wf(),
                val(x@) < self.p(),
                val(b@) < self.p(),
                val(z@) < self.p(),
                v <= self.two_adicity,
            decreases fuel,
        {
            fuel = fuel - 1;
            // find the least k with b^(2^k) = 1, scanning below v
            let mut k: u32 = 0;
            let mut b2k = self.reduce(&b);
            while k < v && !digits_eq(&b2k, &one)
                invariant
                    self.wf(),
                    k <= v,
                    val(b2k@) < self.p(),
                decreases v - k,
            {
                b2k = self.square(&b2k);
                k = k + 1;
            }
            if k >= v {
                // the order of b does not fit the stored two-adicity
                consistent = false;
            } else {
                let j = v - k - 1;
                w = self.reduce(&z);
                let mut i: u32 = 0;
                while i < j
                    invariant
                        self.wf(),
                        val(w@) < self.p(),
                    decreases j - i,
                {
                    w = self.square(&w);
                    i = i + 1;
                }
                z = self.square(&w);
                b = self.mul(&b, &z);
                x = self.mul(&x, &w);
                v = k;
            }
        }
        let xx = self.mul(&x, &x);
        if digits_eq(&xx, s) {
            return Some(x);
        }
        // The candidate failed its check, so the metadata was inconsistent;
        // fall back to a search that certifies the answer either way.
        self.sqrt_search(s)
    }

    /// Finds a square root by trying every element of the field in order; a
    /// `None` answer certifies that no root exists. Only reachable through
    /// [`Self::sqrt`] when the field's two-adic metadata is inconsistent.
    fn sqrt_search(&self, s: &Vec<u32>) -> (r: Option<Vec<u32>>)
        requires
            self.wf(),
            val(s@) < self.p(),
        ensures
            match r {
                Some(x) => val(x@) < self.p()
                    && fmul(self.p(), val(x@), val(x@)) == val(s@),
                None => !has_root(self.p(), val(s@)),
            },
    {
        let one = one_digits();
        let mut i = zero_digits();
        while digits_lt(&i, &self.modulus)
            invariant
                self.wf(),
                val(s@) < self.p(),
                val(i@) <= self.p(),
                val(one@) == 1,
                forall|j: nat| j < val(i@) ==> #[trigger] fmul(self.p(), j, j) != val(s@),
            decreases self.p() - val(i@),
        {
            let sq = self.mul(&i, &i);
            if digits_eq(&sq, s) {
                return Some(i);
            }
            i = big_add(&i, &one);
        }
        None
    }

    /// Whether a reduced element is the lexicographically larger of itself
    /// and its negation.
    pub fn is_largest(&self, a: &Vec<u32>) -> (r: bool)
        requires
            self.wf(),
            val(a@) < self.p(),
        ensures
            r == crate::modular::is_largest(self.p(), val(a@)),
    {
        let na = self.neg(a);
        big_cmp(a, &na) == 1i8
    }
}

} // verus!
