//! The affine representation of a curve point: the canonical `(x, y)` pair,
//! the curve-equation check, and coordinate recovery from one coordinate.

use vstd::prelude::*;
use crate::curve::{
    spec_aff_den1, spec_aff_den2, spec_aff_xnum, spec_aff_ynum, spec_mul_bits, spec_on_curve,
    spec_proj_is_zero, spec_proj_reduced, spec_recovered_x_point, spec_recovered_y_point,
    spec_square_cert, spec_to_extended, spec_x_den, spec_x_num, spec_x_quotient,
    spec_x_recoverable, spec_x_shape, spec_y_den, spec_y_num, spec_y_quotient,
    spec_y_recoverable, spec_y_shape, CurveParameters, SpecAffine,
};
use crate::digits::val;
use crate::field::{clone_digits, digits_eq, digits_lt, one_digits, zero_digits};
use crate::modular::{
    fmul, fneg, invertible, is_largest, lemma_fneg_involution, lemma_fneg_square,
    lemma_mul_inv_right,
};

verus! {

/// A point in affine coordinates. Values are constructed unchecked, as the
/// coordinate pair alone; whether the pair satisfies the curve equation is a
/// separate, checkable property.
pub struct GroupAffine {
    /// The x-coordinate.
    pub x: Vec<u32>,
    /// The y-coordinate.
    pub y: Vec<u32>,
}

impl View for GroupAffine {
    type V = SpecAffine;

    open spec fn view(&self) -> SpecAffine {
        SpecAffine { x: val(self.x@), y: val(self.y@) }
    }
}

/// Whether both affine coordinates are reduced modulo `p`.
pub open spec fn spec_affine_reduced(p: nat, a: SpecAffine) -> bool {
    a.x < p && a.y < p
}

impl Default for GroupAffine {
    /// The identity `(0, 1)`.
    fn default() -> (r: Self)
        ensures
            r@ == (SpecAffine { x: 0, y: 1 }),
    {
        Self::zero()
    }
}

impl GroupAffine {
    /// A point from its coordinates, unchecked.
    pub fn new(x: Vec<u32>, y: Vec<u32>) -> (r: Self)
        ensures
            r@ == (SpecAffine { x: val(x@), y: val(y@) }),
    {
        GroupAffine { x, y }
    }

    /// The designated identity `(0, 1)`.
    pub fn zero() -> (r: Self)
        ensures
            r@ == (SpecAffine { x: 0, y: 1 }),
    {
        GroupAffine { x: zero_digits(), y: one_digits() }
    }

    /// Whether this point is the identity `(0, 1)`.
    pub fn is_zero(&self) -> (r: bool)
        ensures
            r == (self@ == SpecAffine { x: 0, y: 1 }),
    {
        let one = one_digits();
        let r = crate::field::digits_are_zero(&self.x) && digits_eq(&self.y, &one);
        proof {
            if r {
                assert(self@ =~= SpecAffine { x: 0, y: 1 });
            }
        }
        r
    }

    /// Whether the coordinates satisfy the curve equation
    /// `a·x² + y² = 1 + d·x²·y²`.
    pub fn is_on_curve(&self, params: &CurveParameters) -> (r: bool)
        requires
            params.wf(),
        ensures
            r == spec_on_curve(params.p(), params.a(), params.d(), self@.x, self@.y),
    {
        let x2 = params.base.square(&self.x);
        let y2 = params.base.square(&self.y);
        let lhs = params.base.add(&y2, &params.base.mul(&params.coeff_a, &x2));
        let rhs = params.base.add(
            &one_digits(),
            &params.base.mul(&params.coeff_d, &params.base.mul(&x2, &y2)),
        );
        digits_eq(&lhs, &rhs)
    }

    /// Structural equality: coordinate-wise equality of values.
    pub fn equals(&self, other: &Self) -> (r: bool)
        ensures
            r == (self@ == other@),
    {
        let r = digits_eq(&self.x, &other.x) && digits_eq(&self.y, &other.y);
        proof {
            if r {
                assert(self@ =~= other@);
            }
        }
        r
    }

    /// The negation `(-x, y)`.
    pub fn neg(&self, params: &CurveParameters) -> (r: Self)
        requires
            params.wf(),
            self@.x <= params.p(),
        ensures
            r@ == (SpecAffine { x: fneg(params.p(), self@.x), y: self@.y }),
            r@.x < params.p(),
    {
        GroupAffine { x: params.base.neg(&self.x), y: clone_digits(&self.y) }
    }

    /// The x-coordinate.
    pub fn to_x_coordinate(&self) -> (r: Vec<u32>)
        ensures
            val(r@) == self@.x,
    {
        clone_digits(&self.x)
    }

    /// The y-coordinate.
    pub fn to_y_coordinate(&self) -> (r: Vec<u32>)
        ensures
            val(r@) == self@.y,
    {
        clone_digits(&self.y)
    }

    /// The prime-subgroup generator of the curve.
    pub fn prime_subgroup_generator(params: &CurveParameters) -> (r: Self)
        requires
            params.wf(),
        ensures
            r@ == (SpecAffine { x: val(params.generator_x@), y: val(params.generator_y@) }),
            spec_affine_reduced(params.p(), r@),
            spec_on_curve(params.p(), params.a(), params.d(), r@.x, r@.y),
    {
        GroupAffine {
            x: clone_digits(&params.generator_x),
            y: clone_digits(&params.generator_y),
        }
    }

    /// Both coordinates, in order, as base-field elements.
    pub fn to_field_elements(&self) -> (r: Vec<Vec<u32>>)
        ensures
            r@.len() == 2,
            val(r@[0]@) == self@.x,
            val(r@[1]@) == self@.y,
    {
        let mut r: Vec<Vec<u32>> = Vec::new();
        r.push(clone_digits(&self.x));
        r.push(clone_digits(&self.y));
        r
    }

    /// Attempts to recover a point from an x-coordinate by solving
    /// `y² = (a·x² - 1) / (d·x² - 1)`; fails when the denominator has no
    /// inverse or the quotient is a non-residue. If and only if `greatest`
    /// is set, the lexicographically larger of the two roots is selected.
    /// The recovered point is not guaranteed to lie in the prime-order
    /// subgroup.
    pub fn from_x_coordinate(params: &CurveParameters, x: &Vec<u32>, greatest: bool) -> (r:
        Option<GroupAffine>)
        requires
            params.wf(),
            val(x@) < params.p(),
        ensures
            match r {
                Some(pt) => {
                    let p = params.p();
                    pt@.x == val(x@) && spec_affine_reduced(p, pt@)
                        && fmul(p, fmul(p, pt@.y, pt@.y), spec_x_den(p, params.d(), val(x@)))
                            == spec_x_num(p, params.a(), val(x@))
                        && spec_on_curve(p, params.a(), params.d(), pt@.x, pt@.y)
                        && (pt@.y != fneg(p, pt@.y)
                            ==> (is_largest(p, pt@.y) <==> greatest))
                        && pt@ == spec_recovered_x_point(*params, val(x@), greatest)
                },
                None => !spec_x_recoverable(*params, val(x@)),
            },
            (r is Some) <==> spec_x_recoverable(*params, val(x@)),
    {
        let ghost p = params.p();
        let ghost den = spec_x_den(p, params.d(), val(x@));
        let ghost num = spec_x_num(p, params.a(), val(x@));
        let f = &params.base;
        let one = one_digits();
        let x2 = f.square(x);
        let numerator = f.sub(&f.mul(&params.coeff_a, &x2), &one);
        let denominator = f.sub(&f.mul(&params.coeff_d, &x2), &one);
        let denom_inv = match f.inverse(&denominator) {
            None => {
                proof {
                    // no inverse at all means the denominator is not
                    // invertible
                    if invertible(p, den) {
                        let w = choose|w: nat| w < p && #[trigger] fmul(p, den, w) == 1nat % p;
                        assert(false);
                    }
                }
                return None;
            }
            Some(w) => w,
        };
        let y2 = f.mul(&denom_inv, &numerator);
        proof {
            // y²·den = (den⁻¹·num)·den = num, so the computed quotient is
            // the unique one the contract names
            assert(val(denom_inv@) * val(numerator@) == val(numerator@) * val(denom_inv@));
            lemma_mul_inv_right(p, val(numerator@), val(denom_inv@), val(denominator@));
            assert(invertible(p, den));
            assert(exists|q: nat| q < p && #[trigger] fmul(p, q, den) == num) by {
                assert(fmul(p, val(y2@), den) == num);
            }
            crate::modular::lemma_mul_cancel(p, val(y2@),
                spec_x_quotient(p, params.a(), params.d(), val(x@)), den, val(denom_inv@));
            assert(val(y2@) == spec_x_quotient(p, params.a(), params.d(), val(x@)));
        }
        match f.sqrt(&y2) {
            None => {
                proof {
                    assert(!spec_square_cert(p, val(params.base.euler_exponent@), val(y2@)));
                }
                None
            }
            Some(y) => {
                let negy = f.neg(&y);
                let take_root = digits_lt(&y, &negy) != greatest;
                let ysel = if take_root {
                    y
                } else {
                    negy
                };
                proof {
                    lemma_fneg_square(p, val(y@));
                    lemma_fneg_involution(p, val(y@));
                    crate::laws::lemma_recovery_on_curve(p, params.a(), params.d(), val(x@),
                        val(ysel@));
                    // the root certifies the quotient as a square
                    assert(spec_square_cert(p, val(params.base.euler_exponent@), val(y2@)));
                }
                let r = GroupAffine { x: clone_digits(x), y: ysel };
                proof {
                    // any point of this shape is unique, so the result is
                    // the one the contract names
                    assert(spec_x_shape(*params, val(x@), greatest, r@));
                    assert(exists|pt: SpecAffine|
                        #[trigger] spec_x_shape(*params, val(x@), greatest, pt));
                    crate::laws::lemma_from_x_deterministic(p, params.a(), params.d(), val(x@),
                        greatest, r@, spec_recovered_x_point(*params, val(x@), greatest));
                }
                Some(r)
            }
        }
    }

    /// Attempts to recover a point from a y-coordinate by solving
    /// `x² = (1 - y²) / (a - d·y²)`, symmetrically to
    /// [`Self::from_x_coordinate`]; `greatest` selects among the two roots
    /// for `x`.
    pub fn from_y_coordinate(params: &CurveParameters, y: &Vec<u32>, greatest: bool) -> (r:
        Option<GroupAffine>)
        requires
            params.wf(),
            val(y@) < params.p(),
        ensures
            match r {
                Some(pt) => {
                    let p = params.p();
                    pt@.y == val(y@) && spec_affine_reduced(p, pt@)
                        && fmul(p, fmul(p, pt@.x, pt@.x),
                            spec_y_den(p, params.a(), params.d(), val(y@)))
                            == spec_y_num(p, val(y@))
                        && spec_on_curve(p, params.a(), params.d(), pt@.x, pt@.y)
                        && (pt@.x != fneg(p, pt@.x)
                            ==> (is_largest(p, pt@.x) <==> greatest))
                        && pt@ == spec_recovered_y_point(*params, val(y@), greatest)
                },
                None => !spec_y_recoverable(*params, val(y@)),
            },
            (r is Some) <==> spec_y_recoverable(*params, val(y@)),
    {
        let ghost p = params.p();
        let ghost den = spec_y_den(p, params.a(), params.d(), val(y@));
        let ghost num = spec_y_num(p, val(y@));
        let f = &params.base;
        let one = one_digits();
        let y2 = f.square(y);
        let numerator = f.sub(&one, &y2);
        let denominator = f.sub(&params.coeff_a, &f.mul(&params.coeff_d, &y2));
        let denom_inv = match f.inverse(&denominator) {
            None => {
                proof {
                    if invertible(p, den) {
                        let w = choose|w: nat| w < p && #[trigger] fmul(p, den, w) == 1nat % p;
                        assert(false);
                    }
                }
                return None;
            }
            Some(w) => w,
        };
        let x2 = f.mul(&denom_inv, &numerator);
        proof {
            assert(val(denom_inv@) * val(numerator@) == val(numerator@) * val(denom_inv@));
            lemma_mul_inv_right(p, val(numerator@), val(denom_inv@), val(denominator@));
            assert(invertible(p, den));
            assert(exists|q: nat| q < p && #[trigger] fmul(p, q, den) == num) by {
                assert(fmul(p, val(x2@), den) == num);
            }
            crate::modular::lemma_mul_cancel(p, val(x2@),
                spec_y_quotient(p, params.a(), params.d(), val(y@)), den, val(denom_inv@));
            assert(val(x2@) == spec_y_quotient(p, params.a(), params.d(), val(y@)));
        }
        match f.sqrt(&x2) {
            None => {
                proof {
                    assert(!spec_square_cert(p, val(params.base.euler_exponent@), val(x2@)));
                }
                None
            }
            Some(x) => {
                let negx = f.neg(&x);
                let take_root = digits_lt(&x, &negx) != greatest;
                let xsel = if take_root {
                    x
                } else {
                    negx
                };
                proof {
                    lemma_fneg_square(p, val(x@));
                    lemma_fneg_involution(p, val(x@));
                    crate::laws::lemma_recovery_on_curve_y(p, params.a(), params.d(),
                        val(xsel@), val(y@));
                    assert(spec_square_cert(p, val(params.base.euler_exponent@), val(x2@)));
                }
                let r = GroupAffine { x: xsel, y: clone_digits(y) };
                proof {
                    assert(spec_y_shape(*params, val(y@), greatest, r@));
                    assert(exists|pt: SpecAffine|
                        #[trigger] spec_y_shape(*params, val(y@), greatest, pt));
                    let chosen = spec_recovered_y_point(*params, val(y@), greatest);
                    crate::laws::lemma_selected_root_unique(p, den, num, r@.x, chosen.x,
                        greatest);
                    assert(r@ =~= chosen);
                }
                Some(r)
            }
        }
    }

    /// Double-and-add multiplication of this point by a bit sequence, most
    /// significant bit first, yielding a projective result.
    pub fn mul_bits(&self, params: &CurveParameters, bits: &Vec<u32>) -> (r:
        crate::projective::GroupProjective)
        requires
            params.wf(),
            bits@.len() <= crate::field::MAX_MODULUS_DIGITS,
        ensures
            r@ == spec_mul_bits(
                params.p(),
                params.a(),
                params.d(),
                spec_to_extended(params.p(), self@),
                bits@,
                32 * bits@.len(),
            ),
            spec_proj_reduced(params.p(), r@),
    {
        let ghost p = params.p();
        let ghost ca = params.a();
        let ghost cd = params.d();
        let ghost base = spec_to_extended(p, self@);
        let mut res = crate::projective::GroupProjective::zero();
        let nbits: usize = 32 * bits.len();
        let mut i: usize = 0;
        while i < nbits
            invariant
                params.wf(),
                i <= nbits,
                nbits == 32 * bits@.len(),
                p == params.p(),
                ca == params.a(),
                cd == params.d(),
                base == spec_to_extended(p, self@),
                res@ == spec_mul_bits(p, ca, cd, base, bits@, i as nat),
                spec_proj_reduced(p, res@) || res@ == crate::curve::spec_id(),
            decreases nbits - i,
        {
            let bit_index = nbits - 1 - i;
            let digit_index = bit_index / 32;
            proof {
                assert(bit_index / 32 < bits@.len()) by (nonlinear_arith)
                    requires bit_index < 32 * bits@.len();
            }
            let digit = bits[digit_index];
            let shift: u32 = (bit_index % 32) as u32;
            let bit = ((digit >> shift) & 1u32) == 1u32;
            proof {
                assert(bit == crate::curve::spec_bit(bits@, bit_index as nat));
            }
            res.double_in_place(params);
            if bit {
                res.add_assign_mixed(params, self);
            }
            i = i + 1;
        }
        res
    }

    /// This point multiplied by the curve's cofactor: the projective form of
    /// the nearest prime-subgroup element, used to move an arbitrary
    /// on-curve point into the subgroup.
    pub fn scale_by_cofactor(&self, params: &CurveParameters) -> (r:
        crate::projective::GroupProjective)
        requires
            params.wf(),
        ensures
            r@ == spec_mul_bits(
                params.p(),
                params.a(),
                params.d(),
                spec_to_extended(params.p(), self@),
                params.cofactor@,
                32 * params.cofactor@.len(),
            ),
            spec_proj_reduced(params.p(), r@),
    {
        self.mul_bits(params, &params.cofactor)
    }

    /// This point multiplied by the cofactor, as a projective point.
    pub fn mul_by_cofactor_to_projective(&self, params: &CurveParameters) -> (r:
        crate::projective::GroupProjective)
        requires
            params.wf(),
        ensures
            r@ == spec_mul_bits(
                params.p(),
                params.a(),
                params.d(),
                spec_to_extended(params.p(), self@),
                params.cofactor@,
                32 * params.cofactor@.len(),
            ),
            spec_proj_reduced(params.p(), r@),
    {
        self.scale_by_cofactor(params)
    }

    /// This point multiplied by an arbitrary scalar, given as digits, back
    /// in affine form; defined whenever the projective product can be
    /// normalized.
    pub fn mul(&self, params: &CurveParameters, scalar: &Vec<u32>) -> (r: GroupAffine)
        requires
            params.wf(),
            scalar@.len() <= crate::field::MAX_MODULUS_DIGITS,
            ({
                let m = spec_mul_bits(params.p(), params.a(), params.d(),
                    spec_to_extended(params.p(), self@), scalar@, 32 * scalar@.len());
                spec_proj_is_zero(m) || m.z == 1 || invertible(params.p(), m.z)
            }),
        ensures
            ({
                let m = spec_mul_bits(params.p(), params.a(), params.d(),
                    spec_to_extended(params.p(), self@), scalar@, 32 * scalar@.len());
                spec_affine_reduced(params.p(), r@)
                    && fmul(params.p(), r@.x, m.z) == m.x
                    && fmul(params.p(), r@.y, m.z) == m.y
            }),
    {
        let prod = self.mul_bits(params, scalar);
        prod.into_affine(params)
    }

    /// This point multiplied by the inverse of the cofactor.
    pub fn mul_by_cofactor_inv(&self, params: &CurveParameters) -> (r: GroupAffine)
        requires
            params.wf(),
            ({
                let m = spec_mul_bits(params.p(), params.a(), params.d(),
                    spec_to_extended(params.p(), self@), params.cofactor_inv@,
                    32 * params.cofactor_inv@.len());
                spec_proj_is_zero(m) || m.z == 1 || invertible(params.p(), m.z)
            }),
        ensures
            ({
                let m = spec_mul_bits(params.p(), params.a(), params.d(),
                    spec_to_extended(params.p(), self@), params.cofactor_inv@,
                    32 * params.cofactor_inv@.len());
                spec_affine_reduced(params.p(), r@)
                    && fmul(params.p(), r@.x, m.z) == m.x
                    && fmul(params.p(), r@.y, m.z) == m.y
            }),
    {
        self.mul(params, &params.cofactor_inv)
    }

    /// Whether this point lies in the prime-order subgroup: multiplication
    /// by the subgroup order annihilates it. The point is assumed to be on
    /// the curve already.
    pub fn is_in_correct_subgroup_assuming_on_curve(&self, params: &CurveParameters) -> (r:
        bool)
        requires
            params.wf(),
        ensures
            r == spec_proj_is_zero(spec_mul_bits(
                params.p(),
                params.a(),
                params.d(),
                spec_to_extended(params.p(), self@),
                params.scalar.modulus@,
                32 * params.scalar.modulus@.len(),
            )),
    {
        let prod = self.mul_bits(params, &params.scalar.modulus);
        prod.is_zero()
    }

    /// The affine sum by the twisted Edwards addition law, with each
    /// coordinate divided by its own denominator; defined whenever both
    /// denominators have inverses, which the completeness of the curve
    /// guarantees for on-curve points.
    pub fn add(&self, params: &CurveParameters, other: &Self) -> (r: Self)
        requires
            params.wf(),
            invertible(params.p(), spec_aff_den1(params.p(), params.d(), self@, other@)),
            invertible(params.p(), spec_aff_den2(params.p(), params.d(), self@, other@)),
        ensures
            spec_affine_reduced(params.p(), r@),
            fmul(params.p(), r@.x, spec_aff_den1(params.p(), params.d(), self@, other@))
                == spec_aff_xnum(params.p(), self@, other@),
            fmul(params.p(), r@.y, spec_aff_den2(params.p(), params.d(), self@, other@))
                == spec_aff_ynum(params.p(), params.a(), self@, other@),
    {
        let ghost p = params.p();
        let f = &params.base;
        let one = one_digits();
        let y1y2 = f.mul(&self.y, &other.y);
        let x1x2 = f.mul(&self.x, &other.x);
        let dxy = f.mul(&f.mul(&params.coeff_d, &y1y2), &x1x2);
        let den1 = f.add(&one, &dxy);
        let den2 = f.sub(&one, &dxy);
        let x1y2 = f.mul(&self.x, &other.y);
        let y1x2 = f.mul(&self.y, &other.x);
        let numx = f.add(&x1y2, &y1x2);
        let numy = f.sub(&y1y2, &f.mul(&params.coeff_a, &x1x2));
        let w1 = match f.inverse(&den1) {
            Some(w) => w,
            None => {
                proof {
                    assert(false);
                }
                vstd::pervasive::unreached()
            }
        };
        let w2 = match f.inverse(&den2) {
            Some(w) => w,
            None => {
                proof {
                    assert(false);
                }
                vstd::pervasive::unreached()
            }
        };
        let nx = f.mul(&numx, &w1);
        let ny = f.mul(&numy, &w2);
        proof {
            lemma_mul_inv_right(p, val(numx@), val(w1@), val(den1@));
            lemma_mul_inv_right(p, val(numy@), val(w2@), val(den2@));
        }
        GroupAffine { x: nx, y: ny }
    }

    /// Adds `other` into `self` by the affine addition law.
    pub fn add_assign(&mut self, params: &CurveParameters, other: &Self)
        requires
            params.wf(),
            invertible(params.p(), spec_aff_den1(params.p(), params.d(), old(self)@, other@)),
            invertible(params.p(), spec_aff_den2(params.p(), params.d(), old(self)@, other@)),
        ensures
            spec_affine_reduced(params.p(), final(self)@),
            fmul(params.p(), final(self)@.x,
                spec_aff_den1(params.p(), params.d(), old(self)@, other@))
                == spec_aff_xnum(params.p(), old(self)@, other@),
            fmul(params.p(), final(self)@.y,
                spec_aff_den2(params.p(), params.d(), old(self)@, other@))
                == spec_aff_ynum(params.p(), params.a(), old(self)@, other@),
    {
        let r = self.add(params, other);
        *self = r;
    }

    /// The affine double: addition of the point to itself.
    pub fn double(&self, params: &CurveParameters) -> (r: Self)
        requires
            params.wf(),
            invertible(params.p(), spec_aff_den1(params.p(), params.d(), self@, self@)),
            invertible(params.p(), spec_aff_den2(params.p(), params.d(), self@, self@)),
        ensures
            spec_affine_reduced(params.p(), r@),
            fmul(params.p(), r@.x, spec_aff_den1(params.p(), params.d(), self@, self@))
                == spec_aff_xnum(params.p(), self@, self@),
            fmul(params.p(), r@.y, spec_aff_den2(params.p(), params.d(), self@, self@))
                == spec_aff_ynum(params.p(), params.a(), self@, self@),
    {
        self.add(params, self)
    }

    /// Doubles in place.
    pub fn double_in_place(&mut self, params: &CurveParameters)
        requires
            params.wf(),
            invertible(params.p(),
                spec_aff_den1(params.p(), params.d(), old(self)@, old(self)@)),
            invertible(params.p(),
                spec_aff_den2(params.p(), params.d(), old(self)@, old(self)@)),
        ensures
            spec_affine_reduced(params.p(), final(self)@),
            fmul(params.p(), final(self)@.x,
                spec_aff_den1(params.p(), params.d(), old(self)@, old(self)@))
                == spec_aff_xnum(params.p(), old(self)@, old(self)@),
            fmul(params.p(), final(self)@.y,
                spec_aff_den2(params.p(), params.d(), old(self)@, old(self)@))
                == spec_aff_ynum(params.p(), params.a(), old(self)@, old(self)@),
    {
        let r = self.double(params);
        *self = r;
    }

    /// The affine difference: the sum with the negation of `other`.
    pub fn sub(&self, params: &CurveParameters, other: &Self) -> (r: Self)
        requires
            params.wf(),
            other@.x <= params.p(),
            invertible(params.p(), spec_aff_den1(params.p(), params.d(), self@,
                SpecAffine { x: fneg(params.p(), other@.x), y: other@.y })),
            invertible(params.p(), spec_aff_den2(params.p(), params.d(), self@,
                SpecAffine { x: fneg(params.p(), other@.x), y: other@.y })),
        ensures
            ({
                let o = SpecAffine { x: fneg(params.p(), other@.x), y: other@.y };
                spec_affine_reduced(params.p(), r@)
                    && fmul(params.p(), r@.x, spec_aff_den1(params.p(), params.d(), self@, o))
                        == spec_aff_xnum(params.p(), self@, o)
                    && fmul(params.p(), r@.y, spec_aff_den2(params.p(), params.d(), self@, o))
                        == spec_aff_ynum(params.p(), params.a(), self@, o)
            }),
    {
        let negated = other.neg(params);
        self.add(params, &negated)
    }

    /// This point in extended projective coordinates: `(x, y, x·y, 1)`.
    pub fn into_projective(&self, params: &CurveParameters) -> (r: crate::projective::GroupProjective)
        requires
            params.wf(),
        ensures
            r@ == spec_to_extended(params.p(), self@),
    {
        crate::projective::GroupProjective {
            x: clone_digits(&self.x),
            y: clone_digits(&self.y),
            t: params.base.mul(&self.x, &self.y),
            z: one_digits(),
        }
    }
}

} // verus!
