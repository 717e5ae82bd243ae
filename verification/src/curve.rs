//! The twisted Edwards curve `a·x² + y² = 1 + d·x²·y²`: the parameter
//! record that selects a concrete curve, and the mathematical model of both
//! point representations with the unified extended-coordinate addition
//! formula that the executable group law is specified against.

use vstd::prelude::*;
use vstd::arithmetic::div_mod::lemma_small_mod;
use crate::digits::{big_cmp, val};
use crate::field::{one_digits, small_digits, zero_digits, FieldCtx};
use crate::digits::npow;
use crate::modular::{fadd, fmul, fneg, fsub, has_root, invertible, is_largest, lemma_fmul_noop};

verus! {

/// The value of an affine point: a pair of reduced base-field naturals.
pub ghost struct SpecAffine {
    pub x: nat,
    pub y: nat,
}

/// The value of an extended projective point `(X, Y, T, Z)`.
pub ghost struct SpecProj {
    pub x: nat,
    pub y: nat,
    pub t: nat,
    pub z: nat,
}

/// The identity in extended projective coordinates.
pub open spec fn spec_id() -> SpecProj {
    SpecProj { x: 0, y: 1, t: 0, z: 1 }
}

/// An affine point lifted to extended projective coordinates.
pub open spec fn spec_to_extended(p: nat, a: SpecAffine) -> SpecProj {
    SpecProj { x: a.x, y: a.y, t: fmul(p, a.x, a.y), z: 1 }
}

/// Whether `(x, y)` satisfies the curve equation `a·x² + y² = 1 + d·x²·y²`
/// modulo `p`.
pub open spec fn spec_on_curve(p: nat, a: nat, d: nat, x: nat, y: nat) -> bool {
    let x2 = fmul(p, x, x);
    let y2 = fmul(p, y, y);
    fadd(p, y2, fmul(p, a, x2)) == fadd(p, 1, fmul(p, d, fmul(p, x2, y2)))
}

/// The unified extended-coordinate addition formula of Hisil, Wong, Carter
/// and Dawson, which is complete on a twisted Edwards curve: it needs no
/// case split for doubling or for an identity operand.
pub open spec fn spec_padd(p: nat, a: nat, d: nat, p1: SpecProj, p2: SpecProj) -> SpecProj {
    let va = fmul(p, p1.x, p2.x);
    let vb = fmul(p, p1.y, p2.y);
    let vc = fmul(p, fmul(p, d, p1.t), p2.t);
    let vd = fmul(p, p1.z, p2.z);
    let ve = fsub(p, fsub(p, fmul(p, fadd(p, p1.x, p1.y), fadd(p, p2.x, p2.y)), va), vb);
    let vf = fsub(p, vd, vc);
    let vg = fadd(p, vd, vc);
    let vh = fsub(p, vb, fmul(p, a, va));
    SpecProj {
        x: fmul(p, ve, vf),
        y: fmul(p, vg, vh),
        t: fmul(p, ve, vh),
        z: fmul(p, vf, vg),
    }
}

/// Projective equality by cross-multiplication: `X₁Z₂ = X₂Z₁` and
/// `Y₁Z₂ = Y₂Z₁`, since representations of a group element are not unique.
pub open spec fn spec_eq_proj(p: nat, p1: SpecProj, p2: SpecProj) -> bool {
    &&& fmul(p, p1.x, p2.z) == fmul(p, p2.x, p1.z)
    &&& fmul(p, p1.y, p2.z) == fmul(p, p2.y, p1.z)
}

/// Whether an extended projective point represents the identity.
pub open spec fn spec_proj_is_zero(p1: SpecProj) -> bool {
    p1.x == 0 && p1.y == p1.z && p1.y != 0 && p1.t == 0
}

/// Bit `j` (counted from the least significant end) of a little-endian
/// digit sequence.
pub open spec fn spec_bit(s: Seq<u32>, j: nat) -> bool {
    j < 32 * s.len() && (s[(j / 32) as int] >> ((j % 32) as u32)) & 1u32 == 1u32
}

/// The double-and-add result after consuming the `n` most significant bits
/// of the scalar `s` (most-significant-bit first): each step doubles, then
/// adds `base` when the bit is set.
pub open spec fn spec_mul_bits(
    p: nat,
    a: nat,
    d: nat,
    base: SpecProj,
    s: Seq<u32>,
    n: nat,
) -> SpecProj
    recommends
        n <= 32 * s.len(),
    decreases n,
{
    if n == 0 {
        spec_id()
    } else {
        let prev = spec_mul_bits(p, a, d, base, s, (n - 1) as nat);
        let doubled = spec_padd(p, a, d, prev, prev);
        if spec_bit(s, (32 * s.len() - n) as nat) {
            spec_padd(p, a, d, doubled, base)
        } else {
            doubled
        }
    }
}

/// The numerator `a·x² - 1` of the coordinate-recovery equation
/// `y² = (a·x² - 1) / (d·x² - 1)`.
pub open spec fn spec_x_num(p: nat, a: nat, x: nat) -> nat {
    fsub(p, fmul(p, a, fmul(p, x, x)), 1)
}

/// The denominator `d·x² - 1` of the coordinate-recovery equation for `y`.
pub open spec fn spec_x_den(p: nat, d: nat, x: nat) -> nat {
    fsub(p, fmul(p, d, fmul(p, x, x)), 1)
}

/// The numerator `1 - y²` of the coordinate-recovery equation
/// `x² = (1 - y²) / (a - d·y²)`.
pub open spec fn spec_y_num(p: nat, y: nat) -> nat {
    fsub(p, 1, fmul(p, y, y))
}

/// The denominator `a - d·y²` of the coordinate-recovery equation for `x`.
pub open spec fn spec_y_den(p: nat, a: nat, d: nat, y: nat) -> nat {
    fsub(p, a, fmul(p, d, fmul(p, y, y)))
}

/// Whether an element certifies as a square for the Euler exponent `e`:
/// zero, or its Euler power is one and some element squares to it. This is
/// precisely the condition the square-root routine decides, and on a prime
/// field it coincides with quadratic residuosity.
pub open spec fn spec_square_cert(p: nat, e: nat, s: nat) -> bool {
    s == 0 || (npow(s, e) % p == 1 && has_root(p, s))
}

/// The recovery quotient `(a·x² - 1) / (d·x² - 1)`: the unique reduced
/// element whose product with the denominator gives the numerator, when the
/// denominator is invertible.
pub open spec fn spec_x_quotient(p: nat, a: nat, d: nat, xv: nat) -> nat {
    choose|q: nat| q < p && #[trigger] fmul(p, q, spec_x_den(p, d, xv)) == spec_x_num(p, a, xv)
}

/// Whether recovery from the x-coordinate `xv` yields a point: the
/// denominator is invertible and the quotient certifies as a square.
pub open spec fn spec_x_recoverable(params: CurveParameters, xv: nat) -> bool {
    &&& invertible(params.p(), spec_x_den(params.p(), params.d(), xv))
    &&& spec_square_cert(params.p(), val(params.base.euler_exponent@),
        spec_x_quotient(params.p(), params.a(), params.d(), xv))
}

/// What a point recovered from the x-coordinate `xv` with selector
/// `greatest` satisfies: reduced coordinates, the recovery equation for
/// `y`, and the selector rule.
pub open spec fn spec_x_shape(
    params: CurveParameters,
    xv: nat,
    greatest: bool,
    pt: SpecAffine,
) -> bool {
    &&& pt.x == xv
    &&& pt.x < params.p()
    &&& pt.y < params.p()
    &&& fmul(params.p(), fmul(params.p(), pt.y, pt.y), spec_x_den(params.p(), params.d(), xv))
        == spec_x_num(params.p(), params.a(), xv)
    &&& (pt.y != fneg(params.p(), pt.y)
        ==> (is_largest(params.p(), pt.y) <==> greatest))
}

/// The point recovered from the x-coordinate `xv` with selector `greatest`;
/// unique on a prime field with an invertible denominator.
pub open spec fn spec_recovered_x_point(
    params: CurveParameters,
    xv: nat,
    greatest: bool,
) -> SpecAffine {
    choose|pt: SpecAffine| #[trigger] spec_x_shape(params, xv, greatest, pt)
}

/// The y-side recovery quotient `(1 - y²) / (a - d·y²)`.
pub open spec fn spec_y_quotient(p: nat, a: nat, d: nat, yv: nat) -> nat {
    choose|q: nat| q < p
        && #[trigger] fmul(p, q, spec_y_den(p, a, d, yv)) == spec_y_num(p, yv)
}

/// Whether recovery from the y-coordinate `yv` yields a point.
pub open spec fn spec_y_recoverable(params: CurveParameters, yv: nat) -> bool {
    &&& invertible(params.p(), spec_y_den(params.p(), params.a(), params.d(), yv))
    &&& spec_square_cert(params.p(), val(params.base.euler_exponent@),
        spec_y_quotient(params.p(), params.a(), params.d(), yv))
}

/// What a point recovered from the y-coordinate `yv` with selector
/// `greatest` satisfies.
pub open spec fn spec_y_shape(
    params: CurveParameters,
    yv: nat,
    greatest: bool,
    pt: SpecAffine,
) -> bool {
    &&& pt.y == yv
    &&& pt.x < params.p()
    &&& pt.y < params.p()
    &&& fmul(params.p(), fmul(params.p(), pt.x, pt.x),
        spec_y_den(params.p(), params.a(), params.d(), yv)) == spec_y_num(params.p(), yv)
    &&& (pt.x != fneg(params.p(), pt.x)
        ==> (is_largest(params.p(), pt.x) <==> greatest))
}

/// The point recovered from the y-coordinate `yv` with selector `greatest`.
pub open spec fn spec_recovered_y_point(
    params: CurveParameters,
    yv: nat,
    greatest: bool,
) -> SpecAffine {
    choose|pt: SpecAffine| #[trigger] spec_y_shape(params, yv, greatest, pt)
}

/// The shared product `d·(y₁y₂)·(x₁x₂)` of the affine addition formula.
pub open spec fn spec_aff_dxy(p: nat, d: nat, p1: SpecAffine, p2: SpecAffine) -> nat {
    fmul(p, fmul(p, d, fmul(p, p1.y, p2.y)), fmul(p, p1.x, p2.x))
}

/// The denominator `1 + d·x₁x₂y₁y₂` under the x-coordinate of an affine sum.
pub open spec fn spec_aff_den1(p: nat, d: nat, p1: SpecAffine, p2: SpecAffine) -> nat {
    fadd(p, 1, spec_aff_dxy(p, d, p1, p2))
}

/// The denominator `1 - d·x₁x₂y₁y₂` under the y-coordinate of an affine sum.
pub open spec fn spec_aff_den2(p: nat, d: nat, p1: SpecAffine, p2: SpecAffine) -> nat {
    fsub(p, 1, spec_aff_dxy(p, d, p1, p2))
}

/// The numerator `x₁y₂ + y₁x₂` over the x-coordinate of an affine sum.
pub open spec fn spec_aff_xnum(p: nat, p1: SpecAffine, p2: SpecAffine) -> nat {
    fadd(p, fmul(p, p1.x, p2.y), fmul(p, p1.y, p2.x))
}

/// The numerator `y₁y₂ - a·x₁x₂` over the y-coordinate of an affine sum.
pub open spec fn spec_aff_ynum(p: nat, a: nat, p1: SpecAffine, p2: SpecAffine) -> nat {
    fsub(p, fmul(p, p1.y, p2.y), fmul(p, a, fmul(p, p1.x, p2.x)))
}

/// Whether the four coordinates of a projective value are reduced.
pub open spec fn spec_proj_reduced(p: nat, p1: SpecProj) -> bool {
    p1.x < p && p1.y < p && p1.t < p && p1.z < p
}

/// The extended-coordinate invariant `T·Z = X·Y` modulo `p`.
pub open spec fn spec_extended_consistent(p: nat, p1: SpecProj) -> bool {
    fmul(p, p1.t, p1.z) == fmul(p, p1.x, p1.y)
}

/// One curve instantiation: both field capabilities, the curve coefficients,
/// the cofactor with its inverse in the scalar field, the prime-subgroup
/// generator, and the Montgomery-model twin coefficients
/// `A = 2(a+d)/(a-d)`, `B = 4/(a-d)`.
pub struct CurveParameters {
    /// The base field the coordinates live in.
    pub base: FieldCtx,
    /// The scalar field; its modulus is the order of the prime subgroup.
    pub scalar: FieldCtx,
    /// The coefficient `a` of the curve equation.
    pub coeff_a: Vec<u32>,
    /// The coefficient `d` of the curve equation.
    pub coeff_d: Vec<u32>,
    /// The cofactor of the prime subgroup in the full point group.
    pub cofactor: Vec<u32>,
    /// The inverse of the cofactor in the scalar field.
    pub cofactor_inv: Vec<u32>,
    /// The x-coordinate of the prime-subgroup generator.
    pub generator_x: Vec<u32>,
    /// The y-coordinate of the prime-subgroup generator.
    pub generator_y: Vec<u32>,
    /// The Montgomery-model coefficient `A = 2(a+d)/(a-d)`.
    pub montgomery_a: Vec<u32>,
    /// The Montgomery-model coefficient `B = 4/(a-d)`.
    pub montgomery_b: Vec<u32>,
}

impl CurveParameters {
    /// The base-field modulus.
    pub open spec fn p(&self) -> nat {
        self.base.p()
    }

    /// The curve coefficient `a`.
    pub open spec fn a(&self) -> nat {
        val(self.coeff_a@)
    }

    /// The curve coefficient `d`.
    pub open spec fn d(&self) -> nat {
        val(self.coeff_d@)
    }

    /// The scalar-field modulus: the order of the prime subgroup.
    pub open spec fn subgroup_order(&self) -> nat {
        val(self.scalar.modulus@)
    }

    /// What the constructor establishes: well-formed fields, reduced nonzero
    /// distinct coefficients, a generator on the curve, an invertible
    /// `a - d`, and the Montgomery twin-coefficient identity, stated
    /// multiplicatively.
    pub open spec fn wf(&self) -> bool {
        &&& self.base.wf()
        &&& self.scalar.wf()
        &&& 0 < self.a() < self.p()
        &&& 0 < self.d() < self.p()
        &&& self.a() != self.d()
        &&& val(self.cofactor@) > 0
        &&& self.cofactor@.len() <= crate::field::MAX_MODULUS_DIGITS
        &&& val(self.cofactor_inv@) < self.subgroup_order()
        &&& self.cofactor_inv@.len() <= crate::field::MAX_MODULUS_DIGITS
        &&& val(self.generator_x@) < self.p()
        &&& val(self.generator_y@) < self.p()
        &&& spec_on_curve(self.p(), self.a(), self.d(), val(self.generator_x@),
            val(self.generator_y@))
        &&& invertible(self.p(), fsub(self.p(), self.a(), self.d()))
        &&& val(self.montgomery_a@) < self.p()
        &&& val(self.montgomery_b@) < self.p()
        &&& fmul(self.p(), val(self.montgomery_a@), fsub(self.p(), self.a(), self.d()))
            == fmul(self.p(), 2, fadd(self.p(), self.a(), self.d()))
        &&& fmul(self.p(), val(self.montgomery_b@), fsub(self.p(), self.a(), self.d()))
            == 4nat % self.p()
    }

    /// The relations on the constructor's inputs that [`Self::new`] checks:
    /// exactly the curve-level part of [`Self::wf`], over well-formed
    /// fields.
    pub open spec fn spec_inputs_ok(
        base: FieldCtx,
        scalar: FieldCtx,
        coeff_a: Seq<u32>,
        coeff_d: Seq<u32>,
        cofactor: Seq<u32>,
        cofactor_inv: Seq<u32>,
        generator_x: Seq<u32>,
        generator_y: Seq<u32>,
        montgomery_a: Seq<u32>,
        montgomery_b: Seq<u32>,
    ) -> bool {
        let p = base.p();
        &&& 0 < val(coeff_a) < p
        &&& 0 < val(coeff_d) < p
        &&& val(coeff_a) != val(coeff_d)
        &&& val(cofactor) > 0
        &&& cofactor.len() <= crate::field::MAX_MODULUS_DIGITS
        &&& val(cofactor_inv) < val(scalar.modulus@)
        &&& cofactor_inv.len() <= crate::field::MAX_MODULUS_DIGITS
        &&& val(generator_x) < p
        &&& val(generator_y) < p
        &&& spec_on_curve(p, val(coeff_a), val(coeff_d), val(generator_x), val(generator_y))
        &&& val(montgomery_a) < p
        &&& val(montgomery_b) < p
        &&& invertible(p, fsub(p, val(coeff_a), val(coeff_d)))
        &&& fmul(p, val(montgomery_a), fsub(p, val(coeff_a), val(coeff_d)))
            == fmul(p, 2, fadd(p, val(coeff_a), val(coeff_d)))
        &&& fmul(p, val(montgomery_b), fsub(p, val(coeff_a), val(coeff_d))) == 4nat % p
    }

    /// Builds a parameter record after checking every relation of
    /// [`Self::wf`]; returns nothing exactly when one of the checked
    /// relations fails.
    pub fn new(
        base: FieldCtx,
        scalar: FieldCtx,
        coeff_a: Vec<u32>,
        coeff_d: Vec<u32>,
        cofactor: Vec<u32>,
        cofactor_inv: Vec<u32>,
        generator_x: Vec<u32>,
        generator_y: Vec<u32>,
        montgomery_a: Vec<u32>,
        montgomery_b: Vec<u32>,
    ) -> (r: Option<CurveParameters>)
        requires
            base.wf(),
            scalar.wf(),
        ensures
            match r {
                Some(params) => params.wf() && params.base == base && params.scalar == scalar
                    && params.coeff_a@ == coeff_a@ && params.coeff_d@ == coeff_d@
                    && params.cofactor@ == cofactor@ && params.cofactor_inv@ == cofactor_inv@
                    && params.generator_x@ == generator_x@ && params.generator_y@ == generator_y@
                    && params.montgomery_a@ == montgomery_a@
                    && params.montgomery_b@ == montgomery_b@,
                None => !Self::spec_inputs_ok(base, scalar, coeff_a@, coeff_d@, cofactor@,
                    cofactor_inv@, generator_x@, generator_y@, montgomery_a@, montgomery_b@),
            },
            (r is Some) <==> Self::spec_inputs_ok(base, scalar, coeff_a@, coeff_d@, cofactor@,
                cofactor_inv@, generator_x@, generator_y@, montgomery_a@, montgomery_b@),
    {
        let zero = zero_digits();
        if big_cmp(&coeff_a, &base.modulus) != -1i8 || big_cmp(&coeff_a, &zero) == 0i8 {
            return None;
        }
        if big_cmp(&coeff_d, &base.modulus) != -1i8 || big_cmp(&coeff_d, &zero) == 0i8 {
            return None;
        }
        if big_cmp(&coeff_a, &coeff_d) == 0i8 {
            return None;
        }
        if big_cmp(&cofactor, &zero) == 0i8 || cofactor.len() > crate::field::MAX_MODULUS_DIGITS {
            return None;
        }
        if big_cmp(&cofactor_inv, &scalar.modulus) != -1i8
            || cofactor_inv.len() > crate::field::MAX_MODULUS_DIGITS {
            return None;
        }
        if big_cmp(&generator_x, &base.modulus) != -1i8
            || big_cmp(&generator_y, &base.modulus) != -1i8 {
            return None;
        }
        // generator on curve
        let x2 = base.square(&generator_x);
        let y2 = base.square(&generator_y);
        let lhs = base.add(&y2, &base.mul(&coeff_a, &x2));
        let rhs = base.add(&one_digits(), &base.mul(&coeff_d, &base.mul(&x2, &y2)));
        if !crate::field::digits_eq(&lhs, &rhs) {
            return None;
        }
        // Montgomery twin coefficients
        if big_cmp(&montgomery_a, &base.modulus) != -1i8
            || big_cmp(&montgomery_b, &base.modulus) != -1i8 {
            return None;
        }
        let a_minus_d = base.sub(&coeff_a, &coeff_d);
        let inv = base.inverse(&a_minus_d);
        if inv.is_none() {
            return None;
        }
        let lhs_a = base.mul(&montgomery_a, &a_minus_d);
        let rhs_a = base.mul(&small_digits(2), &base.add(&coeff_a, &coeff_d));
        if !crate::field::digits_eq(&lhs_a, &rhs_a) {
            return None;
        }
        let lhs_b = base.mul(&montgomery_b, &a_minus_d);
        let rhs_b = base.reduce(&small_digits(4));
        if !crate::field::digits_eq(&lhs_b, &rhs_b) {
            return None;
        }
        proof {
            let p = base.p();
            let av = val(coeff_a@);
            let dv = val(coeff_d@);
            lemma_fmul_noop(p, av, val(x2@));
            lemma_fmul_noop(p, dv, val(x2@) * val(y2@));
            let w = inv.unwrap()@;
            assert(invertible(p, fsub(p, av, dv)));
        }
        Some(CurveParameters {
            base,
            scalar,
            coeff_a,
            coeff_d,
            cofactor,
            cofactor_inv,
            generator_x,
            generator_y,
            montgomery_a,
            montgomery_b,
        })
    }
}

/// Adding the identity to the identity yields the identity, exactly,
/// coordinate by coordinate.
pub proof fn lemma_padd_id_id(p: nat, a: nat, d: nat)
    requires
        p >= 2,
    ensures
        spec_padd(p, a, d, spec_id(), spec_id()) == spec_id(),
{
    lemma_small_mod(0, p);
    lemma_small_mod(1, p);
    assert(fmul(p, 0, 0) == 0) by {
        assert(0nat * 0nat == 0nat) by (nonlinear_arith);
        lemma_small_mod(0, p);
    }
    assert(fmul(p, 1, 1) == 1) by {
        assert(1nat * 1nat == 1nat) by (nonlinear_arith);
        lemma_small_mod(1, p);
    }
    assert(fmul(p, fmul(p, d, 0), 0) == 0) by {
        lemma_fmul_noop(p, fmul(p, d, 0), 0);
        assert(fmul(p, d, 0) == 0nat % p);
    }
    assert(fadd(p, 0, 1) == 1);
    assert(fsub(p, 1, 0) == 1) by {
        vstd::arithmetic::div_mod::lemma_mod_add_multiples_vanish(1, p as int);
        lemma_small_mod(1, p);
    }
    assert(fsub(p, 1, 1) == 0) by {
        vstd::arithmetic::div_mod::lemma_mod_self_0(p as int);
    }
    assert(fmul(p, a, 0) == 0nat % p);
    assert(spec_padd(p, a, d, spec_id(), spec_id()) == spec_id());
}

} // verus!
