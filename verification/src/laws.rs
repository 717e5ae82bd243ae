//! Algebraic laws of the point operations, proved once over the spec-level
//! formulas that the executable functions are specified against.

use vstd::prelude::*;
use vstd::arithmetic::div_mod::{
    lemma_add_mod_noop, lemma_add_mod_noop_right, lemma_fundamental_div_mod, lemma_mod_add_multiples_vanish, lemma_mod_bound,
    lemma_mod_multiples_basic, lemma_mod_twice, lemma_mul_mod_noop_right, lemma_small_mod,
};
use crate::affine::spec_affine_reduced;
use crate::curve::{
    spec_to_extended,
    spec_eq_proj, spec_extended_consistent, spec_id, spec_on_curve, spec_padd,
    spec_proj_reduced, spec_x_den, spec_x_num, SpecAffine, SpecProj,
};
use crate::modular::{
    fadd, fmul, fneg, fsub, invertible, lemma_fmul_assoc, lemma_fmul_noop, lemma_mul_cancel,
};
use crate::primes::{is_prime, lemma_two_roots};

verus! {

/// The unified addition formula is commutative: swapping the operands
/// yields the same four coordinates exactly.
pub proof fn lemma_padd_commutative(p: nat, a: nat, d: nat, p1: SpecProj, p2: SpecProj)
    requires
        p > 0,
    ensures
        spec_padd(p, a, d, p1, p2) == spec_padd(p, a, d, p2, p1),
{
    assert(p1.x * p2.x == p2.x * p1.x) by (nonlinear_arith);
    assert(p1.y * p2.y == p2.y * p1.y) by (nonlinear_arith);
    assert(p1.z * p2.z == p2.z * p1.z) by (nonlinear_arith);
    // d·t₁·t₂ reassociates to d·t₂·t₁
    lemma_fmul_assoc(p, d, p1.t, p2.t);
    lemma_fmul_assoc(p, d, p2.t, p1.t);
    assert(p1.t * p2.t == p2.t * p1.t) by (nonlinear_arith);
    let s1 = fadd(p, p1.x, p1.y);
    let s2 = fadd(p, p2.x, p2.y);
    assert(s1 * s2 == s2 * s1) by (nonlinear_arith);
    assert(spec_padd(p, a, d, p1, p2) == spec_padd(p, a, d, p2, p1));
}

/// Adding the identity leaves a point unchanged as a group element: the sum
/// cross-multiplies equal to the point itself.
pub proof fn lemma_padd_identity(p: nat, a: nat, d: nat, pt: SpecProj)
    requires
        p >= 3,
        spec_proj_reduced(p, pt),
    ensures
        spec_eq_proj(p, spec_padd(p, a, d, pt, spec_id()), pt),
{
    lemma_small_mod(0, p);
    lemma_small_mod(1, p);
    lemma_small_mod(pt.x, p);
    lemma_small_mod(pt.y, p);
    lemma_small_mod(pt.z, p);
    let r = spec_padd(p, a, d, pt, spec_id());
    assert(pt.x * 0 == 0 && pt.y * 1 == pt.y && pt.z * 1 == pt.z && a * 0 == 0
        && fmul(p, d, pt.t) * 0 == 0) by (nonlinear_arith);
    // A = 0, B = y, C = 0, D = z
    assert(fmul(p, pt.x, 0) == 0);
    assert(fmul(p, pt.y, 1) == pt.y);
    assert(fmul(p, pt.z, 1) == pt.z);
    assert(fmul(p, fmul(p, d, pt.t), 0) == 0);
    // E = (x + y)·1 - 0 - y = x
    let s = fadd(p, pt.x, pt.y);
    assert(fadd(p, 0, 1) == 1);
    lemma_mod_bound((pt.x + pt.y) as int, p as int);
    assert(s * 1 == s) by (nonlinear_arith);
    assert(fmul(p, s, fadd(p, 0, 1)) == s) by {
        lemma_small_mod(s, p);
    }
    assert(fsub(p, s, 0) == s) by {
        lemma_mod_add_multiples_vanish(s as int, p as int);
        lemma_small_mod(s, p);
    }
    let e = fsub(p, s, pt.y);
    assert(e == pt.x) by {
        // ((x + y) % p + p - y) % p == x, splitting on whether x + y wrapped
        if pt.x + pt.y < p {
            lemma_small_mod((pt.x + pt.y) as nat, p);
            assert(s == pt.x + pt.y);
            lemma_mod_add_multiples_vanish(pt.x as int, p as int);
            lemma_small_mod(pt.x, p);
        } else {
            vstd::arithmetic::div_mod::lemma_mod_sub_multiples_vanish(
                (pt.x + pt.y) as int, p as int);
            lemma_small_mod((pt.x + pt.y - p) as nat, p);
            assert(s == pt.x + pt.y - p);
            lemma_small_mod(pt.x, p);
        }
    }
    // F = z, G = z, H = y
    assert(fsub(p, pt.z, 0) == pt.z) by {
        lemma_mod_add_multiples_vanish(pt.z as int, p as int);
        lemma_small_mod(pt.z, p);
    }
    assert(fadd(p, pt.z, 0) == pt.z);
    assert(fsub(p, pt.y, 0) == pt.y) by {
        lemma_mod_add_multiples_vanish(pt.y as int, p as int);
        lemma_small_mod(pt.y, p);
    }
    assert(r.x == fmul(p, pt.x, pt.z));
    assert(r.y == fmul(p, pt.z, pt.y));
    assert(r.z == fmul(p, pt.z, pt.z));
    // (x·z)·z == x·(z·z) and (z·y)·z == y·(z·z)
    lemma_fmul_assoc(p, pt.x, pt.z, pt.z);
    lemma_fmul_noop(p, pt.x, pt.z * pt.z);
    lemma_fmul_assoc(p, pt.z, pt.y, pt.z);
    lemma_fmul_assoc(p, pt.y, pt.z, pt.z);
    assert(pt.z * pt.y == pt.y * pt.z) by (nonlinear_arith);
    lemma_fmul_noop(p, pt.y, pt.z * pt.z);
}

/// The unified addition formula preserves the extended-coordinate
/// invariant: its result always satisfies `T·Z = X·Y` modulo `p`.
pub proof fn lemma_padd_extended_consistent(p: nat, a: nat, d: nat, p1: SpecProj, p2: SpecProj)
    requires
        p > 0,
    ensures
        spec_extended_consistent(p, spec_padd(p, a, d, p1, p2)),
{
    let r = spec_padd(p, a, d, p1, p2);
    let va = fmul(p, p1.x, p2.x);
    let vb = fmul(p, p1.y, p2.y);
    let vc = fmul(p, fmul(p, d, p1.t), p2.t);
    let vd = fmul(p, p1.z, p2.z);
    let ve = fsub(p, fsub(p, fmul(p, fadd(p, p1.x, p1.y), fadd(p, p2.x, p2.y)), va), vb);
    let vf = fsub(p, vd, vc);
    let vg = fadd(p, vd, vc);
    let vh = fsub(p, vb, fmul(p, a, va));
    // T·Z = (E·H)·(F·G) and X·Y = (E·F)·(G·H): the same product of four
    // factors, reassociated
    lemma_fmul_noop(p, ve * vh, vf * vg);
    lemma_fmul_noop(p, ve * vf, vg * vh);
    assert((ve * vh) * (vf * vg) == (ve * vf) * (vg * vh)) by (nonlinear_arith);
}

/// Normalizing a batch and normalizing one by one agree: an affine pair
/// recovered from a projective point is unique whenever the point's `Z` is
/// invertible, so any two conversions that satisfy the conversion contract
/// — the element-wise one and the batch one — produce equal coordinates.
pub proof fn lemma_batch_matches_individual(
    p: nat,
    pt: SpecProj,
    a1: SpecAffine,
    a2: SpecAffine,
)
    requires
        p > 1,
        invertible(p, pt.z),
        spec_affine_reduced(p, a1),
        spec_affine_reduced(p, a2),
        fmul(p, a1.x, pt.z) == pt.x % p,
        fmul(p, a1.y, pt.z) == pt.y % p,
        fmul(p, a2.x, pt.z) == pt.x % p,
        fmul(p, a2.y, pt.z) == pt.y % p,
    ensures
        a1 == a2,
{
    let w = choose|w: nat| w < p && #[trigger] fmul(p, pt.z, w) == 1nat % p;
    lemma_mul_cancel(p, a1.x, a2.x, pt.z, w);
    lemma_mul_cancel(p, a1.y, a2.y, pt.z, w);
    assert(a1 =~= a2);
}

/// An on-curve point satisfies the coordinate-recovery equation: its `y`
/// squared, multiplied by the recovery denominator `d·x² - 1`, gives the
/// numerator `a·x² - 1` modulo `p`.
pub proof fn lemma_on_curve_recovery(p: nat, a: nat, d: nat, x: nat, y: nat)
    requires
        p >= 2,
        x < p,
        y < p,
        spec_on_curve(p, a, d, x, y),
    ensures
        fmul(p, fmul(p, y, y), spec_x_den(p, d, x)) == spec_x_num(p, a, x),
{
    let pi = p as int;
    let x2 = fmul(p, x, x);
    let y2 = fmul(p, y, y);
    // the curve equation with the inner reductions removed
    assert(fadd(p, y2, fmul(p, a, x2)) == (y2 + a * x2) % p) by {
        lemma_add_mod_noop_right(y2 as int, (a * x2) as int, pi);
        lemma_mod_twice((a * x2) as int, pi);
        lemma_small_mod(y2, p);
    }
    assert(fadd(p, 1, fmul(p, d, fmul(p, x2, y2))) == (1 + d * (x2 * y2)) % p) by {
        lemma_mul_mod_noop_right(d as int, (x2 * y2) as int, pi);
        lemma_add_mod_noop_right(1, (d * (x2 * y2)) as int, pi);
        lemma_mod_twice((d * (x2 * y2)) as int, pi);
        lemma_small_mod(1, p);
    }
    let c = y2 as int + a as int * x2 as int - 1 - d as int * (x2 as int * y2 as int);
    assert(c % pi == 0) by {
        vstd::arithmetic::div_mod::lemma_mod_equivalence(
            (y2 + a * x2) as int, (1 + d * (x2 * y2)) as int, pi);
    }
    // the recovery sides, with their inner reductions removed
    let lhs_raw = y2 as int * (d as int * x2 as int + pi - 1);
    let rhs_raw = a as int * x2 as int + pi - 1;
    assert(fmul(p, y2, spec_x_den(p, d, x)) == lhs_raw % pi) by {
        lemma_mul_mod_noop_right(y2 as int, ((d * x2) % p + p - 1) as int, pi);
        lemma_add_mod_noop((d * x2) as int, (p - 1) as int, pi);
        lemma_small_mod((p - 1) as nat, p);
        lemma_mod_twice((d * x2) as int, pi);
        lemma_mul_mod_noop_right(y2 as int, (d * x2 + p - 1) as int, pi);
    }
    assert(spec_x_num(p, a, x) == rhs_raw % pi) by {
        lemma_add_mod_noop((a * x2) as int, (p - 1) as int, pi);
        lemma_small_mod((p - 1) as nat, p);
        lemma_mod_twice((a * x2) as int, pi);
    }
    // the difference of the raw sides is c away from a multiple of p
    lemma_fundamental_div_mod(c, pi);
    let qc = c / pi;
    assert(lhs_raw - rhs_raw == pi * (y2 as int - 1 - qc)) by (nonlinear_arith)
        requires
            c == y2 as int + a as int * x2 as int - 1 - d as int * (x2 as int * y2 as int),
            c == pi * qc,
            lhs_raw == y2 as int * (d as int * x2 as int + pi - 1),
            rhs_raw == a as int * x2 as int + pi - 1;
    assert((lhs_raw - rhs_raw) % pi == 0) by {
        lemma_mod_multiples_basic(y2 as int - 1 - qc, pi);
        assert(pi * (y2 as int - 1 - qc) == (y2 as int - 1 - qc) * pi) by (nonlinear_arith);
    }
    vstd::arithmetic::div_mod::lemma_mod_equivalence(lhs_raw, rhs_raw, pi);
}

/// The converse of [`lemma_on_curve_recovery`]: coordinates that satisfy
/// the recovery equation lie on the curve.
pub proof fn lemma_recovery_on_curve(p: nat, a: nat, d: nat, x: nat, y: nat)
    requires
        p >= 2,
        x < p,
        y < p,
        fmul(p, fmul(p, y, y), spec_x_den(p, d, x)) == spec_x_num(p, a, x),
    ensures
        spec_on_curve(p, a, d, x, y),
{
    let pi = p as int;
    let x2 = fmul(p, x, x);
    let y2 = fmul(p, y, y);
    assert(fadd(p, y2, fmul(p, a, x2)) == (y2 + a * x2) % p) by {
        lemma_add_mod_noop_right(y2 as int, (a * x2) as int, pi);
        lemma_mod_twice((a * x2) as int, pi);
        lemma_small_mod(y2, p);
    }
    assert(fadd(p, 1, fmul(p, d, fmul(p, x2, y2))) == (1 + d * (x2 * y2)) % p) by {
        lemma_mul_mod_noop_right(d as int, (x2 * y2) as int, pi);
        lemma_add_mod_noop_right(1, (d * (x2 * y2)) as int, pi);
        lemma_mod_twice((d * (x2 * y2)) as int, pi);
        lemma_small_mod(1, p);
    }
    let lhs_raw = y2 as int * (d as int * x2 as int + pi - 1);
    let rhs_raw = a as int * x2 as int + pi - 1;
    assert(fmul(p, y2, spec_x_den(p, d, x)) == lhs_raw % pi) by {
        lemma_mul_mod_noop_right(y2 as int, ((d * x2) % p + p - 1) as int, pi);
        lemma_add_mod_noop((d * x2) as int, (p - 1) as int, pi);
        lemma_small_mod((p - 1) as nat, p);
        lemma_mod_twice((d * x2) as int, pi);
        lemma_mul_mod_noop_right(y2 as int, (d * x2 + p - 1) as int, pi);
    }
    assert(spec_x_num(p, a, x) == rhs_raw % pi) by {
        lemma_add_mod_noop((a * x2) as int, (p - 1) as int, pi);
        lemma_small_mod((p - 1) as nat, p);
        lemma_mod_twice((a * x2) as int, pi);
    }
    // the raw recovery sides agree modulo p; transfer the congruence to
    // the raw curve-equation sides
    vstd::arithmetic::div_mod::lemma_mod_equivalence(lhs_raw, rhs_raw, pi);
    lemma_fundamental_div_mod(lhs_raw - rhs_raw, pi);
    let qc = (lhs_raw - rhs_raw) / pi;
    let eq_l = y2 as int + a as int * x2 as int;
    let eq_r = 1 + d as int * (x2 as int * y2 as int);
    assert(eq_l - eq_r == pi * (y2 as int - 1 - qc)) by (nonlinear_arith)
        requires
            lhs_raw - rhs_raw == pi * qc,
            lhs_raw == y2 as int * (d as int * x2 as int + pi - 1),
            rhs_raw == a as int * x2 as int + pi - 1,
            eq_l == y2 as int + a as int * x2 as int,
            eq_r == 1 + d as int * (x2 as int * y2 as int);
    assert((eq_l - eq_r) % pi == 0) by {
        lemma_mod_multiples_basic(y2 as int - 1 - qc, pi);
        assert(pi * (y2 as int - 1 - qc) == (y2 as int - 1 - qc) * pi) by (nonlinear_arith);
    }
    vstd::arithmetic::div_mod::lemma_mod_equivalence(eq_l, eq_r, pi);
}

/// The converse of [`lemma_on_curve_recovery_y`]: coordinates that satisfy
/// the y-side recovery equation lie on the curve.
pub proof fn lemma_recovery_on_curve_y(p: nat, a: nat, d: nat, x: nat, y: nat)
    requires
        p >= 2,
        a < p,
        x < p,
        y < p,
        fmul(p, fmul(p, x, x), crate::curve::spec_y_den(p, a, d, y)) == crate::curve::spec_y_num(
            p,
            y,
        ),
    ensures
        spec_on_curve(p, a, d, x, y),
{
    let pi = p as int;
    let x2 = fmul(p, x, x);
    let y2 = fmul(p, y, y);
    assert(fadd(p, y2, fmul(p, a, x2)) == (y2 + a * x2) % p) by {
        lemma_add_mod_noop_right(y2 as int, (a * x2) as int, pi);
        lemma_mod_twice((a * x2) as int, pi);
        lemma_small_mod(y2, p);
    }
    assert(fadd(p, 1, fmul(p, d, fmul(p, x2, y2))) == (1 + d * (x2 * y2)) % p) by {
        lemma_mul_mod_noop_right(d as int, (x2 * y2) as int, pi);
        lemma_add_mod_noop_right(1, (d * (x2 * y2)) as int, pi);
        lemma_mod_twice((d * (x2 * y2)) as int, pi);
        lemma_small_mod(1, p);
    }
    let den = crate::curve::spec_y_den(p, a, d, y);
    let lhs_raw = x2 as int * (a as int + pi - d as int * y2 as int);
    let rhs_raw = 1 + pi - y2 as int;
    assert(fmul(p, x2, den) == lhs_raw % pi) by {
        lemma_mod_twice((d * y2) as int, pi);
        vstd::arithmetic::div_mod::lemma_sub_mod_noop_right(
            (a + p) as int, (d * y2) as int, pi);
        lemma_mul_mod_noop_right(x2 as int, ((a + p) as int - ((d * y2) % p) as int), pi);
        lemma_mul_mod_noop_right(x2 as int, (a as int + pi - d as int * y2 as int), pi);
    }
    assert(crate::curve::spec_y_num(p, y) == rhs_raw % pi) by {
        lemma_small_mod(y2, p);
    }
    vstd::arithmetic::div_mod::lemma_mod_equivalence(lhs_raw, rhs_raw, pi);
    lemma_fundamental_div_mod(lhs_raw - rhs_raw, pi);
    let qc = (lhs_raw - rhs_raw) / pi;
    let eq_l = y2 as int + a as int * x2 as int;
    let eq_r = 1 + d as int * (x2 as int * y2 as int);
    assert(eq_l - eq_r == pi * (qc - x2 as int + 1)) by (nonlinear_arith)
        requires
            lhs_raw - rhs_raw == pi * qc,
            lhs_raw == x2 as int * (a as int + pi - d as int * y2 as int),
            rhs_raw == 1 + pi - y2 as int,
            eq_l == y2 as int + a as int * x2 as int,
            eq_r == 1 + d as int * (x2 as int * y2 as int);
    assert((eq_l - eq_r) % pi == 0) by {
        lemma_mod_multiples_basic(qc - x2 as int + 1, pi);
        assert(pi * (qc - x2 as int + 1) == (qc - x2 as int + 1) * pi) by (nonlinear_arith);
    }
    vstd::arithmetic::div_mod::lemma_mod_equivalence(eq_l, eq_r, pi);
}

/// An on-curve point satisfies the y-side recovery equation: its `x`
/// squared, multiplied by the denominator `a - d·y²`, gives the numerator
/// `1 - y²` modulo `p`.
pub proof fn lemma_on_curve_recovery_y(p: nat, a: nat, d: nat, x: nat, y: nat)
    requires
        p >= 2,
        a < p,
        x < p,
        y < p,
        spec_on_curve(p, a, d, x, y),
    ensures
        fmul(p, fmul(p, x, x), crate::curve::spec_y_den(p, a, d, y)) == crate::curve::spec_y_num(
            p,
            y,
        ),
{
    let pi = p as int;
    let x2 = fmul(p, x, x);
    let y2 = fmul(p, y, y);
    assert(fadd(p, y2, fmul(p, a, x2)) == (y2 + a * x2) % p) by {
        lemma_add_mod_noop_right(y2 as int, (a * x2) as int, pi);
        lemma_mod_twice((a * x2) as int, pi);
        lemma_small_mod(y2, p);
    }
    assert(fadd(p, 1, fmul(p, d, fmul(p, x2, y2))) == (1 + d * (x2 * y2)) % p) by {
        lemma_mul_mod_noop_right(d as int, (x2 * y2) as int, pi);
        lemma_add_mod_noop_right(1, (d * (x2 * y2)) as int, pi);
        lemma_mod_twice((d * (x2 * y2)) as int, pi);
        lemma_small_mod(1, p);
    }
    let c = y2 as int + a as int * x2 as int - 1 - d as int * (x2 as int * y2 as int);
    assert(c % pi == 0) by {
        vstd::arithmetic::div_mod::lemma_mod_equivalence(
            (y2 + a * x2) as int, (1 + d * (x2 * y2)) as int, pi);
    }
    // the y-side recovery sides, with their inner reductions removed
    let den = crate::curve::spec_y_den(p, a, d, y);
    let lhs_raw = x2 as int * (a as int + pi - d as int * y2 as int);
    let rhs_raw = 1 + pi - y2 as int;
    assert(fmul(p, x2, den) == lhs_raw % pi) by {
        // den = ((a + p) - (d·y²) % p) % p ≡ a + p - d·y²
        lemma_mod_twice((d * y2) as int, pi);
        vstd::arithmetic::div_mod::lemma_sub_mod_noop_right(
            (a + p) as int, (d * y2) as int, pi);
        lemma_mul_mod_noop_right(x2 as int, ((a + p) as int - ((d * y2) % p) as int), pi);
        lemma_mul_mod_noop_right(x2 as int, (a as int + pi - d as int * y2 as int), pi);
    }
    assert(crate::curve::spec_y_num(p, y) == rhs_raw % pi) by {
        lemma_small_mod(y2, p);
    }
    lemma_fundamental_div_mod(c, pi);
    let qc = c / pi;
    assert(lhs_raw - rhs_raw == pi * (x2 as int - 1 + qc)) by (nonlinear_arith)
        requires
            c == y2 as int + a as int * x2 as int - 1 - d as int * (x2 as int * y2 as int),
            c == pi * qc,
            lhs_raw == x2 as int * (a as int + pi - d as int * y2 as int),
            rhs_raw == 1 + pi - y2 as int;
    assert((lhs_raw - rhs_raw) % pi == 0) by {
        lemma_mod_multiples_basic(x2 as int - 1 + qc, pi);
        assert(pi * (x2 as int - 1 + qc) == (x2 as int - 1 + qc) * pi) by (nonlinear_arith);
    }
    vstd::arithmetic::div_mod::lemma_mod_equivalence(lhs_raw, rhs_raw, pi);
}

/// A reduced element that is not its own negation is the larger of the
/// root pair exactly when its negation is not.
pub proof fn lemma_largest_trichotomy(p: nat, y: nat)
    requires
        p > 0,
        y < p,
        y != fneg(p, y),
    ensures
        crate::modular::is_largest(p, y) <==> !crate::modular::is_largest(p, fneg(p, y)),
{
    crate::modular::lemma_fneg_involution(p, y);
}

/// Among the at most two square roots of a value in a prime field, the
/// selector flag picks one uniquely.
pub proof fn lemma_root_unique_with_flag(p: nat, y1: nat, y2: nat, flag: bool)
    requires
        is_prime(p),
        y1 < p,
        y2 < p,
        fmul(p, y1, y1) == fmul(p, y2, y2),
        y1 != fneg(p, y1),
        crate::modular::is_largest(p, y1) <==> flag,
        y2 != fneg(p, y2) ==> (crate::modular::is_largest(p, y2) <==> flag),
    ensures
        y1 == y2,
{
    lemma_two_roots(p, y2, y1);
    if y2 == fneg(p, y1) {
        crate::modular::lemma_fneg_involution(p, y1);
        lemma_largest_trichotomy(p, y1);
    }
}

/// Coordinate-recovery duality: for an on-curve point whose recovery
/// denominator is invertible, the two sign choices of recovery cover the
/// point, and when `y` is not its own negation exactly one of them is the
/// point.
///
/// `a1` and `a2` stand for successful recoveries from the point's
/// x-coordinate with the selector set and cleared, described by the
/// recovery contract; whether recovery succeeds at all is a residuosity
/// question outside this lemma.
pub proof fn lemma_recovery_duality(
    p: nat,
    a: nat,
    d: nat,
    pt: SpecAffine,
    a1: SpecAffine,
    a2: SpecAffine,
)
    requires
        is_prime(p),
        spec_affine_reduced(p, pt),
        spec_on_curve(p, a, d, pt.x, pt.y),
        spec_x_den(p, d, pt.x) != 0,
        a1.x == pt.x,
        spec_affine_reduced(p, a1),
        fmul(p, fmul(p, a1.y, a1.y), spec_x_den(p, d, pt.x)) == spec_x_num(p, a, pt.x),
        a1.y != fneg(p, a1.y) ==> crate::modular::is_largest(p, a1.y),
        a2.x == pt.x,
        spec_affine_reduced(p, a2),
        fmul(p, fmul(p, a2.y, a2.y), spec_x_den(p, d, pt.x)) == spec_x_num(p, a, pt.x),
        a2.y != fneg(p, a2.y) ==> !crate::modular::is_largest(p, a2.y),
    ensures
        pt == a1 || pt == a2,
        pt.y != fneg(p, pt.y) ==> !(pt =~= a1 && pt =~= a2),
{
    lemma_on_curve_recovery(p, a, d, pt.x, pt.y);
    let den = spec_x_den(p, d, pt.x);
    lemma_mod_bound(((fmul(p, d, fmul(p, pt.x, pt.x)) + p) - 1) as int, p as int);
    crate::primes::lemma_prime_invertible(p, den);
    let w = choose|w: nat| w < p && #[trigger] fmul(p, den, w) == 1nat % p;
    let s0 = fmul(p, pt.y, pt.y);
    let s1 = fmul(p, a1.y, a1.y);
    let s2 = fmul(p, a2.y, a2.y);
    lemma_mod_bound((pt.y * pt.y) as int, p as int);
    lemma_mod_bound((a1.y * a1.y) as int, p as int);
    lemma_mod_bound((a2.y * a2.y) as int, p as int);
    lemma_mul_cancel(p, s0, s1, den, w);
    lemma_mul_cancel(p, s0, s2, den, w);
    if pt.y == fneg(p, pt.y) {
        lemma_two_roots(p, a1.y, pt.y);
        lemma_two_roots(p, a2.y, pt.y);
        assert(pt =~= a1);
    } else {
        lemma_largest_trichotomy(p, pt.y);
        if crate::modular::is_largest(p, pt.y) {
            lemma_root_unique_with_flag(p, pt.y, a1.y, true);
            assert(pt =~= a1);
            lemma_two_roots(p, a2.y, pt.y);
            if a2.y == pt.y {
                assert(false);
            }
        } else {
            lemma_root_unique_with_flag(p, pt.y, a2.y, false);
            assert(pt =~= a2);
            lemma_two_roots(p, a1.y, pt.y);
            if a1.y == pt.y {
                assert(false);
            }
        }
    }
}

/// Among the square roots of a common quotient — given by the recovery
/// equation against an invertible denominator — the selector flag picks one
/// root uniquely, whatever the flag, once self-negated roots collapse.
pub proof fn lemma_selected_root_unique(
    p: nat,
    den: nat,
    num: nat,
    r1: nat,
    r2: nat,
    flag: bool,
)
    requires
        is_prime(p),
        invertible(p, den),
        r1 < p,
        r2 < p,
        fmul(p, fmul(p, r1, r1), den) == num,
        fmul(p, fmul(p, r2, r2), den) == num,
        r1 != fneg(p, r1) ==> (crate::modular::is_largest(p, r1) <==> flag),
        r2 != fneg(p, r2) ==> (crate::modular::is_largest(p, r2) <==> flag),
    ensures
        r1 == r2,
{
    let w = choose|w: nat| w < p && #[trigger] fmul(p, den, w) == 1nat % p;
    let s1 = fmul(p, r1, r1);
    let s2 = fmul(p, r2, r2);
    lemma_mod_bound((r1 * r1) as int, p as int);
    lemma_mod_bound((r2 * r2) as int, p as int);
    lemma_mul_cancel(p, s1, s2, den, w);
    if r1 == fneg(p, r1) {
        lemma_two_roots(p, r2, r1);
    } else if r2 == fneg(p, r2) {
        lemma_two_roots(p, r1, r2);
    } else {
        lemma_root_unique_with_flag(p, r1, r2, flag);
    }
}

/// Coordinate recovery is deterministic: any two points that satisfy the
/// recovery contract for the same x-value and selector are equal. With the
/// scalar-multiplication and normalization results pinned by their own
/// contracts, this is the step of the label-to-point map where
/// determinism could otherwise be lost.
pub proof fn lemma_from_x_deterministic(
    p: nat,
    a: nat,
    d: nat,
    xv: nat,
    greatest: bool,
    pt1: SpecAffine,
    pt2: SpecAffine,
)
    requires
        is_prime(p),
        invertible(p, spec_x_den(p, d, xv)),
        pt1.x == xv,
        spec_affine_reduced(p, pt1),
        fmul(p, fmul(p, pt1.y, pt1.y), spec_x_den(p, d, xv)) == spec_x_num(p, a, xv),
        pt1.y != fneg(p, pt1.y) ==> (crate::modular::is_largest(p, pt1.y) <==> greatest),
        pt2.x == xv,
        spec_affine_reduced(p, pt2),
        fmul(p, fmul(p, pt2.y, pt2.y), spec_x_den(p, d, xv)) == spec_x_num(p, a, xv),
        pt2.y != fneg(p, pt2.y) ==> (crate::modular::is_largest(p, pt2.y) <==> greatest),
    ensures
        pt1 == pt2,
{
    lemma_selected_root_unique(p, spec_x_den(p, d, xv), spec_x_num(p, a, xv), pt1.y, pt2.y,
        greatest);
    assert(pt1 =~= pt2);
}

/// Coordinate-recovery duality from the y-coordinate, symmetric to
/// [`lemma_recovery_duality`]: the two sign choices of x-recovery cover an
/// on-curve point, and exactly one matches when `x` is not its own
/// negation.
pub proof fn lemma_recovery_duality_y(
    p: nat,
    a: nat,
    d: nat,
    pt: SpecAffine,
    b1: SpecAffine,
    b2: SpecAffine,
)
    requires
        is_prime(p),
        a < p,
        spec_affine_reduced(p, pt),
        spec_on_curve(p, a, d, pt.x, pt.y),
        crate::curve::spec_y_den(p, a, d, pt.y) != 0,
        b1.y == pt.y,
        spec_affine_reduced(p, b1),
        fmul(p, fmul(p, b1.x, b1.x), crate::curve::spec_y_den(p, a, d, pt.y))
            == crate::curve::spec_y_num(p, pt.y),
        b1.x != fneg(p, b1.x) ==> crate::modular::is_largest(p, b1.x),
        b2.y == pt.y,
        spec_affine_reduced(p, b2),
        fmul(p, fmul(p, b2.x, b2.x), crate::curve::spec_y_den(p, a, d, pt.y))
            == crate::curve::spec_y_num(p, pt.y),
        b2.x != fneg(p, b2.x) ==> !crate::modular::is_largest(p, b2.x),
    ensures
        pt == b1 || pt == b2,
        pt.x != fneg(p, pt.x) ==> !(pt =~= b1 && pt =~= b2),
{
    lemma_on_curve_recovery_y(p, a, d, pt.x, pt.y);
    let den = crate::curve::spec_y_den(p, a, d, pt.y);
    lemma_mod_bound(((a + p) - fmul(p, d, fmul(p, pt.y, pt.y))) as int, p as int);
    crate::primes::lemma_prime_invertible(p, den);
    let w = choose|w: nat| w < p && #[trigger] fmul(p, den, w) == 1nat % p;
    let s0 = fmul(p, pt.x, pt.x);
    let s1 = fmul(p, b1.x, b1.x);
    let s2 = fmul(p, b2.x, b2.x);
    lemma_mod_bound((pt.x * pt.x) as int, p as int);
    lemma_mod_bound((b1.x * b1.x) as int, p as int);
    lemma_mod_bound((b2.x * b2.x) as int, p as int);
    lemma_mul_cancel(p, s0, s1, den, w);
    lemma_mul_cancel(p, s0, s2, den, w);
    if pt.x == fneg(p, pt.x) {
        lemma_two_roots(p, b1.x, pt.x);
        lemma_two_roots(p, b2.x, pt.x);
        assert(pt =~= b1);
    } else {
        lemma_largest_trichotomy(p, pt.x);
        if crate::modular::is_largest(p, pt.x) {
            lemma_root_unique_with_flag(p, pt.x, b1.x, true);
            assert(pt =~= b1);
            lemma_two_roots(p, b2.x, pt.x);
            if b2.x == pt.x {
                assert(false);
            }
        } else {
            lemma_root_unique_with_flag(p, pt.x, b2.x, false);
            assert(pt =~= b2);
            lemma_two_roots(p, b1.x, pt.x);
            if b1.x == pt.x {
                assert(false);
            }
        }
    }
}

/// The codec round trip: a decode that succeeds on the encoding of a valid
/// point gives back exactly that point. Validity means reduced, on-curve
/// coordinates with an invertible recovery denominator; that the decode of
/// a subgroup point's encoding does succeed is a residuosity fact outside
/// this lemma and exercised by the test suite.
pub proof fn lemma_compressed_roundtrip(
    params: crate::curve::CurveParameters,
    pt: SpecAffine,
    bytes: Seq<u8>,
    decoded: SpecAffine,
)
    requires
        params.wf(),
        is_prime(params.p()),
        spec_affine_reduced(params.p(), pt),
        spec_on_curve(params.p(), params.a(), params.d(), pt.x, pt.y),
        spec_x_den(params.p(), params.d(), pt.x) != 0,
        // what the compressed encoder promises of its bytes
        crate::digits::bval(crate::codec::spec_strip_flag(bytes)) == pt.x,
        crate::codec::spec_flag_bit(bytes) == crate::modular::is_largest(params.p(), pt.y),
        // what the decoder promises when it accepts those bytes
        crate::codec::spec_decoded(params, crate::digits::bval(
            crate::codec::spec_strip_flag(bytes)), crate::codec::spec_flag_bit(bytes), decoded),
    ensures
        decoded == pt,
{
    let p = params.p();
    let den = spec_x_den(p, params.d(), pt.x);
    lemma_on_curve_recovery(p, params.a(), params.d(), pt.x, pt.y);
    lemma_mod_bound(((fmul(p, params.d(), fmul(p, pt.x, pt.x)) + p) - 1) as int, p as int);
    crate::primes::lemma_prime_invertible(p, den);
    let w = choose|w: nat| w < p && #[trigger] fmul(p, den, w) == 1nat % p;
    let s0 = fmul(p, pt.y, pt.y);
    let s1 = fmul(p, decoded.y, decoded.y);
    lemma_mod_bound((pt.y * pt.y) as int, p as int);
    lemma_mod_bound((decoded.y * decoded.y) as int, p as int);
    lemma_mul_cancel(p, s0, s1, den, w);
    if pt.y == fneg(p, pt.y) {
        lemma_two_roots(p, decoded.y, pt.y);
        assert(decoded =~= pt);
    } else {
        lemma_root_unique_with_flag(p, pt.y, decoded.y,
            crate::modular::is_largest(p, pt.y));
        assert(decoded =~= pt);
    }
}

/// The uncompressed codec round trip: both coordinates are stored
/// verbatim, so a decode that succeeds on the encoding of a point gives
/// back exactly that point.
pub proof fn lemma_uncompressed_roundtrip(
    byte_len: int,
    pt: SpecAffine,
    bytes: Seq<u8>,
    decoded: SpecAffine,
)
    requires
        // what the uncompressed encoder promises of its bytes
        crate::digits::bval(bytes.take(byte_len)) == pt.x,
        crate::digits::bval(bytes.skip(byte_len)) == pt.y,
        // what the decoder promises when it accepts those bytes
        decoded.x == crate::digits::bval(bytes.take(byte_len)),
        decoded.y == crate::digits::bval(bytes.skip(byte_len)),
    ensures
        decoded == pt,
{
    assert(decoded =~= pt);
}

/// Double-and-add results are reduced: every coordinate of
/// `spec_mul_bits` lies below the modulus.
pub proof fn lemma_mul_bits_reduced(p: nat, a: nat, d: nat, base: SpecProj, s: Seq<u32>, n: nat)
    requires
        p >= 2,
    ensures
        spec_proj_reduced(p, crate::curve::spec_mul_bits(p, a, d, base, s, n)),
{
    let m = crate::curve::spec_mul_bits(p, a, d, base, s, n);
    if n == 0 {
        assert(m == spec_id());
    } else {
        lemma_mod_bound((m.x) as int, p as int);
        lemma_mod_bound((m.y) as int, p as int);
        lemma_mod_bound((m.t) as int, p as int);
        lemma_mod_bound((m.z) as int, p as int);
    }
}

/// Double-and-add results keep the extended-coordinate invariant
/// `T·Z = X·Y`: the identity satisfies it, and every later step is an
/// application of the addition formula, which always yields it.
pub proof fn lemma_mul_bits_extended_consistent(
    p: nat,
    a: nat,
    d: nat,
    base: SpecProj,
    s: Seq<u32>,
    n: nat,
)
    requires
        p > 0,
    ensures
        spec_extended_consistent(p, crate::curve::spec_mul_bits(p, a, d, base, s, n)),
{
    let m = crate::curve::spec_mul_bits(p, a, d, base, s, n);
    if n == 0 {
        assert(0nat * 1nat == 0nat);
        assert(fmul(p, 0, 1) == 0nat % p);
        assert(fmul(p, 0, 1) == fmul(p, 0, 1));
        assert(spec_id().t * spec_id().z == spec_id().x * spec_id().y);
    } else {
        let prev = crate::curve::spec_mul_bits(p, a, d, base, s, (n - 1) as nat);
        let doubled = spec_padd(p, a, d, prev, prev);
        lemma_padd_extended_consistent(p, a, d, prev, prev);
        lemma_padd_extended_consistent(p, a, d, doubled, base);
    }
}

/// A projective value with an invertible denominator has a normal form.
pub proof fn lemma_normal_form_exists(p: nat, m: SpecProj)
    requires
        p > 1,
        invertible(p, m.z),
    ensures
        exists|aff: SpecAffine| #[trigger] crate::hash::spec_normal_form_of(p, m, aff),
{
    let w = choose|w: nat| w < p && #[trigger] fmul(p, m.z, w) == 1nat % p;
    let nx = fmul(p, m.x, w);
    let ny = fmul(p, m.y, w);
    lemma_mod_bound((m.x * w) as int, p as int);
    lemma_mod_bound((m.y * w) as int, p as int);
    // (x·w)·z = x·(w·z) = x·1 ≡ x
    assert(w * m.z == m.z * w) by (nonlinear_arith);
    lemma_fmul_assoc(p, m.x, w, m.z);
    lemma_fmul_assoc(p, m.y, w, m.z);
    lemma_fmul_noop(p, m.x, 1);
    lemma_fmul_noop(p, m.y, 1);
    assert(m.x * 1 == m.x && m.y * 1 == m.y);
    assert(crate::hash::spec_normal_form_of(p, m, SpecAffine { x: nx, y: ny }));
}

/// The normal form of a reduced, consistent, non-identity value is not the
/// identity pair: the map into the prime-order subgroup never passes the
/// identity off as a point.
pub proof fn lemma_normal_form_nonidentity(p: nat, m: SpecProj, aff: SpecAffine)
    requires
        p > 1,
        spec_proj_reduced(p, m),
        spec_extended_consistent(p, m),
        !crate::curve::spec_proj_is_zero(m),
        m.z == 1 || invertible(p, m.z),
        crate::hash::spec_normal_form_of(p, m, aff),
    ensures
        aff != (SpecAffine { x: 0, y: 1 }),
{
    assert(invertible(p, m.z)) by {
        if m.z == 1 {
            assert(1nat * 1nat == 1nat);
            lemma_small_mod(1, p);
            assert(fmul(p, m.z, 1) == 1nat % p);
        }
    }
    let w = choose|w: nat| w < p && #[trigger] fmul(p, m.z, w) == 1nat % p;
    if aff == (SpecAffine { x: 0, y: 1 }) {
        // the identity's normal form forces X = 0, Y = Z, and with the
        // extended invariant T = 0: the identity shape after all
        lemma_small_mod(m.x, p);
        lemma_small_mod(m.y, p);
        lemma_small_mod(m.t, p);
        lemma_small_mod(m.z, p);
        assert(0nat * m.z == 0nat);
        assert(fmul(p, 0, m.z) == 0nat % p);
        lemma_small_mod(0, p);
        assert(m.x == 0);
        assert(1nat * m.z == m.z);
        assert(m.y == m.z);
        assert(m.z != 0) by {
            if m.z == 0 {
                assert(0nat * w == 0nat);
                lemma_small_mod(1, p);
                assert(fmul(p, m.z, w) == 0);
                assert(false);
            }
        }
        // T·Z = X·Y = 0 = 0·Z, and Z cancels
        assert(0nat * m.y == 0nat);
        assert(fmul(p, m.x, m.y) == 0);
        assert(m.t * m.z == m.z * m.t) by (nonlinear_arith);
        assert(0nat * m.z == 0nat);
        assert(fmul(p, 0, m.z) == 0);
        lemma_mul_cancel(p, m.t, 0, m.z, w);
        assert(crate::curve::spec_proj_is_zero(m));
        assert(false);
    }
}

/// The label-to-point map is deterministic: two points that are both the
/// outcome of the same label's seeded search are equal, since the first
/// successful attempt is unique and its result is a function of the label.
pub proof fn lemma_hash_deterministic(
    params: crate::curve::CurveParameters,
    label: Seq<char>,
    a1: SpecAffine,
    a2: SpecAffine,
)
    requires
        crate::hash::spec_hash_outcome(params, label, a1),
        crate::hash::spec_hash_outcome(params, label, a2),
    ensures
        a1 == a2,
{
    let i1 = choose|i: nat| #[trigger] crate::hash::spec_first_hit(params, label, i, a1);
    let i2 = choose|i: nat| #[trigger] crate::hash::spec_first_hit(params, label, i, a2);
    if i1 < i2 {
        assert(!crate::hash::spec_attempt_ok(params, label, i1, false)
            && !crate::hash::spec_attempt_ok(params, label, i1, true));
        assert(false);
    } else if i2 < i1 {
        assert(!crate::hash::spec_attempt_ok(params, label, i2, false)
            && !crate::hash::spec_attempt_ok(params, label, i2, true));
        assert(false);
    }
}

/// The outcome of the label-to-point map is never the identity pair.
pub proof fn lemma_hash_nonidentity(
    params: crate::curve::CurveParameters,
    label: Seq<char>,
    aff: SpecAffine,
)
    requires
        params.wf(),
        crate::hash::spec_hash_outcome(params, label, aff),
    ensures
        aff != (SpecAffine { x: 0, y: 1 }),
{
    let i = choose|i: nat| #[trigger] crate::hash::spec_first_hit(params, label, i, aff);
    let xv = crate::hash::spec_candidate_x(params, label, i);
    let sign = if crate::hash::spec_attempt_ok(params, label, i, false) {
        false
    } else {
        true
    };
    let m = crate::hash::spec_cleared(params,
        crate::curve::spec_recovered_x_point(params, xv, sign));
    lemma_mul_bits_reduced(params.p(), params.a(), params.d(),
        spec_to_extended(params.p(), crate::curve::spec_recovered_x_point(params, xv, sign)),
        params.cofactor@, 32 * params.cofactor@.len());
    lemma_mul_bits_extended_consistent(params.p(), params.a(), params.d(),
        spec_to_extended(params.p(), crate::curve::spec_recovered_x_point(params, xv, sign)),
        params.cofactor@, 32 * params.cofactor@.len());
    assert(invertible(params.p(), m.z) || m.z == 1);
    lemma_normal_form_exists_or_one(params.p(), m);
    lemma_normal_form_nonidentity(params.p(), m, aff);
}

/// A projective value whose denominator is one or invertible has a normal
/// form; the chosen normal form therefore satisfies its shape.
proof fn lemma_normal_form_exists_or_one(p: nat, m: SpecProj)
    requires
        p > 1,
        m.z == 1 || invertible(p, m.z),
    ensures
        crate::hash::spec_normal_form_of(p, m, crate::hash::spec_normal_form(p, m)),
{
    assert(invertible(p, m.z)) by {
        if m.z == 1 {
            assert(1nat * 1nat == 1nat);
            lemma_small_mod(1, p);
            assert(fmul(p, m.z, 1) == 1nat % p);
        }
    }
    lemma_normal_form_exists(p, m);
}

/// Recovery from an x-coordinate succeeds exactly when the denominator
/// `d·x² - 1` is nonzero and the quotient certifies as a square: on the
/// prime modulus, nonzero and invertible coincide.
pub proof fn lemma_recoverable_iff(params: crate::curve::CurveParameters, xv: nat)
    requires
        params.wf(),
    ensures
        crate::curve::spec_x_recoverable(params, xv) <==> (spec_x_den(params.p(), params.d(),
            xv) != 0 && crate::curve::spec_square_cert(params.p(),
            crate::digits::val(params.base.euler_exponent@),
            crate::curve::spec_x_quotient(params.p(), params.a(), params.d(), xv))),
{
    let p = params.p();
    let den = spec_x_den(p, params.d(), xv);
    lemma_mod_bound(((fmul(p, params.d(), fmul(p, xv, xv)) + p) - 1) as int, p as int);
    if den != 0 {
        crate::primes::lemma_prime_invertible(p, den);
    }
    if invertible(p, den) && den == 0 {
        let w = choose|w: nat| w < p && #[trigger] fmul(p, den, w) == 1nat % p;
        assert(0nat * w == 0nat);
        lemma_small_mod(0, p);
        lemma_small_mod(1, p);
        assert(false);
    }
}

/// The y-side of [`lemma_recoverable_iff`]: recovery from a y-coordinate
/// succeeds exactly when `a - d·y²` is nonzero and the quotient certifies
/// as a square.
pub proof fn lemma_recoverable_iff_y(params: crate::curve::CurveParameters, yv: nat)
    requires
        params.wf(),
    ensures
        crate::curve::spec_y_recoverable(params, yv) <==> (crate::curve::spec_y_den(params.p(),
            params.a(), params.d(), yv) != 0 && crate::curve::spec_square_cert(params.p(),
            crate::digits::val(params.base.euler_exponent@),
            crate::curve::spec_y_quotient(params.p(), params.a(), params.d(), yv))),
{
    let p = params.p();
    let den = crate::curve::spec_y_den(p, params.a(), params.d(), yv);
    lemma_mod_bound(((params.a() + p) - fmul(p, params.d(), fmul(p, yv, yv))) as int, p as int);
    if den != 0 {
        crate::primes::lemma_prime_invertible(p, den);
    }
    if invertible(p, den) && den == 0 {
        let w = choose|w: nat| w < p && #[trigger] fmul(p, den, w) == 1nat % p;
        assert(0nat * w == 0nat);
        lemma_small_mod(0, p);
        lemma_small_mod(1, p);
        assert(false);
    }
}

/// Recovery from the y-coordinate one yields the identity: the quotient is
/// zero, zero's only square root in a prime field is zero, so the recovered
/// x-coordinate is zero for either selector.
pub proof fn lemma_recovery_from_y_one(
    params: crate::curve::CurveParameters,
    pt: SpecAffine,
)
    requires
        params.wf(),
        pt.y == 1,
        pt.x < params.p(),
        invertible(params.p(), crate::curve::spec_y_den(params.p(), params.a(), params.d(), 1)),
        fmul(params.p(), fmul(params.p(), pt.x, pt.x),
            crate::curve::spec_y_den(params.p(), params.a(), params.d(), 1))
            == crate::curve::spec_y_num(params.p(), 1),
    ensures
        pt == (SpecAffine { x: 0, y: 1 }),
{
    let p = params.p();
    let den = crate::curve::spec_y_den(p, params.a(), params.d(), 1);
    // 1 - 1² ≡ 0, so x²·den ≡ 0 = 0·den, and den cancels
    assert(crate::curve::spec_y_num(p, 1) == 0) by {
        assert(1nat * 1nat == 1nat);
        lemma_small_mod(1, p);
        assert(fmul(p, 1, 1) == 1);
        vstd::arithmetic::div_mod::lemma_mod_self_0(p as int);
        assert(fsub(p, 1, 1) == 0);
    }
    let w = choose|w: nat| w < p && #[trigger] fmul(p, den, w) == 1nat % p;
    let x2 = fmul(p, pt.x, pt.x);
    lemma_mod_bound((pt.x * pt.x) as int, p as int);
    assert(0nat * den == 0nat);
    lemma_small_mod(0, p);
    assert(fmul(p, 0, den) == 0);
    lemma_mul_cancel(p, x2, 0, den, w);
    crate::primes::lemma_root_of_zero(p, pt.x);
    assert(pt =~= SpecAffine { x: 0, y: 1 });
}

} // verus!
