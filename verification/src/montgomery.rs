//! The Montgomery model of the curve: the affine point type of the twin
//! representation, and the check that the stored twin coefficients satisfy
//! their defining identity.

use vstd::prelude::*;
use crate::curve::{CurveParameters, SpecAffine};
use crate::digits::val;
use crate::field::{digits_eq, small_digits};
use crate::modular::{fmul, fsub, lemma_mul_inverse_cancel};

verus! {

/// A point on the Montgomery form `B·y² = x³ + A·x² + x` of the curve,
/// held as its coordinate pair; constructed unchecked, like its twisted
/// Edwards counterpart.
pub struct MontgomeryGroupAffine {
    /// The x-coordinate.
    pub x: Vec<u32>,
    /// The y-coordinate.
    pub y: Vec<u32>,
}

impl View for MontgomeryGroupAffine {
    type V = SpecAffine;

    open spec fn view(&self) -> SpecAffine {
        SpecAffine { x: val(self.x@), y: val(self.y@) }
    }
}

impl MontgomeryGroupAffine {
    /// A Montgomery-form point from its coordinates, unchecked.
    pub fn new(x: Vec<u32>, y: Vec<u32>) -> (r: Self)
        ensures
            r@ == (SpecAffine { x: val(x@), y: val(y@) }),
    {
        MontgomeryGroupAffine { x, y }
    }
}

/// Recomputes the Montgomery twin coefficients `A = 2(a+d)/(a-d)` and
/// `B = 4/(a-d)` from the curve coefficients and compares them with the
/// stored parameters. Well-formed parameters always pass: the identity is
/// part of their construction-time invariant, and this check confirms it
/// dynamically.
pub fn montgomery_conversion_test(params: &CurveParameters) -> (r: bool)
    requires
        params.wf(),
    ensures
        r,
{
    let ghost p = params.p();
    let f = &params.base;
    let a_minus_d = f.sub(&params.coeff_a, &params.coeff_d);
    let w = match f.inverse(&a_minus_d) {
        Some(w) => w,
        None => {
            proof {
                assert(false);
            }
            vstd::pervasive::unreached()
        }
    };
    let two = small_digits(2);
    let four = small_digits(4);
    let ca = f.mul(&f.mul(&two, &f.add(&params.coeff_a, &params.coeff_d)), &w);
    let cb = f.mul(&four, &w);
    proof {
        let s = fsub(p, params.a(), params.d());
        let ma = val(params.montgomery_a@);
        let mb = val(params.montgomery_b@);
        // 2(a+d)·w = (A·(a-d))·w = A, and 4·w = (B·(a-d))·w = B
        lemma_mul_inverse_cancel(p, ma, s, val(w@));
        lemma_mul_inverse_cancel(p, mb, s, val(w@));
        crate::modular::lemma_fmul_noop(p, 4, val(w@));
        assert(fmul(p, 4, val(w@)) == fmul(p, 4nat % p, val(w@)));
    }
    digits_eq(&ca, &params.montgomery_a) && digits_eq(&cb, &params.montgomery_b)
}

} // verus!
