//! The extended projective representation `(X, Y, T, Z)` of a curve point,
//! with the complete unified addition law, scalar multiplication, and
//! conversion back to affine coordinates.

use vstd::prelude::*;
use vstd::arithmetic::div_mod::lemma_small_mod;
use crate::affine::{spec_affine_reduced, GroupAffine};
use crate::curve::{
    lemma_padd_id_id, spec_bit, spec_eq_proj, spec_id, spec_mul_bits, spec_padd,
    spec_proj_is_zero, spec_proj_reduced, spec_to_extended, CurveParameters, SpecAffine, SpecProj,
};
use crate::digits::val;
use crate::field::{
    clone_digits, digits_are_zero, digits_eq, one_digits, zero_digits, MAX_MODULUS_DIGITS,
};
use crate::modular::{fmul, fneg, invertible, lemma_fmul_assoc, lemma_fmul_noop};

verus! {

/// A point in extended projective coordinates `(X, Y, T, Z)`, standing for
/// the affine point `(X/Z, Y/Z)` with the auxiliary coordinate satisfying
/// `T·Z = X·Y` whenever `Z ≠ 0`.
pub struct GroupProjective {
    /// The X coordinate.
    pub x: Vec<u32>,
    /// The Y coordinate.
    pub y: Vec<u32>,
    /// The auxiliary T coordinate.
    pub t: Vec<u32>,
    /// The Z denominator coordinate.
    pub z: Vec<u32>,
}

impl View for GroupProjective {
    type V = SpecProj;

    open spec fn view(&self) -> SpecProj {
        SpecProj { x: val(self.x@), y: val(self.y@), t: val(self.t@), z: val(self.z@) }
    }
}

impl Default for GroupProjective {
    /// The identity.
    fn default() -> (r: Self)
        ensures
            r@ == spec_id(),
    {
        Self::zero()
    }
}

/// The product modulo `p` of the `Z` coordinates of the non-normalized
/// points among the first `k` elements of a batch.
pub open spec fn spec_z_prefix_product(p: nat, s: Seq<GroupProjective>, k: int) -> nat
    decreases k,
{
    if k <= 0 {
        1
    } else if s[k - 1]@.z == 1 {
        spec_z_prefix_product(p, s, k - 1)
    } else {
        fmul(p, spec_z_prefix_product(p, s, k - 1), s[k - 1]@.z)
    }
}

impl GroupProjective {
    /// A point from its four coordinates, unchecked.
    pub fn new(x: Vec<u32>, y: Vec<u32>, t: Vec<u32>, z: Vec<u32>) -> (r: Self)
        ensures
            r@ == (SpecProj { x: val(x@), y: val(y@), t: val(t@), z: val(z@) }),
    {
        GroupProjective { x, y, t, z }
    }

    /// The identity `(0, 1, 0, 1)`.
    pub fn zero() -> (r: Self)
        ensures
            r@ == spec_id(),
    {
        let r = GroupProjective {
            x: zero_digits(),
            y: one_digits(),
            t: zero_digits(),
            z: one_digits(),
        };
        proof {
            assert(r@ =~= spec_id());
        }
        r
    }

    /// Whether this value represents the identity:
    /// `X = 0 ∧ Y = Z ∧ Y ≠ 0 ∧ T = 0`.
    pub fn is_zero(&self) -> (r: bool)
        ensures
            r == spec_proj_is_zero(self@),
    {
        digits_are_zero(&self.x) && digits_eq(&self.y, &self.z)
            && !digits_are_zero(&self.y) && digits_are_zero(&self.t)
    }

    /// Whether the value is normalized, that is `Z = 1`.
    pub fn is_normalized(&self) -> (r: bool)
        ensures
            r == (self@.z == 1),
    {
        let one = one_digits();
        digits_eq(&self.z, &one)
    }

    /// Equality of the represented group elements: identity is compared by
    /// the identity shape, and other points by cross-multiplication
    /// `X₁Z₂ = X₂Z₁ ∧ Y₁Z₂ = Y₂Z₁`.
    pub fn equals(&self, params: &CurveParameters, other: &Self) -> (r: bool)
        requires
            params.wf(),
        ensures
            r == if spec_proj_is_zero(self@) {
                spec_proj_is_zero(other@)
            } else if spec_proj_is_zero(other@) {
                false
            } else {
                spec_eq_proj(params.p(), self@, other@)
            },
    {
        if self.is_zero() {
            return other.is_zero();
        }
        if other.is_zero() {
            return false;
        }
        let lx = params.base.mul(&self.x, &other.z);
        let rx = params.base.mul(&other.x, &self.z);
        let ly = params.base.mul(&self.y, &other.z);
        let ry = params.base.mul(&other.y, &self.z);
        digits_eq(&lx, &rx) && digits_eq(&ly, &ry)
    }

    /// The sum of two points by the unified extended-coordinate formula.
    pub fn add(&self, params: &CurveParameters, other: &Self) -> (r: Self)
        requires
            params.wf(),
        ensures
            r@ == spec_padd(params.p(), params.a(), params.d(), self@, other@),
            spec_proj_reduced(params.p(), r@),
    {
        let f = &params.base;
        let va = f.mul(&self.x, &other.x);
        let vb = f.mul(&self.y, &other.y);
        let vc = f.mul(&f.mul(&params.coeff_d, &self.t), &other.t);
        let vd = f.mul(&self.z, &other.z);
        let e1 = f.mul(&f.add(&self.x, &self.y), &f.add(&other.x, &other.y));
        let ve = f.sub(&f.sub(&e1, &va), &vb);
        let vf = f.sub(&vd, &vc);
        let vg = f.add(&vd, &vc);
        let vh = f.sub(&vb, &f.mul(&params.coeff_a, &va));
        let r = GroupProjective {
            x: f.mul(&ve, &vf),
            y: f.mul(&vg, &vh),
            t: f.mul(&ve, &vh),
            z: f.mul(&vf, &vg),
        };
        r
    }

    /// Adds `other` into `self`.
    pub fn add_assign(&mut self, params: &CurveParameters, other: &Self)
        requires
            params.wf(),
        ensures
            final(self)@ == spec_padd(params.p(), params.a(), params.d(), old(self)@, other@),
            spec_proj_reduced(params.p(), final(self)@),
    {
        let r = self.add(params, other);
        *self = r;
    }

    /// The double of this point: addition of the point to itself, as the
    /// unified formula needs no separate doubling case.
    pub fn double(&self, params: &CurveParameters) -> (r: Self)
        requires
            params.wf(),
        ensures
            r@ == spec_padd(params.p(), params.a(), params.d(), self@, self@),
            spec_proj_reduced(params.p(), r@),
    {
        self.add(params, self)
    }

    /// Doubles in place.
    pub fn double_in_place(&mut self, params: &CurveParameters)
        requires
            params.wf(),
        ensures
            final(self)@ == spec_padd(params.p(), params.a(), params.d(), old(self)@, old(self)@),
            spec_proj_reduced(params.p(), final(self)@),
    {
        let r = self.double(params);
        *self = r;
    }

    /// The negation `(-X, Y, -T, Z)`.
    pub fn neg(&self, params: &CurveParameters) -> (r: Self)
        requires
            params.wf(),
            self@.x <= params.p(),
            self@.t <= params.p(),
        ensures
            r@ == (SpecProj {
                x: fneg(params.p(), self@.x),
                y: self@.y,
                t: fneg(params.p(), self@.t),
                z: self@.z,
            }),
    {
        GroupProjective {
            x: params.base.neg(&self.x),
            y: clone_digits(&self.y),
            t: params.base.neg(&self.t),
            z: clone_digits(&self.z),
        }
    }

    /// The difference: the sum with the negation of `other`.
    pub fn sub(&self, params: &CurveParameters, other: &Self) -> (r: Self)
        requires
            params.wf(),
            other@.x <= params.p(),
            other@.t <= params.p(),
        ensures
            r@ == spec_padd(params.p(), params.a(), params.d(), self@, (SpecProj {
                x: fneg(params.p(), other@.x),
                y: other@.y,
                t: fneg(params.p(), other@.t),
                z: other@.z,
            })),
            spec_proj_reduced(params.p(), r@),
    {
        let negated = other.neg(params);
        self.add(params, &negated)
    }

    /// Mixed addition of an affine point, the unified formula specialized to
    /// `Z₂ = 1`, `T₂ = x₂·y₂`.
    pub fn add_assign_mixed(&mut self, params: &CurveParameters, other: &GroupAffine)
        requires
            params.wf(),
            old(self)@.z < params.p(),
        ensures
            final(self)@ == spec_padd(
                params.p(),
                params.a(),
                params.d(),
                old(self)@,
                spec_to_extended(params.p(), other@),
            ),
            spec_proj_reduced(params.p(), final(self)@),
    {
        let f = &params.base;
        let p = Ghost(params.p());
        let va = f.mul(&self.x, &other.x);
        let vb = f.mul(&self.y, &other.y);
        let vc = f.mul(&f.mul(&f.mul(&params.coeff_d, &self.t), &other.x), &other.y);
        proof {
            // d·T₁·x₂·y₂ reassociated to (d·T₁)·(x₂·y₂)
            lemma_fmul_assoc(
                p@,
                fmul(p@, params.d(), old(self)@.t),
                other@.x,
                other@.y,
            );
        }
        let vd = clone_digits(&self.z);
        proof {
            // Z₁·1 reduces to Z₁ for a reduced Z₁
            lemma_fmul_noop(p@, old(self)@.z, 1);
            lemma_small_mod(old(self)@.z, p@);
            assert(old(self)@.z * 1 == old(self)@.z);
            assert(fmul(p@, old(self)@.z, 1) == old(self)@.z);
        }
        let e1 = f.mul(&f.add(&self.x, &self.y), &f.add(&other.x, &other.y));
        let ve = f.sub(&f.sub(&e1, &va), &vb);
        let vf = f.sub(&vd, &vc);
        let vg = f.add(&vd, &vc);
        let vh = f.sub(&vb, &f.mul(&params.coeff_a, &va));
        let nx = f.mul(&ve, &vf);
        let ny = f.mul(&vg, &vh);
        let nt = f.mul(&ve, &vh);
        let nz = f.mul(&vf, &vg);
        self.x = nx;
        self.y = ny;
        self.t = nt;
        self.z = nz;
    }

    /// The prime-subgroup generator, in projective coordinates.
    pub fn prime_subgroup_generator(params: &CurveParameters) -> (r: Self)
        requires
            params.wf(),
        ensures
            r@ == spec_to_extended(
                params.p(),
                SpecAffine { x: val(params.generator_x@), y: val(params.generator_y@) },
            ),
    {
        let aff = GroupAffine::prime_subgroup_generator(params);
        aff.into_projective(params)
    }

    /// Double-and-add scalar multiplication over the scalar's bits, most
    /// significant first, with leading zero bits skipped.
    pub fn mul(&self, params: &CurveParameters, scalar: &Vec<u32>) -> (r: Self)
        requires
            params.wf(),
            scalar@.len() <= MAX_MODULUS_DIGITS,
        ensures
            r@ == spec_mul_bits(
                params.p(),
                params.a(),
                params.d(),
                self@,
                scalar@,
                32 * scalar@.len(),
            ),
            spec_proj_reduced(params.p(), r@),
    {
        let ghost p = params.p();
        let ghost ca = params.a();
        let ghost cd = params.d();
        let mut res = Self::zero();
        let mut found_one = false;
        let nbits: usize = 32 * scalar.len();
        let mut i: usize = 0;
        proof {
            assert(spec_proj_reduced(p, res@));
        }
        while i < nbits
            invariant
                params.wf(),
                i <= nbits,
                nbits == 32 * scalar@.len(),
                p == params.p(),
                ca == params.a(),
                cd == params.d(),
                res@ == spec_mul_bits(p, ca, cd, self@, scalar@, i as nat),
                !found_one ==> res@ == spec_id(),
                spec_proj_reduced(p, res@) || res@ == spec_id(),
            decreases nbits - i,
        {
            let bit_index = nbits - 1 - i;
            let digit_index = bit_index / 32;
            proof {
                assert(bit_index / 32 < scalar@.len()) by (nonlinear_arith)
                    requires bit_index < 32 * scalar@.len();
            }
            let digit = scalar[digit_index];
            let shift: u32 = (bit_index % 32) as u32;
            let bit = ((digit >> shift) & 1u32) == 1u32;
            proof {
                assert(bit == spec_bit(scalar@, bit_index as nat));
            }
            if found_one {
                res = res.double(params);
            } else {
                proof {
                    lemma_padd_id_id(p, ca, cd);
                }
                found_one = bit;
            }
            if bit {
                res = res.add(params, self);
            }
            i = i + 1;
        }
        res
    }

    /// The affine form of this point, when the conversion is defined: the
    /// identity short-circuits to `(0, 1)`, a normalized point drops its
    /// denominator, and any other point divides by an invertible `Z`. A
    /// non-identity point whose `Z` has no inverse yields nothing.
    pub fn to_affine_checked(&self, params: &CurveParameters) -> (r: Option<GroupAffine>)
        requires
            params.wf(),
            spec_proj_reduced(params.p(), self@),
        ensures
            match r {
                Some(aff) => spec_affine_reduced(params.p(), aff@)
                    && fmul(params.p(), aff@.x, self@.z) == self@.x
                    && fmul(params.p(), aff@.y, self@.z) == self@.y
                    && (spec_proj_is_zero(self@) ==> aff@ == SpecAffine { x: 0, y: 1 })
                    && (spec_proj_is_zero(self@) || self@.z == 1
                        || invertible(params.p(), self@.z)),
                None => !spec_proj_is_zero(self@) && self@.z != 1
                    && !invertible(params.p(), self@.z),
            },
    {
        let ghost p = params.p();
        if self.is_zero() {
            let aff = GroupAffine::zero();
            proof {
                lemma_small_mod(0, p);
                lemma_small_mod(self@.z, p);
                assert(0nat * self@.z == 0 && 1nat * self@.z == self@.z) by (nonlinear_arith);
                assert(fmul(p, 0, self@.z) == 0);
                assert(fmul(p, 1, self@.z) == self@.z % p);
            }
            return Some(aff);
        }
        if self.is_normalized() {
            let aff = GroupAffine { x: clone_digits(&self.x), y: clone_digits(&self.y) };
            proof {
                lemma_small_mod(self@.x, p);
                lemma_small_mod(self@.y, p);
                assert(fmul(p, self@.x, 1) == self@.x % p);
                assert(fmul(p, self@.y, 1) == self@.y % p);
            }
            return Some(aff);
        }
        match params.base.inverse(&self.z) {
            None => None,
            Some(zinv) => {
                let nx = params.base.mul(&self.x, &zinv);
                let ny = params.base.mul(&self.y, &zinv);
                proof {
                    // (x·z⁻¹)·z reassociates to x·(z⁻¹·z) = x·1 = x, and
                    // likewise for y
                    let w = val(zinv@);
                    let z = self@.z;
                    lemma_fmul_assoc(p, self@.x, w, z);
                    lemma_fmul_assoc(p, self@.y, w, z);
                    assert(w * z == z * w);
                    lemma_fmul_noop(p, self@.x, 1);
                    lemma_fmul_noop(p, self@.y, 1);
                    assert(self@.x * 1 == self@.x && self@.y * 1 == self@.y);
                    lemma_small_mod(self@.x, p);
                    lemma_small_mod(self@.y, p);
                }
                Some(GroupAffine { x: nx, y: ny })
            }
        }
    }

    /// The affine form of a point whose conversion is known to be defined.
    pub fn into_affine(&self, params: &CurveParameters) -> (r: GroupAffine)
        requires
            params.wf(),
            spec_proj_reduced(params.p(), self@),
            spec_proj_is_zero(self@) || self@.z == 1 || invertible(params.p(), self@.z),
        ensures
            spec_affine_reduced(params.p(), r@),
            fmul(params.p(), r@.x, self@.z) == self@.x,
            fmul(params.p(), r@.y, self@.z) == self@.y,
            spec_proj_is_zero(self@) ==> r@ == (SpecAffine { x: 0, y: 1 }),
    {
        match self.to_affine_checked(params) {
            Some(aff) => aff,
            None => {
                proof {
                    assert(false);
                }
                vstd::pervasive::unreached()
            }
        }
    }

    /// Normalizes every point of the batch to `Z = 1` with a single field
    /// inversion, by Montgomery's trick.
    ///
    /// A forward pass accumulates the running product of the `Z`
    /// coordinates of the non-normalized points, recording each partial
    /// product; only the final product is inverted. A backward pass then
    /// recovers each point's `1/Z` from the running inverse and the partial
    /// product before it, updates the running inverse with the point's own
    /// `Z`, and overwrites the point's coordinates with `X/Z, Y/Z, T/Z, 1`.
    /// Points already normalized are left untouched and take no part in
    /// either pass.
    pub fn batch_normalization(params: &CurveParameters, v: &mut Vec<GroupProjective>)
        requires
            params.wf(),
            forall|i: int| 0 <= i < old(v)@.len()
                ==> spec_proj_reduced(params.p(), #[trigger] old(v)@[i]@),
            forall|i: int| 0 <= i < old(v)@.len()
                ==> (#[trigger] old(v)@[i]@.z == 1 || invertible(params.p(), old(v)@[i]@.z)),
        ensures
            final(v)@.len() == old(v)@.len(),
            forall|i: int| 0 <= i < final(v)@.len() && old(v)@[i]@.z == 1
                ==> #[trigger] final(v)@[i] == old(v)@[i],
            forall|i: int| 0 <= i < final(v)@.len() && old(v)@[i]@.z != 1 ==> {
                let np = #[trigger] final(v)@[i]@;
                np.z == 1 && spec_proj_reduced(params.p(), np)
                    && fmul(params.p(), np.x, old(v)@[i]@.z) == old(v)@[i]@.x
                    && fmul(params.p(), np.y, old(v)@[i]@.z) == old(v)@[i]@.y
                    && fmul(params.p(), np.t, old(v)@[i]@.z) == old(v)@[i]@.t
            },
    {
        let ghost p = params.p();
        let ghost orig = v@;
        let n = v.len();
        let one = one_digits();
        // first pass: running products of the non-normalized Z coordinates
        let mut prod: Vec<Vec<u32>> = Vec::new();
        let mut tmp = clone_digits(&one);
        proof {
            lemma_small_mod(1, p);
            assert(1nat * 1nat == 1nat);
            assert(fmul(p, 1, 1) == 1nat % p);
            assert(invertible(p, 1));
        }
        let mut i: usize = 0;
        while i < n
            invariant
                params.wf(),
                p == params.p(),
                v@ == orig,
                n == orig.len(),
                i <= n,
                val(one@) == 1,
                prod@.len() == i,
                val(tmp@) == spec_z_prefix_product(p, orig, i as int),
                invertible(p, val(tmp@)),
                forall|j: int| 0 <= j < orig.len()
                    ==> spec_proj_reduced(p, #[trigger] orig[j]@),
                forall|j: int| 0 <= j < orig.len()
                    ==> (#[trigger] orig[j]@.z == 1 || invertible(p, orig[j]@.z)),
                forall|j: int| 0 <= j < i
                    ==> val(#[trigger] prod@[j]@) == spec_z_prefix_product(p, orig, j + 1),
            decreases n - i,
        {
            if !v[i].is_normalized() {
                let ghost told = val(tmp@);
                tmp = params.base.mul(&tmp, &v[i].z);
                proof {
                    crate::modular::lemma_invertible_mul(p, told, orig[i as int]@.z);
                }
            }
            prod.push(clone_digits(&tmp));
            i = i + 1;
        }
        // the one inversion of the whole batch
        let run_opt = params.base.inverse(&tmp);
        let mut run = match run_opt {
            Some(w) => w,
            None => {
                proof {
                    let w = choose|w: nat| w < p
                        && #[trigger] fmul(p, val(tmp@), w) == 1nat % p;
                    assert(false);
                }
                vstd::pervasive::unreached()
            }
        };
        proof {
            assert(val(tmp@) * val(run@) == val(run@) * val(tmp@));
        }
        // backward pass: recover each inverse and normalize in place
        let mut k: usize = n;
        while k > 0
            invariant
                params.wf(),
                p == params.p(),
                v@.len() == n,
                n == orig.len(),
                k <= n,
                val(one@) == 1,
                prod@.len() == n,
                val(run@) < p,
                fmul(p, val(run@), spec_z_prefix_product(p, orig, k as int)) == 1nat % p,
                forall|j: int| 0 <= j < orig.len()
                    ==> spec_proj_reduced(p, #[trigger] orig[j]@),
                forall|j: int| 0 <= j < n
                    ==> val(#[trigger] prod@[j]@) == spec_z_prefix_product(p, orig, j + 1),
                forall|j: int| 0 <= j < k ==> #[trigger] v@[j] == orig[j],
                forall|j: int| k <= j < n && orig[j]@.z == 1 ==> #[trigger] v@[j] == orig[j],
                forall|j: int| k <= j < n && orig[j]@.z != 1 ==> {
                    let np = #[trigger] v@[j]@;
                    np.z == 1 && spec_proj_reduced(p, np)
                        && fmul(p, np.x, orig[j]@.z) == orig[j]@.x
                        && fmul(p, np.y, orig[j]@.z) == orig[j]@.y
                        && fmul(p, np.t, orig[j]@.z) == orig[j]@.t
                },
            decreases k,
        {
            k = k - 1;
            if !v[k].is_normalized() {
                let s = if k == 0 {
                    clone_digits(&one)
                } else {
                    clone_digits(&prod[k - 1])
                };
                let ghost pre = spec_z_prefix_product(p, orig, k as int);
                let ghost zk = orig[k as int]@.z;
                let ghost runv = val(run@);
                let zinv = params.base.mul(&run, &s);
                let newrun = params.base.mul(&run, &v[k].z);
                proof {
                    // prefix(k+1) = prefix(k)·z_k, so the running inverse
                    // splits into an inverse for z_k and one for prefix(k)
                    assert(spec_z_prefix_product(p, orig, k + 1) == fmul(p, pre, zk));
                    lemma_fmul_assoc(p, runv, pre, zk);
                    assert(pre * zk == zk * pre) by (nonlinear_arith);
                    lemma_fmul_assoc(p, runv, zk, pre);
                    assert(fmul(p, val(zinv@), zk) == 1nat % p);
                    assert(fmul(p, val(newrun@), pre) == 1nat % p);
                }
                let nx = params.base.mul(&v[k].x, &zinv);
                let ny = params.base.mul(&v[k].y, &zinv);
                let nt = params.base.mul(&v[k].t, &zinv);
                proof {
                    // (c·z⁻¹)·z = c·(z⁻¹·z) = c for each coordinate c
                    lemma_fmul_assoc(p, orig[k as int]@.x, val(zinv@), zk);
                    lemma_fmul_assoc(p, orig[k as int]@.y, val(zinv@), zk);
                    lemma_fmul_assoc(p, orig[k as int]@.t, val(zinv@), zk);
                    lemma_fmul_noop(p, orig[k as int]@.x, 1);
                    lemma_fmul_noop(p, orig[k as int]@.y, 1);
                    lemma_fmul_noop(p, orig[k as int]@.t, 1);
                    assert(orig[k as int]@.x * 1 == orig[k as int]@.x);
                    assert(orig[k as int]@.y * 1 == orig[k as int]@.y);
                    assert(orig[k as int]@.t * 1 == orig[k as int]@.t);
                    lemma_small_mod(orig[k as int]@.x, p);
                    lemma_small_mod(orig[k as int]@.y, p);
                    lemma_small_mod(orig[k as int]@.t, p);
                }
                let npnt = GroupProjective { x: nx, y: ny, t: nt, z: clone_digits(&one) };
                v[k] = npnt;
                run = newrun;
            }
        }
    }

    /// Both coordinates of the affine form, in order, as base-field
    /// elements.
    pub fn to_field_elements(&self, params: &CurveParameters) -> (r: Vec<Vec<u32>>)
        requires
            params.wf(),
            spec_proj_reduced(params.p(), self@),
            spec_proj_is_zero(self@) || self@.z == 1 || invertible(params.p(), self@.z),
        ensures
            r@.len() == 2,
            fmul(params.p(), val(r@[0]@), self@.z) == self@.x,
            fmul(params.p(), val(r@[1]@), self@.z) == self@.y,
    {
        let aff = self.into_affine(params);
        aff.to_field_elements()
    }
}

} // verus!
