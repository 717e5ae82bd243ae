//! Exhaustive checks on a tiny twisted Edwards curve over F_13 with
//! `a = 1`, `d = 7`: twenty points, cofactor four, prime subgroup of order
//! five, generated by (2, 9).

use tedwards::affine::GroupAffine;
use tedwards::codec::{
    deserialize_compressed, deserialize_uncompressed, serialize_compressed,
    serialize_uncompressed, serialized_size, uncompressed_size, CodecError,
};
use tedwards::curve::CurveParameters;
use tedwards::field::FieldCtx;
use tedwards::montgomery::{montgomery_conversion_test, MontgomeryGroupAffine};
use tedwards::projective::GroupProjective;

fn toy_base() -> FieldCtx {
    // p = 13: p - 1 = 4 * 3, root of unity 8 = 2^3
    FieldCtx::new(vec![13], 2, vec![3], vec![1], vec![6], vec![8]).unwrap()
}

fn toy_scalar() -> FieldCtx {
    // q = 5: q - 1 = 4 * 1, root of unity 2
    FieldCtx::new(vec![5], 2, vec![1], vec![], vec![2], vec![2]).unwrap()
}

fn toy_params() -> CurveParameters {
    CurveParameters::new(
        toy_base(),
        toy_scalar(),
        vec![1],     // a
        vec![7],     // d
        vec![4],     // cofactor
        vec![4],     // cofactor inverse mod 5
        vec![2],     // generator x
        vec![9],     // generator y
        vec![6],     // montgomery A = 2(a+d)/(a-d)
        vec![8],     // montgomery B = 4/(a-d)
    )
    .unwrap()
}

/// Every point of the curve, found by brute force over both coordinates.
fn all_points(params: &CurveParameters) -> Vec<GroupAffine> {
    let mut pts = Vec::new();
    for x in 0u32..13 {
        for y in 0u32..13 {
            let pt = GroupAffine::new(vec![x], vec![y]);
            if pt.is_on_curve(params) {
                pts.push(pt);
            }
        }
    }
    pts
}

fn to_proj(params: &CurveParameters, pt: &GroupAffine) -> GroupProjective {
    pt.into_projective(params)
}

#[test]
fn curve_has_twenty_points() {
    let params = toy_params();
    assert_eq!(all_points(&params).len(), 20);
}

#[test]
fn field_ctx_rejects_bad_metadata() {
    // two-adicity does not match p - 1 = 4 * 3
    assert!(FieldCtx::new(vec![13], 3, vec![3], vec![1], vec![6], vec![8]).is_none());
    // even modulus
    assert!(FieldCtx::new(vec![12], 2, vec![3], vec![1], vec![6], vec![8]).is_none());
    // wrong Euler exponent
    assert!(FieldCtx::new(vec![13], 2, vec![3], vec![1], vec![5], vec![8]).is_none());
}

#[test]
fn params_reject_generator_off_curve() {
    let r = CurveParameters::new(
        toy_base(),
        toy_scalar(),
        vec![1],
        vec![7],
        vec![4],
        vec![4],
        vec![2],
        vec![3], // (2, 3) is not on the curve
        vec![6],
        vec![8],
    );
    assert!(r.is_none());
}

#[test]
fn montgomery_coefficients_check_out() {
    let params = toy_params();
    assert!(montgomery_conversion_test(&params));
}

#[test]
fn sqrt_exhaustive() {
    // P8 over the whole field: residues mod 13 are {0, 1, 3, 4, 9, 10, 12}
    let base = toy_base();
    let residues = [0u32, 1, 3, 4, 9, 10, 12];
    for e in 0u32..13 {
        let r = base.sqrt(&vec![e]);
        if residues.contains(&e) {
            let root = r.expect("residue must have a root");
            let root_val = if root.is_empty() { 0u64 } else { root[0] as u64 };
            assert_eq!(root_val * root_val % 13, e as u64);
        } else {
            assert!(r.is_none());
        }
    }
}

#[test]
fn group_law_commutative_and_associative() {
    // P2 over every pair and a full sweep of triples
    let params = toy_params();
    let pts: Vec<GroupProjective> =
        all_points(&params).iter().map(|pt| to_proj(&params, pt)).collect();
    for p1 in &pts {
        for p2 in &pts {
            let s12 = p1.add(&params, p2);
            let s21 = p2.add(&params, p1);
            assert!(s12.equals(&params, &s21));
        }
    }
    for p1 in &pts {
        for p2 in &pts {
            for p3 in &pts {
                let left = p1.add(&params, p2).add(&params, p3);
                let right = p1.add(&params, &p2.add(&params, p3));
                assert!(left.equals(&params, &right));
            }
        }
    }
}

#[test]
fn group_law_identity_and_double() {
    let params = toy_params();
    let id = GroupProjective::zero();
    for pt in &all_points(&params) {
        let pp = to_proj(&params, pt);
        let with_id = pp.add(&params, &id);
        assert!(with_id.equals(&params, &pp));
        let doubled = pp.double(&params);
        let summed = pp.add(&params, &pp);
        assert!(doubled.equals(&params, &summed));
    }
}

#[test]
fn mixed_addition_matches_full_addition() {
    let params = toy_params();
    let pts = all_points(&params);
    for p1 in &pts {
        for p2 in &pts {
            let full = to_proj(&params, p1).add(&params, &to_proj(&params, p2));
            let mut mixed = to_proj(&params, p1);
            mixed.add_assign_mixed(&params, p2);
            assert!(full.equals(&params, &mixed));
        }
    }
}

#[test]
fn cofactor_clearing_annihilated_by_subgroup_order() {
    // P4: h*p is identity or killed by the subgroup order
    let params = toy_params();
    for pt in &all_points(&params) {
        let cleared = pt.scale_by_cofactor(&params);
        let killed = cleared.mul(&params, &vec![5u32]);
        assert!(killed.is_zero());
    }
}

#[test]
fn subgroup_closure_for_generator_multiples() {
    // P3: every multiple of the generator passes the subgroup check
    let params = toy_params();
    let g = GroupAffine::prime_subgroup_generator(&params);
    assert!(g.is_on_curve(&params));
    assert!(g.is_in_correct_subgroup_assuming_on_curve(&params));
    for s in 0u32..25 {
        let m = to_proj(&params, &g).mul(&params, &vec![s]);
        if !m.is_zero() {
            let aff = m.into_affine(&params);
            assert!(aff.is_on_curve(&params));
            assert!(aff.is_in_correct_subgroup_assuming_on_curve(&params));
        }
    }
}

#[test]
fn coordinate_recovery_duality() {
    // P5: both recoveries succeed and cover the point
    let params = toy_params();
    for pt in &all_points(&params) {
        let x = pt.to_x_coordinate();
        let a1 = GroupAffine::from_x_coordinate(&params, &x, true).expect("root exists");
        let a2 = GroupAffine::from_x_coordinate(&params, &x, false).expect("root exists");
        assert!(pt.equals(&a1) || pt.equals(&a2));
        let yv = pt.to_y_coordinate();
        let y_is_self_negated = yv.is_empty() || yv[0] == 0;
        if !y_is_self_negated {
            // exactly one of the two recoveries matches
            assert!(pt.equals(&a1) != pt.equals(&a2) || a1.equals(&a2));
        }
        let y = pt.to_y_coordinate();
        let b1 = GroupAffine::from_y_coordinate(&params, &y, true).expect("root exists");
        let b2 = GroupAffine::from_y_coordinate(&params, &y, false).expect("root exists");
        assert!(pt.equals(&b1) || pt.equals(&b2));
    }
}

#[test]
fn batch_normalization_matches_individual() {
    // P6 over sums and multiples with denormalized Z coordinates
    let params = toy_params();
    let g = GroupAffine::prime_subgroup_generator(&params);
    let mut batch: Vec<GroupProjective> = Vec::new();
    for s in 1u32..12 {
        batch.push(to_proj(&params, &g).mul(&params, &vec![s]));
    }
    // include an already-normalized point
    batch.push(to_proj(&params, &g));
    let individual: Vec<GroupAffine> =
        batch.iter().map(|pt| pt.into_affine(&params)).collect();
    GroupProjective::batch_normalization(&params, &mut batch);
    for (b, ind) in batch.iter().zip(individual.iter()) {
        assert!(b.is_normalized());
        let aff = b.into_affine(&params);
        assert!(aff.equals(ind));
    }
}

#[test]
fn compressed_roundtrip_all_subgroup_points() {
    // P1 for the compressed codec
    let params = toy_params();
    for pt in &all_points(&params) {
        if !pt.is_in_correct_subgroup_assuming_on_curve(&params) {
            continue;
        }
        let bytes = serialize_compressed(&params, pt);
        assert_eq!(bytes.len(), serialized_size(&params));
        let back = deserialize_compressed(&params, &bytes).expect("roundtrip");
        assert!(back.equals(pt));
    }
}

#[test]
fn uncompressed_roundtrip_all_subgroup_points() {
    // P1 for the uncompressed codec; exactly twice the compressed size
    let params = toy_params();
    assert_eq!(uncompressed_size(&params), 2 * serialized_size(&params));
    for pt in &all_points(&params) {
        if !pt.is_in_correct_subgroup_assuming_on_curve(&params) {
            continue;
        }
        let bytes = serialize_uncompressed(&params, pt);
        assert_eq!(bytes.len(), uncompressed_size(&params));
        let back = deserialize_uncompressed(&params, &bytes).expect("roundtrip");
        assert!(back.equals(pt));
    }
}

#[test]
fn decode_rejects_bad_encodings() {
    let params = toy_params();
    // wrong length
    let r = deserialize_compressed(&params, &vec![0u8, 0u8]);
    assert!(matches!(r, Err(CodecError::InvalidEncoding)));
    // x out of range: 13 <= 127
    let r = deserialize_compressed(&params, &vec![13u8]);
    assert!(matches!(r, Err(CodecError::InvalidEncoding)));
    // x = 3 has no point on the curve
    let r = deserialize_compressed(&params, &vec![3u8]);
    assert!(matches!(r, Err(CodecError::InvalidEncoding)));
    // (4, 2) is on the curve but outside the subgroup of order five
    let outside = GroupAffine::new(vec![4], vec![2]);
    assert!(outside.is_on_curve(&params));
    assert!(!outside.is_in_correct_subgroup_assuming_on_curve(&params));
    let bytes = serialize_compressed(&params, &outside);
    let r = deserialize_compressed(&params, &bytes);
    assert!(matches!(r, Err(CodecError::InvalidEncoding)));
    // uncompressed: off-curve coordinates
    let r = deserialize_uncompressed(&params, &vec![2u8, 3u8]);
    assert!(matches!(r, Err(CodecError::InvalidEncoding)));
}

#[test]
fn from_random_bytes_matches_codec_convention() {
    let params = toy_params();
    for pt in &all_points(&params) {
        let bytes = serialize_compressed(&params, pt);
        let back = GroupAffine::from_random_bytes(&params, &bytes).expect("valid x");
        let xv = pt.to_x_coordinate();
        if xv.is_empty() || xv[0] == 0 {
            // a zero x maps straight to the identity, whatever the flag says
            assert!(back.is_zero());
        } else {
            assert!(back.equals(pt));
        }
    }
    // an out-of-range value is rejected
    assert!(GroupAffine::from_random_bytes(&params, &vec![13u8]).is_none());
    // an empty buffer reads as x = 0: the identity
    let id = GroupAffine::from_random_bytes(&params, &vec![]).expect("identity");
    assert!(id.is_zero());
}

#[test]
fn negation_and_subtraction() {
    let params = toy_params();
    let g = GroupAffine::prime_subgroup_generator(&params);
    let minus_g = g.neg(&params);
    assert!(minus_g.is_on_curve(&params));
    let sum = to_proj(&params, &g).add(&params, &to_proj(&params, &minus_g));
    assert!(sum.is_zero());
    let diff = g.sub(&params, &g);
    assert!(diff.is_zero());
    // projective subtraction: (g + h) - h == g
    let h = to_proj(&params, &g).double(&params);
    let sum = to_proj(&params, &g).add(&params, &h);
    let back = sum.sub(&params, &h);
    assert!(back.equals(&params, &to_proj(&params, &g)));
    // the default values are the identity
    let da = GroupAffine::default();
    assert!(da.is_zero());
    let dp = GroupProjective::default();
    assert!(dp.is_zero());
}

#[test]
fn exact_encoding_bytes() {
    // (2, 9): y = 9 is larger than -9 = 4, so the selector bit is set
    let params = toy_params();
    let pt = GroupAffine::new(vec![2], vec![9]);
    assert_eq!(serialize_compressed(&params, &pt), vec![0x82u8]);
    assert_eq!(serialize_uncompressed(&params, &pt), vec![2u8, 9u8]);
    // (2, 4): y = 4 is the smaller root, so the selector bit is clear
    let pt2 = GroupAffine::new(vec![2], vec![4]);
    assert_eq!(serialize_compressed(&params, &pt2), vec![0x02u8]);
    // the identity: x = 0 with a clear selector, since 1 < -1 = 12
    let id = GroupAffine::zero();
    assert_eq!(serialize_compressed(&params, &id), vec![0x00u8]);
}

#[test]
fn accessors_and_conversions() {
    let params = toy_params();
    let g = GroupAffine::prime_subgroup_generator(&params);
    assert_eq!(g.to_x_coordinate(), vec![2u32]);
    assert_eq!(g.to_y_coordinate(), vec![9u32]);
    let fes = g.to_field_elements();
    assert_eq!(fes, vec![vec![2u32], vec![9u32]]);
    let pp = g.mul_by_cofactor_to_projective(&params);
    assert!(pp.equals(&params, &g.scale_by_cofactor(&params)));
    let fes2 = pp.to_field_elements(&params);
    assert_eq!(fes2.len(), 2);
    let raw = GroupProjective::new(vec![2], vec![9], vec![5], vec![1]);
    assert!(raw.is_normalized());
    let m = MontgomeryGroupAffine::new(vec![3], vec![4]);
    assert_eq!(m.x, vec![3u32]);
    assert_eq!(m.y, vec![4u32]);
}

#[test]
fn recovery_from_y_one_is_identity() {
    // y = 1 forces x² = 0, whose only root in a prime field is zero, so
    // both selector choices recover the identity
    let params = toy_params();
    let id1 = GroupAffine::from_y_coordinate(&params, &vec![1], false).expect("recovers");
    let id2 = GroupAffine::from_y_coordinate(&params, &vec![1], true).expect("recovers");
    assert!(id1.is_zero());
    assert!(id2.is_zero());
}
