//! Checks on a production-size twisted Edwards curve: the curve over the
//! 253-bit scalar field of BLS12-377, with `a = -1`, `d = 3021` and
//! cofactor four.

use rand_chacha::rand_core::{Rng, SeedableRng};
use rand_xorshift::XorShiftRng;
use tedwards::affine::GroupAffine;
use tedwards::codec::{
    deserialize_compressed, deserialize_uncompressed, serialize_compressed,
    serialize_uncompressed, serialized_size, uncompressed_size,
};
use tedwards::curve::CurveParameters;
use tedwards::field::FieldCtx;
use tedwards::hash::hash_to_curve;
use tedwards::montgomery::montgomery_conversion_test;
use tedwards::projective::GroupProjective;

fn base_field() -> FieldCtx {
    FieldCtx::new(
        vec![
            1, 168919040, 3489660929, 1504343806, 1547153409, 1622428958, 2586617174, 313222494,
        ],
        47,
        vec![136227, 3992821760, 1610789716, 2587670639, 1252835688, 3401397337, 9558],
        vec![68113, 1996410880, 2952878506, 1293835319, 2773901492, 1700698668, 4779],
        vec![
            0, 2231943168, 1744830464, 2899655551, 773576704, 811214479, 1293308587, 156611247,
        ],
        vec![
            2787346268, 1919445418, 1079629005, 3854692792, 2370827163, 1208683936, 3006847798,
            256858326,
        ],
    )
    .unwrap()
}

fn scalar_field() -> FieldCtx {
    FieldCtx::new(
        vec![
            3275741695, 3109744282, 3292302078, 1385407407, 2534272000, 2553090887, 2794137941,
            78305623,
        ],
        1,
        vec![
            1637870847, 1554872141, 3793634687, 692703703, 3414619648, 3424029091, 3544552618,
            39152811,
        ],
        vec![
            2966419071, 2924919718, 4044300991, 346351851, 3854793472, 1712014545, 3919759957,
            19576405,
        ],
        vec![
            1637870847, 1554872141, 3793634687, 692703703, 3414619648, 3424029091, 3544552618,
            39152811,
        ],
        vec![
            3275741694, 3109744282, 3292302078, 1385407407, 2534272000, 2553090887, 2794137941,
            78305623,
        ],
    )
    .unwrap()
}

fn curve() -> CurveParameters {
    CurveParameters::new(
        base_field(),
        scalar_field(),
        vec![
            0, 168919040, 3489660929, 1504343806, 1547153409, 1622428958, 2586617174, 313222494,
        ],
        vec![3021],
        vec![4],
        vec![
            2966419072, 2924919718, 4044300991, 346351851, 3854793472, 1712014545, 3919759957,
            19576405,
        ],
        vec![
            1952336699, 2657823538, 3826492862, 4091604091, 2947486577, 2769316077, 1759376305,
            43228707,
        ],
        vec![
            624516853, 1696931610, 3721365746, 2609906414, 4285385134, 3302070637, 3732204882,
            69187566,
        ],
        vec![
            938014034, 3988211930, 1296520157, 2476026584, 3974338331, 647270449, 2913534218,
            148008511,
        ],
        vec![
            3356953261, 475674405, 2193140771, 3323284518, 1867782373, 975158508, 3968050252,
            165213982,
        ],
    )
    .unwrap()
}

/// A pseudo-random scalar from the classic test seed.
fn random_scalar(rng: &mut XorShiftRng) -> Vec<u32> {
    let mut bytes = [0u8; 28];
    rng.fill_bytes(&mut bytes);
    let mut digits = Vec::new();
    for chunk in bytes.chunks(4) {
        digits.push(u32::from_le_bytes([chunk[0], chunk[1], chunk[2], chunk[3]]));
    }
    digits
}

fn random_subgroup_point(params: &CurveParameters, rng: &mut XorShiftRng) -> GroupProjective {
    let g = GroupAffine::prime_subgroup_generator(params).into_projective(params);
    g.mul(params, &random_scalar(rng))
}

#[test]
fn generator_is_valid() {
    let params = curve();
    let g = GroupAffine::prime_subgroup_generator(&params);
    assert!(g.is_on_curve(&params));
    assert!(g.is_in_correct_subgroup_assuming_on_curve(&params));
    assert!(montgomery_conversion_test(&params));
}

#[test]
fn group_laws_on_random_points() {
    let params = curve();
    let mut rng = XorShiftRng::seed_from_u64(1231275789u64);
    for _ in 0..5 {
        let p1 = random_subgroup_point(&params, &mut rng);
        let p2 = random_subgroup_point(&params, &mut rng);
        let p3 = random_subgroup_point(&params, &mut rng);
        assert!(p1.add(&params, &p2).equals(&params, &p2.add(&params, &p1)));
        let left = p1.add(&params, &p2).add(&params, &p3);
        let right = p1.add(&params, &p2.add(&params, &p3));
        assert!(left.equals(&params, &right));
        assert!(p1.add(&params, &GroupProjective::zero()).equals(&params, &p1));
        assert!(p1.double(&params).equals(&params, &p1.add(&params, &p1)));
    }
}

#[test]
fn subgroup_closure_on_random_multiples() {
    let params = curve();
    let mut rng = XorShiftRng::seed_from_u64(1231275789u64);
    for _ in 0..5 {
        let m = random_subgroup_point(&params, &mut rng);
        if !m.is_zero() {
            let aff = m.into_affine(&params);
            assert!(aff.is_on_curve(&params));
            assert!(aff.is_in_correct_subgroup_assuming_on_curve(&params));
        }
    }
}

#[test]
fn cofactor_clearing_into_subgroup() {
    // any recovered on-curve point lands in the subgroup after clearing
    let params = curve();
    let mut x = vec![5u32];
    let mut found = 0;
    while found < 3 {
        if let Some(pt) = GroupAffine::from_x_coordinate(&params, &x, false) {
            let cleared = pt.scale_by_cofactor(&params);
            if !cleared.is_zero() {
                let aff = cleared.into_affine(&params);
                assert!(aff.is_on_curve(&params));
                assert!(aff.is_in_correct_subgroup_assuming_on_curve(&params));
                found += 1;
            }
        }
        x[0] += 1;
    }
}

#[test]
fn batch_normalization_matches_individual_large() {
    let params = curve();
    let mut rng = XorShiftRng::seed_from_u64(1231275789u64);
    let mut batch: Vec<GroupProjective> = Vec::new();
    for _ in 0..8 {
        batch.push(random_subgroup_point(&params, &mut rng));
    }
    let individual: Vec<GroupAffine> = batch.iter().map(|pt| pt.into_affine(&params)).collect();
    GroupProjective::batch_normalization(&params, &mut batch);
    for (b, ind) in batch.iter().zip(individual.iter()) {
        assert!(b.is_normalized());
        assert!(b.into_affine(&params).equals(ind));
    }
}

#[test]
fn serialization_roundtrip() {
    let params = curve();
    assert_eq!(serialized_size(&params), 32);
    assert_eq!(uncompressed_size(&params), 64);
    let mut rng = XorShiftRng::seed_from_u64(1231275789u64);
    for _ in 0..10 {
        let a = random_subgroup_point(&params, &mut rng).into_affine(&params);
        let compressed = serialize_compressed(&params, &a);
        assert_eq!(compressed.len(), 32);
        let b = deserialize_compressed(&params, &compressed).expect("roundtrip");
        assert!(a.equals(&b));
        let uncompressed = serialize_uncompressed(&params, &a);
        assert_eq!(uncompressed.len(), 64);
        let c = deserialize_uncompressed(&params, &uncompressed).expect("roundtrip");
        assert!(a.equals(&c));
    }
    // the identity roundtrips as well
    let id = GroupAffine::zero();
    let bytes = serialize_compressed(&params, &id);
    let back = deserialize_compressed(&params, &bytes).expect("identity");
    assert!(back.is_zero());
    // a truncated buffer is rejected
    let short = vec![0u8; 31];
    assert!(deserialize_compressed(&params, &short).is_err());
    assert!(deserialize_uncompressed(&params, &vec![0u8; 63]).is_err());
}

#[test]
fn from_random_bytes_retries_to_a_point() {
    // sweep a byte buffer downward until a point appears, as the classic
    // exercise does
    let params = curve();
    let mut rng = XorShiftRng::seed_from_u64(1231275789u64);
    let mut bytes = [0u8; 32];
    rng.fill_bytes(&mut bytes);
    let mut buf: Vec<u8> = bytes.to_vec();
    let mut tries = 0;
    loop {
        if let Some(pt) = GroupAffine::from_random_bytes(&params, &buf) {
            if pt.is_zero() {
                assert!(pt.equals(&GroupAffine::zero()));
            } else {
                assert!(pt.is_on_curve(&params));
            }
            break;
        }
        for b in buf.iter_mut() {
            *b = b.wrapping_sub(1);
        }
        tries += 1;
        assert!(tries < 10_000);
    }
}

#[test]
fn hash_to_curve_deterministic_and_valid() {
    let params = curve();
    let h1 = hash_to_curve(&params, "Aleo BLS12-377 G1").expect("hash lands");
    let h2 = hash_to_curve(&params, "Aleo BLS12-377 G1").expect("hash lands");
    assert!(h1.equals(&h2));
    assert!(h1.is_on_curve(&params));
    assert!(h1.is_in_correct_subgroup_assuming_on_curve(&params));
    assert!(!h1.is_zero());
    let other = hash_to_curve(&params, "Aleo BLS12-377 G2").expect("hash lands");
    assert!(!other.equals(&h1));
    assert!(other.is_on_curve(&params));
    assert!(other.is_in_correct_subgroup_assuming_on_curve(&params));
}

#[test]
fn mul_by_cofactor_inv_inverts_clearing_on_subgroup() {
    let params = curve();
    let mut rng = XorShiftRng::seed_from_u64(1231275789u64);
    let a = random_subgroup_point(&params, &mut rng).into_affine(&params);
    let cleared = a.scale_by_cofactor(&params).into_affine(&params);
    let back = cleared.mul_by_cofactor_inv(&params);
    assert!(back.equals(&a));
}

#[test]
fn hash_to_curve_golden_vector() {
    // pins the seeded search end to end: any change to the hashing, the
    // stream draw, the recovery or the clearing moves these coordinates
    let params = curve();
    let h = hash_to_curve(&params, "Aleo BLS12-377 G1").expect("hash lands");
    assert_eq!(
        h.to_x_coordinate(),
        vec![
            3753692899u32, 1248910569, 1999983162, 3886962428, 4285639812, 1862359238, 627027106,
            158612919,
        ]
    );
    assert_eq!(
        h.to_y_coordinate(),
        vec![
            662641430u32, 1580317720, 463087580, 2693968459, 1356347611, 3266715884, 2659027128,
            183556248,
        ]
    );
}
