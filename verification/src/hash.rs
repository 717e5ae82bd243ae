//! A deterministic map from arbitrary labels to curve points: seed a
//! pseudo-random byte stream from a cryptographic hash of the label, draw a
//! field element, and rejection-sample x-coordinates — trying both sign
//! choices and clearing the cofactor — until a non-identity subgroup point
//! appears.
//!
//! The contract pins the result to the first success of that search, so the
//! same label provably yields the same point.

use vstd::prelude::*;
use vstd::arithmetic::div_mod::{lemma_add_mod_noop, lemma_small_mod};
use crate::affine::{spec_affine_reduced, GroupAffine};
use crate::curve::{
    spec_mul_bits, spec_proj_is_zero, spec_recovered_x_point, spec_to_extended,
    spec_x_recoverable, CurveParameters, SpecAffine, SpecProj,
};
use crate::codec::bytes_to_digits;
use crate::digits::{big_add, bval, val};
use crate::field::{digits_lt, one_digits};
use crate::modular::{fmul, invertible};

verus! {

/// The SHA-256 digest of a label; the result depends on the characters
/// alone.
pub uninterp spec fn sha256_of(s: Seq<char>) -> Seq<u8>;

/// The first `n` bytes of the ChaCha stream for a 32-byte seed; the result
/// depends on the seed and the count alone.
pub uninterp spec fn chacha_stream(seed: Seq<u8>, n: nat) -> Seq<u8>;

/// Relies on `sha2::Sha256`: `digest` is the SHA-256 of the input bytes, a
/// pure function of them, 32 bytes long.
#[verifier::external_body]
fn sha256(input: &str) -> (r: Vec<u8>)
    ensures
        r@ == sha256_of(input@),
        r@.len() == 32,
{
    let digest = <sha2::Sha256 as sha2::Digest>::digest(input);
    digest.as_slice().to_vec()
}

/// Relies on `rand_chacha::ChaCha8Rng`: `from_seed` builds the generator
/// from the 32-byte seed alone and `fill_bytes` emits its deterministic
/// stream, so the bytes are a pure function of seed and count.
#[verifier::external_body]
fn chacha_bytes(seed: &Vec<u8>, n: usize) -> (r: Vec<u8>)
    requires
        seed@.len() == 32,
    ensures
        r@.len() == n,
        r@ == chacha_stream(seed@, n as nat),
{
    let mut seed_arr = [0u8; 32];
    seed_arr.copy_from_slice(&seed[..32]);
    let mut rng = <rand_chacha::ChaCha8Rng as rand_chacha::rand_core::SeedableRng>::from_seed(
        seed_arr,
    );
    let mut buf = vec![0u8; n];
    rand_chacha::rand_core::Rng::fill_bytes(&mut rng, &mut buf);
    buf
}

/// The field element a label seeds the search with: a stream of twice the
/// field's byte length, keyed by the label's hash, reduced modulo `p`.
pub open spec fn spec_seed_element(params: CurveParameters, label: Seq<char>) -> nat {
    bval(chacha_stream(sha256_of(label), (2 * params.base.byte_len) as nat)) % params.p()
}

/// The x-coordinate of the search's `i`-th candidate: the seeded element
/// advanced `i` times by one, wrapping modulo `p`.
pub open spec fn spec_candidate_x(params: CurveParameters, label: Seq<char>, i: nat) -> nat {
    (spec_seed_element(params, label) + i) % params.p()
}

/// The cofactor-cleared projective multiple of an affine candidate.
pub open spec fn spec_cleared(params: CurveParameters, pt: SpecAffine) -> SpecProj {
    spec_mul_bits(params.p(), params.a(), params.d(), spec_to_extended(params.p(), pt),
        params.cofactor@, 32 * params.cofactor@.len())
}

/// Whether one attempt of the search succeeds for the x-value `xv` and sign
/// choice `sign`: a point is recoverable, its cofactor multiple is not the
/// identity, and that multiple can be normalized.
pub open spec fn spec_candidate_ok(params: CurveParameters, xv: nat, sign: bool) -> bool {
    let m = spec_cleared(params, spec_recovered_x_point(params, xv, sign));
    &&& spec_x_recoverable(params, xv)
    &&& !spec_proj_is_zero(m)
    &&& (m.z == 1 || invertible(params.p(), m.z))
}

/// Whether an affine pair is the normal form of a projective value: reduced
/// coordinates whose products with `Z` give back `X` and `Y`.
pub open spec fn spec_normal_form_of(p: nat, m: SpecProj, aff: SpecAffine) -> bool {
    &&& aff.x < p
    &&& aff.y < p
    &&& fmul(p, aff.x, m.z) == m.x % p
    &&& fmul(p, aff.y, m.z) == m.y % p
}

/// The normal form of a projective value; unique whenever `Z` is
/// invertible.
pub open spec fn spec_normal_form(p: nat, m: SpecProj) -> SpecAffine {
    choose|aff: SpecAffine| #[trigger] spec_normal_form_of(p, m, aff)
}

/// The affine result of a successful attempt: the normal form of the
/// cleared multiple of the recovered point.
pub open spec fn spec_candidate_result(params: CurveParameters, xv: nat, sign: bool)
    -> SpecAffine {
    spec_normal_form(params.p(), spec_cleared(params,
        spec_recovered_x_point(params, xv, sign)))
}

/// Whether the search's candidate `i` succeeds for the given label and sign
/// choice.
pub open spec fn spec_attempt_ok(
    params: CurveParameters,
    label: Seq<char>,
    i: nat,
    sign: bool,
) -> bool {
    spec_candidate_ok(params, spec_candidate_x(params, label, i), sign)
}

/// The point the search's candidate `i` yields for the given label and sign
/// choice.
pub open spec fn spec_attempt_point(
    params: CurveParameters,
    label: Seq<char>,
    i: nat,
    sign: bool,
) -> SpecAffine {
    spec_candidate_result(params, spec_candidate_x(params, label, i), sign)
}

/// Whether `aff` is the outcome of the search's first successful attempt at
/// index `i`: every earlier candidate fails with both sign choices, and at
/// `i` the sign choices are tried in order, clear sign first.
pub open spec fn spec_first_hit(
    params: CurveParameters,
    label: Seq<char>,
    i: nat,
    aff: SpecAffine,
) -> bool {
    &&& i < params.p()
    &&& forall|j: nat| j < i ==> !(#[trigger] spec_attempt_ok(params, label, j, false))
        && !spec_attempt_ok(params, label, j, true)
    &&& ((spec_attempt_ok(params, label, i, false)
            && aff == spec_attempt_point(params, label, i, false))
        || (!spec_attempt_ok(params, label, i, false)
            && spec_attempt_ok(params, label, i, true)
            && aff == spec_attempt_point(params, label, i, true)))
}

/// Whether `aff` is the outcome of the label's seeded search.
pub open spec fn spec_hash_outcome(
    params: CurveParameters,
    label: Seq<char>,
    aff: SpecAffine,
) -> bool {
    exists|i: nat| #[trigger] spec_first_hit(params, label, i, aff)
}

/// Maps a label to a point of the prime-order subgroup, deterministically:
/// the result is pinned to the first success of the seeded search, so the
/// same label always yields the same point.
///
/// Starting from the label's seeded field element, each candidate
/// x-coordinate is tried with both sign choices; a recovered point is
/// scaled by the cofactor, and the first non-identity result is returned in
/// affine form. A failed candidate increments x by one and retries. The
/// retries stop after one full pass over the field — a bounded deviation
/// from an unbounded search, since every candidate repeats from there on —
/// so the map can come up empty, though only on a degenerate curve: on a
/// real curve at least half of all x-coordinates admit a point.
pub fn hash_to_curve(params: &CurveParameters, input: &str) -> (r: Option<GroupAffine>)
    requires
        params.wf(),
    ensures
        match r {
            Some(aff) => spec_affine_reduced(params.p(), aff@)
                && spec_hash_outcome(*params, input@, aff@),
            None => forall|i: nat| i < params.p()
                ==> !(#[trigger] spec_attempt_ok(*params, input@, i, false))
                    && !spec_attempt_ok(*params, input@, i, true),
        },
{
    let ghost p = params.p();
    let ghost label = input@;
    let seed = sha256(input);
    let stream = chacha_bytes(&seed, 2 * params.base.byte_len);
    let mut x = params.base.reduce(&bytes_to_digits(&stream));
    proof {
        assert(val(x@) == spec_seed_element(*params, label));
        lemma_small_mod(val(x@), p);
        assert(val(x@) == spec_candidate_x(*params, label, 0));
    }
    let one = one_digits();
    let mut tries = crate::field::zero_digits();
    while digits_lt(&tries, &params.base.modulus)
        invariant
            params.wf(),
            p == params.p(),
            label == input@,
            val(x@) < p,
            val(x@) == spec_candidate_x(*params, label, val(tries@)),
            val(one@) == 1,
            val(tries@) <= p,
            forall|j: nat| j < val(tries@)
                ==> !(#[trigger] spec_attempt_ok(*params, label, j, false))
                    && !spec_attempt_ok(*params, label, j, true),
        decreases p - val(tries@),
    {
        let ghost i = val(tries@);
        if let Some(candidate) = try_candidate(params, &x, false) {
            proof {
                assert(spec_first_hit(*params, label, i, candidate@));
            }
            return Some(candidate);
        }
        if let Some(candidate) = try_candidate(params, &x, true) {
            proof {
                assert(spec_first_hit(*params, label, i, candidate@));
            }
            return Some(candidate);
        }
        x = params.base.add(&x, &one);
        tries = big_add(&tries, &one);
        proof {
            // ((x0 + i) % p + 1) % p == (x0 + i + 1) % p
            let x0 = spec_seed_element(*params, label);
            lemma_add_mod_noop((x0 + i) as int, 1, p as int);
            lemma_small_mod(1, p);
            assert(val(x@) == spec_candidate_x(*params, label, i + 1));
        }
    }
    None
}

/// One attempt of the search: recover a point for this x-coordinate and
/// sign, clear its cofactor, and accept the result — in normal form —
/// exactly when it is not the identity and can be normalized.
fn try_candidate(params: &CurveParameters, x: &Vec<u32>, sign: bool) -> (r: Option<GroupAffine>)
    requires
        params.wf(),
        val(x@) < params.p(),
    ensures
        (r is Some) <==> spec_candidate_ok(*params, val(x@), sign),
        r is Some ==> spec_affine_reduced(params.p(), r.unwrap()@)
            && r.unwrap()@ == spec_candidate_result(*params, val(x@), sign),
{
    let ghost p = params.p();
    match GroupAffine::from_x_coordinate(params, x, sign) {
        None => None,
        Some(g) => {
            let scaled = g.scale_by_cofactor(params);
            proof {
                assert(scaled@ == spec_cleared(*params,
                    spec_recovered_x_point(*params, val(x@), sign)));
            }
            if scaled.is_zero() {
                return None;
            }
            match scaled.to_affine_checked(params) {
                None => None,
                Some(aff) => {
                    proof {
                        // the normal form is unique, so the conversion's
                        // result is the one the contract names
                        let m = scaled@;
                        lemma_small_mod(m.x, p);
                        lemma_small_mod(m.y, p);
                        assert(spec_normal_form_of(p, m, aff@));
                        assert(exists|q: SpecAffine| #[trigger] spec_normal_form_of(p, m, q));
                        let chosen = spec_normal_form(p, m);
                        assert(invertible(p, m.z)) by {
                            if m.z == 1 {
                                assert(1nat * 1nat == 1nat);
                                lemma_small_mod(1, p);
                                assert(fmul(p, m.z, 1) == 1nat % p);
                            }
                        }
                        crate::laws::lemma_batch_matches_individual(p, m, aff@, chosen);
                    }
                    Some(aff)
                }
            }
        }
    }
}

} // verus!
