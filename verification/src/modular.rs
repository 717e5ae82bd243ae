//! Modular arithmetic over the natural numbers: the spec-level field
//! operations that every contract of this crate is stated with, and the
//! lemmas about them that the proofs share.

use vstd::prelude::*;
use vstd::arithmetic::div_mod::{
    lemma_mod_bound, lemma_mod_twice, lemma_mul_mod_noop_general, lemma_small_mod,
};
use crate::digits::npow;

verus! {

/// `(a + b) % p`.
pub open spec fn fadd(p: nat, a: nat, b: nat) -> nat {
    (a + b) % p
}

/// `(a - b) % p`, with `b` first lifted by `p` so the difference is a
/// natural number whenever `b <= p`.
pub open spec fn fsub(p: nat, a: nat, b: nat) -> nat
    recommends
        b <= p,
{
    (((a + p) - b) as nat) % p
}

/// `(a * b) % p`.
pub open spec fn fmul(p: nat, a: nat, b: nat) -> nat {
    (a * b) % p
}

/// The additive inverse of `a` modulo `p`.
pub open spec fn fneg(p: nat, a: nat) -> nat
    recommends
        a <= p,
{
    ((p - a) as nat) % p
}

/// Whether `z` has a multiplicative inverse modulo `p`.
pub open spec fn invertible(p: nat, z: nat) -> bool {
    exists|w: nat| w < p && #[trigger] fmul(p, z, w) == 1nat % p
}

/// Whether `s` has a square root modulo `p`.
pub open spec fn has_root(p: nat, s: nat) -> bool {
    exists|r: nat| r < p && #[trigger] fmul(p, r, r) == s
}

/// Whether `y` is the lexicographically larger of `y` and `-y` modulo `p`,
/// comparing canonical representatives in `[0, p)`.
pub open spec fn is_largest(p: nat, y: nat) -> bool {
    y > fneg(p, y)
}

/// A power of a base at least one is at least one.
pub proof fn lemma_npow_pos(b: nat, e: nat)
    requires
        b >= 1,
    ensures
        npow(b, e) >= 1,
    decreases e,
{
    if e > 0 {
        lemma_npow_pos(b, (e - 1) as nat);
        assert(b * npow(b, (e - 1) as nat) >= 1) by (nonlinear_arith)
            requires b >= 1, npow(b, (e - 1) as nat) >= 1;
    }
}

/// Powers of a base at least one do not decrease as the exponent grows.
pub proof fn lemma_npow_monotone(b: nat, e1: nat, e2: nat)
    requires
        b >= 1,
        e1 <= e2,
    ensures
        npow(b, e1) <= npow(b, e2),
    decreases e2,
{
    if e1 < e2 {
        lemma_npow_monotone(b, e1, (e2 - 1) as nat);
        lemma_npow_pos(b, (e2 - 1) as nat);
        assert(npow(b, e2) == b * npow(b, (e2 - 1) as nat));
        assert(b * npow(b, (e2 - 1) as nat) >= 1 * npow(b, (e2 - 1) as nat))
            by (nonlinear_arith)
            requires b >= 1, npow(b, (e2 - 1) as nat) >= 0;
    }
}

/// A product reduced modulo `p` is unchanged when either factor is first
/// reduced modulo `p`.
pub proof fn lemma_fmul_noop(p: nat, a: nat, b: nat)
    requires
        p > 0,
    ensures
        fmul(p, a % p, b) == fmul(p, a, b),
        fmul(p, a, b % p) == fmul(p, a, b),
        fmul(p, a % p, b % p) == fmul(p, a, b),
{
    lemma_mul_mod_noop_general(a as int, b as int, p as int);
}

/// Multiplication modulo `p` is associative.
pub proof fn lemma_fmul_assoc(p: nat, a: nat, b: nat, c: nat)
    requires
        p > 0,
    ensures
        fmul(p, fmul(p, a, b), c) == fmul(p, a, fmul(p, b, c)),
{
    lemma_fmul_noop(p, a * b, c);
    lemma_fmul_noop(p, a, b * c);
    assert((a * b) * c == a * (b * c)) by (nonlinear_arith);
}

/// Multiplying by an element and then by its inverse is the identity on
/// reduced elements.
pub proof fn lemma_mul_inverse_cancel(p: nat, u: nat, z: nat, w: nat)
    requires
        p > 1,
        u < p,
        fmul(p, z, w) == 1nat % p,
    ensures
        fmul(p, fmul(p, u, z), w) == u,
{
    lemma_fmul_assoc(p, u, z, w);
    lemma_fmul_noop(p, u, z * w);
    lemma_fmul_noop(p, u, 1);
    assert(fmul(p, u, fmul(p, z, w)) == fmul(p, u, 1nat % p));
    assert(fmul(p, u, 1nat % p) == fmul(p, u, 1));
    assert(u * 1 == u);
    lemma_small_mod(u, p);
}

/// Two reduced elements that agree after multiplication by an invertible
/// element are equal.
pub proof fn lemma_mul_cancel(p: nat, u: nat, v: nat, z: nat, w: nat)
    requires
        p > 1,
        u < p,
        v < p,
        fmul(p, z, w) == 1nat % p,
        fmul(p, u, z) == fmul(p, v, z),
    ensures
        u == v,
{
    lemma_mul_inverse_cancel(p, u, z, w);
    lemma_mul_inverse_cancel(p, v, z, w);
}

/// A product of two invertible elements is invertible.
pub proof fn lemma_invertible_mul(p: nat, z1: nat, z2: nat)
    requires
        p > 1,
        invertible(p, z1),
        invertible(p, z2),
    ensures
        invertible(p, fmul(p, z1, z2)),
{
    let w1 = choose|w: nat| w < p && #[trigger] fmul(p, z1, w) == 1nat % p;
    let w2 = choose|w: nat| w < p && #[trigger] fmul(p, z2, w) == 1nat % p;
    let w = fmul(p, w1, w2);
    lemma_mod_bound((w1 * w2) as int, p as int);
    assert(fmul(p, fmul(p, z1, z2), w) == 1nat % p) by {
        lemma_fmul_noop(p, z1 * z2, w1 * w2);
        assert((z1 * z2) * (w1 * w2) == (z1 * w1) * (z2 * w2)) by (nonlinear_arith);
        lemma_mul_mod_noop_general((z1 * w1) as int, (z2 * w2) as int, p as int);
        assert(fmul(p, fmul(p, z1, w1), fmul(p, z2, w2)) == (1nat % p) * (1nat % p) % p);
        lemma_mul_mod_noop_general(1, 1, p as int);
        lemma_mod_twice(1, p as int);
    }
}

/// Negation preserves squares: `(-y)² = y²` modulo `p`.
pub proof fn lemma_fneg_square(p: nat, y: nat)
    requires
        p > 0,
        y <= p,
    ensures
        fmul(p, fneg(p, y), fneg(p, y)) == fmul(p, y, y),
{
    let pi = p as int;
    let yi = y as int;
    lemma_fmul_noop(p, (p - y) as nat, (p - y) as nat);
    assert((pi - yi) * (pi - yi) == yi * yi + pi * (pi - 2 * yi)) by (nonlinear_arith);
    vstd::arithmetic::div_mod::lemma_mod_multiples_vanish(pi - 2 * yi, yi * yi, pi);
}

/// Negation modulo `p` is an involution on reduced elements.
pub proof fn lemma_fneg_involution(p: nat, y: nat)
    requires
        p > 0,
        y < p,
    ensures
        fneg(p, fneg(p, y)) == y,
{
    if y == 0 {
        vstd::arithmetic::div_mod::lemma_mod_self_0(p as int);
    } else {
        vstd::arithmetic::div_mod::lemma_small_mod((p - y) as nat, p);
        vstd::arithmetic::div_mod::lemma_small_mod(y, p);
    }
}

/// A product with an inverse on the right collapses: if `z·w ≡ 1` then
/// `(n·w)·z ≡ n` for a reduced `n`.
pub proof fn lemma_mul_inv_right(p: nat, n: nat, w: nat, z: nat)
    requires
        p > 1,
        n < p,
        fmul(p, z, w) == 1nat % p,
    ensures
        fmul(p, fmul(p, n, w), z) == n,
{
    lemma_fmul_assoc(p, n, w, z);
    assert(w * z == z * w) by (nonlinear_arith);
    lemma_fmul_noop(p, n, 1);
    assert(n * 1 == n);
    vstd::arithmetic::div_mod::lemma_small_mod(n, p);
}

} // verus!
