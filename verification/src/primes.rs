//! Divisibility, the greatest common divisor with Bézout coefficients, and
//! Euclid's lemma for a prime modulus — enough number theory to show that a
//! field element has at most two square roots, which is what pins down
//! coordinate recovery and the codec round trip.

use vstd::prelude::*;
use vstd::arithmetic::div_mod::{
    lemma_fundamental_div_mod, lemma_mod_multiples_basic, lemma_small_mod,
};
use crate::modular::{fmul, fneg};

verus! {

/// Whether `d` divides `n` over the integers.
pub open spec fn divides(d: int, n: int) -> bool {
    exists|k: int| n == #[trigger] (d * k)
}

/// Whether `p` is prime: at least two, with no divisor strictly between
/// one and itself.
pub open spec fn is_prime(p: nat) -> bool {
    p >= 2 && forall|d: nat| 1 < d < p ==> !(#[trigger] divides(d as int, p as int))
}

/// The greatest common divisor, by Euclid's algorithm.
pub open spec fn gcd(a: nat, b: nat) -> nat
    decreases b,
{
    if b == 0 {
        a
    } else {
        gcd(b, a % b)
    }
}

/// The greatest common divisor of a pair with a positive member is
/// positive.
pub proof fn lemma_gcd_pos(a: nat, b: nat)
    requires
        a > 0 || b > 0,
    ensures
        gcd(a, b) > 0,
    decreases b,
{
    if b > 0 {
        lemma_gcd_pos(b, a % b);
    }
}

/// The greatest common divisor divides both of its arguments.
pub proof fn lemma_gcd_divides(a: nat, b: nat)
    ensures
        divides(gcd(a, b) as int, a as int),
        divides(gcd(a, b) as int, b as int),
    decreases b,
{
    let g = gcd(a, b) as int;
    if b == 0 {
        assert(a as int == g * 1);
        assert(b as int == g * 0);
    } else {
        lemma_gcd_divides(b, a % b);
        let k1 = choose|k: int| b as int == #[trigger] (g * k);
        let k2 = choose|k: int| (a % b) as int == #[trigger] (g * k);
        lemma_fundamental_div_mod(a as int, b as int);
        let q = a as int / b as int;
        assert(a as int == (g * k1) * q + g * k2);
        assert((g * k1) * q + g * k2 == g * (k1 * q + k2)) by (nonlinear_arith);
    }
}

/// Bézout's identity: the greatest common divisor is an integer linear
/// combination of its arguments.
pub proof fn lemma_bezout(a: nat, b: nat)
    ensures
        exists|x: int, y: int| #![trigger a as int * x, b as int * y]
            a as int * x + b as int * y == gcd(a, b) as int,
    decreases b,
{
    let g = gcd(a, b) as int;
    if b == 0 {
        assert(a as int * 1 + b as int * 0 == g);
    } else {
        lemma_bezout(b, a % b);
        let (x0, y0) = choose|x: int, y: int|
            #![trigger b as int * x, (a % b) as int * y]
            b as int * x + (a % b) as int * y == gcd(b, a % b) as int;
        lemma_fundamental_div_mod(a as int, b as int);
        let q = a as int / b as int;
        // a % b = a - q·b, so g = a·y0 + b·(x0 - q·y0)
        assert(b as int * x0 + (a as int - q * b as int) * y0 == g);
        assert(a as int * y0 + b as int * (x0 - q * y0)
            == b as int * x0 + (a as int - q * b as int) * y0) by (nonlinear_arith);
        assert(a as int * y0 + b as int * (x0 - q * y0) == g);
    }
}

/// A positive divisor of a positive number is no larger than it.
pub proof fn lemma_divisor_le(d: nat, n: nat)
    requires
        n > 0,
        d > 0,
        divides(d as int, n as int),
    ensures
        d <= n,
{
    let k = choose|k: int| n as int == #[trigger] (d as int * k);
    assert(k >= 1) by (nonlinear_arith)
        requires n as int == d as int * k, n > 0, d > 0;
    assert(d as int * k >= d as int * 1) by (nonlinear_arith)
        requires k >= 1, d > 0;
}

/// A prime is coprime to everything strictly between zero and itself.
pub proof fn lemma_gcd_with_prime(p: nat, a: nat)
    requires
        is_prime(p),
        0 < a < p,
    ensures
        gcd(p, a) == 1,
{
    let g = gcd(p, a);
    lemma_gcd_pos(p, a);
    lemma_gcd_divides(p, a);
    lemma_divisor_le(g, a);
    if g != 1 {
        assert(1 < g < p);
        assert(divides(g as int, p as int));
        assert(false);
    }
}

/// Euclid's lemma, in modular form: if a prime divides a product and not
/// the reduced first factor, it divides the second.
pub proof fn lemma_euclid_prime(p: nat, a: nat, b: nat)
    requires
        is_prime(p),
        0 < a < p,
        (a * b) % p == 0,
    ensures
        b % p == 0,
{
    lemma_gcd_with_prime(p, a);
    lemma_bezout(p, a);
    let (x, y) = choose|x: int, y: int|
        #![trigger p as int * x, a as int * y]
        p as int * x + a as int * y == gcd(p, a) as int;
    lemma_fundamental_div_mod((a * b) as int, p as int);
    let m = (a * b) as int / p as int;
    // b = b·(p·x + a·y) = p·(b·x) + (a·b)·y = p·(b·x + m·y)
    assert(b as int == b as int * (p as int * x + a as int * y));
    assert(b as int * (p as int * x + a as int * y)
        == p as int * (b as int * x) + (a as int * b as int) * y) by (nonlinear_arith);
    assert((a * b) as int == a as int * b as int);
    assert(a as int * b as int == p as int * m);
    assert(p as int * (b as int * x) + (p as int * m) * y
        == p as int * (b as int * x + m * y)) by (nonlinear_arith);
    assert(b as int == p as int * (b as int * x + m * y));
    lemma_mod_multiples_basic(b as int * x + m * y, p as int);
}

/// Every nonzero reduced element of a prime field is invertible, by
/// Bézout's identity.
pub proof fn lemma_prime_invertible(p: nat, z: nat)
    requires
        is_prime(p),
        0 < z < p,
    ensures
        crate::modular::invertible(p, z),
{
    lemma_gcd_with_prime(p, z);
    lemma_bezout(p, z);
    let (x, y) = choose|x: int, y: int|
        #![trigger p as int * x, z as int * y]
        p as int * x + z as int * y == gcd(p, z) as int;
    let pi = p as int;
    let w = y % pi;
    vstd::arithmetic::div_mod::lemma_mod_bound(y, pi);
    // z·(y mod p) ≡ z·y = 1 - p·x ≡ 1
    vstd::arithmetic::div_mod::lemma_mul_mod_noop_right(z as int, y, pi);
    assert(z as int * y == 1 + pi * (-x)) by (nonlinear_arith)
        requires pi * x + z as int * y == 1;
    assert((1int + pi * (-x)) % pi == 1int % pi) by {
        vstd::arithmetic::div_mod::lemma_mod_multiples_vanish(-x, 1int, pi);
    }
    assert(fmul(p, z, w as nat) == 1nat % p);
    assert(w < pi);
}

/// A square root of zero in a prime field is zero.
pub proof fn lemma_root_of_zero(p: nat, r: nat)
    requires
        is_prime(p),
        r < p,
        fmul(p, r, r) == 0,
    ensures
        r == 0,
{
    if r != 0 {
        lemma_euclid_prime(p, r, r);
        lemma_small_mod(r, p);
    }
}

/// In a prime field an element has at most two square roots: a root of
/// `r²` is `r` itself or its negation.
pub proof fn lemma_two_roots(p: nat, r1: nat, r2: nat)
    requires
        is_prime(p),
        r1 < p,
        r2 < p,
        fmul(p, r1, r1) == fmul(p, r2, r2),
    ensures
        r1 == r2 || r1 == fneg(p, r2),
{
    // order the two roots so the difference is a natural number
    if r1 >= r2 {
        lemma_two_roots_ordered(p, r1, r2);
    } else {
        lemma_two_roots_ordered(p, r2, r1);
        if r2 == fneg(p, r1) {
            crate::modular::lemma_fneg_involution(p, r1);
        }
    }
}

/// The ordered case of [`lemma_two_roots`].
proof fn lemma_two_roots_ordered(p: nat, r1: nat, r2: nat)
    requires
        is_prime(p),
        r2 <= r1 < p,
        fmul(p, r1, r1) == fmul(p, r2, r2),
    ensures
        r1 == r2 || r1 == fneg(p, r2),
{
    let d = (r1 - r2) as nat;
    let s = (r1 + r2) as nat;
    // (r1² - r2²) ≡ 0, and r1² - r2² = d·s
    assert((r1 * r1 - r2 * r2) as int == d as int * s as int) by (nonlinear_arith)
        requires r2 <= r1, d == r1 - r2, s == r1 + r2;
    lemma_fundamental_div_mod((r1 * r1) as int, p as int);
    lemma_fundamental_div_mod((r2 * r2) as int, p as int);
    let q1 = (r1 * r1) as int / p as int;
    let q2 = (r2 * r2) as int / p as int;
    assert(d as int * s as int == p as int * (q1 - q2)) by (nonlinear_arith)
        requires
            (r1 * r1) as int == p as int * q1 + fmul(p, r1, r1),
            (r2 * r2) as int == p as int * q2 + fmul(p, r2, r2),
            fmul(p, r1, r1) == fmul(p, r2, r2),
            (r1 * r1 - r2 * r2) as int == d as int * s as int;
    if d == 0 {
        assert(r1 == r2);
    } else {
        assert((d * s) % p == 0) by {
            assert((d * s) as int == p as int * (q1 - q2));
            lemma_mod_multiples_basic(q1 - q2, p as int);
        }
        lemma_euclid_prime(p, d, s);
        // s < 2p and s ≡ 0, so s is 0 or p
        lemma_fundamental_div_mod(s as int, p as int);
        if s == 0 {
            assert(r1 == 0 && r2 == 0);
        } else {
            assert(s == p) by {
                let qs = s as int / p as int;
                assert(s as int == p as int * qs);
                assert(0 < s < 2 * p);
                assert(qs == 1) by (nonlinear_arith)
                    requires s as int == p as int * qs, 0 < s < 2 * p, p >= 2;
            }
            assert(r2 > 0);
            lemma_small_mod((p - r2) as nat, p);
            assert(fneg(p, r2) == p - r2);
        }
    }
}

} // verus!
