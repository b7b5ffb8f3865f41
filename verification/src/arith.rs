//! Integer groundwork for exact rational arithmetic: absolute value,
//! greatest common divisor, and the divisibility lemmas that canonical
//! (lowest-terms) fractions rest on.

use vstd::prelude::*;
use vstd::arithmetic::div_mod::{
    lemma_fundamental_div_mod, lemma_fundamental_div_mod_converse, lemma_mod_multiples_basic,
    lemma_mod_self_0, lemma_small_mod,
};

verus! {

/// Absolute value of an integer, as a natural number.
pub open spec fn nabs(x: int) -> nat {
    if x < 0 {
        (-x) as nat
    } else {
        x as nat
    }
}

/// Greatest common divisor, by the Euclidean recursion.
/// `gcd(a, 0) == a`, so `gcd(a, b) == 0` only when both arguments are 0.
pub open spec fn gcd(a: nat, b: nat) -> nat
    decreases b,
{
    if b == 0 {
        a
    } else {
        gcd(b, a % b)
    }
}

/// The gcd of two naturals is zero exactly when both are zero.
pub proof fn lemma_gcd_pos(a: nat, b: nat)
    ensures
        gcd(a, b) == 0 <==> (a == 0 && b == 0),
    decreases b,
{
    if b != 0 {
        lemma_gcd_pos(b, a % b);
    }
}

/// The gcd divides both of its arguments.
pub proof fn lemma_gcd_divides(a: nat, b: nat)
    requires
        a != 0 || b != 0,
    ensures
        gcd(a, b) > 0,
        a % gcd(a, b) == 0,
        b % gcd(a, b) == 0,
    decreases b,
{
    lemma_gcd_pos(a, b);
    if b == 0 {
        lemma_mod_self_0(a as int);
        lemma_small_mod(0, a);
    } else {
        let g: nat = gcd(b, a % b);
        lemma_gcd_divides(b, a % b);
        lemma_fundamental_div_mod(a as int, b as int);
        lemma_fundamental_div_mod(b as int, g as int);
        lemma_fundamental_div_mod((a % b) as int, g as int);
        let q: int = (b as int / g as int) * (a as int / b as int) + (a % b) as int / g as int;
        assert(a as int == q * g as int) by (nonlinear_arith)
            requires
                a as int == b as int * (a as int / b as int) + (a % b) as int,
                b as int == g as int * (b as int / g as int),
                (a % b) as int == g as int * ((a % b) as int / g as int),
                q == (b as int / g as int) * (a as int / b as int) + (a % b) as int / g as int,
        {
        }
        lemma_mod_multiples_basic(q, g as int);
    }
}

/// Scaling both operands of a modulus by a positive factor scales the result.
pub proof fn lemma_mod_scale(k: nat, a: nat, b: nat)
    requires
        k > 0,
        b > 0,
    ensures
        (k * a) % (k * b) == k * (a % b),
{
    lemma_fundamental_div_mod(a as int, b as int);
    let q: int = a as int / b as int;
    let r: int = (a % b) as int;
    assert(k as int * a as int == q * (k as int * b as int) + k as int * r) by (nonlinear_arith)
        requires
            a as int == b as int * q + r,
    {
    }
    assert(0 <= k as int * r < k as int * b as int) by (nonlinear_arith)
        requires
            0 <= r < b as int,
            k as int > 0,
    {
    }
    lemma_fundamental_div_mod_converse(
        k as int * a as int,
        k as int * b as int,
        q,
        k as int * r,
    );
}

/// The gcd scales with a common positive factor of its arguments.
pub proof fn lemma_gcd_scale(k: nat, a: nat, b: nat)
    requires
        k > 0,
    ensures
        gcd(k * a, k * b) == k * gcd(a, b),
    decreases b,
{
    if b == 0 {
        assert(k * b == 0);
    } else {
        assert(k * b != 0) by (nonlinear_arith)
            requires
                k > 0,
                b != 0,
        {
        }
        lemma_mod_scale(k, a, b);
        lemma_gcd_scale(k, b, a % b);
    }
}

/// Dividing two naturals by their gcd leaves a coprime pair.
pub proof fn lemma_gcd_div_coprime(a: nat, b: nat)
    requires
        a != 0 || b != 0,
    ensures
        gcd(a, b) > 0,
        gcd(a / gcd(a, b), b / gcd(a, b)) == 1,
{
    let g: nat = gcd(a, b);
    lemma_gcd_divides(a, b);
    lemma_fundamental_div_mod(a as int, g as int);
    lemma_fundamental_div_mod(b as int, g as int);
    assert(g * (a / g) == a);
    assert(g * (b / g) == b);
    lemma_gcd_scale(g, a / g, b / g);
    let c: nat = gcd(a / g, b / g);
    assert(g * c == g);
    assert(c == 1) by (nonlinear_arith)
        requires
            g as int * c as int == g as int,
            g as int > 0,
    {
    }
}

/// A positive divisor of a positive natural is no larger than it, and the
/// quotient is at least one.
pub proof fn lemma_divisor_quotient_pos(a: nat, g: nat)
    requires
        a > 0,
        g > 0,
        a % g == 0,
    ensures
        1 <= a / g,
        a / g <= a,
        g * (a / g) == a,
    decreases a,
{
    lemma_fundamental_div_mod(a as int, g as int);
    assert(g * (a / g) == a);
    if a / g == 0 {
        assert(a == 0) by (nonlinear_arith)
            requires
                g as int * (a as int / g as int) == a as int,
                a as int / g as int == 0,
        {
        }
    }
    assert(a / g <= a) by (nonlinear_arith)
        requires
            g as int * (a as int / g as int) == a as int,
            g as int >= 1,
            a as int / g as int >= 0,
        {
    }
}

/// One is coprime to everything.
pub proof fn lemma_gcd_one(a: nat)
    ensures
        gcd(a, 1) == 1,
{
    lemma_small_mod(0, 1);
    assert(a % 1 == 0) by (nonlinear_arith);
    assert(gcd(a, 1) == gcd(1, a % 1));
    assert(gcd(1, 0) == 1);
}

/// Bound on a product from bounds on its factors.
pub proof fn lemma_abs_mul_bound(x: int, y: int, bx: int, by: int)
    requires
        -bx <= x <= bx,
        -by <= y <= by,
    ensures
        -(bx * by) <= x * y <= bx * by,
{
    assert(-(bx * by) <= x * y <= bx * by) by (nonlinear_arith)
        requires
            -bx <= x <= bx,
            -by <= y <= by,
    {
    }
}

/// Euclid's algorithm, executable form.
pub(crate) fn gcd_u128(a: u128, b: u128) -> (g: u128)
    ensures
        g as nat == gcd(a as nat, b as nat),
{
    let mut x: u128 = a;
    let mut y: u128 = b;
    while y != 0
        invariant
            gcd(x as nat, y as nat) == gcd(a as nat, b as nat),
        decreases y,
    {
        let t: u128 = x % y;
        x = y;
        y = t;
    }
    x
}

} // verus!
