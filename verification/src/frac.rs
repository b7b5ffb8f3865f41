//! Exact rational scalars.
//!
//! A [`Fraction`] is a rational number kept in canonical form: reduced to
//! lowest terms with a strictly positive denominator.  Its mathematical
//! model is the ghost pair [`Rat`]; every arithmetic operation is specified
//! by the corresponding spec-level operation on `Rat`, which normalises the
//! textbook formula through [`norm_frac`].
//!
//! Components are stored in 64 bits and all intermediate products are taken
//! in 128 bits, so an operation is exact whenever its canonical result fits
//! the symmetric 64-bit range [`rat_in_range`]; that bound is the only
//! precondition the arithmetic carries.

use vstd::prelude::*;

use crate::arith::{
    gcd, gcd_u128, lemma_abs_mul_bound, lemma_divisor_quotient_pos, lemma_gcd_div_coprime,
    lemma_gcd_divides, lemma_gcd_one, lemma_gcd_scale, nabs,
};
use vstd::arithmetic::div_mod::{lemma_div_multiples_vanish, lemma_fundamental_div_mod};

verus! {

/// Mathematical model of a fraction: integer numerator over integer
/// denominator.
pub ghost struct Rat {
    pub n: int,
    pub d: int,
}

/// Largest magnitude an executable fraction component may take.  The range
/// is symmetric, so negation never leaves it.
pub open spec fn frac_limit() -> int {
    i64::MAX as int
}

/// The canonical (lowest-terms, positive-denominator) fraction equal to
/// `n / d`.  Meaningful whenever `d != 0`.
pub open spec fn norm_frac(n: int, d: int) -> Rat {
    let neg = (n < 0) != (d < 0);
    let na = nabs(n);
    let da = nabs(d);
    if na == 0 {
        Rat { n: 0, d: 1 }
    } else {
        let g = gcd(na, da);
        let m = (na / g) as int;
        Rat { n: if neg { -m } else { m }, d: (da / g) as int }
    }
}

/// The rational number zero.
pub open spec fn rat_zero() -> Rat {
    Rat { n: 0, d: 1 }
}

/// The rational number one.
pub open spec fn rat_one() -> Rat {
    Rat { n: 1, d: 1 }
}

/// The canonical form of an integer.
pub open spec fn rat_of_int(n: int) -> Rat {
    Rat { n: n, d: 1 }
}

/// Exact rational sum, in canonical form.
pub open spec fn rat_add(a: Rat, b: Rat) -> Rat {
    norm_frac(a.n * b.d + b.n * a.d, a.d * b.d)
}

/// Exact rational difference, in canonical form.
pub open spec fn rat_sub(a: Rat, b: Rat) -> Rat {
    norm_frac(a.n * b.d - b.n * a.d, a.d * b.d)
}

/// Exact rational product, in canonical form.
pub open spec fn rat_mul(a: Rat, b: Rat) -> Rat {
    norm_frac(a.n * b.n, a.d * b.d)
}

/// Exact rational quotient, in canonical form.  Meaningful when `b.n != 0`.
pub open spec fn rat_div(a: Rat, b: Rat) -> Rat {
    norm_frac(a.n * b.d, a.d * b.n)
}

/// Exact rational negation.  Canonical forms are closed under it.
pub open spec fn rat_neg(a: Rat) -> Rat {
    Rat { n: -a.n, d: a.d }
}

/// Whether both components of a canonical rational fit the executable range.
pub open spec fn rat_in_range(r: Rat) -> bool {
    &&& -frac_limit() <= r.n <= frac_limit()
    &&& 1 <= r.d <= frac_limit()
}

/// Canonical form: positive denominator, reduced to lowest terms.  (For a
/// zero numerator this forces denominator one.)
pub open spec fn rat_canonical(r: Rat) -> bool {
    r.d >= 1 && gcd(nabs(r.n), nabs(r.d)) == 1
}

/// The invariant of every executable fraction.
pub open spec fn rat_wf(r: Rat) -> bool {
    rat_in_range(r) && rat_canonical(r)
}

/// An exact rational scalar in canonical form.
#[derive(Clone, Copy, PartialEq, Eq, Structural, Hash, Debug)]
pub struct Fraction {
    num: i64,
    den: i64,
}

impl View for Fraction {
    type V = Rat;

    closed spec fn view(&self) -> Rat {
        Rat { n: self.num as int, d: self.den as int }
    }
}

impl Fraction {
    /// Every fraction is canonical and within the executable range.
    #[verifier::type_invariant]
    spec fn valid(self) -> bool {
        rat_wf(self@)
    }

    /// Canonicalise `n / d` with 128-bit intermediates.
    fn from_i128(n: i128, d: i128) -> (r: Fraction)
        requires
            d != 0,
            -(i128::MAX as int) <= n as int,
            -(i128::MAX as int) <= d as int,
            rat_in_range(norm_frac(n as int, d as int)),
        ensures
            r@ == norm_frac(n as int, d as int),
    {
        let neg: bool = (n < 0) != (d < 0);
        let na: i128 = if n < 0 { -n } else { n };
        let da: i128 = if d < 0 { -d } else { d };
        if na == 0 {
            proof {
                lemma_gcd_one(0);
            }
            Fraction { num: 0, den: 1 }
        } else {
            proof {
                assert(na as nat == nabs(n as int));
                assert(da as nat == nabs(d as int));
            }
            let g: u128 = gcd_u128(na as u128, da as u128);
            proof {
                lemma_gcd_divides(na as nat, da as nat);
                lemma_gcd_div_coprime(na as nat, da as nat);
                lemma_divisor_quotient_pos(na as nat, g as nat);
                lemma_divisor_quotient_pos(da as nat, g as nat);
            }
            let nm: u128 = (na as u128) / g;
            let dm: u128 = (da as u128) / g;
            let num: i64 = if neg {
                -(nm as i64)
            } else {
                nm as i64
            };
            let den: i64 = dm as i64;
            proof {
                lemma_gcd_one(nm as nat);
            }
            Fraction { num, den }
        }
    }

    /// The canonical fraction `numerator / denominator`.
    pub fn new(numerator: i64, denominator: i64) -> (r: Fraction)
        requires
            denominator != 0,
            rat_in_range(norm_frac(numerator as int, denominator as int)),
        ensures
            r@ == norm_frac(numerator as int, denominator as int),
    {
        Fraction::from_i128(numerator as i128, denominator as i128)
    }

    /// The fraction equal to a whole number.
    pub fn from_int(value: i64) -> (r: Fraction)
        requires
            -frac_limit() <= value as int,
        ensures
            r@ == rat_of_int(value as int),
    {
        proof {
            lemma_gcd_one(nabs(value as int));
            assert(nabs(1) == 1);
            assert(nabs(value as int) / 1 == nabs(value as int));
            if value < 0 {
                assert(norm_frac(value as int, 1) == rat_of_int(value as int));
            } else {
                assert(norm_frac(value as int, 1) == rat_of_int(value as int));
            }
        }
        Fraction::from_i128(value as i128, 1)
    }

    /// Zero.
    pub fn zero() -> (r: Fraction)
        ensures
            r@ == rat_zero(),
    {
        proof {
            lemma_gcd_one(0);
        }
        Fraction { num: 0, den: 1 }
    }

    /// One.
    pub fn one() -> (r: Fraction)
        ensures
            r@ == rat_one(),
    {
        proof {
            lemma_gcd_one(1);
        }
        Fraction { num: 1, den: 1 }
    }

    /// The (reduced) numerator.
    pub fn numerator(&self) -> (r: i64)
        ensures
            r as int == self@.n,
    {
        self.num
    }

    /// The (strictly positive, reduced) denominator.
    pub fn denominator(&self) -> (r: i64)
        ensures
            r as int == self@.d,
    {
        self.den
    }

    /// Whether this fraction is zero.
    pub fn is_zero(&self) -> (r: bool)
        ensures
            r <==> self@.n == 0,
    {
        self.num == 0
    }

    /// Every fraction value is canonical and within the executable range;
    /// this makes that fact available about the model.
    pub fn canonical_witness(&self)
        ensures
            rat_wf(self@),
    {
        proof {
            use_type_invariant(self);
        }
    }

    /// Exact sum.
    pub fn add(&self, other: &Fraction) -> (r: Fraction)
        requires
            rat_in_range(rat_add(self@, other@)),
        ensures
            r@ == rat_add(self@, other@),
    {
        proof {
            use_type_invariant(self);
            use_type_invariant(other);
            lemma_abs_mul_bound(self@.n, other@.d, frac_limit(), frac_limit());
            lemma_abs_mul_bound(other@.n, self@.d, frac_limit(), frac_limit());
            lemma_abs_mul_bound(self@.d, other@.d, frac_limit(), frac_limit());
            assert(self@.d * other@.d >= 1) by (nonlinear_arith)
                requires
                    self@.d >= 1,
                    other@.d >= 1,
            {
            }
        }
        let n: i128 = (self.num as i128) * (other.den as i128)
            + (other.num as i128) * (self.den as i128);
        let d: i128 = (self.den as i128) * (other.den as i128);
        Fraction::from_i128(n, d)
    }

    /// Exact difference.
    pub fn sub(&self, other: &Fraction) -> (r: Fraction)
        requires
            rat_in_range(rat_sub(self@, other@)),
        ensures
            r@ == rat_sub(self@, other@),
    {
        proof {
            use_type_invariant(self);
            use_type_invariant(other);
            lemma_abs_mul_bound(self@.n, other@.d, frac_limit(), frac_limit());
            lemma_abs_mul_bound(other@.n, self@.d, frac_limit(), frac_limit());
            lemma_abs_mul_bound(self@.d, other@.d, frac_limit(), frac_limit());
            assert(self@.d * other@.d >= 1) by (nonlinear_arith)
                requires
                    self@.d >= 1,
                    other@.d >= 1,
            {
            }
        }
        let n: i128 = (self.num as i128) * (other.den as i128)
            - (other.num as i128) * (self.den as i128);
        let d: i128 = (self.den as i128) * (other.den as i128);
        Fraction::from_i128(n, d)
    }

    /// Exact product.
    pub fn mul(&self, other: &Fraction) -> (r: Fraction)
        requires
            rat_in_range(rat_mul(self@, other@)),
        ensures
            r@ == rat_mul(self@, other@),
    {
        proof {
            use_type_invariant(self);
            use_type_invariant(other);
            lemma_abs_mul_bound(self@.n, other@.n, frac_limit(), frac_limit());
            lemma_abs_mul_bound(self@.d, other@.d, frac_limit(), frac_limit());
            assert(self@.d * other@.d >= 1) by (nonlinear_arith)
                requires
                    self@.d >= 1,
                    other@.d >= 1,
            {
            }
        }
        let n: i128 = (self.num as i128) * (other.num as i128);
        let d: i128 = (self.den as i128) * (other.den as i128);
        Fraction::from_i128(n, d)
    }

    /// Exact quotient; the divisor must be nonzero.
    pub fn div(&self, other: &Fraction) -> (r: Fraction)
        requires
            other@.n != 0,
            rat_in_range(rat_div(self@, other@)),
        ensures
            r@ == rat_div(self@, other@),
    {
        proof {
            use_type_invariant(self);
            use_type_invariant(other);
            lemma_abs_mul_bound(self@.n, other@.d, frac_limit(), frac_limit());
            lemma_abs_mul_bound(self@.d, other@.n, frac_limit(), frac_limit());
            assert(self@.d * other@.n != 0) by (nonlinear_arith)
                requires
                    self@.d >= 1,
                    other@.n != 0,
            {
            }
        }
        let n: i128 = (self.num as i128) * (other.den as i128);
        let d: i128 = (self.den as i128) * (other.num as i128);
        Fraction::from_i128(n, d)
    }

    /// Exact negation; always defined.
    pub fn neg(&self) -> (r: Fraction)
        ensures
            r@ == rat_neg(self@),
    {
        proof {
            use_type_invariant(self);
            assert(nabs(-self@.n) == nabs(self@.n));
        }
        Fraction { num: -self.num, den: self.den }
    }

    /// Strict order on exact values, by cross-multiplication.
    pub fn lt(&self, other: &Fraction) -> (r: bool)
        ensures
            r <==> self@.n * other@.d < other@.n * self@.d,
    {
        proof {
            use_type_invariant(self);
            use_type_invariant(other);
            lemma_abs_mul_bound(self@.n, other@.d, frac_limit(), frac_limit());
            lemma_abs_mul_bound(other@.n, self@.d, frac_limit(), frac_limit());
        }
        (self.num as i128) * (other.den as i128) < (other.num as i128) * (self.den as i128)
    }
}

/// Two fractions are equal exactly when their models are: the view exposes
/// the components, so equality of values and of models coincide.
pub proof fn lemma_frac_eq_view(a: Fraction, b: Fraction)
    ensures
        (a@ == b@) <==> a == b,
{
}

/// Normalisation always yields a canonical pair.
pub proof fn lemma_norm_canonical(n: int, d: int)
    requires
        d != 0,
    ensures
        rat_canonical(norm_frac(n, d)),
{
    let na: nat = nabs(n);
    let da: nat = nabs(d);
    if na == 0 {
        lemma_gcd_one(0);
    } else {
        let g: nat = gcd(na, da);
        lemma_gcd_divides(na, da);
        lemma_gcd_div_coprime(na, da);
        lemma_divisor_quotient_pos(na, g);
        lemma_divisor_quotient_pos(da, g);
        assert(nabs(norm_frac(n, d).n) == na / g);
        assert(nabs(norm_frac(n, d).d) == da / g);
    }
}

/// Normalisation preserves the represented value:
/// `norm(n, d) == p/q` with `p*d == n*q`.
pub proof fn lemma_norm_value(n: int, d: int)
    requires
        d != 0,
    ensures
        norm_frac(n, d).n * d == n * norm_frac(n, d).d,
{
    let na: nat = nabs(n);
    let da: nat = nabs(d);
    if na == 0 {
    } else {
        let g: nat = gcd(na, da);
        lemma_gcd_divides(na, da);
        lemma_fundamental_div_mod(na as int, g as int);
        lemma_fundamental_div_mod(da as int, g as int);
        let p: int = (na / g) as int;
        let q: int = (da / g) as int;
        assert(p * da as int == na as int * q) by (nonlinear_arith)
            requires
                na as int == g as int * p,
                da as int == g as int * q,
        {
        }
        let r = norm_frac(n, d);
        if n > 0 && d > 0 {
            assert(r.n * d == n * r.d);
        } else if n > 0 && d < 0 {
            assert(r.n == -p && r.d == q && n == na as int && d == -(da as int));
            assert((-p) * d == n * q) by (nonlinear_arith)
                requires
                    p * da as int == na as int * q,
                    n == na as int,
                    d == -(da as int),
            {
            }
        } else if n < 0 && d > 0 {
            assert(r.n == -p && r.d == q && n == -(na as int) && d == da as int);
            assert((-p) * d == n * q) by (nonlinear_arith)
                requires
                    p * da as int == na as int * q,
                    n == -(na as int),
                    d == da as int,
            {
            }
        } else {
            assert(r.n == p && r.d == q && n == -(na as int) && d == -(da as int));
            assert(p * d == n * q) by (nonlinear_arith)
                requires
                    p * da as int == na as int * q,
                    n == -(na as int),
                    d == -(da as int),
            {
            }
        }
    }
}

/// Negating both components does not change the normal form.
pub proof fn lemma_norm_neg_both(n: int, d: int)
    requires
        d != 0,
    ensures
        norm_frac(-n, -d) == norm_frac(n, d),
{
    assert(nabs(-n) == nabs(n));
    assert(nabs(-d) == nabs(d));
    if n != 0 {
        assert((((-n) < 0) != ((-d) < 0)) == ((n < 0) != (d < 0)));
    }
}

/// A common nonzero factor of both components does not change the normal
/// form.
pub proof fn lemma_norm_scale(k: int, n: int, d: int)
    requires
        k != 0,
        d != 0,
    ensures
        norm_frac(k * n, k * d) == norm_frac(n, d),
{
    if k < 0 {
        assert(k * d != 0) by (nonlinear_arith)
            requires
                k != 0,
                d != 0,
        {
        }
        lemma_norm_neg_both(k * n, k * d);
        assert(-(k * n) == (-k) * n) by (nonlinear_arith);
        assert(-(k * d) == (-k) * d) by (nonlinear_arith);
        lemma_norm_scale_pos(-k, n, d);
        assert(norm_frac(k * n, k * d) == norm_frac(-(k * n), -(k * d)));
        assert(norm_frac(-(k * n), -(k * d)) == norm_frac((-k) * n, (-k) * d));
        assert(norm_frac((-k) * n, (-k) * d) == norm_frac(n, d));
    } else {
        lemma_norm_scale_pos(k, n, d);
    }
}

/// The positive-factor case of `lemma_norm_scale`.
proof fn lemma_norm_scale_pos(k: int, n: int, d: int)
    requires
        k > 0,
        d != 0,
    ensures
        norm_frac(k * n, k * d) == norm_frac(n, d),
{
    let na: nat = nabs(n);
    let da: nat = nabs(d);
    assert(nabs(k * n) == k as nat * na) by (nonlinear_arith)
        requires
            k > 0,
            na == nabs(n),
    {
    }
    assert(nabs(k * d) == k as nat * da) by (nonlinear_arith)
        requires
            k > 0,
            da == nabs(d),
    {
    }
    assert(((k * n) < 0) == (n < 0)) by (nonlinear_arith)
        requires
            k > 0,
    {
    }
    assert(((k * d) < 0) == (d < 0)) by (nonlinear_arith)
        requires
            k > 0,
    {
    }
    if na == 0 {
        assert(k * n == 0) by (nonlinear_arith)
            requires
                k > 0,
                n == 0,
        {
        }
    } else {
        let g: nat = gcd(na, da);
        lemma_gcd_divides(na, da);
        lemma_gcd_scale(k as nat, na, da);
        assert(gcd(k as nat * na, k as nat * da) == k as nat * g);
        lemma_fundamental_div_mod(na as int, g as int);
        lemma_fundamental_div_mod(da as int, g as int);
        let p: nat = na / g;
        let q: nat = da / g;
        assert(k as nat * na == (k as nat * g) * p) by (nonlinear_arith)
            requires
                na as int == g as int * p as int,
                k > 0,
        {
        }
        assert(k as nat * da == (k as nat * g) * q) by (nonlinear_arith)
            requires
                da as int == g as int * q as int,
                k > 0,
        {
        }
        assert(k as nat * g > 0) by (nonlinear_arith)
            requires
                k > 0,
                g > 0,
        {
        }
        lemma_div_multiples_vanish(p as int, (k as nat * g) as int);
        lemma_div_multiples_vanish(q as int, (k as nat * g) as int);
        assert((k as nat * na) / (k as nat * g) == p);
        assert((k as nat * da) / (k as nat * g) == q);
        assert(k as nat * na != 0) by (nonlinear_arith)
            requires
                k > 0,
                na != 0,
        {
        }
        assert(norm_frac(k * n, k * d).d == norm_frac(n, d).d);
        assert(norm_frac(k * n, k * d).n == norm_frac(n, d).n);
    }
}

/// Two quotients with the same cross product have the same normal form.
pub proof fn lemma_norm_respects(a: int, b: int, c: int, d: int)
    requires
        b != 0,
        d != 0,
        a * d == c * b,
    ensures
        norm_frac(a, b) == norm_frac(c, d),
{
    lemma_norm_scale(d, a, b);
    lemma_norm_scale(b, c, d);
    assert(d * a == c * b) by (nonlinear_arith)
        requires
            a * d == c * b,
    {
    }
    assert(b * c == c * b) by (nonlinear_arith);
    assert(d * b == b * d) by (nonlinear_arith);
    assert(norm_frac(d * a, d * b) == norm_frac(b * c, b * d));
}

/// A canonical pair is its own normal form.
pub proof fn lemma_norm_canonical_id(x: Rat)
    requires
        rat_canonical(x),
    ensures
        norm_frac(x.n, x.d) == x,
{
    let na: nat = nabs(x.n);
    let da: nat = nabs(x.d);
    if na == 0 {
        vstd::arithmetic::div_mod::lemma_small_mod(0, da);
        assert(gcd(0, da) == gcd(da, 0nat % da));
        assert(gcd(da, 0) == da);
    } else {
        assert(gcd(na, da) == 1);
        assert(na as int / 1 == na as int) by (nonlinear_arith);
        assert(da as int / 1 == da as int) by (nonlinear_arith);
    }
}

/// Adding zero changes nothing, on canonical values.
pub proof fn lemma_rat_add_zero(x: Rat)
    requires
        rat_canonical(x),
    ensures
        rat_add(x, rat_zero()) == x,
        rat_add(rat_zero(), x) == x,
{
    assert(x.n * 1 + 0 * x.d == x.n);
    assert(0 * x.d + x.n * 1 == x.n);
    assert(x.d * 1 == x.d);
    assert(1 * x.d == x.d);
    lemma_norm_canonical_id(x);
}

/// Multiplying by one changes nothing, on canonical values.
pub proof fn lemma_rat_mul_one(x: Rat)
    requires
        rat_canonical(x),
    ensures
        rat_mul(x, rat_one()) == x,
        rat_mul(rat_one(), x) == x,
{
    assert(x.n * 1 == x.n && 1 * x.n == x.n && x.d * 1 == x.d && 1 * x.d == x.d);
    lemma_norm_canonical_id(x);
}

/// Multiplying by zero gives zero.
pub proof fn lemma_rat_mul_zero(x: Rat)
    ensures
        rat_mul(x, rat_zero()) == rat_zero(),
        rat_mul(rat_zero(), x) == rat_zero(),
{
    assert(x.n * 0 == 0) by (nonlinear_arith);
    assert(0 * x.n == 0) by (nonlinear_arith);
    assert(nabs(0) == 0);
}

/// Subtraction undoes addition: `s + (x - s) == x`, on canonical values.
pub proof fn lemma_rat_add_sub_cancel(s: Rat, x: Rat)
    requires
        rat_canonical(s),
        rat_canonical(x),
    ensures
        rat_add(s, rat_sub(x, s)) == x,
{
    let t = rat_sub(x, s);
    let an: int = x.n * s.d - s.n * x.d;
    let ad: int = x.d * s.d;
    assert(ad != 0) by (nonlinear_arith)
        requires
            ad == x.d * s.d,
            x.d >= 1,
            s.d >= 1,
    {
    }
    lemma_norm_value(an, ad);
    lemma_norm_canonical(an, ad);
    assert(t.n * ad == an * t.d);
    assert(t.d >= 1);
    let rn: int = s.n * t.d + t.n * s.d;
    let rd: int = s.d * t.d;
    assert(rd != 0) by (nonlinear_arith)
        requires
            rd == s.d * t.d,
            s.d >= 1,
            t.d >= 1,
    {
    }
    assert(rn * x.d == x.n * rd) by (nonlinear_arith)
        requires
            t.n * ad == an * t.d,
            an == x.n * s.d - s.n * x.d,
            ad == x.d * s.d,
            rn == s.n * t.d + t.n * s.d,
            rd == s.d * t.d,
            x.d >= 1,
            s.d >= 1,
            t.d >= 1,
    {
    }
    lemma_norm_respects(rn, rd, x.n, x.d);
    lemma_norm_canonical_id(x);
}

/// Multiplication undoes division: `(x / y) * y == x`, on canonical
/// values with `y` nonzero.
pub proof fn lemma_rat_div_mul_cancel(x: Rat, y: Rat)
    requires
        rat_canonical(x),
        rat_canonical(y),
        y.n != 0,
    ensures
        rat_mul(rat_div(x, y), y) == x,
{
    let t = rat_div(x, y);
    let an: int = x.n * y.d;
    let ad: int = x.d * y.n;
    assert(ad != 0) by (nonlinear_arith)
        requires
            ad == x.d * y.n,
            x.d >= 1,
            y.n != 0,
    {
    }
    lemma_norm_value(an, ad);
    lemma_norm_canonical(an, ad);
    assert(t.n * ad == an * t.d);
    let rn: int = t.n * y.n;
    let rd: int = t.d * y.d;
    assert(rd != 0) by (nonlinear_arith)
        requires
            rd == t.d * y.d,
            t.d >= 1,
            y.d >= 1,
    {
    }
    assert(rn * x.d == x.n * rd) by (nonlinear_arith)
        requires
            t.n * ad == an * t.d,
            an == x.n * y.d,
            ad == x.d * y.n,
            rn == t.n * y.n,
            rd == t.d * y.d,
            x.d >= 1,
            y.d >= 1,
            t.d >= 1,
            y.n != 0,
    {
    }
    lemma_norm_respects(rn, rd, x.n, x.d);
    lemma_norm_canonical_id(x);
}

/// Addition cancels: if `s + x == v` then `x == v - s`, on canonical
/// values.
pub proof fn lemma_rat_add_cancel(s: Rat, x: Rat, v: Rat)
    requires
        rat_canonical(s),
        rat_canonical(x),
        rat_canonical(v),
        rat_add(s, x) == v,
    ensures
        x == rat_sub(v, s),
{
    assert(s.d * x.d != 0) by (nonlinear_arith)
        requires
            s.d >= 1,
            x.d >= 1,
    {
    }
    assert(v.d * s.d != 0) by (nonlinear_arith)
        requires
            v.d >= 1,
            s.d >= 1,
    {
    }
    lemma_norm_value(s.n * x.d + x.n * s.d, s.d * x.d);
    assert(v.n * (s.d * x.d) == (v.n * s.d) * x.d) by (nonlinear_arith);
    assert((s.n * x.d + x.n * s.d) * v.d == (s.n * v.d) * x.d + x.n * (v.d * s.d))
        by (nonlinear_arith);
    assert((v.n * s.d - s.n * v.d) * x.d == (v.n * s.d) * x.d - (s.n * v.d) * x.d)
        by (nonlinear_arith);
    assert((v.n * s.d - s.n * v.d) * x.d == x.n * (v.d * s.d));
    lemma_norm_respects(v.n * s.d - s.n * v.d, v.d * s.d, x.n, x.d);
    lemma_norm_canonical_id(x);
}

/// Multiplication cancels: if `x * p == v` with `p` nonzero then
/// `x == v / p`, on canonical values.
pub proof fn lemma_rat_mul_cancel(x: Rat, p: Rat, v: Rat)
    requires
        rat_canonical(x),
        rat_canonical(p),
        rat_canonical(v),
        p.n != 0,
        rat_mul(x, p) == v,
    ensures
        x == rat_div(v, p),
{
    assert(x.d * p.d != 0) by (nonlinear_arith)
        requires
            x.d >= 1,
            p.d >= 1,
    {
    }
    assert(v.d * p.n != 0) by (nonlinear_arith)
        requires
            v.d >= 1,
            p.n != 0,
    {
    }
    lemma_norm_value(x.n * p.n, x.d * p.d);
    assert(v.n * (x.d * p.d) == (v.n * p.d) * x.d) by (nonlinear_arith);
    assert((x.n * p.n) * v.d == x.n * (v.d * p.n)) by (nonlinear_arith);
    assert((v.n * p.d) * x.d == x.n * (v.d * p.n));
    lemma_norm_respects(v.n * p.d, v.d * p.n, x.n, x.d);
    lemma_norm_canonical_id(x);
}

/// The arithmetic operations return canonical values whenever their
/// operands have nonzero denominators (and, for division, a nonzero
/// divisor).
pub proof fn lemma_rat_ops_canonical(a: Rat, b: Rat)
    requires
        a.d != 0,
        b.d != 0,
    ensures
        rat_canonical(rat_add(a, b)),
        rat_canonical(rat_sub(a, b)),
        rat_canonical(rat_mul(a, b)),
        b.n != 0 ==> rat_canonical(rat_div(a, b)),
        rat_canonical(rat_zero()),
        rat_canonical(rat_one()),
{
    assert(a.d * b.d != 0) by (nonlinear_arith)
        requires
            a.d != 0,
            b.d != 0,
    {
    }
    lemma_norm_canonical(a.n * b.d + b.n * a.d, a.d * b.d);
    lemma_norm_canonical(a.n * b.d - b.n * a.d, a.d * b.d);
    lemma_norm_canonical(a.n * b.n, a.d * b.d);
    if b.n != 0 {
        assert(a.d * b.n != 0) by (nonlinear_arith)
            requires
                a.d != 0,
                b.n != 0,
        {
        }
        lemma_norm_canonical(a.n * b.d, a.d * b.n);
    }
    lemma_gcd_one(0);
    lemma_gcd_one(1);
}

/// Rational addition is commutative.
pub proof fn lemma_rat_add_comm(a: Rat, b: Rat)
    ensures
        rat_add(a, b) == rat_add(b, a),
{
    assert(a.n * b.d + b.n * a.d == b.n * a.d + a.n * b.d);
    assert(a.d * b.d == b.d * a.d) by (nonlinear_arith);
}

/// Rational multiplication is commutative.
pub proof fn lemma_rat_mul_comm(a: Rat, b: Rat)
    ensures
        rat_mul(a, b) == rat_mul(b, a),
{
    assert(a.n * b.n == b.n * a.n) by (nonlinear_arith);
    assert(a.d * b.d == b.d * a.d) by (nonlinear_arith);
}

} // verus!
