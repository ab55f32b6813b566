//! Exact fractions: the factor of an affine intensity map is kept as a
//! fraction in lowest terms, so that a fit and its application are computed
//! exactly and rounded once, at the end.

use vstd::arithmetic::div_mod::*;
use vstd::arithmetic::mul::*;
use vstd::prelude::*;

verus! {

/// The magnitude of `v`.
pub open spec fn magnitude(v: int) -> int {
    if v < 0 {
        -v
    } else {
        v
    }
}

/// The greatest common divisor of `a` and `b`, neither of them negative,
/// with `gcd(0, 0) == 0`.
pub open spec fn gcd(a: int, b: int) -> int
    decreases b,
{
    if b <= 0 {
        a
    } else {
        gcd(b, a % b)
    }
}

/// `d` divides `v`.
pub open spec fn divides(d: int, v: int) -> bool {
    d > 0 && v % d == 0
}

/// A divisor of `a` and of `b` divides `a % b`; a divisor of `b` and of
/// `a % b` divides `a`.
proof fn lemma_divides_step(d: int, a: int, b: int)
    requires
        a >= 0,
        b > 0,
        d > 0,
    ensures
        (divides(d, a) && divides(d, b)) <==> (divides(d, b) && divides(d, a % b)),
{
    let q = a / b;
    let r = a % b;
    lemma_fundamental_div_mod(a, b);
    if divides(d, b) {
        let kb = b / d;
        lemma_fundamental_div_mod(b, d);
        assert(b == d * kb);
        assert(b * q == d * (kb * q)) by (nonlinear_arith)
            requires
                b == d * kb,
        ;
        if divides(d, a) {
            let ka = a / d;
            lemma_fundamental_div_mod(a, d);
            assert(r == d * (ka - kb * q)) by (nonlinear_arith)
                requires
                    a == b * q + r,
                    a == d * ka,
                    b * q == d * (kb * q),
            ;
            lemma_mod_multiples_basic(ka - kb * q, d);
            assert(d * (ka - kb * q) == (ka - kb * q) * d) by (nonlinear_arith);
        }
        if divides(d, r) {
            let kr = r / d;
            lemma_fundamental_div_mod(r, d);
            assert(a == d * (kb * q + kr)) by (nonlinear_arith)
                requires
                    a == b * q + r,
                    r == d * kr,
                    b * q == d * (kb * q),
            ;
            lemma_mod_multiples_basic(kb * q + kr, d);
            assert(d * (kb * q + kr) == (kb * q + kr) * d) by (nonlinear_arith);
        }
    }
}

/// The greatest common divisor divides both numbers, and every common
/// divisor divides it.
pub proof fn lemma_gcd_is_greatest(a: int, b: int)
    requires
        a >= 0,
        b >= 0,
        a > 0 || b > 0,
    ensures
        gcd(a, b) > 0,
        divides(gcd(a, b), a),
        divides(gcd(a, b), b),
        forall|d: int| divides(d, a) && divides(d, b) ==> #[trigger] divides(d, gcd(a, b)),
    decreases b,
{
    if b == 0 {
        lemma_mod_self_0(a);
        assert(0int % a == 0) by {
            lemma_small_mod(0, a as nat);
        }
    } else {
        lemma_mod_bound(a, b);
        lemma_gcd_is_greatest(b, a % b);
        let g = gcd(a, b);
        lemma_divides_step(g, a, b);
        assert forall|d: int| divides(d, a) && divides(d, b) implies #[trigger] divides(d, g) by {
            lemma_divides_step(d, a, b);
        }
    }
}

/// After both numbers are divided by their greatest common divisor, no
/// divisor above one is common to them.
pub proof fn lemma_gcd_of_quotients(a: int, b: int)
    requires
        a >= 0,
        b > 0,
    ensures
        gcd(a / gcd(a, b), b / gcd(a, b)) == 1,
{
    let g = gcd(a, b);
    lemma_gcd_is_greatest(a, b);
    let a1 = a / g;
    let b1 = b / g;
    lemma_fundamental_div_mod(a, g);
    lemma_fundamental_div_mod(b, g);
    assert(a == g * a1);
    assert(a1 >= 0) by (nonlinear_arith)
        requires
            a == g * a1,
            a >= 0,
            g > 0,
    ;
    assert(b == g * b1);
    assert(b1 > 0) by (nonlinear_arith)
        requires
            b == g * b1,
            b > 0,
            g > 0,
    ;
    lemma_gcd_is_greatest(a1, b1);
    let d = gcd(a1, b1);
    let ka = a1 / d;
    let kb = b1 / d;
    lemma_fundamental_div_mod(a1, d);
    lemma_fundamental_div_mod(b1, d);
    let dg = d * g;
    assert(dg > 0) by (nonlinear_arith)
        requires
            dg == d * g,
            d > 0,
            g > 0,
    ;
    assert(a == ka * dg) by (nonlinear_arith)
        requires
            a == g * a1,
            a1 == d * ka,
            dg == d * g,
    ;
    assert(b == kb * dg) by (nonlinear_arith)
        requires
            b == g * b1,
            b1 == d * kb,
            dg == d * g,
    ;
    lemma_mod_multiples_basic(ka, dg);
    lemma_mod_multiples_basic(kb, dg);
    assert(divides(dg, a) && divides(dg, b));
    assert(divides(dg, g));
    let k = g / dg;
    lemma_fundamental_div_mod(g, dg);
    assert(d == 1) by (nonlinear_arith)
        requires
            g == dg * k,
            dg == d * g,
            g > 0,
            d > 0,
    ;
}

/// The greatest common divisor, by Euclid's algorithm.
pub fn gcd_u128(a: u128, b: u128) -> (g: u128)
    ensures
        g == gcd(a as int, b as int),
{
    let mut x: u128 = a;
    let mut y: u128 = b;
    while y != 0
        invariant
            gcd(x as int, y as int) == gcd(a as int, b as int),
        decreases y,
    {
        let r: u128 = x % y;
        x = y;
        y = r;
    }
    x
}

/// The numerator of `num / den` in lowest terms with a positive denominator.
pub open spec fn reduced_num(num: int, den: int) -> int {
    let g = gcd(magnitude(num), magnitude(den));
    if (num < 0) == (den < 0) {
        magnitude(num) / g
    } else {
        -(magnitude(num) / g)
    }
}

/// The denominator of `num / den` in lowest terms, which is positive.
pub open spec fn reduced_den(num: int, den: int) -> int {
    magnitude(den) / gcd(magnitude(num), magnitude(den))
}

/// `num / den` rounded to the nearest integer, a tie going away from zero.
pub open spec fn round_half_away(num: int, den: int) -> int {
    let n = magnitude(num);
    let d = magnitude(den);
    let q = (2 * n + d) / (2 * d);
    if (num < 0) == (den < 0) {
        q
    } else {
        -q
    }
}

/// `num / den` rounded to the nearest integer, a tie going toward zero.
pub open spec fn round_half_inward(num: int, den: int) -> int {
    let n = magnitude(num);
    let d = magnitude(den);
    let q = (2 * n + d - 1) / (2 * d);
    if (num < 0) == (den < 0) {
        q
    } else {
        -q
    }
}

/// Rounding a quotient by a positive number keeps the sign, and a whole
/// number is its own rounding.
pub proof fn lemma_round_half_inward(num: int, den: int)
    requires
        den > 0,
    ensures
        num <= 0 ==> round_half_inward(num, den) <= 0,
        num > 0 ==> round_half_inward(num, den) == (2 * num + den - 1) / (2 * den),
        num > 0 ==> round_half_inward(num, den) >= 0,
        round_half_inward(num, 1) == num,
{
    let n = magnitude(num);
    lemma_div_pos_is_pos(2 * n + den - 1, 2 * den);
    if num == 0 {
        lemma_basic_div(den - 1, 2 * den);
    }
    assert(magnitude(1) == 1);
    assert((2 * n + 1 - 1) / 2 == n);
}

/// `v`, or the nearest bound where it is outside `lo ..= hi`.
pub open spec fn clamp(v: int, lo: int, hi: int) -> int {
    if v < lo {
        lo
    } else if v > hi {
        hi
    } else {
        v
    }
}

/// In lowest terms the denominator stays positive, and neither term grows.
pub proof fn lemma_reduced_den_positive(num: int, den: int)
    requires
        den != 0,
    ensures
        reduced_den(num, den) > 0,
        reduced_den(num, den) <= magnitude(den),
        magnitude(reduced_num(num, den)) <= magnitude(num),
{
    let n = magnitude(num);
    let d = magnitude(den);
    let g = gcd(n, d);
    lemma_gcd_is_greatest(n, d);
    lemma_fundamental_div_mod(n, g);
    lemma_fundamental_div_mod(d, g);
    assert(d / g > 0 && d / g <= d) by (nonlinear_arith)
        requires
            d == g * (d / g),
            d > 0,
            g > 0,
    ;
    assert(0 <= n / g <= n) by (nonlinear_arith)
        requires
            n == g * (n / g),
            n >= 0,
            g > 0,
    ;
}

/// Numerator and denominator of `num / den` in lowest terms, the
/// denominator positive.
pub fn lowest_terms(num: i128, den: i128) -> (r: (i128, i128))
    requires
        i128::MIN < num,
        i128::MIN < den,
        den != 0,
    ensures
        r.0 == reduced_num(num as int, den as int),
        r.1 == reduced_den(num as int, den as int),
        r.1 > 0,
        gcd(magnitude(r.0 as int), r.1 as int) == 1,
{
    let n: u128 = if num < 0 {
        (-num) as u128
    } else {
        num as u128
    };
    let d: u128 = if den < 0 {
        (-den) as u128
    } else {
        den as u128
    };
    let g: u128 = gcd_u128(n, d);
    proof {
        lemma_gcd_is_greatest(n as int, d as int);
        lemma_gcd_of_quotients(n as int, d as int);
        lemma_reduced_den_positive(num as int, den as int);
    }
    let n1: i128 = (n / g) as i128;
    let d1: i128 = (d / g) as i128;
    if (num < 0) == (den < 0) {
        (n1, d1)
    } else {
        (-n1, d1)
    }
}

/// The magnitude of a product is the product of the magnitudes, and the
/// product with a number that is not zero has the sign of that number
/// where the other factor is positive.
pub proof fn lemma_magnitude_of_product(k: int, d: int)
    requires
        d != 0,
    ensures
        magnitude(k * d) == magnitude(k) * magnitude(d),
        k > 0 ==> ((k * d < 0) == (d < 0)),
        k < 0 ==> ((k * d < 0) != (d < 0)),
        k == 0 ==> k * d == 0,
{
    let m = magnitude(k);
    let e = magnitude(d);
    if k >= 0 && d > 0 {
        assert(k * d == m * e && (k > 0 ==> k * d > 0) && (k == 0 ==> k * d == 0))
            by (nonlinear_arith)
            requires
                m == k,
                e == d,
                k >= 0,
                d > 0,
        ;
    } else if k >= 0 && d < 0 {
        assert(k * d == -(m * e) && (k > 0 ==> k * d < 0) && (k == 0 ==> k * d == 0) && m * e >= 0)
            by (nonlinear_arith)
            requires
                m == k,
                e == -d,
                k >= 0,
                d < 0,
        ;
    } else if k < 0 && d > 0 {
        assert(k * d == -(m * e) && k * d < 0) by (nonlinear_arith)
            requires
                m == -k,
                e == d,
                k < 0,
                d > 0,
        ;
    } else {
        assert(k * d == m * e && k * d > 0) by (nonlinear_arith)
            requires
                m == -k,
                e == -d,
                k < 0,
                d < 0,
        ;
    }
}

/// In lowest terms `(k * d) / d` is `k / 1`.
pub proof fn lemma_terms_of_multiple(k: int, d: int)
    requires
        d != 0,
    ensures
        reduced_num(k * d, d) == k,
        reduced_den(k * d, d) == 1,
        reduced_num(k, 1) == k,
        reduced_den(k, 1) == 1,
{
    let m = magnitude(k);
    let e = magnitude(d);
    lemma_magnitude_of_product(k, d);
    // gcd(m * e, e) == e and gcd(m, 1) == 1
    lemma_mod_multiples_basic(m, e);
    assert(gcd(m * e, e) == gcd(e, (m * e) % e));
    assert(gcd(e, 0) == e);
    lemma_mod_multiples_basic(m, 1);
    assert(m * 1 == m);
    assert(m % 1 == 0);
    assert(gcd(m, 1) == gcd(1, m % 1));
    assert(gcd(1, 0) == 1);
    assert(gcd(m, 1) == 1);
    assert(1int / 1 == 1);
    assert(reduced_den(k, 1) == 1);
    lemma_div_multiples_vanish(m, e);
    assert(e * m == m * e) by (nonlinear_arith);
    lemma_div_by_self(e);
    lemma_div_basics(m);
    if k * d == 0 {
        assert(k == 0) by (nonlinear_arith)
            requires
                k * d == 0,
                d != 0,
        ;
    }
}

/// `(s * d) / d` rounds to the whole number `s`.
pub proof fn lemma_round_of_multiple(s: int, d: int)
    requires
        d != 0,
    ensures
        round_half_away(s * d, d) == s,
{
    let m = magnitude(s);
    let e = magnitude(d);
    lemma_magnitude_of_product(s, d);
    assert(2 * (m * e) + e == m * (2 * e) + e) by (nonlinear_arith);
    lemma_fundamental_div_mod_converse(2 * (m * e) + e, 2 * e, m, e);
    if s * d == 0 {
        assert(s == 0) by (nonlinear_arith)
            requires
                s * d == 0,
                d != 0,
        ;
    }
}

/// A fraction in lowest terms with a positive denominator.
#[derive(Clone, Copy, Debug, PartialEq, Eq)]
pub struct Ratio {
    num: i64,
    den: i64,
}

impl Ratio {
    #[verifier::type_invariant]
    spec fn lowest_terms(self) -> bool {
        self.den > 0 && gcd(magnitude(self.num as int), self.den as int) == 1
    }

    /// The numerator.
    pub closed spec fn numerator(self) -> int {
        self.num as int
    }

    /// The denominator.
    pub closed spec fn denominator(self) -> int {
        self.den as int
    }

    /// `num / den` in lowest terms, where `den` is not zero.
    pub closed spec fn of(num: int, den: int) -> Ratio {
        Ratio { num: reduced_num(num, den) as i64, den: reduced_den(num, den) as i64 }
    }

    /// `num / den` has a value of this type: `den` is not zero, and in
    /// lowest terms numerator and denominator fit 64 bits.
    pub open spec fn representable(num: int, den: int) -> bool {
        &&& den != 0
        &&& i64::MIN <= reduced_num(num, den) <= i64::MAX
        &&& reduced_den(num, den) <= i64::MAX
    }

    /// The terms of `Ratio::of(num, den)` are those of `num / den` in lowest
    /// terms.
    pub proof fn lemma_terms_of(num: int, den: int)
        requires
            Ratio::representable(num, den),
        ensures
            Ratio::of(num, den).numerator() == reduced_num(num, den),
            Ratio::of(num, den).denominator() == reduced_den(num, den),
            Ratio::of(num, den).denominator() > 0,
    {
        lemma_reduced_den_positive(num, den);
    }

    /// A factor common to both terms changes nothing: `(k * d) / d` is the
    /// whole number `k`.
    pub proof fn lemma_of_multiple(k: int, d: int)
        requires
            d != 0,
        ensures
            Ratio::of(k * d, d) == Ratio::of(k, 1),
            reduced_num(k, 1) == k,
            reduced_den(k, 1) == 1,
    {
        lemma_terms_of_multiple(k, d);
    }

    /// `num / den` in lowest terms, or `None` where it has no value of this
    /// type.
    pub fn new(num: i64, den: i64) -> (r: Option<Ratio>)
        ensures
            r is Some <==> Ratio::representable(num as int, den as int),
            r matches Some(q) ==> q == Ratio::of(num as int, den as int),
    {
        if den == 0 {
            return None;
        }
        let (n, d): (i128, i128) = lowest_terms(num as i128, den as i128);
        if n < -0x8000_0000_0000_0000 || n > 0x7fff_ffff_ffff_ffff || d > 0x7fff_ffff_ffff_ffff {
            return None;
        }
        Some(Ratio { num: n as i64, den: d as i64 })
    }

    /// `num / den` in lowest terms.
    pub fn reduce(num: i128, den: i128) -> (q: Ratio)
        requires
            i128::MIN < num,
            i128::MIN < den,
            Ratio::representable(num as int, den as int),
        ensures
            q == Ratio::of(num as int, den as int),
    {
        let (n, d): (i128, i128) = lowest_terms(num, den);
        Ratio { num: n as i64, den: d as i64 }
    }

    /// The numerator.
    pub fn num(&self) -> (n: i64)
        ensures
            n == self.numerator(),
    {
        self.num
    }

    /// The denominator, which is positive.
    pub fn den(&self) -> (d: i64)
        ensures
            d == self.denominator(),
            d > 0,
    {
        proof {
            use_type_invariant(self);
        }
        self.den
    }
}

/// `num / den` rounded to the nearest integer, a tie going away from zero.
pub fn round_half_away_i128(num: i128, den: i128) -> (q: i128)
    requires
        den != 0,
        -0x2000_0000_0000_0000_0000_0000_0000_0000 <= num <= 0x2000_0000_0000_0000_0000_0000_0000_0000,
        -0x2000_0000_0000_0000_0000_0000_0000_0000 <= den <= 0x2000_0000_0000_0000_0000_0000_0000_0000,
    ensures
        q == round_half_away(num as int, den as int),
{
    let n: u128 = if num < 0 {
        (-num) as u128
    } else {
        num as u128
    };
    let d: u128 = if den < 0 {
        (-den) as u128
    } else {
        den as u128
    };
    let q: u128 = (2 * n + d) / (2 * d);
    proof {
        lemma_div_is_ordered_by_denominator((2 * n + d) as int, 1, (2 * d) as int);
        lemma_div_basics((2 * n + d) as int);
    }
    if (num < 0) == (den < 0) {
        q as i128
    } else {
        -(q as i128)
    }
}

} // verus!
