//! Exact rational numbers: the portion of an item that is packed, and the
//! weight and profit that this portion carries.
//!
//! A [`Ratio`] is a pair of a numerator and a positive denominator in lowest
//! terms, so two ratios are equal exactly when their fields are. Reducing,
//! comparing and rounding down are done by the `fraction` crate.

use fraction::{Fraction, GenericFraction};
use vstd::arithmetic::div_mod::{
    lemma_div_multiples_vanish_quotient, lemma_fundamental_div_mod, lemma_mod_multiples_basic,
    lemma_small_mod, lemma_truncate_middle,
};
use vstd::prelude::*;

verus! {

/// The greatest common divisor of `a` and `b`, with `gcd(a, 0) == a`.
pub open spec fn gcd(a: nat, b: nat) -> nat
    decreases b,
{
    if b == 0 {
        a
    } else {
        gcd(b, a % b)
    }
}

/// The greatest common divisor of two numbers that are not both zero is
/// positive and divides both.
pub proof fn lemma_gcd_divides(a: nat, b: nat)
    requires
        a > 0 || b > 0,
    ensures
        gcd(a, b) > 0,
        a % gcd(a, b) == 0,
        b % gcd(a, b) == 0,
        a == (a / gcd(a, b)) * gcd(a, b),
        b == (b / gcd(a, b)) * gcd(a, b),
    decreases b,
{
    if b == 0 {
        lemma_mod_multiples_basic(1, a as int);
        lemma_fundamental_div_mod(a as int, a as int);
        lemma_fundamental_div_mod(0, a as int);
        assert(0int % (a as int) == 0) by {
            lemma_mod_multiples_basic(0, a as int);
        }
    } else {
        let r = a % b;
        let g = gcd(b, r);
        lemma_gcd_divides(b, r);
        lemma_fundamental_div_mod(a as int, b as int);
        let q = a / b;
        let kb = b / g;
        let kr = r / g;
        assert(a == (kb * q + kr) * g) by (nonlinear_arith)
            requires
                a == b * q + r,
                b == kb * g,
                r == kr * g,
        ;
        lemma_mod_multiples_basic((kb * q + kr) as int, g as int);
        lemma_fundamental_div_mod(a as int, g as int);
        assert(a == (a / g) * g) by (nonlinear_arith)
            requires
                a == g * (a / g) + a % g,
                a % g == 0,
        ;
    }
}

/// Every common divisor of two numbers divides their greatest common divisor.
pub proof fn lemma_gcd_is_greatest(a: nat, b: nat, c: nat)
    requires
        c > 0,
        a % c == 0,
        b % c == 0,
    ensures
        gcd(a, b) % c == 0,
    decreases b,
{
    if b > 0 {
        let q = a / b;
        let r = a % b;
        lemma_fundamental_div_mod(a as int, b as int);
        lemma_fundamental_div_mod(a as int, c as int);
        lemma_fundamental_div_mod(b as int, c as int);
        let x = a / c;
        let y = b / c;
        assert(r == (x - y * q) * c) by (nonlinear_arith)
            requires
                a == b * q + r,
                a == c * x,
                b == c * y,
        ;
        lemma_mod_multiples_basic(x - y * q, c as int);
        lemma_gcd_is_greatest(b, r, c);
    }
}

/// A fraction in lowest terms has parts without a common divisor.
pub proof fn lemma_reduced_is_coprime(numer: nat, denom: nat)
    requires
        denom > 0,
    ensures
        gcd(numer / gcd(numer, denom), denom / gcd(numer, denom)) == 1,
{
    let g = gcd(numer, denom);
    lemma_gcd_divides(numer, denom);
    lemma_reduced_same(numer, denom);
    let n = numer / g;
    let d = denom / g;
    let h = gcd(n, d);
    lemma_gcd_divides(n, d);
    let common = g * h;
    assert(common > 0 && common >= g) by (nonlinear_arith)
        requires
            common == g * h,
            g > 0,
            h > 0,
    ;
    assert(numer == (n / h) * common && denom == (d / h) * common) by (nonlinear_arith)
        requires
            numer == n * g,
            denom == d * g,
            n == (n / h) * h,
            d == (d / h) * h,
            common == g * h,
    ;
    lemma_mod_multiples_basic((n / h) as int, common as int);
    lemma_mod_multiples_basic((d / h) as int, common as int);
    lemma_gcd_is_greatest(numer, denom, common);
    if common > g {
        lemma_small_mod(g, common);
    }
    assert(h == 1) by (nonlinear_arith)
        requires
            common == g * h,
            common == g,
            g > 0,
    ;
}

/// Scaling two numbers scales their greatest common divisor.
pub proof fn lemma_gcd_scales(a: nat, b: nat, k: nat)
    requires
        k > 0,
    ensures
        gcd(k * a, k * b) == k * gcd(a, b),
    decreases b,
{
    if b == 0 {
        assert(k * b == 0) by (nonlinear_arith)
            requires
                b == 0,
        ;
    } else {
        assert(k * b > 0) by (nonlinear_arith)
            requires
                k > 0,
                b > 0,
        ;
        lemma_truncate_middle(a as int, k as int, b as int);
        lemma_gcd_scales(b, a % b, k);
    }
}

/// Two ratios in lowest terms that stand for the same number are equal.
pub proof fn lemma_reduced_ratios_are_unique(first: Ratio, second: Ratio)
    requires
        first.is_reduced(),
        second.is_reduced(),
        first@.same(second@),
    ensures
        first == second,
{
    let (a, b) = (first.numer as nat, first.denom as nat);
    let (c, d) = (second.numer as nat, second.denom as nat);
    lemma_gcd_scales(a, b, d);
    lemma_gcd_scales(c, d, b);
    assert(d * a == b * c && d * b == b * d) by (nonlinear_arith)
        requires
            a * d == c * b,
    ;
    assert(d * gcd(a, b) == d && b * gcd(c, d) == b) by (nonlinear_arith)
        requires
            gcd(a, b) == 1,
            gcd(c, d) == 1,
    ;
    assert(gcd(d * a, d * b) == gcd(b * c, b * d));
    assert(b == d);
    assert(a == c) by (nonlinear_arith)
        requires
            a * d == c * b,
            b == d,
            d > 0,
    ;
}

/// A mathematical rational number `num / den` with `den > 0`, for use in
/// contracts only. Different pairs may stand for the same number; `same` and
/// `le` compare the numbers.
pub ghost struct Rational {
    pub num: int,
    pub den: int,
}

impl Rational {
    /// The rational number equal to the integer `n`.
    pub open spec fn from_int(n: int) -> Rational {
        Rational { num: n, den: 1 }
    }

    /// The sum of two rational numbers.
    pub open spec fn plus(self, other: Rational) -> Rational {
        Rational { num: self.num * other.den + other.num * self.den, den: self.den * other.den }
    }

    /// The product of a rational number and an integer.
    pub open spec fn times(self, n: int) -> Rational {
        Rational { num: n * self.num, den: self.den }
    }

    /// Whether the two stand for the same number.
    pub open spec fn same(self, other: Rational) -> bool {
        self.num * other.den == other.num * self.den
    }

    /// Whether `self` is at most `other`.
    pub open spec fn le(self, other: Rational) -> bool {
        self.num * other.den <= other.num * self.den
    }

    /// The largest integer that is at most `self`.
    pub open spec fn floor(self) -> int {
        self.num / self.den
    }
}

/// An exact non-negative rational number in lowest terms.
#[derive(PartialEq, Eq, Structural, Clone, Copy, Debug)]
pub struct Ratio {
    /// The numerator.
    pub numer: u128,
    /// The denominator; never zero in a ratio made by this library.
    pub denom: u128,
}

impl View for Ratio {
    type V = Rational;

    open spec fn view(&self) -> Rational {
        Rational { num: self.numer as int, den: self.denom as int }
    }
}

impl Ratio {
    /// The ratio `numer / denom` in lowest terms.
    pub open spec fn reduced(numer: nat, denom: nat) -> Ratio {
        Ratio {
            numer: (numer / gcd(numer, denom)) as u128,
            denom: (denom / gcd(numer, denom)) as u128,
        }
    }

    /// Whether the denominator is positive, as it is in every ratio made by
    /// this library.
    pub open spec fn wf(self) -> bool {
        self.denom > 0
    }

    /// Whether the ratio is in lowest terms, as is every ratio made by this
    /// library: equal ratios then have equal fields.
    pub open spec fn is_reduced(self) -> bool {
        self.denom > 0 && gcd(self.numer as nat, self.denom as nat) == 1
    }

    /// The ratio `numer / denom` in lowest terms, or `None` where `denom` is
    /// zero.
    pub fn new(numer: u128, denom: u128) -> (ratio: Option<Ratio>)
        ensures
            denom == 0 ==> ratio is None,
            denom > 0 ==> ratio == Some(Ratio::reduced(numer as nat, denom as nat)),
            ratio matches Some(r) ==> r.is_reduced() && r@.same(
                Rational { num: numer as int, den: denom as int },
            ),
    {
        if denom == 0 {
            None
        } else {
            let (n, d) = lowest_terms(numer, denom);
            proof {
                lemma_reduced_same(numer as nat, denom as nat);
                lemma_reduced_is_coprime(numer as nat, denom as nat);
            }
            Some(Ratio { numer: n, denom: d })
        }
    }

    /// The ratio `n / 1`.
    pub fn from_integer(n: u128) -> (ratio: Ratio)
        ensures
            ratio == (Ratio { numer: n, denom: 1 }),
            ratio == Ratio::reduced(n as nat, 1),
            ratio.is_reduced(),
    {
        proof {
            assert(gcd(n as nat, 1) == 1) by {
                assert(gcd(1, (n as nat) % 1) == 1);
            }
        }
        Ratio { numer: n, denom: 1 }
    }
}

/// Reducing a fraction keeps its value, its denominator positive and both
/// parts no larger than before.
pub proof fn lemma_reduced_same(numer: nat, denom: nat)
    requires
        denom > 0,
    ensures
        gcd(numer, denom) > 0,
        0 <= numer / gcd(numer, denom) <= numer,
        0 < denom / gcd(numer, denom) <= denom,
        (numer / gcd(numer, denom)) * denom == numer * (denom / gcd(numer, denom)),
{
    let g = gcd(numer, denom);
    lemma_gcd_divides(numer, denom);
    let n = numer / g;
    let d = denom / g;
    assert(n * denom == numer * d) by (nonlinear_arith)
        requires
            numer == n * g,
            denom == d * g,
    ;
    assert(0 <= n <= numer && 0 < d <= denom) by (nonlinear_arith)
        requires
            numer == n * g,
            denom == d * g,
            g > 0,
            denom > 0,
            n >= 0,
            d >= 0,
    ;
}

/// Reducing a fraction keeps the integer it rounds down to.
pub proof fn lemma_reduced_floor(numer: nat, denom: nat)
    requires
        denom > 0,
    ensures
        (numer / gcd(numer, denom)) / (denom / gcd(numer, denom)) == numer / denom,
{
    let g = gcd(numer, denom);
    lemma_gcd_divides(numer, denom);
    lemma_reduced_same(numer, denom);
    let n = numer / g;
    let d = denom / g;
    lemma_div_multiples_vanish_quotient(g as int, n as int, d as int);
    assert(g * n == numer && g * d == denom) by (nonlinear_arith)
        requires
            numer == n * g,
            denom == d * g,
    ;
}

/// Rounds a ratio down to an integer.
pub fn fraction_to_u64(fraction: &Ratio) -> (floor: u64)
    requires
        fraction.wf(),
        fraction.numer / fraction.denom <= u64::MAX,
    ensures
        floor == fraction@.floor(),
{
    let floor = fraction_floor(fraction.numer, fraction.denom);
    floor as u64
}

/// `fraction::Fraction::new(numer_a, denom_a) < Fraction::new(numer_b, denom_b)`.
/// The crate builds both fractions in lowest terms and compares their values
/// exactly, without overflow; with positive denominators that is the
/// comparison of the cross products.
#[verifier::external_body]
pub(crate) fn fraction_less(numer_a: u64, denom_a: u64, numer_b: u64, denom_b: u64) -> (less: bool)
    requires
        denom_a > 0,
        denom_b > 0,
    ensures
        less == (numer_a * denom_b < numer_b * denom_a),
{
    Fraction::new(numer_a, denom_a) < Fraction::new(numer_b, denom_b)
}

/// The numerator and denominator that `fraction::GenericFraction::<u128>::new(numer, denom)`
/// holds. For a non-zero denominator the crate divides both parts by their
/// greatest common divisor.
#[verifier::external_body]
pub(crate) fn lowest_terms(numer: u128, denom: u128) -> (parts: (u128, u128))
    requires
        denom > 0,
    ensures
        parts.0 == numer as nat / gcd(numer as nat, denom as nat),
        parts.1 == denom as nat / gcd(numer as nat, denom as nat),
{
    let reduced = GenericFraction::<u128>::new(numer, denom);
    match (reduced.numer(), reduced.denom()) {
        (Some(n), Some(d)) => (*n, *d),
        _ => (numer, denom),
    }
}

/// What `fraction::GenericFraction::<u128>::new(numer, denom)` prints with
/// precision zero, read back as a number. The crate prints the digits of the
/// integral part of the quotient and drops the rest.
#[verifier::external_body]
pub(crate) fn fraction_floor(numer: u128, denom: u128) -> (floor: u128)
    requires
        denom > 0,
    ensures
        floor == numer / denom,
{
    format!("{:.0}", GenericFraction::<u128>::new(numer, denom)).parse().expect(
        "a fraction printed without decimals is a number",
    )
}

} // verus!
