//! Exact fractions: a numerator and a denominator in lowest terms.
use crate::error::Error;
use crate::math::{gcd_wide, magnitude_wide};
use crate::number_theory::{
    coprime, gcd_of, lemma_divisible_is_multiple, lemma_gcd_divides_both, lemma_gcd_positive,
    lemma_quotients_coprime, magnitude,
};
use core::cmp::Ordering;
use vstd::prelude::*;
use vstd::std_specs::cmp::PartialOrdSpecImpl;

verus! {

/// A fraction of unbounded integers: the mathematical value that a [`Ratio`]
/// stores, and what the arithmetic is stated over.
pub struct Fraction {
    pub num: int,
    pub den: int,
}

impl Fraction {
    /// The denominator is positive and shares no divisor with the numerator.
    pub open spec fn lowest_terms(self) -> bool {
        self.den > 0 && coprime(magnitude(self.num), self.den as nat)
    }

    /// Numerator and denominator are both within 32 signed bits.
    pub open spec fn fits(self) -> bool {
        i32::MIN <= self.num <= i32::MAX && i32::MIN <= self.den <= i32::MAX
    }

    /// `self < other` as numbers, by cross-multiplication. It orders the
    /// fractions whose denominators are positive.
    pub open spec fn less_than(self, other: Fraction) -> bool {
        self.num * other.den < other.num * self.den
    }

    /// `self` and `other` are the same number, by cross-multiplication.
    pub open spec fn same_value(self, other: Fraction) -> bool {
        self.num * other.den == other.num * self.den
    }

    /// The fraction `n / d`, for `d != 0`, in lowest terms with a positive
    /// denominator.
    pub open spec fn lowest_terms_of(n: int, d: int) -> Fraction {
        let g = gcd_of(magnitude(n), magnitude(d));
        Fraction {
            num: if (n < 0) != (d < 0) {
                -(magnitude(n) / g)
            } else {
                (magnitude(n) / g) as int
            },
            den: (magnitude(d) / g) as int,
        }
    }
}

/// Reducing keeps the value, and what it gives is in lowest terms.
pub proof fn lemma_lowest_terms_of(n: int, d: int)
    requires
        d != 0,
    ensures
        Fraction::lowest_terms_of(n, d).lowest_terms(),
        Fraction::lowest_terms_of(n, d).same_value(Fraction { num: n, den: d }),
        magnitude(Fraction::lowest_terms_of(n, d).num) <= magnitude(n),
        Fraction::lowest_terms_of(n, d).den <= magnitude(d),
        n > 0 && d > 0 ==> Fraction::lowest_terms_of(n, d).num > 0,
{
    let a = magnitude(n);
    let b = magnitude(d);
    let g = gcd_of(a, b);
    lemma_gcd_positive(a, b);
    lemma_gcd_divides_both(a, b);
    lemma_quotients_coprime(a, b);
    lemma_divisible_is_multiple(g as int, a as int);
    lemma_divisible_is_multiple(g as int, b as int);
    let p = a / g;
    let q = b / g;
    assert(q > 0 && p <= a && q <= b && (a > 0 ==> p > 0)) by (nonlinear_arith)
        requires
            a == g * p,
            b == g * q,
            g > 0,
            b > 0,
    ;
    let f = Fraction::lowest_terms_of(n, d);
    assert(f.num * d == n * f.den) by (nonlinear_arith)
        requires
            a == g * p,
            b == g * q,
            a == (if n < 0 { -n } else { n }),
            b == (if d < 0 { -d } else { d }),
            f.den == q,
            f.num == (if (n < 0) != (d < 0) { -(p as int) } else { p as int }),
    ;
}

/// A fraction already in lowest terms reduces to itself.
pub proof fn lemma_lowest_terms_fixed(f: Fraction)
    requires
        f.lowest_terms(),
    ensures
        Fraction::lowest_terms_of(f.num, f.den) == f,
{
    let a = magnitude(f.num);
    assert(a / 1 == a);
    assert(f.den as nat / 1 == f.den);
}

/// An exact fraction, kept in lowest terms with a positive denominator.
#[derive(Clone, Copy, Debug, PartialEq, Eq, Structural)]
pub struct Ratio {
    pub numerator: i32,
    pub denominator: i32,
}

impl View for Ratio {
    type V = Fraction;

    open spec fn view(&self) -> Fraction {
        Fraction { num: self.numerator as int, den: self.denominator as int }
    }
}

/// What making the fraction `n / d` gives: `InvalidFraction` for `d == 0`,
/// else the fraction in lowest terms, or `Overflow` where that does not fit.
pub open spec fn ratio_outcome(n: int, d: int) -> Result<Ratio, Error> {
    if d == 0 {
        Err(Error::InvalidFraction)
    } else if !Fraction::lowest_terms_of(n, d).fits() {
        Err(Error::Overflow)
    } else {
        Ok(
            Ratio {
                numerator: Fraction::lowest_terms_of(n, d).num as i32,
                denominator: Fraction::lowest_terms_of(n, d).den as i32,
            },
        )
    }
}

/// Brings `n / d` into lowest terms with a positive denominator.
pub fn reduce_wide(n: i64, d: i64) -> (r: (i64, i64))
    requires
        d != 0,
        n > i64::MIN,
        d > i64::MIN,
    ensures
        Fraction::lowest_terms_of(n as int, d as int) == (Fraction {
            num: r.0 as int,
            den: r.1 as int,
        }),
{
    let a = magnitude_wide(n);
    let b = magnitude_wide(d);
    let g = gcd_wide(a, b);
    proof {
        lemma_gcd_positive(a as nat, b as nat);
        lemma_lowest_terms_of(n as int, d as int);
    }
    let p = a / g;
    let q = b / g;
    let num = if (n < 0) != (d < 0) {
        -(p as i64)
    } else {
        p as i64
    };
    (num, q as i64)
}

/// Makes the stored fraction `n / d` from wide integers.
pub fn ratio_from_wide(n: i64, d: i64) -> (r: Result<Ratio, Error>)
    requires
        n > i64::MIN,
        d > i64::MIN,
    ensures
        r == ratio_outcome(n as int, d as int),
{
    if d == 0 {
        return Err(Error::InvalidFraction);
    }
    let (num, den) = reduce_wide(n, d);
    if num < -0x8000_0000 || num > 0x7fff_ffff || den > 0x7fff_ffff {
        proof {
            lemma_lowest_terms_of(n as int, d as int);
        }
        return Err(Error::Overflow);
    }
    proof {
        lemma_lowest_terms_of(n as int, d as int);
    }
    Ok(Ratio { numerator: num as i32, denominator: den as i32 })
}

/// What a fraction can be made from.
pub trait Rational {
    /// The numerator and the denominator that the value stands for, as given.
    spec fn parts(&self) -> (int, int);

    /// The fraction in lowest terms.
    fn to_ratio(&self) -> (r: Result<Ratio, Error>)
        ensures
            r == ratio_outcome(self.parts().0, self.parts().1),
    ;
}

impl Rational for (i32, i32) {
    open spec fn parts(&self) -> (int, int) {
        (self.0 as int, self.1 as int)
    }

    fn to_ratio(&self) -> (r: Result<Ratio, Error>) {
        ratio_from_wide(self.0 as i64, self.1 as i64)
    }
}

impl Ratio {
    /// The stored fraction is in lowest terms with a positive denominator.
    pub open spec fn wf(&self) -> bool {
        self@.lowest_terms()
    }

    /// Whether the stored fraction is in lowest terms with a positive
    /// denominator.
    pub fn is_valid(&self) -> (b: bool)
        ensures
            b == self.wf(),
    {
        self.denominator > 0 && gcd_wide(
            magnitude_wide(self.numerator as i64),
            self.denominator as u64,
        ) == 1
    }

    /// Makes a fraction: `InvalidFraction` where the denominator is zero,
    /// else the fraction in lowest terms with a positive denominator
    /// (`Overflow` where that is beyond 32 bits, as for `i32::MIN / -1`).
    pub fn new<T: Rational>(rational: T) -> (r: Result<Ratio, Error>)
        ensures
            r == ratio_outcome(rational.parts().0, rational.parts().1),
            r matches Ok(x) ==> x.wf(),
    {
        proof {
            if rational.parts().1 != 0 {
                lemma_lowest_terms_of(rational.parts().0, rational.parts().1);
            }
        }
        rational.to_ratio()
    }

    /// The product of two fractions, in lowest terms; `Overflow` where that
    /// is beyond 32 bits.
    pub fn multiply(self, rhs: Ratio) -> (r: Result<Ratio, Error>)
        ensures
            r == ratio_outcome(
                self.numerator * rhs.numerator,
                self.denominator * rhs.denominator,
            ),
            r matches Ok(x) ==> x.wf(),
            self.wf() && rhs.wf() ==> r != Err::<Ratio, Error>(Error::InvalidFraction),
    {
        proof {
            lemma_product_bounds(
                self.numerator as int,
                rhs.numerator as int,
                self.denominator as int,
                rhs.denominator as int,
            );
        }
        let n = (self.numerator as i64) * (rhs.numerator as i64);
        let d = (self.denominator as i64) * (rhs.denominator as i64);
        proof {
            if d != 0 {
                lemma_lowest_terms_of(n as int, d as int);
            }
            lemma_product_sign(self.denominator as int, rhs.denominator as int);
        }
        ratio_from_wide(n, d)
    }

    /// The quotient of two fractions, in lowest terms; `DivisionByZero` where
    /// the divisor is zero, `Overflow` where the quotient is beyond 32 bits.
    pub fn divide(self, rhs: Ratio) -> (r: Result<Ratio, Error>)
        ensures
            rhs.numerator == 0 ==> r == Err::<Ratio, Error>(Error::DivisionByZero),
            rhs.numerator != 0 ==> r == ratio_outcome(
                self.numerator * rhs.denominator,
                self.denominator * rhs.numerator,
            ),
            r matches Ok(x) ==> x.wf(),
            self.wf() && rhs.wf() ==> r != Err::<Ratio, Error>(Error::InvalidFraction),
    {
        if rhs.numerator == 0 {
            return Err(Error::DivisionByZero);
        }
        proof {
            lemma_product_bounds(
                self.numerator as int,
                rhs.denominator as int,
                self.denominator as int,
                rhs.numerator as int,
            );
        }
        let n = (self.numerator as i64) * (rhs.denominator as i64);
        let d = (self.denominator as i64) * (rhs.numerator as i64);
        proof {
            if d != 0 {
                lemma_lowest_terms_of(n as int, d as int);
            }
            lemma_product_sign(self.denominator as int, rhs.numerator as int);
        }
        ratio_from_wide(n, d)
    }

    /// Replaces the fraction by its product with `rhs`; a product that cannot
    /// be had leaves it as it was.
    pub fn multiply_assign(&mut self, rhs: Ratio) -> (r: Result<(), Error>)
        ensures
            match ratio_outcome(
                old(self).numerator * rhs.numerator,
                old(self).denominator * rhs.denominator,
            ) {
                Ok(x) => r is Ok && *final(self) == x,
                Err(e) => r == Err::<(), Error>(e) && *final(self) == *old(self),
            },
    {
        match self.multiply(rhs) {
            Ok(x) => {
                *self = x;
                Ok(())
            },
            Err(e) => Err(e),
        }
    }

    /// Replaces the fraction by its quotient by `rhs`; a quotient that cannot
    /// be had leaves it as it was.
    pub fn divide_assign(&mut self, rhs: Ratio) -> (r: Result<(), Error>)
        ensures
            rhs.numerator == 0 ==> r == Err::<(), Error>(Error::DivisionByZero) && *final(self)
                == *old(self),
            rhs.numerator != 0 ==> match ratio_outcome(
                old(self).numerator * rhs.denominator,
                old(self).denominator * rhs.numerator,
            ) {
                Ok(x) => r is Ok && *final(self) == x,
                Err(e) => r == Err::<(), Error>(e) && *final(self) == *old(self),
            },
    {
        match self.divide(rhs) {
            Ok(x) => {
                *self = x;
                Ok(())
            },
            Err(e) => Err(e),
        }
    }

    /// Whether `self` is the smaller number, by exact cross-multiplication.
    pub fn less_than(&self, other: &Ratio) -> (b: bool)
        ensures
            b == self@.less_than(other@),
    {
        proof {
            lemma_product_bounds(
                self.numerator as int,
                other.denominator as int,
                other.numerator as int,
                self.denominator as int,
            );
        }
        let left = (self.numerator as i64) * (other.denominator as i64);
        let right = (other.numerator as i64) * (self.denominator as i64);
        left < right
    }

    /// How `self` stands to `other` as a number: -1 below, 0 equal, 1 above.
    pub open spec fn order(&self, other: &Ratio) -> int {
        if self@.less_than(other@) {
            -1
        } else if other@.less_than(self@) {
            1
        } else {
            0
        }
    }
}

/// Products of 32-bit numbers are well within 64 bits.
pub proof fn lemma_product_bounds(a: int, b: int, c: int, d: int)
    requires
        i32::MIN <= a <= i32::MAX,
        i32::MIN <= b <= i32::MAX,
        i32::MIN <= c <= i32::MAX,
        i32::MIN <= d <= i32::MAX,
    ensures
        -0x4000_0000_0000_0000 <= a * b <= 0x4000_0000_0000_0000,
        -0x4000_0000_0000_0000 <= c * d <= 0x4000_0000_0000_0000,
{
    assert(-0x4000_0000_0000_0000 <= a * b <= 0x4000_0000_0000_0000) by (nonlinear_arith)
        requires
            -0x8000_0000 <= a <= 0x7fff_ffff,
            -0x8000_0000 <= b <= 0x7fff_ffff,
    ;
    assert(-0x4000_0000_0000_0000 <= c * d <= 0x4000_0000_0000_0000) by (nonlinear_arith)
        requires
            -0x8000_0000 <= c <= 0x7fff_ffff,
            -0x8000_0000 <= d <= 0x7fff_ffff,
    ;
}

/// A product of two numbers is zero only where one of them is.
pub proof fn lemma_product_sign(a: int, b: int)
    ensures
        a != 0 && b != 0 ==> a * b != 0,
        a > 0 && b > 0 ==> a * b > 0,
{
    assert(a != 0 && b != 0 ==> a * b != 0) by (nonlinear_arith);
    assert(a > 0 && b > 0 ==> a * b > 0) by (nonlinear_arith);
}

/// The order of fractions by value, so that `<`, `<=`, `>` and `>=` compare
/// exactly. Of fractions in lowest terms, those that compare equal are equal.
impl PartialOrd for Ratio {
    /// Orders two fractions by value, through exact cross-multiplication.
    fn partial_cmp(&self, other: &Ratio) -> (r: Option<Ordering>) {
        if self.less_than(other) {
            Some(Ordering::Less)
        } else if other.less_than(self) {
            Some(Ordering::Greater)
        } else {
            Some(Ordering::Equal)
        }
    }
}

impl PartialOrdSpecImpl for Ratio {
    open spec fn obeys_partial_cmp_spec() -> bool {
        true
    }

    open spec fn partial_cmp_spec(&self, other: &Ratio) -> Option<Ordering> {
        if self.order(other) < 0 {
            Some(Ordering::Less)
        } else if self.order(other) > 0 {
            Some(Ordering::Greater)
        } else {
            Some(Ordering::Equal)
        }
    }
}

} // verus!
