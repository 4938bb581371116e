//! Exact nonnegative rational numbers.
//!
//! Every belief value in the engine (a probability, a message, an
//! unnormalized potential) is a `Rational`: a numerator and a positive
//! denominator, both machine words.  Arithmetic is exact; an operation whose
//! result would not fit in a word reports that instead of rounding.
//!
//! Contracts speak of a rational through its pair view `(numerator,
//! denominator)` over unbounded integers, with `pmul` / `padd` / `pdiv` the
//! corresponding exact operations and `qeq` / `qle` the value comparisons by
//! cross multiplication.

use vstd::prelude::*;

verus! {

/// A nonnegative rational `num / den`, well formed when `den >= 1`.
#[derive(Clone, Copy, Debug)]
pub struct Rational {
    pub num: u64,
    pub den: u64,
}

/// Exact product of two pair-view rationals.
pub open spec fn pmul(a: (int, int), b: (int, int)) -> (int, int) {
    (a.0 * b.0, a.1 * b.1)
}

/// Exact sum of two pair-view rationals.
pub open spec fn padd(a: (int, int), b: (int, int)) -> (int, int) {
    (a.0 * b.1 + b.0 * a.1, a.1 * b.1)
}

/// Exact quotient of two pair-view rationals (meaningful when `b.0 >= 1`).
pub open spec fn pdiv(a: (int, int), b: (int, int)) -> (int, int) {
    (a.0 * b.1, a.1 * b.0)
}

/// Whether a pair-view rational fits back into a `Rational`.
pub open spec fn pfits(p: (int, int)) -> bool {
    0 <= p.0 <= u64::MAX && 1 <= p.1 <= u64::MAX
}

/// Value equality of two well-formed rationals, by cross multiplication.
pub open spec fn qeq(a: Rational, b: Rational) -> bool {
    a.num * b.den == b.num * a.den
}

/// Value order of two well-formed rationals, by cross multiplication.
pub open spec fn qle(a: Rational, b: Rational) -> bool {
    a.num * b.den <= b.num * a.den
}

impl Rational {
    /// Well-formedness: the denominator is positive.
    pub open spec fn wf(self) -> bool {
        self.den >= 1
    }

    /// The pair view: numerator and denominator as unbounded integers.
    pub open spec fn pv(self) -> (int, int) {
        (self.num as int, self.den as int)
    }

    /// The value one, as `1 / 1`.
    pub open spec fn spec_is_one(self) -> bool {
        self.num == self.den
    }

    /// The value zero.
    pub open spec fn spec_is_zero(self) -> bool {
        self.num == 0
    }

    /// Builds `num / den`; the denominator must be positive.
    pub fn new(num: u64, den: u64) -> (r: Rational)
        requires
            den >= 1,
        ensures
            r.wf(),
            r.num == num,
            r.den == den,
    {
        Rational { num, den }
    }

    /// The rational zero.
    pub fn zero() -> (r: Rational)
        ensures
            r.wf(),
            r.num == 0,
            r.den == 1,
    {
        Rational { num: 0, den: 1 }
    }

    /// The rational one.
    pub fn one() -> (r: Rational)
        ensures
            r.wf(),
            r.num == 1,
            r.den == 1,
    {
        Rational { num: 1, den: 1 }
    }

    /// Exact product; `None` exactly when the result does not fit in a word.
    pub fn mul(self, o: Rational) -> (r: Option<Rational>)
        requires
            self.wf(),
            o.wf(),
        ensures
            r matches Some(c) ==> c.wf() && c.pv() == pmul(self.pv(), o.pv()),
            r is Some <==> pfits(pmul(self.pv(), o.pv())),
    {
        proof {
            lemma_den_product_positive(self.den as int, o.den as int);
        }
        match self.num.checked_mul(o.num) {
            Some(n) => match self.den.checked_mul(o.den) {
                Some(d) => Some(Rational { num: n, den: d }),
                None => None,
            },
            None => None,
        }
    }

    /// Exact sum; `None` exactly when the result does not fit in a word.
    pub fn add(self, o: Rational) -> (r: Option<Rational>)
        requires
            self.wf(),
            o.wf(),
        ensures
            r matches Some(c) ==> c.wf() && c.pv() == padd(self.pv(), o.pv()),
            r is Some <==> pfits(padd(self.pv(), o.pv())),
    {
        proof {
            lemma_den_product_positive(self.den as int, o.den as int);
        }
        match self.num.checked_mul(o.den) {
            Some(ad) => match o.num.checked_mul(self.den) {
                Some(bc) => match ad.checked_add(bc) {
                    Some(n) => match self.den.checked_mul(o.den) {
                        Some(d) => Some(Rational { num: n, den: d }),
                        None => None,
                    },
                    None => None,
                },
                None => None,
            },
            None => None,
        }
    }

    /// `1 - self`, for a value at most one; stays exact and always fits.
    pub fn complement(self) -> (r: Rational)
        requires
            self.wf(),
            qle(self, Rational { num: 1, den: 1 }),
        ensures
            r.wf(),
            r.den == self.den,
            r.num + self.num == self.den,
    {
        Rational { num: self.den - self.num, den: self.den }
    }

    /// Exact quotient; the divisor must be a positive value.
    pub fn div(self, o: Rational) -> (r: Option<Rational>)
        requires
            self.wf(),
            o.wf(),
            o.num >= 1,
        ensures
            r matches Some(c) ==> c.wf() && c.pv() == pdiv(self.pv(), o.pv()),
            r is Some <==> pfits(pdiv(self.pv(), o.pv())),
    {
        proof {
            lemma_den_product_positive(self.den as int, o.num as int);
        }
        match self.num.checked_mul(o.den) {
            Some(n) => match self.den.checked_mul(o.num) {
                Some(d) => Some(Rational { num: n, den: d }),
                None => None,
            },
            None => None,
        }
    }

    /// Value equality test, by cross multiplication in double words.
    pub fn eq_value(self, o: Rational) -> (r: bool)
        requires
            self.wf(),
            o.wf(),
        ensures
            r == qeq(self, o),
    {
        proof {
            lemma_word_product_fits(self.num as int, o.den as int);
            lemma_word_product_fits(o.num as int, self.den as int);
        }
        let left: u128 = (self.num as u128) * (o.den as u128);
        let right: u128 = (o.num as u128) * (self.den as u128);
        left == right
    }

    /// Value order test, by cross multiplication in double words.
    pub fn le_value(self, o: Rational) -> (r: bool)
        requires
            self.wf(),
            o.wf(),
        ensures
            r == qle(self, o),
    {
        proof {
            lemma_word_product_fits(self.num as int, o.den as int);
            lemma_word_product_fits(o.num as int, self.den as int);
        }
        let left: u128 = (self.num as u128) * (o.den as u128);
        let right: u128 = (o.num as u128) * (self.den as u128);
        left <= right
    }

    /// Whether the value is zero.
    pub fn is_zero(self) -> (r: bool)
        requires
            self.wf(),
        ensures
            r == self.spec_is_zero(),
    {
        self.num == 0
    }

    /// Whether the value is at most one.
    pub fn le_one(self) -> (r: bool)
        requires
            self.wf(),
        ensures
            r == qle(self, Rational { num: 1, den: 1 }),
    {
        self.num <= self.den
    }
}

/// The product of two word-sized factors fits in a double word.
proof fn lemma_word_product_fits(a: int, b: int)
    requires
        0 <= a <= u64::MAX,
        0 <= b <= u64::MAX,
    ensures
        0 <= a * b <= u128::MAX,
{
    assert(0 <= a * b <= u128::MAX) by (nonlinear_arith)
        requires
            0 <= a <= u64::MAX,
            0 <= b <= u64::MAX,
    ;
}

/// The product of two positive denominators is positive.
proof fn lemma_den_product_positive(a: int, b: int)
    requires
        a >= 1,
        b >= 1,
    ensures
        a * b >= 1,
{
    assert(a * b >= 1) by (nonlinear_arith)
        requires
            a >= 1,
            b >= 1,
    ;
}

/// Every well-formed rational is at least zero: belief values never go
/// negative, whatever the tables hold.
pub proof fn lemma_nonnegative(a: Rational)
    requires
        a.wf(),
    ensures
        qle(Rational { num: 0, den: 1 }, a),
{
}


/// A normalizer built from two potentials that are not both zero is a
/// positive value.
pub proof fn lemma_norm_positive(a: int, b: int, c: int, d: int)
    requires
        a >= 0,
        b >= 1,
        c >= 0,
        d >= 1,
        a >= 1 || c >= 1,
    ensures
        a * d + c * b >= 1,
{
    assert(a * d + c * b >= 1) by (nonlinear_arith)
        requires
            a >= 0,
            b >= 1,
            c >= 0,
            d >= 1,
            a >= 1 || c >= 1,
    ;
}

/// Two potentials normalized by their sum make probabilities that sum to
/// one exactly, each lying between zero and one.
pub proof fn lemma_marginal_normalization(pot0: Rational, pot1: Rational, norm: Rational, p0: Rational, p1: Rational)
    requires
        pot0.wf(),
        pot1.wf(),
        norm.wf(),
        p0.wf(),
        p1.wf(),
        norm.pv() == padd(pot0.pv(), pot1.pv()),
        p0.pv() == pdiv(pot0.pv(), norm.pv()),
        p1.pv() == pdiv(pot1.pv(), norm.pv()),
    ensures
        p0.num * p1.den + p1.num * p0.den == p0.den * p1.den,
        qle(Rational { num: 0, den: 1 }, p0),
        qle(Rational { num: 0, den: 1 }, p1),
        qle(p0, Rational { num: 1, den: 1 }),
        qle(p1, Rational { num: 1, den: 1 }),
{
    let a = pot0.num as int;
    let b = pot0.den as int;
    let c = pot1.num as int;
    let d = pot1.den as int;
    assert(norm.num == a * d + c * b && norm.den == b * d);
    assert(p0.num == a * (b * d) && p0.den == b * (a * d + c * b));
    assert(p1.num == c * (b * d) && p1.den == d * (a * d + c * b));
    assert(p0.num * p1.den + p1.num * p0.den == p0.den * p1.den) by (nonlinear_arith)
        requires
            p0.num == a * (b * d),
            p0.den == b * (a * d + c * b),
            p1.num == c * (b * d),
            p1.den == d * (a * d + c * b),
    ;
    assert(p0.num * 1 <= 1 * p0.den) by (nonlinear_arith)
        requires
            a >= 0,
            b >= 1,
            c >= 0,
            d >= 1,
            p0.num == a * (b * d),
            p0.den == b * (a * d + c * b),
    ;
    assert(p1.num * 1 <= 1 * p1.den) by (nonlinear_arith)
        requires
            a >= 0,
            b >= 1,
            c >= 0,
            d >= 1,
            p1.num == c * (b * d),
            p1.den == d * (a * d + c * b),
    ;
}

} // verus!
