//! Exact fractions, the stand-in for real-valued inputs such as blend
//! factors, gradient positions and highlight intensities.

use vstd::prelude::*;

verus! {

/// The mathematical value of a [`Ratio`]: the fraction `num / den`.
pub struct Frac {
    pub num: int,
    pub den: int,
}

impl Frac {
    /// The fraction is zero.
    pub open spec fn is_zero(self) -> bool {
        self.num == 0
    }

    /// The fraction lies in the closed interval from 0 to 1.
    pub open spec fn in_unit(self) -> bool {
        0 <= self.num <= self.den
    }

    /// The fraction is a usable intensity: positive and at most 1.
    pub open spec fn is_intensity(self) -> bool {
        0 < self.num <= self.den
    }

    /// Two fractions denote the same number.
    pub open spec fn same_value(self, other: Frac) -> bool {
        self.num * other.den == other.num * self.den
    }
}

/// A fraction of two machine integers whose denominator is positive.
#[derive(Clone, Copy, Debug)]
pub struct Ratio {
    num: i64,
    den: i64,
}

impl View for Ratio {
    type V = Frac;

    closed spec fn view(&self) -> Frac {
        Frac { num: self.num as int, den: self.den as int }
    }
}

impl Ratio {
    #[verifier::type_invariant]
    spec fn positive_denominator(self) -> bool {
        self.den > 0
    }

    /// The fraction `num / den`, or nothing where `den` is not positive.
    pub fn new(num: i64, den: i64) -> (r: Option<Ratio>)
        ensures
            r is Some <==> den > 0,
            r matches Some(q) ==> q@ == (Frac { num: num as int, den: den as int }),
    {
        if den > 0 {
            Some(Ratio { num, den })
        } else {
            None
        }
    }

    /// The fraction `num / den` for a denominator known to be positive.
    pub(crate) fn known(num: i64, den: i64) -> (r: Ratio)
        requires
            den > 0,
        ensures
            r@ == (Frac { num: num as int, den: den as int }),
    {
        Ratio { num, den }
    }

    /// The fraction 0/1.
    pub fn zero() -> (r: Ratio)
        ensures
            r@ == (Frac { num: 0, den: 1 }),
    {
        Ratio { num: 0, den: 1 }
    }

    /// The numerator.
    pub fn numer(&self) -> (n: i64)
        ensures
            n == self@.num,
    {
        self.num
    }

    /// The denominator, which is positive.
    pub fn denom(&self) -> (d: i64)
        ensures
            d == self@.den,
            d > 0,
    {
        proof {
            use_type_invariant(self);
        }
        self.den
    }

    /// Whether the fraction is zero.
    pub fn is_zero(&self) -> (b: bool)
        ensures
            b == self@.is_zero(),
    {
        self.num == 0
    }

    /// Whether the fraction lies between 0 and 1, both included.
    pub fn is_in_unit(&self) -> (b: bool)
        ensures
            b == self@.in_unit(),
    {
        0 <= self.num && self.num <= self.den
    }

    /// Whether two fractions denote the same number.
    pub fn same_value(&self, other: &Ratio) -> (b: bool)
        ensures
            b == self@.same_value(other@),
    {
        proof {
            lemma_product_fits(self.num as int, other.den as int);
            lemma_product_fits(other.num as int, self.den as int);
        }
        let left: i128 = (self.num as i128) * (other.den as i128);
        let right: i128 = (other.num as i128) * (self.den as i128);
        left == right
    }
}

/// The product of two 64-bit integers fits in 128 bits.
pub proof fn lemma_product_fits(a: int, b: int)
    requires
        i64::MIN <= a <= i64::MAX,
        i64::MIN <= b <= i64::MAX,
    ensures
        i128::MIN < a * b < i128::MAX,
{
    assert(-0x4000_0000_0000_0000_0000_0000_0000_0000 <= a * b
        <= 0x4000_0000_0000_0000_0000_0000_0000_0000) by (nonlinear_arith)
        requires
            -0x8000_0000_0000_0000 <= a <= 0x8000_0000_0000_0000,
            -0x8000_0000_0000_0000 <= b <= 0x8000_0000_0000_0000,
    ;
}

} // verus!
