//! Exact signed fractions: the numbers that the calculator reads, computes and prints.
use vstd::prelude::*;

use crate::natural::Natural;

verus! {

/// A signed fraction `(-1)^neg * num / den`, as a mathematical value.
pub struct Frac {
    pub neg: bool,
    pub num: nat,
    pub den: nat,
}

/// The numerator with its sign.
pub open spec fn signed_num(f: Frac) -> int {
    if f.neg {
        -(f.num as int)
    } else {
        f.num as int
    }
}

/// Whether two fractions denote the same number (their denominators being positive).
pub open spec fn same_value(a: Frac, b: Frac) -> bool {
    signed_num(a) * b.den == signed_num(b) * a.den
}

/// Whether the fraction denotes a number greater than zero.
pub open spec fn is_positive(f: Frac) -> bool {
    !f.neg && f.num > 0
}

pub open spec fn frac_of(n: nat) -> Frac {
    Frac { neg: false, num: n, den: 1 }
}

/// The product, sign by sign, numerator by numerator and denominator by denominator.
pub open spec fn frac_mul(a: Frac, b: Frac) -> Frac {
    Frac { neg: a.neg != b.neg, num: a.num * b.num, den: a.den * b.den }
}

/// The quotient: `a` times the inverse of `b`.
pub open spec fn frac_div(a: Frac, b: Frac) -> Frac {
    Frac { neg: a.neg != b.neg, num: a.num * b.den, den: a.den * b.num }
}

/// The sum of two fractions that are not negative.
pub open spec fn frac_add(a: Frac, b: Frac) -> Frac {
    Frac { neg: false, num: a.num * b.den + b.num * a.den, den: a.den * b.den }
}

/// An exact number: a sign, a numerator and a positive denominator.
#[derive(Debug, PartialEq, Eq)]
pub struct Quantity {
    negative: bool,
    num: Natural,
    den: Natural,
}

impl View for Quantity {
    type V = Frac;

    closed spec fn view(&self) -> Frac {
        Frac { neg: self.negative, num: self.num@, den: self.den@ }
    }
}

impl Quantity {
    #[verifier::type_invariant]
    spec fn inv(self) -> bool {
        self.den@ > 0
    }

    /// The fraction `num / den`, negated when `negative` holds.
    pub fn from_parts(negative: bool, num: Natural, den: Natural) -> (r: Quantity)
        requires
            den@ > 0,
        ensures
            r@ == (Frac { neg: negative, num: num@, den: den@ }),
    {
        Quantity { negative, num, den }
    }

    /// The fraction `num / den` of two machine integers.
    pub fn from_ratio(num: u64, den: u64) -> (r: Quantity)
        requires
            den > 0,
        ensures
            r@ == (Frac { neg: false, num: num as nat, den: den as nat }),
    {
        Quantity { negative: false, num: Natural::from_u64(num), den: Natural::from_u64(den) }
    }

    pub fn is_negative(&self) -> (r: bool)
        ensures
            r == self@.neg,
    {
        self.negative
    }

    pub fn numerator(&self) -> (r: &Natural)
        ensures
            r@ == self@.num,
    {
        &self.num
    }

    pub fn denominator(&self) -> (r: &Natural)
        ensures
            r@ == self@.den,
            r@ > 0,
    {
        proof {
            use_type_invariant(self);
        }
        &self.den
    }

    /// Whether the number is zero (of either sign).
    pub fn is_zero(&self) -> (r: bool)
        ensures
            r == (self@.num == 0),
    {
        self.num.is_zero()
    }

    /// Whether the number is greater than zero.
    pub fn is_positive(&self) -> (r: bool)
        ensures
            r == is_positive(self@),
            self@.den > 0,
    {
        proof {
            use_type_invariant(self);
        }
        !self.negative && !self.num.is_zero()
    }

    /// The same magnitude with the opposite sign.
    pub fn negate(&self) -> (r: Quantity)
        ensures
            r@ == (Frac { neg: !self@.neg, num: self@.num, den: self@.den }),
    {
        proof {
            use_type_invariant(self);
        }
        Quantity { negative: !self.negative, num: self.num.clone(), den: self.den.clone() }
    }

    /// The product of two numbers.
    pub fn mul(&self, other: &Quantity) -> (r: Quantity)
        ensures
            r@ == frac_mul(self@, other@),
    {
        proof {
            use_type_invariant(self);
            use_type_invariant(other);
            assert(self.den@ * other.den@ > 0) by (nonlinear_arith)
                requires
                    self.den@ > 0,
                    other.den@ > 0,
            ;
        }
        Quantity {
            negative: self.negative != other.negative,
            num: self.num.mul(&other.num),
            den: self.den.mul(&other.den),
        }
    }

    /// The quotient of two numbers; the divisor is not zero.
    pub fn div(&self, other: &Quantity) -> (r: Quantity)
        requires
            other@.num > 0,
        ensures
            r@ == frac_div(self@, other@),
    {
        proof {
            use_type_invariant(self);
            use_type_invariant(other);
            assert(self.den@ * other.num@ > 0) by (nonlinear_arith)
                requires
                    self.den@ > 0,
                    other.num@ > 0,
            ;
        }
        Quantity {
            negative: self.negative != other.negative,
            num: self.num.mul(&other.den),
            den: self.den.mul(&other.num),
        }
    }

    /// The sum of two numbers that are not negative.
    pub fn add(&self, other: &Quantity) -> (r: Quantity)
        requires
            !self@.neg,
            !other@.neg,
        ensures
            r@ == frac_add(self@, other@),
            self@.num > 0 || other@.num > 0 ==> r@.num > 0,
    {
        proof {
            use_type_invariant(self);
            use_type_invariant(other);
            assert(self.den@ * other.den@ > 0) by (nonlinear_arith)
                requires
                    self.den@ > 0,
                    other.den@ > 0,
            ;
            assert(self@.num > 0 || other@.num > 0 ==> self.num@ * other.den@ + other.num@
                * self.den@ > 0) by (nonlinear_arith)
                requires
                    self.den@ > 0,
                    other.den@ > 0,
            ;
        }
        let left = self.num.mul(&other.den);
        let right = other.num.mul(&self.den);
        Quantity { negative: false, num: left.add(&right), den: self.den.mul(&other.den) }
    }

    /// Whether the two quantities denote the same number.
    pub fn same_value(&self, other: &Quantity) -> (r: bool)
        ensures
            r == same_value(self@, other@),
    {
        proof {
            use_type_invariant(self);
            use_type_invariant(other);
        }
        let left = self.num.mul(&other.den);
        let right = other.num.mul(&self.den);
        let left_zero = left.is_zero();
        let right_zero = right.is_zero();
        let magnitudes_equal = left.equals(&right);
        proof {
            assert(left@ == 0 <==> self.num@ == 0) by (nonlinear_arith)
                requires
                    left@ == self.num@ * other.den@,
                    other.den@ > 0,
            ;
            assert(right@ == 0 <==> other.num@ == 0) by (nonlinear_arith)
                requires
                    right@ == other.num@ * self.den@,
                    self.den@ > 0,
            ;
            assert(signed_num(self@) * other@.den == (if self.negative {
                -(left@ as int)
            } else {
                left@ as int
            })) by (nonlinear_arith)
                requires
                    left@ == self.num@ * other.den@,
                    signed_num(self@) == (if self.negative {
                        -(self.num@ as int)
                    } else {
                        self.num@ as int
                    }),
                    other@.den == other.den@,
            ;
            assert(signed_num(other@) * self@.den == (if other.negative {
                -(right@ as int)
            } else {
                right@ as int
            })) by (nonlinear_arith)
                requires
                    right@ == other.num@ * self.den@,
                    signed_num(other@) == (if other.negative {
                        -(other.num@ as int)
                    } else {
                        other.num@ as int
                    }),
                    self@.den == self.den@,
            ;
        }
        if left_zero || right_zero {
            left_zero && right_zero
        } else if self.negative != other.negative {
            false
        } else {
            magnitudes_equal
        }
    }
}

impl Clone for Quantity {
    fn clone(&self) -> (r: Quantity)
        ensures
            r@ == self@,
    {
        proof {
            use_type_invariant(self);
        }
        Quantity { negative: self.negative, num: self.num.clone(), den: self.den.clone() }
    }
}

} // verus!
