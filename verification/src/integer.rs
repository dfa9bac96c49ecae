//! Arbitrary-precision integers: a sign and a [`Natural`] magnitude.

use crate::natural::Natural;
use vstd::prelude::*;

verus! {

/// An arbitrary-precision integer.
#[derive(Debug)]
pub struct Integer {
    negative: bool,
    magnitude: Natural,
}

impl View for Integer {
    type V = int;

    closed spec fn view(&self) -> int {
        if self.negative {
            -(self.magnitude@ as int)
        } else {
            self.magnitude@ as int
        }
    }
}

impl Clone for Integer {
    fn clone(&self) -> (copy: Self)
        ensures
            copy@ == self@,
    {
        Integer { negative: self.negative, magnitude: self.magnitude.clone() }
    }
}

impl Integer {
    /// The integer zero.
    pub fn zero() -> (n: Integer)
        ensures
            n@ == 0,
    {
        Integer { negative: false, magnitude: Natural::zero() }
    }

    /// The integer equal to `v`.
    pub fn from_i64(v: i64) -> (n: Integer)
        ensures
            n@ == v,
    {
        if v < 0 {
            let m: u64 = ((-(v + 1)) as u64) + 1;
            Integer { negative: true, magnitude: Natural::from_u64(m) }
        } else {
            Integer { negative: false, magnitude: Natural::from_u64(v as u64) }
        }
    }

    /// The non-negative integer equal to `n`.
    pub fn from_natural(n: Natural) -> (i: Integer)
        ensures
            i@ == n@,
    {
        Integer { negative: false, magnitude: n }
    }

    /// Whether the integer is zero.
    pub fn is_zero(&self) -> (zero: bool)
        ensures
            zero == (self@ == 0),
    {
        self.magnitude.is_zero()
    }

    /// Whether the integer is strictly below zero.
    pub fn is_negative(&self) -> (negative: bool)
        ensures
            negative == (self@ < 0),
    {
        self.negative && !self.magnitude.is_zero()
    }

    /// The absolute value.
    pub fn magnitude(&self) -> (m: Natural)
        ensures
            m@ == (if self@ < 0 { -self@ } else { self@ }),
    {
        self.magnitude.clone()
    }

    /// The additive inverse `-self`.
    pub fn neg(&self) -> (n: Integer)
        ensures
            n@ == -self@,
    {
        Integer { negative: !self.negative, magnitude: self.magnitude.clone() }
    }

    /// The sum `self + other`.
    pub fn add(&self, other: &Integer) -> (sum: Integer)
        ensures
            sum@ == self@ + other@,
    {
        if self.negative == other.negative {
            Integer { negative: self.negative, magnitude: self.magnitude.add(&other.magnitude) }
        } else {
            match self.magnitude.checked_sub(&other.magnitude) {
                Some(d) => Integer { negative: self.negative, magnitude: d },
                None => {
                    match other.magnitude.checked_sub(&self.magnitude) {
                        Some(d) => Integer { negative: other.negative, magnitude: d },
                        None => Integer::zero(),
                    }
                },
            }
        }
    }

    /// The difference `self - other`.
    pub fn sub(&self, other: &Integer) -> (diff: Integer)
        ensures
            diff@ == self@ - other@,
    {
        let minus = other.neg();
        self.add(&minus)
    }

    /// The product `self * other`.
    pub fn mul(&self, other: &Integer) -> (product: Integer)
        ensures
            product@ == self@ * other@,
    {
        let magnitude = self.magnitude.mul(&other.magnitude);
        proof {
            let a = self.magnitude@ as int;
            let b = other.magnitude@ as int;
            assert((-a) * b == -(a * b) && a * (-b) == -(a * b) && (-a) * (-b) == a * b)
                by (nonlinear_arith);
        }
        Integer { negative: self.negative != other.negative, magnitude }
    }

    /// Whether `self` is strictly less than `other`.
    pub fn lt(&self, other: &Integer) -> (less: bool)
        ensures
            less == (self@ < other@),
    {
        self.sub(other).is_negative()
    }

    /// Whether `self` and `other` denote the same integer.
    pub fn eq(&self, other: &Integer) -> (same: bool)
        ensures
            same == (self@ == other@),
    {
        self.sub(other).is_zero()
    }
}

} // verus!
