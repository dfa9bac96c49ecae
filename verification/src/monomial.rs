//! Polynomials in monomial form.

use crate::point::{reals_of, Node, Point};
use crate::rational::Rational;
use vstd::prelude::*;

verus! {

/// `x` raised to the power `n`.
pub open spec fn power(x: real, n: nat) -> real
    decreases n,
{
    if n == 0 {
        1real
    } else {
        x * power(x, (n - 1) as nat)
    }
}

/// The sum of the `k` lowest terms `coeffs[i] * x^i`.
pub open spec fn monomial_sum(coeffs: Seq<real>, x: real, k: nat) -> real
    decreases k,
{
    if k == 0 {
        0real
    } else {
        monomial_sum(coeffs, x, (k - 1) as nat) + coeffs[k - 1] * power(x, (k - 1) as nat)
    }
}

/// The value at `x` of the polynomial with the given coefficients, constant
/// term first. The empty polynomial is zero everywhere.
pub open spec fn poly_eval(coeffs: Seq<real>, x: real) -> real {
    monomial_sum(coeffs, x, coeffs.len())
}

/// A polynomial given by its coefficients, constant term first.
#[derive(Debug)]
pub struct MonomialPolynomial {
    coeffs: Vec<Rational>,
}

impl View for MonomialPolynomial {
    type V = Seq<real>;

    closed spec fn view(&self) -> Seq<real> {
        reals_of(self.coeffs@)
    }
}

impl MonomialPolynomial {
    /// The polynomial `coeffs[0] + coeffs[1] x + coeffs[2] x^2 + ...`.
    pub fn new(coeffs: Vec<Rational>) -> (p: MonomialPolynomial)
        ensures
            p@ == reals_of(coeffs@),
    {
        MonomialPolynomial { coeffs }
    }

    /// The number of coefficients: one more than the degree, unless the
    /// leading ones are zero.
    pub fn len(&self) -> (n: usize)
        ensures
            n == self@.len(),
    {
        self.coeffs.len()
    }

    /// The value of the polynomial at `x`.
    pub fn evaluate(&self, x: &Rational) -> (y: Rational)
        ensures
            y@ == poly_eval(self@, x@),
    {
        let mut total = Rational::from_i64(0);
        let mut pw = Rational::from_i64(1);
        let mut i: usize = 0;
        while i < self.coeffs.len()
            invariant
                i <= self.coeffs.len(),
                total@ == monomial_sum(self@, x@, i as nat),
                pw@ == power(x@, i as nat),
            decreases self.coeffs.len() - i,
        {
            let term = self.coeffs[i].mul(&pw);
            total = total.add(&term);
            proof {
                let p = pw@;
                let v = x@;
                assert(p * v == v * p) by (nonlinear_arith);
            }
            pw = pw.mul(x);
            i += 1;
        }
        total
    }

    /// The points `(x, evaluate(x))` for each `x` of `xs`, in the same order.
    pub fn evaluate_many(&self, xs: &Vec<Rational>) -> (points: Vec<Point>)
        ensures
            points.len() == xs.len(),
            forall|i: int|
                0 <= i < xs.len() ==> (#[trigger] points[i])@ == (Node {
                    x: xs[i]@,
                    y: poly_eval(self@, xs[i]@),
                }),
    {
        let mut points: Vec<Point> = Vec::new();
        let mut i: usize = 0;
        while i < xs.len()
            invariant
                i <= xs.len(),
                points.len() == i,
                forall|k: int|
                    0 <= k < i ==> (#[trigger] points[k])@ == (Node {
                        x: xs[k]@,
                        y: poly_eval(self@, xs[k]@),
                    }),
            decreases xs.len() - i,
        {
            let y = self.evaluate(&xs[i]);
            points.push(Point::new(xs[i].clone(), y));
            i += 1;
        }
        points
    }
}

} // verus!
