//! Exact rational numbers.
//!
//! A [`Rational`] is a quotient of an [`Integer`] by a positive [`Natural`].
//! Its view is the real number that the quotient denotes; two values with the
//! same view are the same number, whatever their numerators and denominators.

use crate::integer::Integer;
use crate::natural::Natural;
use vstd::arithmetic::div_mod::{
    lemma_fundamental_div_mod, lemma_mod_multiples_basic, lemma_mod_multiples_vanish,
    lemma_mod_self_0, lemma_small_mod,
};
use vstd::prelude::*;
use vstd::std_specs::cmp::PartialEqSpecImpl;

verus! {

/// The real number `n / d`.
pub open spec fn quotient(n: int, d: int) -> real {
    (n as real) / (d as real)
}

proof fn lemma_quotient_add(a: int, b: int, c: int, d: int)
    requires
        b > 0,
        d > 0,
    ensures
        b * d > 0,
        quotient(a, b) + quotient(c, d) == quotient(a * d + c * b, b * d),
{
    assert(b * d > 0) by (nonlinear_arith)
        requires
            b > 0,
            d > 0,
    ;
    assert((a as real) / (b as real) + (c as real) / (d as real) == ((a * d + c * b) as real) / ((b
        * d) as real)) by (nonlinear_arith)
        requires
            b > 0,
            d > 0,
    ;
}

proof fn lemma_quotient_mul(a: int, b: int, c: int, d: int)
    requires
        b > 0,
        d > 0,
    ensures
        b * d > 0,
        quotient(a, b) * quotient(c, d) == quotient(a * c, b * d),
{
    assert(b * d > 0) by (nonlinear_arith)
        requires
            b > 0,
            d > 0,
    ;
    assert(((a as real) / (b as real)) * ((c as real) / (d as real)) == ((a * c) as real) / ((b
        * d) as real)) by (nonlinear_arith)
        requires
            b > 0,
            d > 0,
    ;
}

proof fn lemma_quotient_div(a: int, b: int, c: int, d: int)
    requires
        b > 0,
        d > 0,
        c != 0,
    ensures
        c > 0 ==> b * c > 0 && quotient(a, b) / quotient(c, d) == quotient(a * d, b * c),
        c < 0 ==> b * (-c) > 0 && quotient(a, b) / quotient(c, d) == quotient(-(a * d), b * (-c)),
{
    if c > 0 {
        assert(b * c > 0) by (nonlinear_arith)
            requires
                b > 0,
                c > 0,
        ;
        assert(((a as real) / (b as real)) / ((c as real) / (d as real)) == ((a * d) as real) / ((b
            * c) as real)) by (nonlinear_arith)
            requires
                b > 0,
                d > 0,
                c > 0,
        ;
    } else {
        assert(b * (-c) > 0) by (nonlinear_arith)
            requires
                b > 0,
                c < 0,
        ;
        assert(((a as real) / (b as real)) / ((c as real) / (d as real)) == ((-(a * d)) as real)
            / ((b * (-c)) as real)) by (nonlinear_arith)
            requires
                b > 0,
                d > 0,
                c < 0,
        ;
    }
}

proof fn lemma_quotient_order(a: int, b: int, c: int, d: int)
    requires
        b > 0,
        d > 0,
    ensures
        quotient(a, b) < quotient(c, d) <==> a * d < c * b,
        quotient(a, b) == quotient(c, d) <==> a * d == c * b,
{
    assert(((a as real) / (b as real) < (c as real) / (d as real)) <==> a * d < c * b)
        by (nonlinear_arith)
        requires
            b > 0,
            d > 0,
    ;
    assert(((a as real) / (b as real) == (c as real) / (d as real)) <==> a * d == c * b)
        by (nonlinear_arith)
        requires
            b > 0,
            d > 0,
    ;
}

proof fn lemma_quotient_sign(a: int, b: int)
    requires
        b > 0,
    ensures
        quotient(a, b) == 0real <==> a == 0,
        quotient(a, b) < 0real <==> a < 0,
        quotient(-a, b) == -quotient(a, b),
        quotient(a, 1) == a as real,
{
    assert(((a as real) / (b as real) == 0real) <==> a == 0) by (nonlinear_arith)
        requires
            b > 0,
    ;
    assert(((a as real) / (b as real) < 0real) <==> a < 0) by (nonlinear_arith)
        requires
            b > 0,
    ;
    assert(((-a) as real) / (b as real) == -((a as real) / (b as real))) by (nonlinear_arith)
        requires
            b > 0,
    ;
    assert((a as real) / (1int as real) == a as real) by (nonlinear_arith);
}

proof fn lemma_quotient_cancel(a: int, b: int, g: int)
    requires
        b > 0,
        g > 0,
    ensures
        b * g > 0,
        quotient(a * g, b * g) == quotient(a, b),
{
    assert(b * g > 0) by (nonlinear_arith)
        requires
            b > 0,
            g > 0,
    ;
    assert(((a * g) as real) / ((b * g) as real) == (a as real) / (b as real))
        by (nonlinear_arith)
        requires
            b > 0,
            g > 0,
    ;
}

/// Whether `d` is a positive common divisor of `a` and `b`.
spec fn common(d: int, a: int, b: int) -> bool {
    d > 0 && a % d == 0 && b % d == 0
}

/// The absolute value `|n|`.
spec fn magnitude_of(n: int) -> int {
    if n < 0 {
        -n
    } else {
        n
    }
}

/// Whether the quotient `n / d` is in lowest terms: no integer above one
/// divides both `|n|` and `d`.
spec fn lowest_terms(n: int, d: int) -> bool {
    forall|k: int| k > 1 ==> !#[trigger] common(k, magnitude_of(n), d)
}

/// The common divisors of `x` and `y` are those of `y` and `x % y`.
proof fn lemma_common_step(d: int, x: int, y: int)
    requires
        y > 0,
    ensures
        common(d, x, y) == common(d, y, x % y),
{
    if d > 0 && y % d == 0 {
        lemma_fundamental_div_mod(y, d);
        lemma_fundamental_div_mod(x, y);
        let k = (y / d) * (x / y);
        assert(x == d * k + x % y) by (nonlinear_arith)
            requires
                y == d * (y / d),
                x == y * (x / y) + x % y,
                k == (y / d) * (x / y),
        ;
        lemma_mod_multiples_vanish(k, x % y, d);
    }
}

/// Dividing two numbers by their greatest common divisor leaves them without
/// a common divisor above one.
proof fn lemma_lowest_terms(n: int, d: int, g: int)
    requires
        n >= 0,
        d > 0,
        common(g, n, d),
        forall|c: int| #[trigger] common(c, n, d) ==> g % c == 0,
    ensures
        n == g * (n / g),
        d == g * (d / g),
        d / g > 0,
        lowest_terms(n / g, d / g),
{
    lemma_fundamental_div_mod(n, g);
    lemma_fundamental_div_mod(d, g);
    let n_over = n / g;
    let d_over = d / g;
    assert(d_over > 0) by (nonlinear_arith)
        requires
            d == g * d_over,
            d > 0,
            g > 0,
    ;
    assert(n_over >= 0) by (nonlinear_arith)
        requires
            n == g * n_over,
            n >= 0,
            g > 0,
    ;
    assert forall|k: int| k > 1 implies !#[trigger] common(k, magnitude_of(n_over), d_over) by {
        if common(k, n_over, d_over) {
            let c = g * k;
            lemma_fundamental_div_mod(n_over, k);
            lemma_fundamental_div_mod(d_over, k);
            let tn = n_over / k;
            let td = d_over / k;
            assert(g < c && n == tn * c && d == td * c) by (nonlinear_arith)
                requires
                    c == g * k,
                    g > 0,
                    k > 1,
                    n == g * n_over,
                    d == g * d_over,
                    n_over == k * tn,
                    d_over == k * td,
            ;
            lemma_mod_multiples_basic(tn, c);
            lemma_mod_multiples_basic(td, c);
            assert(common(c, n, d));
            lemma_small_mod(g as nat, c as nat);
        }
    }
}

/// The greatest common divisor of two machine integers that are not both
/// zero, by Euclid's algorithm.
fn common_divisor(a: u128, b: u128) -> (g: u128)
    requires
        a > 0 || b > 0,
    ensures
        common(g as int, a as int, b as int),
        forall|d: int| #[trigger] common(d, a as int, b as int) ==> (g as int) % d == 0,
{
    let mut x: u128 = a;
    let mut y: u128 = b;
    while y != 0
        invariant
            x > 0 || y > 0,
            forall|d: int| #[trigger] common(d, a as int, b as int) == common(d, x as int, y as int),
        decreases y,
    {
        proof {
            assert forall|d: int| #[trigger]
                common(d, a as int, b as int) == common(d, y as int, (x % y) as int) by {
                lemma_common_step(d, x as int, y as int);
            }
        }
        let r: u128 = x % y;
        x = y;
        y = r;
    }
    proof {
        lemma_mod_self_0(x as int);
        assert(common(x as int, x as int, 0));
        assert(common(x as int, a as int, b as int));
    }
    x
}

/// An exact rational number.
#[derive(Debug)]
pub struct Rational {
    num: Integer,
    den: Natural,
}

impl View for Rational {
    type V = real;

    closed spec fn view(&self) -> real {
        quotient(self.num@, self.den@ as int)
    }
}

impl Clone for Rational {
    fn clone(&self) -> (copy: Self)
        ensures
            copy@ == self@,
    {
        proof {
            use_type_invariant(self);
        }
        Rational { num: self.num.clone(), den: self.den.clone() }
    }
}

impl PartialEq for Rational {
    fn eq(&self, other: &Self) -> (same: bool) {
        proof {
            use_type_invariant(self);
            use_type_invariant(other);
            lemma_quotient_order(self.num@, self.den@ as int, other.num@, other.den@ as int);
        }
        let left = self.num.mul(&Integer::from_natural(other.den.clone()));
        let right = other.num.mul(&Integer::from_natural(self.den.clone()));
        left.eq(&right)
    }
}

impl PartialEqSpecImpl for Rational {
    open spec fn obeys_eq_spec() -> bool {
        true
    }

    open spec fn eq_spec(&self, other: &Self) -> bool {
        self@ == other@
    }
}

impl Rational {
    #[verifier::type_invariant]
    spec fn positive_denominator(&self) -> bool {
        self.den@ > 0
    }

    /// The quotient `num / den`, in lowest terms where the magnitudes of both
    /// fit a machine integer.
    fn reduced(num: Integer, den: Natural) -> (q: Rational)
        requires
            den@ > 0,
        ensures
            q@ == quotient(num@, den@ as int),
            magnitude_of(num@) <= u128::MAX && den@ <= u128::MAX ==> lowest_terms(
                q.num@,
                q.den@ as int,
            ),
    {
        match (num.magnitude().to_u128(), den.to_u128()) {
            (Some(n), Some(d)) => {
                let g: u128 = common_divisor(n, d);
                proof {
                    lemma_lowest_terms(n as int, d as int, g as int);
                }
                let magnitude = Integer::from_natural(Natural::from_u128(n / g));
                let lower = if num.is_negative() {
                    magnitude.neg()
                } else {
                    magnitude
                };
                proof {
                    lemma_quotient_cancel(lower@, (d / g) as int, g as int);
                    assert(lower@ * g == num@) by (nonlinear_arith)
                        requires
                            n == g * (n / g),
                            lower@ == n / g && num@ == n || lower@ == -(n / g) && num@ == -n,
                    ;
                    assert((d / g) * g == d) by (nonlinear_arith)
                        requires
                            d == g * (d / g),
                    ;
                    assert(magnitude_of(lower@) == magnitude_of((n / g) as int));
                }
                Rational { num: lower, den: Natural::from_u128(d / g) }
            },
            _ => Rational { num, den },
        }
    }

    /// The rational number equal to the integer `v`.
    pub fn from_i64(v: i64) -> (q: Rational)
        ensures
            q@ == v as real,
    {
        proof {
            lemma_quotient_sign(v as int, 1);
        }
        Rational { num: Integer::from_i64(v), den: Natural::from_u64(1) }
    }

    /// The rational number `num / den`, or `None` when `den` is zero.
    pub fn from_ratio(num: i64, den: i64) -> (q: Option<Rational>)
        ensures
            q is Some <==> den != 0,
            q matches Some(r) ==> r@ == quotient(num as int, den as int),
    {
        Rational::from_integers(Integer::from_i64(num), Integer::from_i64(den))
    }

    /// The rational number `num / den`, or `None` when `den` is zero.
    pub fn from_integers(num: Integer, den: Integer) -> (q: Option<Rational>)
        ensures
            q is Some <==> den@ != 0,
            q matches Some(r) ==> r@ == quotient(num@, den@),
    {
        if den.is_zero() {
            None
        } else {
            let top = Rational { num, den: Natural::from_u64(1) };
            let bottom = Rational { num: den, den: Natural::from_u64(1) };
            proof {
                lemma_quotient_sign(num@, 1);
                lemma_quotient_sign(den@, 1);
            }
            top.div(&bottom)
        }
    }

    /// Whether the number is zero.
    pub fn is_zero(&self) -> (zero: bool)
        ensures
            zero == (self@ == 0real),
    {
        proof {
            use_type_invariant(self);
            lemma_quotient_sign(self.num@, self.den@ as int);
        }
        self.num.is_zero()
    }

    /// Whether the number is strictly below zero.
    pub fn is_negative(&self) -> (negative: bool)
        ensures
            negative == (self@ < 0real),
    {
        proof {
            use_type_invariant(self);
            lemma_quotient_sign(self.num@, self.den@ as int);
        }
        self.num.is_negative()
    }

    /// The additive inverse `-self`.
    pub fn neg(&self) -> (q: Rational)
        ensures
            q@ == -self@,
    {
        proof {
            use_type_invariant(self);
            lemma_quotient_sign(self.num@, self.den@ as int);
        }
        Rational { num: self.num.neg(), den: self.den.clone() }
    }

    /// The absolute value `|self|`.
    pub fn abs(&self) -> (q: Rational)
        ensures
            q@ == (if self@ < 0real { -self@ } else { self@ }),
    {
        if self.is_negative() {
            self.neg()
        } else {
            self.clone()
        }
    }

    /// The sum `self + other`.
    pub fn add(&self, other: &Rational) -> (sum: Rational)
        ensures
            sum@ == self@ + other@,
    {
        proof {
            use_type_invariant(self);
            use_type_invariant(other);
            lemma_quotient_add(self.num@, self.den@ as int, other.num@, other.den@ as int);
        }
        let left = self.num.mul(&Integer::from_natural(other.den.clone()));
        let right = other.num.mul(&Integer::from_natural(self.den.clone()));
        Rational::reduced(left.add(&right), self.den.mul(&other.den))
    }

    /// The difference `self - other`.
    pub fn sub(&self, other: &Rational) -> (diff: Rational)
        ensures
            diff@ == self@ - other@,
    {
        let minus = other.neg();
        self.add(&minus)
    }

    /// The product `self * other`.
    pub fn mul(&self, other: &Rational) -> (product: Rational)
        ensures
            product@ == self@ * other@,
    {
        proof {
            use_type_invariant(self);
            use_type_invariant(other);
            lemma_quotient_mul(self.num@, self.den@ as int, other.num@, other.den@ as int);
        }
        Rational::reduced(self.num.mul(&other.num), self.den.mul(&other.den))
    }

    /// The quotient `self / other`, or `None` when `other` is zero.
    pub fn div(&self, other: &Rational) -> (q: Option<Rational>)
        ensures
            q is Some <==> other@ != 0real,
            q matches Some(r) ==> r@ == self@ / other@,
    {
        proof {
            use_type_invariant(self);
            use_type_invariant(other);
            lemma_quotient_sign(other.num@, other.den@ as int);
        }
        if other.num.is_zero() {
            None
        } else {
            proof {
                lemma_quotient_div(self.num@, self.den@ as int, other.num@, other.den@ as int);
            }
            let scaled = self.num.mul(&Integer::from_natural(other.den.clone()));
            let num = if other.num.is_negative() {
                scaled.neg()
            } else {
                scaled
            };
            let den = self.den.mul(&other.num.magnitude());
            Some(Rational::reduced(num, den))
        }
    }

    /// Whether `self` is strictly less than `other`.
    pub fn lt(&self, other: &Rational) -> (less: bool)
        ensures
            less == (self@ < other@),
    {
        proof {
            use_type_invariant(self);
            use_type_invariant(other);
            lemma_quotient_order(self.num@, self.den@ as int, other.num@, other.den@ as int);
        }
        let left = self.num.mul(&Integer::from_natural(other.den.clone()));
        let right = other.num.mul(&Integer::from_natural(self.den.clone()));
        left.lt(&right)
    }

    /// Whether `self` is at most `other`.
    pub fn le(&self, other: &Rational) -> (at_most: bool)
        ensures
            at_most == (self@ <= other@),
    {
        !other.lt(self)
    }
}

} // verus!
