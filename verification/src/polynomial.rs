//! Polynomials as coefficient sequences: sums, multiples, division by a linear
//! factor, and the fact that a polynomial with more roots than coefficients
//! vanishes everywhere.

use crate::interpolant::{interpolant, lemma_basis_nonzero};
use crate::monomial::{monomial_sum, poly_eval, power};
use crate::newton::newton_basis;
use crate::point::{distinct_abscissas, Node};
use vstd::prelude::*;

verus! {

/// The coefficient of `x^i`, which is zero past the end of the sequence.
pub open spec fn coefficient(p: Seq<real>, i: int) -> real {
    if 0 <= i < p.len() {
        p[i]
    } else {
        0real
    }
}

/// The sum of the `k` lowest terms of `p` at `x`, for any `k`.
spec fn padded_sum(p: Seq<real>, x: real, k: nat) -> real
    decreases k,
{
    if k == 0 {
        0real
    } else {
        padded_sum(p, x, (k - 1) as nat) + coefficient(p, k - 1) * power(x, (k - 1) as nat)
    }
}

/// Up to the length of the sequence, padding changes nothing.
proof fn lemma_padded_sum_below(p: Seq<real>, x: real, k: nat)
    requires
        k <= p.len(),
    ensures
        padded_sum(p, x, k) == monomial_sum(p, x, k),
    decreases k,
{
    if k > 0 {
        lemma_padded_sum_below(p, x, (k - 1) as nat);
    }
}

/// From the length of the sequence on, the padded sum is the value of the
/// polynomial.
proof fn lemma_padded_sum_above(p: Seq<real>, x: real, k: nat)
    requires
        k >= p.len(),
    ensures
        padded_sum(p, x, k) == poly_eval(p, x),
    decreases k,
{
    if k > p.len() {
        lemma_padded_sum_above(p, x, (k - 1) as nat);
        let w = power(x, (k - 1) as nat);
        assert(0real * w == 0real) by (nonlinear_arith);
    } else {
        lemma_padded_sum_below(p, x, k);
    }
}

/// The sum of two polynomials.
pub open spec fn poly_add(p: Seq<real>, q: Seq<real>) -> Seq<real> {
    Seq::new(
        if p.len() >= q.len() {
            p.len()
        } else {
            q.len()
        },
        |i: int| coefficient(p, i) + coefficient(q, i),
    )
}

/// The multiple of a polynomial by a constant.
pub open spec fn poly_scale(s: real, p: Seq<real>) -> Seq<real> {
    Seq::new(p.len(), |i: int| s * p[i])
}

/// The product of a polynomial and the linear factor `x - r`.
pub open spec fn poly_times_linear(p: Seq<real>, r: real) -> Seq<real> {
    Seq::new(p.len() + 1, |i: int| coefficient(p, i - 1) - r * coefficient(p, i))
}

proof fn lemma_padded_add(p: Seq<real>, q: Seq<real>, x: real, k: nat)
    ensures
        padded_sum(poly_add(p, q), x, k) == padded_sum(p, x, k) + padded_sum(q, x, k),
    decreases k,
{
    if k > 0 {
        lemma_padded_add(p, q, x, (k - 1) as nat);
        let a = coefficient(p, k - 1);
        let b = coefficient(q, k - 1);
        let w = power(x, (k - 1) as nat);
        assert(coefficient(poly_add(p, q), k - 1) == a + b);
        assert((a + b) * w == a * w + b * w) by (nonlinear_arith);
    }
}

/// The sum of two polynomials takes the sum of their values.
pub proof fn lemma_poly_add(p: Seq<real>, q: Seq<real>, x: real)
    ensures
        poly_eval(poly_add(p, q), x) == poly_eval(p, x) + poly_eval(q, x),
{
    let sum = poly_add(p, q);
    lemma_padded_add(p, q, x, sum.len());
    lemma_padded_sum_above(sum, x, sum.len());
    lemma_padded_sum_above(p, x, sum.len());
    lemma_padded_sum_above(q, x, sum.len());
}

proof fn lemma_padded_scale(s: real, p: Seq<real>, x: real, k: nat)
    ensures
        padded_sum(poly_scale(s, p), x, k) == s * padded_sum(p, x, k),
    decreases k,
{
    if k == 0 {
        assert(s * 0real == 0real) by (nonlinear_arith);
    } else {
        lemma_padded_scale(s, p, x, (k - 1) as nat);
        let a = coefficient(p, k - 1);
        let w = power(x, (k - 1) as nat);
        let below = padded_sum(p, x, (k - 1) as nat);
        assert(coefficient(poly_scale(s, p), k - 1) == s * a) by {
            assert(s * 0real == 0real) by (nonlinear_arith);
        }
        assert(s * below + (s * a) * w == s * (below + a * w)) by (nonlinear_arith);
    }
}

/// A multiple of a polynomial takes that multiple of its values.
pub proof fn lemma_poly_scale(s: real, p: Seq<real>, x: real)
    ensures
        poly_eval(poly_scale(s, p), x) == s * poly_eval(p, x),
{
    lemma_padded_scale(s, p, x, p.len());
    lemma_padded_sum_above(poly_scale(s, p), x, p.len());
    lemma_padded_sum_above(p, x, p.len());
}

proof fn lemma_padded_times_linear(p: Seq<real>, r: real, x: real, k: nat)
    ensures
        padded_sum(poly_times_linear(p, r), x, k + 1) == x * padded_sum(p, x, k) - r * padded_sum(
            p,
            x,
            k + 1,
        ),
    decreases k,
{
    let t = poly_times_linear(p, r);
    if k == 0 {
        let a = coefficient(p, 0);
        assert(padded_sum(t, x, 0) == 0real);
        assert(padded_sum(p, x, 0) == 0real);
        assert(coefficient(t, 0) == 0real - r * a);
        assert(padded_sum(t, x, 1) == (0real - r * a) * 1real);
        assert(padded_sum(p, x, 1) == a * 1real);
    } else {
        lemma_padded_times_linear(p, r, x, (k - 1) as nat);
        let a0 = coefficient(p, k - 1);
        let a1 = coefficient(p, k as int);
        let w = power(x, (k - 1) as nat);
        let xw = x * w;
        let s0 = padded_sum(p, x, (k - 1) as nat);
        let s1 = s0 + a0 * w;
        let q = a1 * xw;
        assert(coefficient(t, k as int) == a0 - r * a1);
        assert(power(x, k) == xw);
        assert(padded_sum(p, x, k) == s1);
        assert(padded_sum(p, x, k + 1) == s1 + q);
        assert(padded_sum(t, x, k + 1) == (x * s0 - r * s1) + (a0 - r * a1) * xw);
        assert(x * s1 == x * s0 + x * (a0 * w)) by (nonlinear_arith)
            requires
                s1 == s0 + a0 * w,
        ;
        assert((a0 - r * a1) * xw == a0 * xw - r * (a1 * xw)) by (nonlinear_arith);
        assert(a0 * xw == x * (a0 * w)) by (nonlinear_arith)
            requires
                xw == x * w,
        ;
        assert(r * (s1 + q) == r * s1 + r * q) by (nonlinear_arith);
    }
}

/// The product with `x - r` takes the values of the polynomial times `x - r`.
pub proof fn lemma_poly_times_linear(p: Seq<real>, r: real, x: real)
    ensures
        poly_eval(poly_times_linear(p, r), x) == (x - r) * poly_eval(p, x),
{
    let t = poly_times_linear(p, r);
    lemma_padded_times_linear(p, r, x, p.len());
    lemma_padded_sum_above(t, x, p.len() + 1);
    lemma_padded_sum_above(p, x, p.len());
    lemma_padded_sum_above(p, x, p.len() + 1);
    let v = poly_eval(p, x);
    assert(x * v - r * v == (x - r) * v) by (nonlinear_arith);
}

proof fn lemma_padded_tail(p: Seq<real>, x: real, k: nat)
    requires
        p.len() > 0,
    ensures
        padded_sum(p, x, k + 1) == p[0] + x * padded_sum(p.skip(1), x, k),
    decreases k,
{
    let tail = p.skip(1);
    if k == 0 {
        assert(padded_sum(p, x, 0) == 0real);
        assert(padded_sum(tail, x, 0) == 0real);
        assert(0real + p[0] * 1real == p[0] + x * 0real) by (nonlinear_arith);
    } else {
        lemma_padded_tail(p, x, (k - 1) as nat);
        let c = coefficient(p, k as int);
        let w = power(x, (k - 1) as nat);
        let s = padded_sum(tail, x, (k - 1) as nat);
        assert(coefficient(tail, k - 1) == c);
        assert(power(x, k) == x * w);
        assert((p[0] + x * s) + c * (x * w) == p[0] + x * (s + c * w)) by (nonlinear_arith);
    }
}

/// Horner's rule, one step: a polynomial is its constant term plus `x` times
/// the polynomial of its remaining coefficients.
pub proof fn lemma_poly_tail(p: Seq<real>, x: real)
    requires
        p.len() > 0,
    ensures
        poly_eval(p, x) == p[0] + x * poly_eval(p.skip(1), x),
{
    lemma_padded_tail(p, x, (p.len() - 1) as nat);
    lemma_padded_sum_above(p, x, p.len());
    lemma_padded_sum_above(p.skip(1), x, (p.len() - 1) as nat);
}

/// The quotient of `p(x) - p(r)` by `x - r`.
pub open spec fn quotient_by_linear(p: Seq<real>, r: real) -> Seq<real>
    decreases p.len(),
{
    if p.len() <= 1 {
        Seq::empty()
    } else {
        poly_add(p.skip(1), poly_scale(r, quotient_by_linear(p.skip(1), r)))
    }
}

/// The factor theorem: `p(x) - p(r)` is `x - r` times a polynomial with one
/// coefficient fewer.
pub proof fn lemma_factor(p: Seq<real>, r: real, x: real)
    requires
        p.len() > 0,
    ensures
        quotient_by_linear(p, r).len() == p.len() - 1,
        poly_eval(p, x) - poly_eval(p, r) == (x - r) * poly_eval(quotient_by_linear(p, r), x),
    decreases p.len(),
{
    lemma_poly_tail(p, x);
    lemma_poly_tail(p, r);
    let tail = p.skip(1);
    if p.len() == 1 {
        assert(poly_eval(tail, x) == 0real);
        assert(poly_eval(tail, r) == 0real);
        assert(poly_eval(quotient_by_linear(p, r), x) == 0real);
        assert((x - r) * 0real == 0real && x * 0real == 0real && r * 0real == 0real)
            by (nonlinear_arith);
    } else {
        lemma_factor(tail, r, x);
        let inner = quotient_by_linear(tail, r);
        lemma_poly_add(tail, poly_scale(r, inner), x);
        lemma_poly_scale(r, inner, x);
        let tx = poly_eval(tail, x);
        let tr = poly_eval(tail, r);
        let qx = poly_eval(inner, x);
        assert(x * tx - r * tr == (x - r) * (tx + r * qx)) by (nonlinear_arith)
            requires
                tx - tr == (x - r) * qx,
        ;
    }
}

/// A polynomial with at least as many distinct roots as coefficients is zero
/// everywhere.
pub proof fn lemma_vanishes(p: Seq<real>, roots: Seq<real>, x: real)
    requires
        p.len() <= roots.len(),
        forall|i: int, j: int| 0 <= i < j < roots.len() ==> roots[i] != roots[j],
        forall|i: int| 0 <= i < roots.len() ==> poly_eval(p, #[trigger] roots[i]) == 0real,
    ensures
        poly_eval(p, x) == 0real,
    decreases roots.len(),
{
    if p.len() > 0 {
        let r = roots.last();
        let rest = roots.drop_last();
        let q = quotient_by_linear(p, r);
        assert forall|i: int| 0 <= i < rest.len() implies poly_eval(q, #[trigger] rest[i])
            == 0real by {
            lemma_factor(p, r, rest[i]);
            let a = rest[i] - r;
            let v = poly_eval(q, rest[i]);
            assert(rest[i] == roots[i]);
            assert(v == 0real) by (nonlinear_arith)
                requires
                    a * v == 0real,
                    a != 0real,
            ;
        }
        lemma_factor(p, r, x);
        lemma_vanishes(q, rest, x);
        assert((x - r) * 0real == 0real) by (nonlinear_arith);
    }
}

/// The coefficients of the Newton basis polynomial of order `k`.
pub open spec fn basis_coefficients(nodes: Seq<Node>, k: nat) -> Seq<real>
    decreases k,
{
    if k == 0 {
        seq![1real]
    } else {
        poly_times_linear(basis_coefficients(nodes, (k - 1) as nat), nodes[k - 1].x)
    }
}

/// The basis polynomial of order `k` has `k + 1` coefficients, and they
/// evaluate to the product that defines it.
pub proof fn lemma_basis_coefficients(nodes: Seq<Node>, x: real, k: nat)
    ensures
        basis_coefficients(nodes, k).len() == k + 1,
        poly_eval(basis_coefficients(nodes, k), x) == newton_basis(nodes, x, k),
    decreases k,
{
    if k == 0 {
        let one = seq![1real];
        assert(monomial_sum(one, x, 0) == 0real);
        assert(0real + 1real * 1real == 1real) by (nonlinear_arith);
    } else {
        let below = basis_coefficients(nodes, (k - 1) as nat);
        lemma_basis_coefficients(nodes, x, (k - 1) as nat);
        lemma_poly_times_linear(below, nodes[k - 1].x, x);
        let b = newton_basis(nodes, x, (k - 1) as nat);
        let e = x - nodes[k - 1].x;
        assert(e * b == b * e) by (nonlinear_arith);
    }
}

/// The factor by which node `j` enters the interpolant.
pub open spec fn leading(nodes: Seq<Node>, j: nat) -> real {
    (nodes[j as int].y - interpolant(nodes, j, nodes[j as int].x)) / newton_basis(
        nodes,
        nodes[j as int].x,
        j,
    )
}

/// The coefficients of the interpolant through the first `k` nodes.
pub open spec fn interpolant_coefficients(nodes: Seq<Node>, k: nat) -> Seq<real>
    decreases k,
{
    if k == 0 {
        Seq::empty()
    } else {
        poly_add(
            interpolant_coefficients(nodes, (k - 1) as nat),
            poly_scale(leading(nodes, (k - 1) as nat), basis_coefficients(nodes, (k - 1) as nat)),
        )
    }
}

/// The interpolant through `k` nodes is a polynomial with at most `k`
/// coefficients.
pub proof fn lemma_interpolant_coefficients(nodes: Seq<Node>, x: real, k: nat)
    ensures
        interpolant_coefficients(nodes, k).len() <= k,
        poly_eval(interpolant_coefficients(nodes, k), x) == interpolant(nodes, k, x),
    decreases k,
{
    if k > 0 {
        let j = (k - 1) as nat;
        let below = interpolant_coefficients(nodes, j);
        let basis = basis_coefficients(nodes, j);
        lemma_interpolant_coefficients(nodes, x, j);
        lemma_basis_coefficients(nodes, x, j);
        lemma_poly_scale(leading(nodes, j), basis, x);
        lemma_poly_add(below, poly_scale(leading(nodes, j), basis), x);
    }
}

/// A polynomial with no more coefficients than there are nodes, and passing
/// through all of them, is the interpolant.
pub proof fn lemma_interpolant_unique(nodes: Seq<Node>, coeffs: Seq<real>, x: real)
    requires
        distinct_abscissas(nodes),
        coeffs.len() <= nodes.len(),
        forall|i: int| 0 <= i < nodes.len() ==> poly_eval(coeffs, nodes[i].x) == nodes[i].y,
    ensures
        interpolant(nodes, nodes.len(), x) == poly_eval(coeffs, x),
{
    let n = nodes.len();
    let own = interpolant_coefficients(nodes, n);
    let minus = poly_scale(-1real, own);
    let gap = poly_add(coeffs, minus);
    let roots = Seq::new(n, |i: int| nodes[i].x);
    lemma_interpolant_coefficients(nodes, x, n);
    assert forall|i: int| 0 <= i < roots.len() implies poly_eval(gap, #[trigger] roots[i])
        == 0real by {
        let r = nodes[i].x;
        lemma_interpolant_coefficients(nodes, r, n);
        crate::interpolant::lemma_interpolant_at_node(nodes, n, i);
        lemma_poly_scale(-1real, own, r);
        lemma_poly_add(coeffs, minus, r);
    }
    lemma_vanishes(gap, roots, x);
    lemma_poly_scale(-1real, own, x);
    lemma_poly_add(coeffs, minus, x);
}

} // verus!
