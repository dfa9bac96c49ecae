//! The interpolating polynomial, built one node at a time, and the proofs
//! that the Newton form and the barycentric form both compute it.

use crate::lagrange::{
    barycentric_denominator, barycentric_numerator, lagrange_value, lemma_weight_nonzero, weight,
    weight_among,
};
use crate::newton::{divided_difference, newton_basis, newton_sum, newton_value};
use crate::point::{distinct_abscissas, first_match, lemma_first_match, Node};
use vstd::prelude::*;

verus! {

/// The value at `x` of the polynomial of degree below `k` through the first
/// `k` nodes.
///
/// Each node adds one multiple of the Newton basis polynomial of its order,
/// chosen so that the curve passes through that node; the basis polynomial
/// vanishes at all earlier nodes, which are therefore left untouched.
pub open spec fn interpolant(nodes: Seq<Node>, k: nat, x: real) -> real
    decreases k,
{
    if k == 0 {
        0real
    } else {
        let j = (k - 1) as nat;
        interpolant(nodes, j, x) + (nodes[j as int].y - interpolant(nodes, j, nodes[j as int].x))
            / newton_basis(nodes, nodes[j as int].x, j) * newton_basis(nodes, x, j)
    }
}

/// A basis polynomial is nonzero away from its nodes.
pub proof fn lemma_basis_nonzero(nodes: Seq<Node>, x: real, k: nat)
    requires
        k <= nodes.len(),
        forall|m: int| 0 <= m < k ==> nodes[m].x != x,
    ensures
        newton_basis(nodes, x, k) != 0real,
    decreases k,
{
    if k > 0 {
        lemma_basis_nonzero(nodes, x, (k - 1) as nat);
        let b = newton_basis(nodes, x, (k - 1) as nat);
        let e = x - nodes[k - 1].x;
        assert(b * e != 0real) by (nonlinear_arith)
            requires
                b != 0real,
                e != 0real,
        ;
    }
}

/// A basis polynomial vanishes at each of its nodes.
proof fn lemma_basis_vanishes(nodes: Seq<Node>, x: real, m: int, k: nat)
    requires
        0 <= m < k,
        nodes[m].x == x,
    ensures
        newton_basis(nodes, x, k) == 0real,
    decreases k,
{
    let b = newton_basis(nodes, x, (k - 1) as nat);
    let e = x - nodes[k - 1].x;
    if m == k - 1 {
        assert(b * e == 0real) by (nonlinear_arith)
            requires
                e == 0real,
        ;
    } else {
        lemma_basis_vanishes(nodes, x, m, (k - 1) as nat);
        assert(b * e == 0real) by (nonlinear_arith)
            requires
                b == 0real,
        ;
    }
}

/// The interpolant through the first `k` nodes passes through each of them.
pub proof fn lemma_interpolant_at_node(nodes: Seq<Node>, k: nat, t: int)
    requires
        distinct_abscissas(nodes),
        0 <= t < k <= nodes.len(),
    ensures
        interpolant(nodes, k, nodes[t].x) == nodes[t].y,
    decreases k,
{
    let j = (k - 1) as nat;
    let x = nodes[t].x;
    let below = interpolant(nodes, j, x);
    let lead = (nodes[j as int].y - interpolant(nodes, j, nodes[j as int].x)) / newton_basis(
        nodes,
        nodes[j as int].x,
        j,
    );
    let b = newton_basis(nodes, x, j);
    if t == j {
        lemma_basis_nonzero(nodes, x, j);
        let y = nodes[t].y;
        assert(below + (y - below) / b * b == y) by (nonlinear_arith)
            requires
                b != 0real,
        ;
    } else {
        lemma_interpolant_at_node(nodes, j, t);
        lemma_basis_vanishes(nodes, x, t, j);
        assert(lead * b == 0real) by (nonlinear_arith)
            requires
                b == 0real,
        ;
    }
}

/// The divided difference of the nodes `i` to `j` as a real number.
spec fn difference(nodes: Seq<Node>, i: int, j: int) -> real {
    match divided_difference(nodes, i, j) {
        Some(d) => d,
        None => 0real,
    }
}

/// With distinct abscissas every divided difference exists, and it satisfies
/// the defining recurrence.
proof fn lemma_difference_defined(nodes: Seq<Node>, i: int, j: int)
    requires
        distinct_abscissas(nodes),
        0 <= i <= j < nodes.len(),
    ensures
        divided_difference(nodes, i, j) == Some(difference(nodes, i, j)),
        i == j ==> difference(nodes, i, j) == nodes[i].y,
        i < j ==> difference(nodes, i, j) * (nodes[j].x - nodes[i].x) == difference(
            nodes,
            i + 1,
            j,
        ) - difference(nodes, i, j - 1),
    decreases j - i,
{
    if i < j {
        lemma_difference_defined(nodes, i + 1, j);
        lemma_difference_defined(nodes, i, j - 1);
        let u = difference(nodes, i + 1, j);
        let l = difference(nodes, i, j - 1);
        let e = nodes[j].x - nodes[i].x;
        assert((u - l) / e * e == u - l) by (nonlinear_arith)
            requires
                e != 0real,
        ;
    }
}

/// The product of `x - x_m` over the nodes `i <= m < k`.
spec fn basis_from(nodes: Seq<Node>, x: real, i: int, k: int) -> real
    decreases k - i,
{
    if k <= i {
        1real
    } else {
        basis_from(nodes, x, i, k - 1) * (x - nodes[k - 1].x)
    }
}

/// The Newton sum anchored at node `i`: the sum of
/// `f[x_i, ..., x_k] * basis_from(i, k)` over `i <= k < m`.
spec fn sum_from(nodes: Seq<Node>, x: real, i: int, m: int) -> real
    decreases m - i,
{
    if m <= i {
        0real
    } else {
        sum_from(nodes, x, i, m - 1) + difference(nodes, i, m - 1) * basis_from(nodes, x, i, m - 1)
    }
}

/// Anchored at the first node, the product is the Newton basis polynomial.
proof fn lemma_basis_from_start(nodes: Seq<Node>, x: real, k: nat)
    ensures
        basis_from(nodes, x, 0, k as int) == newton_basis(nodes, x, k),
    decreases k,
{
    if k > 0 {
        lemma_basis_from_start(nodes, x, (k - 1) as nat);
    }
}

/// Splitting off the first factor of a basis product.
proof fn lemma_basis_from_front(nodes: Seq<Node>, x: real, i: int, k: int)
    requires
        i < k,
    ensures
        basis_from(nodes, x, i, k) == (x - nodes[i].x) * basis_from(nodes, x, i + 1, k),
    decreases k - i,
{
    let f = x - nodes[i].x;
    if k == i + 1 {
        assert(basis_from(nodes, x, i, i) == 1real);
        assert(basis_from(nodes, x, i + 1, k) == 1real);
        assert(1real * f == f * 1real) by (nonlinear_arith);
    } else {
        lemma_basis_from_front(nodes, x, i, k - 1);
        let rest = basis_from(nodes, x, i + 1, k - 1);
        let e = x - nodes[k - 1].x;
        assert((f * rest) * e == f * (rest * e)) by (nonlinear_arith);
    }
}

/// Moving the anchor of a Newton sum one node up.
proof fn lemma_sum_from_shift(nodes: Seq<Node>, x: real, i: int, m: int)
    requires
        distinct_abscissas(nodes),
        0 <= i < m <= nodes.len(),
    ensures
        sum_from(nodes, x, i, m) == sum_from(nodes, x, i + 1, m) + difference(nodes, i, m - 1)
            * basis_from(nodes, x, i + 1, m),
    decreases m - i,
{
    if m == i + 1 {
        lemma_difference_defined(nodes, i, i);
        assert(sum_from(nodes, x, i, i) == 0real);
        assert(basis_from(nodes, x, i, i) == 1real);
        assert(basis_from(nodes, x, i + 1, m) == 1real);
        assert(sum_from(nodes, x, i + 1, m) == 0real);
    } else {
        let k = m - 1;
        lemma_sum_from_shift(nodes, x, i, k);
        lemma_basis_from_front(nodes, x, i, k);
        lemma_difference_defined(nodes, i, k);
        let a = sum_from(nodes, x, i, k);
        let a1 = sum_from(nodes, x, i + 1, k);
        let d0 = difference(nodes, i, k - 1);
        let d = difference(nodes, i, k);
        let u = difference(nodes, i + 1, k);
        let pi = basis_from(nodes, x, i + 1, k);
        let f = x - nodes[i].x;
        let e = x - nodes[k].x;
        let g = nodes[k].x - nodes[i].x;
        assert(basis_from(nodes, x, i + 1, m) == pi * e);
        assert(sum_from(nodes, x, i + 1, m) == a1 + u * pi);
        assert(sum_from(nodes, x, i, m) == a + d * (f * pi));
        assert(a + d * (f * pi) == (a1 + u * pi) + d * (pi * e)) by (nonlinear_arith)
            requires
                a == a1 + d0 * pi,
                d * g == u - d0,
                f == g + e,
        ;
    }
}

/// A Newton sum anchored anywhere passes through the last node it covers.
proof fn lemma_sum_from_at_last(nodes: Seq<Node>, i: int, t: int)
    requires
        distinct_abscissas(nodes),
        0 <= i <= t < nodes.len(),
    ensures
        sum_from(nodes, nodes[t].x, i, t + 1) == nodes[t].y,
    decreases t - i,
{
    let x = nodes[t].x;
    if i == t {
        lemma_difference_defined(nodes, i, i);
        assert(sum_from(nodes, x, i, i) == 0real);
        assert(basis_from(nodes, x, i, i) == 1real);
    } else {
        lemma_sum_from_shift(nodes, x, i, t + 1);
        lemma_sum_from_at_last(nodes, i + 1, t);
        let rest = basis_from(nodes, x, i + 1, t);
        let d = difference(nodes, i, t);
        assert(basis_from(nodes, x, i + 1, t + 1) == rest * (x - nodes[t].x));
        assert(d * (rest * (x - x)) == 0real) by (nonlinear_arith);
    }
}

/// The Newton sum over the first `k` orders is the interpolant through the
/// first `k` nodes.
proof fn lemma_newton_sum_is_interpolant(nodes: Seq<Node>, x: real, k: nat)
    requires
        distinct_abscissas(nodes),
        k <= nodes.len(),
    ensures
        newton_sum(nodes, x, k) == Some(interpolant(nodes, k, x)),
        sum_from(nodes, x, 0, k as int) == interpolant(nodes, k, x),
    decreases k,
{
    if k > 0 {
        let j = (k - 1) as nat;
        let xj = nodes[j as int].x;
        let yj = nodes[j as int].y;
        lemma_newton_sum_is_interpolant(nodes, x, j);
        lemma_newton_sum_is_interpolant(nodes, xj, j);
        lemma_sum_from_at_last(nodes, 0, j as int);
        lemma_difference_defined(nodes, 0, j as int);
        lemma_basis_from_start(nodes, x, j);
        lemma_basis_from_start(nodes, xj, j);
        lemma_basis_nonzero(nodes, xj, j);
        let d = difference(nodes, 0, j as int);
        let b = newton_basis(nodes, xj, j);
        let below = interpolant(nodes, j, xj);
        assert(sum_from(nodes, xj, 0, k as int) == below + d * b);
        assert(d == (yj - below) / b) by (nonlinear_arith)
            requires
                below + d * b == yj,
                b != 0real,
        ;
    }
}

/// With distinct abscissas the Newton interpolant has a value everywhere: that
/// of the interpolating polynomial.
pub proof fn lemma_newton_is_interpolant(nodes: Seq<Node>, x: real)
    requires
        distinct_abscissas(nodes),
    ensures
        newton_value(nodes, x) == Some(interpolant(nodes, nodes.len(), x)),
{
    lemma_first_match(nodes, x, 0);
    match first_match(nodes, x, 0) {
        Some(i) => {
            lemma_interpolant_at_node(nodes, nodes.len(), i);
        },
        None => {
            lemma_newton_sum_is_interpolant(nodes, x, nodes.len());
        },
    }
}

/// The sum of `y_i / ((x - x_i) * w_i)` over the nodes `i < m`, with the
/// weights `w_i` taken among the first `k` nodes only.
spec fn partial_fractions(nodes: Seq<Node>, x: real, m: nat, k: nat) -> real
    decreases m,
{
    if m == 0 {
        0real
    } else {
        partial_fractions(nodes, x, (m - 1) as nat, k) + nodes[m - 1].y / ((x - nodes[m - 1].x)
            * weight_among(nodes, m - 1, k))
    }
}

/// The nodes with every ordinate replaced by one.
spec fn unit_ordinates(nodes: Seq<Node>) -> Seq<Node> {
    Seq::new(nodes.len(), |i: int| Node { x: nodes[i].x, y: 1real })
}

/// The barycentric numerator is the partial-fraction sum with the weights
/// taken among all nodes.
proof fn lemma_numerator_is_partial_fractions(nodes: Seq<Node>, x: real, m: nat)
    ensures
        barycentric_numerator(nodes, x, m) == partial_fractions(nodes, x, m, nodes.len()),
    decreases m,
{
    if m > 0 {
        lemma_numerator_is_partial_fractions(nodes, x, (m - 1) as nat);
    }
}

/// Among the nodes before it, the weight of a node is the basis polynomial
/// of that order at its abscissa.
proof fn lemma_weight_is_basis(nodes: Seq<Node>, k: int, j: nat)
    requires
        distinct_abscissas(nodes),
        0 <= j <= k < nodes.len(),
    ensures
        weight_among(nodes, k, j) == newton_basis(nodes, nodes[k].x, j),
    decreases j,
{
    if j > 0 {
        lemma_weight_is_basis(nodes, k, (j - 1) as nat);
    }
}

proof fn lemma_quotient_cancels(y: real, b: real)
    requires
        b != 0real,
    ensures
        (y / b) * b == y,
{
    assert((y / b) * b == y) by (nonlinear_arith)
        requires
            b != 0real,
    ;
}

/// One term of the partial-fraction step: with `a = x - x_i` and
/// `c = x_i - x_k`, so that `a + c = x - x_k`.
proof fn lemma_fraction_split(y: real, a: real, c: real, w: real)
    requires
        a != 0real,
        c != 0real,
        w != 0real,
    ensures
        y / (a * (w * c)) * (a + c) == y / (a * w) - y / ((-c) * w),
{
    let both = a * (w * c);
    let near = a * w;
    let far = (-c) * w;
    assert(both != 0real && near != 0real && far != 0real) by (nonlinear_arith)
        requires
            a != 0real,
            c != 0real,
            w != 0real,
            both == a * (w * c),
            near == a * w,
            far == (-c) * w,
    ;
    let whole = y / both;
    let here = y / near;
    let there = y / far;
    lemma_quotient_cancels(y, both);
    lemma_quotient_cancels(y, near);
    lemma_quotient_cancels(y, far);
    assert(whole * (a + c) == here - there) by (nonlinear_arith)
        requires
            whole * (a * (w * c)) == y,
            here * (a * w) == y,
            there * ((-c) * w) == y,
            a != 0real,
            c != 0real,
            w != 0real,
    ;
}

/// Adding node `k` to the weights divides the partial fractions over the
/// earlier nodes by `x - x_k`, after subtracting their value at `x_k`.
proof fn lemma_partial_fractions_step(nodes: Seq<Node>, x: real, m: nat, k: int)
    requires
        distinct_abscissas(nodes),
        0 <= m <= k < nodes.len(),
        forall|i: int| 0 <= i <= k ==> nodes[i].x != x,
    ensures
        partial_fractions(nodes, x, m, (k + 1) as nat) * (x - nodes[k].x) == partial_fractions(
            nodes,
            x,
            m,
            k as nat,
        ) - partial_fractions(nodes, nodes[k].x, m, k as nat),
    decreases m,
{
    let e = x - nodes[k].x;
    if m == 0 {
        assert(0real * e == 0real) by (nonlinear_arith);
    } else {
        let i = m - 1;
        lemma_partial_fractions_step(nodes, x, i as nat, k);
        lemma_weight_nonzero(nodes, i, k as nat);
        let y = nodes[i].y;
        let a = x - nodes[i].x;
        let c = nodes[i].x - nodes[k].x;
        let w = weight_among(nodes, i, k as nat);
        assert(weight_among(nodes, i, (k + 1) as nat) == w * c);
        lemma_fraction_split(y, a, c, w);
        let s = partial_fractions(nodes, x, i as nat, (k + 1) as nat);
        let t = y / (a * (w * c));
        assert(nodes[k].x - nodes[i].x == -c);
        assert(e == a + c);
        assert((s + t) * e == s * e + t * (a + c)) by (nonlinear_arith)
            requires
                e == a + c,
        ;
    }
}

/// The algebra of one more node: from the partial fractions `p` at `x` and
/// `q` at the new abscissa, both over the earlier nodes, to those over all
/// nodes up to the new one, which has ordinate `y`, basis value `bk` at its
/// own abscissa, and lies `e` away from `x`.
proof fn lemma_barycentric_step(
    s: real,
    p: real,
    q: real,
    below: real,
    below_k: real,
    b: real,
    e: real,
    bk: real,
    y: real,
)
    requires
        s * e == p - q,
        p * b == below,
        q * bk == below_k,
        e != 0real,
        bk != 0real,
    ensures
        (s + y / (e * bk)) * (b * e) == below + (y - below_k) / bk * b,
{
    let d = e * bk;
    assert(d != 0real) by (nonlinear_arith)
        requires
            e != 0real,
            bk != 0real,
            d == e * bk,
    ;
    let t = y / d;
    let u = (y - below_k) / bk;
    lemma_quotient_cancels(y, d);
    lemma_quotient_cancels(y - below_k, bk);
    assert(t * e == u + q) by (nonlinear_arith)
        requires
            t * (e * bk) == y,
            u * bk == y - below_k,
            q * bk == below_k,
            bk != 0real,
    ;
    assert((s + t) * (b * e) == below + u * b) by (nonlinear_arith)
        requires
            s * e == p - q,
            p * b == below,
            t * e == u + q,
    ;
}

/// Away from the first `k` nodes, their partial fractions are the
/// interpolant through them over the basis polynomial of order `k`.
proof fn lemma_partial_fractions_are_interpolant(nodes: Seq<Node>, x: real, k: nat)
    requires
        distinct_abscissas(nodes),
        k <= nodes.len(),
        forall|i: int| 0 <= i < k ==> nodes[i].x != x,
    ensures
        partial_fractions(nodes, x, k, k) * newton_basis(nodes, x, k) == interpolant(nodes, k, x),
    decreases k,
{
    if k == 0 {
        assert(0real * 1real == 0real) by (nonlinear_arith);
    } else {
        let j = (k - 1) as nat;
        let xj = nodes[j as int].x;
        let yj = nodes[j as int].y;
        lemma_partial_fractions_are_interpolant(nodes, x, j);
        lemma_partial_fractions_are_interpolant(nodes, xj, j);
        lemma_partial_fractions_step(nodes, x, j, j as int);
        lemma_weight_is_basis(nodes, j as int, j);
        lemma_basis_nonzero(nodes, xj, j);
        let bk = newton_basis(nodes, xj, j);
        assert(weight_among(nodes, j as int, k) == bk);
        lemma_barycentric_step(
            partial_fractions(nodes, x, j, k),
            partial_fractions(nodes, x, j, j),
            partial_fractions(nodes, xj, j, j),
            interpolant(nodes, j, x),
            interpolant(nodes, j, xj),
            newton_basis(nodes, x, j),
            x - xj,
            bk,
            yj,
        );
    }
}

/// Weights depend on the abscissas only.
proof fn lemma_unit_weight(nodes: Seq<Node>, i: int, k: nat)
    requires
        0 <= i < nodes.len(),
        k <= nodes.len(),
    ensures
        weight_among(unit_ordinates(nodes), i, k) == weight_among(nodes, i, k),
    decreases k,
{
    if k > 0 {
        lemma_unit_weight(nodes, i, (k - 1) as nat);
    }
}

/// Basis polynomials depend on the abscissas only.
proof fn lemma_unit_basis(nodes: Seq<Node>, x: real, k: nat)
    requires
        k <= nodes.len(),
    ensures
        newton_basis(unit_ordinates(nodes), x, k) == newton_basis(nodes, x, k),
    decreases k,
{
    if k > 0 {
        lemma_unit_basis(nodes, x, (k - 1) as nat);
    }
}

/// The barycentric denominator is the numerator of the same abscissas at
/// height one.
proof fn lemma_denominator_is_unit_numerator(nodes: Seq<Node>, x: real, m: nat)
    requires
        m <= nodes.len(),
    ensures
        barycentric_denominator(nodes, x, m) == barycentric_numerator(
            unit_ordinates(nodes),
            x,
            m,
        ),
    decreases m,
{
    if m > 0 {
        lemma_denominator_is_unit_numerator(nodes, x, (m - 1) as nat);
        lemma_unit_weight(nodes, m - 1, nodes.len());
    }
}

/// The interpolant through nodes that all lie at height one is the constant
/// one.
proof fn lemma_unit_interpolant(nodes: Seq<Node>, x: real, k: nat)
    requires
        distinct_abscissas(nodes),
        1 <= k <= nodes.len(),
    ensures
        interpolant(unit_ordinates(nodes), k, x) == 1real,
    decreases k,
{
    let units = unit_ordinates(nodes);
    let j = (k - 1) as nat;
    let xj = units[j as int].x;
    let b = newton_basis(units, xj, j);
    let c = newton_basis(units, x, j);
    if k == 1 {
        assert(interpolant(units, 0, x) == 0real);
        assert(interpolant(units, 0, xj) == 0real);
        assert(b == 1real);
        assert(c == 1real);
        assert(0real + (1real - 0real) / 1real * 1real == 1real) by (nonlinear_arith);
    } else {
        lemma_unit_interpolant(nodes, x, j);
        lemma_unit_interpolant(nodes, xj, j);
        lemma_unit_basis(nodes, xj, j);
        lemma_basis_nonzero(nodes, xj, j);
        assert(1real + (1real - 1real) / b * c == 1real) by (nonlinear_arith)
            requires
                b != 0real,
        ;
    }
}

/// With distinct abscissas and at least one node, the barycentric interpolant
/// has a value everywhere: that of the interpolating polynomial.
pub proof fn lemma_lagrange_is_interpolant(nodes: Seq<Node>, x: real)
    requires
        distinct_abscissas(nodes),
        nodes.len() > 0,
    ensures
        lagrange_value(nodes, x) == Some(interpolant(nodes, nodes.len(), x)),
{
    let n = nodes.len();
    lemma_first_match(nodes, x, 0);
    match first_match(nodes, x, 0) {
        Some(i) => {
            lemma_interpolant_at_node(nodes, n, i);
        },
        None => {
            let units = unit_ordinates(nodes);
            let b = newton_basis(nodes, x, n);
            let num = barycentric_numerator(nodes, x, n);
            let den = barycentric_denominator(nodes, x, n);
            let value = interpolant(nodes, n, x);
            lemma_basis_nonzero(nodes, x, n);
            lemma_numerator_is_partial_fractions(nodes, x, n);
            lemma_partial_fractions_are_interpolant(nodes, x, n);
            lemma_denominator_is_unit_numerator(nodes, x, n);
            lemma_numerator_is_partial_fractions(units, x, n);
            lemma_partial_fractions_are_interpolant(units, x, n);
            lemma_unit_basis(nodes, x, n);
            lemma_unit_interpolant(nodes, x, n);
            assert(den != 0real && num / den == value) by (nonlinear_arith)
                requires
                    num * b == value,
                    den * b == 1real,
            ;
        },
    }
}

} // verus!
