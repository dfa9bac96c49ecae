//! What holds of the interpolants whatever the nodes and the query.
//!
//! The statements are over the mathematical models only: node sequences, real
//! queries and the value functions that the evaluators are specified by.

use crate::interpolant::{
    interpolant, lemma_interpolant_at_node, lemma_lagrange_is_interpolant,
    lemma_newton_is_interpolant,
};
use crate::lagrange::lagrange_value;
use crate::monomial::poly_eval;
use crate::newton::{divided_difference, newton_sum, newton_value};
use crate::point::{distinct_abscissas, first_match, lemma_first_match, Node};
use crate::polynomial::{
    interpolant_coefficients, lemma_interpolant_coefficients, lemma_interpolant_unique,
};
use vstd::prelude::*;

verus! {

/// Both interpolants are exact at their nodes: queried at the abscissa of a
/// node they return that node's ordinate, provided no earlier node has the
/// same abscissa.
pub proof fn lemma_exact_at_nodes(nodes: Seq<Node>, i: int)
    requires
        0 <= i < nodes.len(),
        forall|j: int| 0 <= j < i ==> nodes[j].x != nodes[i].x,
    ensures
        lagrange_value(nodes, nodes[i].x) == Some(nodes[i].y),
        newton_value(nodes, nodes[i].x) == Some(nodes[i].y),
{
    lemma_first_match(nodes, nodes[i].x, 0);
}

/// Through nodes with distinct abscissas, the barycentric form and the Newton
/// form have a value at every query, and it is the same value.
pub proof fn lemma_lagrange_newton_agree(nodes: Seq<Node>, x: real)
    requires
        distinct_abscissas(nodes),
        nodes.len() > 0,
    ensures
        lagrange_value(nodes, x) is Some,
        lagrange_value(nodes, x) == newton_value(nodes, x),
{
    lemma_lagrange_is_interpolant(nodes, x);
    lemma_newton_is_interpolant(nodes, x);
}

/// A polynomial sampled at no fewer distinct abscissas than it has
/// coefficients is reproduced by both interpolants at every query.
pub proof fn lemma_reproduces_polynomial(coeffs: Seq<real>, nodes: Seq<Node>, x: real)
    requires
        distinct_abscissas(nodes),
        nodes.len() > 0,
        coeffs.len() <= nodes.len(),
        forall|i: int| 0 <= i < nodes.len() ==> nodes[i].y == poly_eval(coeffs, nodes[i].x),
    ensures
        lagrange_value(nodes, x) == Some(poly_eval(coeffs, x)),
        newton_value(nodes, x) == Some(poly_eval(coeffs, x)),
{
    lemma_lagrange_is_interpolant(nodes, x);
    lemma_newton_is_interpolant(nodes, x);
    lemma_interpolant_unique(nodes, coeffs, x);
}

/// A rearrangement of nodes with distinct abscissas has distinct abscissas,
/// and each of its nodes is one of the given ones.
proof fn lemma_rearranged(nodes: Seq<Node>, permuted: Seq<Node>)
    requires
        distinct_abscissas(nodes),
        permuted.to_multiset() == nodes.to_multiset(),
    ensures
        permuted.len() == nodes.len(),
        distinct_abscissas(permuted),
        forall|j: int| 0 <= j < permuted.len() ==> nodes.contains(#[trigger] permuted[j]),
{
    nodes.to_multiset_ensures();
    permuted.to_multiset_ensures();
    assert forall|j: int| 0 <= j < permuted.len() implies nodes.contains(
        #[trigger] permuted[j],
    ) by {
        assert(permuted.contains(permuted[j]));
        assert(permuted.to_multiset().count(permuted[j]) > 0);
        assert(nodes.to_multiset().count(permuted[j]) > 0);
    }
    assert(nodes.no_duplicates());
    nodes.lemma_multiset_has_no_duplicates();
    permuted.lemma_multiset_has_no_duplicates_conv();
    assert forall|a: int, b: int| 0 <= a < b < permuted.len() implies permuted[a].x
        != permuted[b].x by {
        assert(nodes.contains(permuted[a]) && nodes.contains(permuted[b]));
        let ia = choose|i: int| 0 <= i < nodes.len() && #[trigger] nodes[i] == permuted[a];
        let ib = choose|i: int| 0 <= i < nodes.len() && #[trigger] nodes[i] == permuted[b];
        if permuted[a].x == permuted[b].x {
            assert(ia == ib);
            assert(permuted[a] == permuted[b]);
        }
    }
}

/// The order of the nodes does not matter: through any rearrangement of nodes
/// with distinct abscissas, both interpolants take the same values as through
/// the nodes in the order given.
pub proof fn lemma_order_invariance(nodes: Seq<Node>, permuted: Seq<Node>, x: real)
    requires
        distinct_abscissas(nodes),
        nodes.len() > 0,
        permuted.to_multiset() == nodes.to_multiset(),
    ensures
        lagrange_value(permuted, x) == lagrange_value(nodes, x),
        newton_value(permuted, x) == newton_value(nodes, x),
{
    let n = nodes.len();
    let coeffs = interpolant_coefficients(nodes, n);
    lemma_rearranged(nodes, permuted);
    lemma_interpolant_coefficients(nodes, x, n);
    assert forall|j: int| 0 <= j < permuted.len() implies poly_eval(coeffs, permuted[j].x)
        == permuted[j].y by {
        assert(nodes.contains(permuted[j]));
        let i = choose|i: int| 0 <= i < nodes.len() && #[trigger] nodes[i] == permuted[j];
        lemma_interpolant_coefficients(nodes, nodes[i].x, n);
        lemma_interpolant_at_node(nodes, n, i);
    }
    lemma_interpolant_unique(permuted, coeffs, x);
    lemma_lagrange_is_interpolant(nodes, x);
    lemma_newton_is_interpolant(nodes, x);
    lemma_lagrange_is_interpolant(permuted, x);
    lemma_newton_is_interpolant(permuted, x);
}

/// Whether no two of the nodes `i` to `j` share an abscissa.
pub open spec fn distinct_between(nodes: Seq<Node>, i: int, j: int) -> bool {
    forall|a: int, b: int| i <= a < b <= j ==> nodes[a].x != nodes[b].x
}

/// A divided difference exists exactly when the nodes that it spans have
/// distinct abscissas.
pub proof fn lemma_divided_difference_exists(nodes: Seq<Node>, i: int, j: int)
    requires
        0 <= i <= j < nodes.len(),
    ensures
        divided_difference(nodes, i, j) is Some <==> distinct_between(nodes, i, j),
    decreases j - i,
{
    if i < j {
        lemma_divided_difference_exists(nodes, i + 1, j);
        lemma_divided_difference_exists(nodes, i, j - 1);
        if distinct_between(nodes, i + 1, j) && distinct_between(nodes, i, j - 1) && nodes[i].x
            != nodes[j].x {
            assert forall|a: int, b: int| i <= a < b <= j implies nodes[a].x != nodes[b].x by {
                if i < a {
                    assert(i + 1 <= a < b <= j);
                } else if b < j {
                    assert(i <= a < b <= j - 1);
                }
            }
        }
    }
}

/// The Newton sum over the first `k` orders exists exactly when the first `k`
/// nodes have distinct abscissas.
proof fn lemma_newton_sum_exists(nodes: Seq<Node>, x: real, k: nat)
    requires
        k <= nodes.len(),
    ensures
        newton_sum(nodes, x, k) is Some <==> distinct_between(nodes, 0, k - 1),
    decreases k,
{
    if k > 0 {
        lemma_newton_sum_exists(nodes, x, (k - 1) as nat);
        lemma_divided_difference_exists(nodes, 0, k - 1);
    }
}

/// The Newton interpolant has a value at a query exactly when the query is
/// the abscissa of a node or no two nodes share an abscissa.
pub proof fn lemma_newton_has_value(nodes: Seq<Node>, x: real)
    ensures
        newton_value(nodes, x) is Some <==> first_match(nodes, x, 0) is Some || distinct_abscissas(
            nodes,
        ),
{
    lemma_newton_sum_exists(nodes, x, nodes.len());
    assert(distinct_abscissas(nodes) <==> distinct_between(nodes, 0, nodes.len() - 1));
}

} // verus!
