//! Sample points and their mathematical counterparts.

use crate::rational::Rational;
use vstd::prelude::*;
use vstd::std_specs::cmp::PartialEqSpecImpl;

verus! {

/// A point of the real plane: the mathematical content of a [`Point`].
pub struct Node {
    pub x: real,
    pub y: real,
}

/// A sample point with exact rational coordinates.
#[derive(Debug)]
pub struct Point {
    pub x: Rational,
    pub y: Rational,
}

impl View for Point {
    type V = Node;

    open spec fn view(&self) -> Node {
        Node { x: self.x@, y: self.y@ }
    }
}

impl Clone for Point {
    fn clone(&self) -> (copy: Self)
        ensures
            copy@ == self@,
    {
        Point { x: self.x.clone(), y: self.y.clone() }
    }
}

impl PartialEq for Point {
    fn eq(&self, other: &Self) -> (same: bool) {
        self.x.eq(&other.x) && self.y.eq(&other.y)
    }
}

impl PartialEqSpecImpl for Point {
    open spec fn obeys_eq_spec() -> bool {
        true
    }

    open spec fn eq_spec(&self, other: &Self) -> bool {
        self@ == other@
    }
}

impl Point {
    /// The point `(x, y)`.
    pub fn new(x: Rational, y: Rational) -> (p: Point)
        ensures
            p@ == (Node { x: x@, y: y@ }),
    {
        Point { x, y }
    }
}

/// The real numbers that a sequence of rationals denotes.
pub open spec fn reals_of(values: Seq<Rational>) -> Seq<real> {
    Seq::new(values.len(), |i: int| values[i]@)
}

/// The nodes that a sequence of points denotes.
pub open spec fn nodes_of(points: Seq<Point>) -> Seq<Node> {
    Seq::new(points.len(), |i: int| points[i]@)
}

/// The real number that an optional rational denotes, if any.
pub open spec fn real_of(value: Option<Rational>) -> Option<real> {
    match value {
        Some(q) => Some(q@),
        None => None,
    }
}

/// The node that an optional point denotes, if any.
pub open spec fn node_of(point: Option<Point>) -> Option<Node> {
    match point {
        Some(p) => Some(p@),
        None => None,
    }
}

/// The node `(x, y)` where `value` is some `y`.
pub open spec fn sample(x: real, value: Option<real>) -> Option<Node> {
    match value {
        Some(y) => Some(Node { x, y }),
        None => None,
    }
}

/// The index of the first node at or after `from` whose abscissa is `x`.
pub open spec fn first_match(nodes: Seq<Node>, x: real, from: int) -> Option<int>
    decreases nodes.len() - from,
{
    if from < 0 || from >= nodes.len() {
        None
    } else if nodes[from].x == x {
        Some(from)
    } else {
        first_match(nodes, x, from + 1)
    }
}

/// Whether no two nodes share an abscissa.
pub open spec fn distinct_abscissas(nodes: Seq<Node>) -> bool {
    forall|i: int, j: int| 0 <= i < j < nodes.len() ==> nodes[i].x != nodes[j].x
}

/// Whether no two of the points share an abscissa: whether interpolating them
/// is a well-posed problem.
pub fn have_distinct_abscissas(points: &Vec<Point>) -> (distinct: bool)
    ensures
        distinct == distinct_abscissas(nodes_of(points@)),
{
    let ghost nodes = nodes_of(points@);
    let n: usize = points.len();
    let mut j: usize = 0;
    while j < n
        invariant
            j <= n,
            n == points.len(),
            nodes == nodes_of(points@),
            forall|a: int, b: int| 0 <= a < b < j ==> nodes[a].x != nodes[b].x,
        decreases n - j,
    {
        let mut i: usize = 0;
        while i < j
            invariant
                i <= j < n,
                n == points.len(),
                nodes == nodes_of(points@),
                forall|a: int| 0 <= a < i ==> nodes[a].x != nodes[j as int].x,
            decreases j - i,
        {
            if points[i].x.eq(&points[j].x) {
                assert(nodes[i as int].x == nodes[j as int].x);
                return false;
            }
            i += 1;
        }
        j += 1;
    }
    true
}

/// `first_match` finds nothing exactly when no node from `from` on has abscissa
/// `x`; otherwise it finds the least such index.
pub proof fn lemma_first_match(nodes: Seq<Node>, x: real, from: int)
    requires
        0 <= from,
    ensures
        match first_match(nodes, x, from) {
            Some(i) => from <= i < nodes.len() && nodes[i].x == x && forall|k: int|
                from <= k < i ==> nodes[k].x != x,
            None => forall|k: int| from <= k < nodes.len() ==> nodes[k].x != x,
        },
    decreases nodes.len() - from,
{
    if from < nodes.len() && nodes[from].x != x {
        lemma_first_match(nodes, x, from + 1);
    }
}

} // verus!
