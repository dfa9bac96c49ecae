//! Newton interpolation by divided differences.

use crate::error::InterpolationError;
use crate::point::{first_match, node_of, nodes_of, real_of, sample, Node, Point};
use crate::rational::Rational;
use vstd::prelude::*;

verus! {

/// The divided difference `f[x_i, ..., x_j]` of the nodes `i` to `j`.
///
/// It is the ordinate of node `i` when `j` is `i`, and otherwise the difference
/// of the two divided differences one order lower, over `x_j - x_i`. There is
/// none where that divisor is zero or one of the two lower ones is missing.
pub open spec fn divided_difference(nodes: Seq<Node>, i: int, j: int) -> Option<real>
    decreases j - i,
{
    if j <= i {
        Some(nodes[i].y)
    } else {
        match (divided_difference(nodes, i + 1, j), divided_difference(nodes, i, j - 1)) {
            (Some(upper), Some(lower)) => if nodes[j].x == nodes[i].x {
                None
            } else {
                Some((upper - lower) / (nodes[j].x - nodes[i].x))
            },
            _ => None,
        }
    }
}

/// The Newton basis polynomial of order `k` at `x`: the product of `x - x_m`
/// over the nodes `m < k`.
pub open spec fn newton_basis(nodes: Seq<Node>, x: real, k: nat) -> real
    decreases k,
{
    if k == 0 {
        1real
    } else {
        newton_basis(nodes, x, (k - 1) as nat) * (x - nodes[k - 1].x)
    }
}

/// The sum of `f[x_0, ..., x_j] * newton_basis(j)` over the orders `j < k`,
/// where all those divided differences exist.
pub open spec fn newton_sum(nodes: Seq<Node>, x: real, k: nat) -> Option<real>
    decreases k,
{
    if k == 0 {
        Some(0real)
    } else {
        match (newton_sum(nodes, x, (k - 1) as nat), divided_difference(nodes, 0, k - 1)) {
            (Some(s), Some(d)) => Some(s + d * newton_basis(nodes, x, (k - 1) as nat)),
            _ => None,
        }
    }
}

/// The value at `x` of the Newton interpolant through `nodes`.
///
/// At the abscissa of a node it is that node's ordinate: the first such node's,
/// should several share the abscissa. Elsewhere it is the Newton sum over all
/// orders, and there is no value where a divided difference is missing.
pub open spec fn newton_value(nodes: Seq<Node>, x: real) -> Option<real> {
    match first_match(nodes, x, 0) {
        Some(i) => Some(nodes[i].y),
        None => newton_sum(nodes, x, nodes.len()),
    }
}

/// The interpolant through a sequence of points, in Newton form.
#[derive(Debug)]
pub struct NewtonInterpolant {
    points: Vec<Point>,
    ddiffs: Vec<Option<Rational>>,
}

impl View for NewtonInterpolant {
    type V = Seq<Node>;

    closed spec fn view(&self) -> Seq<Node> {
        nodes_of(self.points@)
    }
}

fn clone_value(value: &Option<Rational>) -> (copy: Option<Rational>)
    ensures
        real_of(copy) == real_of(*value),
{
    match value {
        Some(q) => Some(q.clone()),
        None => None,
    }
}

impl NewtonInterpolant {
    #[verifier::type_invariant]
    spec fn well_formed(&self) -> bool {
        &&& self.points.len() > 0
        &&& self.ddiffs.len() == self.points.len()
        &&& forall|k: int|
            0 <= k < self.ddiffs.len() ==> real_of(#[trigger] self.ddiffs[k]) == divided_difference(
                self@,
                0,
                k,
            )
    }

    /// The divided differences `f[x_0, ..., x_k]` of `points`, for each `k`.
    ///
    /// They are computed order by order: after the pass for one order,
    /// `column[i]` holds `f[x_i, ..., x_(i + order)]`.
    fn difference_table(points: &Vec<Point>) -> (ddiffs: Vec<Option<Rational>>)
        requires
            points.len() > 0,
        ensures
            ddiffs.len() == points.len(),
            forall|k: int|
                0 <= k < ddiffs.len() ==> real_of(#[trigger] ddiffs[k]) == divided_difference(
                    nodes_of(points@),
                    0,
                    k,
                ),
    {
        let ghost nodes = nodes_of(points@);
        let n: usize = points.len();
        let mut column: Vec<Option<Rational>> = Vec::new();
        let mut i: usize = 0;
        while i < n
            invariant
                i <= n,
                n == points.len(),
                nodes == nodes_of(points@),
                column.len() == i,
                forall|k: int|
                    0 <= k < i ==> real_of(#[trigger] column[k]) == divided_difference(nodes, k, k),
            decreases n - i,
        {
            column.push(Some(points[i].y.clone()));
            i += 1;
        }
        let mut ddiffs: Vec<Option<Rational>> = Vec::new();
        ddiffs.push(clone_value(&column[0]));
        let mut order: usize = 1;
        while order < n
            invariant
                1 <= order <= n,
                n == points.len(),
                nodes == nodes_of(points@),
                column.len() == n,
                ddiffs.len() == order,
                forall|k: int|
                    0 <= k <= n - order ==> real_of(#[trigger] column[k]) == divided_difference(
                        nodes,
                        k,
                        k + order - 1,
                    ),
                forall|k: int|
                    0 <= k < order ==> real_of(#[trigger] ddiffs[k]) == divided_difference(
                        nodes,
                        0,
                        k,
                    ),
            decreases n - order,
        {
            i = 0;
            while i < n - order
                invariant
                    1 <= order < n,
                    i <= n - order,
                    n == points.len(),
                    nodes == nodes_of(points@),
                    column.len() == n,
                    forall|k: int|
                        0 <= k < i ==> real_of(#[trigger] column[k]) == divided_difference(
                            nodes,
                            k,
                            k + order,
                        ),
                    forall|k: int|
                        i <= k <= n - order ==> real_of(#[trigger] column[k])
                            == divided_difference(nodes, k, k + order - 1),
                decreases n - order - i,
            {
                let next = match (&column[i + 1], &column[i]) {
                    (Some(upper), Some(lower)) => {
                        let span = points[i + order].x.sub(&points[i].x);
                        upper.sub(lower).div(&span)
                    },
                    _ => None,
                };
                column.set(i, next);
                i += 1;
            }
            ddiffs.push(clone_value(&column[0]));
            order += 1;
        }
        ddiffs
    }

    /// Builds the interpolant through `points`, with one divided difference
    /// per point.
    ///
    /// Points that share an abscissa are accepted: the divided differences
    /// that would divide by zero are recorded as missing. Only the empty
    /// sequence is refused.
    pub fn interpolate(points: &Vec<Point>) -> (res: Result<NewtonInterpolant, InterpolationError>)
        ensures
            res is Ok <==> points.len() > 0,
            res matches Ok(p) ==> p@ == nodes_of(points@),
            res matches Err(e) ==> e == InterpolationError::NoPoints,
    {
        if points.len() == 0 {
            return Err(InterpolationError::NoPoints);
        }
        let ddiffs = NewtonInterpolant::difference_table(points);
        let mut own: Vec<Point> = Vec::new();
        let mut i: usize = 0;
        while i < points.len()
            invariant
                i <= points.len(),
                own.len() == i,
                forall|k: int| 0 <= k < i ==> (#[trigger] own[k])@ == points[k]@,
            decreases points.len() - i,
        {
            own.push(points[i].clone());
            i += 1;
        }
        assert(nodes_of(own@) =~= nodes_of(points@));
        Ok(NewtonInterpolant { points: own, ddiffs })
    }

    /// The number of nodes, which is at least one.
    pub fn len(&self) -> (n: usize)
        ensures
            n == self@.len(),
            n > 0,
    {
        proof {
            use_type_invariant(self);
        }
        self.points.len()
    }

    /// The points that the interpolant was built from, in their order.
    pub fn points(&self) -> (points: Vec<Point>)
        ensures
            nodes_of(points@) == self@,
    {
        let mut points: Vec<Point> = Vec::new();
        let mut i: usize = 0;
        while i < self.points.len()
            invariant
                i <= self.points.len(),
                points.len() == i,
                forall|k: int| 0 <= k < i ==> (#[trigger] points[k])@ == self@[k],
            decreases self.points.len() - i,
        {
            points.push(self.points[i].clone());
            i += 1;
        }
        points
    }

    /// The divided differences `f[x_0, ..., x_k]`, one per node, where they
    /// exist.
    pub fn divided_differences(&self) -> (ddiffs: Vec<Option<Rational>>)
        ensures
            ddiffs.len() == self@.len(),
            forall|k: int|
                0 <= k < ddiffs.len() ==> real_of(#[trigger] ddiffs[k]) == divided_difference(
                    self@,
                    0,
                    k,
                ),
    {
        proof {
            use_type_invariant(self);
        }
        let mut ddiffs: Vec<Option<Rational>> = Vec::new();
        let mut i: usize = 0;
        while i < self.ddiffs.len()
            invariant
                i <= self.ddiffs.len(),
                self.ddiffs.len() == self@.len(),
                ddiffs.len() == i,
                forall|k: int|
                    0 <= k < self.ddiffs.len() ==> real_of(#[trigger] self.ddiffs[k])
                        == divided_difference(self@, 0, k),
                forall|k: int|
                    0 <= k < i ==> real_of(#[trigger] ddiffs[k]) == divided_difference(
                        self@,
                        0,
                        k,
                    ),
            decreases self.ddiffs.len() - i,
        {
            ddiffs.push(clone_value(&self.ddiffs[i]));
            i += 1;
        }
        ddiffs
    }

    /// The value of the interpolant at `x`, where it has one.
    pub fn evaluate(&self, x: &Rational) -> (y: Option<Rational>)
        ensures
            real_of(y) == newton_value(self@, x@),
    {
        proof {
            use_type_invariant(self);
        }
        let ghost nodes = self@;
        let n: usize = self.points.len();
        let mut i: usize = 0;
        while i < n
            invariant
                i <= n,
                n == self.points.len(),
                nodes == self@,
                first_match(nodes, x@, 0) == first_match(nodes, x@, i as int),
            decreases n - i,
        {
            if self.points[i].x.eq(x) {
                return Some(self.points[i].y.clone());
            }
            i += 1;
        }
        let mut total = Rational::from_i64(0);
        let mut basis = Rational::from_i64(1);
        i = 0;
        while i < n
            invariant
                i <= n,
                n == self.points.len(),
                n == self.ddiffs.len(),
                nodes == self@,
                forall|k: int|
                    0 <= k < n ==> real_of(#[trigger] self.ddiffs[k]) == divided_difference(
                        nodes,
                        0,
                        k,
                    ),
                first_match(nodes, x@, 0) is None,
                newton_sum(nodes, x@, i as nat) == Some(total@),
                basis@ == newton_basis(nodes, x@, i as nat),
            decreases n - i,
        {
            match &self.ddiffs[i] {
                Some(d) => {
                    total = total.add(&d.mul(&basis));
                },
                None => {
                    proof {
                        lemma_newton_sum_missing(nodes, x@, (i + 1) as nat, n as nat);
                    }
                    return None;
                },
            }
            basis = basis.mul(&x.sub(&self.points[i].x));
            i += 1;
        }
        Some(total)
    }

    /// For each `x` of `xs`, in the same order, the point `(x, evaluate(x))`
    /// where the interpolant has a value at `x`.
    pub fn evaluate_many(&self, xs: &Vec<Rational>) -> (points: Vec<Option<Point>>)
        ensures
            points.len() == xs.len(),
            forall|i: int|
                0 <= i < xs.len() ==> node_of(#[trigger] points[i]) == sample(
                    xs[i]@,
                    newton_value(self@, xs[i]@),
                ),
    {
        let mut points: Vec<Option<Point>> = Vec::new();
        let mut i: usize = 0;
        while i < xs.len()
            invariant
                i <= xs.len(),
                points.len() == i,
                forall|k: int|
                    0 <= k < i ==> node_of(#[trigger] points[k]) == sample(
                        xs[k]@,
                        newton_value(self@, xs[k]@),
                    ),
            decreases xs.len() - i,
        {
            let point = match self.evaluate(&xs[i]) {
                Some(y) => Some(Point::new(xs[i].clone(), y)),
                None => None,
            };
            points.push(point);
            i += 1;
        }
        points
    }
}

/// Once a Newton sum is missing, every longer one is missing too.
proof fn lemma_newton_sum_missing(nodes: Seq<Node>, x: real, k: nat, n: nat)
    requires
        k <= n,
        newton_sum(nodes, x, k) is None,
    ensures
        newton_sum(nodes, x, n) is None,
    decreases n,
{
    if k < n {
        lemma_newton_sum_missing(nodes, x, k, (n - 1) as nat);
    }
}

} // verus!
