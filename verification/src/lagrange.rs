//! Lagrange interpolation in barycentric form.

use crate::error::InterpolationError;
use crate::point::{
    first_match, lemma_first_match, node_of, nodes_of, real_of, sample, Node, Point,
};
use crate::rational::Rational;
use vstd::prelude::*;

verus! {

/// The product of the differences `x_i - x_j` over the nodes `j < k`, leaving
/// out every difference that is zero.
pub open spec fn weight_among(nodes: Seq<Node>, i: int, k: nat) -> real
    decreases k,
{
    if k == 0 {
        1real
    } else {
        let d = nodes[i].x - nodes[k - 1].x;
        if d == 0real {
            weight_among(nodes, i, (k - 1) as nat)
        } else {
            weight_among(nodes, i, (k - 1) as nat) * d
        }
    }
}

/// The barycentric weight of node `i`: the product of its nonzero differences
/// to all nodes.
pub open spec fn weight(nodes: Seq<Node>, i: int) -> real {
    weight_among(nodes, i, nodes.len())
}

/// The sum of `y_i / ((x - x_i) * w_i)` over the nodes `i < k`.
pub open spec fn barycentric_numerator(nodes: Seq<Node>, x: real, k: nat) -> real
    decreases k,
{
    if k == 0 {
        0real
    } else {
        barycentric_numerator(nodes, x, (k - 1) as nat) + nodes[k - 1].y / ((x - nodes[k - 1].x)
            * weight(nodes, k - 1))
    }
}

/// The sum of `1 / ((x - x_i) * w_i)` over the nodes `i < k`.
pub open spec fn barycentric_denominator(nodes: Seq<Node>, x: real, k: nat) -> real
    decreases k,
{
    if k == 0 {
        0real
    } else {
        barycentric_denominator(nodes, x, (k - 1) as nat) + 1real / ((x - nodes[k - 1].x) * weight(
            nodes,
            k - 1,
        ))
    }
}

/// The value at `x` of the barycentric interpolant through `nodes`.
///
/// At the abscissa of a node it is that node's ordinate: the first such node's,
/// should several share the abscissa. Elsewhere it is the quotient of the two
/// barycentric sums, and there is no value where the denominator sum vanishes.
pub open spec fn lagrange_value(nodes: Seq<Node>, x: real) -> Option<real> {
    match first_match(nodes, x, 0) {
        Some(i) => Some(nodes[i].y),
        None => {
            let d = barycentric_denominator(nodes, x, nodes.len());
            if d == 0real {
                None
            } else {
                Some(barycentric_numerator(nodes, x, nodes.len()) / d)
            }
        },
    }
}

/// A weight is a product of nonzero factors, hence nonzero.
pub proof fn lemma_weight_nonzero(nodes: Seq<Node>, i: int, k: nat)
    ensures
        weight_among(nodes, i, k) != 0real,
    decreases k,
{
    if k > 0 {
        lemma_weight_nonzero(nodes, i, (k - 1) as nat);
        let w = weight_among(nodes, i, (k - 1) as nat);
        let d = nodes[i].x - nodes[k - 1].x;
        assert(d != 0real ==> w * d != 0real) by (nonlinear_arith)
            requires
                w != 0real,
        ;
    }
}

/// A sample point together with its barycentric weight.
#[derive(Debug)]
struct Term {
    point: Point,
    weight: Rational,
}

/// The interpolant through a sequence of points, in barycentric form.
#[derive(Debug)]
pub struct LagrangeInterpolant {
    terms: Vec<Term>,
}

impl View for LagrangeInterpolant {
    type V = Seq<Node>;

    closed spec fn view(&self) -> Seq<Node> {
        Seq::new(self.terms.len() as nat, |i: int| self.terms[i].point@)
    }
}

impl LagrangeInterpolant {
    #[verifier::type_invariant]
    spec fn well_formed(&self) -> bool {
        &&& self.terms.len() > 0
        &&& forall|i: int|
            0 <= i < self.terms.len() ==> (#[trigger] self.terms[i]).weight@ == weight(self@, i)
    }

    /// The barycentric weight of node `i` among `points`.
    fn node_weight(points: &Vec<Point>, i: usize) -> (w: Rational)
        requires
            i < points.len(),
        ensures
            w@ == weight(nodes_of(points@), i as int),
    {
        let ghost nodes = nodes_of(points@);
        let mut w = Rational::from_i64(1);
        let mut j: usize = 0;
        while j < points.len()
            invariant
                i < points.len(),
                j <= points.len(),
                nodes == nodes_of(points@),
                w@ == weight_among(nodes, i as int, j as nat),
            decreases points.len() - j,
        {
            let d = points[i].x.sub(&points[j].x);
            if !d.is_zero() {
                w = w.mul(&d);
            }
            j += 1;
        }
        w
    }

    /// Builds the interpolant through `points`, with one weight per point.
    ///
    /// Points that share an abscissa are accepted: the vanishing differences
    /// are left out of the weights. Only the empty sequence is refused.
    pub fn interpolate(points: &Vec<Point>) -> (res: Result<LagrangeInterpolant, InterpolationError>)
        ensures
            res is Ok <==> points.len() > 0,
            res matches Ok(p) ==> p@ == nodes_of(points@),
            res matches Err(e) ==> e == InterpolationError::NoPoints,
    {
        if points.len() == 0 {
            return Err(InterpolationError::NoPoints);
        }
        let ghost nodes = nodes_of(points@);
        let mut terms: Vec<Term> = Vec::new();
        let mut i: usize = 0;
        while i < points.len()
            invariant
                i <= points.len(),
                terms.len() == i,
                nodes == nodes_of(points@),
                forall|k: int| 0 <= k < i ==> (#[trigger] terms[k]).point@ == nodes[k],
                forall|k: int| 0 <= k < i ==> (#[trigger] terms[k]).weight@ == weight(nodes, k),
            decreases points.len() - i,
        {
            let w = LagrangeInterpolant::node_weight(points, i);
            terms.push(Term { point: points[i].clone(), weight: w });
            i += 1;
        }
        let ghost built = Seq::new(terms.len() as nat, |i: int| terms[i].point@);
        assert(built =~= nodes);
        Ok(LagrangeInterpolant { terms })
    }

    /// The number of nodes, which is at least one.
    pub fn len(&self) -> (n: usize)
        ensures
            n == self@.len(),
            n > 0,
    {
        proof {
            use_type_invariant(self);
        }
        self.terms.len()
    }

    /// The points that the interpolant was built from, in their order.
    pub fn points(&self) -> (points: Vec<Point>)
        ensures
            nodes_of(points@) == self@,
    {
        let mut points: Vec<Point> = Vec::new();
        let mut i: usize = 0;
        while i < self.terms.len()
            invariant
                i <= self.terms.len(),
                points.len() == i,
                forall|k: int| 0 <= k < i ==> (#[trigger] points[k])@ == self@[k],
            decreases self.terms.len() - i,
        {
            points.push(self.terms[i].point.clone());
            i += 1;
        }
        points
    }

    /// The barycentric weights, one per node, in the order of the nodes.
    pub fn weights(&self) -> (weights: Vec<Rational>)
        ensures
            weights.len() == self@.len(),
            forall|i: int| 0 <= i < weights.len() ==> (#[trigger] weights[i])@ == weight(self@, i),
    {
        proof {
            use_type_invariant(self);
        }
        let mut weights: Vec<Rational> = Vec::new();
        let mut i: usize = 0;
        while i < self.terms.len()
            invariant
                i <= self.terms.len(),
                weights.len() == i,
                forall|k: int|
                    0 <= k < self.terms.len() ==> (#[trigger] self.terms[k]).weight@ == weight(
                        self@,
                        k,
                    ),
                forall|k: int| 0 <= k < i ==> (#[trigger] weights[k])@ == weight(self@, k),
            decreases self.terms.len() - i,
        {
            weights.push(self.terms[i].weight.clone());
            i += 1;
        }
        weights
    }

    /// The value of the interpolant at `x`, where it has one.
    pub fn evaluate(&self, x: &Rational) -> (y: Option<Rational>)
        ensures
            real_of(y) == lagrange_value(self@, x@),
    {
        proof {
            use_type_invariant(self);
        }
        let ghost nodes = self@;
        let n: usize = self.terms.len();
        let mut i: usize = 0;
        while i < n
            invariant
                i <= n,
                n == self.terms.len(),
                nodes == self@,
                first_match(nodes, x@, 0) == first_match(nodes, x@, i as int),
            decreases n - i,
        {
            if self.terms[i].point.x.eq(x) {
                return Some(self.terms[i].point.y.clone());
            }
            i += 1;
        }
        proof {
            lemma_first_match(nodes, x@, 0);
        }
        let one = Rational::from_i64(1);
        let mut num = Rational::from_i64(0);
        let mut den = Rational::from_i64(0);
        i = 0;
        while i < n
            invariant
                i <= n,
                n == self.terms.len(),
                nodes == self@,
                one@ == 1real,
                forall|k: int| 0 <= k < n ==> nodes[k].x != x@,
                forall|k: int|
                    0 <= k < n ==> (#[trigger] self.terms[k]).weight@ == weight(nodes, k),
                num@ == barycentric_numerator(nodes, x@, i as nat),
                den@ == barycentric_denominator(nodes, x@, i as nat),
            decreases n - i,
        {
            let term = &self.terms[i];
            let scale = x.sub(&term.point.x).mul(&term.weight);
            proof {
                lemma_weight_nonzero(nodes, i as int, nodes.len());
                let d = x@ - nodes[i as int].x;
                let w = weight(nodes, i as int);
                assert(d * w != 0real) by (nonlinear_arith)
                    requires
                        d != 0real,
                        w != 0real,
                ;
            }
            match (term.point.y.div(&scale), one.div(&scale)) {
                (Some(a), Some(b)) => {
                    num = num.add(&a);
                    den = den.add(&b);
                },
                _ => {
                    proof {
                        assert(false);
                    }
                    return None;
                },
            }
            i += 1;
        }
        num.div(&den)
    }

    /// For each `x` of `xs`, in the same order, the point `(x, evaluate(x))`
    /// where the interpolant has a value at `x`.
    pub fn evaluate_many(&self, xs: &Vec<Rational>) -> (points: Vec<Option<Point>>)
        ensures
            points.len() == xs.len(),
            forall|i: int|
                0 <= i < xs.len() ==> node_of(#[trigger] points[i]) == sample(
                    xs[i]@,
                    lagrange_value(self@, xs[i]@),
                ),
    {
        let mut points: Vec<Option<Point>> = Vec::new();
        let mut i: usize = 0;
        while i < xs.len()
            invariant
                i <= xs.len(),
                points.len() == i,
                forall|k: int|
                    0 <= k < i ==> node_of(#[trigger] points[k]) == sample(
                        xs[k]@,
                        lagrange_value(self@, xs[k]@),
                    ),
            decreases xs.len() - i,
        {
            let point = match self.evaluate(&xs[i]) {
                Some(y) => Some(Point::new(xs[i].clone(), y)),
                None => None,
            };
            points.push(point);
            i += 1;
        }
        points
    }
}

} // verus!
