//! Counting the queries at which an approximation misses the truth.

use crate::point::{node_of, nodes_of, Node, Point};
use crate::rational::Rational;
use vstd::prelude::*;

verus! {

/// The distance `|a - b|`.
pub open spec fn distance(a: real, b: real) -> real {
    if a < b {
        b - a
    } else {
        a - b
    }
}

/// Whether the approximation has a value and its ordinate is further than
/// `tolerance` from the true one.
pub open spec fn misses(truth: Node, approximation: Option<Node>, tolerance: real) -> bool {
    match approximation {
        Some(p) => distance(truth.y, p.y) > tolerance,
        None => false,
    }
}

/// The number of positions below `k` at which the approximation misses.
pub open spec fn misses_below(
    truth: Seq<Node>,
    approximation: Seq<Option<Node>>,
    tolerance: real,
    k: nat,
) -> nat
    decreases k,
{
    if k == 0 {
        0
    } else {
        misses_below(truth, approximation, tolerance, (k - 1) as nat) + if misses(
            truth[k - 1],
            approximation[k - 1],
            tolerance,
        ) {
            1nat
        } else {
            0nat
        }
    }
}

/// The optional nodes that a sequence of optional points denotes.
pub open spec fn optional_nodes_of(points: Seq<Option<Point>>) -> Seq<Option<Node>> {
    Seq::new(points.len(), |i: int| node_of(points[i]))
}

/// Counts the positions at which `approximation` has a value whose ordinate
/// is further than `tolerance` from that of `truth`.
///
/// The two sequences are read in step, up to the end of the shorter one. A
/// position at which the approximation has no value is not counted.
pub fn count_misses(
    truth: &Vec<Point>,
    approximation: &Vec<Option<Point>>,
    tolerance: &Rational,
) -> (count: usize)
    ensures
        count == misses_below(
            nodes_of(truth@),
            optional_nodes_of(approximation@),
            tolerance@,
            if truth.len() <= approximation.len() {
                truth.len() as nat
            } else {
                approximation.len() as nat
            },
        ),
{
    let n: usize = if truth.len() <= approximation.len() {
        truth.len()
    } else {
        approximation.len()
    };
    let mut count: usize = 0;
    let mut i: usize = 0;
    while i < n
        invariant
            i <= n,
            n <= truth.len(),
            n <= approximation.len(),
            count <= i,
            count == misses_below(
                nodes_of(truth@),
                optional_nodes_of(approximation@),
                tolerance@,
                i as nat,
            ),
        decreases n - i,
    {
        match &approximation[i] {
            Some(p) => {
                let gap = truth[i].y.sub(&p.y).abs();
                if tolerance.lt(&gap) {
                    count += 1;
                }
            },
            None => {},
        }
        i += 1;
    }
    count
}

} // verus!
