use polyinterp::{InterpolationError, LagrangeInterpolant, Point, Rational};

fn q(num: i64, den: i64) -> Rational {
    Rational::from_ratio(num, den).unwrap()
}

fn pt(x: i64, y: i64) -> Point {
    Point::new(q(x, 1), q(y, 1))
}

// samples of 1 + x + x^2
fn parabola() -> Vec<Point> {
    vec![pt(0, 1), pt(1, 3), pt(3, 13)]
}

#[test]
fn lagrange_refuses_no_points() {
    let built = LagrangeInterpolant::interpolate(&Vec::new());
    assert_eq!(built.err(), Some(InterpolationError::NoPoints));
}

#[test]
fn lagrange_keeps_the_points_in_order() {
    let l = LagrangeInterpolant::interpolate(&parabola()).unwrap();
    assert_eq!(l.len(), 3);
    assert_eq!(l.points(), parabola());
}

#[test]
fn lagrange_weights_are_products_of_differences() {
    let l = LagrangeInterpolant::interpolate(&parabola()).unwrap();
    assert_eq!(l.weights(), vec![q(3, 1), q(-2, 1), q(6, 1)]);
}

#[test]
fn lagrange_weights_leave_out_vanishing_differences() {
    let points = vec![pt(0, 1), pt(0, 2), pt(1, 5)];
    let l = LagrangeInterpolant::interpolate(&points).unwrap();
    assert_eq!(l.weights(), vec![q(-1, 1), q(-1, 1), q(1, 1)]);
}

#[test]
fn lagrange_single_point_is_constant() {
    let l = LagrangeInterpolant::interpolate(&vec![pt(2, 9)]).unwrap();
    assert_eq!(l.weights(), vec![q(1, 1)]);
    assert_eq!(l.evaluate(&q(2, 1)), Some(q(9, 1)));
    assert_eq!(l.evaluate(&q(-40, 7)), Some(q(9, 1)));
}

#[test]
fn lagrange_value_between_nodes() {
    let l = LagrangeInterpolant::interpolate(&parabola()).unwrap();
    assert_eq!(l.evaluate(&q(2, 1)), Some(q(7, 1)));
    assert_eq!(l.evaluate(&q(1, 2)), Some(q(7, 4)));
    assert_eq!(l.evaluate(&q(-1, 1)), Some(q(1, 1)));
}

#[test]
fn lagrange_value_at_each_node() {
    let l = LagrangeInterpolant::interpolate(&parabola()).unwrap();
    for p in parabola() {
        assert_eq!(l.evaluate(&p.x), Some(p.y));
    }
}

#[test]
fn lagrange_repeated_abscissa_answers_with_the_first_node() {
    let l = LagrangeInterpolant::interpolate(&vec![pt(0, 1), pt(0, 2)]).unwrap();
    assert_eq!(l.evaluate(&q(0, 1)), Some(q(1, 1)));
    // both weights are empty products; the two sums are 1/1 + 2/1 and 1/1 + 1/1
    assert_eq!(l.weights(), vec![q(1, 1), q(1, 1)]);
    assert_eq!(l.evaluate(&q(1, 1)), Some(q(3, 2)));
}

#[test]
fn lagrange_has_no_value_where_the_denominator_vanishes() {
    // weights -1, -1, 1: at x = 2 the denominator sum is -1/2 - 1/2 + 1
    let l = LagrangeInterpolant::interpolate(&vec![pt(0, 1), pt(0, 2), pt(1, 5)]).unwrap();
    assert_eq!(l.evaluate(&q(2, 1)), None);
    // at x = 3 the sums are -1/3 - 2/3 + 5/2 and -1/3 - 1/3 + 1/2
    assert_eq!(l.evaluate(&q(3, 1)), Some(q(-9, 1)));
    assert_eq!(l.evaluate(&q(1, 1)), Some(q(5, 1)));
}

#[test]
fn lagrange_batch_matches_single_queries() {
    let l = LagrangeInterpolant::interpolate(&vec![pt(0, 1), pt(0, 2), pt(1, 5)]).unwrap();
    let xs = vec![q(2, 1), q(0, 1), q(3, 1), q(2, 1), q(1, 3)];
    let batch = l.evaluate_many(&xs);
    assert_eq!(batch.len(), xs.len());
    for i in 0..xs.len() {
        let single = l.evaluate(&xs[i]).map(|y| Point::new(xs[i].clone(), y));
        assert_eq!(batch[i], single);
    }
    assert_eq!(batch[0], None);
    assert_eq!(batch[1], Some(pt(0, 1)));
    assert_eq!(batch[2], Some(pt(3, -9)));
}
