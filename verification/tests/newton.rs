use polyinterp::{InterpolationError, NewtonInterpolant, Point, Rational};

fn q(num: i64, den: i64) -> Rational {
    Rational::from_ratio(num, den).unwrap()
}

fn pt(x: i64, y: i64) -> Point {
    Point::new(q(x, 1), q(y, 1))
}

// samples of 1 + x + x^2
fn parabola() -> Vec<Point> {
    vec![pt(0, 1), pt(1, 3), pt(3, 13)]
}

#[test]
fn newton_refuses_no_points() {
    let built = NewtonInterpolant::interpolate(&Vec::new());
    assert_eq!(built.err(), Some(InterpolationError::NoPoints));
}

#[test]
fn newton_keeps_the_points_in_order() {
    let n = NewtonInterpolant::interpolate(&parabola()).unwrap();
    assert_eq!(n.len(), 3);
    assert_eq!(n.points(), parabola());
}

#[test]
fn newton_divided_differences_of_a_parabola() {
    // f[x0] = 1, f[x0, x1] = (3 - 1) / 1, f[x1, x2] = (13 - 3) / 2,
    // f[x0, x1, x2] = (5 - 2) / 3
    let n = NewtonInterpolant::interpolate(&parabola()).unwrap();
    assert_eq!(n.divided_differences(), vec![Some(q(1, 1)), Some(q(2, 1)), Some(q(1, 1))]);
}

#[test]
fn newton_divided_differences_of_four_points() {
    // samples of x^3 at 0, 1, 2, 4
    let points = vec![pt(0, 0), pt(1, 1), pt(2, 8), pt(4, 64)];
    let n = NewtonInterpolant::interpolate(&points).unwrap();
    assert_eq!(
        n.divided_differences(),
        vec![Some(q(0, 1)), Some(q(1, 1)), Some(q(3, 1)), Some(q(1, 1))]
    );
    assert_eq!(n.evaluate(&q(3, 1)), Some(q(27, 1)));
    assert_eq!(n.evaluate(&q(-1, 2)), Some(q(-1, 8)));
}

#[test]
fn newton_single_point_is_constant() {
    let n = NewtonInterpolant::interpolate(&vec![pt(2, 9)]).unwrap();
    assert_eq!(n.divided_differences(), vec![Some(q(9, 1))]);
    assert_eq!(n.evaluate(&q(2, 1)), Some(q(9, 1)));
    assert_eq!(n.evaluate(&q(-40, 7)), Some(q(9, 1)));
}

#[test]
fn newton_value_between_nodes() {
    let n = NewtonInterpolant::interpolate(&parabola()).unwrap();
    assert_eq!(n.evaluate(&q(2, 1)), Some(q(7, 1)));
    assert_eq!(n.evaluate(&q(1, 2)), Some(q(7, 4)));
    assert_eq!(n.evaluate(&q(-1, 1)), Some(q(1, 1)));
}

#[test]
fn newton_value_at_each_node() {
    let n = NewtonInterpolant::interpolate(&parabola()).unwrap();
    for p in parabola() {
        assert_eq!(n.evaluate(&p.x), Some(p.y));
    }
}

#[test]
fn newton_repeated_abscissa_leaves_differences_missing() {
    let n = NewtonInterpolant::interpolate(&vec![pt(0, 1), pt(0, 2), pt(1, 5)]).unwrap();
    assert_eq!(n.divided_differences(), vec![Some(q(1, 1)), None, None]);
    assert_eq!(n.evaluate(&q(0, 1)), Some(q(1, 1)));
    assert_eq!(n.evaluate(&q(1, 1)), Some(q(5, 1)));
    assert_eq!(n.evaluate(&q(2, 1)), None);
}

#[test]
fn newton_repeated_abscissa_late_in_the_sequence() {
    let n = NewtonInterpolant::interpolate(&vec![pt(0, 1), pt(1, 3), pt(1, 3)]).unwrap();
    assert_eq!(n.divided_differences(), vec![Some(q(1, 1)), Some(q(2, 1)), None]);
    assert_eq!(n.evaluate(&q(1, 1)), Some(q(3, 1)));
    assert_eq!(n.evaluate(&q(5, 1)), None);
}

#[test]
fn newton_batch_matches_single_queries() {
    let n = NewtonInterpolant::interpolate(&parabola()).unwrap();
    let xs = vec![q(2, 1), q(0, 1), q(3, 1), q(2, 1), q(1, 3)];
    let batch = n.evaluate_many(&xs);
    assert_eq!(batch.len(), xs.len());
    for i in 0..xs.len() {
        let single = n.evaluate(&xs[i]).map(|y| Point::new(xs[i].clone(), y));
        assert_eq!(batch[i], single);
    }
    assert_eq!(batch[0], Some(pt(2, 7)));
    assert_eq!(batch[4], Some(Point::new(q(1, 3), q(13, 9))));
}

#[test]
fn newton_batch_reports_missing_values_in_place() {
    let n = NewtonInterpolant::interpolate(&vec![pt(0, 1), pt(0, 2)]).unwrap();
    let batch = n.evaluate_many(&vec![q(0, 1), q(1, 1)]);
    assert_eq!(batch, vec![Some(pt(0, 1)), None]);
}
