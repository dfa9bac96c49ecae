use polyinterp::{LagrangeInterpolant, MonomialPolynomial, NewtonInterpolant, Point, Rational};

fn q(num: i64, den: i64) -> Rational {
    Rational::from_ratio(num, den).unwrap()
}

fn quadratic() -> MonomialPolynomial {
    MonomialPolynomial::new(vec![q(19, 10), q(92, 10), q(7, 1)])
}

fn quadratic_samples() -> Vec<Point> {
    quadratic().evaluate_many(&vec![q(18, 10), q(372, 10), q(809, 10)])
}

#[test]
fn sampled_quadratic_is_reproduced_within_tolerance() {
    let f = quadratic();
    let points = quadratic_samples();
    let lagrange = LagrangeInterpolant::interpolate(&points).unwrap();
    let newton = NewtonInterpolant::interpolate(&points).unwrap();
    let queries: Vec<Rational> = (10i64..100).map(Rational::from_i64).collect();
    let truth = f.evaluate_many(&queries);
    let by_lagrange = lagrange.evaluate_many(&queries);
    let by_newton = newton.evaluate_many(&queries);
    assert_eq!(truth.len(), 90);
    let mut off_lagrange = 0;
    let mut off_newton = 0;
    for i in 0..truth.len() {
        let l = by_lagrange[i].as_ref().unwrap();
        let n = by_newton[i].as_ref().unwrap();
        if q(1, 100).lt(&truth[i].y.sub(&l.y).abs()) {
            off_lagrange += 1;
        }
        if q(5, 100).lt(&truth[i].y.sub(&n.y).abs()) {
            off_newton += 1;
        }
    }
    assert_eq!(off_lagrange, 0);
    assert_eq!(off_newton, 0);
}

#[test]
fn sampled_quadratic_is_reproduced_exactly() {
    let f = quadratic();
    let points = quadratic_samples();
    let lagrange = LagrangeInterpolant::interpolate(&points).unwrap();
    let newton = NewtonInterpolant::interpolate(&points).unwrap();
    for k in 10i64..100 {
        let x = Rational::from_i64(k);
        let y = f.evaluate(&x);
        assert_eq!(lagrange.evaluate(&x), Some(y.clone()));
        assert_eq!(newton.evaluate(&x), Some(y));
    }
}

#[test]
fn query_at_a_node_returns_its_ordinate() {
    let points = vec![
        Point::new(q(18, 10), q(-3, 7)),
        Point::new(q(372, 10), q(1234, 5)),
        Point::new(q(809, 10), q(0, 1)),
    ];
    let lagrange = LagrangeInterpolant::interpolate(&points).unwrap();
    let newton = NewtonInterpolant::interpolate(&points).unwrap();
    assert_eq!(lagrange.evaluate(&q(372, 10)), Some(q(1234, 5)));
    assert_eq!(newton.evaluate(&q(372, 10)), Some(q(1234, 5)));
}

#[test]
fn every_node_is_reproduced() {
    let points = vec![
        Point::new(q(-7, 3), q(2, 1)),
        Point::new(q(0, 1), q(-11, 4)),
        Point::new(q(5, 2), q(1, 9)),
        Point::new(q(9, 1), q(0, 1)),
        Point::new(q(1, 100), q(100, 1)),
    ];
    let lagrange = LagrangeInterpolant::interpolate(&points).unwrap();
    let newton = NewtonInterpolant::interpolate(&points).unwrap();
    for p in &points {
        assert_eq!(lagrange.evaluate(&p.x), Some(p.y.clone()));
        assert_eq!(newton.evaluate(&p.x), Some(p.y.clone()));
    }
}

#[test]
fn cubic_is_reproduced_from_four_samples() {
    // 2 - x/3 + 5x^3
    let f = MonomialPolynomial::new(vec![q(2, 1), q(-1, 3), q(0, 1), q(5, 1)]);
    let points = f.evaluate_many(&vec![q(-2, 1), q(1, 2), q(3, 1), q(10, 3)]);
    let lagrange = LagrangeInterpolant::interpolate(&points).unwrap();
    let newton = NewtonInterpolant::interpolate(&points).unwrap();
    for x in [q(0, 1), q(1, 1), q(-9, 4), q(100, 1), q(22, 7)] {
        let y = f.evaluate(&x);
        assert_eq!(lagrange.evaluate(&x), Some(y.clone()));
        assert_eq!(newton.evaluate(&x), Some(y));
    }
    assert_eq!(lagrange.evaluate(&q(1, 1)), Some(q(20, 3)));
}

#[test]
fn more_samples_than_coefficients_still_reproduce() {
    // a line sampled five times
    let f = MonomialPolynomial::new(vec![q(1, 2), q(3, 1)]);
    let points = f.evaluate_many(&vec![q(0, 1), q(1, 1), q(2, 1), q(5, 1), q(-3, 1)]);
    let lagrange = LagrangeInterpolant::interpolate(&points).unwrap();
    let newton = NewtonInterpolant::interpolate(&points).unwrap();
    assert_eq!(lagrange.evaluate(&q(7, 2)), Some(q(11, 1)));
    assert_eq!(newton.evaluate(&q(7, 2)), Some(q(11, 1)));
    assert_eq!(
        newton.divided_differences(),
        vec![Some(q(1, 2)), Some(q(3, 1)), Some(q(0, 1)), Some(q(0, 1)), Some(q(0, 1))]
    );
}

#[test]
fn lagrange_and_newton_agree_on_arbitrary_points() {
    let points = vec![
        Point::new(q(-3, 1), q(4, 7)),
        Point::new(q(-1, 2), q(-2, 1)),
        Point::new(q(0, 1), q(9, 5)),
        Point::new(q(4, 3), q(0, 1)),
        Point::new(q(6, 1), q(-13, 11)),
        Point::new(q(15, 2), q(1, 1)),
    ];
    let lagrange = LagrangeInterpolant::interpolate(&points).unwrap();
    let newton = NewtonInterpolant::interpolate(&points).unwrap();
    for k in -20i64..=20 {
        let x = q(k, 3);
        let l = lagrange.evaluate(&x);
        assert!(l.is_some());
        assert_eq!(l, newton.evaluate(&x));
    }
}

#[test]
fn node_order_does_not_change_the_values() {
    let a = Point::new(q(-3, 1), q(4, 7));
    let b = Point::new(q(0, 1), q(9, 5));
    let c = Point::new(q(4, 3), q(0, 1));
    let d = Point::new(q(6, 1), q(-13, 11));
    let forward = vec![a.clone(), b.clone(), c.clone(), d.clone()];
    let shuffled = vec![c, a, d, b];
    let l1 = LagrangeInterpolant::interpolate(&forward).unwrap();
    let l2 = LagrangeInterpolant::interpolate(&shuffled).unwrap();
    let n1 = NewtonInterpolant::interpolate(&forward).unwrap();
    let n2 = NewtonInterpolant::interpolate(&shuffled).unwrap();
    for k in -12i64..=30 {
        let x = q(k, 4);
        assert_eq!(l1.evaluate(&x), l2.evaluate(&x));
        assert_eq!(n1.evaluate(&x), n2.evaluate(&x));
    }
}

#[test]
fn node_order_matters_when_abscissas_repeat() {
    let first = Point::new(q(0, 1), q(1, 1));
    let second = Point::new(q(0, 1), q(2, 1));
    let l1 = LagrangeInterpolant::interpolate(&vec![first.clone(), second.clone()]).unwrap();
    let l2 = LagrangeInterpolant::interpolate(&vec![second, first]).unwrap();
    assert_eq!(l1.evaluate(&q(0, 1)), Some(q(1, 1)));
    assert_eq!(l2.evaluate(&q(0, 1)), Some(q(2, 1)));
}

#[test]
fn lagrange_and_newton_differ_when_abscissas_repeat() {
    let points = vec![Point::new(q(0, 1), q(1, 1)), Point::new(q(0, 1), q(2, 1))];
    let lagrange = LagrangeInterpolant::interpolate(&points).unwrap();
    let newton = NewtonInterpolant::interpolate(&points).unwrap();
    assert_eq!(lagrange.evaluate(&q(1, 1)), Some(q(3, 2)));
    assert_eq!(newton.evaluate(&q(1, 1)), None);
}

#[test]
fn eight_nodes_of_a_degree_seven_polynomial() {
    let f = MonomialPolynomial::new(vec![
        q(1, 1),
        q(-1, 2),
        q(1, 3),
        q(-1, 4),
        q(1, 5),
        q(-1, 6),
        q(1, 7),
        q(-1, 8),
    ]);
    let nodes: Vec<Rational> = (0i64..8).map(|k| q(2 * k - 7, 3)).collect();
    let points = f.evaluate_many(&nodes);
    let lagrange = LagrangeInterpolant::interpolate(&points).unwrap();
    let newton = NewtonInterpolant::interpolate(&points).unwrap();
    for x in [q(1, 7), q(-5, 1), q(12, 5)] {
        let y = f.evaluate(&x);
        assert_eq!(lagrange.evaluate(&x), Some(y.clone()));
        assert_eq!(newton.evaluate(&x), Some(y));
    }
}

#[test]
fn misses_are_counted_beyond_the_tolerance_only() {
    let truth = vec![
        Point::new(q(0, 1), q(10, 1)),
        Point::new(q(1, 1), q(10, 1)),
        Point::new(q(2, 1), q(10, 1)),
        Point::new(q(3, 1), q(10, 1)),
        Point::new(q(4, 1), q(10, 1)),
    ];
    let approximation = vec![
        Some(Point::new(q(0, 1), q(10, 1))),
        Some(Point::new(q(1, 1), q(101, 10))),
        Some(Point::new(q(2, 1), q(99, 10))),
        None,
        Some(Point::new(q(4, 1), q(8, 1))),
    ];
    assert_eq!(polyinterp::count_misses(&truth, &approximation, &q(1, 100)), 3);
    assert_eq!(polyinterp::count_misses(&truth, &approximation, &q(1, 10)), 1);
    assert_eq!(polyinterp::count_misses(&truth, &approximation, &q(2, 1)), 0);
    assert_eq!(polyinterp::count_misses(&truth, &approximation, &q(0, 1)), 3);
}

#[test]
fn misses_are_counted_up_to_the_shorter_sequence() {
    let truth = vec![Point::new(q(0, 1), q(1, 1)), Point::new(q(1, 1), q(1, 1))];
    let approximation = vec![
        Some(Point::new(q(0, 1), q(2, 1))),
        Some(Point::new(q(1, 1), q(2, 1))),
        Some(Point::new(q(2, 1), q(2, 1))),
    ];
    assert_eq!(polyinterp::count_misses(&truth, &approximation, &q(1, 2)), 2);
    assert_eq!(polyinterp::count_misses(&truth[..1].to_vec(), &approximation, &q(1, 2)), 1);
    assert_eq!(polyinterp::count_misses(&Vec::new(), &approximation, &q(1, 2)), 0);
}

#[test]
fn sixteen_nodes_of_a_quintic() {
    let f = MonomialPolynomial::new(vec![q(3, 1), q(0, 1), q(-1, 2), q(0, 1), q(0, 1), q(1, 10)]);
    let nodes: Vec<Rational> = (0i64..16).map(|k| q(k - 8, 2)).collect();
    let points = f.evaluate_many(&nodes);
    let lagrange = LagrangeInterpolant::interpolate(&points).unwrap();
    let newton = NewtonInterpolant::interpolate(&points).unwrap();
    let ddiffs = newton.divided_differences();
    assert_eq!(ddiffs.len(), 16);
    assert_eq!(ddiffs[5], Some(q(1, 10)));
    for k in 6..16 {
        assert_eq!(ddiffs[k], Some(q(0, 1)));
    }
    for x in [q(1, 3), q(-7, 5), q(9, 1)] {
        let y = f.evaluate(&x);
        assert_eq!(lagrange.evaluate(&x), Some(y.clone()));
        assert_eq!(newton.evaluate(&x), Some(y));
    }
}

#[test]
fn distinct_abscissas_are_recognised() {
    let a = Point::new(q(0, 1), q(1, 1));
    let b = Point::new(q(1, 2), q(1, 1));
    let c = Point::new(q(2, 4), q(5, 1));
    assert!(polyinterp::have_distinct_abscissas(&Vec::new()));
    assert!(polyinterp::have_distinct_abscissas(&vec![a.clone()]));
    assert!(polyinterp::have_distinct_abscissas(&vec![a.clone(), b.clone()]));
    assert!(!polyinterp::have_distinct_abscissas(&vec![a.clone(), b.clone(), c.clone()]));
    assert!(!polyinterp::have_distinct_abscissas(&vec![c, a.clone(), b]));
    assert!(!polyinterp::have_distinct_abscissas(&vec![a.clone(), a]));
}
