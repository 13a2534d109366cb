use finite_curve::elliptic_curve::EllipticCurve;
use finite_curve::error::CurveError;
use finite_curve::finite_field_element::FiniteFieldElement;
use finite_curve::point::Point;

fn affine(x: i32, y: i32, modulus: i32, curve: EllipticCurve) -> Point {
    Point::new(
        Some(FiniteFieldElement::new(x, modulus)),
        Some(FiniteFieldElement::new(y, modulus)),
        curve,
    )
    .unwrap()
}

fn base_point() -> Point {
    affine(379, 1011, 1021, EllipticCurve::new(-3, -3))
}

#[test]
fn a_point_with_one_coordinate_is_refused() {
    let curve = EllipticCurve::new(-3, -3);
    let x = FiniteFieldElement::new(379, 1021);
    assert_eq!(Point::new(Some(x), None, curve), Err(CurveError::InvalidPoint));
    assert_eq!(Point::new(None, Some(x), curve), Err(CurveError::InvalidPoint));
}

#[test]
fn a_point_off_the_curve_is_refused() {
    let curve = EllipticCurve::new(-3, -3);
    let x = FiniteFieldElement::new(56, 1021);
    let y = FiniteFieldElement::new(914, 1021);
    assert_eq!(Point::new(Some(x), Some(y), curve), Err(CurveError::PointNotOnCurve));
}

#[test]
fn coordinates_given_as_negative_numbers_make_the_point_of_their_residues() {
    let curve = EllipticCurve::new(0, 6);
    let p = affine(13, -28, 43, curve);
    assert_eq!(p, affine(13, 15, 43, curve));
    assert!(p.is_valid());
    assert_eq!(p.add(&p).unwrap(), affine(13, 15, 43, curve).scalar_mul(2).unwrap());
    assert_eq!(affine(-30, 15 - 43, 43, curve), p);
    assert_eq!(p.naive_factor(p.scalar_mul(5).unwrap()).unwrap(), Some(5));
}

#[test]
fn doubling_and_tripling_the_base_point() {
    let p = base_point();
    let curve = EllipticCurve::new(-3, -3);
    assert_eq!(p.add(&p).unwrap(), affine(57, 914, 1021, curve));
    assert_eq!(p.scalar_mul(3).unwrap(), affine(103, 239, 1021, curve));
    assert_eq!(p.scalar_mul(655).unwrap(), affine(388, 60, 1021, curve));
}

#[test]
fn the_point_at_infinity_is_neutral() {
    let p = base_point();
    let identity = Point::new(None, None, p.curve).unwrap();
    assert_eq!(p.add(&identity).unwrap(), p);
    assert_eq!(identity.add(&p).unwrap(), p);
    assert_eq!(identity.add(&identity).unwrap(), identity);
}

#[test]
fn a_point_and_its_negation_add_up_to_the_point_at_infinity() {
    let p = base_point();
    let identity = Point::new(None, None, p.curve).unwrap();
    let mirrored = p.negate();
    assert_eq!(mirrored, affine(379, 10, 1021, p.curve));
    assert_eq!(p.add(&mirrored).unwrap(), identity);
    assert_eq!(mirrored.add(&p).unwrap(), identity);
    assert_eq!(mirrored.negate(), p);
    assert_eq!(identity.negate(), identity);
}

#[test]
fn every_point_of_a_small_curve_cancels_with_its_negation() {
    let curve = EllipticCurve::new(0, 6);
    let identity = Point::new(None, None, curve).unwrap();
    let mut seen = 0;
    for x in 0..43 {
        for y in 0..43 {
            let candidate = Point::new(
                Some(FiniteFieldElement::new(x, 43)),
                Some(FiniteFieldElement::new(y, 43)),
                curve,
            );
            if let Ok(p) = candidate {
                seen += 1;
                assert_eq!(p.add(&p.negate()).unwrap(), identity);
            }
        }
    }
    assert_eq!(seen, 38);
}

#[test]
fn doubling_a_point_on_the_x_axis_gives_the_point_at_infinity() {
    let curve = EllipticCurve::new(-3, 0);
    let p = affine(5, 0, 11, curve);
    let identity = Point::new(None, None, curve).unwrap();
    assert_eq!(p.add(&p).unwrap(), identity);
    assert_eq!(p.negate(), p);
    assert_eq!(p.scalar_mul(2).unwrap(), identity);
    assert_eq!(p.scalar_mul(3).unwrap(), p);
}

#[test]
fn points_of_different_curves_are_refused() {
    let p = base_point();
    let other = affine(1006, 416, 1021, EllipticCurve::new(905, 100));
    assert_eq!(p.add(&other), Err(CurveError::CurveMismatch));
    let identity_elsewhere = Point::new(None, None, EllipticCurve::new(905, 100)).unwrap();
    assert_eq!(p.add(&identity_elsewhere), Err(CurveError::CurveMismatch));
    assert_eq!(identity_elsewhere.add(&p), Err(CurveError::CurveMismatch));
}

#[test]
fn points_over_different_fields_are_refused() {
    let curve = EllipticCurve::new(0, 0);
    let p = affine(1, 1, 7, curve);
    let q = affine(1, 1, 11, curve);
    assert_eq!(p.add(&q), Err(CurveError::ModulusMismatch));
}

#[test]
fn a_tangent_with_no_slope_modulo_two_is_refused() {
    let curve = EllipticCurve::new(0, 1);
    let p = affine(0, 1, 2, curve);
    assert_eq!(p.add(&p), Err(CurveError::DivisionByZero));
    assert_eq!(p.scalar_mul(2), Err(CurveError::DivisionByZero));
    assert_eq!(p.scalar_mul(5), Err(CurveError::DivisionByZero));
    assert_eq!(p.scalar_mul(1), Ok(p));
}

#[test]
fn a_chord_with_no_slope_modulo_a_composite_is_refused() {
    let curve = EllipticCurve::new(0, 0);
    let p = affine(0, 0, 15, curve);
    let q = affine(6, 6, 15, curve);
    assert_eq!(p.add(&q), Err(CurveError::NotInvertible { value: 6, modulus: 15 }));
}

#[test]
fn scalar_multiplication_by_zero_and_one() {
    let p = base_point();
    let identity = Point::new(None, None, p.curve).unwrap();
    assert_eq!(p.scalar_mul(0).unwrap(), identity);
    assert_eq!(p.scalar_mul(1).unwrap(), p);
    assert_eq!(identity.scalar_mul(0).unwrap(), identity);
    assert_eq!(identity.scalar_mul(7).unwrap(), identity);
}

#[test]
fn scalar_multiplication_is_additive() {
    let p = base_point();
    for k in 0..12 {
        for j in 0..12 {
            let left = p.scalar_mul(k).unwrap().add(&p.scalar_mul(j).unwrap()).unwrap();
            assert_eq!(left, p.scalar_mul(k + j).unwrap());
        }
    }
    // across the order of the point, which is 1039
    let left = p.scalar_mul(1000).unwrap().add(&p.scalar_mul(39).unwrap()).unwrap();
    assert_eq!(left, p.scalar_mul(0).unwrap());
    assert_eq!(p.scalar_mul(1040).unwrap(), p);
}

#[test]
fn addition_is_commutative_and_associative_on_a_small_curve() {
    let curve = EllipticCurve::new(0, 6);
    let g = affine(9, 2, 43, curve);
    for i in 0..8 {
        for j in 0..8 {
            let a = g.scalar_mul(i).unwrap();
            let b = g.scalar_mul(j).unwrap();
            assert_eq!(a.add(&b).unwrap(), b.add(&a).unwrap());
            let left = a.add(&b).unwrap().add(&g).unwrap();
            let right = a.add(&b.add(&g).unwrap()).unwrap();
            assert_eq!(left, right);
        }
    }
}

#[test]
fn every_sum_of_two_points_of_a_small_curve_is_on_the_curve() {
    let curve = EllipticCurve::new(0, 6);
    let mut points = vec![Point::new(None, None, curve).unwrap()];
    for x in 0..43 {
        for y in 0..43 {
            let candidate = Point::new(
                Some(FiniteFieldElement::new(x, 43)),
                Some(FiniteFieldElement::new(y, 43)),
                curve,
            );
            if let Ok(p) = candidate {
                points.push(p);
            }
        }
    }
    assert_eq!(points.len(), 39);
    for p in &points {
        for q in &points {
            let sum = p.add(q).unwrap();
            assert!(sum.is_valid());
            assert!(points.contains(&sum));
        }
    }
}

fn points_of(curve: EllipticCurve, modulus: i32) -> Vec<Point> {
    let mut points = vec![Point::new(None, None, curve).unwrap()];
    for x in 0..modulus {
        for y in 0..modulus {
            let candidate = Point::new(
                Some(FiniteFieldElement::new(x, modulus)),
                Some(FiniteFieldElement::new(y, modulus)),
                curve,
            );
            if let Ok(p) = candidate {
                points.push(p);
            }
        }
    }
    points
}

#[test]
fn adding_a_point_and_then_its_negation_gives_back_the_first() {
    // 4 a^3 + 27 b^2 is 26 modulo 43 for y^2 = x^3 + 6, and 2 modulo 11
    // for y^2 = x^3 - 3x
    for (curve, modulus) in [(EllipticCurve::new(0, 6), 43), (EllipticCurve::new(-3, 0), 11)] {
        let points = points_of(curve, modulus);
        for p in &points {
            for q in &points {
                let sum = p.add(q).unwrap();
                assert_eq!(sum.add(&q.negate()).unwrap(), *p);
            }
        }
    }
}

#[test]
fn a_point_cancels_from_both_sides_of_an_equation() {
    let curve = EllipticCurve::new(0, 6);
    let points = points_of(curve, 43);
    let g = affine(9, 2, 43, curve);
    for p in &points {
        for q in &points {
            if p != q {
                assert_ne!(p.add(&g).unwrap(), q.add(&g).unwrap());
            }
        }
    }
}

#[test]
fn a_singular_point_swallows_what_is_added_to_it() {
    // y^2 = x^3 has the singular point (0, 0), where the discriminant
    // vanishes: adding it leaves no way back
    let curve = EllipticCurve::new(0, 0);
    let singular = affine(0, 0, 7, curve);
    let p = affine(1, 1, 7, curve);
    let identity = Point::new(None, None, curve).unwrap();
    assert_eq!(p.add(&singular).unwrap(), singular);
    assert_eq!(p.add(&singular).unwrap().add(&singular.negate()).unwrap(), identity);
}

#[test]
fn naive_factor_gives_back_every_factor_up_to_the_order() {
    // (13, 15) has order 13 and (9, 2) order 39 on y^2 = x^3 + 6 over 43
    let curve = EllipticCurve::new(0, 6);
    for (g, order) in [(affine(13, 15, 43, curve), 13), (affine(9, 2, 43, curve), 39)] {
        let identity = Point::new(None, None, curve).unwrap();
        for k in 1..=order {
            let target = g.scalar_mul(k).unwrap();
            assert_eq!(target == identity, k == order);
            assert_eq!(g.naive_factor(target).unwrap(), Some(k as u128));
        }
        assert_eq!(g.naive_factor(g.scalar_mul(order + 1).unwrap()).unwrap(), Some(1));
    }
}

#[test]
fn naive_factor_undoes_scalar_multiplication() {
    let p = base_point();
    for k in 1..40 {
        let target = p.scalar_mul(k).unwrap();
        assert_eq!(p.naive_factor(target).unwrap(), Some(k as u128));
    }
}

#[test]
fn naive_factor_returns_the_least_factor() {
    // the point (13, 15) has order 13 on y^2 = x^3 + 6 over 43 elements
    let curve = EllipticCurve::new(0, 6);
    let g = affine(13, 15, 43, curve);
    assert_eq!(g.naive_factor(g.scalar_mul(14).unwrap()).unwrap(), Some(1));
    assert_eq!(g.naive_factor(g.scalar_mul(30).unwrap()).unwrap(), Some(4));
    assert_eq!(g.naive_factor(g.scalar_mul(0).unwrap()).unwrap(), Some(13));
    assert_eq!(g.naive_factor(g.scalar_mul(13).unwrap()).unwrap(), Some(13));
}

#[test]
fn naive_factor_finds_the_logarithm_of_the_target() {
    let curve = EllipticCurve::new(905, 100);
    let generator = affine(1006, 416, 1021, curve);
    let target = affine(612, 827, 1021, curve);
    let k = generator.naive_factor(target).unwrap().unwrap();
    assert_eq!(k, 687);
    assert_eq!(generator.scalar_mul(k as u32).unwrap(), target);
}

#[test]
fn naive_factor_looks_as_far_as_a_curve_can_have_points() {
    // modulo 2 a curve has five points at most; y^2 = x^3 + x has three
    let curve = EllipticCurve::new(1, 0);
    let g = affine(1, 0, 2, curve);
    let identity = Point::new(None, None, curve).unwrap();
    assert_eq!(g.add(&g).unwrap(), identity);
    assert_eq!(g.naive_factor(identity).unwrap(), Some(2));
    assert_eq!(g.naive_factor(affine(0, 0, 2, curve)).unwrap(), None);
    // the point (379, 1011) generates all 1039 points of its curve
    let p = base_point();
    assert_eq!(p.naive_factor(p.negate()).unwrap(), Some(1038));
    assert_eq!(p.naive_factor(Point::new(None, None, p.curve).unwrap()).unwrap(), Some(1039));
}

#[test]
fn naive_factor_gives_up_where_there_is_no_factor() {
    // (13, 15) generates 13 of the 39 points; (9, 2) is not among them
    let curve = EllipticCurve::new(0, 6);
    let g = affine(13, 15, 43, curve);
    let outside = affine(9, 2, 43, curve);
    assert_eq!(g.naive_factor(outside).unwrap(), None);
    // a point of another curve is never met
    let elsewhere = affine(379, 1011, 1021, EllipticCurve::new(-3, -3));
    assert_eq!(g.naive_factor(elsewhere).unwrap(), None);
}

#[test]
fn naive_factor_within_stops_at_its_limit() {
    let p = base_point();
    let target = p.scalar_mul(10).unwrap();
    assert_eq!(p.naive_factor_within(target, 9).unwrap(), None);
    assert_eq!(p.naive_factor_within(target, 10).unwrap(), Some(10));
    assert_eq!(p.naive_factor_within(target, 0).unwrap(), None);
    assert_eq!(p.naive_factor_within(p, 1).unwrap(), Some(1));
}

#[test]
fn naive_factor_from_the_point_at_infinity() {
    let curve = EllipticCurve::new(-3, -3);
    let identity = Point::new(None, None, curve).unwrap();
    assert_eq!(identity.naive_factor(identity).unwrap(), Some(1));
    assert_eq!(identity.naive_factor(base_point()).unwrap(), None);
}

#[test]
fn naive_factor_reports_an_addition_that_fails() {
    let curve = EllipticCurve::new(0, 1);
    let p = affine(0, 1, 2, curve);
    let target = affine(1, 0, 2, curve);
    assert_eq!(p.naive_factor(target), Err(CurveError::DivisionByZero));
    assert_eq!(p.naive_factor(p), Ok(Some(1)));
}

#[test]
fn validity_is_what_the_constructor_checks() {
    let curve = EllipticCurve::new(-3, -3);
    assert!(base_point().is_valid());
    assert!(Point { x: None, y: None, curve }.is_valid());
    let x = FiniteFieldElement::new(379, 1021);
    let y = FiniteFieldElement::new(1011, 1021);
    let half = Point { x: Some(x), y: None, curve };
    assert!(!half.is_valid());
    assert_eq!(half.validate(), Err(CurveError::InvalidPoint));
    let off = Point { x: Some(y), y: Some(x), curve };
    assert_eq!(off.validate(), Err(CurveError::PointNotOnCurve));
    let beyond = FiniteFieldElement { value: 379 + 1021, modulus: 1021 };
    let unreduced = Point { x: Some(beyond), y: Some(y), curve };
    assert_eq!(unreduced.validate(), Err(CurveError::InvalidPoint));
    let below = FiniteFieldElement { value: 379 - 1021, modulus: 1021 };
    let negative = Point { x: Some(below), y: Some(y), curve };
    assert_eq!(negative.validate(), Err(CurveError::InvalidPoint));
    let wrapped = Point { x: Some(FiniteFieldElement::new(379 - 1021, 1021)), y: Some(y), curve };
    assert_eq!(wrapped.validate(), Ok(()));
    assert_eq!(wrapped, base_point());
    assert_eq!(base_point().validate(), Ok(()));
}

#[test]
fn points_are_equal_when_curve_and_coordinates_are() {
    let p = base_point();
    let identity = Point::new(None, None, p.curve).unwrap();
    assert_eq!(p.eq(&p.negate()), false);
    assert_eq!(p.eq(&identity), false);
    assert_eq!(identity.eq(&identity), true);
    assert_eq!(identity.eq(&Point::new(None, None, EllipticCurve::new(0, 6)).unwrap()), false);
    assert_eq!(identity.is_infinity(), true);
    assert_eq!(p.is_infinity(), false);
}
