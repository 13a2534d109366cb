use finite_curve::elliptic_curve::EllipticCurve;
use finite_curve::error::CurveError;
use finite_curve::finite_field_element::FiniteFieldElement;
use finite_curve::point::Point;

#[test]
fn test_new_point_exists() {
    let curve = EllipticCurve::new(-3, -3);
    let x = FiniteFieldElement::new(379, 1021);
    let y = FiniteFieldElement::new(1011, 1021);
    let point = Point::new(Some(x), Some(y), curve);
    assert_eq!(point.is_ok(), true);
}

#[test]
fn test_new_point_doesnt_exists() {
    let curve = EllipticCurve::new(-3, -3);
    let x = FiniteFieldElement::new(1, 17);
    let y = FiniteFieldElement::new(5, 17);
    let point2: Result<Point, CurveError> = Point::new(Some(x), Some(y), curve);
    println!("{:?}", point2);
    assert_eq!(point2.is_err(), true);
}

#[test]
fn test_new_point_infinity() {
    let curve = EllipticCurve::new(-3, -3);
    let point3 = Point::new(None, None, curve);
    assert_eq!(point3.is_ok(), true);
    // check that x and y is None
    assert_eq!(point3.clone().unwrap().x, None);
    assert_eq!(point3.unwrap().y, None);
}

#[test]
fn point_test_eq() {
    let curve = EllipticCurve::new(-3, -3);
    let x = FiniteFieldElement::new(379, 1021);
    let y = FiniteFieldElement::new(1011, 1021);
    let point = Point::new(Some(x.clone()), Some(y.clone()), curve.clone()).unwrap();
    let point2 = Point::new(Some(x), Some(y), curve.clone()).unwrap();
    assert_eq!(point.eq(&point2), true);
}

#[test]
fn test_add_same_point() {
    let curve = EllipticCurve::new(-3, -3);
    let x = FiniteFieldElement::new(379, 1021);
    let y = FiniteFieldElement::new(1011, 1021);
    let point = Point::new(Some(x.clone()), Some(y.clone()), curve.clone()).unwrap();
    let point2 = Point::new(Some(x), Some(y), curve.clone()).unwrap();
    let point3 = point.add(&point2).unwrap();
    assert_eq!(point3.x, Some(FiniteFieldElement::new(57, 1021)));
    assert_eq!(point3.y, Some(FiniteFieldElement::new(914, 1021)));
}

#[test]
fn test_add_different_points() {
    let curve = EllipticCurve::new(-3, -3);
    let x = FiniteFieldElement::new(379, 1021);
    let y = FiniteFieldElement::new(1011, 1021);
    let point = Point::new(Some(x.clone()), Some(y.clone()), curve.clone()).unwrap();
    let x2 = FiniteFieldElement::new(57, 1021);
    let y2 = FiniteFieldElement::new(914, 1021);
    let point2 = Point::new(Some(x2), Some(y2), curve.clone()).unwrap();
    let point3 = point.add(&point2).unwrap();
    assert_eq!(point3.x, Some(FiniteFieldElement::new(103, 1021)));
    assert_eq!(point3.y, Some(FiniteFieldElement::new(239, 1021)));
}

#[test]
fn test_scalar_mul() {
    let curve = EllipticCurve::new(-3, -3);
    let x = FiniteFieldElement::new(379, 1021);
    let y = FiniteFieldElement::new(1011, 1021);
    let point = Point::new(Some(x.clone()), Some(y.clone()), curve.clone()).unwrap();

    // scalar mult by 2
    let point2 = point.scalar_mul(2).unwrap();
    assert_eq!(point2.x, Some(FiniteFieldElement::new(57, 1021)));
    assert_eq!(point2.y, Some(FiniteFieldElement::new(914, 1021)));

    // scalar mult by 3
    let point3 = point.scalar_mul(3).unwrap();
    assert_eq!(point3.x, Some(FiniteFieldElement::new(103, 1021)));
    assert_eq!(point3.y, Some(FiniteFieldElement::new(239, 1021)));

    // starting at inf returns inf
    let point = Point::new(None, None, curve.clone()).unwrap();
    let point3 = point.scalar_mul(2).unwrap();
    assert_eq!(point3.eq(&point), true);
}

#[test]
fn test_is_on_curve() {
    let curve = EllipticCurve::new(-3, -3);
    let x = FiniteFieldElement::new(379, 1021);
    let y = FiniteFieldElement::new(1011, 1021);
    let point = Point::new(Some(x.clone()), Some(y.clone()), curve.clone());
    assert_eq!(point.is_ok(), true);

    let x2 = FiniteFieldElement::new(56, 1021);
    let y2 = FiniteFieldElement::new(914, 1021);
    let point2 = Point::new(Some(x2), Some(y2), curve.clone());
    assert_eq!(point2.is_err(), true);
}

#[test]
fn test_naive_factor() {
    let curve = EllipticCurve::new(905, 100);
    let generator = Point::new(
        Some(FiniteFieldElement::new(1006, 1021)),
        Some(FiniteFieldElement::new(416, 1021)),
        curve.clone(),
    )
    .expect("Error creating generator point doesnt belong to curve");
    let target = Point::new(
        Some(FiniteFieldElement::new(612, 1021)),
        Some(FiniteFieldElement::new(827, 1021)),
        curve.clone(),
    )
    .expect("Error creating target point doesnt belong to curve");
    let res = generator.naive_factor(target).expect("Error factoring point");
    println!("res: {:?}", res);
}
