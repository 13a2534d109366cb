use finite_curve::elliptic_curve::EllipticCurve;
use finite_curve::finite_field_element::FiniteFieldElement;

#[test]
fn test_new() {
    let curve = EllipticCurve::new(-3, -3);
    assert_eq!(curve.a, -3);
    assert_eq!(curve.b, -3);
}

#[test]
fn elliptic_curve_test_eq() {
    let curve = EllipticCurve::new(-3, -3);
    let other = EllipticCurve::new(-3, -3);
    assert_eq!(curve.eq(&other), true);
}

#[test]
fn test_check_point() {
    let curve = EllipticCurve::new(-3, -3);
    let x = FiniteFieldElement::new(379, 1021);
    let y = FiniteFieldElement::new(1011, 1021);
    assert_eq!(curve.check_point(x, y), true);
}
