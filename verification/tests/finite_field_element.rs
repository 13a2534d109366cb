use finite_curve::finite_field_element::FiniteFieldElement;

#[test]
fn test_add() {
    let a = FiniteFieldElement::new(5, 7);
    let b = FiniteFieldElement::new(3, 7);
    let c = FiniteFieldElement::new(6, 7);

    assert_eq!(a.add(&b).unwrap(), FiniteFieldElement::new(1, 7));
    assert_eq!(b.add(&a).unwrap(), FiniteFieldElement::new(1, 7));
    assert_eq!(a.add(&c).unwrap(), FiniteFieldElement::new(4, 7));
}

#[test]
fn test_sub() {
    let a = FiniteFieldElement::new(5, 7);
    let b = FiniteFieldElement::new(3, 7);
    let c = FiniteFieldElement::new(6, 7);

    assert_eq!(a.sub(&b).unwrap(), FiniteFieldElement::new(2, 7));
    assert_eq!(b.sub(&a).unwrap(), FiniteFieldElement::new(5, 7));
    assert_eq!(a.sub(&c).unwrap(), FiniteFieldElement::new(6, 7));
}

#[test]
fn test_mul() {
    let a = FiniteFieldElement::new(5, 7);
    let b = FiniteFieldElement::new(3, 7);
    let c = FiniteFieldElement::new(6, 7);

    assert_eq!(a.mul(&b).unwrap(), FiniteFieldElement::new(1, 7));
    assert_eq!(b.mul(&a).unwrap(), FiniteFieldElement::new(1, 7));
    assert_eq!(a.mul(&c).unwrap(), FiniteFieldElement::new(2, 7));
}

#[test]
fn test_div() {
    let a = FiniteFieldElement::new(5, 7);
    let b = FiniteFieldElement::new(3, 7);
    let c = FiniteFieldElement::new(4, 7);

    assert_eq!(a.div(&b).unwrap(), FiniteFieldElement::new(4, 7));
    assert_eq!(b.div(&a).unwrap(), FiniteFieldElement::new(2, 7));
    assert_eq!(a.div(&c).unwrap(), FiniteFieldElement::new(3, 7));
}

#[test]
fn test_div_zero() {
    let a = FiniteFieldElement::new(5, 7);
    let b = FiniteFieldElement::new(0, 7);

    assert_eq!(a.div(&b).unwrap_err().message(), "Zero division");
}

#[test]
fn test_div_not_coprime() {
    let a = FiniteFieldElement::new(1, 7);
    let b = FiniteFieldElement::new(-1, 7);

    assert_eq!(a.div(&b), Ok(FiniteFieldElement::new(6, 7)));
}

#[test]
fn test_check_modulus() {
    let a = FiniteFieldElement::new(5, 7);
    let b = FiniteFieldElement::new(3, 7);
    let c = FiniteFieldElement::new(6, 8);

    assert_eq!(a.check_modulus(&b).unwrap(), ());
    assert_eq!(a.check_modulus(&c).unwrap_err().message(), "Modulus mismatch");
}
