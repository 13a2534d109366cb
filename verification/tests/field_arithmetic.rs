use finite_curve::error::CurveError;
use finite_curve::extended_euclid::ExtendedEuclideanAlgorithm;
use finite_curve::finite_field_element::FiniteFieldElement;

#[test]
fn new_reduces_a_value_that_is_not_negative() {
    let a = FiniteFieldElement::new(10, 7);
    assert_eq!(a.value, 3);
    assert_eq!(a.modulus, 7);
    assert_eq!(FiniteFieldElement::new(7, 7).value, 0);
    assert_eq!(FiniteFieldElement::new(0, 1).value, 0);
}

#[test]
fn new_reduces_a_negative_value_into_the_range_of_the_modulus() {
    assert_eq!(FiniteFieldElement::new(-1, 7).value, 6);
    assert_eq!(FiniteFieldElement::new(-10, 7).value, 4);
    assert_eq!(FiniteFieldElement::new(-14, 7).value, 0);
    assert_eq!(FiniteFieldElement::new(-7, 7), FiniteFieldElement::new(0, 7));
    assert_eq!(FiniteFieldElement::new(-1, 1).value, 0);
    assert_eq!(FiniteFieldElement::new(i32::MIN, i32::MAX).value, 2_147_483_646);
    assert_eq!(FiniteFieldElement::new(i32::MIN, 1021).value, 967);
    for value in -30..30 {
        let element = FiniteFieldElement::new(value, 7);
        assert!(0 <= element.value && element.value < 7);
        assert_eq!((element.value - value) % 7, 0);
        assert_eq!(element, FiniteFieldElement::new(value + 7, 7));
    }
}

#[test]
fn an_element_made_from_a_negative_value_is_its_residue() {
    let minus_three = FiniteFieldElement::new(-3, 7);
    let five = FiniteFieldElement::new(5, 7);
    assert_eq!(minus_three, FiniteFieldElement::new(4, 7));
    assert_eq!(minus_three.add(&five).unwrap(), FiniteFieldElement::new(2, 7));
    assert_eq!(minus_three.sub(&five).unwrap(), FiniteFieldElement::new(6, 7));
    assert_eq!(minus_three.mul(&five).unwrap(), FiniteFieldElement::new(6, 7));
    assert_eq!(minus_three.pow(3).unwrap(), FiniteFieldElement::new(1, 7));
    assert_eq!(five.div(&minus_three).unwrap(), FiniteFieldElement::new(3, 7));
}

#[test]
fn the_divisor_made_from_minus_one_has_an_inverse() {
    let one = FiniteFieldElement::new(1, 7);
    let minus_one = FiniteFieldElement::new(-1, 7);
    assert_eq!(one.div(&minus_one), Ok(FiniteFieldElement::new(6, 7)));
    assert_eq!(minus_one.mul(&minus_one).unwrap(), one);
    for modulus in [2, 3, 8, 15, 1021] {
        let one = FiniteFieldElement::new(1, modulus);
        let minus_one = FiniteFieldElement::new(-1, modulus);
        assert_eq!(one.div(&minus_one), Ok(minus_one));
    }
}

#[test]
fn adding_then_subtracting_gives_back_the_element() {
    for modulus in [1, 2, 7, 12] {
        for a in 0..modulus {
            for b in 0..modulus {
                let x = FiniteFieldElement::new(a, modulus);
                let y = FiniteFieldElement::new(b, modulus);
                assert_eq!(x.add(&y).unwrap().sub(&y).unwrap(), x);
            }
        }
    }
}

#[test]
fn multiplying_then_multiplying_by_the_inverse_gives_back_the_element() {
    for modulus in [7, 12, 13] {
        let one = FiniteFieldElement::new(1, modulus);
        for a in 0..modulus {
            for b in 1..modulus {
                let x = FiniteFieldElement::new(a, modulus);
                let y = FiniteFieldElement::new(b, modulus);
                if let Ok(inverse) = one.div(&y) {
                    assert_eq!(x.mul(&y).unwrap().mul(&inverse).unwrap(), x);
                    assert_eq!(x.mul(&y).unwrap().div(&y).unwrap(), x);
                }
            }
        }
    }
}

#[test]
fn every_residue_but_zero_has_an_inverse_modulo_a_prime() {
    let one = FiniteFieldElement::new(1, 1021);
    for b in 1..1021 {
        let y = FiniteFieldElement::new(b, 1021);
        let inverse = one.div(&y).unwrap();
        assert_eq!(inverse.mul(&y).unwrap(), one);
    }
}

#[test]
fn division_by_zero_is_refused() {
    let a = FiniteFieldElement::new(5, 7);
    let zero = FiniteFieldElement::new(0, 7);
    assert_eq!(a.div(&zero), Err(CurveError::DivisionByZero));
    assert_eq!(zero.div(&zero), Err(CurveError::DivisionByZero));
    assert_eq!(a.check_zero(&zero), Err(CurveError::DivisionByZero));
    assert_eq!(a.check_zero(&a), Ok(()));
}

#[test]
fn division_by_a_divisor_of_the_modulus_is_refused() {
    let a = FiniteFieldElement::new(3, 8);
    let b = FiniteFieldElement::new(2, 8);
    assert_eq!(a.div(&b), Err(CurveError::NotInvertible { value: 3, modulus: 8 }));
    let c = FiniteFieldElement::new(6, 15);
    assert_eq!(c.div(&c), Err(CurveError::NotInvertible { value: 6, modulus: 15 }));
}

#[test]
fn zero_is_refused_before_the_divisor_is_tested_for_a_common_factor() {
    let a = FiniteFieldElement::new(3, 8);
    let zero = FiniteFieldElement::new(0, 8);
    assert_eq!(a.div(&zero), Err(CurveError::DivisionByZero));
}

#[test]
fn operands_of_different_moduli_are_refused() {
    let a = FiniteFieldElement::new(5, 7);
    let b = FiniteFieldElement::new(5, 11);
    assert_eq!(a.add(&b), Err(CurveError::ModulusMismatch));
    assert_eq!(a.sub(&b), Err(CurveError::ModulusMismatch));
    assert_eq!(a.mul(&b), Err(CurveError::ModulusMismatch));
    assert_eq!(a.div(&b), Err(CurveError::ModulusMismatch));
    let zero = FiniteFieldElement::new(0, 11);
    assert_eq!(a.div(&zero), Err(CurveError::ModulusMismatch));
}

#[test]
fn powers_are_exact() {
    let three = FiniteFieldElement::new(3, 7);
    assert_eq!(three.pow(4).unwrap(), FiniteFieldElement::new(4, 7));
    assert_eq!(three.pow(0).unwrap(), FiniteFieldElement::new(1, 7));
    assert_eq!(three.pow(1).unwrap(), three);
    assert_eq!(FiniteFieldElement::new(0, 7).pow(0).unwrap(), FiniteFieldElement::new(1, 7));
    assert_eq!(FiniteFieldElement::new(0, 7).pow(5).unwrap(), FiniteFieldElement::new(0, 7));
    assert_eq!(FiniteFieldElement::new(0, 1).pow(0).unwrap(), FiniteFieldElement::new(0, 1));
}

#[test]
fn powers_do_not_overflow() {
    let two = FiniteFieldElement::new(2, 1_000_003);
    assert_eq!(two.pow(1_000_000).unwrap(), FiniteFieldElement::new(250_001, 1_000_003));
    let large = FiniteFieldElement::new(2_147_483_646, i32::MAX);
    assert_eq!(large.pow(2).unwrap(), FiniteFieldElement::new(1, i32::MAX));
    assert_eq!(large.pow(u32::MAX).unwrap(), large);
    assert_eq!(large.mul(&large).unwrap(), FiniteFieldElement::new(1, i32::MAX));
    assert_eq!(large.add(&large).unwrap(), FiniteFieldElement::new(2_147_483_645, i32::MAX));
}

#[test]
fn extended_gcd_gives_the_divisor_and_its_coefficients() {
    assert_eq!(ExtendedEuclideanAlgorithm::extended_gcd(240, 46), (2, -9, 47));
    assert_eq!(ExtendedEuclideanAlgorithm::extended_gcd(3, 7), (1, -2, 1));
    assert_eq!(ExtendedEuclideanAlgorithm::extended_gcd(5, 0), (5, 1, 0));
    assert_eq!(ExtendedEuclideanAlgorithm::extended_gcd(0, 5), (5, 0, 1));
    assert_eq!(ExtendedEuclideanAlgorithm::extended_gcd(0, 0), (0, 1, 0));
    assert_eq!(ExtendedEuclideanAlgorithm::extended_gcd(2, 8), (2, 1, 0));
}

#[test]
fn extended_gcd_rounds_toward_zero_on_negative_arguments() {
    assert_eq!(ExtendedEuclideanAlgorithm::extended_gcd(-1, 7), (-1, 1, 0));
    assert_eq!(ExtendedEuclideanAlgorithm::extended_gcd(-2, 7), (1, 3, 1));
}

#[test]
fn extended_gcd_satisfies_the_identity_of_bezout() {
    for a in -40..40 {
        for b in -40..40 {
            let (d, x, y) = ExtendedEuclideanAlgorithm::extended_gcd(a, b);
            assert_eq!(a * x + b * y, d);
        }
    }
    let (d, x, y) = ExtendedEuclideanAlgorithm::extended_gcd(i32::MAX, -i32::MAX + 1);
    assert_eq!(i32::MAX as i64 * x as i64 + (-i32::MAX + 1) as i64 * y as i64, d as i64);
}
