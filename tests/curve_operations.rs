use num_bigint::BigUint;
use weierstrass::elliptic_curve::{CurveError, EllipticCurve};
use weierstrass::point::Point;

fn create_curve(a: u32, b: u32, p: u32) -> EllipticCurve {
    EllipticCurve::new(to_biguint(a), to_biguint(b), to_biguint(p))
}

fn to_biguint(val: u32) -> BigUint {
    BigUint::from(val)
}

fn affine(x: u32, y: u32) -> Point {
    Point::new(to_biguint(x), to_biguint(y))
}

#[test]
fn test_point_not_valid() {
    let curve = create_curve(2, 3, 97);
    let point = affine(0, 0);

    assert!(!curve.is_valid_point(&point))
}

#[test]
fn test_negate_point_not_valid() {
    let curve = create_curve(2, 3, 97);
    let point = affine(0, 0);

    let negated = curve.negate_point(&point);

    assert!(negated.is_err());
    assert_eq!(negated.unwrap_err(), CurveError::InvalidPoint);
}

#[test]
fn test_negate_point_at_infinity() {
    let curve = create_curve(2, 3, 97);
    let point = Point::Infinity;

    let negated = curve.negate_point(&point).unwrap();

    assert!(negated.is_infinity());
}

#[test]
fn test_negate_negates_correctly_1() {
    let curve = create_curve(2, 3, 97);
    let point = affine(0, 10);

    let expected_negated = affine(0, 87);
    let negated = curve.negate_point(&point).unwrap();
    assert_eq!(expected_negated, negated);
}

#[test]
fn test_negate_negates_correctly_2() {
    let curve = create_curve(2, 3, 97);
    let point = affine(0, 87);

    let expected_negated = affine(0, 10);
    let negated = curve.negate_point(&point).unwrap();
    assert_eq!(expected_negated, negated);
}

#[test]
fn test_negate_negates_correctly_3() {
    let curve = create_curve(2, 3, 97);
    let point = affine(3, 91);

    let expected_negated = affine(3, 6);
    let negated = curve.negate_point(&point).unwrap();
    assert_eq!(expected_negated, negated);
}

#[test]
fn test_subtract_points_invalid_1() {
    let curve = create_curve(2, 3, 97);
    let point1 = affine(0, 0);
    let point2 = affine(3, 6);

    let result = curve.subtract_points(&point1, &point2);

    assert!(result.clone().is_err());
    assert_eq!(result.unwrap_err(), CurveError::InvalidPoint);
}

#[test]
fn test_subtract_points_invalid_2() {
    let curve = create_curve(2, 3, 97);
    let point1 = affine(3, 6);
    let point2 = affine(0, 0);

    let result = curve.subtract_points(&point1, &point2);

    assert!(result.clone().is_err());
    assert_eq!(result.unwrap_err(), CurveError::InvalidPoint);
}

#[test]
fn test_subtract_points_success() {
    let curve = create_curve(2, 3, 97);
    let point1 = affine(0, 10);
    let point2 = affine(3, 6);

    let expected_result = affine(47, 79);
    let result = curve.subtract_points(&point1, &point2).unwrap();

    assert_eq!(result, expected_result);
}

#[test]
fn test_scalar_division_scalar_is_zero() {
    let curve = create_curve(2, 3, 97);
    let point = affine(0, 10);
    let scalar = to_biguint(0);

    let result = curve.scalar_division(scalar, &point);

    assert!(result.clone().is_err());
    assert_eq!(result.unwrap_err(), CurveError::ScalarIsZero);
}

#[test]
fn test_scalar_division_invalid_point() {
    let curve = create_curve(2, 3, 97);
    let point = affine(0, 0);
    let scalar = to_biguint(10);

    let result = curve.scalar_division(scalar, &point);

    assert!(result.clone().is_err());
    assert_eq!(result.unwrap_err(), CurveError::InvalidPoint);
}

#[test]
fn test_scalar_division_success() {
    let curve = create_curve(2, 3, 97);
    let point = affine(0, 0);
    let scalar = to_biguint(10);

    let inverse = curve.calculate_inverse(&scalar);
    let expected_result = curve.scalar_multiplication(&inverse, &point);
    let result = curve.scalar_division(scalar, &point);

    assert_eq!(expected_result, result);
}

#[test]
fn test_scalar_multiplication_invalid_point() {
    let curve = create_curve(2, 3, 97);
    let point = affine(0, 0);
    let scalar = to_biguint(10);

    let result = curve.scalar_multiplication(&scalar, &point);

    assert!(result.is_err());
    assert_eq!(result.unwrap_err(), CurveError::InvalidPoint);
}

#[test]
fn test_scalar_multiplication_scalar_is_zero() {
    let curve = create_curve(2, 3, 97);
    let point = affine(0, 10);
    let scalar = to_biguint(0);

    let result = curve.scalar_multiplication(&scalar, &point).unwrap();

    assert_eq!(result, Point::Infinity);
}

#[test]
fn test_scalar_multiplication_success() {
    let curve = create_curve(2, 3, 97);
    let point = affine(0, 10);
    let scalar = to_biguint(11);

    let result = curve.scalar_multiplication(&scalar, &point).unwrap();

    assert_eq!(result, affine(17, 87));
}

#[test]
fn test_add_points_invalid_point1() {
    let curve = create_curve(2, 3, 97);
    let point1 = affine(0, 0);
    let point2 = affine(0, 10);

    let result = curve.add_points(&point1, &point2);

    assert!(result.is_err());
    assert_eq!(result.unwrap_err(), CurveError::InvalidPoint);
}

#[test]
fn test_add_points_invalid_point2() {
    let curve = create_curve(2, 3, 97);
    let point1 = affine(0, 10);
    let point2 = affine(0, 0);

    let result = curve.add_points(&point1, &point2);

    assert!(result.is_err());
    assert_eq!(result.unwrap_err(), CurveError::InvalidPoint);
}

#[test]
fn test_add_points_point1_is_infinity() {
    let curve = create_curve(2, 3, 97);
    let point1 = Point::Infinity;
    let point2 = affine(0, 10);

    let result = curve.add_points(&point1, &point2);

    assert_eq!(result.unwrap(), point2);
}

#[test]
fn test_add_points_point2_is_infinity() {
    let curve = create_curve(2, 3, 97);
    let point1 = affine(0, 10);
    let point2 = Point::Infinity;

    let result = curve.add_points(&point1, &point2);

    assert_eq!(result.unwrap(), point1);
}

#[test]
fn test_add_points_adds_1() {
    let curve = create_curve(2, 3, 97);
    let point1 = affine(3, 6);
    let point2 = affine(0, 10);

    let expected_result = affine(85, 71);
    let result = curve.add_points(&point1, &point2);

    assert_eq!(result.unwrap(), expected_result);
}

#[test]
fn test_add_points_adds_2() {
    let curve = create_curve(2, 3, 97);
    let point1 = affine(0, 10);
    let point2 = affine(3, 6);

    let expected_result = affine(85, 71);
    let result = curve.add_points(&point1, &point2);

    assert_eq!(result.unwrap(), expected_result);
}

#[test]
fn test_add_points_adds_3() {
    let curve = create_curve(2, 3, 97);
    let point1 = affine(0, 87);
    let point2 = affine(0, 10);

    let expected_result = Point::Infinity;
    let result = curve.add_points(&point1, &point2);

    assert_eq!(result.unwrap(), expected_result);
}

#[test]
fn test_add_points_adds_4() {
    let curve = create_curve(2, 3, 97);
    let point1 = affine(23, 73);
    let point2 = affine(23, 24);

    let expected_result = Point::Infinity;
    let result = curve.add_points(&point1, &point2);

    assert_eq!(result.unwrap(), expected_result);
}

#[test]
fn test_add_points_adds_5() {
    let curve = create_curve(2, 3, 97);
    let point1 = affine(23, 73);
    let point2 = affine(23, 73);

    let expected_result = affine(95, 31);
    let result = curve.add_points(&point1, &point2);

    assert_eq!(result.unwrap(), expected_result);
}

#[test]
fn test_add_points_adds_6() {
    let curve = create_curve(2, 3, 97);
    let point1 = affine(0, 10);
    let point2 = affine(0, 10);

    let expected_result = affine(65, 32);
    let result = curve.add_points(&point1, &point2);

    assert_eq!(result.unwrap(), expected_result);
}
