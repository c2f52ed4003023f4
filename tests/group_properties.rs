use num_bigint::BigUint;
use weierstrass::elliptic_curve::{CurveError, EllipticCurve};
use weierstrass::point::Point;

fn reference_curve() -> EllipticCurve {
    EllipticCurve::new(BigUint::from(2u32), BigUint::from(3u32), BigUint::from(97u32))
}

fn affine(x: u32, y: u32) -> Point {
    Point::new(BigUint::from(x), BigUint::from(y))
}

#[test]
fn infinity_is_valid() {
    let curve = reference_curve();
    assert!(curve.is_valid_point(&Point::Infinity));
    assert!(curve.is_valid_point(&affine(0, 10)));
    assert!(curve.is_valid_point(&affine(3, 6)));
}

#[test]
fn infinity_is_identity_on_both_sides() {
    let curve = reference_curve();
    for point in [affine(0, 10), affine(3, 6), affine(30, 0), Point::Infinity] {
        assert_eq!(curve.add_points(&point, &Point::Infinity).unwrap(), point);
        assert_eq!(curve.add_points(&Point::Infinity, &point).unwrap(), point);
    }
}

#[test]
fn point_plus_negation_is_infinity() {
    let curve = reference_curve();
    for point in [affine(0, 10), affine(3, 91), affine(23, 73), affine(30, 0)] {
        let negated = curve.negate_point(&point).unwrap();
        assert_eq!(curve.add_points(&point, &negated).unwrap(), Point::Infinity);
    }
}

#[test]
fn negating_twice_gives_the_point() {
    let curve = reference_curve();
    let point = affine(23, 73);
    let once = curve.negate_point(&point).unwrap();
    assert_eq!(once, affine(23, 24));
    assert_eq!(curve.negate_point(&once).unwrap(), point);
    assert_eq!(curve.negate_point(&affine(30, 0)).unwrap(), affine(30, 0));
}

#[test]
fn addition_commutes_on_examples() {
    let curve = reference_curve();
    let left = curve.add_points(&affine(3, 6), &affine(0, 10)).unwrap();
    let right = curve.add_points(&affine(0, 10), &affine(3, 6)).unwrap();
    assert_eq!(left, right);
    assert_eq!(left, affine(85, 71));
}

#[test]
fn doubling_a_point_of_order_two_gives_infinity() {
    let curve = reference_curve();
    let point = affine(30, 0);
    assert_eq!(curve.add_points(&point, &point).unwrap(), Point::Infinity);
}

#[test]
fn subtraction_undoes_addition() {
    let curve = reference_curve();
    let p = affine(0, 10);
    let q = affine(3, 6);
    let total = curve.add_points(&p, &q).unwrap();
    assert_eq!(curve.subtract_points(&total, &q).unwrap(), p);
}

#[test]
fn scalar_multiplication_small_scalars() {
    let curve = reference_curve();
    let point = affine(0, 10);
    let one = curve.scalar_multiplication(&BigUint::from(1u32), &point).unwrap();
    let two = curve.scalar_multiplication(&BigUint::from(2u32), &point).unwrap();
    assert_eq!(one, point);
    assert_eq!(two, affine(65, 32));
}

#[test]
fn scalar_multiplication_distributes_over_scalar_sum() {
    let curve = reference_curve();
    let point = affine(0, 10);
    let three = curve.scalar_multiplication(&BigUint::from(3u32), &point).unwrap();
    let five = curve.scalar_multiplication(&BigUint::from(5u32), &point).unwrap();
    let eight = curve.scalar_multiplication(&BigUint::from(8u32), &point).unwrap();
    assert_eq!(curve.add_points(&three, &five).unwrap(), eight);
    assert_eq!(eight, affine(84, 37));
}

#[test]
fn scalar_division_multiplies_by_the_inverse() {
    let curve = reference_curve();
    let point = affine(0, 10);
    let inverse = curve.calculate_inverse(&BigUint::from(10u32));
    assert_eq!(inverse, BigUint::from(68u32));
    let result = curve.scalar_division(BigUint::from(10u32), &point).unwrap();
    assert_eq!(result, affine(21, 73));
}

#[test]
fn scalar_division_by_a_multiple_of_the_modulus() {
    let curve = reference_curve();
    let point = affine(0, 10);
    assert_eq!(curve.calculate_inverse(&BigUint::from(97u32)), BigUint::from(0u32));
    let result = curve.scalar_division(BigUint::from(97u32), &point).unwrap();
    assert_eq!(result, Point::Infinity);
}

#[test]
fn scalar_division_checks_zero_before_validity() {
    let curve = reference_curve();
    let result = curve.scalar_division(BigUint::from(0u32), &affine(0, 0));
    assert_eq!(result, Err(CurveError::ScalarIsZero));
}

#[test]
fn order_of_points() {
    let curve = reference_curve();
    let point = affine(0, 10);
    let order = curve.order_of_point(&point).unwrap();
    assert_eq!(order, BigUint::from(50u32));
    assert_eq!(curve.scalar_multiplication(&order, &point).unwrap(), Point::Infinity);
    let smaller = curve.scalar_multiplication(&BigUint::from(25u32), &point).unwrap();
    assert_ne!(smaller, Point::Infinity);
    assert_eq!(curve.order_of_point(&affine(3, 6)).unwrap(), BigUint::from(5u32));
    assert_eq!(curve.order_of_point(&affine(30, 0)).unwrap(), BigUint::from(2u32));
    assert_eq!(curve.order_of_point(&Point::Infinity).unwrap(), BigUint::from(1u32));
}

#[test]
fn order_of_invalid_point() {
    let curve = reference_curve();
    assert_eq!(curve.order_of_point(&affine(0, 0)), Err(CurveError::InvalidPoint));
}

#[test]
fn duplicate_keeps_coordinates() {
    let point = affine(17, 87);
    assert_eq!(point.duplicate(), point);
    assert!(!point.is_infinity());
    assert!(Point::Infinity.duplicate().is_infinity());
}

fn some_curve_points(curve: &EllipticCurve, count: usize) -> Vec<Point> {
    let mut points = Vec::new();
    for x in 0..97u32 {
        for y in 0..97u32 {
            let point = affine(x, y);
            if points.len() < count && curve.is_valid_point(&point) {
                points.push(point);
            }
        }
    }
    points.push(Point::Infinity);
    points
}

#[test]
fn reference_curve_point_count() {
    let curve = reference_curve();
    assert_eq!(some_curve_points(&curve, 1000).len(), 100);
}

#[test]
fn addition_commutes_on_many_points() {
    let curve = reference_curve();
    let points = some_curve_points(&curve, 24);
    for p in &points {
        for q in &points {
            assert_eq!(curve.add_points(p, q).unwrap(), curve.add_points(q, p).unwrap());
        }
    }
}

#[test]
fn sums_stay_on_the_curve() {
    let curve = reference_curve();
    let points = some_curve_points(&curve, 24);
    for p in &points {
        for q in &points {
            assert!(curve.is_valid_point(&curve.add_points(p, q).unwrap()));
        }
    }
}

#[test]
fn subtraction_undoes_addition_on_many_points() {
    let curve = reference_curve();
    let points = some_curve_points(&curve, 24);
    for p in &points {
        for q in &points {
            let total = curve.add_points(p, q).unwrap();
            assert_eq!(&curve.subtract_points(&total, q).unwrap(), p);
        }
    }
}

#[test]
fn inverse_modulo_the_prime() {
    let curve = reference_curve();
    for n in 1..97u32 {
        let inverse = curve.calculate_inverse(&BigUint::from(n));
        assert_eq!((inverse * BigUint::from(n)) % BigUint::from(97u32), BigUint::from(1u32));
    }
}
