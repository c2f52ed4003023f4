//! Algebraic laws of the curve operations, stated over the results that the
//! operations promise.

use crate::elliptic_curve::{CurveError, EllipticCurve};
use crate::modular::{
    is_prime, lemma_cancel, lemma_combination, lemma_congruent, lemma_difference_of_congruent,
    lemma_fermat_inverse, lemma_prime_divides_factor, lemma_remainder_congruent,
};
use crate::point::PointModel;
use vstd::arithmetic::div_mod::*;
use vstd::prelude::*;

verus! {

/// The point at infinity is the identity: adding it to a valid point on
/// either side gives that point back.
pub proof fn lemma_identity(c: EllipticCurve, pt: PointModel)
    requires
        c.wf(),
        c.in_field(pt),
        c.on_curve(pt),
    ensures
        c.added(pt, PointModel::Infinity) == Ok::<PointModel, CurveError>(pt),
        c.added(PointModel::Infinity, pt) == Ok::<PointModel, CurveError>(pt),
{
}

/// A valid point plus its negation is the point at infinity.
pub proof fn lemma_inverse(c: EllipticCurve, pt: PointModel)
    requires
        c.wf(),
        c.in_field(pt),
        c.on_curve(pt),
    ensures
        c.negated(pt) == Ok::<PointModel, CurveError>(c.neg_of(pt)),
        c.added(pt, c.neg_of(pt)) == Ok::<PointModel, CurveError>(PointModel::Infinity),
{
    c.lemma_neg_on_curve(pt);
    if let PointModel::Affine(x, y) = pt {
        let p = c.modulus();
        if y == 0 {
            lemma_mod_self_0(p);
            lemma_small_mod(0, p as nat);
        } else {
            lemma_small_mod((p - y) as nat, p as nat);
            lemma_mod_self_0(p);
        }
    }
}

/// Negating a valid point twice gives it back.
pub proof fn lemma_negate_twice(c: EllipticCurve, pt: PointModel)
    requires
        c.wf(),
        c.in_field(pt),
        c.on_curve(pt),
    ensures
        c.negated(c.neg_of(pt)) == Ok::<PointModel, CurveError>(pt),
{
    c.lemma_neg_on_curve(pt);
    if let PointModel::Affine(x, y) = pt {
        let p = c.modulus();
        if y == 0 {
            lemma_mod_self_0(p);
        } else {
            lemma_small_mod((p - y) as nat, p as nat);
            lemma_small_mod(y, p as nat);
        }
    }
}

/// Adding a valid affine point with a nonzero `y` to itself follows the
/// tangent: slope `m = (3*x^2 + a) * inverse(2*y)`, then
/// `x3 = m^2 - 2*x` and `y3 = m*(x - x3) - y`, all modulo `p`.
pub proof fn lemma_doubling(c: EllipticCurve, x: nat, y: nat)
    requires
        c.wf(),
        c.in_field(PointModel::Affine(x, y)),
        c.on_curve(PointModel::Affine(x, y)),
        y != 0,
    ensures
        ({
            let p = c.modulus();
            let m = ((3 * x * x + c.coef_a()) * c.inverse_of(2 * y as int)) % p;
            let x3 = (m * m - 2 * x) % p;
            let y3 = (m * (x - x3) - y) % p;
            c.added(PointModel::Affine(x, y), PointModel::Affine(x, y)) == Ok::<PointModel, CurveError>(
                PointModel::Affine(x3 as nat, y3 as nat),
            )
        }),
{
    let p = c.modulus();
    if 2 * y < p {
        lemma_small_mod((y + y) as nat, p as nat);
    } else {
        lemma_mod_sub_multiples_vanish((y + y) as int, p);
        lemma_small_mod((y + y - p) as nat, p as nat);
    }
}

/// Multiplying a valid point by zero gives the point at infinity.
pub proof fn lemma_scalar_zero(c: EllipticCurve, pt: PointModel)
    requires
        c.wf(),
        c.on_curve(pt),
    ensures
        c.scaled(0, pt) == Ok::<PointModel, CurveError>(PointModel::Infinity),
{
}

/// `n^(p-2)` is the inverse modulo `p` of every `n` that `p` does not divide.
pub open spec fn inverts_nonzero(c: EllipticCurve) -> bool {
    forall|n: int| n % c.modulus() != 0 ==> #[trigger] ((n * c.inverse_of(n)) % c.modulus()) == 1
}

/// Modulo a prime, `calculate_inverse` gives the inverse of every number
/// that the prime does not divide.
pub proof fn lemma_inverse_exact(c: EllipticCurve)
    requires
        c.wf(),
        is_prime(c.modulus()),
    ensures
        inverts_nonzero(c),
{
    assert forall|n: int| n % c.modulus() != 0 implies #[trigger] ((n * c.inverse_of(n)) % c.modulus()) == 1 by {
        lemma_fermat_inverse(c.modulus(), n);
    }
}

/// The difference of two distinct reduced numbers is not a multiple of `p`.
proof fn lemma_distinct_residues(u: int, v: int, p: int)
    requires
        0 <= u < p,
        0 <= v < p,
        u != v,
    ensures
        (u - v) % p != 0,
{
    if u > v {
        lemma_small_mod((u - v) as nat, p as nat);
    } else {
        lemma_mod_add_multiples_vanish(u - v, p);
        lemma_small_mod((p + u - v) as nat, p as nat);
    }
}

/// Two points of the curve with the same x coordinate but different y
/// coordinates are each other's negation, when `p` is prime.
proof fn lemma_same_x(c: EllipticCurve, x: nat, y1: nat, y2: nat)
    requires
        c.wf(),
        is_prime(c.modulus()),
        c.in_field(PointModel::Affine(x, y1)),
        c.in_field(PointModel::Affine(x, y2)),
        c.on_curve(PointModel::Affine(x, y1)),
        c.on_curve(PointModel::Affine(x, y2)),
        y1 != y2,
    ensures
        (y1 + y2) as int % c.modulus() == 0,
{
    let p = c.modulus();
    let (hi, lo) = if y1 > y2 {
        (y1 as int, y2 as int)
    } else {
        (y2 as int, y1 as int)
    };
    assert((hi * hi) % p == (lo * lo) % p);
    lemma_sub_mod_noop(hi * hi, lo * lo, p);
    lemma_small_mod(0, p as nat);
    assert((hi - lo) * (hi + lo) == hi * hi - lo * lo) by (nonlinear_arith);
    lemma_prime_divides_factor(p, hi - lo, hi + lo);
}

/// The chord slope `m` through two points with different x coordinates
/// meets `m * (x2 - x1) == y2 - y1 (mod p)`.
proof fn lemma_chord_slope(c: EllipticCurve, x1: int, y1: int, x2: int, y2: int)
    requires
        c.wf(),
        inverts_nonzero(c),
        0 <= x1 < c.modulus(),
        0 <= x2 < c.modulus(),
        x1 != x2,
    ensures
        (c.slope(x1, y1, x2, y2) * (x2 - x1)) % c.modulus() == (y2 - y1) % c.modulus(),
{
    let p = c.modulus();
    let d = x2 - x1;
    let inv = c.inverse_of(d);
    lemma_distinct_residues(x2, x1, p);
    assert((d * inv) % p == 1);
    lemma_mul_mod_noop_left((y2 - y1) * inv, d, p);
    assert((y2 - y1) * inv * d == (y2 - y1) * (d * inv)) by (nonlinear_arith);
    lemma_mul_mod_noop_right(y2 - y1, d * inv, p);
}

/// Addition of valid points commutes when `p` is prime.
pub proof fn lemma_commutative(c: EllipticCurve, pt1: PointModel, pt2: PointModel)
    requires
        c.wf(),
        is_prime(c.modulus()),
        c.in_field(pt1),
        c.in_field(pt2),
        c.on_curve(pt1),
        c.on_curve(pt2),
    ensures
        c.added(pt1, pt2) == c.added(pt2, pt1),
{
    lemma_inverse_exact(c);
    if let (PointModel::Affine(x1, y1), PointModel::Affine(x2, y2)) = (pt1, pt2) {
        let p = c.modulus();
        if x1 == x2 {
            if y1 != y2 {
                lemma_same_x(c, x1, y1, y2);
            }
        } else {
            let (x1, y1, x2, y2) = (x1 as int, y1 as int, x2 as int, y2 as int);
            let m = c.slope(x1, y1, x2, y2);
            let n = c.slope(x2, y2, x1, y1);
            lemma_chord_slope(c, x1, y1, x2, y2);
            lemma_chord_slope(c, x2, y2, x1, y1);
            // (m - n) * (x2 - x1) == 0 (mod p)
            lemma_add_mod_noop(m * (x2 - x1), n * (x1 - x2), p);
            lemma_add_mod_noop(y2 - y1, y1 - y2, p);
            lemma_small_mod(0, p as nat);
            assert((m * (x2 - x1) + n * (x1 - x2)) % p == 0);
            assert(m * (x2 - x1) + n * (x1 - x2) == (m - n) * (x2 - x1)) by (nonlinear_arith);
            lemma_distinct_residues(x2, x1, p);
            lemma_cancel(p, m - n, x2 - x1);
            lemma_mod_bound((y2 - y1) * c.inverse_of(x2 - x1), p);
            lemma_mod_bound((y1 - y2) * c.inverse_of(x1 - x2), p);
            lemma_small_mod(m as nat, p as nat);
            lemma_small_mod(n as nat, p as nat);
            lemma_congruent(m, n, p);
            assert(m == n);
            let x3 = (m * m - x1 - x2) % p;
            // the two y coordinates differ by a multiple of p
            lemma_sub_mod_noop(m * (x2 - x1), y2 - y1, p);
            lemma_sub_mod_noop(0, m * (x2 - x1) - (y2 - y1), p);
            assert((m * (x1 - x3) - y1) - (m * (x2 - x3) - y2) == 0 - (m * (x2 - x1) - (y2 - y1)))
                by (nonlinear_arith);
            lemma_congruent(m * (x1 - x3) - y1, m * (x2 - x3) - y2, p);
        }
    }
}

/// `(x1^2 + x1*x2 + x2^2) * (x2 - x1) == x2^3 - x1^3`.
proof fn lemma_cube_difference(x1: int, x2: int)
    ensures
        (x1 * x1 + x1 * x2 + x2 * x2) * (x2 - x1) == x2 * x2 * x2 - x1 * x1 * x1,
{
    assert((x1 * x1 + x1 * x2 + x2 * x2) * (x2 - x1) == x2 * x2 * x2 - x1 * x1 * x1) by (nonlinear_arith);
}

/// `(m*x2 + k)^2 - (m*x1 + k)^2 == (m^2 * (x1 + x2) + 2*m*k) * (x2 - x1)`.
proof fn lemma_line_square_difference(x1: int, x2: int, m: int, k: int)
    ensures
        (m * x2 + k) * (m * x2 + k) - (m * x1 + k) * (m * x1 + k) == (m * m * (x1 + x2) + 2 * m * k) * (x2 - x1),
{
    assert((m * x2 + k) * (m * x2 + k) == m * m * (x2 * x2) + 2 * m * k * x2 + k * k) by (nonlinear_arith);
    assert((m * x1 + k) * (m * x1 + k) == m * m * (x1 * x1) + 2 * m * k * x1 + k * k) by (nonlinear_arith);
    assert(m * m * (x1 + x2) * (x2 - x1) == m * m * (x2 * x2) - m * m * (x1 * x1)) by (nonlinear_arith);
    assert((m * m * (x1 + x2) + 2 * m * k) * (x2 - x1) == m * m * (x1 + x2) * (x2 - x1) + 2 * m * k * (x2 - x1))
        by (nonlinear_arith);
    assert(2 * m * k * (x2 - x1) == 2 * m * k * x2 - 2 * m * k * x1) by (nonlinear_arith);
}

/// The divided difference of `g(x) = x^3 + a*x + b - (m*x + k)^2` between
/// `x1` and `x2`: `d1 * (x2 - x1) == g(x2) - g(x1)`.
proof fn lemma_divided_difference(x1: int, x2: int, m: int, k: int, a: int, b: int)
    ensures
        (x1 * x1 + x1 * x2 + x2 * x2 - m * m * (x1 + x2) + a - 2 * m * k) * (x2 - x1) == (x2 * x2 * x2
            + a * x2 + b - (m * x2 + k) * (m * x2 + k)) - (x1 * x1 * x1 + a * x1 + b - (m * x1 + k) * (m
            * x1 + k)),
{
    lemma_cube_difference(x1, x2);
    lemma_line_square_difference(x1, x2, m, k);
    let s = x1 * x1 + x1 * x2 + x2 * x2;
    let t = m * m * (x1 + x2) + 2 * m * k;
    let d = x2 - x1;
    assert((s - t + a) * d == s * d - t * d + a * d) by (nonlinear_arith);
    assert(a * d == a * x2 - a * x1) by (nonlinear_arith)
        requires
            d == x2 - x1,
    ;
    assert(s - m * m * (x1 + x2) + a - 2 * m * k == s - t + a);
}

/// Newton's form of the monic cubic `g(x) = x^3 - m^2*x^2 + (a - 2*m*k)*x + (b - k^2)`
/// on the nodes `x1`, `x2`, evaluated at `x3`.
proof fn lemma_newton_form(x1: int, x2: int, x3: int, m: int, k: int, a: int, b: int)
    ensures
        ({
            let g1 = x1 * x1 * x1 + a * x1 + b - (m * x1 + k) * (m * x1 + k);
            let g3 = x3 * x3 * x3 + a * x3 + b - (m * x3 + k) * (m * x3 + k);
            let d1 = x1 * x1 + x1 * x2 + x2 * x2 - m * m * (x1 + x2) + a - 2 * m * k;
            let e3 = x1 + x2 + x3 - m * m;
            g3 == 1 * (1 * g1 + (x3 - x1) * d1) + ((x3 - x1) * (x3 - x2)) * e3
        }),
{
    let g1 = x1 * x1 * x1 + a * x1 + b - (m * x1 + k) * (m * x1 + k);
    let g3 = x3 * x3 * x3 + a * x3 + b - (m * x3 + k) * (m * x3 + k);
    let d1 = x1 * x1 + x1 * x2 + x2 * x2 - m * m * (x1 + x2) + a - 2 * m * k;
    let e3 = x1 + x2 + x3 - m * m;
    // the divided difference between x1 and x3
    lemma_divided_difference(x1, x3, m, k, a, b);
    let d13 = x1 * x1 + x1 * x3 + x3 * x3 - m * m * (x1 + x3) + a - 2 * m * k;
    assert(g3 - g1 == d13 * (x3 - x1));
    // d13 - d1 == (x3 - x2) * e3
    assert(x1 * x3 + x3 * x3 - x1 * x2 - x2 * x2 == (x3 - x2) * (x1 + x2 + x3)) by (nonlinear_arith);
    assert(m * m * (x1 + x3) - m * m * (x1 + x2) == (x3 - x2) * (m * m)) by (nonlinear_arith);
    assert(d13 - d1 == (x3 - x2) * e3) by (nonlinear_arith)
        requires
            d13 == x1 * x1 + x1 * x3 + x3 * x3 - m * m * (x1 + x3) + a - 2 * m * k,
            d1 == x1 * x1 + x1 * x2 + x2 * x2 - m * m * (x1 + x2) + a - 2 * m * k,
            e3 == x1 + x2 + x3 - m * m,
            x1 * x3 + x3 * x3 - x1 * x2 - x2 * x2 == (x3 - x2) * (x1 + x2 + x3),
            m * m * (x1 + x3) - m * m * (x1 + x2) == (x3 - x2) * (m * m),
    ;
    assert(d13 * (x3 - x1) == (x3 - x1) * d1 + ((x3 - x1) * (x3 - x2)) * e3) by (nonlinear_arith)
        requires
            d13 - d1 == (x3 - x2) * e3,
    ;
}

/// The tangent slope `m` at a point with `2*y != 0 (mod p)` meets
/// `m * 2*y == 3*x^2 + a (mod p)`.
proof fn lemma_tangent_slope(c: EllipticCurve, x: int, y: int)
    requires
        c.wf(),
        inverts_nonzero(c),
        (2 * y) % c.modulus() != 0,
    ensures
        (c.slope(x, y, x, y) * (2 * y) - (3 * x * x + c.coef_a())) % c.modulus() == 0,
{
    let p = c.modulus();
    let t = 3 * x * x + c.coef_a();
    let inv = c.inverse_of(2 * y);
    assert(((2 * y) * inv) % p == 1);
    lemma_mul_mod_noop_left(t * inv, 2 * y, p);
    assert(t * inv * (2 * y) == t * ((2 * y) * inv)) by (nonlinear_arith);
    lemma_mul_mod_noop_right(t, (2 * y) * inv, p);
    lemma_difference_of_congruent(c.slope(x, y, x, y) * (2 * y), t, p);
}

/// Facts about the line `y = m*x + k` through two valid points that are not
/// each other's negation (the tangent when they coincide): the second point
/// lies on it modulo `p`, and the cubic `f(x) - (m*x + k)^2`, where `f` is the
/// right side of the curve equation, has `x1` as a root and the divided
/// difference `d1` between the two points equal to zero modulo `p`.
proof fn lemma_line(c: EllipticCurve, x1: int, y1: int, x2: int, y2: int)
    requires
        c.wf(),
        is_prime(c.modulus()),
        c.in_field(PointModel::Affine(x1 as nat, y1 as nat)),
        c.in_field(PointModel::Affine(x2 as nat, y2 as nat)),
        c.on_curve(PointModel::Affine(x1 as nat, y1 as nat)),
        c.on_curve(PointModel::Affine(x2 as nat, y2 as nat)),
        x1 >= 0,
        y1 >= 0,
        x2 >= 0,
        y2 >= 0,
        !(x1 == x2 && (y1 + y2) % c.modulus() == 0),
    ensures
        ({
            let (p, a, b) = (c.modulus(), c.coef_a(), c.coef_b());
            let m = c.slope(x1, y1, x2, y2);
            let k = y1 - m * x1;
            &&& (y2 - (m * x2 + k)) % p == 0
            &&& (x1 * x1 * x1 + a * x1 + b - (m * x1 + k) * (m * x1 + k)) % p == 0
            &&& (x1 * x1 + x1 * x2 + x2 * x2 - m * m * (x1 + x2) + a - 2 * m * k) % p == 0
            &&& (x1 == x2 ==> y1 == y2)
        }),
{
    let (p, a, b) = (c.modulus(), c.coef_a(), c.coef_b());
    lemma_inverse_exact(c);
    let m = c.slope(x1, y1, x2, y2);
    let k = y1 - m * x1;
    let f1 = x1 * x1 * x1 + a * x1 + b;
    let f2 = x2 * x2 * x2 + a * x2 + b;
    lemma_difference_of_congruent(y1 * y1, f1, p);
    lemma_difference_of_congruent(y2 * y2, f2, p);
    lemma_small_mod(0, p as nat);
    let g1 = f1 - (m * x1 + k) * (m * x1 + k);
    assert(g1 == (-1) * (y1 * y1 - f1) + 0 * (y1 * y1 - f1)) by (nonlinear_arith)
        requires
            g1 == f1 - (m * x1 + k) * (m * x1 + k),
            k == y1 - m * x1,
    ;
    lemma_combination(p, y1 * y1 - f1, y1 * y1 - f1, -1, 0);
    let d1 = x1 * x1 + x1 * x2 + x2 * x2 - m * m * (x1 + x2) + a - 2 * m * k;
    if x1 == x2 {
        if y1 != y2 {
            lemma_same_x(c, x1 as nat, y1 as nat, y2 as nat);
        }
        assert(y2 - (m * x2 + k) == 0);
        lemma_tangent_slope(c, x1, y1);
        let td = m * (2 * y1) - (3 * x1 * x1 + a);
        assert(d1 == (-1) * td + 0 * td) by (nonlinear_arith)
            requires
                d1 == x1 * x1 + x1 * x2 + x2 * x2 - m * m * (x1 + x2) + a - 2 * m * k,
                td == m * (2 * y1) - (3 * x1 * x1 + a),
                x1 == x2,
                k == y1 - m * x1,
        ;
        lemma_combination(p, td, td, -1, 0);
    } else {
        lemma_chord_slope(c, x1, y1, x2, y2);
        let cd = m * (x2 - x1) - (y2 - y1);
        lemma_difference_of_congruent(m * (x2 - x1), y2 - y1, p);
        assert(y2 - (m * x2 + k) == (-1) * cd + 0 * cd) by (nonlinear_arith)
            requires
                cd == m * (x2 - x1) - (y2 - y1),
                k == y1 - m * x1,
        ;
        lemma_combination(p, cd, cd, -1, 0);
        let on_line = y2 - (m * x2 + k);
        let g2 = f2 - (m * x2 + k) * (m * x2 + k);
        assert(g2 == (-1) * (y2 * y2 - f2) + (y2 + m * x2 + k) * on_line) by (nonlinear_arith)
            requires
                g2 == f2 - (m * x2 + k) * (m * x2 + k),
                on_line == y2 - (m * x2 + k),
        ;
        lemma_combination(p, y2 * y2 - f2, on_line, -1, y2 + m * x2 + k);
        lemma_divided_difference(x1, x2, m, k, a, b);
        assert(d1 * (x2 - x1) == 1 * g2 + (-1) * g1);
        lemma_combination(p, g2, g1, 1, -1);
        lemma_distinct_residues(x2, x1, p);
        lemma_cancel(p, d1, x2 - x1);
    }
}

/// The sum of two valid points is valid, when `p` is prime.
pub proof fn lemma_closed(c: EllipticCurve, pt1: PointModel, pt2: PointModel)
    requires
        c.wf(),
        is_prime(c.modulus()),
        c.in_field(pt1),
        c.in_field(pt2),
        c.on_curve(pt1),
        c.on_curve(pt2),
    ensures
        c.on_curve(c.sum_of(pt1, pt2)),
        c.in_field(c.sum_of(pt1, pt2)),
{
    if let (PointModel::Affine(x1, y1), PointModel::Affine(x2, y2)) = (pt1, pt2) {
        let (p, a, b) = (c.modulus(), c.coef_a(), c.coef_b());
        let (x1, y1, x2, y2) = (x1 as int, y1 as int, x2 as int, y2 as int);
        if !(x1 == x2 && (y1 + y2) % p == 0) {
            lemma_line(c, x1, y1, x2, y2);
            let m = c.slope(x1, y1, x2, y2);
            let k = y1 - m * x1;
            let x3 = (m * m - x1 - x2) % p;
            let w = m * (x1 - x3) - y1;
            let y3 = w % p;
            lemma_mod_bound(m * m - x1 - x2, p);
            lemma_mod_bound(w, p);
            let g1 = x1 * x1 * x1 + a * x1 + b - (m * x1 + k) * (m * x1 + k);
            let d1 = x1 * x1 + x1 * x2 + x2 * x2 - m * m * (x1 + x2) + a - 2 * m * k;
            let e3 = x1 + x2 + x3 - m * m;
            lemma_remainder_congruent(m * m - x1 - x2, p);
            assert(e3 == x3 - (m * m - x1 - x2));
            let f3 = x3 * x3 * x3 + a * x3 + b;
            let g3 = f3 - (m * x3 + k) * (m * x3 + k);
            lemma_newton_form(x1, x2, x3, m, k, a, b);
            lemma_combination(p, g1, d1, 1, x3 - x1);
            lemma_combination(p, 1 * g1 + (x3 - x1) * d1, e3, 1, (x3 - x1) * (x3 - x2));
            assert(g3 % p == 0);
            lemma_remainder_congruent(w, p);
            assert(y3 * y3 - f3 == (y3 + w) * (y3 - w) + (-1) * g3) by (nonlinear_arith)
                requires
                    w == m * (x1 - x3) - y1,
                    k == y1 - m * x1,
                    g3 == f3 - (m * x3 + k) * (m * x3 + k),
            ;
            lemma_combination(p, y3 - w, g3, y3 + w, -1);
            lemma_congruent(y3 * y3, f3, p);
        }
    }
}

/// The curve has no singular point: `4*a^3 + 27*b^2` is not a multiple of `p`.
pub open spec fn is_nonsingular(c: EllipticCurve) -> bool {
    (4 * c.coef_a() * c.coef_a() * c.coef_a() + 27 * c.coef_b() * c.coef_b()) % c.modulus() != 0
}

/// With `a == u - 3*t`, `b == v + 2*s` and `s^2 == t^3`, the discriminant
/// `4*a^3 + 27*b^2` is a combination of `u` and `v`.
proof fn lemma_discriminant_split(a: int, b: int, u: int, v: int, t: int, s: int)
    requires
        a == u - 3 * t,
        b == v + 2 * s,
        s * s == t * t * t,
    ensures
        4 * a * a * a + 27 * b * b == (4 * u * u - 36 * u * t + 108 * t * t) * u + (27 * v + 108 * s) * v,
{
    assert(a * a * a == u * u * u - 9 * u * u * t + 27 * u * t * t - 27 * t * t * t) by (nonlinear_arith)
        requires
            a == u - 3 * t,
    ;
    assert(b * b == v * v + 4 * v * s + 4 * s * s) by (nonlinear_arith)
        requires
            b == v + 2 * s,
    ;
    assert((4 * u * u - 36 * u * t + 108 * t * t) * u == 4 * u * u * u - 36 * u * u * t + 108 * u * t * t)
        by (nonlinear_arith);
    assert((27 * v + 108 * s) * v == 27 * v * v + 108 * v * s) by (nonlinear_arith);
    assert(4 * a * a * a == 4 * (a * a * a) && 27 * b * b == 27 * (b * b)) by (nonlinear_arith);
    assert(4 * u * u * u == 4 * (u * u * u) && 27 * v * v == 27 * (v * v)) by (nonlinear_arith);
    assert(36 * u * u * t == 36 * (u * u * t) && 108 * u * t * t == 108 * (u * t * t)) by (nonlinear_arith);
    assert(4 * (s * s) == 4 * (t * t * t));
    assert(4 * s * s == 4 * (s * s) && 108 * v * s == 108 * (v * s)) by (nonlinear_arith);
    assert(108 * t * t * t == 108 * (t * t * t)) by (nonlinear_arith);
    assert(4 * v * s == 4 * (v * s)) by (nonlinear_arith);
    assert(9 * u * u * t == 9 * (u * u * t) && 27 * u * t * t == 27 * (u * t * t) && 27 * t * t * t == 27 * (t * t * t))
        by (nonlinear_arith);
}

/// `d1 - d2 == (x1 - x2) * (x1 + 2*x2 - m^2)`, where `d1` is the divided
/// difference of the line cubic between `x1` and `x2` and `d2` its derivative at `x2`.
proof fn lemma_tangent_difference(x1: int, x2: int, m: int, k: int, a: int)
    ensures
        (x1 * x1 + x1 * x2 + x2 * x2 - m * m * (x1 + x2) + a - 2 * m * k) - (3 * x2 * x2 + a - 2 * m * (m
            * x2 + k)) == (x1 - x2) * (x1 + x2 + x2 - m * m),
{
    let mm = m * m;
    assert(2 * m * (m * x2 + k) == 2 * mm * x2 + 2 * m * k) by (nonlinear_arith)
        requires
            mm == m * m,
    ;
    assert(mm * (x1 + x2) == mm * x1 + mm * x2) by (nonlinear_arith);
    assert((x1 - x2) * (x1 + x2 + x2 - mm) == x1 * x1 + x1 * x2 - 2 * (x2 * x2) - mm * x1 + mm * x2)
        by (nonlinear_arith);
    assert(3 * x2 * x2 == 3 * (x2 * x2) && 2 * mm * x2 == 2 * (mm * x2)) by (nonlinear_arith);
}

/// Subtracting a valid point from the sum of two valid points gives the
/// first back, when `p` is prime and the curve is nonsingular.
pub proof fn lemma_round_trip(c: EllipticCurve, pt1: PointModel, pt2: PointModel)
    requires
        c.wf(),
        is_prime(c.modulus()),
        is_nonsingular(c),
        c.in_field(pt1),
        c.in_field(pt2),
        c.on_curve(pt1),
        c.on_curve(pt2),
    ensures
        c.added(pt1, pt2) == Ok::<PointModel, CurveError>(c.sum_of(pt1, pt2)),
        c.subtracted(c.sum_of(pt1, pt2), pt2) == Ok::<PointModel, CurveError>(pt1),
{
    lemma_closed(c, pt1, pt2);
    c.lemma_neg_on_curve(pt2);
    lemma_inverse_exact(c);
    let p = c.modulus();
    lemma_small_mod(0, p as nat);
    lemma_mod_self_0(p);
    match (pt1, pt2) {
        (PointModel::Infinity, _) => {
            lemma_inverse(c, pt2);
        },
        (_, PointModel::Infinity) => {},
        (PointModel::Affine(nx1, ny1), PointModel::Affine(nx2, ny2)) => {
            let (a, b) = (c.coef_a(), c.coef_b());
            let (x1, y1, x2, y2) = (nx1 as int, ny1 as int, nx2 as int, ny2 as int);
            let y2n = (p - y2) % p;
            lemma_mod_bound(p - y2, p);
            // y2n + y2 == 0 (mod p)
            lemma_remainder_congruent(p - y2, p);
            assert(y2n + y2 == 1 * (y2n - (p - y2)) + 1 * p);
            lemma_combination(p, y2n - (p - y2), p, 1, 1);
            if x1 == x2 && (y1 + y2) % p == 0 {
                // the points are each other's negation: their sum is infinity
                assert((y1 - y2n) % p == 0) by {
                    assert(y1 - y2n == 1 * (y1 + y2) + (-1) * (y2n + y2));
                    lemma_combination(p, y1 + y2, y2n + y2, 1, -1);
                }
                lemma_congruent(y1, y2n, p);
                lemma_small_mod(y1 as nat, p as nat);
                lemma_small_mod(y2n as nat, p as nat);
            } else {
                lemma_round_trip_affine(c, x1, y1, x2, y2);
            }
        },
    }
}

/// Adding `(x3, y3)`, the sum of `(x1, y1)` and a second point by the slope
/// `m`, to the negated second point along the slope `n == -m (mod p)` lands
/// back on `(x1, y1)`.
proof fn lemma_reflected_line(p: int, x1: int, y1: int, x2: int, x3: int, y3: int, m: int, n: int, w: int)
    requires
        p > 0,
        0 <= x1 < p,
        0 <= y1 < p,
        (n + m) % p == 0,
        (x1 + x2 + x3 - m * m) % p == 0,
        w == m * (x1 - x3) - y1,
        (y3 - w) % p == 0,
    ensures
        (n * n - x3 - x2) % p == x1,
        (n * (x3 - x1) - y3) % p == y1,
{
    let e3 = x1 + x2 + x3 - m * m;
    assert(n * n - x3 - x2 - x1 == (n - m) * (n + m) + (-1) * e3) by (nonlinear_arith)
        requires
            e3 == x1 + x2 + x3 - m * m,
    ;
    lemma_combination(p, n + m, e3, n - m, -1);
    lemma_congruent(n * n - x3 - x2, x1, p);
    lemma_small_mod(x1 as nat, p as nat);
    assert(n * (x3 - x1) - y3 - y1 == (x3 - x1) * (n + m) + (-1) * (y3 - w)) by (nonlinear_arith)
        requires
            w == m * (x1 - x3) - y1,
    ;
    lemma_combination(p, n + m, y3 - w, x3 - x1, -1);
    lemma_congruent(n * (x3 - x1) - y3, y1, p);
    lemma_small_mod(y1 as nat, p as nat);
}

/// The round trip for two affine points that are not each other's negation.
proof fn lemma_round_trip_affine(c: EllipticCurve, x1: int, y1: int, x2: int, y2: int)
    requires
        c.wf(),
        is_prime(c.modulus()),
        is_nonsingular(c),
        x1 >= 0,
        y1 >= 0,
        x2 >= 0,
        y2 >= 0,
        c.in_field(PointModel::Affine(x1 as nat, y1 as nat)),
        c.in_field(PointModel::Affine(x2 as nat, y2 as nat)),
        c.on_curve(PointModel::Affine(x1 as nat, y1 as nat)),
        c.on_curve(PointModel::Affine(x2 as nat, y2 as nat)),
        !(x1 == x2 && (y1 + y2) % c.modulus() == 0),
    ensures
        c.sum_of(
            c.sum_of(PointModel::Affine(x1 as nat, y1 as nat), PointModel::Affine(x2 as nat, y2 as nat)),
            c.neg_of(PointModel::Affine(x2 as nat, y2 as nat)),
        ) == PointModel::Affine(x1 as nat, y1 as nat),
{
    let (p, a, b) = (c.modulus(), c.coef_a(), c.coef_b());
    lemma_inverse_exact(c);
    lemma_line(c, x1, y1, x2, y2);
    lemma_small_mod(0, p as nat);
    lemma_mod_self_0(p);
    let m = c.slope(x1, y1, x2, y2);
    let k = y1 - m * x1;
    let x3 = (m * m - x1 - x2) % p;
    let w = m * (x1 - x3) - y1;
    let y3 = w % p;
    let y2n = (p - y2) % p;
    lemma_mod_bound(m * m - x1 - x2, p);
    lemma_mod_bound(w, p);
    lemma_mod_bound(p - y2, p);
    let e3 = x1 + x2 + x3 - m * m;
    lemma_remainder_congruent(m * m - x1 - x2, p);
    assert(e3 == x3 - (m * m - x1 - x2));
    lemma_remainder_congruent(w, p);
    // y2n + y2 == 0 (mod p)
    lemma_remainder_congruent(p - y2, p);
    assert(y2n + y2 == 1 * (y2n - (p - y2)) + 1 * p);
    lemma_combination(p, y2n - (p - y2), p, 1, 1);
    // y3 - y2n == m * (x2 - x3) (mod p)
    let on_line = y2 - (m * x2 + k);
    let kn = y3 - y2n - m * (x2 - x3);
    assert(kn == 1 * ((y3 - w) + on_line) + (-1) * (y2n + y2)) by (nonlinear_arith)
        requires
            kn == y3 - y2n - m * (x2 - x3),
            on_line == y2 - (m * x2 + k),
            w == m * (x1 - x3) - y1,
            k == y1 - m * x1,
    ;
    lemma_combination(p, y3 - w, on_line, 1, 1);
    lemma_combination(p, (y3 - w) + on_line, y2n + y2, 1, -1);
    if x3 == x2 {
        assert(m * (x2 - x3) == 0) by (nonlinear_arith)
            requires
                x3 == x2,
        ;
        lemma_congruent(y3, y2n, p);
        lemma_small_mod(y3 as nat, p as nat);
        lemma_small_mod(y2n as nat, p as nat);
        assert(m * (x2 - x3) == 0) by (nonlinear_arith)
            requires
                x3 == x2,
        ;
        assert(y3 == y2n);
        let d1 = x1 * x1 + x1 * x2 + x2 * x2 - m * m * (x1 + x2) + a - 2 * m * k;
        let d2 = 3 * x2 * x2 + a - 2 * m * (m * x2 + k);
        lemma_tangent_difference(x1, x2, m, k, a);
        assert(e3 == x1 + x2 + x2 - m * m);
        assert(d2 == 1 * d1 + (-(x1 - x2)) * e3) by (nonlinear_arith)
            requires
                d1 - d2 == (x1 - x2) * e3,
        ;
        lemma_combination(p, d1, e3, 1, -(x1 - x2));
        if (y3 + y2n) % p == 0 {
            // the sum would equal the second point: only a singular curve allows it
            lemma_prime_divides_factor(p, 2, y2n);
            lemma_congruent(y2n + y2, 0, p);
            lemma_small_mod(y2 as nat, p as nat);
            assert(y2 == 0);
            let l2 = m * x2 + k;
            assert(l2 == (-1) * on_line + 0 * on_line);
            lemma_combination(p, on_line, on_line, -1, 0);
            let u = a + 3 * x2 * x2;
            assert(u == 1 * d2 + (2 * m) * l2) by (nonlinear_arith)
                requires
                    d2 == 3 * x2 * x2 + a - 2 * m * (m * x2 + k),
                    l2 == m * x2 + k,
                    u == a + 3 * x2 * x2,
            ;
            lemma_combination(p, d2, l2, 1, 2 * m);
            let f2 = x2 * x2 * x2 + a * x2 + b;
            lemma_difference_of_congruent(y2 * y2, f2, p);
            assert(y2 * y2 == 0) by (nonlinear_arith)
                requires
                    y2 == 0,
            ;
            assert(f2 == (-1) * (y2 * y2 - f2) + 0 * (y2 * y2 - f2));
            lemma_combination(p, y2 * y2 - f2, y2 * y2 - f2, -1, 0);
            let v = b - 2 * (x2 * x2 * x2);
            assert(v == 1 * f2 + (-x2) * u) by (nonlinear_arith)
                requires
                    f2 == x2 * x2 * x2 + a * x2 + b,
                    u == a + 3 * x2 * x2,
                    v == b - 2 * (x2 * x2 * x2),
            ;
            lemma_combination(p, f2, u, 1, -x2);
            let t = x2 * x2;
            let s = x2 * x2 * x2;
            assert(s * s == t * t * t) by (nonlinear_arith)
                requires
                    t == x2 * x2,
                    s == x2 * x2 * x2,
            ;
            assert(3 * x2 * x2 == 3 * t) by (nonlinear_arith)
                requires
                    t == x2 * x2,
            ;
            assert(a == u - 3 * t);
            lemma_discriminant_split(a, b, u, v, t, s);
            lemma_combination(p, u, v, 4 * u * u - 36 * u * t + 108 * t * t, 27 * v + 108 * s);
            assert(false);
        } else {
            // the sum is the negation of the second point: double it along the tangent
            let n = c.slope(x2, y3, x2, y3);
            assert((2 * y3) % p != 0) by {
                assert(2 * y3 == y3 + y2n);
            }
            lemma_tangent_slope(c, x2, y3);
            let tt = n * (2 * y3) - (3 * x2 * x2 + a);
            assert((n + m) * (2 * y3) == 1 * (tt + d2) + (2 * m) * (y3 - w)) by (nonlinear_arith)
                requires
                    tt == n * (2 * y3) - (3 * x2 * x2 + a),
                    d2 == 3 * x2 * x2 + a - 2 * m * (m * x2 + k),
                    w == m * (x1 - x3) - y1,
                    k == y1 - m * x1,
                    x3 == x2,
            ;
            lemma_combination(p, tt, d2, 1, 1);
            lemma_combination(p, tt + d2, y3 - w, 1, 2 * m);
            lemma_cancel(p, n + m, 2 * y3);
            lemma_reflected_line(p, x1, y1, x2, x3, y3, m, n, w);
        }
    } else {
        // a chord through the sum and the negated second point
        let n = c.slope(x3, y3, x2, y2n);
        lemma_chord_slope(c, x3, y3, x2, y2n);
        let cd = n * (x2 - x3) - (y2n - y3);
        lemma_difference_of_congruent(n * (x2 - x3), y2n - y3, p);
        assert((n + m) * (x2 - x3) == 1 * cd + (-1) * kn) by (nonlinear_arith)
            requires
                cd == n * (x2 - x3) - (y2n - y3),
                kn == y3 - y2n - m * (x2 - x3),
        ;
        lemma_combination(p, cd, kn, 1, -1);
        lemma_distinct_residues(x2, x3, p);
        lemma_cancel(p, n + m, x2 - x3);
        lemma_reflected_line(p, x1, y1, x2, x3, y3, m, n, w);
    }
}

} // verus!
