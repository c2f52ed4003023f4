//! The group law of the curve `y^2 = x^3 + a*x + b (mod p)`.

use crate::bigint::{difference, from_u32, half, mod_pow, product, remainder, sum, value_of};
use crate::point::{Point, PointModel};
use num_bigint::BigUint;
use vstd::arithmetic::div_mod::*;
use vstd::arithmetic::power::*;
use vstd::prelude::*;

verus! {

/// Why an operation of the curve refused its arguments.
#[derive(Debug, PartialEq, Eq, Clone, Copy)]
pub enum CurveError {
    /// A point argument does not satisfy the curve equation.
    InvalidPoint,
    /// Division by a zero scalar, which has no inverse.
    ScalarIsZero,
}

/// The curve `y^2 = x^3 + a*x + b` over the integers modulo `p`, where `p` is
/// taken to be an odd prime (it is not checked; the modular inverse below is
/// only an inverse when `p` is prime).
pub struct EllipticCurve {
    a: BigUint,
    b: BigUint,
    p: BigUint,
}

/// The mathematical content of a point result.
pub open spec fn result_model(r: Result<Point, CurveError>) -> Result<PointModel, CurveError> {
    match r {
        Ok(q) => Ok(q@),
        Err(e) => Err(e),
    }
}

impl EllipticCurve {
    pub closed spec fn coef_a(&self) -> int {
        value_of(self.a) as int
    }

    pub closed spec fn coef_b(&self) -> int {
        value_of(self.b) as int
    }

    pub closed spec fn modulus(&self) -> int {
        value_of(self.p) as int
    }

    /// The modulus is an odd number of at least three.
    pub open spec fn wf(&self) -> bool {
        self.modulus() >= 3 && self.modulus() % 2 == 1
    }

    /// Both coordinates of an affine point are reduced modulo `p`.
    pub open spec fn in_field(&self, pt: PointModel) -> bool {
        match pt {
            PointModel::Affine(x, y) => x < self.modulus() && y < self.modulus(),
            PointModel::Infinity => true,
        }
    }

    /// The point satisfies the curve equation; the point at infinity always does.
    pub open spec fn on_curve(&self, pt: PointModel) -> bool {
        match pt {
            PointModel::Affine(x, y) => {
                let (x, y, p) = (x as int, y as int, self.modulus());
                (y * y) % p == (x * x * x + self.coef_a() * x + self.coef_b()) % p
            },
            PointModel::Infinity => true,
        }
    }

    /// `n^(p-2) mod p`, which by Fermat's little theorem is the inverse of `n`
    /// modulo a prime `p` when `n` is not a multiple of it.
    pub open spec fn inverse_of(&self, n: int) -> int {
        pow(n % self.modulus(), (self.modulus() - 2) as nat) % self.modulus()
    }

    /// The slope of the tangent at `(x1, y1)` when the two points coincide,
    /// else of the chord through them.
    pub open spec fn slope(&self, x1: int, y1: int, x2: int, y2: int) -> int {
        let p = self.modulus();
        if x1 == x2 && y1 == y2 {
            ((3 * x1 * x1 + self.coef_a()) * self.inverse_of(2 * y1)) % p
        } else {
            ((y2 - y1) * self.inverse_of(x2 - x1)) % p
        }
    }

    /// The group law on two points, without regard to whether they lie on the curve.
    pub open spec fn sum_of(&self, pt1: PointModel, pt2: PointModel) -> PointModel {
        match (pt1, pt2) {
            (PointModel::Infinity, _) => pt2,
            (_, PointModel::Infinity) => pt1,
            (PointModel::Affine(x1, y1), PointModel::Affine(x2, y2)) => {
                let (x1, y1, x2, y2, p) = (x1 as int, y1 as int, x2 as int, y2 as int, self.modulus());
                if x1 == x2 && (y1 + y2) % p == 0 {
                    PointModel::Infinity
                } else {
                    let m = self.slope(x1, y1, x2, y2);
                    let x3 = (m * m - x1 - x2) % p;
                    let y3 = (m * (x1 - x3) - y1) % p;
                    PointModel::Affine(x3 as nat, y3 as nat)
                }
            },
        }
    }

    /// The mirror image of a point in the x axis.
    pub open spec fn neg_of(&self, pt: PointModel) -> PointModel {
        match pt {
            PointModel::Affine(x, y) => PointModel::Affine(x, ((self.modulus() - y) % self.modulus()) as nat),
            PointModel::Infinity => PointModel::Infinity,
        }
    }

    /// What adding two points yields: the group law when both lie on the curve.
    pub open spec fn added(&self, pt1: PointModel, pt2: PointModel) -> Result<PointModel, CurveError> {
        if self.on_curve(pt1) && self.on_curve(pt2) {
            Ok(self.sum_of(pt1, pt2))
        } else {
            Err(CurveError::InvalidPoint)
        }
    }

    /// What negating a point yields.
    pub open spec fn negated(&self, pt: PointModel) -> Result<PointModel, CurveError> {
        if self.on_curve(pt) {
            Ok(self.neg_of(pt))
        } else {
            Err(CurveError::InvalidPoint)
        }
    }

    /// What subtracting the second point from the first yields.
    pub open spec fn subtracted(&self, pt1: PointModel, pt2: PointModel) -> Result<PointModel, CurveError> {
        if self.on_curve(pt1) && self.on_curve(pt2) {
            Ok(self.sum_of(pt1, self.neg_of(pt2)))
        } else {
            Err(CurveError::InvalidPoint)
        }
    }

    /// Double-and-add over the bits of `k`, least significant first: `acc`
    /// gathers the doublings of `cur` that the one bits select. Where the
    /// addition is associative, `ladder(k, Infinity, pt)` is `multiple(k, pt)`.
    pub open spec fn ladder(&self, k: nat, acc: PointModel, cur: PointModel) -> PointModel
        decreases k,
    {
        if k == 0 {
            acc
        } else {
            let next = if k % 2 == 1 {
                self.sum_of(acc, cur)
            } else {
                acc
            };
            self.ladder(k / 2, next, self.sum_of(cur, cur))
        }
    }

    /// What multiplying a point by the scalar `k` yields.
    pub open spec fn scaled(&self, k: nat, pt: PointModel) -> Result<PointModel, CurveError> {
        if self.on_curve(pt) {
            Ok(self.ladder(k, PointModel::Infinity, pt))
        } else {
            Err(CurveError::InvalidPoint)
        }
    }

    /// What dividing a point by the scalar `k` yields: multiplication by the
    /// inverse of `k` modulo `p`.
    pub open spec fn divided(&self, k: nat, pt: PointModel) -> Result<PointModel, CurveError> {
        if k == 0 {
            Err(CurveError::ScalarIsZero)
        } else {
            self.scaled(self.inverse_of(k as int) as nat, pt)
        }
    }

    /// `pt` added to the point at infinity `k` times, one at a time.
    pub open spec fn multiple(&self, k: nat, pt: PointModel) -> PointModel
        decreases k,
    {
        if k == 0 {
            PointModel::Infinity
        } else {
            self.sum_of(self.multiple((k - 1) as nat, pt), pt)
        }
    }

    /// Some number of additions of `pt` reaches the point at infinity.
    pub open spec fn has_finite_order(&self, pt: PointModel) -> bool {
        exists|k: nat| k >= 1 && #[trigger] self.multiple(k, pt) == PointModel::Infinity
    }

    /// `k` is the least positive number of additions of `pt` that reaches the
    /// point at infinity.
    pub open spec fn is_order(&self, k: nat, pt: PointModel) -> bool {
        &&& k >= 1
        &&& self.multiple(k, pt) == PointModel::Infinity
        &&& forall|j: nat| 1 <= j < k ==> #[trigger] self.multiple(j, pt) != PointModel::Infinity
    }

    /// Creates the curve `y^2 = x^3 + a*x + b (mod p)`.
    pub fn new(a: BigUint, b: BigUint, p: BigUint) -> (r: Self)
        requires
            value_of(p) >= 3,
            value_of(p) % 2 == 1,
        ensures
            r.wf(),
            r.coef_a() == value_of(a),
            r.coef_b() == value_of(b),
            r.modulus() == value_of(p),
    {
        EllipticCurve { a, b, p }
    }

    /// Whether the point satisfies the curve equation.
    pub fn is_valid_point(&self, point: &Point) -> (r: bool)
        requires
            self.wf(),
        ensures
            r == self.on_curve(point@),
    {
        match point {
            Point::Infinity => true,
            Point::Affine { x, y } => {
                let left_side = remainder(&product(y, y), &self.p);
                let cube = product(&product(x, x), x);
                let linear = product(&self.a, x);
                let right_side = remainder(&sum(&sum(&cube, &linear), &self.b), &self.p);
                left_side == right_side
            },
        }
    }

    /// `n^(p-2) mod p`: the inverse of `n` modulo `p` when `p` is prime and
    /// does not divide `n`.
    pub fn calculate_inverse(&self, number_to_invert: &BigUint) -> (r: BigUint)
        requires
            self.wf(),
        ensures
            value_of(r) == self.inverse_of(value_of(*number_to_invert) as int),
            value_of(r) < self.modulus(),
    {
        let exponent = difference(&self.p, &from_u32(2));
        let r = mod_pow(number_to_invert, &exponent, &self.p);
        proof {
            let n = value_of(*number_to_invert) as int;
            let e = (self.modulus() - 2) as nat;
            lemma_pow_mod_noop(n, e, self.modulus());
            lemma_mod_bound(pow(n, e), self.modulus());
        }
        r
    }

    /// The slope of the line through two affine points (the tangent when
    /// they coincide), reduced modulo `p`.
    fn calculate_slope(&self, x1: &BigUint, y1: &BigUint, x2: &BigUint, y2: &BigUint) -> (r: BigUint)
        requires
            self.wf(),
            value_of(*x1) < self.modulus(),
            value_of(*y1) < self.modulus(),
            value_of(*x2) < self.modulus(),
            value_of(*y2) < self.modulus(),
        ensures
            value_of(r) == self.slope(
                value_of(*x1) as int,
                value_of(*y1) as int,
                value_of(*x2) as int,
                value_of(*y2) as int,
            ),
            value_of(r) < self.modulus(),
    {
        let ghost p = self.modulus();
        let numerator;
        let denominator;
        if *x1 == *x2 && *y1 == *y2 {
            let tangent = sum(&product(&product(&from_u32(3), x1), x1), &self.a);
            numerator = remainder(&tangent, &self.p);
            denominator = self.calculate_inverse(&product(&from_u32(2), y1));
            proof {
                lemma_mul_mod_noop_left(value_of(tangent) as int, value_of(denominator) as int, p);
            }
        } else {
            let rise = difference(&sum(y2, &self.p), y1);
            let run = difference(&sum(x2, &self.p), x1);
            numerator = remainder(&rise, &self.p);
            denominator = self.calculate_inverse(&run);
            proof {
                let (vx1, vy1, vx2, vy2) = (
                    value_of(*x1) as int,
                    value_of(*y1) as int,
                    value_of(*x2) as int,
                    value_of(*y2) as int,
                );
                lemma_mod_add_multiples_vanish(vy2 - vy1, p);
                lemma_mod_add_multiples_vanish(vx2 - vx1, p);
                assert(self.inverse_of(value_of(run) as int) == self.inverse_of(vx2 - vx1));
                lemma_mul_mod_noop_left(vy2 - vy1, value_of(denominator) as int, p);
            }
        }
        let r = remainder(&product(&numerator, &denominator), &self.p);
        proof {
            lemma_mod_bound((value_of(numerator) * value_of(denominator)) as int, p);
        }
        r
    }

    /// The group law on two points with reduced coordinates, whether or not
    /// they lie on the curve.
    fn add_unchecked(&self, point1: &Point, point2: &Point) -> (r: Point)
        requires
            self.wf(),
            self.in_field(point1@),
            self.in_field(point2@),
        ensures
            r@ == self.sum_of(point1@, point2@),
            self.in_field(r@),
    {
        match point1 {
            Point::Infinity => point2.duplicate(),
            Point::Affine { x: x1, y: y1 } => match point2 {
                Point::Infinity => point1.duplicate(),
                Point::Affine { x: x2, y: y2 } => {
                    let ghost p = self.modulus();
                    if *x1 == *x2 && remainder(&sum(y1, y2), &self.p) == from_u32(0) {
                        return Point::Infinity;
                    }
                    let slope = self.calculate_slope(x1, y1, x2, y2);
                    let square = product(&slope, &slope);
                    let x3 = remainder(
                        &difference(&sum(&difference(&sum(&square, &self.p), x1), &self.p), x2),
                        &self.p,
                    );
                    let rise = product(&slope, &difference(&sum(x1, &self.p), &x3));
                    let y3 = remainder(&difference(&sum(&rise, &self.p), y1), &self.p);
                    proof {
                        let (vx1, vy1, vx2, m, vx3) = (
                            value_of(*x1) as int,
                            value_of(*y1) as int,
                            value_of(*x2) as int,
                            value_of(slope) as int,
                            value_of(x3) as int,
                        );
                        lemma_mod_multiples_vanish(2, m * m - vx1 - vx2, p);
                        lemma_mod_bound(m * m - vx1 - vx2, p);
                        assert(m * (vx1 + p - vx3) + p - vy1 == p * (m + 1) + (m * (vx1 - vx3) - vy1))
                            by (nonlinear_arith);
                        lemma_mod_multiples_vanish(m + 1, m * (vx1 - vx3) - vy1, p);
                        lemma_mod_bound(m * (vx1 - vx3) - vy1, p);
                    }
                    Point::Affine { x: x3, y: y3 }
                },
            },
        }
    }

    /// The mirror image of a valid point; an invalid point is refused.
    pub fn negate_point(&self, point: &Point) -> (r: Result<Point, CurveError>)
        requires
            self.wf(),
            self.in_field(point@),
        ensures
            result_model(r) == self.negated(point@),
            r matches Ok(q) ==> self.in_field(q@),
    {
        if !self.is_valid_point(point) {
            return Err(CurveError::InvalidPoint);
        }
        match point {
            Point::Infinity => Ok(Point::Infinity),
            Point::Affine { x, y } => {
                let y_neg = remainder(&difference(&self.p, y), &self.p);
                proof {
                    lemma_mod_bound(self.modulus() - value_of(*y), self.modulus());
                }
                Ok(Point::new(x.clone(), y_neg))
            },
        }
    }

    /// The sum of two valid points under the group law; an invalid point is refused.
    pub fn add_points(&self, point1: &Point, point2: &Point) -> (r: Result<Point, CurveError>)
        requires
            self.wf(),
            self.in_field(point1@),
            self.in_field(point2@),
        ensures
            result_model(r) == self.added(point1@, point2@),
            r matches Ok(q) ==> self.in_field(q@),
    {
        if !self.is_valid_point(point1) || !self.is_valid_point(point2) {
            return Err(CurveError::InvalidPoint);
        }
        Ok(self.add_unchecked(point1, point2))
    }

    /// The first point plus the mirror image of the second; an invalid point
    /// is refused.
    pub fn subtract_points(&self, point1: &Point, point2: &Point) -> (r: Result<Point, CurveError>)
        requires
            self.wf(),
            self.in_field(point1@),
            self.in_field(point2@),
        ensures
            result_model(r) == self.subtracted(point1@, point2@),
    {
        let negated = match self.negate_point(point2) {
            Ok(q) => q,
            Err(e) => return Err(e),
        };
        proof {
            self.lemma_neg_on_curve(point2@);
        }
        self.add_points(point1, &negated)
    }

    /// `scalar` times a valid point, by double-and-add; an invalid point is refused.
    pub fn scalar_multiplication(&self, scalar: &BigUint, point: &Point) -> (r: Result<Point, CurveError>)
        requires
            self.wf(),
            self.in_field(point@),
        ensures
            result_model(r) == self.scaled(value_of(*scalar), point@),
    {
        if !self.is_valid_point(point) {
            return Err(CurveError::InvalidPoint);
        }
        let zero = from_u32(0);
        let one = from_u32(1);
        let two = from_u32(2);
        let mut result = Point::Infinity;
        let mut current = point.duplicate();
        let mut k = scalar.clone();
        while !(k == zero)
            invariant
                self.wf(),
                value_of(zero) == 0,
                value_of(one) == 1,
                value_of(two) == 2,
                self.in_field(result@),
                self.in_field(current@),
                self.ladder(value_of(k), result@, current@) == self.ladder(
                    value_of(*scalar),
                    PointModel::Infinity,
                    point@,
                ),
            decreases value_of(k),
        {
            if remainder(&k, &two) == one {
                result = self.add_unchecked(&result, &current);
            }
            current = self.add_unchecked(&current, &current);
            k = half(&k);
        }
        Ok(result)
    }

    /// A valid point times the inverse of `scalar` modulo `p`; a zero scalar
    /// is refused first, then an invalid point.
    pub fn scalar_division(&self, scalar: BigUint, point: &Point) -> (r: Result<Point, CurveError>)
        requires
            self.wf(),
            self.in_field(point@),
        ensures
            result_model(r) == self.divided(value_of(scalar), point@),
    {
        if scalar == from_u32(0) {
            return Err(CurveError::ScalarIsZero);
        }
        let inverse = self.calculate_inverse(&scalar);
        self.scalar_multiplication(&inverse, point)
    }

    /// The order of a valid point: how many copies of it add up to the point
    /// at infinity, found by adding it once more at a time. This is a search
    /// for small curves only; it would not end on a point that no number of
    /// additions takes to infinity, so such a point is excluded.
    pub fn order_of_point(&self, point: &Point) -> (r: Result<BigUint, CurveError>)
        requires
            self.wf(),
            self.in_field(point@),
            self.on_curve(point@) ==> self.has_finite_order(point@),
        ensures
            match r {
                Ok(k) => self.on_curve(point@) && self.is_order(value_of(k), point@),
                Err(e) => !self.on_curve(point@) && e == CurveError::InvalidPoint,
            },
    {
        if !self.is_valid_point(point) {
            return Err(CurveError::InvalidPoint);
        }
        let ghost bound = choose|n: nat| n >= 1 && #[trigger] self.multiple(n, point@) == PointModel::Infinity;
        let one = from_u32(1);
        let mut k = from_u32(1);
        let mut current = point.duplicate();
        assert(self.multiple(1, point@) == point@) by {
            assert(self.multiple(0, point@) == PointModel::Infinity);
        }
        while !current.is_infinity()
            invariant
                self.wf(),
                self.in_field(point@),
                self.in_field(current@),
                value_of(one) == 1,
                1 <= value_of(k) <= bound,
                self.multiple(bound, point@) == PointModel::Infinity,
                current@ == self.multiple(value_of(k), point@),
                forall|j: nat| 1 <= j < value_of(k) ==> #[trigger] self.multiple(j, point@) != PointModel::Infinity,
            decreases bound - value_of(k),
        {
            current = self.add_unchecked(&current, point);
            k = sum(&k, &one);
        }
        Ok(k)
    }

    /// The mirror image of a reduced point on the curve is on the curve.
    pub proof fn lemma_neg_on_curve(&self, pt: PointModel)
        requires
            self.wf(),
            self.in_field(pt),
            self.on_curve(pt),
        ensures
            self.on_curve(self.neg_of(pt)),
            self.in_field(self.neg_of(pt)),
    {
        if let PointModel::Affine(x, y) = pt {
            let (p, y) = (self.modulus(), y as int);
            lemma_mod_bound(p - y, p);
            lemma_mul_mod_noop(p - y, p - y, p);
            assert((p - y) * (p - y) == p * (p - 2 * y) + y * y) by (nonlinear_arith);
            lemma_mod_multiples_vanish(p - 2 * y, y * y, p);
        }
    }
}

} // verus!
