//! Points of a curve: an affine coordinate pair or the point at infinity.

use crate::bigint::value_of;
use num_bigint::BigUint;
use vstd::prelude::*;

verus! {

/// The mathematical content of a [`Point`]: its coordinates as natural
/// numbers, or the group identity.
pub ghost enum PointModel {
    Affine(nat, nat),
    Infinity,
}

/// A point given by both of its coordinates, or the point at infinity.
/// A point with only one coordinate cannot be written down.
#[derive(Clone, Debug, PartialEq, Eq)]
pub enum Point {
    Affine { x: BigUint, y: BigUint },
    Infinity,
}

impl Point {
    pub open spec fn view(&self) -> PointModel {
        match self {
            Point::Affine { x, y } => PointModel::Affine(value_of(*x), value_of(*y)),
            Point::Infinity => PointModel::Infinity,
        }
    }

    /// The affine point `(x, y)`.
    pub fn new(x: BigUint, y: BigUint) -> (r: Point)
        ensures
            r@ == PointModel::Affine(value_of(x), value_of(y)),
    {
        Point::Affine { x, y }
    }

    /// Whether this is the point at infinity.
    pub fn is_infinity(&self) -> (r: bool)
        ensures
            r == (self@ is Infinity),
    {
        match self {
            Point::Affine { .. } => false,
            Point::Infinity => true,
        }
    }

    /// A second point with the same coordinates.
    pub fn duplicate(&self) -> (r: Point)
        ensures
            r@ == self@,
    {
        match self {
            Point::Affine { x, y } => Point::Affine { x: x.clone(), y: y.clone() },
            Point::Infinity => Point::Infinity,
        }
    }
}

} // verus!
