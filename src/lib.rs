//! Group law of a short Weierstrass curve `y^2 = x^3 + a*x + b (mod p)`
//! over a prime field, with arbitrary-precision coordinates.

pub mod bigint;
pub mod point;
pub mod elliptic_curve;
pub mod modular;
pub mod laws;
