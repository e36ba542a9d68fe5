//! Arithmetic primitives for elliptic-curve cryptography over a prime field:
//! modular field operations, and the short-Weierstrass group law built on them.

pub mod elliptic_curve;
pub mod finite_fields;
pub mod laws;
pub mod point;
