//! Points of a short-Weierstrass curve in affine form.

use vstd::prelude::*;

verus! {

/// An elliptic-curve point: an affine coordinate pair of field elements, or
/// the group's neutral element (the point at infinity), which carries no
/// coordinates.
///
/// Equality is structural: two affine points are equal exactly when both
/// coordinates agree, `Identity` equals only `Identity`.
#[derive(Debug, Clone, Copy, PartialEq, Eq, Structural)]
pub enum Point {
    Cordinates(u64, u64),
    Identity,
}

} // verus!
