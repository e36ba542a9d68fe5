//! The short-Weierstrass group law `y^2 = x^3 + a*x + b (mod p)`: membership,
//! chord addition, tangent doubling, and double-and-add scalar multiplication,
//! built exclusively from the field operations of `finite_fields`.

use vstd::prelude::*;
use vstd::arithmetic::div_mod::{lemma_add_mod_noop, lemma_add_mod_noop_right};
use vstd::arithmetic::power::{lemma_square_is_pow2, pow};

use crate::finite_fields::{fadd, fdiv, fmul, fsub, FiniteField, FiniteFieldTrait};
use crate::point::Point;

verus! {

/// Error raised by curve operations.
///
/// `NotOnCurve(pt)` reports an input point that fails the membership
/// predicate. `SameArgs(p1, p2)` reports an addition invoked with two
/// structurally equal points, which requires the doubling formula instead;
/// the caller must dispatch to `double` explicitly.
#[derive(Debug, PartialEq, Eq, Structural)]
pub enum CurveError {
    NotOnCurve(Point),
    SameArgs(Point, Point),
}

/// The curve membership equation: `y^2 mod p` agrees with
/// `x^3 + a*x + b mod p`.
pub open spec fn spec_on_curve(a: int, b: int, p: int, x: int, y: int) -> bool {
    (y * y) % p == (x * x * x + a * x + b) % p
}

/// Membership of a point: `Identity` is on every curve; an affine point must
/// satisfy the curve equation.
pub open spec fn spec_is_on_curve(c: ElliplticCurve, pt: Point) -> bool {
    match pt {
        Point::Cordinates(x, y) => spec_on_curve(
            c.a as int,
            c.b as int,
            c.p as int,
            x as int,
            y as int,
        ),
        Point::Identity => true,
    }
}

/// The chord slope through two distinct affine points:
/// `(y2 - y1) / (x2 - x1) mod p`, with division by the Fermat inverse.
pub open spec fn chord_slope(x1: int, y1: int, x2: int, y2: int, p: int) -> int {
    fdiv(fsub(y2, y1, p), fsub(x2, x1, p), p)
}

/// The tangent slope at an affine point: `(3*x^2 + a) / (2*y) mod p`, with
/// division by the Fermat inverse.
pub open spec fn tangent_slope(x: int, y: int, a: int, p: int) -> int {
    fdiv(fadd(fmul(3, fmul(x, x, p), p), a, p), fmul(2, y, p), p)
}

/// The output abscissa of the group law: `s^2 - x1 - x2 mod p`, composed
/// from field operations exactly as the code computes it.
pub open spec fn chord_x3(s: int, x1: int, x2: int, p: int) -> int {
    fsub(fsub(fmul(s, s, p), x1, p), x2, p)
}

/// The output ordinate of the group law: `s*(x1 - x3) - y1 mod p`, composed
/// from field operations exactly as the code computes it.
pub open spec fn chord_y3(s: int, x1: int, y1: int, x3: int, p: int) -> int {
    fsub(fmul(s, fsub(x1, x3, p), p), y1, p)
}

/// The affine point produced from a slope `s` by the shared output formulas.
pub open spec fn slope_point(s: int, x1: int, y1: int, x2: int, p: int) -> Point {
    Point::Cordinates(
        chord_x3(s, x1, x2, p) as u64,
        chord_y3(s, x1, y1, chord_x3(s, x1, x2, p), p) as u64,
    )
}

/// What `ElliplticCurve::addition` returns, case by case and in the order
/// the cases are tested: membership of both operands, then the equal-operands
/// guard, then the affine chord law (with the vertical-reflection case
/// yielding `Identity`), then the identity-element cases.
pub open spec fn spec_addition(c: ElliplticCurve, p1: Point, p2: Point) -> Result<
    Point,
    CurveError,
> {
    if !spec_is_on_curve(c, p1) {
        Err(CurveError::NotOnCurve(p1))
    } else if !spec_is_on_curve(c, p2) {
        Err(CurveError::NotOnCurve(p2))
    } else if p1 == p2 {
        Err(CurveError::SameArgs(p1, p2))
    } else {
        match (p1, p2) {
            (Point::Cordinates(x1, y1), Point::Cordinates(x2, y2)) => {
                if x1 == x2 && fadd(y1 as int, y2 as int, c.p as int) == 0 {
                    Ok(Point::Identity)
                } else {
                    Ok(
                        slope_point(
                            chord_slope(x1 as int, y1 as int, x2 as int, y2 as int, c.p as int),
                            x1 as int,
                            y1 as int,
                            x2 as int,
                            c.p as int,
                        ),
                    )
                }
            },
            (_, Point::Identity) => Ok(p1),
            (Point::Identity, _) => Ok(p2),
        }
    }
}

/// What `ElliplticCurve::double` returns: `Identity` doubles to `Identity`,
/// a vertical tangent (`y == 0`) yields `Identity`, and otherwise the
/// tangent-slope formula produces the new affine point.
pub open spec fn spec_double(c: ElliplticCurve, pt: Point) -> Point {
    match pt {
        Point::Cordinates(x, y) => {
            if y == 0 {
                Point::Identity
            } else {
                slope_point(
                    tangent_slope(x as int, y as int, c.a as int, c.p as int),
                    x as int,
                    y as int,
                    x as int,
                    c.p as int,
                )
            }
        },
        Point::Identity => Point::Identity,
    }
}

/// The total group law used inside scalar multiplication: identity elements
/// pass the other operand through, equal operands are doubled, vertical
/// reflections cancel to `Identity`, and distinct affine points follow the
/// chord law. Unlike `spec_addition` it never fails and never tests
/// membership.
pub open spec fn spec_full_add(c: ElliplticCurve, p1: Point, p2: Point) -> Point {
    match (p1, p2) {
        (Point::Identity, _) => p2,
        (_, Point::Identity) => p1,
        (Point::Cordinates(x1, y1), Point::Cordinates(x2, y2)) => {
            if p1 == p2 {
                spec_double(c, p1)
            } else if x1 == x2 && fadd(y1 as int, y2 as int, c.p as int) == 0 {
                Point::Identity
            } else {
                slope_point(
                    chord_slope(x1 as int, y1 as int, x2 as int, y2 as int, c.p as int),
                    x1 as int,
                    y1 as int,
                    x2 as int,
                    c.p as int,
                )
            }
        },
    }
}

/// One pass of binary double-and-add: on each low bit of `k` the running
/// point is folded into the accumulator when the bit is set, then the
/// running point is doubled and the scalar halved.
pub open spec fn spec_scalar_loop(c: ElliplticCurve, acc: Point, run: Point, k: nat) -> Point
    decreases k,
{
    if k == 0 {
        acc
    } else {
        spec_scalar_loop(
            c,
            if k % 2 == 1 {
                spec_full_add(c, acc, run)
            } else {
                acc
            },
            spec_double(c, run),
            k / 2,
        )
    }
}

/// What `ElliplticCurve::scalar_multiple` returns: the double-and-add pass
/// started from an `Identity` accumulator and a running point `pt`.
pub open spec fn spec_scalar_mul(c: ElliplticCurve, pt: Point, k: nat) -> Point {
    spec_scalar_loop(c, Point::Identity, pt, k)
}

/// A point whose coordinates are canonical field elements of `[0, p)`; the
/// group-law lemmas are stated for such points.
pub open spec fn spec_reduced(pt: Point, p: int) -> bool {
    match pt {
        Point::Cordinates(x, y) => x < p && y < p,
        Point::Identity => true,
    }
}

/// An immutable short-Weierstrass curve `y^2 = x^3 + a*x + b (mod p)`; the
/// sole authority for membership and for all group-law computations on its
/// points.
pub struct ElliplticCurve {
    pub a: u64,
    pub b: u64,
    pub p: u64,
}

/// The elliptic-curve capability: membership and the group law of a
/// short-Weierstrass curve. `ElliplticCurve` is its one implementation; the
/// contracts live here, stated over the implementor's curve parameters as
/// exposed by `spec_curve`.
pub trait ElliplticCurveTrait: Sized {
    /// The curve parameters that the contracts below speak about.
    spec fn spec_curve(&self) -> ElliplticCurve;

    /// Group-law addition of two distinct points. Both operands must pass
    /// the membership test; structurally equal operands are refused with
    /// `SameArgs` (doubling has its own entry point); an identity operand
    /// passes the other operand through; vertical reflections cancel to
    /// `Identity`; otherwise the chord formula applies.
    fn addition(&self, c: &Point, d: &Point) -> (r: Result<Point, CurveError>)
        requires
            self.spec_curve().p >= 2,
        ensures
            r == spec_addition(self.spec_curve(), *c, *d),
    ;

    /// Point doubling by the tangent formula. `Identity` and points with a
    /// vertical tangent (`y == 0`) double to `Identity`; otherwise the
    /// tangent slope `(3*x^2 + a) / (2*y)` feeds the shared output formulas.
    fn double(&self, c: &Point) -> (r: Point)
        requires
            self.spec_curve().p >= 2,
        ensures
            r == spec_double(self.spec_curve(), *c),
    ;

    /// Scalar multiplication by binary double-and-add, in `O(log k)` group
    /// operations: the accumulator starts at `Identity`, the running point
    /// at `c`, and each low bit of `k` decides whether the running point is
    /// folded into the accumulator before it is doubled.
    fn scalar_multiple(&self, c: &Point, k: u64) -> (r: Point)
        requires
            self.spec_curve().p >= 2,
        ensures
            r == spec_scalar_mul(self.spec_curve(), *c, k as nat),
            k == 0 ==> r == Point::Identity,
            k == 1 ==> r == *c,
    ;

    /// Pure membership test: whether `pt` satisfies the curve equation
    /// (`Identity` always does).
    fn is_on_curve(&self, pt: &Point) -> (r: bool)
        requires
            self.spec_curve().p >= 1,
        ensures
            r == spec_is_on_curve(self.spec_curve(), *pt),
    ;
}

impl ElliplticCurve {
    /// Constructs the curve from caller-supplied parameters; `p` is assumed
    /// prime and greater than 3, and is not validated here.
    pub fn new(a: u64, b: u64, p: u64) -> (r: Self)
        ensures
            r.a == a,
            r.b == b,
            r.p == p,
    {
        Self { a, b, p }
    }

    /// Shared output step of the group law: from a slope `s`, computes
    /// `x3 = s^2 - x1 - x2` and `y3 = s*(x1 - x3) - y1`, all modulo `p`.
    fn compute_x3_y3(&self, x1: u64, y1: u64, x2: u64, s: u64) -> (r: (u64, u64))
        requires
            self.p >= 1,
        ensures
            r.0 as int == chord_x3(s as int, x1 as int, x2 as int, self.p as int),
            r.1 as int == chord_y3(s as int, x1 as int, y1 as int, r.0 as int, self.p as int),
            r.0 < self.p,
            r.1 < self.p,
    {
        let s_squared = FiniteField::modpow(s, 2, self.p);
        proof {
            lemma_square_is_pow2(s as int);
        }
        let x3 = FiniteField::substract(s_squared, x1, self.p).unwrap();
        let x3 = FiniteField::substract(x3, x2, self.p).unwrap();

        let y3 = FiniteField::substract(x1, x3, self.p).unwrap();
        let y3 = FiniteField::multiply(s, y3, self.p);
        let y3 = FiniteField::substract(y3, y1, self.p).unwrap();

        (x3, y3)
    }

    /// Chord case of the group law for two distinct affine points that are
    /// not vertical reflections of each other.
    fn chord_addition(&self, x1: u64, y1: u64, x2: u64, y2: u64) -> (r: Point)
        requires
            self.p >= 2,
        ensures
            r == slope_point(
                chord_slope(x1 as int, y1 as int, x2 as int, y2 as int, self.p as int),
                x1 as int,
                y1 as int,
                x2 as int,
                self.p as int,
            ),
    {
        let numerator = FiniteField::substract(y2, y1, self.p).unwrap();
        let denominator = FiniteField::substract(x2, x1, self.p).unwrap();
        let s = FiniteField::divide(numerator, denominator, self.p).unwrap();
        let (x3, y3) = self.compute_x3_y3(x1, y1, x2, s);
        Point::Cordinates(x3, y3)
    }

    /// The total group law backing scalar multiplication: like `addition`
    /// but total, dispatching equal operands to `double` and skipping the
    /// membership checks.
    fn full_addition(&self, c: &Point, d: &Point) -> (r: Point)
        requires
            self.p >= 2,
        ensures
            r == spec_full_add(*self, *c, *d),
    {
        match (c, d) {
            (Point::Identity, _) => *d,
            (_, Point::Identity) => *c,
            (Point::Cordinates(x1, y1), Point::Cordinates(x2, y2)) => {
                if *c == *d {
                    return self.double(c);
                }
                let y1_plus_y2 = FiniteField::addition(*y1, *y2, self.p);
                if *x1 == *x2 && y1_plus_y2 == 0 {
                    return Point::Identity;
                }
                self.chord_addition(*x1, *y1, *x2, *y2)
            },
        }
    }
}

impl ElliplticCurveTrait for ElliplticCurve {
    open spec fn spec_curve(&self) -> ElliplticCurve {
        *self
    }

    fn is_on_curve(&self, pt: &Point) -> (r: bool) {
        match pt {
            Point::Cordinates(x, y) => {
                let y_squared = FiniteField::modpow(*y, 2, self.p);
                let x_cubed = FiniteField::modpow(*x, 3, self.p);
                let ax = FiniteField::multiply(self.a, *x, self.p);
                let x_cubed_plus_ax = FiniteField::addition(x_cubed, ax, self.p);
                let rhs = FiniteField::addition(x_cubed_plus_ax, self.b, self.p);
                proof {
                    let xi = *x as int;
                    let yi = *y as int;
                    let ai = self.a as int;
                    let bi = self.b as int;
                    let pi = self.p as int;
                    lemma_square_is_pow2(yi);
                    lemma_square_is_pow2(xi);
                    assert(pow(xi, 3) == xi * pow(xi, 2)) by {
                        reveal(pow);
                    }
                    vstd::arithmetic::mul::lemma_mul_is_associative(xi, xi, xi);
                    lemma_add_mod_noop(xi * xi * xi, ai * xi, pi);
                    lemma_add_mod_noop_right(
                        (xi * xi * xi + ai * xi) % pi,
                        bi,
                        pi,
                    );
                    lemma_add_mod_noop(xi * xi * xi + ai * xi, bi, pi);
                }
                y_squared == rhs
            },
            Point::Identity => true,
        }
    }

    fn addition(&self, c: &Point, d: &Point) -> (r: Result<Point, CurveError>) {
        if !self.is_on_curve(c) {
            return Err(CurveError::NotOnCurve(*c));
        }
        if !self.is_on_curve(d) {
            return Err(CurveError::NotOnCurve(*d));
        }
        if *c == *d {
            return Err(CurveError::SameArgs(*c, *d));
        }
        match (c, d) {
            (Point::Cordinates(x1, y1), Point::Cordinates(x2, y2)) => {
                let y1_plus_y2 = FiniteField::addition(*y1, *y2, self.p);
                if *x1 == *x2 && y1_plus_y2 == 0 {
                    return Ok(Point::Identity);
                }
                Ok(self.chord_addition(*x1, *y1, *x2, *y2))
            },
            (_, Point::Identity) => Ok(*c),
            (Point::Identity, _) => Ok(*d),
        }
    }

    fn double(&self, c: &Point) -> (r: Point) {
        match c {
            Point::Cordinates(x, y) => {
                if *y == 0 {
                    return Point::Identity;
                }
                let x_squared = FiniteField::multiply(*x, *x, self.p);
                let three_x_squared = FiniteField::multiply(3, x_squared, self.p);
                let numerator = FiniteField::addition(three_x_squared, self.a, self.p);
                let denominator = FiniteField::multiply(2, *y, self.p);
                let s = FiniteField::divide(numerator, denominator, self.p).unwrap();
                let (x3, y3) = self.compute_x3_y3(*x, *y, *x, s);
                Point::Cordinates(x3, y3)
            },
            Point::Identity => Point::Identity,
        }
    }

    fn scalar_multiple(&self, c: &Point, k: u64) -> (r: Point) {
        let mut acc = Point::Identity;
        let mut run = *c;
        let mut e = k;
        while e > 0
            invariant
                self.p >= 2,
                spec_scalar_loop(*self, acc, run, e as nat) == spec_scalar_mul(
                    *self,
                    *c,
                    k as nat,
                ),
            decreases e,
        {
            if e % 2 == 1 {
                acc = self.full_addition(&acc, &run);
            }
            run = self.double(&run);
            e = e / 2;
        }
        proof {
            if k == 1 {
                assert(spec_scalar_loop(*self, Point::Identity, *c, 1) == spec_scalar_loop(
                    *self,
                    spec_full_add(*self, Point::Identity, *c),
                    spec_double(*self, *c),
                    0,
                ));
                assert(spec_full_add(*self, Point::Identity, *c) == *c);
            }
        }
        acc
    }
}

} // verus!
