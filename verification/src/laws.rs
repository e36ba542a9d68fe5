//! Group-law properties of the curve operations, proved against the same
//! specification functions that the operations' contracts use.
//!
//! The laws that go through modular division take `fermat_inverse_correct`
//! as an explicit hypothesis: it holds for every prime modulus, and
//! primality is a caller assumption that the library does not verify.

use vstd::prelude::*;
use vstd::arithmetic::div_mod::{
    lemma_add_mod_noop, lemma_add_mod_noop_right, lemma_mod_bound, lemma_mod_multiples_vanish,
    lemma_mod_self_0, lemma_mod_sub_multiples_vanish, lemma_mul_mod_noop_general,
    lemma_small_mod, lemma_sub_mod_noop,
};
use vstd::arithmetic::mul::lemma_mul_unary_negation;
use vstd::arithmetic::power::{lemma_pow_mod_noop, pow};

use crate::elliptic_curve::{
    chord_slope, chord_x3, chord_y3, spec_addition, spec_double, spec_full_add,
    spec_is_on_curve, spec_on_curve, spec_reduced, spec_scalar_loop, spec_scalar_mul,
    tangent_slope, CurveError, ElliplticCurve,
};
use crate::finite_fields::{
    fadd, fdiv, fermat_inverse_correct, finv, fmul, fsub, lemma_division_cancels,
    lemma_fsub_is_mod_sub, lemma_nonzero_factor_cancels,
};
use crate::point::Point;

verus! {

/// Negating the dividend flips a nonzero remainder across `p` and keeps a
/// zero remainder at zero.
proof fn lemma_mod_flip(t: int, p: int)
    requires
        p >= 1,
    ensures
        t % p != 0 ==> (-t) % p == p - (t % p),
        t % p == 0 ==> (-t) % p == 0,
{
    lemma_add_mod_noop(t, -t, p);
    lemma_mod_bound(t, p);
    lemma_mod_bound(-t, p);
    lemma_mod_self_0(p);
    let s = t % p + (-t) % p;
    assert(t + (-t) == 0);
    lemma_small_mod(0nat, p as nat);
    assert(s % p == 0);
    if s < p {
        lemma_small_mod(s as nat, p as nat);
    } else {
        lemma_mod_sub_multiples_vanish(s, p);
        lemma_small_mod((s - p) as nat, p as nat);
    }
}

/// Negating the base of `pow` negates the result for odd exponents and
/// leaves it unchanged for even ones.
proof fn lemma_pow_parity_neg(d: int, e: nat)
    ensures
        e % 2 == 1 ==> pow(-d, e) == -pow(d, e),
        e % 2 == 0 ==> pow(-d, e) == pow(d, e),
    decreases e,
{
    if e == 0 {
        assert(pow(-d, 0) == 1 && pow(d, 0) == 1) by {
            reveal(pow);
        }
    } else {
        lemma_pow_parity_neg(d, (e - 1) as nat);
        assert(pow(-d, e) == (-d) * pow(-d, (e - 1) as nat)) by {
            reveal(pow);
        }
        assert(pow(d, e) == d * pow(d, (e - 1) as nat)) by {
            reveal(pow);
        }
        lemma_mul_unary_negation(d, pow(-d, (e - 1) as nat));
        lemma_mul_unary_negation(d, pow(d, (e - 1) as nat));
        vstd::arithmetic::mul::lemma_mul_cancels_negatives(d, pow(d, (e - 1) as nat));
    }
}

/// The Fermat inverse of the reflected residue `p - d` is congruent to the
/// negated inverse of `d`, for an odd modulus.
proof fn lemma_finv_flip(d: int, p: int)
    requires
        p >= 3,
        p % 2 == 1,
        0 < d < p,
    ensures
        finv(p - d, p) == (-pow(d, (p - 2) as nat)) % p,
{
    let e = (p - 2) as nat;
    assert(e % 2 == 1) by {
        lemma_mod_sub_multiples_vanish(p, 2);
    }
    lemma_small_mod((p - d) as nat, p as nat);
    lemma_mod_flip(d, p);
    lemma_small_mod(d as nat, p as nat);
    assert((p - d) % p == (-d) % p);
    lemma_pow_mod_noop(p - d, e, p);
    lemma_pow_mod_noop(-d, e, p);
    assert(pow((p - d) % p, e) % p == pow(p - d, e) % p);
    lemma_pow_parity_neg(d, e);
}

/// The chord slope is symmetric in its two endpoints: reversing the roles
/// of the points negates both the numerator and the denominator, and the
/// two sign flips cancel through the Fermat inverse (the exponent `p - 2`
/// being odd).
proof fn lemma_slope_symmetric(x1: int, y1: int, x2: int, y2: int, p: int)
    requires
        p >= 3,
        p % 2 == 1,
        0 <= x1 < p,
        0 <= y1 < p,
        0 <= x2 < p,
        0 <= y2 < p,
        x1 != x2,
    ensures
        chord_slope(x1, y1, x2, y2, p) == chord_slope(x2, y2, x1, y1, p),
{
    let u1 = fsub(y2, y1, p);
    let d1 = fsub(x2, x1, p);
    let u2 = fsub(y1, y2, p);
    let d2 = fsub(x1, x2, p);
    lemma_fsub_is_mod_sub(y2, y1, p);
    lemma_fsub_is_mod_sub(y1, y2, p);
    lemma_fsub_is_mod_sub(x2, x1, p);
    lemma_fsub_is_mod_sub(x1, x2, p);
    lemma_mod_flip(x2 - x1, p);
    lemma_mod_flip(y2 - y1, p);
    if x2 - x1 > 0 {
        lemma_small_mod((x2 - x1) as nat, p as nat);
    } else {
        lemma_small_mod((x1 - x2) as nat, p as nat);
        lemma_mod_flip(x1 - x2, p);
    }
    assert(0 < d1 < p);
    assert(d2 == p - d1);
    lemma_finv_flip(d1, p);
    let pw = pow(d1, (p - 2) as nat);
    assert(finv(d2, p) == (-pw) % p);
    if u1 == 0 {
        assert(u2 == 0);
        vstd::arithmetic::mul::lemma_mul_by_zero_is_zero(finv(d1, p));
        vstd::arithmetic::mul::lemma_mul_by_zero_is_zero(finv(d2, p));
        lemma_small_mod(0nat, p as nat);
        assert(fdiv(u1, d1, p) == 0);
        assert(fdiv(u2, d2, p) == 0);
    } else {
        assert(u2 == p - u1);
        // Both slopes reduce to (u1 * pw) % p: the two negations cancel.
        assert(fdiv(u2, d2, p) == ((p - u1) * ((-pw) % p)) % p);
        assert(((p - u1) * ((-pw) % p)) % p == ((p - u1) * (-pw)) % p) by {
            lemma_mul_mod_noop_general(p - u1, -pw, p);
            lemma_mul_mod_noop_general(p - u1, (-pw) % p, p);
            vstd::arithmetic::div_mod::lemma_mod_twice(-pw, p);
        }
        assert(((p - u1) * (-pw)) % p == (((p - u1) % p) * (-pw)) % p) by {
            lemma_mul_mod_noop_general(p - u1, -pw, p);
            lemma_mul_mod_noop_general((p - u1) % p, -pw, p);
            vstd::arithmetic::div_mod::lemma_mod_twice(p - u1, p);
        }
        lemma_small_mod((p - u1) as nat, p as nat);
        lemma_mod_flip(y2 - y1, p);
        assert((p - u1) % p == (-(y2 - y1)) % p) by {
            lemma_small_mod((p - u1) as nat, p as nat);
        }
        assert(((-(y2 - y1)) % p * (-pw)) % p == ((-(y2 - y1)) * (-pw)) % p) by {
            lemma_mul_mod_noop_general(-(y2 - y1), -pw, p);
            lemma_mul_mod_noop_general((-(y2 - y1)) % p, -pw, p);
            vstd::arithmetic::div_mod::lemma_mod_twice(-(y2 - y1), p);
        }
        assert((-(y2 - y1)) * (-pw) == (y2 - y1) * pw) by {
            vstd::arithmetic::mul::lemma_mul_cancels_negatives(y2 - y1, pw);
        }
        assert(((y2 - y1) * pw) % p == (u1 * (pw % p)) % p) by {
            lemma_mul_mod_noop_general(y2 - y1, pw, p);
            lemma_mul_mod_noop_general(u1, pw % p, p);
            lemma_mul_mod_noop_general(u1, pw, p);
            lemma_small_mod(u1 as nat, p as nat);
            vstd::arithmetic::div_mod::lemma_mod_twice(pw, p);
        }
        assert(fdiv(u1, d1, p) == (u1 * (pw % p)) % p);
    }
}

/// The group-law output coordinates, re-stated as single reductions: the
/// field-operation compositions `chord_x3` and `chord_y3` equal the plain
/// integer formulas reduced once modulo `p`.
proof fn lemma_chord_coords(s: int, x1: int, y1: int, x2: int, p: int)
    requires
        p >= 1,
        0 <= x1 < p,
        0 <= y1 < p,
        0 <= x2 < p,
        0 <= s,
    ensures
        chord_x3(s, x1, x2, p) == (s * s - x1 - x2) % p,
        0 <= chord_x3(s, x1, x2, p) < p,
        chord_y3(s, x1, y1, chord_x3(s, x1, x2, p), p) == (s * (x1 - chord_x3(s, x1, x2, p))
            - y1) % p,
        0 <= chord_y3(s, x1, y1, chord_x3(s, x1, x2, p), p) < p,
{
    let m = fmul(s, s, p);
    lemma_mod_bound(s * s, p);
    lemma_fsub_is_mod_sub(m, x1, p);
    assert(fsub(m, x1, p) == (s * s - x1) % p) by {
        lemma_sub_mod_noop(s * s, x1, p);
        lemma_small_mod(x1 as nat, p as nat);
    }
    let q = fsub(m, x1, p);
    lemma_mod_bound(s * s - x1, p);
    lemma_fsub_is_mod_sub(q, x2, p);
    assert(fsub(q, x2, p) == (s * s - x1 - x2) % p) by {
        lemma_sub_mod_noop(s * s - x1, x2, p);
        lemma_small_mod(x2 as nat, p as nat);
    }
    let x3 = chord_x3(s, x1, x2, p);
    lemma_mod_bound(s * s - x1 - x2, p);
    lemma_fsub_is_mod_sub(x1, x3, p);
    let w = fsub(x1, x3, p);
    lemma_mod_bound(x1 - x3, p);
    assert(fmul(s, w, p) == (s * (x1 - x3)) % p) by {
        lemma_mul_mod_noop_general(s, x1 - x3, p);
    }
    let t = fmul(s, w, p);
    lemma_mod_bound(s * (x1 - x3), p);
    lemma_fsub_is_mod_sub(t, y1, p);
    assert(fsub(t, y1, p) == (s * (x1 - x3) - y1) % p) by {
        lemma_sub_mod_noop(s * (x1 - x3), y1, p);
        lemma_small_mod(y1 as nat, p as nat);
    }
    lemma_mod_bound(s * (x1 - x3) - y1, p);
}

/// Substituting the congruent value `s^2 - x1 - x2` for the reduced output
/// abscissa `x3` inside the group-law bracket changes the bracket only by a
/// multiple of `p`.
proof fn lemma_bracket_form(a: int, s: int, x1: int, y1: int, x2: int, x3: int, p: int)
    requires
        p >= 1,
        x3 == (s * s - x1 - x2) % p,
    ensures
        (s * s * (x1 - x3) - 2 * s * y1 + x1 * x1 + x1 * x3 + x3 * x3 + a) % p == ((x1 - x2) * (s
            * s) - 2 * s * y1 + x1 * x1 + x1 * x2 + x2 * x2 + a) % p,
{
    let g = s * s - x1 - x2;
    let br3 = s * s * (x1 - x3) - 2 * s * y1 + x1 * x1 + x1 * x3 + x3 * x3 + a;
    let brg = s * s * (x1 - g) - 2 * s * y1 + x1 * x1 + x1 * g + g * g + a;
    assert((s * s * (x1 - x3) - 2 * s * y1 + x1 * x1 + x1 * x3 + x3 * x3 + a) - (s * s * (x1 - (s
        * s - x1 - x2)) - 2 * s * y1 + x1 * x1 + x1 * (s * s - x1 - x2) + (s * s - x1 - x2) * (s
        * s - x1 - x2) + a) == (x3 - (s * s - x1 - x2)) * (-(s * s) + x1 + x3 + (s * s - x1
        - x2))) by (nonlinear_arith);
    assert(br3 - brg == (x3 - g) * (-(s * s) + x1 + x3 + g));
    assert((x3 - g) % p == 0) by {
        vstd::arithmetic::div_mod::lemma_mod_twice(g, p);
        vstd::arithmetic::div_mod::lemma_mod_equivalence(x3, g, p);
    }
    assert(((x3 - g) * (-(s * s) + x1 + x3 + g)) % p == 0) by {
        lemma_mul_mod_noop_general(x3 - g, -(s * s) + x1 + x3 + g, p);
        vstd::arithmetic::mul::lemma_mul_by_zero_is_zero(-(s * s) + x1 + x3 + g);
        lemma_small_mod(0nat, p as nat);
    }
    assert(br3 % p == brg % p) by {
        vstd::arithmetic::div_mod::lemma_mod_equivalence(br3, brg, p);
    }
    assert(s * s * (x1 - (s * s - x1 - x2)) - 2 * s * y1 + x1 * x1 + x1 * (s * s - x1 - x2) + (s
        * s - x1 - x2) * (s * s - x1 - x2) + a == (x1 - x2) * (s * s) - 2 * s * y1 + x1 * x1 + x1
        * x2 + x2 * x2 + a) by (nonlinear_arith);
    assert(brg == (x1 - x2) * (s * s) - 2 * s * y1 + x1 * x1 + x1 * x2 + x2 * x2 + a);
}

/// The core of closure: if the point `(x1, y1)` lies on the curve and the
/// group-law bracket vanishes modulo `p` at the reduced output abscissa
/// `x3`, then the output point `(x3, (s*(x1-x3) - y1) mod p)` lies on the
/// curve as well.
proof fn lemma_on_curve_from_bracket(a: int, b: int, p: int, s: int, x1: int, y1: int, x3: int)
    requires
        p >= 1,
        0 <= x1 < p,
        0 <= y1 < p,
        0 <= x3 < p,
        spec_on_curve(a, b, p, x1, y1),
        (s * s * (x1 - x3) - 2 * s * y1 + x1 * x1 + x1 * x3 + x3 * x3 + a) % p == 0,
    ensures
        spec_on_curve(a, b, p, x3, (s * (x1 - x3) - y1) % p),
{
    let yy = s * (x1 - x3) - y1;
    let e1 = y1 * y1 - (x1 * x1 * x1 + a * x1 + b);
    let br = s * s * (x1 - x3) - 2 * s * y1 + x1 * x1 + x1 * x3 + x3 * x3 + a;
    let t = yy * yy - (x3 * x3 * x3 + a * x3 + b) - e1;
    assert(e1 % p == 0) by {
        lemma_sub_mod_noop(y1 * y1, x1 * x1 * x1 + a * x1 + b, p);
        lemma_small_mod(0nat, p as nat);
    }
    // The factorisation t == (x1 - x3) * br, assembled from small pieces:
    // the squared ordinate, the cube difference, and distributivity.
    assert((s * (x1 - x3) - y1) * (s * (x1 - x3) - y1) == (x1 - x3) * (s * s * (x1 - x3)) - (x1
        - x3) * (2 * s * y1) + y1 * y1) by (nonlinear_arith);
    assert(x1 * x1 * x1 - x3 * x3 * x3 == (x1 - x3) * (x1 * x1 + x1 * x3 + x3 * x3))
        by (nonlinear_arith);
    assert(a * x1 - a * x3 == (x1 - x3) * a) by (nonlinear_arith);
    assert((x1 - x3) * (s * s * (x1 - x3) - 2 * s * y1 + (x1 * x1 + x1 * x3 + x3 * x3) + a) == (x1
        - x3) * (s * s * (x1 - x3)) - (x1 - x3) * (2 * s * y1) + (x1 - x3) * (x1 * x1 + x1 * x3
        + x3 * x3) + (x1 - x3) * a) by (nonlinear_arith);
    assert(t == (x1 - x3) * br);
    assert(((x1 - x3) * br) % p == 0) by {
        lemma_mul_mod_noop_general(x1 - x3, br, p);
        vstd::arithmetic::mul::lemma_mul_by_zero_is_zero((x1 - x3) % p);
        lemma_small_mod(0nat, p as nat);
    }
    assert((yy * yy - (x3 * x3 * x3 + a * x3 + b)) % p == 0) by {
        assert(yy * yy - (x3 * x3 * x3 + a * x3 + b) == t + e1);
        lemma_add_mod_noop(t, e1, p);
        lemma_small_mod(0nat, p as nat);
    }
    assert((yy * yy) % p == (x3 * x3 * x3 + a * x3 + b) % p) by {
        vstd::arithmetic::div_mod::lemma_mod_equivalence(yy * yy, x3 * x3 * x3 + a * x3 + b, p);
    }
    assert(((yy % p) * (yy % p)) % p == (yy * yy) % p) by {
        lemma_mul_mod_noop_general(yy, yy, p);
    }
}

/// Closure of the chord case: the chord through two distinct on-curve
/// points with different abscissas meets the curve again, so the group-law
/// output is on-curve.
proof fn lemma_chord_closure(a: int, b: int, p: int, x1: int, y1: int, x2: int, y2: int)
    requires
        p >= 3,
        p % 2 == 1,
        fermat_inverse_correct(p),
        0 <= x1 < p,
        0 <= y1 < p,
        0 <= x2 < p,
        0 <= y2 < p,
        spec_on_curve(a, b, p, x1, y1),
        spec_on_curve(a, b, p, x2, y2),
        x1 != x2,
    ensures
        ({
            let s = chord_slope(x1, y1, x2, y2, p);
            let x3 = chord_x3(s, x1, x2, p);
            &&& 0 <= x3 < p
            &&& 0 <= chord_y3(s, x1, y1, x3, p) < p
            &&& spec_on_curve(a, b, p, x3, chord_y3(s, x1, y1, x3, p))
        }),
{
    let u1 = fsub(y2, y1, p);
    let d1 = fsub(x2, x1, p);
    lemma_fsub_is_mod_sub(y2, y1, p);
    lemma_fsub_is_mod_sub(x2, x1, p);
    lemma_mod_bound(y2 - y1, p);
    lemma_mod_bound(x2 - x1, p);
    lemma_mod_flip(x2 - x1, p);
    if x2 > x1 {
        lemma_small_mod((x2 - x1) as nat, p as nat);
    } else {
        lemma_small_mod((x1 - x2) as nat, p as nat);
        lemma_mod_flip(x1 - x2, p);
    }
    assert(0 < d1 < p);
    let s = chord_slope(x1, y1, x2, y2, p);
    lemma_mod_bound(u1 * finv(d1, p), p);
    assert(0 <= s < p);
    lemma_division_cancels(u1, d1, p);
    lemma_small_mod(u1 as nat, p as nat);
    assert((s * (x2 - x1)) % p == (y2 - y1) % p) by {
        lemma_mul_mod_noop_general(s, x2 - x1, p);
    }
    lemma_chord_coords(s, x1, y1, x2, p);
    let x3 = chord_x3(s, x1, x2, p);
    lemma_bracket_form(a as int, s, x1, y1, x2, x3, p);
    let br2 = (x1 - x2) * (s * s) - 2 * s * y1 + x1 * x1 + x1 * x2 + x2 * x2 + a;
    let q = y1 + s * (x2 - x1);
    let e2 = q * q - x2 * x2 * x2 - a * x2 - y1 * y1 + x1 * x1 * x1 + a * x1;
    // The identity (x2 - x1) * br2 + e2 == 0, assembled from small pieces:
    // the squared line ordinate, the cube difference, and distributivity.
    assert((y1 + s * (x2 - x1)) * (y1 + s * (x2 - x1)) == y1 * y1 + (x2 - x1) * (2 * s * y1) + (x2
        - x1) * ((x2 - x1) * (s * s))) by (nonlinear_arith);
    assert(x2 * x2 * x2 - x1 * x1 * x1 == (x2 - x1) * (x1 * x1 + x1 * x2 + x2 * x2))
        by (nonlinear_arith);
    assert(a * x2 - a * x1 == (x2 - x1) * a) by (nonlinear_arith);
    assert((x2 - x1) * ((x1 - x2) * (s * s) - 2 * s * y1 + (x1 * x1 + x1 * x2 + x2 * x2) + a)
        == (x2 - x1) * ((x1 - x2) * (s * s)) - (x2 - x1) * (2 * s * y1) + (x2 - x1) * (x1 * x1
        + x1 * x2 + x2 * x2) + (x2 - x1) * a) by (nonlinear_arith);
    assert((x2 - x1) * ((x1 - x2) * (s * s)) == -((x2 - x1) * ((x2 - x1) * (s * s))))
        by (nonlinear_arith);
    assert((x2 - x1) * br2 + e2 == 0);
    // q is congruent to y2, so e2 reduces through both curve equations to 0.
    assert(q % p == y2 % p) by {
        lemma_add_mod_noop_right(y1, s * (x2 - x1), p);
        lemma_add_mod_noop_right(y1, y2 - y1, p);
    }
    assert((q * q) % p == (y2 * y2) % p) by {
        lemma_mul_mod_noop_general(q, q, p);
        lemma_mul_mod_noop_general(y2, y2, p);
    }
    let k = -(x2 * x2 * x2) - a * x2 - y1 * y1 + x1 * x1 * x1 + a * x1;
    assert(e2 == q * q + k);
    assert((q * q + k) % p == (y2 * y2 + k) % p) by {
        lemma_add_mod_noop(q * q, k, p);
        lemma_add_mod_noop(y2 * y2, k, p);
    }
    assert((y2 * y2 + k) % p == ((x2 * x2 * x2 + a * x2 + b) + k) % p) by {
        lemma_add_mod_noop(y2 * y2, k, p);
        lemma_add_mod_noop(x2 * x2 * x2 + a * x2 + b, k, p);
    }
    assert((x2 * x2 * x2 + a * x2 + b) + k == b + x1 * x1 * x1 + a * x1 - y1 * y1);
    assert((b + x1 * x1 * x1 + a * x1 - y1 * y1) % p == 0) by {
        lemma_sub_mod_noop(x1 * x1 * x1 + a * x1 + b, y1 * y1, p);
        lemma_small_mod(0nat, p as nat);
    }
    assert(e2 % p == 0);
    assert(((x2 - x1) * br2) % p == 0) by {
        assert((x2 - x1) * br2 == -e2);
        lemma_mod_flip(e2, p);
    }
    // Cancel the nonzero factor (x2 - x1).
    lemma_mod_bound(br2, p);
    assert(fmul(d1, br2 % p, p) == 0) by {
        lemma_mul_mod_noop_general(x2 - x1, br2, p);
        lemma_mul_mod_noop_general(d1, br2 % p, p);
        lemma_small_mod(d1 as nat, p as nat);
        vstd::arithmetic::div_mod::lemma_mod_twice(br2, p);
    }
    lemma_nonzero_factor_cancels(d1, br2 % p, p);
    assert(br2 % p == 0) by {
        vstd::arithmetic::div_mod::lemma_mod_twice(br2, p);
    }
    lemma_on_curve_from_bracket(a, b, p, s, x1, y1, x3);
}

/// Closure of the tangent case: doubling an on-curve point with `y != 0`
/// lands on the curve again.
proof fn lemma_tangent_closure(a: int, b: int, p: int, x: int, y: int)
    requires
        p >= 3,
        p % 2 == 1,
        fermat_inverse_correct(p),
        0 <= x < p,
        0 < y < p,
        spec_on_curve(a, b, p, x, y),
        0 <= a,
    ensures
        ({
            let s = tangent_slope(x, y, a, p);
            let x3 = chord_x3(s, x, x, p);
            &&& 0 <= x3 < p
            &&& 0 <= chord_y3(s, x, y, x3, p) < p
            &&& spec_on_curve(a, b, p, x3, chord_y3(s, x, y, x3, p))
        }),
{
    let num = fadd(fmul(3, fmul(x, x, p), p), a, p);
    let den = fmul(2, y, p);
    assert(num == (3 * (x * x) + a) % p) by {
        lemma_mul_mod_noop_general(3, x * x, p);
        lemma_add_mod_noop(3 * (x * x), a, p);
        lemma_add_mod_noop_right((3 * (x * x)) % p, a, p);
    }
    lemma_mod_bound(3 * (x * x) + a, p);
    // The denominator 2*y is nonzero modulo an odd p.
    assert(0 < den < p) by {
        lemma_mod_bound(2 * y, p);
        if 2 * y < p {
            lemma_small_mod((2 * y) as nat, p as nat);
        } else {
            lemma_mod_sub_multiples_vanish(2 * y, p);
            lemma_small_mod((2 * y - p) as nat, p as nat);
        }
    }
    let s = tangent_slope(x, y, a, p);
    lemma_mod_bound(num * finv(den, p), p);
    assert(0 <= s < p);
    lemma_division_cancels(num, den, p);
    lemma_small_mod(num as nat, p as nat);
    assert(fmul(s, den, p) == num);
    assert((s * (2 * y)) % p == (3 * (x * x) + a) % p) by {
        lemma_mul_mod_noop_general(s, 2 * y, p);
    }
    lemma_chord_coords(s, x, y, x, p);
    let x3 = chord_x3(s, x, x, p);
    lemma_bracket_form(a, s, x, y, x, x3, p);
    let br2 = (x - x) * (s * s) - 2 * s * y + x * x + x * x + x * x + a;
    assert((x - x) * (s * s) - 2 * s * y + x * x + x * x + x * x + a == (3 * (x * x) + a) - s * (2
        * y)) by (nonlinear_arith);
    assert(br2 == (3 * (x * x) + a) - s * (2 * y));
    assert(br2 % p == 0) by {
        lemma_sub_mod_noop(3 * (x * x) + a, s * (2 * y), p);
        lemma_small_mod(0nat, p as nat);
    }
    lemma_on_curve_from_bracket(a, b, p, s, x, y, x3);
}

/// Two distinct on-curve points with the same abscissa are vertical
/// reflections of each other: their ordinates add to 0 modulo `p` (under
/// exact Fermat inversion, i.e. for a prime modulus).
proof fn lemma_equal_abscissa_is_vertical(a: int, b: int, p: int, x: int, y1: int, y2: int)
    requires
        p >= 3,
        fermat_inverse_correct(p),
        0 <= y1 < p,
        0 <= y2 < p,
        y1 != y2,
        spec_on_curve(a, b, p, x, y1),
        spec_on_curve(a, b, p, x, y2),
    ensures
        fadd(y1, y2, p) == 0,
{
    let w = fsub(y1, y2, p);
    lemma_fsub_is_mod_sub(y1, y2, p);
    lemma_mod_flip(y1 - y2, p);
    if y1 > y2 {
        lemma_small_mod((y1 - y2) as nat, p as nat);
    } else {
        lemma_small_mod((y2 - y1) as nat, p as nat);
        lemma_mod_flip(y2 - y1, p);
    }
    assert(0 < w < p);
    assert(fmul(w, y1 + y2, p) == 0) by {
        lemma_mul_mod_noop_general(y1 - y2, y1 + y2, p);
        assert((y1 - y2) * (y1 + y2) == y1 * y1 - y2 * y2) by (nonlinear_arith);
        lemma_sub_mod_noop(y1 * y1, y2 * y2, p);
        lemma_small_mod(0nat, p as nat);
    }
    lemma_nonzero_factor_cancels(w, y1 + y2, p);
}

/// Closure of the group law: addition of two distinct on-curve points with
/// canonical coordinates never fails, and its result is again on-curve with
/// canonical coordinates, for an odd modulus with exact Fermat inversion
/// (both hold of every prime greater than 3).
pub proof fn lemma_addition_closure(c: ElliplticCurve, p1: Point, p2: Point)
    requires
        c.p >= 3,
        c.p % 2 == 1,
        fermat_inverse_correct(c.p as int),
        spec_is_on_curve(c, p1),
        spec_is_on_curve(c, p2),
        spec_reduced(p1, c.p as int),
        spec_reduced(p2, c.p as int),
        p1 != p2,
    ensures
        spec_addition(c, p1, p2) matches Ok(r) && spec_is_on_curve(c, r) && spec_reduced(
            r,
            c.p as int,
        ),
{
    let p = c.p as int;
    let a = c.a as int;
    let b = c.b as int;
    if p1 is Cordinates && p2 is Cordinates {
        let x1 = p1->Cordinates_0 as int;
        let y1 = p1->Cordinates_1 as int;
        let x2 = p2->Cordinates_0 as int;
        let y2 = p2->Cordinates_1 as int;
        if p1->Cordinates_0 == p2->Cordinates_0 {
            if fadd(y1, y2, p) != 0 {
                lemma_equal_abscissa_is_vertical(a, b, p, x1, y1, y2);
                assert(false);
            }
        } else {
            lemma_chord_closure(a, b, p, x1, y1, x2, y2);
        }
    }
}

/// Closure of doubling: the double of an on-curve point with canonical
/// coordinates is again on-curve with canonical coordinates, for an odd
/// modulus with exact Fermat inversion (both hold of every prime greater
/// than 3).
pub proof fn lemma_double_closure(c: ElliplticCurve, pt: Point)
    requires
        c.p >= 3,
        c.p % 2 == 1,
        fermat_inverse_correct(c.p as int),
        spec_is_on_curve(c, pt),
        spec_reduced(pt, c.p as int),
    ensures
        spec_is_on_curve(c, spec_double(c, pt)),
        spec_reduced(spec_double(c, pt), c.p as int),
{
    if pt is Cordinates && pt->Cordinates_1 != 0 {
        lemma_tangent_closure(
            c.a as int,
            c.b as int,
            c.p as int,
            pt->Cordinates_0 as int,
            pt->Cordinates_1 as int,
        );
    }
}

/// Commutativity: addition of two distinct on-curve points with canonical
/// coordinates gives the same result in either order, for an odd modulus
/// with exact Fermat inversion (both hold of every prime greater than 3).
pub proof fn lemma_addition_commutes(c: ElliplticCurve, p1: Point, p2: Point)
    requires
        c.p >= 3,
        c.p % 2 == 1,
        fermat_inverse_correct(c.p as int),
        spec_is_on_curve(c, p1),
        spec_is_on_curve(c, p2),
        spec_reduced(p1, c.p as int),
        spec_reduced(p2, c.p as int),
        p1 != p2,
    ensures
        spec_addition(c, p1, p2) == spec_addition(c, p2, p1),
{
    let p = c.p as int;
    if p1 is Cordinates && p2 is Cordinates {
        let x1u = p1->Cordinates_0;
        let y1u = p1->Cordinates_1;
        let x2u = p2->Cordinates_0;
        let y2u = p2->Cordinates_1;
        let x1 = x1u as int;
        let y1 = y1u as int;
        let x2 = x2u as int;
        let y2 = y2u as int;
        if x1u == x2u {
            if fadd(y1, y2, p) != 0 {
                // Impossible under exact inversion: equal abscissas force
                // y1^2 == y2^2 (mod p), so (y1 - y2)(y1 + y2) vanishes; the
                // points are distinct, so the first factor is invertible and
                // the second must vanish -- the vertical case after all.
                let w = fsub(y1, y2, p);
                lemma_fsub_is_mod_sub(y1, y2, p);
                lemma_mod_flip(y1 - y2, p);
                if y1 > y2 {
                    lemma_small_mod((y1 - y2) as nat, p as nat);
                } else {
                    lemma_small_mod((y2 - y1) as nat, p as nat);
                    lemma_mod_flip(y2 - y1, p);
                }
                assert(0 < w < p);
                assert(fmul(w, y1 + y2, p) == 0) by {
                    lemma_mul_mod_noop_general(y1 - y2, y1 + y2, p);
                    assert((y1 - y2) * (y1 + y2) == y1 * y1 - y2 * y2) by (nonlinear_arith);
                    lemma_sub_mod_noop(y1 * y1, y2 * y2, p);
                    lemma_small_mod(0nat, p as nat);
                }
                lemma_nonzero_factor_cancels(w, y1 + y2, p);
                assert(false);
            }
        } else {
            lemma_slope_symmetric(x1, y1, x2, y2, p);
            let s = chord_slope(x1, y1, x2, y2, p);
            let u1 = fsub(y2, y1, p);
            let d1 = fsub(x2, x1, p);
            lemma_fsub_is_mod_sub(y2, y1, p);
            lemma_fsub_is_mod_sub(x2, x1, p);
            lemma_mod_bound(y2 - y1, p);
            lemma_mod_bound(x2 - x1, p);
            lemma_mod_flip(x2 - x1, p);
            if x2 > x1 {
                lemma_small_mod((x2 - x1) as nat, p as nat);
            } else {
                lemma_small_mod((x1 - x2) as nat, p as nat);
                lemma_mod_flip(x1 - x2, p);
            }
            assert(0 < d1 < p);
            lemma_division_cancels(u1, d1, p);
            lemma_small_mod(u1 as nat, p as nat);
            assert(fmul(s, d1, p) == u1);
            assert((s * (x2 - x1)) % p == (y2 - y1) % p) by {
                lemma_mul_mod_noop_general(s, x2 - x1, p);
            }
            lemma_mod_bound(s * s, p);
            lemma_mod_bound(u1 * finv(d1, p), p);
            lemma_chord_coords(s, x1, y1, x2, p);
            lemma_chord_coords(s, x2, y2, x1, p);
            let x3 = chord_x3(s, x1, x2, p);
            assert(chord_x3(s, x2, x1, p) == x3);
            let ya = s * (x1 - x3) - y1;
            let yb = s * (x2 - x3) - y2;
            assert(s * (x1 - x3) - y1 - (s * (x2 - x3) - y2) == -(s * (x2 - x1) - (y2 - y1)))
                by (nonlinear_arith);
            assert(ya - yb == -(s * (x2 - x1) - (y2 - y1)));
            assert((s * (x2 - x1) - (y2 - y1)) % p == 0) by {
                lemma_sub_mod_noop(s * (x2 - x1), y2 - y1, p);
                lemma_small_mod(0nat, p as nat);
            }
            lemma_mod_flip(s * (x2 - x1) - (y2 - y1), p);
            assert((ya - yb) % p == 0);
            assert(ya % p == yb % p) by {
                vstd::arithmetic::div_mod::lemma_mod_equivalence(ya, yb, p);
            }
        }
    }
}

/// Identity laws: for an on-curve affine point `pt`, adding `Identity` on
/// either side returns `pt` unchanged. (`Identity` plus `Identity` itself is
/// refused as `SameArgs`, since the operands are equal.)
pub proof fn lemma_addition_identity(c: ElliplticCurve, pt: Point)
    requires
        c.p >= 1,
        spec_is_on_curve(c, pt),
        pt is Cordinates,
    ensures
        spec_addition(c, pt, Point::Identity) == Ok::<Point, CurveError>(pt),
        spec_addition(c, Point::Identity, pt) == Ok::<Point, CurveError>(pt),
{
}

/// Inverse law: an on-curve affine point with `0 < y` and its vertical
/// reflection `(x, p - y)` add to `Identity`. The degenerate modulus with
/// `2*y == p` (never a prime greater than 3) is excluded: there the
/// reflection coincides with the point and addition refuses it as
/// `SameArgs`.
pub proof fn lemma_addition_inverse_law(c: ElliplticCurve, x: u64, y: u64)
    requires
        c.p >= 1,
        spec_is_on_curve(c, Point::Cordinates(x, y)),
        0 < y < c.p,
        2 * y != c.p,
    ensures
        spec_addition(c, Point::Cordinates(x, y), Point::Cordinates(x, (c.p - y) as u64))
            == Ok::<Point, CurveError>(Point::Identity),
{
    let p = c.p as int;
    let yi = y as int;
    assert((p - yi) * (p - yi) == p * (p - 2 * yi) + yi * yi) by (nonlinear_arith);
    assert((p * (p - 2 * yi) + yi * yi) % p == (yi * yi) % p) by {
        lemma_mod_multiples_vanish(p - 2 * yi, yi * yi, p);
    }
    assert(fadd(yi, p - yi, p) == 0) by {
        lemma_mod_self_0(p);
    }
}

/// Scalar multiplication by 2 agrees with doubling. (Multiplication by 0
/// and by 1 are stated directly in `scalar_multiple`'s contract.)
pub proof fn lemma_scalar_multiple_two(c: ElliplticCurve, pt: Point)
    ensures
        spec_scalar_mul(c, pt, 2) == spec_double(c, pt),
{
    let d = spec_double(c, pt);
    assert(spec_scalar_loop(c, Point::Identity, pt, 2) == spec_scalar_loop(
        c,
        Point::Identity,
        d,
        1,
    ));
    assert(spec_scalar_loop(c, Point::Identity, d, 1) == spec_scalar_loop(
        c,
        spec_full_add(c, Point::Identity, d),
        spec_double(c, d),
        0,
    ));
    assert(spec_full_add(c, Point::Identity, d) == d);
}

} // verus!
