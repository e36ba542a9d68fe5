//! Modular arithmetic over a prime modulus `p`: the single source of truth for
//! reduction and inversion, shared by all elliptic-curve computations.

use vstd::prelude::*;
use vstd::arithmetic::div_mod::{
    lemma_fundamental_div_mod, lemma_mod_bound, lemma_mul_mod_noop_general, lemma_small_mod,
};
use vstd::arithmetic::mul::{lemma_mul_is_associative, lemma_mul_upper_bound};
use vstd::arithmetic::power::{
    lemma_pow0, lemma_pow_mod_noop, lemma_pow_multiplies, lemma_square_is_pow2, pow,
};

verus! {

/// Error raised by field operations.
///
/// `Underflow(c, d)` reports a raw, non-modular subtraction `c - d` attempted
/// with `c < d`. `NotPrime(p)` is the signal reserved for a modulus detected
/// as composite; primality is a caller assumption throughout, so no operation
/// of this module currently raises it.
#[derive(Debug, PartialEq, Eq, Structural)]
pub enum FieldError {
    Underflow(u64, u64),
    NotPrime(u64),
}

/// `(c + d) mod p`: modular addition over the integers.
pub open spec fn fadd(c: int, d: int, p: int) -> int {
    (c + d) % p
}

/// `(c * d) mod p`: modular multiplication over the integers.
pub open spec fn fmul(c: int, d: int, p: int) -> int {
    (c * d) % p
}

/// What `FiniteField::substract` computes: the subtrahend `d` is first folded
/// once across `p` (to `p - d` when `d < p`, to `d - p` otherwise) and the
/// fold is then added to `c` modulo `p`. For `d < p` this is exactly
/// `(c - d) mod p`; see `lemma_fsub_is_mod_sub`.
pub open spec fn fsub(c: int, d: int, p: int) -> int {
    if d < p {
        (c + (p - d)) % p
    } else {
        (c + (d - p)) % p
    }
}

/// `c^(p-2) mod p`: the multiplicative inverse of `c` by Fermat's little
/// theorem, a true inverse whenever `p` is prime and `c` is not a multiple
/// of `p`.
pub open spec fn finv(c: int, p: int) -> int {
    pow(c, (p - 2) as nat) % p
}

/// `(c * c^(p-2)) mod p`: modular division as multiplication by the Fermat
/// inverse of the divisor.
pub open spec fn fdiv(c: int, d: int, p: int) -> int {
    fmul(c, finv(d, p), p)
}

/// The modulus assumption under which Fermat inversion is exact: every
/// nonzero residue times its `finv` reduces to 1. Every prime modulus
/// satisfies this, by Fermat's little theorem. Primality itself is a caller
/// assumption that the library does not verify, so the laws that depend on
/// inversion take this property as an explicit hypothesis instead.
pub open spec fn fermat_inverse_correct(p: int) -> bool {
    forall|c: int| 0 < c < p ==> #[trigger] fmul(c, finv(c, p), p) == 1
}

/// For an in-range subtrahend, `fsub` agrees with integer subtraction
/// followed by reduction.
pub proof fn lemma_fsub_is_mod_sub(c: int, d: int, p: int)
    requires
        p >= 1,
        0 <= d < p,
        0 <= c,
    ensures
        fsub(c, d, p) == (c - d) % p,
{
    vstd::arithmetic::div_mod::lemma_mod_add_multiples_vanish(c - d, p);
}

/// One step of square-and-multiply: halving the exponent while squaring the
/// base (and, on an odd exponent, multiplying the accumulator by the base)
/// preserves the running product `acc * base^exp` modulo `p`.
proof fn lemma_modpow_step(a: int, b: int, e: nat, p: int)
    requires
        p >= 1,
        0 <= a,
        0 <= b,
        e > 0,
    ensures
        e % 2 == 1 ==> (((a * b) % p) * pow((b * b) % p, (e / 2) as nat)) % p == (a * pow(b, e))
            % p,
        e % 2 == 0 ==> (a * pow((b * b) % p, (e / 2) as nat)) % p == (a * pow(b, e)) % p,
{
    let h = (e / 2) as nat;
    lemma_fundamental_div_mod(e as int, 2);
    lemma_square_is_pow2(b);
    lemma_pow_multiplies(b, 2, h);
    lemma_pow_mod_noop(b * b, h, p);
    assert(pow((b * b) % p, h) % p == pow(b * b, h) % p);
    assert(pow(b * b, h) == pow(b, 2 * h));
    if e % 2 == 1 {
        assert(e == 2 * h + 1);
        assert(pow(b, e) == b * pow(b, (e - 1) as nat)) by {
            reveal(pow);
        }
        assert((e - 1) as nat == 2 * h);
        lemma_mul_mod_noop_general(a * b, pow(b * b, h), p);
        assert((((a * b) % p) * (pow(b * b, h) % p)) % p == ((a * b) * pow(b, 2 * h)) % p);
        lemma_mul_is_associative(a, b, pow(b, 2 * h));
        assert((a * b) * pow(b, 2 * h) == a * (b * pow(b, 2 * h)));
        lemma_mul_mod_noop_general((a * b) % p, pow(b * b, h), p);
        assert((((a * b) % p) * pow((b * b) % p, h)) % p == (((a * b) % p) * (pow(b * b, h) % p))
            % p) by {
            lemma_mul_mod_noop_general((a * b) % p, pow((b * b) % p, h), p);
        }
    } else {
        assert(e == 2 * h);
        lemma_mul_mod_noop_general(a, pow(b * b, h), p);
        assert((a * pow((b * b) % p, h)) % p == (a * (pow(b * b, h) % p)) % p) by {
            lemma_mul_mod_noop_general(a, pow((b * b) % p, h), p);
        }
    }
}

/// Round trip through addition: subtracting `d` again from `(c + d) mod p`
/// restores `c`, for canonical field elements `c, d` in `[0, p)`.
pub proof fn lemma_subtract_addition_round_trip(c: int, d: int, p: int)
    requires
        p >= 1,
        0 <= c < p,
        0 <= d < p,
    ensures
        fsub(fadd(c, d, p), d, p) == c,
{
    let s = (c + d) % p;
    lemma_mod_bound(c + d, p);
    lemma_fsub_is_mod_sub(s, d, p);
    assert((s - d) % p == (c + d - d) % p) by {
        vstd::arithmetic::div_mod::lemma_sub_mod_noop(c + d, d, p);
        lemma_small_mod(d as nat, p as nat);
    }
    lemma_small_mod(c as nat, p as nat);
}

/// Division is exact under a correct Fermat inverse: multiplying the
/// quotient `fdiv(u, d, p)` back by `d` restores `u mod p`, for any nonzero
/// canonical divisor `d`.
pub proof fn lemma_division_cancels(u: int, d: int, p: int)
    requires
        p >= 2,
        fermat_inverse_correct(p),
        0 < d < p,
        0 <= u,
    ensures
        fmul(fdiv(u, d, p), d, p) == u % p,
{
    let iv = finv(d, p);
    let q = fdiv(u, d, p);
    lemma_mod_bound(u * iv, p);
    assert((((u * iv) % p) * d) % p == ((u * iv) * d) % p) by {
        lemma_mul_mod_noop_general(u * iv, d, p);
    }
    assert((u * iv) * d == u * (iv * d)) by {
        lemma_mul_is_associative(u, iv, d);
    }
    assert((u * (iv * d)) % p == (u * ((iv * d) % p)) % p) by {
        lemma_mul_mod_noop_general(u, iv * d, p);
    }
    assert((iv * d) % p == (d * iv) % p) by {
        vstd::arithmetic::mul::lemma_mul_is_commutative(iv, d);
    }
    assert(fmul(d, iv, p) == 1);
    lemma_small_mod(1nat, p as nat);
}

/// A nonzero canonical factor cancels under a correct Fermat inverse: if
/// `(w * v) mod p == 0` with `0 < w < p`, then `v mod p == 0`.
pub proof fn lemma_nonzero_factor_cancels(w: int, v: int, p: int)
    requires
        p >= 2,
        fermat_inverse_correct(p),
        0 < w < p,
        0 <= v,
        fmul(w, v, p) == 0,
    ensures
        v % p == 0,
{
    let iv = finv(w, p);
    let vm = v % p;
    lemma_mod_bound(v, p);
    assert(fmul(w, iv, p) == 1);
    assert(vm == (vm * ((w * iv) % p)) % p) by {
        lemma_small_mod(vm as nat, p as nat);
    }
    assert((vm * ((w * iv) % p)) % p == (vm * (w * iv)) % p) by {
        lemma_mul_mod_noop_general(vm, w * iv, p);
    }
    assert(vm * (w * iv) == (vm * w) * iv) by {
        lemma_mul_is_associative(vm, w, iv);
    }
    assert(((vm * w) * iv) % p == (((vm * w) % p) * iv) % p) by {
        lemma_mul_mod_noop_general(vm * w, iv, p);
    }
    assert((vm * w) % p == (w * v) % p) by {
        vstd::arithmetic::mul::lemma_mul_is_commutative(vm, w);
        lemma_mul_mod_noop_general(w, v, p);
        lemma_small_mod(w as nat, p as nat);
    }
    assert((0 * iv) % p == 0) by {
        lemma_small_mod(0nat, p as nat);
    }
}

/// Round trip through multiplication: dividing `(c * d) mod p` by `d` again
/// restores `c`, for canonical `c` and nonzero canonical `d`, under a
/// correct Fermat inverse.
pub proof fn lemma_divide_multiply_round_trip(c: int, d: int, p: int)
    requires
        p >= 2,
        fermat_inverse_correct(p),
        0 <= c < p,
        0 < d < p,
    ensures
        fdiv(fmul(c, d, p), d, p) == c,
{
    let iv = finv(d, p);
    let m = fmul(c, d, p);
    assert((m * iv) % p == ((c * d) * iv) % p) by {
        lemma_mul_mod_noop_general(c * d, iv, p);
    }
    assert((c * d) * iv == c * (d * iv)) by {
        lemma_mul_is_associative(c, d, iv);
    }
    assert((c * (d * iv)) % p == (c * ((d * iv) % p)) % p) by {
        lemma_mul_mod_noop_general(c, d * iv, p);
    }
    assert(fmul(d, iv, p) == 1);
    lemma_small_mod(c as nat, p as nat);
}

/// Stateless modular arithmetic over a prime modulus; every operation takes
/// the modulus `p` explicitly and returns a value reduced into `[0, p)`.
pub struct FiniteField {}

/// The finite-field capability: prime-field arithmetic with every result
/// reduced into `[0, p)`. `FiniteField` is its one implementation; the
/// contracts live here so that curve code depends on the interface alone.
pub trait FiniteFieldTrait {
    /// Returns `(c + d) mod p`.
    fn addition(c: u64, d: u64, p: u64) -> (r: u64)
        requires
            p >= 1,
        ensures
            r == fadd(c as int, d as int, p as int),
            r < p,
    ;

    /// Returns `(c * d) mod p`.
    fn multiply(c: u64, d: u64, p: u64) -> (r: u64)
        requires
            p >= 1,
        ensures
            r == fmul(c as int, d as int, p as int),
            r < p,
    ;

    /// Raw, non-modular subtraction guard: returns `c - d` exactly when
    /// `c >= d`, and fails with `Underflow(c, d)` exactly when `c < d`.
    fn addition_inverse(c: u64, d: u64) -> (r: Result<u64, FieldError>)
        ensures
            c >= d ==> r == Ok::<u64, FieldError>((c - d) as u64),
            c < d ==> r == Err::<u64, FieldError>(FieldError::Underflow(c, d)),
    ;

    /// Modular subtraction, exact (`(c - d) mod p`) whenever `d` lies in
    /// `[0, p)`; never fails.
    fn substract(c: u64, d: u64, p: u64) -> (r: Result<u64, FieldError>)
        requires
            p >= 1,
        ensures
            r matches Ok(v) && v == fsub(c as int, d as int, p as int) && v < p,
            d < p ==> (r matches Ok(v) && v == (c as int - d as int) % (p as int)),
    ;

    /// Multiplicative inverse by Fermat's little theorem: `c^(p-2) mod p`.
    fn multiply_inverse(c: u64, p: u64) -> (r: Result<u64, FieldError>)
        requires
            p >= 2,
        ensures
            r matches Ok(v) && v == finv(c as int, p as int) && v < p,
    ;

    /// Modular division: `c` times the Fermat inverse of `d`.
    fn divide(c: u64, d: u64, p: u64) -> (r: Result<u64, FieldError>)
        requires
            p >= 2,
        ensures
            r matches Ok(v) && v == fdiv(c as int, d as int, p as int) && v < p,
    ;
}

impl FiniteFieldTrait for FiniteField {
    fn addition(c: u64, d: u64, p: u64) -> (r: u64) {
        let s: u128 = c as u128 + d as u128;
        let m: u128 = s % (p as u128);
        proof {
            lemma_mod_bound(s as int, p as int);
        }
        m as u64
    }

    fn multiply(c: u64, d: u64, p: u64) -> (r: u64) {
        proof {
            lemma_mul_upper_bound(c as int, u64::MAX as int, d as int, u64::MAX as int);
        }
        let s: u128 = (c as u128) * (d as u128);
        let m: u128 = s % (p as u128);
        proof {
            lemma_mod_bound(s as int, p as int);
        }
        m as u64
    }

    fn addition_inverse(c: u64, d: u64) -> (r: Result<u64, FieldError>) {
        if c >= d {
            Ok(c - d)
        } else {
            Err(FieldError::Underflow(c, d))
        }
    }

    fn substract(c: u64, d: u64, p: u64) -> (r: Result<u64, FieldError>) {
        proof {
            if d < p {
                lemma_fsub_is_mod_sub(c as int, d as int, p as int);
            }
        }
        match Self::addition_inverse(d, p) {
            Ok(folded) => Ok(Self::addition(c, folded, p)),
            Err(_) => {
                // Here d < p, so the reverse fold cannot underflow.
                match Self::addition_inverse(p, d) {
                    Ok(folded) => Ok(Self::addition(c, folded, p)),
                    Err(e) => Err(e),
                }
            },
        }
    }

    /// Primality of `p` is the caller's assumption and is not tested here,
    /// so the `NotPrime` failure is never raised.
    fn multiply_inverse(c: u64, p: u64) -> (r: Result<u64, FieldError>) {
        Ok(Self::modpow(c, p - 2, p))
    }

    fn divide(c: u64, d: u64, p: u64) -> (r: Result<u64, FieldError>) {
        match Self::multiply_inverse(d, p) {
            Ok(inverse) => Ok(Self::multiply(c, inverse, p)),
            Err(e) => Err(e),
        }
    }
}

impl FiniteField {
    /// Returns `base^exp mod p` by binary square-and-multiply, in
    /// `O(log exp)` modular multiplications.
    pub fn modpow(base: u64, exp: u64, p: u64) -> (r: u64)
        requires
            p >= 1,
        ensures
            r == pow(base as int, exp as nat) % (p as int),
            r < p,
    {
        let mut acc: u64 = 1 % p;
        let mut b: u64 = base % p;
        let mut e: u64 = exp;
        proof {
            lemma_mod_bound(1, p as int);
            lemma_mod_bound(base as int, p as int);
            lemma_pow_mod_noop(base as int, exp as nat, p as int);
            lemma_mul_mod_noop_general(1, pow((base as int) % (p as int), exp as nat), p as int);
        }
        while e > 0
            invariant
                p >= 1,
                acc < p,
                b < p,
                (acc as int * pow(b as int, e as nat)) % (p as int) == pow(
                    base as int,
                    exp as nat,
                ) % (p as int),
            decreases e,
        {
            proof {
                lemma_modpow_step(acc as int, b as int, e as nat, p as int);
            }
            if e % 2 == 1 {
                acc = Self::multiply(acc, b, p);
            }
            b = Self::multiply(b, b, p);
            e = e / 2;
        }
        proof {
            lemma_pow0(b as int);
            lemma_small_mod(acc as nat, p as nat);
        }
        acc
    }
}

} // verus!
