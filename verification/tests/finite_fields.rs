use ec_arith::finite_fields::{FieldError, FiniteField, FiniteFieldTrait};

fn mod_add(a: u64, b: u64, m: u64) -> u64 {
    (a + b) % m
}

fn mod_mul(a: u64, b: u64, m: u64) -> u64 {
    (a * b) % m
}

#[test]
fn test_addition() {
    let res = FiniteField::addition(4, 10, 11);
    assert_eq!(res, 3);
}

#[test]
fn test_multiplication() {
    let res = FiniteField::multiply(4, 10, 31);
    assert_eq!(res, 9);
}

#[test]
fn test_addition_inverse() {
    let res = FiniteField::addition_inverse(10, 5).unwrap();
    assert_eq!(res, 5);
}

#[test]
fn test_addition_inverse_negative() {
    let err = FiniteField::addition_inverse(5, 10).unwrap_err();
    match err {
        FieldError::Underflow(a, b) => {
            assert_eq!(a, 5);
            assert_eq!(b, 10);
        }
        _ => panic!(),
    }
}

#[test]
fn test_multiply_inverse() {
    let res = FiniteField::multiply_inverse(3, 7).unwrap();
    assert_eq!(res, 5);
}

#[test]
fn test_substract() {
    let res = FiniteField::substract(5, 10, 7).unwrap();
    let expected = mod_add(5, 10 - 7, 7);
    assert_eq!(res, expected);
    assert_eq!(res, 1);
}

#[test]
fn test_divide() {
    let result = FiniteField::divide(4, 3, 7).unwrap();
    assert_eq!(result, 6);

    let check = mod_mul(result, 3, 7);
    assert_eq!(check, 4 % 7);
}

#[test]
fn test_substract_in_range_subtrahend() {
    // (2 - 5) mod 7 == 4: modular subtraction is exact for d in [0, p).
    assert_eq!(FiniteField::substract(2, 5, 7).unwrap(), 4);
    assert_eq!(FiniteField::substract(5, 2, 7).unwrap(), 3);
    assert_eq!(FiniteField::substract(0, 10, 11).unwrap(), 1);
}

#[test]
fn test_addition_subtract_round_trip() {
    // subtract(addition(c, d, p), d, p) == c for canonical c, d.
    assert_eq!(
        FiniteField::substract(FiniteField::addition(3, 9, 11), 9, 11).unwrap(),
        3
    );
    assert_eq!(
        FiniteField::substract(FiniteField::addition(0, 10, 11), 10, 11).unwrap(),
        0
    );
}

#[test]
fn test_multiply_divide_round_trip() {
    // divide(multiply(c, d, p), d, p) == c for canonical c and nonzero d.
    assert_eq!(
        FiniteField::divide(FiniteField::multiply(3, 9, 11), 9, 11).unwrap(),
        3
    );
    assert_eq!(
        FiniteField::divide(FiniteField::multiply(6, 4, 7), 4, 7).unwrap(),
        6
    );
}

#[test]
fn test_modpow() {
    assert_eq!(FiniteField::modpow(2, 10, 1000), 24);
    assert_eq!(FiniteField::modpow(3, 0, 7), 1);
    assert_eq!(FiniteField::modpow(0, 5, 7), 0);
    assert_eq!(FiniteField::modpow(5, 1, 1), 0);
}

#[test]
fn test_addition_inverse_boundary() {
    // Equal operands are the smallest non-underflowing case.
    assert_eq!(FiniteField::addition_inverse(7, 7).unwrap(), 0);
    assert!(matches!(
        FiniteField::addition_inverse(7, 8),
        Err(FieldError::Underflow(7, 8))
    ));
}
