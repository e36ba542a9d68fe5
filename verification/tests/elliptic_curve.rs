use ec_arith::elliptic_curve::{CurveError, ElliplticCurve, ElliplticCurveTrait};
use ec_arith::point::Point;

fn make_test_curve() -> ElliplticCurve {
    ElliplticCurve::new(2, 2, 17)
}

#[test]
fn test_point_in_curve() {
    let ec = make_test_curve();

    let p1 = Point::Cordinates(6, 3);
    let p2 = Point::Cordinates(5, 1);
    let p3 = Point::Cordinates(10, 6);

    assert!(ec.is_on_curve(&p1));
    assert!(ec.is_on_curve(&p2));
    assert!(ec.is_on_curve(&p3));

    let p4 = Point::Cordinates(4, 1);
    let p5 = Point::Cordinates(1, 1);
    let p6 = Point::Cordinates(0, 1);

    assert!(!ec.is_on_curve(&p4));
    assert!(!ec.is_on_curve(&p5));
    assert!(!ec.is_on_curve(&p6));
}

#[test]
fn test_point_addition() {
    let ec = make_test_curve();

    let p1 = Point::Cordinates(6, 3);
    let p2 = Point::Cordinates(5, 1);
    let pr = Point::Cordinates(10, 6);

    let res = ec.addition(&p1, &p2).unwrap();
    assert_eq!(res, pr);
}

#[test]
fn test_identity_is_on_curve() {
    let ec = make_test_curve();
    assert!(ec.is_on_curve(&Point::Identity));
}

#[test]
fn test_addition_with_identity() {
    let ec = make_test_curve();
    let p1 = Point::Cordinates(6, 3);

    assert_eq!(ec.addition(&p1, &Point::Identity).unwrap(), p1);
    assert_eq!(ec.addition(&Point::Identity, &p1).unwrap(), p1);
}

#[test]
fn test_addition_commutes() {
    let ec = make_test_curve();
    let p1 = Point::Cordinates(6, 3);
    let p2 = Point::Cordinates(5, 1);

    assert_eq!(ec.addition(&p1, &p2).unwrap(), ec.addition(&p2, &p1).unwrap());
}

#[test]
fn test_addition_closure() {
    let ec = make_test_curve();
    let p1 = Point::Cordinates(6, 3);
    let p2 = Point::Cordinates(5, 1);

    assert!(ec.is_on_curve(&ec.addition(&p1, &p2).unwrap()));
    assert!(ec.is_on_curve(&ec.double(&p1)));
    assert!(ec.is_on_curve(&ec.double(&p2)));
}

#[test]
fn test_addition_of_reflections_is_identity() {
    let ec = make_test_curve();
    // (6, 14) is the vertical reflection of (6, 3) since 14 == 17 - 3.
    let p1 = Point::Cordinates(6, 3);
    let p2 = Point::Cordinates(6, 14);

    assert!(ec.is_on_curve(&p2));
    assert_eq!(ec.addition(&p1, &p2).unwrap(), Point::Identity);
}

#[test]
fn test_addition_not_on_curve_error() {
    let ec = make_test_curve();
    let bad = Point::Cordinates(4, 1);
    let good = Point::Cordinates(5, 1);

    assert!(matches!(
        ec.addition(&bad, &good),
        Err(CurveError::NotOnCurve(Point::Cordinates(4, 1)))
    ));
    assert!(matches!(
        ec.addition(&good, &bad),
        Err(CurveError::NotOnCurve(Point::Cordinates(4, 1)))
    ));
}

#[test]
fn test_addition_same_args_error() {
    let ec = make_test_curve();
    let p1 = Point::Cordinates(6, 3);

    assert!(matches!(
        ec.addition(&p1, &p1),
        Err(CurveError::SameArgs(Point::Cordinates(6, 3), Point::Cordinates(6, 3)))
    ));
    // Two identities are equal operands as well.
    assert!(matches!(
        ec.addition(&Point::Identity, &Point::Identity),
        Err(CurveError::SameArgs(Point::Identity, Point::Identity))
    ));
}

#[test]
fn test_double() {
    let ec = make_test_curve();

    assert_eq!(ec.double(&Point::Cordinates(5, 1)), Point::Cordinates(6, 3));
    assert_eq!(ec.double(&Point::Identity), Point::Identity);
    // A vertical tangent doubles to the identity.
    assert_eq!(ec.double(&Point::Cordinates(5, 0)), Point::Identity);
}

#[test]
fn test_scalar_multiple_small_scalars() {
    let ec = make_test_curve();
    let g = Point::Cordinates(5, 1);

    assert_eq!(ec.scalar_multiple(&g, 0), Point::Identity);
    assert_eq!(ec.scalar_multiple(&g, 1), g);
    assert_eq!(ec.scalar_multiple(&g, 2), ec.double(&g));
    assert_eq!(ec.scalar_multiple(&g, 2), Point::Cordinates(6, 3));
    assert_eq!(ec.scalar_multiple(&g, 3), Point::Cordinates(10, 6));
    assert_eq!(ec.scalar_multiple(&g, 4), Point::Cordinates(3, 1));
}

#[test]
fn test_scalar_multiple_matches_repeated_addition() {
    let ec = make_test_curve();
    let g = Point::Cordinates(5, 1);

    // Build k*g by repeated group addition (doubling where operands meet).
    let mut acc = Point::Identity;
    for k in 0..12u64 {
        assert_eq!(ec.scalar_multiple(&g, k), acc);
        acc = if acc == Point::Identity {
            g
        } else if acc == g {
            ec.double(&g)
        } else {
            ec.addition(&acc, &g).unwrap()
        };
    }
}

#[test]
fn test_scalar_multiple_hits_group_order() {
    let ec = make_test_curve();
    let g = Point::Cordinates(5, 1);

    // The group generated by (5, 1) on this curve has order 19.
    assert_eq!(ec.scalar_multiple(&g, 19), Point::Identity);
    assert_eq!(ec.scalar_multiple(&g, 20), g);
}
