use raytracer::scalar::{Point, Scalar, INFINITY_BITS, MIN_T_BITS, SIGN_BIT};

fn s(x: f32) -> Scalar {
    Scalar::from_bits(x.to_bits())
}

fn samples() -> Vec<f32> {
    vec![
        0.0,
        -0.0,
        0.01,
        -0.01,
        1.0,
        -1.0,
        4.0,
        1.0e-40,
        -1.0e-40,
        3.0e38,
        -3.0e38,
        f32::MIN_POSITIVE,
        f32::MAX,
        f32::MIN,
        f32::INFINITY,
        f32::NEG_INFINITY,
        f32::NAN,
        -f32::NAN,
    ]
}

#[test]
fn min_t_is_one_hundredth() {
    assert_eq!(f32::from_bits(MIN_T_BITS), 0.01f32);
    assert_eq!(f32::from_bits(INFINITY_BITS), f32::INFINITY);
    assert_eq!(f32::from_bits(SIGN_BIT).to_bits(), (-0.0f32).to_bits());
}

#[test]
fn bits_go_in_and_out_unchanged() {
    for x in samples() {
        assert_eq!(s(x).to_bits(), x.to_bits());
        assert_eq!(s(x).bits, x.to_bits());
    }
}

#[test]
fn comparisons_agree_with_the_numbers() {
    for a in samples() {
        for b in samples() {
            assert_eq!(s(a).lt(s(b)), a < b, "{} < {}", a, b);
            assert_eq!(s(a).le(s(b)), a <= b, "{} <= {}", a, b);
            assert_eq!(s(a).gt(s(b)), a > b, "{} > {}", a, b);
            assert_eq!(s(a).ge(s(b)), a >= b, "{} >= {}", a, b);
            assert_eq!(s(a).same(s(b)), a == b, "{} == {}", a, b);
        }
    }
}

#[test]
fn nan_and_zero_are_recognized() {
    for a in samples() {
        assert_eq!(s(a).is_nan(), a.is_nan(), "{}", a);
        assert_eq!(s(a).is_zero(), a == 0.0, "{}", a);
    }
}

#[test]
fn max_and_min_pick_as_the_comparison_says() {
    for a in samples() {
        for b in samples() {
            let max = if a > b { a } else { b };
            let min = if a < b { a } else { b };
            assert_eq!(s(a).max(s(b)).to_bits(), max.to_bits());
            assert_eq!(s(a).min(s(b)).to_bits(), min.to_bits());
        }
    }
}

#[test]
fn max_of_zero_and_a_negative_is_zero() {
    assert_eq!(s(0.0).max(s(-0.25)), s(0.0));
    assert_eq!(s(0.0).max(s(0.25)), s(0.25));
}

#[test]
fn valid_t_is_strictly_above_min_t() {
    for a in samples() {
        assert_eq!(s(a).is_valid_t(), a > 0.01f32, "{}", a);
    }
    assert!(!s(0.01).is_valid_t());
    assert!(Scalar::from_bits(MIN_T_BITS + 1).is_valid_t());
    assert!(!Scalar::from_bits(MIN_T_BITS - 1).is_valid_t());
    assert!(s(f32::INFINITY).is_valid_t());
    assert!(!s(f32::NAN).is_valid_t());
}

#[test]
fn points_are_the_same_place_by_their_numbers() {
    let p = Point { x: s(0.0), y: s(2.0), z: s(-10.0) };
    let q = Point { x: s(-0.0), y: s(2.0), z: s(-10.0) };
    let r = Point { x: s(0.0), y: s(2.0), z: s(-9.0) };
    let n = Point { x: s(f32::NAN), y: s(2.0), z: s(-10.0) };
    assert!(p.same(p));
    assert!(p.same(q));
    assert!(!p.same(r));
    assert!(!n.same(n));
    assert_ne!(p, q);
}
