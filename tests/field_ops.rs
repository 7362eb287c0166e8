use ecc_toy::{FieldError, Scalar, PRIME};

#[test]
fn add_wraps_around_the_modulus() {
    assert_eq!(Scalar(20).add(Scalar(5)), Scalar(2));
    assert_eq!(Scalar(0).add(Scalar(22)), Scalar(22));
}

#[test]
fn sub_never_goes_negative() {
    assert_eq!(Scalar(3).sub(Scalar(5)), Scalar(21));
    assert_eq!(Scalar(9).sub(Scalar(4)), Scalar(5));
    assert_eq!(Scalar(7).sub(Scalar(7)), Scalar(0));
}

#[test]
fn mul_reduces() {
    assert_eq!(Scalar(7).mul(Scalar(10)), Scalar(1));
    assert_eq!(Scalar(22).mul(Scalar(22)), Scalar(1));
}

#[test]
fn results_stay_in_field() {
    for a in 0..PRIME {
        for b in 0..PRIME {
            for r in [Scalar(a).add(Scalar(b)), Scalar(a).sub(Scalar(b)), Scalar(a).mul(Scalar(b))] {
                assert!(0 <= r.0 && r.0 < PRIME);
            }
        }
    }
}

#[test]
fn rem_normalises_negative_values() {
    assert_eq!(Scalar(-5).rem(Scalar(PRIME)), Scalar(18));
    assert_eq!(Scalar(-23).rem(Scalar(PRIME)), Scalar(0));
    assert_eq!(Scalar(123456).rem(Scalar(PRIME)), Scalar(15));
}

#[test]
fn additive_inverse_sums_to_zero() {
    assert_eq!(Scalar(5).add_inverse(), Scalar(18));
    assert_eq!(Scalar(0).add_inverse(), Scalar(0));
    for a in 0..PRIME {
        assert_eq!(Scalar(a).add(Scalar(a).add_inverse()), Scalar(0));
    }
}

#[test]
fn multiplicative_inverse_of_every_nonzero_element() {
    assert_eq!(Scalar(7).mul_inverse(), Ok(Scalar(10)));
    for a in 1..PRIME {
        let x = Scalar(a).mul_inverse().unwrap();
        assert_eq!(Scalar(a).mul(x), Scalar(1));
    }
}

#[test]
fn zero_has_no_inverse() {
    assert_eq!(Scalar(0).mul_inverse(), Err(FieldError::NoInverse));
    assert_eq!(Scalar(4).div(Scalar(0)), Err(FieldError::NoInverse));
}

#[test]
fn div_multiplies_by_the_inverse() {
    assert_eq!(Scalar(1).div(Scalar(7)), Ok(Scalar(10)));
    assert_eq!(Scalar(14).div(Scalar(7)), Ok(Scalar(2)));
}

#[test]
fn binary_is_most_significant_first() {
    assert_eq!(Scalar(6).binary(), vec![true, true, false]);
    assert_eq!(Scalar(1).binary(), vec![true]);
    assert_eq!(Scalar(0).binary(), Vec::<bool>::new());
}
