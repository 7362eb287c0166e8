use ecc_toy::{Curve, Point, Scalar, PRIME};

fn pt(x: i32, y: i32) -> Point {
    Point { x: Scalar(x), y: Scalar(y) }
}

fn generator() -> Point {
    pt(9, 5)
}

#[test]
fn generator_lies_on_curve() {
    let (x, y) = (Scalar(9), Scalar(5));
    let rhs = x.mul(x).mul(x).add(x);
    assert_eq!(y.mul(y), rhs);
    assert_eq!(5 * 5 % 23, (9 * 9 * 9 + 9) % 23);
}

#[test]
fn identity_is_neutral() {
    let o = Point::identity();
    assert_eq!(o, pt(0, 0));
    for p in [generator(), pt(18, 10), pt(3, 7)] {
        assert_eq!(p.add(o), p);
        assert_eq!(o.add(p), p);
    }
}

#[test]
fn doubling_the_generator() {
    assert_eq!(generator().add(generator()), pt(18, 10));
}

#[test]
fn vertical_chord_and_tangent_give_identity() {
    assert_eq!(pt(9, 5).add(pt(9, 18)), Point::identity());
    assert_eq!(pt(4, 0).add(pt(4, 0)), Point::identity());
}

#[test]
fn point_additive_inverse_negates_y() {
    assert_eq!(generator().add_inverse(), pt(9, 18));
    assert_eq!(pt(4, 0).add_inverse(), pt(4, 0));
}

#[test]
fn scalar_multiples_of_generator() {
    let g = generator();
    assert_eq!(g.mul(Scalar(0)), Point::identity());
    assert_eq!(g.mul(Scalar(1)), g);
    assert_eq!(g.mul(Scalar(2)), g.add(g));
    assert_eq!(g.mul(Scalar(4)), pt(18, 13));
    assert_eq!(g.mul(Scalar(5)), pt(9, 18));
}

#[test]
fn two_times_is_self_sum() {
    for p in [generator(), pt(18, 13), pt(1, 1), pt(6, 5)] {
        assert_eq!(p.mul(Scalar(2)), p.add(p));
    }
}

#[test]
fn stated_order_times_generator() {
    // The stated order 23 is not the order of (9, 5) under this group law.
    assert_eq!(generator().mul(Scalar(23)), pt(18, 10));
}

#[test]
fn random_numbers_stay_in_range() {
    let curve = Curve::new();
    for _ in 0..200 {
        let k = curve.random_number();
        assert!(1 <= k.0 && k.0 < 23);
    }
}

#[test]
fn keypair_public_key_is_multiple_of_generator() {
    let curve = Curve::new();
    for _ in 0..20 {
        let (d, q) = curve.generate_keypair();
        assert!(1 <= d.0 && d.0 < 23);
        assert_eq!(q, generator().mul(d));
    }
}

#[test]
fn sign_with_fixed_nonce() {
    let curve = Curve::new();
    assert_eq!(curve.sign_with_nonce(Scalar(7), Scalar(15), Scalar(20)), Some(pt(18, 22)));
    assert_eq!(curve.sign_with_nonce(Scalar(7), Scalar(15), Scalar(11)), Some(pt(18, 17)));
    // 3 * g is the identity, so r would be zero.
    assert_eq!(curve.sign_with_nonce(Scalar(7), Scalar(15), Scalar(3)), None);
}

#[test]
fn signature_round_trip_fixed_nonce() {
    let curve = Curve::new();
    let d = Scalar(7);
    let q = generator().mul(d);
    assert_eq!(q, pt(18, 13));
    let z = Scalar(123456).rem(Scalar(PRIME));
    let sig = curve.sign_with_nonce(d, z, Scalar(20)).unwrap();
    assert!(curve.verify(q, z, sig));
}

#[test]
fn tampered_signature_is_rejected() {
    let curve = Curve::new();
    let q = pt(18, 13);
    let z = Scalar(15);
    let sig = pt(18, 22);
    assert!(curve.verify(q, z, sig));
    assert!(!curve.verify(q, z, pt(18 ^ 1, 22)));
    assert!(!curve.verify(q, z, pt(18, 22 ^ 1)));
    assert!(!curve.verify(generator().mul(Scalar(8)), z, sig));
}

#[test]
fn out_of_range_components_are_rejected() {
    let curve = Curve::new();
    let q = pt(18, 13);
    let z = Scalar(15);
    assert!(!curve.verify(q, z, pt(0, 22)));
    assert!(!curve.verify(q, z, pt(18, 0)));
    assert!(!curve.verify(q, z, pt(18, 23)));
    assert!(!curve.verify(q, z, pt(-1, 22)));
}

#[test]
fn sign_returns_a_nonce_signature() {
    let curve = Curve::new();
    let (d, _) = curve.generate_keypair();
    let z = Scalar(15);
    let sig = curve.sign(d, z).unwrap();
    assert!(sig.x.0 != 0 && sig.y.0 != 0);
    assert!((1..23).any(|k| curve.sign_with_nonce(d, z, Scalar(k)) == Some(sig)));
}

#[test]
fn dh_is_symmetric_for_all_secrets() {
    let g = generator();
    for a in 1..23 {
        for b in 1..23 {
            let (pa, pb) = (g.mul(Scalar(a)), g.mul(Scalar(b)));
            assert_eq!(Curve::dh(Scalar(a), pb), Curve::dh(Scalar(b), pa));
        }
    }
}

#[test]
fn dh_is_symmetric_for_generated_keys() {
    let curve = Curve::new();
    for _ in 0..20 {
        let (a, pa) = curve.generate_keypair();
        let (b, pb) = curve.generate_keypair();
        assert_eq!(Curve::dh(a, pb), Curve::dh(b, pa));
    }
}

#[test]
fn dh_takes_x_coordinate() {
    assert_eq!(Curve::dh(Scalar(2), generator()), Scalar(18));
}
