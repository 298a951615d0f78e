use mathkit::discrete::combination;
use mathkit::discrete::factorial;
use mathkit::discrete::permutation;
use mathkit::numbers::Abs;
use mathkit::numbers::Power;
use mathkit::numbers::Round;
use mathkit::rat::Rat;

#[test]
fn test_factorial() {
    let cases: Vec<(u32, u32)> = vec![
        (0, 1),
        (1, 1),
        (2, 2),
        (3, 6),
        (4, 24),
        (5, 120),
        (6, 720),
        (7, 5040),
    ];
    for (input, expected) in cases {
        assert_eq!(expected, factorial(input));
    }
}

#[test]
fn test_combination() {
    let cases: Vec<(u32, u32, u32)> = vec![(5, 3, 10), (7, 3, 35), (6, 2, 15), (8, 4, 70)];
    for (n, k, expected) in cases {
        assert_eq!(expected, combination(n, k));
    }
}

#[test]
fn test_permutation() {
    let cases: Vec<(u32, u32, u32)> = vec![(5, 3, 60), (7, 3, 210), (6, 2, 30), (8, 4, 1680)];
    for (n, k, expected) in cases {
        assert_eq!(expected, permutation(n, k));
    }
}

#[test]
fn test_abs_integers() {
    assert_eq!((-5i32).abs(), 5);
    assert_eq!(7i32.abs(), 7);
    assert_eq!((-5i64).abs(), 5);
}

#[test]
fn test_abs_rational() {
    let x = Rat::new(-3, 4);
    assert!(Abs::abs(&x).eqv(&Rat::new(3, 4)));
}

#[test]
fn test_round_rational() {
    assert!(Rat::new(5, 2).round().eqv(&Rat::from_int(3)));
    assert!(Rat::new(-5, 2).round().eqv(&Rat::from_int(-3)));
    assert!(Rat::new(7, 5).round().eqv(&Rat::from_int(1)));
    assert!(Rat::new(8, 5).round().eqv(&Rat::from_int(2)));
    assert!(Rat::from_int(4).round().eqv(&Rat::from_int(4)));
}

#[test]
fn test_powi_rational() {
    let x = Rat::new(1, 2);
    assert!(x.powi(2).unwrap().eqv(&Rat::new(1, 4)));
    assert!(x.powi(-2).unwrap().eqv(&Rat::from_int(4)));
    assert!(x.powi(0).unwrap().eqv(&Rat::from_int(1)));
    assert!(Rat::from_int(-2).powi(3).unwrap().eqv(&Rat::from_int(-8)));
    assert!(Rat::from_int(0).powi(-1).is_none());
}

#[test]
fn test_rat_arithmetic_exact() {
    let a = Rat::new(1, 3);
    let b = Rat::new(1, 6);
    assert!(a.add(&b).unwrap().eqv(&Rat::new(1, 2)));
    assert!(a.sub(&b).unwrap().eqv(&Rat::new(1, 6)));
    assert!(a.mul(&b).unwrap().eqv(&Rat::new(1, 18)));
    assert!(a.div(&b).unwrap().eqv(&Rat::from_int(2)));
    assert!(a.div(&Rat::from_int(0)).is_none());
}

#[test]
fn test_rat_overflow_reported() {
    let big = Rat::from_int(i64::MAX);
    assert!(big.mul(&big).is_none());
    assert!(big.add(&Rat::from_int(1)).is_none());
}

#[test]
fn test_rat_sqrt() {
    let m = Rat::from_int(2).sqrt_approx();
    let v = m.num() as f64 / m.den() as f64;
    assert!((v - 1.4142135623730951).abs() <= 1e-5);
    assert!(Rat::from_int(0).sqrt_approx().eqv(&Rat::from_int(0)));
    assert!(Rat::from_int(9).sqrt_approx().eqv(&Rat::from_int(3)));
}
