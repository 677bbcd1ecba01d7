use linalg::frac::Frac;
use linalg::common::{factorial, truncate_zeroes, truncate_zeroes_bytes};
use linalg::convert::Convertable;
use linalg::scalar::{MagScalar, NormScalar, Scalar, TextScalar};

fn q(n: i64, d: i64) -> Frac {
    Frac::new(n, d)
}

#[test]
fn frac_new_normalises_sign_and_zero() {
    let a = q(1, -2);
    assert_eq!(a.numerator(), -1);
    assert_eq!(a.denominator(), 2);
    let z = q(0, 5);
    assert_eq!(z.numerator(), 0);
    assert_eq!(z.denominator(), 1);
    let bad = q(3, 0);
    assert_eq!(bad.numerator(), 0);
    assert_eq!(bad.denominator(), 1);
}

#[test]
fn frac_arithmetic_exact() {
    let a = q(1, 2);
    let b = q(1, 3);
    let s = a.add(b);
    assert!(s.eq_value(&q(5, 6)));
    let d = a.sub(b);
    assert!(d.eq_value(&q(1, 6)));
    let p = a.mul(b);
    assert!(p.eq_value(&q(1, 6)));
    let r = a.div(b);
    assert!(r.eq_value(&q(3, 2)));
    let n = a.neg();
    assert!(n.eq_value(&q(-1, 2)));
    assert!(Frac::from_int(7).eq_value(&q(7, 1)));
    assert!(Frac::zero().is_zero());
    assert!(!Frac::one().is_zero());
}

#[test]
fn frac_division_by_zero_falls_back_to_zero() {
    let a = q(3, 4);
    let r = a.div(Frac::zero());
    assert!(r.is_zero());
}

#[test]
fn frac_magnitude_comparison() {
    assert!(q(-3, 2).abs_gt(&q(1, 1)));
    assert!(!q(1, 2).abs_gt(&q(1, 2)));
    assert!(q(5, 1).abs_gt(&q(-4, 1)));
}

#[test]
fn frac_signum_and_sqrt() {
    assert_eq!(q(3, 4).signum(), Frac::one());
    assert_eq!(q(0, 1).signum(), Frac::one());
    assert_eq!(q(-3, 4).signum(), q(-1, 1));
    // sqrt(9) = 3 exactly; sqrt(2) floors to 1; sqrt of a negative is zero
    assert!(q(9, 1).sqrt().eq_value(&q(3, 1)));
    assert!(q(2, 1).sqrt().eq_value(&q(1, 1)));
    assert!(q(-4, 1).sqrt().is_zero());
    // sqrt(9/4) = isqrt(36)/4 = 6/4 = 3/2
    assert!(q(9, 4).sqrt().eq_value(&q(3, 2)));
}

#[test]
fn frac_text_round_trip() {
    let a = q(-7, 3);
    let t = a.to_text();
    assert_eq!(t, b"-7/3".to_vec());
    let back = Frac::from_text(&t).unwrap();
    assert_eq!(back, a);
    let b = q(42, 1);
    assert_eq!(b.to_text(), b"42".to_vec());
    assert_eq!(Frac::from_text(b"42").unwrap(), b);
    assert!(Frac::from_text(b"").is_none());
    assert!(Frac::from_text(b"x").is_none());
    assert!(Frac::from_text(b"1/2/3").is_none());
}

#[test]
fn factorial_values() {
    assert_eq!(factorial(0), 1);
    assert_eq!(factorial(1), 1);
    assert_eq!(factorial(5), 120);
    assert_eq!(factorial(20), 2432902008176640000);
    assert_eq!(factorial(-3), 1);
}

#[test]
fn truncation_cuts_after_ten_zeroes() {
    // the run counter only engages after a nonzero digit past the separator
    let s = String::from("0.30000000000000004");
    assert_eq!(truncate_zeroes(s), String::from("0.30000000000"));
    let untouched = String::from("0.000000000000000004");
    assert_eq!(truncate_zeroes(untouched.clone()), untouched);
    let plain = String::from("1234567890123");
    assert_eq!(truncate_zeroes(plain.clone()), plain);
}

#[test]
fn truncation_applies_to_the_shortest_float_text() {
    let noisy = format!("{}", 0.1f64 + 0.2f64);
    assert_eq!(noisy, "0.30000000000000004");
    assert_eq!(truncate_zeroes(noisy), "0.30000000000");
}

#[test]
fn truncation_bytes_matches_rule() {
    assert_eq!(
        truncate_zeroes_bytes(b"2.10000000000500".to_vec()),
        b"2.10000000000".to_vec()
    );
    assert_eq!(truncate_zeroes_bytes(b"-7/3".to_vec()), b"-7/3".to_vec());
}

#[test]
fn integer_codec_round_trip() {
    let n: i64 = -9223372036854775808;
    let t = n.to_bytes();
    assert_eq!(t, b"-9223372036854775808".to_vec());
    assert_eq!(i64::from_bytes(&t).unwrap(), n);
    let u: usize = 18446744073709551615;
    assert_eq!(usize::from_bytes(&u.to_bytes()).unwrap(), u);
    assert_eq!(
        i64::from_bytes(b"twelve").unwrap_err(),
        "Unable to parse integer"
    );
    assert!(usize::from_bytes(b"-3").is_err());
}
