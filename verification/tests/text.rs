use equate::rational::Rational;
use equate::text::{decimal_string, rational_string};

#[test]
fn decimal_digits() {
    assert_eq!(decimal_string(0), "0");
    assert_eq!(decimal_string(7), "7");
    assert_eq!(decimal_string(1234), "1234");
    assert_eq!(decimal_string(u128::MAX), u128::MAX.to_string());
}

#[test]
fn fractions_as_text() {
    assert_eq!(rational_string(Rational { num: 14, den: 1 }), "14");
    assert_eq!(rational_string(Rational { num: 13, den: 4 }), "3.25");
    assert_eq!(rational_string(Rational { num: 24, den: 3 }), "8");
    assert_eq!(rational_string(Rational { num: 6, den: 4 }), "1.5");
    assert_eq!(rational_string(Rational { num: 0, den: 5 }), "0");
    assert_eq!(rational_string(Rational { num: 1, den: 8 }), "0.125");
    assert_eq!(rational_string(Rational { num: 7, den: 20 }), "0.35");
    assert_eq!(rational_string(Rational { num: 3, den: 1000 }), "0.003");
}

#[test]
fn endless_fractions_stay_fractions() {
    assert_eq!(rational_string(Rational { num: 1, den: 3 }), "1/3");
    assert_eq!(rational_string(Rational { num: 10, den: 6 }), "5/3");
    assert_eq!(rational_string(Rational { num: 1, den: u128::MAX }), format!("1/{}", u128::MAX));
}
