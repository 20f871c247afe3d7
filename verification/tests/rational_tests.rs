use lp_simplex::rational::Rat;
use lp_simplex::render::decimal_string;

fn rat(num: i64, den: i64) -> Rat {
    Rat::new(num, den).unwrap()
}

#[test]
fn test_new_reduces_to_lowest_terms() {
    let r = rat(2, 4);
    assert_eq!(r.numerator(), 1);
    assert_eq!(r.denominator(), 2);
}

#[test]
fn test_new_normalizes_sign() {
    let r = rat(1, -2);
    assert_eq!(r.numerator(), -1);
    assert_eq!(r.denominator(), 2);
}

#[test]
fn test_new_zero_denominator() {
    assert!(Rat::new(1, 0).is_none());
}

#[test]
fn test_addition() {
    let r = rat(1, 2).checked_add(&rat(1, 3)).unwrap();
    assert_eq!(r.numerator(), 5);
    assert_eq!(r.denominator(), 6);
}

#[test]
fn test_subtraction() {
    let r = rat(1, 2).checked_sub(&rat(1, 3)).unwrap();
    assert_eq!(r.numerator(), 1);
    assert_eq!(r.denominator(), 6);
}

#[test]
fn test_multiplication() {
    let r = rat(2, 3).checked_mul(&rat(9, 4)).unwrap();
    assert_eq!(r.numerator(), 3);
    assert_eq!(r.denominator(), 2);
}

#[test]
fn test_division() {
    let r = rat(1, 2).checked_div(&rat(3, 4)).unwrap();
    assert_eq!(r.numerator(), 2);
    assert_eq!(r.denominator(), 3);
}

#[test]
fn test_division_by_negative() {
    let r = rat(1, 2).checked_div(&rat(-3, 4)).unwrap();
    assert_eq!(r.numerator(), -2);
    assert_eq!(r.denominator(), 3);
}

#[test]
fn test_overflow_is_reported() {
    let big = Rat::from_int(i64::MAX);
    assert!(big.checked_add(&big).is_none());
}

#[test]
fn test_comparisons() {
    assert!(rat(1, 3).lt(&rat(1, 2)));
    assert!(rat(1, 2).le(&rat(1, 2)));
    assert!(rat(2, 4).eq_rat(&rat(1, 2)));
    assert!(rat(-1, 2).is_neg());
    assert!(rat(1, 2).is_pos());
    assert!(Rat::zero().is_zero());
}

#[test]
fn test_negation() {
    let r = rat(3, 4).neg();
    assert_eq!(r.numerator(), -3);
    assert_eq!(r.denominator(), 4);
}

#[test]
fn test_decimal_string() {
    assert_eq!(decimal_string(0), "0");
    assert_eq!(decimal_string(7), "7");
    assert_eq!(decimal_string(123), "123");
    assert_eq!(decimal_string(1000), "1000");
}

#[test]
fn test_rat_decimal_rendering() {
    assert_eq!(Rat::from_int(1).to_decimal_string(), "1.00");
    assert_eq!(rat(-1, 2).to_decimal_string(), "-0.50");
    assert_eq!(rat(1, 3).to_decimal_string(), "0.33");
    assert_eq!(rat(2, 3).to_decimal_string(), "0.67");
    assert_eq!(rat(19, 1).to_decimal_string(), "19.00");
}
