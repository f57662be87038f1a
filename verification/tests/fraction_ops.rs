use rithm::big_int::BigInt;
use rithm::fraction::{Fraction, FromFloatConversionError};

fn bi(v: i64) -> BigInt {
    BigInt::from_i64(v)
}

fn fr(n: i64, d: i64) -> Fraction {
    Fraction::new(bi(n), bi(d)).unwrap()
}

fn reduced(f: &Fraction) {
    // The invariant every operation promises: positive denominator, lowest
    // terms.
    assert!(f.denominator().is_positive());
    let g = f.numerator().gcd(f.denominator());
    assert!(g == bi(1));
}

#[test]
fn new_reduces_to_lowest_terms() {
    let f = fr(6, 4);
    assert!(*f.numerator() == bi(3));
    assert!(*f.denominator() == bi(2));
    reduced(&f);
    let f = fr(6, -4);
    assert!(*f.numerator() == bi(-3));
    assert!(*f.denominator() == bi(2));
    reduced(&f);
    let f = fr(0, 7);
    assert!(*f.numerator() == bi(0));
    assert!(*f.denominator() == bi(1));
    reduced(&f);
    assert!(Fraction::new(bi(1), bi(0)).is_none());
}

#[test]
fn arithmetic_keeps_the_invariant() {
    // 1/2 + 1/3 == 5/6
    let a = fr(1, 2);
    let b = fr(1, 3);
    let s = a.add(&b);
    assert!(*s.numerator() == bi(5));
    assert!(*s.denominator() == bi(6));
    reduced(&s);
    // 1/2 - 1/3 == 1/6
    let d = a.sub(&b);
    assert!(*d.numerator() == bi(1));
    assert!(*d.denominator() == bi(6));
    reduced(&d);
    // 2/3 * 9/4 == 3/2
    let p = fr(2, 3).mul(&fr(9, 4));
    assert!(*p.numerator() == bi(3));
    assert!(*p.denominator() == bi(2));
    reduced(&p);
    // (3/4) / (-9/8) == -2/3
    let q = fr(3, 4).checked_div(&fr(-9, 8)).unwrap();
    assert!(*q.numerator() == bi(-2));
    assert!(*q.denominator() == bi(3));
    reduced(&q);
    assert!(fr(1, 2).checked_div(&fr(0, 1)).is_none());
}

#[test]
fn negation_and_absolute_value() {
    let f = fr(-3, 2);
    let n = f.neg();
    assert!(*n.numerator() == bi(3));
    reduced(&n);
    let a = f.abs();
    assert!(*a.numerator() == bi(3));
    assert!(*a.denominator() == bi(2));
    reduced(&a);
}

#[test]
fn power_with_negative_exponent_inverts() {
    // (2/3)^-2 == 9/4
    let f = fr(2, 3).checked_pow(&bi(-2)).unwrap();
    assert!(*f.numerator() == bi(9));
    assert!(*f.denominator() == bi(4));
    reduced(&f);
    // (-2/3)^3 == -8/27
    let f = fr(-2, 3).checked_pow(&bi(3)).unwrap();
    assert!(*f.numerator() == bi(-8));
    assert!(*f.denominator() == bi(27));
    reduced(&f);
    assert!(fr(0, 1).checked_pow(&bi(-1)).is_none());
    let one = fr(5, 7).checked_pow(&bi(0)).unwrap();
    assert!(one.is_one());
}

#[test]
fn rounding_toward_integers() {
    assert!(fr(7, 2).floor() == bi(3));
    assert!(fr(7, 2).ceil() == bi(4));
    assert!(fr(7, 2).trunc() == bi(3));
    assert!(fr(-7, 2).floor() == bi(-4));
    assert!(fr(-7, 2).ceil() == bi(-3));
    assert!(fr(-7, 2).trunc() == bi(-3));
    assert!(fr(6, 2).floor() == bi(3));
    assert!(fr(6, 2).ceil() == bi(3));
}

#[test]
fn euclidean_division_of_fractions() {
    // (7/2) divided by (3/2): quotient 2, remainder 1/2.
    let a = fr(7, 2);
    let b = fr(3, 2);
    let q = a.checked_div_euclid(&b).unwrap();
    assert!(q == bi(2));
    let r = a.checked_rem_euclid(&b).unwrap();
    assert!(*r.numerator() == bi(1));
    assert!(*r.denominator() == bi(2));
    reduced(&r);
    assert!(a.checked_div_euclid(&fr(0, 1)).is_none());
    assert!(a.checked_rem_euclid(&fr(0, 1)).is_none());
}

#[test]
fn comparisons_by_cross_multiplication() {
    assert!(fr(1, 3).lt(&fr(1, 2)));
    assert!(fr(1, 2).gt(&fr(1, 3)));
    assert!(fr(2, 4).le(&fr(1, 2)));
    assert!(fr(2, 4).ge(&fr(1, 2)));
    assert!(fr(-1, 2).lt(&fr(1, 1000)));
}

#[test]
fn float_components() {
    // 0.75 == 3 * 2^-2
    let f = Fraction::from_float_components(3, -2).unwrap();
    assert!(*f.numerator() == bi(3));
    assert!(*f.denominator() == bi(4));
    reduced(&f);
    // 6 * 2^-1 reduces to 3.
    let f = Fraction::from_float_components(6, -1).unwrap();
    assert!(*f.numerator() == bi(3));
    assert!(*f.denominator() == bi(1));
    // 5 * 2^3 == 40
    let f = Fraction::from_float_components(5, 3).unwrap();
    assert!(*f.numerator() == bi(40));
    assert!(*f.denominator() == bi(1));
}

#[test]
fn float_error_descriptions() {
    assert!(FromFloatConversionError::Infinity.description()
        == "Conversion of infinity is undefined.");
    assert!(FromFloatConversionError::NaN.description() == "Conversion of NaN is undefined.");
}

#[test]
fn decimal_text() {
    assert!(fr(3, 2).to_string() == "3/2");
    assert!(fr(-6, 4).to_string() == "-3/2");
    assert!(fr(8, 4).to_string() == "2");
    assert!(fr(0, 5).to_string() == "0");
}

#[test]
fn unit_and_zero() {
    assert!(Fraction::zero().is_zero());
    assert!(Fraction::one().is_one());
    assert!(!Fraction::one().is_zero());
    let whole = Fraction::from_int(bi(-9));
    assert!(*whole.numerator() == bi(-9));
    assert!(*whole.denominator() == bi(1));
}
