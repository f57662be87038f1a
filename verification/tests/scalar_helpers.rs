use rithm::big_int::BigInt;
use rithm::fraction::Fraction;
use rithm::traits::{Abs, CheckedDiv, Gcd, ModularSub, Modulo, Oppositive, Unitary, Zeroable};
use rithm::utils::{floor_log, floor_log2, gcd, power};

#[test]
fn word_gcd() {
    assert!(gcd(12, 18) == 6);
    assert!(gcd(18, 12) == 6);
    assert!(gcd(7, 0) == 7);
    assert!(gcd(0, 0) == 0);
    assert!(gcd(17, 5) == 1);
}

#[test]
fn floor_logarithms() {
    assert!(floor_log(1, 10) == Ok(0));
    assert!(floor_log(9, 10) == Ok(0));
    assert!(floor_log(10, 10) == Ok(1));
    assert!(floor_log(99, 10) == Ok(1));
    assert!(floor_log(100, 10) == Ok(2));
    assert!(floor_log(0, 10).is_err());
    assert!(floor_log2(1) == Ok(0));
    assert!(floor_log2(1024) == Ok(10));
    assert!(floor_log2(1023) == Ok(9));
    assert!(floor_log2(0).is_err());
}

#[test]
fn word_power() {
    assert!(power(3, 4) == 81);
    assert!(power(10, 0) == 1);
    assert!(power(0, 3) == 0);
    assert!(power(2, 20) == 1048576);
}

#[test]
fn capability_traits_on_words() {
    assert!(<u64 as Zeroable>::zero() == 0);
    assert!(Zeroable::is_zero(&0u64));
    assert!(!Zeroable::is_zero(&3u64));
    assert!(<i64 as Unitary>::one() == 1);
    assert!(Unitary::is_one(&1i64));
    assert!(Oppositive::is_negative(&-4i64));
    assert!(Oppositive::is_positive(&4i64));
    assert!(Abs::abs(-4i64) == 4);
    assert!(Gcd::gcd(12u64, 18u64) == 6);
    assert!(CheckedDiv::checked_div(7u64, 2u64) == Some(3));
    assert!(CheckedDiv::checked_div(7u64, 0u64).is_none());
    assert!(Modulo::modulo(7u64, 3u64) == 1);
    assert!(ModularSub::wrapping_sub(3u64, 5u64) == u64::MAX - 1);
    assert!(ModularSub::wrapping_sub(5u64, 3u64) == 2);
}

#[test]
fn capability_traits_on_values() {
    let zero: BigInt = Zeroable::zero();
    assert!(zero.is_zero());
    let one: BigInt = Unitary::one();
    assert!(Unitary::is_one(&one));
    assert!(Oppositive::is_negative(&BigInt::from_i64(-2)));
    assert!(Oppositive::is_positive(&BigInt::from_i64(2)));
    let a = Abs::abs(BigInt::from_i64(-9));
    assert!(a == BigInt::from_i64(9));
    let g = Gcd::gcd(BigInt::from_i64(12), BigInt::from_i64(-18));
    assert!(g == BigInt::from_i64(6));
    let q = CheckedDiv::checked_div(BigInt::from_i64(7), BigInt::from_i64(-2));
    assert!(q == Some(BigInt::from_i64(-3)));
    let fz: Fraction = Zeroable::zero();
    assert!(fz.is_zero());
    let fo: Fraction = Unitary::one();
    assert!(Unitary::is_one(&fo));
    let fa = Abs::abs(Fraction::new(BigInt::from_i64(-3), BigInt::from_i64(2)).unwrap());
    assert!(*fa.numerator() == BigInt::from_i64(3));
}
