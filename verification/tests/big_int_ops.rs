use rithm::big_int::{BigInt, LeftShiftError, RightShiftError};
use rithm::extras::hash;

fn bi(v: i64) -> BigInt {
    BigInt::from_i64(v)
}

#[test]
fn add_sub_cancel() {
    let samples: Vec<i64> = vec![0, 1, -1, 255, -256, 65536, 123456789012345, -987654321098765];
    for &a in &samples {
        for &b in &samples {
            let sum = bi(a).add(&bi(b));
            let back = sum.sub(&bi(b));
            assert!(back == bi(a));
        }
    }
}

#[test]
fn mul_commutes() {
    let samples: Vec<i64> = vec![0, 1, -1, 7, -13, 100000, -123456789];
    for &a in &samples {
        for &b in &samples {
            assert!(bi(a).mul(&bi(b)) == bi(b).mul(&bi(a)));
        }
    }
}

#[test]
fn add_associates() {
    let samples: Vec<i64> = vec![0, 5, -7, 1000000007, -999999999];
    for &a in &samples {
        for &b in &samples {
            for &c in &samples {
                let left = bi(a).add(&bi(b)).add(&bi(c));
                let right = bi(a).add(&bi(b).add(&bi(c)));
                assert!(left == right);
            }
        }
    }
}

#[test]
fn large_multiplication() {
    // 2^64 * 2^64 == 2^128, built without machine-word limits.
    let two_64 = bi(2).checked_pow(&bi(64)).unwrap();
    let product = two_64.mul(&two_64);
    let two_128 = bi(2).checked_pow(&bi(128)).unwrap();
    assert!(product == two_128);
}

#[test]
fn truncating_div_rem() {
    // The remainder carries the dividend's sign; the quotient rounds toward
    // zero: a == q*d + r and |r| < |d|.
    let cases: Vec<(i64, i64, i64, i64)> = vec![
        (7, 2, 3, 1),
        (7, -2, -3, 1),
        (-7, 2, -3, -1),
        (-7, -2, 3, -1),
        (6, 3, 2, 0),
        (0, 5, 0, 0),
    ];
    for &(a, d, q, r) in &cases {
        let (qq, rr) = bi(a).checked_div_rem(&bi(d)).unwrap();
        assert!(qq == bi(q));
        assert!(rr == bi(r));
    }
    assert!(bi(1).checked_div_rem(&bi(0)).is_none());
}

#[test]
fn euclidean_div_rem() {
    // The remainder is always in [0, |d|).
    let cases: Vec<(i64, i64, i64, i64)> = vec![
        (7, 2, 3, 1),
        (7, -2, -3, 1),
        (-7, 2, -4, 1),
        (-7, -2, 4, 1),
        (0, 3, 0, 0),
    ];
    for &(a, d, q, r) in &cases {
        let (qq, rr) = bi(a).checked_div_rem_euclid(&bi(d)).unwrap();
        assert!(qq == bi(q));
        assert!(rr == bi(r));
        let back = qq.mul(&bi(d)).add(&rr);
        assert!(back == bi(a));
    }
    assert!(bi(1).checked_div_rem_euclid(&bi(0)).is_none());
    assert!(bi(1).checked_rem_euclid(&bi(0)).is_none());
    let rem = bi(-7).checked_rem_euclid(&bi(2)).unwrap();
    assert!(rem == bi(1));
}

#[test]
fn gcd_laws() {
    assert!(bi(12).gcd(&bi(18)) == bi(6));
    assert!(bi(18).gcd(&bi(12)) == bi(6));
    assert!(bi(-12).gcd(&bi(18)) == bi(6));
    assert!(bi(-42).gcd(&bi(0)) == bi(42));
    assert!(bi(0).gcd(&bi(0)) == bi(0));
    let samples: Vec<i64> = vec![0, 4, -6, 35, 1000000];
    for &a in &samples {
        for &b in &samples {
            assert!(bi(a).gcd(&bi(b)) == bi(b).gcd(&bi(a)));
        }
    }
}

#[test]
fn pow_and_pow_mod() {
    assert!(bi(2).checked_pow(&bi(10)).unwrap() == bi(1024));
    assert!(bi(-3).checked_pow(&bi(3)).unwrap() == bi(-27));
    assert!(bi(5).checked_pow(&bi(0)).unwrap() == bi(1));
    assert!(bi(2).checked_pow(&bi(-1)).is_none());
    // Modular exponentiation agrees with repeated modular multiplication on
    // an exhaustive grid of small values.
    for b in 0i64..6 {
        for e in 0i64..6 {
            for m in 1i64..6 {
                let mut expected: i64 = 1 % m;
                for _ in 0..e {
                    expected = (expected * b) % m;
                }
                let got = bi(b).checked_pow_rem_euclid(&bi(e), &bi(m)).unwrap();
                assert!(got == bi(expected));
            }
        }
    }
    assert!(bi(2).checked_pow_rem_euclid(&bi(3), &bi(0)).is_none());
}

#[test]
fn pow_mod_negative_exponent() {
    // 2 * 3 == 6 == 1 (mod 5), so 2^-1 mod 5 is 3.
    let r = bi(2).checked_pow_rem_euclid(&bi(-1), &bi(5)).unwrap();
    assert!(r == bi(3));
    // 2 is not invertible modulo 4.
    assert!(bi(2).checked_pow_rem_euclid(&bi(-1), &bi(4)).is_none());
    // 3^-2 mod 5: inverse of 3 is 2, and 2^2 == 4.
    let r = bi(3).checked_pow_rem_euclid(&bi(-2), &bi(5)).unwrap();
    assert!(r == bi(4));
}

#[test]
fn shifts() {
    assert!(bi(5).checked_shl(&bi(3)).unwrap() == bi(40));
    assert!(bi(-5).checked_shl(&bi(1)).unwrap() == bi(-10));
    assert!(bi(40).checked_shr(&bi(3)).unwrap() == bi(5));
    // Arithmetic right shift floors toward negative infinity.
    assert!(bi(-5).checked_shr(&bi(1)).unwrap() == bi(-3));
    assert!(bi(-1).checked_shr(&bi(100)).unwrap() == bi(-1));
    assert!(bi(7).checked_shr(&bi(100)).unwrap() == bi(0));
    assert!(bi(1).checked_shl(&bi(-1)) == Err(LeftShiftError::NegativeShift));
    assert!(bi(1).checked_shr(&bi(-1)) == Err(RightShiftError::NegativeShift));
    let huge = bi(2).checked_pow(&bi(70)).unwrap();
    assert!(bi(1).checked_shl(&huge) == Err(LeftShiftError::TooLarge));
    assert!(LeftShiftError::NegativeShift.description() == "Shift by a negative step is undefined.");
    assert!(LeftShiftError::TooLarge.description() == "Too large shift step.");
    assert!(RightShiftError::NegativeShift.description() == "Shift by a negative step is undefined.");
}

#[test]
fn bitwise_matches_machine_words() {
    let samples: Vec<i64> = vec![0, 1, -1, 45, -23, 255, -256, 123456, -654321];
    for &a in &samples {
        for &b in &samples {
            assert!(bi(a).bitand(&bi(b)) == bi(a & b));
            assert!(bi(a).bitor(&bi(b)) == bi(a | b));
            assert!(bi(a).bitxor(&bi(b)) == bi(a ^ b));
        }
        assert!(bi(a).not() == bi(!a));
    }
}

#[test]
fn parity_and_sign_queries() {
    assert!(bi(4).is_even());
    assert!(!bi(4).is_odd());
    assert!(bi(-3).is_odd());
    assert!(bi(0).is_even());
    assert!(bi(0).is_zero());
    assert!(bi(-2).is_negative());
    assert!(bi(2).is_positive());
    assert!(bi(5).abs() == bi(5));
    assert!(bi(-5).abs() == bi(5));
    assert!(bi(-5).neg() == bi(5));
}

#[test]
fn comparisons() {
    assert!(bi(-2).lt(&bi(1)));
    assert!(bi(1).gt(&bi(-2)));
    assert!(bi(3).le(&bi(3)));
    assert!(bi(3).ge(&bi(3)));
    assert!(bi(3).cmp(&bi(3)) == 0);
    assert!(bi(-4).cmp(&bi(4)) == -1);
    assert!(bi(4).cmp(&bi(-4)) == 1);
}

#[test]
fn bit_length_and_power_of_two() {
    assert!(bi(0).bit_length() == bi(0));
    assert!(bi(1).bit_length() == bi(1));
    assert!(bi(255).bit_length() == bi(8));
    assert!(bi(256).bit_length() == bi(9));
    assert!(bi(-256).bit_length() == bi(9));
    let big = bi(2).checked_pow(&bi(100)).unwrap();
    assert!(big.bit_length() == bi(101));
    assert!(bi(1).is_power_of_two());
    assert!(bi(2).is_power_of_two());
    assert!(bi(1024).is_power_of_two());
    assert!(!bi(0).is_power_of_two());
    assert!(!bi(3).is_power_of_two());
    assert!(!bi(-4).is_power_of_two());
    assert!(big.is_power_of_two());
}

#[test]
fn remainder_to_nearest() {
    // round(x) to a multiple of 10: 15 rounds to 20 (tie to even quotient),
    // 14 rounds down, 16 rounds up.
    let r = bi(15).checked_rem_to_near(&bi(10)).unwrap();
    assert!(bi(15).sub(&r) == bi(20));
    let r = bi(14).checked_rem_to_near(&bi(10)).unwrap();
    assert!(bi(14).sub(&r) == bi(10));
    let r = bi(16).checked_rem_to_near(&bi(10)).unwrap();
    assert!(bi(16).sub(&r) == bi(20));
    let r = bi(25).checked_rem_to_near(&bi(10)).unwrap();
    assert!(bi(25).sub(&r) == bi(20));
    assert!(bi(1).checked_rem_to_near(&bi(0)).is_none());
}

#[test]
fn hash_is_value_determined() {
    assert!(hash(&bi(0)) == 0);
    assert!(hash(&bi(5)) == 5);
    assert!(hash(&bi(-5)) == 5u64.wrapping_neg());
    // The reserved all-ones word is remapped.
    assert!(hash(&bi(-1)) == u64::MAX - 1);
    // Consistent with equality across different ways of building a value.
    let a = bi(1000000007).mul(&bi(998244353));
    let b = bi(998244353).mul(&bi(1000000007));
    assert!(hash(&a) == hash(&b));
    // The fold reduces modulo 2^61 - 1.
    let m = bi(2).checked_pow(&bi(61)).unwrap().sub(&bi(1));
    assert!(hash(&m.add(&bi(7))) == 7);
}

#[test]
fn from_u64_and_i64_extremes() {
    assert!(BigInt::from_u64(u64::MAX).sub(&BigInt::from_u64(u64::MAX)) == bi(0));
    assert!(bi(i64::MIN).add(&bi(i64::MAX)) == bi(-1));
    assert!(bi(i64::MIN).neg().add(&bi(i64::MIN)) == bi(0));
}
