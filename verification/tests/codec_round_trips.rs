use rithm::big_int::BigInt;
use rithm::codec::{Endianness, ParseError};

fn bi(v: i64) -> BigInt {
    BigInt::from_i64(v)
}

#[test]
fn bytes_round_trip_both_endiannesses() {
    let samples: Vec<i64> = vec![
        0,
        1,
        -1,
        127,
        128,
        -128,
        -129,
        255,
        -255,
        256,
        -256,
        32767,
        -32768,
        1234567890123456789,
        -1234567890123456789,
    ];
    for &v in &samples {
        let x = bi(v);
        for e in [Endianness::Little, Endianness::Big] {
            let buf = x.to_bytes(e);
            let back = BigInt::from_bytes(&buf, e);
            assert!(back == x);
        }
    }
    // A value wider than any machine word.
    let big = bi(7).checked_pow(&bi(40)).unwrap().neg();
    for e in [Endianness::Little, Endianness::Big] {
        let buf = big.to_bytes(e);
        assert!(BigInt::from_bytes(&buf, e) == big);
    }
}

#[test]
fn bytes_concrete_encodings() {
    assert!(bi(0).to_bytes(Endianness::Little) == vec![0u8]);
    assert!(bi(1).to_bytes(Endianness::Little) == vec![1u8]);
    assert!(bi(-1).to_bytes(Endianness::Little) == vec![255u8]);
    // 128 needs a zero pad so the sign bit reads as positive.
    assert!(bi(128).to_bytes(Endianness::Little) == vec![128u8, 0u8]);
    assert!(bi(-128).to_bytes(Endianness::Little) == vec![128u8]);
    assert!(bi(-129).to_bytes(Endianness::Little) == vec![127u8, 255u8]);
    assert!(bi(258).to_bytes(Endianness::Little) == vec![2u8, 1u8]);
    assert!(bi(258).to_bytes(Endianness::Big) == vec![1u8, 2u8]);
}

#[test]
fn parse_inferred_radix() {
    // The numeral "-0x1_f" with an inferred radix is -31.
    let x = BigInt::from_str_radix("-0x1_f", 0).unwrap();
    assert!(x == bi(-31));
    assert!(BigInt::from_str_radix("0b101", 0).unwrap() == bi(5));
    assert!(BigInt::from_str_radix("0o17", 0).unwrap() == bi(15));
    assert!(BigInt::from_str_radix("42", 0).unwrap() == bi(42));
    assert!(BigInt::from_str_radix("+42", 0).unwrap() == bi(42));
    assert!(BigInt::from_str_radix("0", 0).unwrap() == bi(0));
}

#[test]
fn parse_explicit_radix() {
    assert!(BigInt::from_str_radix("ff", 16).unwrap() == bi(255));
    assert!(BigInt::from_str_radix("0xff", 16).unwrap() == bi(255));
    assert!(BigInt::from_str_radix("-101", 2).unwrap() == bi(-5));
    assert!(BigInt::from_str_radix("z", 36).unwrap() == bi(35));
    assert!(BigInt::from_str_radix("1_000_000", 10).unwrap() == bi(1000000));
}

#[test]
fn parse_errors() {
    assert!(BigInt::from_str_radix("12", 1) == Err(ParseError::InvalidRadix));
    assert!(BigInt::from_str_radix("12", 37) == Err(ParseError::InvalidRadix));
    assert!(BigInt::from_str_radix("1__2", 10) == Err(ParseError::ConsecutiveSeparators));
    assert!(BigInt::from_str_radix("_1", 10) == Err(ParseError::LeadingSeparator));
    assert!(BigInt::from_str_radix("1_", 10) == Err(ParseError::TrailingSeparator));
    assert!(BigInt::from_str_radix("g", 16) == Err(ParseError::InvalidDigit));
    assert!(BigInt::from_str_radix("", 10) == Err(ParseError::InvalidDigit));
    assert!(BigInt::from_str_radix("-", 10) == Err(ParseError::InvalidDigit));
    assert!(BigInt::from_str_radix("2", 2) == Err(ParseError::InvalidDigit));
}

#[test]
fn format_decimal() {
    assert!(bi(0).to_string() == "0");
    assert!(bi(42).to_string() == "42");
    assert!(bi(-31).to_string() == "-31");
    assert!(bi(-31).to_string_radix(16) == "-1f");
    assert!(bi(5).to_string_radix(2) == "101");
}

#[test]
fn format_large_decimal_round_trip() {
    // 10^21 formats and parses back exactly.
    let x = bi(10).checked_pow(&bi(21)).unwrap();
    let text = x.to_string();
    assert!(text == "1000000000000000000000");
    let back = BigInt::from_str_radix(&text, 10).unwrap();
    assert!(back == x);
}

#[test]
fn format_parse_round_trip_every_radix() {
    let samples: Vec<i64> = vec![0, 1, -1, 36, -37, 123456789, -987654321];
    for radix in 2u32..=36 {
        for &v in &samples {
            let x = bi(v);
            let text = x.to_string_radix(radix);
            let back = BigInt::from_str_radix(&text, radix).unwrap();
            assert!(back == x);
        }
    }
}

#[test]
fn error_descriptions() {
    assert!(ParseError::InvalidRadix.description() == "Radix should be zero or in range from 2 to 36.");
    assert!(ParseError::InvalidDigit.description() == "Invalid digit for the given radix.");
}
