use radixshift::convert::{radixshift, ConvertError};
use radixshift::decode::{decode, DecodeError, Segment};
use radixshift::digits::digit_value;
use radixshift::encode::{check_target_base, encode, EncodeError};
use radixshift::value::CanonicalValue;

fn whole(n: u64) -> CanonicalValue {
    CanonicalValue::from_integer(n)
}

#[test]
fn decode_decimal_26() {
    assert_eq!(decode("26", 10), Ok(whole(26)));
}

#[test]
fn encode_26_in_binary() {
    assert_eq!(encode(&whole(26), 2), Ok("11010".to_string()));
}

#[test]
fn decode_hex_1a() {
    assert_eq!(decode("1a", 16), Ok(whole(26)));
    assert_eq!(decode("1A", 16), Ok(whole(26)));
}

#[test]
fn decode_binary_101_and_encode_octal() {
    assert_eq!(decode("101", 2), Ok(whole(5)));
    assert_eq!(encode(&whole(5), 8), Ok("5".to_string()));
}

#[test]
fn decode_half_and_encode_binary() {
    let v = decode("0.5", 10).unwrap();
    assert_eq!(v, CanonicalValue::new(0, 5, 10).unwrap());
    assert_eq!(encode(&v, 2), Ok("0.1".to_string()));
    let half = CanonicalValue::new(0, 1, 2).unwrap();
    assert_eq!(encode(&half, 2), Ok("0.1".to_string()));
}

#[test]
fn encode_zero_has_no_separator() {
    assert_eq!(encode(&whole(0), 10), Ok("0".to_string()));
}

#[test]
fn third_truncates_after_ten_digits() {
    let third = CanonicalValue::new(0, 1, 3).unwrap();
    assert_eq!(encode(&third, 10), Ok("0.3333333333".to_string()));
    assert_eq!(radixshift("0.1", 3, 10), Ok("0.3333333333".to_string()));
}

#[test]
fn expansion_stops_when_remainder_vanishes() {
    assert_eq!(radixshift("0.25", 10, 2), Ok("0.01".to_string()));
    assert_eq!(radixshift("10.1", 2, 10), Ok("2.5".to_string()));
}

#[test]
fn digit_at_or_above_base_is_invalid() {
    assert_eq!(decode("2", 2), Err(DecodeError::InvalidDigit(Segment::Integer)));
    assert_eq!(decode("1.2", 2), Err(DecodeError::InvalidDigit(Segment::Fraction)));
    assert_eq!(decode("1g", 16), Err(DecodeError::InvalidDigit(Segment::Integer)));
    assert_eq!(decode("1-", 36), Err(DecodeError::InvalidDigit(Segment::Integer)));
}

#[test]
fn two_separators_are_malformed() {
    assert_eq!(decode("1.2.3", 10), Err(DecodeError::MalformedNumber));
    assert_eq!(decode("..", 10), Err(DecodeError::MalformedNumber));
    assert_eq!(decode("z.z.", 2), Err(DecodeError::MalformedNumber));
}

#[test]
fn empty_input_is_malformed() {
    assert_eq!(decode("", 10), Err(DecodeError::MalformedNumber));
    assert_eq!(decode(".", 10), Err(DecodeError::MalformedNumber));
}

#[test]
fn leading_separator_has_zero_whole_part() {
    let v = decode(".5", 10).unwrap();
    assert_eq!(v.whole, 0);
    assert_eq!(v, CanonicalValue::new(0, 5, 10).unwrap());
    assert_eq!(decode("7.", 10), Ok(whole(7)));
}

#[test]
fn source_base_below_two_is_invalid() {
    assert_eq!(decode("0", 1), Err(DecodeError::InvalidBase));
    assert_eq!(decode("0", 0), Err(DecodeError::InvalidBase));
}

#[test]
fn target_base_checks() {
    assert_eq!(encode(&whole(3), 1), Err(EncodeError::InvalidBase));
    assert_eq!(encode(&whole(3), 0), Err(EncodeError::InvalidBase));
    assert_eq!(encode(&whole(3), 37), Err(EncodeError::UnsupportedAlphabetSize));
    assert_eq!(check_target_base(36), None);
    assert_eq!(encode(&whole(35), 36), Ok("z".to_string()));
}

#[test]
fn out_of_range_values() {
    assert_eq!(decode("18446744073709551615", 10), Ok(whole(u64::MAX)));
    assert_eq!(decode("18446744073709551616", 10), Err(DecodeError::OutOfRange));
    assert_eq!(decode("1.5", 10).map(|v| v.whole), Ok(1));
    assert_eq!(decode("0000000000000000000000000001", 10), Ok(whole(1)));
}

#[test]
fn long_fractions_are_truncated() {
    let ten_19: u64 = 10_000_000_000_000_000_000;
    assert_eq!(
        decode(".11111111111111111111", 10),
        Ok(CanonicalValue::new(0, 1_111_111_111_111_111_111, ten_19).unwrap())
    );
    assert_eq!(
        decode("0.00000000000000000001", 10),
        Ok(CanonicalValue::new(0, 0, ten_19).unwrap())
    );
    assert_eq!(
        radixshift(".11111111111111111111", 10, 2),
        Ok("0.0001110001".to_string())
    );
    let ones = "0.".to_string() + &"1".repeat(70);
    let v = decode(&ones, 2).unwrap();
    assert_eq!(v.den, 1u64 << 63);
    assert_eq!(v.num, (1u64 << 63) - 1);
}

#[test]
fn decode_errors_come_before_target_base_errors() {
    assert_eq!(
        radixshift("1.2.3", 10, 40),
        Err(ConvertError::Decode(DecodeError::MalformedNumber))
    );
    assert_eq!(
        radixshift("1.2.3", 10, 1),
        Err(ConvertError::Decode(DecodeError::MalformedNumber))
    );
    assert_eq!(
        radixshift("2", 2, 40),
        Err(ConvertError::Decode(DecodeError::InvalidDigit(Segment::Integer)))
    );
    assert_eq!(
        radixshift("1", 10, 1),
        Err(ConvertError::Encode(EncodeError::InvalidBase))
    );
    assert_eq!(
        radixshift("1.2.3", 10, 0),
        Err(ConvertError::Encode(EncodeError::InvalidBase))
    );
}

#[test]
fn integer_round_trip_through_canonical_value() {
    let samples: Vec<u64> = vec![0, 1, 2, 35, 36, 255, 1000, 123456789, u64::MAX];
    for &n in samples.iter() {
        for b1 in 2u32..=36 {
            for b2 in [2u32, 7, 10, 16, 36] {
                let rendered = encode(&whole(n), b1).unwrap();
                let value = decode(&rendered, b1).unwrap();
                assert_eq!(value, whole(n));
                let out = encode(&value, b2).unwrap();
                assert_eq!(decode(&out, b2), Ok(whole(n)));
            }
        }
    }
}

#[test]
fn pipeline_scenarios() {
    assert_eq!(radixshift("26", 10, 2), Ok("11010".to_string()));
    assert_eq!(radixshift("FF", 16, 2), Ok("11111111".to_string()));
    assert_eq!(radixshift("zz", 36, 10), Ok("1295".to_string()));
    assert_eq!(radixshift("1", 1, 10), Err(ConvertError::Decode(DecodeError::InvalidBase)));
    assert_eq!(radixshift("9", 10, 1), Err(ConvertError::Encode(EncodeError::InvalidBase)));
    assert_eq!(
        radixshift("1", 10, 40),
        Err(ConvertError::Encode(EncodeError::UnsupportedAlphabetSize))
    );
    assert_eq!(
        radixshift("1.2.3", 10, 2),
        Err(ConvertError::Decode(DecodeError::MalformedNumber))
    );
}

#[test]
fn digit_values_of_alphabet() {
    assert_eq!(digit_value('0'), Some(0));
    assert_eq!(digit_value('9'), Some(9));
    assert_eq!(digit_value('a'), Some(10));
    assert_eq!(digit_value('Z'), Some(35));
    assert_eq!(digit_value('.'), None);
}

#[test]
fn value_constructor_rejects_improper_fractions() {
    assert_eq!(CanonicalValue::new(1, 0, 0), None);
    assert_eq!(CanonicalValue::new(1, 3, 3), None);
    assert!(CanonicalValue::new(1, 2, 3).is_some());
}
