//! Cross-policy scenarios, error classification, and edge cases.

use bytes_lit::literal::parse_literal;
use bytes_lit::{encode, Base, EncodeError, EncodingPolicy, ErrorKind};

fn enc(text: &str, policy: EncodingPolicy) -> Result<Vec<u8>, EncodeError<u32>> {
    encode(text.as_bytes(), 0u32, policy)
}

#[test]
fn scenario_hex_exact() {
    assert_eq!(enc("0x1", EncodingPolicy::ExactWidth).unwrap(), vec![1u8]);
    assert_eq!(enc("0x0001", EncodingPolicy::ExactWidth).unwrap(), vec![0u8, 1]);
}

#[test]
fn scenario_hex_minimal() {
    assert_eq!(enc("0x0001", EncodingPolicy::MinimalWidth).unwrap(), vec![1u8]);
    assert_eq!(enc("0x0001", EncodingPolicy::MinimalWidthRestricted).unwrap(), vec![1u8]);
}

#[test]
fn scenario_decimal_minimal() {
    assert_eq!(enc("256", EncodingPolicy::MinimalWidth).unwrap(), vec![1u8, 0]);
}

#[test]
fn scenario_octal_padded() {
    let err = enc("0o0377", EncodingPolicy::ExactWidth).unwrap_err();
    assert_eq!(err.kind, ErrorKind::LeadingZerosUnsupported(Base::Octal));
    assert_eq!(enc("0o0377", EncodingPolicy::MinimalWidth).unwrap(), vec![255u8]);
}

#[test]
fn scenario_binary_nine_bits() {
    assert_eq!(enc("0b111111111", EncodingPolicy::ExactWidth).unwrap(), vec![1u8, 255]);
}

#[test]
fn negative_rejected_under_every_policy() {
    for policy in [
        EncodingPolicy::ExactWidth,
        EncodingPolicy::MinimalWidth,
        EncodingPolicy::MinimalWidthRestricted,
    ] {
        let err = enc("-0x1", policy).unwrap_err();
        assert_eq!(err.kind, ErrorKind::NegativeUnsupported);
        let err = enc("-255", policy).unwrap_err();
        assert_eq!(err.kind, ErrorKind::NegativeUnsupported);
    }
}

#[test]
fn zero_encodes_as_one_zero_byte() {
    assert_eq!(enc("0", EncodingPolicy::MinimalWidth).unwrap(), vec![0u8]);
    assert_eq!(enc("0x0", EncodingPolicy::MinimalWidth).unwrap(), vec![0u8]);
    assert_eq!(enc("0x0", EncodingPolicy::ExactWidth).unwrap(), vec![0u8]);
    assert_eq!(enc("0b0", EncodingPolicy::ExactWidth).unwrap(), vec![0u8]);
    // the zero digit of a bare decimal zero is itself a leading zero,
    // which exact width refuses in decimal form
    let err = enc("0", EncodingPolicy::ExactWidth).unwrap_err();
    assert_eq!(err.kind, ErrorKind::LeadingZerosUnsupported(Base::Decimal));
}

#[test]
fn zero_padding_spans_bytes() {
    assert_eq!(enc("0x000000", EncodingPolicy::ExactWidth).unwrap(), vec![0u8, 0, 0]);
    assert_eq!(enc("0x00ffu32", EncodingPolicy::ExactWidth).unwrap(), vec![0u8, 255]);
}

#[test]
fn restricted_policy_rejects_decimal_and_octal() {
    let err = enc("255", EncodingPolicy::MinimalWidthRestricted).unwrap_err();
    assert_eq!(err.kind, ErrorKind::UnsupportedForm);
    // rejected outright, even without leading zeros
    let err = enc("0o377", EncodingPolicy::MinimalWidthRestricted).unwrap_err();
    assert_eq!(err.kind, ErrorKind::UnsupportedForm);
    // ... and before the value is ever considered
    let err = enc("0255", EncodingPolicy::MinimalWidthRestricted).unwrap_err();
    assert_eq!(err.kind, ErrorKind::UnsupportedForm);
    assert_eq!(enc("0b11", EncodingPolicy::MinimalWidthRestricted).unwrap(), vec![3u8]);
}

#[test]
fn malformed_literals_rejected() {
    for text in ["", "-", "abc", "0x", "0b", "0o", "0x_", "1.5", "_1", "0b12", "0o9", "1 2", "12-3"]
    {
        let err = enc(text, EncodingPolicy::MinimalWidth).unwrap_err();
        assert_eq!(err.kind, ErrorKind::NotAnInteger, "input: {}", text);
    }
}

#[test]
fn suffixes_are_ignored() {
    assert_eq!(enc("123u8", EncodingPolicy::MinimalWidth).unwrap(), vec![123u8]);
    assert_eq!(enc("255u128", EncodingPolicy::ExactWidth).unwrap(), vec![255u8]);
    assert_eq!(enc("0b1111z9", EncodingPolicy::ExactWidth).unwrap(), vec![15u8]);
}

#[test]
fn separators_are_ignored() {
    assert_eq!(enc("6_5_5_3_6", EncodingPolicy::MinimalWidth).unwrap(), vec![1u8, 0, 0]);
    assert_eq!(enc("0x_1", EncodingPolicy::MinimalWidth).unwrap(), vec![1u8]);
}

#[test]
fn locator_passes_through_unchanged() {
    let err = encode("0o0755".as_bytes(), 7717u32, EncodingPolicy::ExactWidth).unwrap_err();
    assert_eq!(err.locator, 7717u32);
    let err = encode("nine".as_bytes(), "somewhere", EncodingPolicy::MinimalWidth).unwrap_err();
    assert_eq!(err.locator, "somewhere");
}

#[test]
fn error_messages() {
    assert_eq!(
        enc("00", EncodingPolicy::ExactWidth).unwrap_err().kind.message(),
        "leading zeros are not preserved or supported on integer literals in decimal form"
    );
    assert_eq!(
        enc("0o00", EncodingPolicy::ExactWidth).unwrap_err().kind.message(),
        "leading zeros are not preserved or supported on integer literals in octal form"
    );
    assert_eq!(
        enc("-1", EncodingPolicy::MinimalWidth).unwrap_err().kind.message(),
        "negative values unsupported"
    );
    assert_eq!(
        enc("ten", EncodingPolicy::MinimalWidth).unwrap_err().kind.message(),
        "not an integer literal"
    );
    assert_eq!(
        enc("10", EncodingPolicy::MinimalWidthRestricted).unwrap_err().kind.message(),
        "unsupported integer literal form"
    );
}

#[test]
fn literal_classification() {
    let p = parse_literal(b"0x00ff").unwrap();
    assert!(!p.negative);
    assert_eq!(p.base, Base::Hexadecimal);
    assert_eq!(p.digits, b"00ff".to_vec());
    assert_eq!(p.leading_zeros, 2);

    let p = parse_literal(b"-0o7_7u8").unwrap();
    assert!(p.negative);
    assert_eq!(p.base, Base::Octal);
    assert_eq!(p.digits, b"77".to_vec());
    assert_eq!(p.leading_zeros, 0);

    let p = parse_literal(b"910").unwrap();
    assert_eq!(p.base, Base::Decimal);
    assert_eq!(p.digits, b"910".to_vec());

    assert!(parse_literal(b"0x").is_none());
    assert!(parse_literal(b"--1").is_none());
}

#[test]
fn large_decimal_round_trip() {
    // a value the width of several machine words, spelled in decimal
    let out = enc("123456789012345678901234567890", EncodingPolicy::MinimalWidth).unwrap();
    let mut acc: u128 = 0;
    for b in &out {
        acc = acc * 256 + *b as u128;
    }
    assert_eq!(acc, 123456789012345678901234567890u128);
    assert_ne!(out[0], 0);
}
