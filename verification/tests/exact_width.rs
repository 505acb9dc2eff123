//! Exact-width encoding: leading zeros of hex and binary literals are
//! preserved, decimal and octal literals with leading zeros are refused.

use bytes_lit::{encode, EncodeError, EncodingPolicy};

fn enc(text: &str) -> Result<Vec<u8>, EncodeError<u32>> {
    encode(text.as_bytes(), 0u32, EncodingPolicy::ExactWidth)
}

#[test]
fn bytes_neg() {
    let err = enc("-0x1").unwrap_err();
    assert_eq!(err.kind.message(), "negative values unsupported");
}

#[test]
fn bytes_hex() {
    assert_eq!(enc("0x1").unwrap(), vec![1u8]);

    assert_eq!(enc("0x928374892abc").unwrap(), vec![146u8, 131, 116, 137, 42, 188]);

    assert_eq!(
        enc("0xfded3f55dec47250a52a8c0bb7038e72fa6ffaae33562f77cd2b629ef7fd424d").unwrap(),
        vec![
            253u8, 237, 63, 85, 222, 196, 114, 80, 165, 42, 140, 11, 183, 3, 142, 114, 250, 111,
            250, 174, 51, 86, 47, 119, 205, 43, 98, 158, 247, 253, 66, 77
        ]
    );
}

#[test]
fn bytes_base10() {
    assert_eq!(
        enc("340_282_366_920_938_463_463_374_607_431_768_211_455u128").unwrap(),
        vec![255u8; 16]
    );

    let mut expect = vec![0u8; 17];
    expect[0] = 1;
    assert_eq!(enc("340_282_366_920_938_463_463_374_607_431_768_211_456").unwrap(), expect);
}

#[test]
fn bytes_leading_zeros_preserved() {
    let table: &[(&str, Vec<u8>)] = &[
        // Base 16.
        ("0x1", vec![1u8]),
        ("0x01", vec![1u8]),
        ("0x0001", vec![0u8, 1]),
        ("0x0_0_0_1", vec![0u8, 1]),
        ("0x1u32", vec![1u8]),
        ("0x01u32", vec![1u8]),
        ("0x0001u32", vec![0u8, 1]),
        ("0x0_0_0_1u32", vec![0u8, 1]),
        // Base 2.
        ("0b1", vec![1u8]),
        ("0b11", vec![3u8]),
        ("0b111", vec![7u8]),
        ("0b1111", vec![15u8]),
        ("0b11111", vec![31u8]),
        ("0b111111", vec![63u8]),
        ("0b1111111", vec![127u8]),
        ("0b11111111", vec![255u8]),
        ("0b111111111", vec![1u8, 255]),
        ("0b1", vec![1u8]),
        ("0b01", vec![1u8]),
        ("0b001", vec![1u8]),
        ("0b0001", vec![1u8]),
        ("0b00001", vec![1u8]),
        ("0b000001", vec![1u8]),
        ("0b0000001", vec![1u8]),
        ("0b00000001", vec![1u8]),
        ("0b000000001", vec![0u8, 1]),
    ];
    for (i, t) in table.iter().enumerate() {
        assert_eq!(enc(t.0).unwrap(), t.1, "table entry: {}", i);
    }
}

#[test]
fn bytes_leading_zeros_prohibited() {
    let table: &[(&str, Result<Vec<u8>, &str>)] = &[
        // Base 8.
        ("0o377", Ok(vec![255u8])),
        (
            "0o0377",
            Err("leading zeros are not preserved or supported on integer literals in octal form"),
        ),
        (
            "0o00377",
            Err("leading zeros are not preserved or supported on integer literals in octal form"),
        ),
        ("0o400", Ok(vec![1u8, 0])),
        // Base 10.
        ("255", Ok(vec![255u8])),
        (
            "0255",
            Err("leading zeros are not preserved or supported on integer literals in decimal form"),
        ),
        (
            "00255",
            Err("leading zeros are not preserved or supported on integer literals in decimal form"),
        ),
        ("256", Ok(vec![1u8, 0])),
    ];
    for (i, t) in table.iter().enumerate() {
        match &t.1 {
            Ok(expect) => {
                assert_eq!(enc(t.0).unwrap(), *expect, "table entry: {}", i);
            }
            Err(message) => {
                let err = enc(t.0).unwrap_err();
                assert_eq!(err.kind.message(), *message, "table entry: {}", i);
            }
        }
    }
}

#[test]
fn lib_hex() {
    assert_eq!(enc("0x1").unwrap(), vec![1u8]);

    assert_eq!(enc("0x928374892abc").unwrap(), vec![146u8, 131, 116, 137, 42, 188]);

    assert_eq!(
        enc("0xfded3f55dec47250a52a8c0bb7038e72fa6ffaae33562f77cd2b629ef7fd424d").unwrap(),
        vec![
            253u8, 237, 63, 85, 222, 196, 114, 80, 165, 42, 140, 11, 183, 3, 142, 114, 250, 111,
            250, 174, 51, 86, 47, 119, 205, 43, 98, 158, 247, 253, 66, 77
        ]
    );
}

#[test]
fn lib_base10() {
    assert_eq!(
        enc("340_282_366_920_938_463_463_374_607_431_768_211_455u128").unwrap(),
        vec![255u8; 16]
    );

    let mut expect = vec![0u8; 17];
    expect[0] = 1;
    assert_eq!(enc("340_282_366_920_938_463_463_374_607_431_768_211_456").unwrap(), expect);
}

#[test]
fn lib_leading_zeros_preserved() {
    let table: &[(&str, Vec<u8>)] = &[
        // Base 16.
        ("0x1", vec![1u8]),
        ("0x01", vec![1u8]),
        ("0x0001", vec![0u8, 1]),
        ("0x0_0_0_1", vec![0u8, 1]),
        ("0x1u32", vec![1u8]),
        ("0x01u32", vec![1u8]),
        ("0x0001u32", vec![0u8, 1]),
        ("0x0_0_0_1u32", vec![0u8, 1]),
        // Base 2.
        ("0b1", vec![1u8]),
        ("0b11", vec![3u8]),
        ("0b111", vec![7u8]),
        ("0b1111", vec![15u8]),
        ("0b11111", vec![31u8]),
        ("0b111111", vec![63u8]),
        ("0b1111111", vec![127u8]),
        ("0b11111111", vec![255u8]),
        ("0b111111111", vec![1u8, 255]),
        ("0b1", vec![1u8]),
        ("0b01", vec![1u8]),
        ("0b001", vec![1u8]),
        ("0b0001", vec![1u8]),
        ("0b00001", vec![1u8]),
        ("0b000001", vec![1u8]),
        ("0b0000001", vec![1u8]),
        ("0b00000001", vec![1u8]),
        ("0b000000001", vec![0u8, 1]),
    ];
    for (i, t) in table.iter().enumerate() {
        assert_eq!(enc(t.0).unwrap(), t.1, "table entry: {}", i);
    }
}

#[test]
fn lib_leading_zeros_prohibited() {
    let table: &[(&str, Result<Vec<u8>, &str>)] = &[
        // Base 8.
        ("0o377", Ok(vec![255u8])),
        (
            "0o0377",
            Err("leading zeros are not preserved or supported on integer literals in octal form"),
        ),
        (
            "0o00377",
            Err("leading zeros are not preserved or supported on integer literals in octal form"),
        ),
        ("0o400", Ok(vec![1u8, 0])),
        // Base 10.
        ("255", Ok(vec![255u8])),
        (
            "0255",
            Err("leading zeros are not preserved or supported on integer literals in decimal form"),
        ),
        (
            "00255",
            Err("leading zeros are not preserved or supported on integer literals in decimal form"),
        ),
        ("256", Ok(vec![1u8, 0])),
    ];
    for (i, t) in table.iter().enumerate() {
        match &t.1 {
            Ok(expect) => {
                assert_eq!(enc(t.0).unwrap(), *expect, "table entry: {}", i);
            }
            Err(message) => {
                let err = enc(t.0).unwrap_err();
                assert_eq!(err.kind.message(), *message, "table entry: {}", i);
            }
        }
    }
}
