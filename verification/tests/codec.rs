//! Tests for the primitive wire codec: varints, fixed-width numbers, and
//! length-prefixed strings.

use tabula::encode::{
    decode_number, decode_string, decode_varint, number, string, uint64_varint, usize_varint,
};
use tabula::Error;

#[test]
fn varint_single_byte_values() {
    assert_eq!(uint64_varint(0), vec![0x00]);
    assert_eq!(uint64_varint(1), vec![0x01]);
    assert_eq!(uint64_varint(127), vec![0x7F]);
}

#[test]
fn varint_multi_byte_values() {
    assert_eq!(uint64_varint(128), vec![0x80, 0x01]);
    assert_eq!(uint64_varint(300), vec![0xAC, 0x02]);
    assert_eq!(uint64_varint(10000), vec![0x90, 0x4E]);
    assert_eq!(usize_varint(16384), vec![0x80, 0x80, 0x01]);
}

#[test]
fn varint_round_trip_values() {
    for n in [
        0u64,
        1,
        127,
        128,
        300,
        10000,
        16383,
        16384,
        u32::MAX as u64,
        u64::MAX - 1,
        u64::MAX,
    ] {
        let enc = uint64_varint(n);
        let (dec, consumed) = decode_varint(&enc, 0).unwrap();
        assert_eq!(dec, n);
        assert_eq!(consumed, enc.len());
    }
}

#[test]
fn varint_length_is_one_byte_per_seven_bits() {
    assert_eq!(uint64_varint(127).len(), 1);
    assert_eq!(uint64_varint(128).len(), 2);
    assert_eq!(uint64_varint(16383).len(), 2);
    assert_eq!(uint64_varint(16384).len(), 3);
    assert_eq!(uint64_varint(u64::MAX).len(), 10);
}

#[test]
fn varint_truncated_stream_is_eof() {
    assert_eq!(decode_varint(&vec![], 0), Err(Error::EOF));
    assert_eq!(decode_varint(&vec![0x80], 0), Err(Error::EOF));
    assert_eq!(decode_varint(&vec![0xFF, 0xFF], 0), Err(Error::EOF));
}

#[test]
fn varint_overflow_is_malformed() {
    // 2 * 128^9 == 2^64, one past u64::MAX.
    let mut too_big = vec![0xFF; 9];
    too_big.push(0x02);
    assert_eq!(decode_varint(&too_big, 0), Err(Error::MalformedStream));
    // u64::MAX itself still decodes.
    let mut max = vec![0xFF; 9];
    max.push(0x01);
    assert_eq!(decode_varint(&max, 0), Ok((u64::MAX, 10)));
}

#[test]
fn number_is_eight_little_endian_bytes() {
    let one = number(1.0f64.to_bits());
    assert_eq!(one, vec![0x00, 0x00, 0x00, 0x00, 0x00, 0x00, 0xF0, 0x3F]);
    let zero = number(0.0f64.to_bits());
    assert_eq!(zero, vec![0x00; 8]);
}

#[test]
fn number_round_trip() {
    for f in [0.0f64, 1.0, -1.5, 6.02e23, f64::MIN, f64::MAX] {
        let enc = number(f.to_bits());
        let (bits, consumed) = decode_number(&enc, 0).unwrap();
        assert_eq!(f64::from_bits(bits), f);
        assert_eq!(consumed, 8);
    }
}

#[test]
fn number_truncated_stream_is_eof() {
    assert_eq!(decode_number(&vec![0x00; 7], 0), Err(Error::EOF));
    assert_eq!(decode_number(&vec![0x00; 8], 1), Err(Error::EOF));
}

#[test]
fn string_is_length_prefixed_utf8() {
    assert_eq!(string("hello"), vec![5, b'h', b'e', b'l', b'l', b'o']);
    assert_eq!(string(""), vec![0]);
}

#[test]
fn string_round_trip() {
    for s in ["", "hello", "hello, world!", "naïve ✓ 日本語"] {
        let enc = string(s);
        let (dec, consumed) = decode_string(&enc, 0).unwrap();
        assert_eq!(dec, s);
        assert_eq!(consumed, enc.len());
    }
}

#[test]
fn string_invalid_utf8_is_malformed() {
    // Length 2, then an invalid UTF-8 sequence.
    let bad = vec![2, 0xFF, 0xFE];
    assert_eq!(decode_string(&bad, 0), Err(Error::MalformedStream));
}

#[test]
fn string_truncated_stream_is_eof() {
    // Length 5, but only one byte of payload.
    let bad = vec![5, b'a'];
    assert_eq!(decode_string(&bad, 0), Err(Error::EOF));
}
