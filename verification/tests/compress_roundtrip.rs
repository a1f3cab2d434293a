//! End-to-end tests of the compressor: round trips, determinism, the
//! minimum match length, and the literal flush threshold.

use lzpack::compress::compress;
use lzpack::decompress::decompress;
use lzpack::LzError;

#[test]
fn empty_input_is_rejected() {
    assert_eq!(compress(&[]), Err(LzError::InvalidInput));
}

#[test]
fn round_trip_single_byte() {
    let input = b"x".to_vec();
    let encoded = compress(&input).unwrap();
    assert_eq!(encoded, vec![0x01, b'x']);
    assert_eq!(decompress(&encoded).unwrap(), input);
}

#[test]
fn round_trip_repeated_text() {
    let input = b"hello world hello world hello".to_vec();
    let encoded = compress(&input).unwrap();
    assert_eq!(decompress(&encoded).unwrap(), input);
}

#[test]
fn round_trip_mixed_bytes() {
    let mut input = Vec::new();
    for i in 0..2000u32 {
        input.push((i * 7 % 251) as u8);
        if i % 5 == 0 {
            input.push(0);
        }
    }
    let encoded = compress(&input).unwrap();
    assert_eq!(decompress(&encoded).unwrap(), input);
}

#[test]
fn compress_is_deterministic() {
    let input = b"the quick brown fox jumps over the lazy dog the quick brown fox".to_vec();
    let first = compress(&input).unwrap();
    let second = compress(&input).unwrap();
    assert_eq!(first, second);
}

#[test]
fn six_byte_run_stays_literal() {
    // A repeat of exactly 6 bytes is below the minimum match length, so the
    // whole input is one literal chunk.
    let input = b"ABCDEFABCDEF".to_vec();
    let encoded = compress(&input).unwrap();
    let mut expected = vec![12u8];
    expected.extend_from_slice(&input);
    assert_eq!(encoded, expected);
}

#[test]
fn seven_byte_run_becomes_backref() {
    let input = b"ABCDEFGABCDEFG".to_vec();
    let encoded = compress(&input).unwrap();
    let mut expected = vec![7u8];
    expected.extend_from_slice(b"ABCDEFG");
    expected.push(0x87); // back-reference, length 7
    expected.push(0x07); // distance 7
    assert_eq!(encoded, expected);
    assert_eq!(decompress(&encoded).unwrap(), input);
}

#[test]
fn ten_equal_bytes_compress_to_literal_and_backref() {
    let input = b"aaaaaaaaaa".to_vec();
    let encoded = compress(&input).unwrap();
    // One literal byte, then a back-reference (distance 1, length 9).
    assert_eq!(encoded, vec![0x01, b'a', 0x89, 0x01]);
    assert_eq!(decompress(&encoded).unwrap(), input);
}

#[test]
fn literal_run_of_65536_is_split() {
    // Big-endian 16-bit counters: every aligned byte pair is distinct, so no
    // window offset ever matches 7 bytes and the whole input stays literal.
    let mut input = Vec::with_capacity(65536);
    for i in 0..32768u32 {
        input.push((i >> 8) as u8);
        input.push(i as u8);
    }
    let encoded = compress(&input).unwrap();
    // The literal run is flushed at 65535 bytes, leaving one byte for a
    // second chunk: neither literal chunk exceeds 65535 bytes.
    let mut expected = vec![0x40, 0xFF, 0xFF];
    expected.extend_from_slice(&input[..65535]);
    expected.push(0x01);
    expected.push(input[65535]);
    assert_eq!(encoded, expected);
    assert_eq!(decompress(&encoded).unwrap(), input);
}
