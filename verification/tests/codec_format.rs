//! Tests of the chunk wire format: header width switches, overlapping
//! back-references, and rejection of malformed streams.

use lzpack::codec::BackRef;
use lzpack::codec::Chunk;
use lzpack::codec::LitData;
use lzpack::decompress::decompress;
use lzpack::LzError;

fn lit(data: Vec<u8>) -> Chunk {
    Chunk::Data(LitData { data })
}

fn backref(dist: u16, len: u16) -> Chunk {
    Chunk::BackRef(BackRef { dist, len })
}

#[test]
fn literal_length_63_uses_one_byte_header() {
    let bytes = lit(vec![7u8; 63]).bytes();
    assert_eq!(bytes.len(), 64);
    assert_eq!(bytes[0], 63);
    assert_eq!(&bytes[1..], &[7u8; 63][..]);
}

#[test]
fn literal_length_64_uses_three_byte_header() {
    let bytes = lit(vec![7u8; 64]).bytes();
    assert_eq!(bytes.len(), 67);
    assert_eq!(bytes[0], 0x40);
    assert_eq!(bytes[1], 0);
    assert_eq!(bytes[2], 64);
    assert_eq!(&bytes[3..], &[7u8; 64][..]);
}

#[test]
fn backref_length_63_uses_one_byte_header() {
    let bytes = backref(1, 63).bytes();
    assert_eq!(bytes, vec![0xBF, 0x01]);
}

#[test]
fn backref_length_64_uses_three_byte_header() {
    let bytes = backref(1, 64).bytes();
    assert_eq!(bytes, vec![0xC0, 0x00, 0x40, 0x01]);
}

#[test]
fn distance_127_uses_one_byte() {
    let bytes = backref(127, 7).bytes();
    assert_eq!(bytes, vec![0x87, 0x7F]);
}

#[test]
fn distance_128_uses_two_bytes() {
    let bytes = backref(128, 7).bytes();
    assert_eq!(bytes, vec![0x87, 0x80, 0x80]);
}

#[test]
fn overlapping_backref_copies_byte_by_byte() {
    // Literal "ab", then a back-reference (distance 2, length 5): each of the
    // five appended bytes reads two positions back, so the copy overlaps the
    // bytes it is itself producing.
    let stream = vec![0x02, b'a', b'b', 0x85, 0x02];
    let out = decompress(&stream).unwrap();
    assert_eq!(out, b"abababa".to_vec());
}

#[test]
fn long_form_literal_decodes() {
    let mut stream = vec![0x40, 0x00, 0x41];
    let payload: Vec<u8> = (0..65u8).collect();
    stream.extend_from_slice(&payload);
    assert_eq!(decompress(&stream).unwrap(), payload);
}

#[test]
fn zero_length_literal_decodes_to_empty() {
    assert_eq!(decompress(&[0x00]).unwrap(), Vec::<u8>::new());
}

#[test]
fn truncated_literal_payload_is_rejected() {
    // Header declares 10 literal bytes but only 3 remain.
    let stream = vec![0x0A, b'x', b'y', b'z'];
    assert_eq!(decompress(&stream), Err(LzError::MalformedStream));
}

#[test]
fn truncated_long_header_is_rejected() {
    assert_eq!(decompress(&[0x40, 0x01]), Err(LzError::MalformedStream));
}

#[test]
fn missing_distance_is_rejected() {
    assert_eq!(decompress(&[0x87]), Err(LzError::MalformedStream));
}

#[test]
fn truncated_two_byte_distance_is_rejected() {
    assert_eq!(decompress(&[0x87, 0x80]), Err(LzError::MalformedStream));
}

#[test]
fn distance_beyond_output_is_rejected() {
    // One byte of output, then a back-reference looking 5 bytes back.
    let stream = vec![0x01, b'a', 0x87, 0x05];
    assert_eq!(decompress(&stream), Err(LzError::MalformedStream));
}

#[test]
fn distance_zero_is_rejected() {
    let stream = vec![0x01, b'a', 0x81, 0x00];
    assert_eq!(decompress(&stream), Err(LzError::MalformedStream));
}

#[test]
fn empty_stream_is_rejected() {
    assert_eq!(decompress(&[]), Err(LzError::MalformedStream));
}
