//! Tests for the Huffman decoder: the decoded stream and its independence
//! from the pull buffer size.

use bfflib::error::Error;
use bfflib::huffman::HuffmanDecoder;

/// A payload whose table has one symbol at each of three levels; the coded
/// bits spell "abc" and the input ends during a partial code.
fn abc_payload() -> Vec<u8> {
    // levels 3, counts [1, 1, 1]; symbols 'a', 'b', then 'c' and the
    // synthetic slot's byte 'd' at the deepest level.
    // Coded bits: 1 (a), 01 (b), 000 (c), then two bits that do not finish
    // a code before the input runs out.
    vec![3, 1, 1, 1, 0x61, 0x62, 0x63, 0x64, 0xA0]
}

/// A payload that decodes to exactly "abcd": an empty top level and four
/// two-bit codes at the deepest level (the fourth is the synthetic slot's
/// byte), ending exactly at the last coded bit.
fn abcd_payload() -> Vec<u8> {
    // levels 2, counts [0, 3]; symbols 'a', 'b', 'c', 'd'.
    // Coded bits: 00 (a), 01 (b), 10 (c), 11 (d).
    vec![2, 0, 3, 0x61, 0x62, 0x63, 0x64, 0x1B]
}

/// A payload that decodes to "ab" and then stops at the end-of-stream
/// sentinel, leaving the padding bits unread.
fn ab_sentinel_payload() -> Vec<u8> {
    // levels 2, counts [0, 1]; symbols 'a', 'b'.
    // Coded bits: 00 (a), 01 (b), 1 (sentinel), then padding.
    vec![2, 0, 1, 0x61, 0x62, 0x18]
}

#[test]
fn decode_to_end_gives_the_whole_stream() {
    let mut decoder = HuffmanDecoder::new(abc_payload()).expect("table should parse");
    let out = decoder.read_to_end().expect("decoding should succeed");
    assert_eq!(out, b"abc".to_vec());
}

#[test]
fn decode_stops_exactly_at_the_coded_bits() {
    let mut decoder = HuffmanDecoder::new(abcd_payload()).expect("table should parse");
    let out = decoder.read_to_end().expect("decoding should succeed");
    assert_eq!(out, b"abcd".to_vec());
}

#[test]
fn decode_stops_at_the_sentinel() {
    let mut decoder = HuffmanDecoder::new(ab_sentinel_payload()).expect("table should parse");
    let out = decoder.read_to_end().expect("decoding should succeed");
    assert_eq!(out, b"ab".to_vec());
}

#[test]
fn one_byte_pulls_equal_large_pulls() {
    // Pull one byte at a time.
    let mut small = HuffmanDecoder::new(abcd_payload()).expect("table should parse");
    let mut tiny: Vec<u8> = Vec::new();
    loop {
        let chunk = small.read(1).expect("decoding should succeed");
        if chunk.is_empty() {
            break;
        }
        tiny.extend_from_slice(&chunk);
    }
    // Pull everything at once.
    let mut big = HuffmanDecoder::new(abcd_payload()).expect("table should parse");
    let all = big.read(4096).expect("decoding should succeed");
    assert_eq!(tiny, all);
    assert_eq!(tiny, b"abcd".to_vec());
}

#[test]
fn odd_sized_pulls_equal_large_pulls() {
    let mut odd = HuffmanDecoder::new(abc_payload()).expect("table should parse");
    let mut parts: Vec<u8> = Vec::new();
    parts.extend_from_slice(&odd.read(2).expect("ok"));
    parts.extend_from_slice(&odd.read(5).expect("ok"));
    parts.extend_from_slice(&odd.read(3).expect("ok"));
    assert_eq!(parts, b"abc".to_vec());
}

#[test]
fn oversized_symbol_table_is_rejected() {
    // Two levels whose counts sum to 300: more than the byte alphabet.
    let payload: Vec<u8> = vec![2, 200, 100];
    assert!(matches!(
        HuffmanDecoder::new(payload),
        Err(Error::BadSymbolTable)
    ));
}

#[test]
fn zero_level_count_is_rejected() {
    assert!(matches!(
        HuffmanDecoder::new(vec![0, 1, 2]),
        Err(Error::BadSymbolTable)
    ));
}

#[test]
fn truncated_table_is_rejected() {
    // Announces three levels but ends inside the counts.
    assert!(matches!(
        HuffmanDecoder::new(vec![3, 1]),
        Err(Error::UnexpectedEndOfInput)
    ));
    // Counts are complete but the symbol bytes are missing.
    assert!(matches!(
        HuffmanDecoder::new(vec![3, 1, 1, 1]),
        Err(Error::UnexpectedEndOfInput)
    ));
    assert!(matches!(
        HuffmanDecoder::new(Vec::new()),
        Err(Error::UnexpectedEndOfInput)
    ));
}

#[test]
fn empty_coded_stream_decodes_to_nothing() {
    // A complete table with no coded bytes after it.
    let payload: Vec<u8> = vec![3, 1, 1, 1, 0x61, 0x62, 0x63, 0x64];
    let mut decoder = HuffmanDecoder::new(payload).expect("table should parse");
    let out = decoder.read_to_end().expect("decoding should succeed");
    assert!(out.is_empty());
}
