//! Tests for the byte-layout readers: aligned strings and fixed-width
//! fields.

use bfflib::bff::{
    read_aligned_string, read_file_header, read_record_header, read_u16_le, read_u32_le,
    FILE_MAGIC,
};
use bfflib::error::Error;

#[test]
fn read_aligned_string_default() {
    let data: Vec<u8> = vec![97, 98, 99, 0, 1, 2, 3, 4];
    let (result, end) = read_aligned_string(&data, 0);
    assert_eq!(result, "abc");
    assert_eq!(end, 8);
}

#[test]
fn read_aligned_string_double() {
    let data: Vec<u8> = vec![97, 98, 99, 0, 1, 2, 3, 4, 97, 98, 99, 0, 1, 2, 3, 4];
    let (result, end) = read_aligned_string(&data, 0);
    assert_eq!(result, "abc");
    assert_eq!(end, 8);
}

#[test]
fn read_aligned_string_long() {
    let data: Vec<u8> = vec![
        97, 98, 99, 100, 101, 102, 103, 104, 97, 98, 99, 0, 1, 2, 3, 4,
    ];
    let (result, _) = read_aligned_string(&data, 0);
    assert_eq!(result, "abcdefghabc");
}

#[test]
fn read_aligned_string_no_null() {
    let data: Vec<u8> = vec![97, 98, 99, 1, 1, 2, 3, 4];
    let (result, _) = read_aligned_string(&data, 0);
    assert_eq!(result, "abc\u{1}\u{1}\u{2}\u{3}\u{4}");
}

#[test]
fn read_aligned_string_no_8byte() {
    let data: Vec<u8> = vec![97, 98, 99, 1, 1, 2, 3];
    let (result, end) = read_aligned_string(&data, 0);
    assert_eq!(result, "abc\u{1}\u{1}\u{2}\u{3}");
    assert_eq!(end, 7);
}

#[test]
fn read_struct_has_correct_fields() {
    let stream: Vec<u8> = b"\x01\x00\x00\x00\x02\x00\x03\x00\x00\x00\x10\x11".to_vec();

    let a = read_u32_le(&stream, 0);
    let b = read_u16_le(&stream, 4);
    let c = read_u32_le(&stream, 6);

    assert_eq!((a, b, c), (1, 2, 3));
}

#[test]
fn util_read_struct_has_correct_fields() {
    let stream: Vec<u8> = b"\x01\x00\x00\x00\x02\x00\x03\x00\x00\x00\x10\x11".to_vec();

    let a = read_u32_le(&stream, 0);
    let b = read_u16_le(&stream, 4);
    let c = read_u32_le(&stream, 6);

    assert_eq!((a, b, c), (1, 2, 3));
}

#[test]
fn file_header_magic_is_checked() {
    // A header full of zeros has the wrong magic.
    let data: Vec<u8> = vec![0u8; 72];
    match read_file_header(&data, 0) {
        Err(Error::InvalidFileMagic(m)) => assert_eq!(m, 0),
        _ => panic!("expected an invalid file magic"),
    }
    // Too short for a header at all.
    let short: Vec<u8> = vec![0u8; 71];
    assert!(matches!(
        read_file_header(&short, 0),
        Err(Error::UnexpectedEndOfInput)
    ));
}

#[test]
fn file_header_fields_are_little_endian() {
    let mut data: Vec<u8> = vec![0u8; 72];
    // magic 0xEA6B0009, stored little endian.
    data[0] = 0x09;
    data[1] = 0x00;
    data[2] = 0x6B;
    data[3] = 0xEA;
    data[4] = 0x2A; // checksum 42
    let header = read_file_header(&data, 0).expect("header should parse");
    assert_eq!(header.magic, FILE_MAGIC);
    assert_eq!(header.checksum, 42);
}

#[test]
fn record_header_fields_sit_at_their_offsets() {
    let mut data: Vec<u8> = vec![0u8; 64];
    data[1] = 0x0B; // sentinel
    data[2] = 0x6C; // magic 0xEA6C little endian
    data[3] = 0xEA;
    data[24] = 4; // size
    data[56] = 11; // compressed_size
    let h = read_record_header(&data, 0).expect("record header should parse");
    assert_eq!(h.unk01, 0x0B);
    assert_eq!(h.magic, 0xEA6C);
    assert_eq!(h.size, 4);
    assert_eq!(h.compressed_size, 11);
}

#[test]
fn first_segment_cuts_at_terminators() {
    assert_eq!(bfflib::bff::first_segment("abc\ndef"), "abc");
    assert_eq!(bfflib::bff::first_segment("abc\tdef"), "abc");
    assert_eq!(bfflib::bff::first_segment("abc\u{B}def"), "abc");
    assert_eq!(bfflib::bff::first_segment("abcdef"), "abcdef");
    assert_eq!(bfflib::bff::first_segment(""), "");
}
