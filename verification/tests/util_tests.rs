//! Tests for the stream helpers: bounded copying and content
//! classification.

use bfflib::archive::RecordReader;
use bfflib::error::Error;
use bfflib::util::{copy_stream, get_content_type, ContentType};

#[test]
fn copy_stream_has_correct_size() {
    let mut stream = RecordReader::from_bytes(b"abcdefghijklmnopqrstuvwxyz".to_vec());
    let mut result: Vec<u8> = vec![];

    copy_stream(&mut stream, &mut result, 5).expect("copying should succeed");

    assert_eq!(result, b"abcde".to_vec());
}

#[test]
fn copy_stream_stops_at_the_end_of_content() {
    let mut stream = RecordReader::from_bytes(b"abc".to_vec());
    let mut result: Vec<u8> = vec![];
    copy_stream(&mut stream, &mut result, 10).expect("copying should succeed");
    assert_eq!(result, b"abc".to_vec());
}

#[test]
fn get_content_type_sees_text_and_binary() {
    let mut text = RecordReader::from_bytes(b"hello, world".to_vec());
    assert!(matches!(
        get_content_type(&mut text, 12),
        Ok(ContentType::Plaintext)
    ));

    let mut binary = RecordReader::from_bytes(vec![0xFF, 0xFE, 0x00, 0x80]);
    assert!(matches!(
        get_content_type(&mut binary, 4),
        Ok(ContentType::Binary)
    ));
}

#[test]
fn get_content_type_needs_the_whole_probe() {
    let mut short = RecordReader::from_bytes(b"ab".to_vec());
    assert!(matches!(
        get_content_type(&mut short, 100),
        Err(Error::UnexpectedEndOfInput)
    ));
}

#[test]
fn overlong_and_multibyte_sequences_are_told_apart() {
    // An overlong encoding of NUL is not valid UTF-8.
    let mut overlong = RecordReader::from_bytes(vec![0xC0, 0x80]);
    assert!(matches!(
        get_content_type(&mut overlong, 2),
        Ok(ContentType::Binary)
    ));
    // A correct three-byte sequence is text.
    let mut euro = RecordReader::from_bytes(vec![0xE2, 0x82, 0xAC]);
    assert!(matches!(
        get_content_type(&mut euro, 3),
        Ok(ContentType::Plaintext)
    ));
    // A bare continuation byte is not.
    let mut stray = RecordReader::from_bytes(vec![0x80]);
    assert!(matches!(
        get_content_type(&mut stray, 1),
        Ok(ContentType::Binary)
    ));
}
