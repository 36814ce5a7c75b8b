//! Tests for the attribute selection bitmask and its command-line word.

use bfflib::attribute::{
    parse_attributes, ATTRIBUTE_NONE, ATTRIBUTE_OWNERS, ATTRIBUTE_PERMISSIONS,
    ATTRIBUTE_TIMESTAMPS,
};

#[test]
fn source_with_attribute_timestamps() {
    let attributes = parse_attributes("t").expect("the word should parse");
    assert_eq!(attributes, ATTRIBUTE_TIMESTAMPS);
}

#[test]
fn source_with_attributes_timestamp_and_owner() {
    let attributes = parse_attributes("to").expect("the word should parse");
    assert_eq!(attributes, ATTRIBUTE_OWNERS | ATTRIBUTE_TIMESTAMPS);
}

#[test]
fn source_with_attributes_none() {
    let attributes = parse_attributes("n").expect("the word should parse");
    assert_eq!(attributes, ATTRIBUTE_NONE);
}

#[test]
fn all_attribute_letters_combine() {
    let attributes = parse_attributes("pot").expect("the word should parse");
    assert_eq!(
        attributes,
        ATTRIBUTE_PERMISSIONS | ATTRIBUTE_OWNERS | ATTRIBUTE_TIMESTAMPS
    );
}

#[test]
fn unknown_attribute_letter_is_rejected() {
    assert!(parse_attributes("x").is_err());
    assert!(parse_attributes("tx").is_err());
}

#[test]
fn empty_attribute_word_selects_nothing() {
    assert_eq!(parse_attributes("").expect("should parse"), ATTRIBUTE_NONE);
}
