use pngme::chunk::ChunkError;
use pngme::chunk_type::{is_valid, is_valid_byte, ChunkType};

#[test]
fn type_from_text_keeps_the_text() {
    let t = ChunkType::from_str("RuSt").unwrap();
    assert_eq!(t.to_string(), "RuSt");
    assert_eq!(t.bytes(), [82u8, 117, 83, 116]);
}

#[test]
fn type_from_text_accepts_any_text() {
    let t = ChunkType::from_str("Ru1t").unwrap();
    assert_eq!(t.to_string(), "Ru1t");
    assert!(!t.is_valid());
    let long = ChunkType::from_str("RuStLonger").unwrap();
    assert_eq!(long.to_string(), "RuStLonger");
    assert_eq!(long.bytes(), [82u8, 117, 83, 116]);
    assert!(!long.is_valid());
}

#[test]
fn type_from_bytes_decodes_the_text() {
    let t = ChunkType::try_from([82u8, 117, 83, 116]).unwrap();
    assert_eq!(t.to_string(), "RuSt");
    assert_eq!(t.bytes(), [82u8, 117, 83, 116]);
    assert!(t.is_valid());
}

#[test]
fn type_from_bytes_refuses_what_is_not_text() {
    let r = ChunkType::try_from([255u8, 117, 83, 116]);
    assert!(matches!(r, Err(ChunkError::TypeEncoding)));
    let r = ChunkType::try_from([82u8, 117, 83, 0xC3]);
    assert!(matches!(r, Err(ChunkError::TypeEncoding)));
}

#[test]
fn type_from_bytes_takes_text_that_is_no_letter() {
    let t = ChunkType::try_from([0xC3u8, 0xA9, 49, 50]).unwrap();
    assert_eq!(t.to_string(), "\u{e9}12");
    assert_eq!(t.bytes(), [0xC3u8, 0xA9, 49, 50]);
    assert!(!t.is_valid());
}

#[test]
fn critical_goes_by_the_first_letter() {
    assert!(ChunkType::from_str("RuSt").unwrap().is_critical());
    assert!(!ChunkType::from_str("ruSt").unwrap().is_critical());
}

#[test]
fn public_goes_by_the_second_letter() {
    assert!(ChunkType::from_str("RUSt").unwrap().is_public());
    assert!(!ChunkType::from_str("RuSt").unwrap().is_public());
}

#[test]
fn reserved_bit_goes_by_the_third_letter() {
    assert!(!ChunkType::from_str("RuSt").unwrap().is_reserved_bit_valid());
    assert!(ChunkType::from_str("Rust").unwrap().is_reserved_bit_valid());
}

#[test]
fn safe_to_copy_goes_by_the_fourth_letter() {
    assert!(ChunkType::from_str("RuSt").unwrap().is_safe_to_copy());
    assert!(!ChunkType::from_str("RuST").unwrap().is_safe_to_copy());
}

#[test]
fn flags_of_a_digit_are_all_false() {
    let t = ChunkType::from_str("1234").unwrap();
    assert!(!t.is_critical());
    assert!(!t.is_public());
    assert!(!t.is_reserved_bit_valid());
    assert!(!t.is_safe_to_copy());
}

#[test]
fn valid_text_is_four_letters() {
    assert!(is_valid("RuSt"));
    assert!(is_valid("abcd"));
    assert!(is_valid("AZaz"));
    assert!(ChunkType::from_str("IEND").unwrap().is_valid());
}

#[test]
fn invalid_text_is_refused() {
    assert!(!is_valid(""));
    assert!(!is_valid("abc"));
    assert!(!is_valid("abcde"));
    assert!(!is_valid("ab1d"));
    assert!(!is_valid("ab d"));
    assert!(!is_valid("ab@d"));
    assert!(!is_valid("ab[d"));
    assert!(!is_valid("ab`d"));
    assert!(!is_valid("ab{d"));
    assert!(!is_valid("\u{e9}ab"));
    assert!(!is_valid("\u{e9}\u{e9}"));
    assert!(!is_valid("\u{e9}abc"));
}

#[test]
fn valid_bytes_are_letters_and_digits() {
    assert!(is_valid_byte(65));
    assert!(is_valid_byte(90));
    assert!(is_valid_byte(97));
    assert!(is_valid_byte(122));
    assert!(is_valid_byte(48));
    assert!(is_valid_byte(57));
    assert!(!is_valid_byte(47));
    assert!(!is_valid_byte(58));
    assert!(!is_valid_byte(64));
    assert!(!is_valid_byte(91));
    assert!(!is_valid_byte(96));
    assert!(!is_valid_byte(123));
    assert!(!is_valid_byte(0));
    assert!(!is_valid_byte(255));
}
