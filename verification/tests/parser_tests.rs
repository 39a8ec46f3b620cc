//! Behavioural tests of the filter-code parser.

use mcpr_filter::codes::{parse_code_list, parse_packet_code};
use mcpr_filter::McprError;

#[test]
fn hex_code() {
    assert_eq!(parse_packet_code("0x65"), Ok(101));
}

#[test]
fn decimal_code() {
    assert_eq!(parse_packet_code("101"), Ok(101));
}

#[test]
fn upper_case_prefix_and_digits() {
    assert_eq!(parse_packet_code("0X2F"), Ok(47));
    assert_eq!(parse_packet_code("0xaB"), Ok(171));
}

#[test]
fn letters_are_invalid() {
    assert_eq!(parse_packet_code("abc"), Err(McprError::InvalidCode));
}

#[test]
fn hex_digits_without_prefix_are_invalid() {
    assert_eq!(parse_packet_code("2F"), Err(McprError::InvalidCode));
}

#[test]
fn empty_token_is_invalid() {
    assert_eq!(parse_packet_code(""), Err(McprError::InvalidCode));
    assert_eq!(parse_packet_code("0x"), Err(McprError::InvalidCode));
}

#[test]
fn sign_characters_are_invalid() {
    assert_eq!(parse_packet_code("+5"), Err(McprError::InvalidCode));
    assert_eq!(parse_packet_code("-5"), Err(McprError::InvalidCode));
}

#[test]
fn thirty_two_bit_boundary() {
    assert_eq!(parse_packet_code("4294967295"), Ok(u32::MAX));
    assert_eq!(parse_packet_code("4294967296"), Err(McprError::InvalidCode));
    assert_eq!(parse_packet_code("0xFFFFFFFF"), Ok(u32::MAX));
    assert_eq!(parse_packet_code("0x100000000"), Err(McprError::InvalidCode));
}

#[test]
fn list_of_two_codes() {
    assert_eq!(parse_code_list("0xFF,3"), Ok(vec![255, 3]));
}

#[test]
fn list_tokens_are_trimmed() {
    assert_eq!(parse_code_list(" 0x65 ,\t101 "), Ok(vec![101, 101]));
}

#[test]
fn list_single_code() {
    assert_eq!(parse_code_list("7"), Ok(vec![7]));
}

#[test]
fn list_fails_on_first_invalid_token() {
    assert_eq!(parse_code_list("0x65,,3"), Err(McprError::InvalidCode));
    assert_eq!(parse_code_list("abc,5"), Err(McprError::InvalidCode));
    assert_eq!(parse_code_list(""), Err(McprError::InvalidCode));
}
