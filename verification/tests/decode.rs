//! The read path: decoders from raw token text to semantic values.

use litcodec::chars::{chars_vec, hex_val, whitespace_char};
use litcodec::decode::{
    backslash_u, backslash_x, next_chr, parse_lit_byte, parse_lit_byte_str,
    parse_lit_byte_str_cooked, parse_lit_byte_str_raw, parse_lit_char, parse_lit_str,
    parse_lit_str_cooked, parse_lit_str_raw,
};
use litcodec::num::{float_digits, number_is_float, number_is_int, parse_lit_int};
use litcodec::{byte, LitError};

#[test]
fn cooked_string_with_newline_escape() {
    assert_eq!(parse_lit_str_cooked("\"a\\nb\"").unwrap(), "a\nb");
}

#[test]
fn cooked_string_plain_and_empty() {
    assert_eq!(parse_lit_str_cooked("\"\"").unwrap(), "");
    assert_eq!(parse_lit_str_cooked("\"hello\"").unwrap(), "hello");
}

#[test]
fn cooked_string_all_simple_escapes() {
    assert_eq!(
        parse_lit_str_cooked("\"\\n\\r\\t\\\\\\0\\'\\\"\"").unwrap(),
        "\n\r\t\\\0'\""
    );
}

#[test]
fn cooked_string_hex_and_unicode_escapes() {
    assert_eq!(parse_lit_str_cooked("\"\\x41\\u{e9}\"").unwrap(), "A\u{e9}");
    assert_eq!(parse_lit_str_cooked("\"\\x80\"").unwrap(), "\u{80}");
}

#[test]
fn cooked_string_line_continuation() {
    assert_eq!(parse_lit_str_cooked("\"a\\\n   b\"").unwrap(), "ab");
}

#[test]
fn cooked_string_crlf_collapses() {
    assert_eq!(parse_lit_str_cooked("\"a\r\nb\"").unwrap(), "a\nb");
}

#[test]
fn cooked_string_unterminated() {
    assert_eq!(
        parse_lit_str_cooked("\"abc").unwrap_err(),
        LitError::UnrecognizedLiteral
    );
}

#[test]
fn cooked_string_empty_unicode_escape_rejected() {
    assert_eq!(
        parse_lit_str_cooked("\"\\u{}\"").unwrap_err(),
        LitError::InvalidUnicodeEscape
    );
}

#[test]
fn cooked_string_seven_digit_unicode_escape_rejected() {
    assert_eq!(
        parse_lit_str_cooked("\"\\u{0000041}\"").unwrap_err(),
        LitError::InvalidUnicodeEscape
    );
}

#[test]
fn raw_string_with_hashes() {
    assert_eq!(parse_lit_str_raw("r##\"a\"b\"##").unwrap(), "a\"b");
}

#[test]
fn raw_string_keeps_backslashes() {
    assert_eq!(parse_lit_str_raw("r\"a\\nb\"").unwrap(), "a\\nb");
}

#[test]
fn raw_string_unbalanced_hashes() {
    assert_eq!(
        parse_lit_str_raw("r##\"a\"#").unwrap_err(),
        LitError::UnrecognizedLiteral
    );
}

#[test]
fn string_dispatch_by_first_byte() {
    assert_eq!(parse_lit_str("\"x\"").unwrap(), "x");
    assert_eq!(parse_lit_str("r#\"x\"#").unwrap(), "x");
    assert_eq!(
        parse_lit_str("zzz").unwrap_err(),
        LitError::UnrecognizedLiteral
    );
}

#[test]
fn byte_string_cooked() {
    assert_eq!(
        parse_lit_byte_str_cooked("b\"a\\xFF\\0\"").unwrap(),
        vec![0x61, 0xFF, 0x00]
    );
}

#[test]
fn byte_string_raw() {
    assert_eq!(parse_lit_byte_str_raw("br#\"ab\"#").unwrap(), vec![0x61, 0x62]);
}

#[test]
fn byte_string_dispatch() {
    assert_eq!(parse_lit_byte_str("b\"ok\"").unwrap(), vec![0x6F, 0x6B]);
    assert_eq!(parse_lit_byte_str("br\"ok\"").unwrap(), vec![0x6F, 0x6B]);
}

#[test]
fn byte_string_line_continuation() {
    assert_eq!(parse_lit_byte_str("b\"a\\\n  b\"").unwrap(), vec![0x61, 0x62]);
}

#[test]
fn byte_literal_plain_and_escaped() {
    assert_eq!(parse_lit_byte("b'f'").unwrap(), 0x66);
    assert_eq!(parse_lit_byte("b'\\xFF'").unwrap(), 0xFF);
    assert_eq!(parse_lit_byte("b'\\0'").unwrap(), 0);
}

#[test]
fn byte_literal_missing_close() {
    assert_eq!(
        parse_lit_byte("b'ab").unwrap_err(),
        LitError::UnrecognizedLiteral
    );
}

#[test]
fn char_literal_plain_and_escaped() {
    assert_eq!(parse_lit_char("'a'").unwrap(), 'a');
    assert_eq!(parse_lit_char("'\\t'").unwrap(), '\t');
    assert_eq!(parse_lit_char("'\\u{1F600}'").unwrap(), '\u{1F600}');
    assert_eq!(parse_lit_char("'\\x41'").unwrap(), 'A');
}

#[test]
fn char_literal_trailing_content() {
    assert_eq!(
        parse_lit_char("'ab'").unwrap_err(),
        LitError::UnrecognizedLiteral
    );
}

#[test]
fn int_hex_with_separators() {
    assert_eq!(parse_lit_int("0x_1_0").unwrap(), Some(16));
}

#[test]
fn int_bases_and_suffixes() {
    assert_eq!(parse_lit_int("0o17").unwrap(), Some(15));
    assert_eq!(parse_lit_int("0b101").unwrap(), Some(5));
    assert_eq!(parse_lit_int("42u8").unwrap(), Some(42));
    assert_eq!(parse_lit_int("1_000_000").unwrap(), Some(1000000));
}

#[test]
fn int_overflow_is_no_value() {
    assert_eq!(parse_lit_int("18446744073709551616").unwrap(), None);
}

#[test]
fn int_float_shapes_are_no_value() {
    assert_eq!(parse_lit_int("1.5").unwrap(), None);
    assert_eq!(parse_lit_int("1e5").unwrap(), None);
}

#[test]
fn int_out_of_base_digit_is_fatal() {
    assert_eq!(parse_lit_int("0b2").unwrap_err(), LitError::InvalidHexDigit);
    assert_eq!(parse_lit_int("0o8").unwrap_err(), LitError::InvalidHexDigit);
}

#[test]
fn number_shape_checks() {
    assert!(number_is_float("1.0"));
    assert!(number_is_float("1e5"));
    assert!(!number_is_float("1usize"));
    assert!(!number_is_float("0xEE"));
    assert_eq!(number_is_int("7").unwrap(), true);
    assert_eq!(number_is_int("1.0").unwrap(), false);
    assert_eq!(number_is_int("18446744073709551616").unwrap(), false);
    assert_eq!(number_is_int("0b2").unwrap_err(), LitError::InvalidHexDigit);
}

#[test]
fn float_digits_strips_and_truncates() {
    assert_eq!(float_digits("1.0e10f64"), "1.0e10");
    assert_eq!(float_digits("1_000.5"), "1000.5");
    assert_eq!(float_digits("2.5"), "2.5");
}

#[test]
fn escape_helpers() {
    let t = chars_vec("41");
    assert_eq!(backslash_x(&t, 0).unwrap(), (0x41, 2));
    let u = chars_vec("{1f600}x");
    assert_eq!(backslash_u(&u, 0).unwrap(), ('\u{1F600}', 7));
    let bad = chars_vec("4z");
    assert_eq!(backslash_x(&bad, 0).unwrap_err(), LitError::InvalidHexDigit);
}

#[test]
fn small_utilities() {
    assert_eq!(byte(b"abc", 1), b'b');
    assert_eq!(byte(b"abc", 9), 0);
    assert_eq!(next_chr("xyz"), 'x');
    assert_eq!(next_chr(""), '\0');
    assert_eq!(hex_val('a'), Some(10));
    assert_eq!(hex_val('G'), None);
    assert!(whitespace_char('\t'));
    assert!(!whitespace_char('x'));
}
