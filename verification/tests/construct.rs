//! The write path: constructors produce canonical token text, and decoding
//! the constructed text returns the original value.

use litcodec::lit::{LitByte, LitByteStr, LitChar, LitFloat, LitInt, LitStr};
use litcodec::{FloatSuffix, IntSuffix, Span, StrStyle};

fn sp() -> Span {
    Span::new(0, 0)
}

#[test]
fn string_escapes_specials() {
    let l = LitStr::new("a\nb", sp());
    assert_eq!(l.token, "\"a\\nb\"");
    assert_eq!(l.value(), "a\nb");
}

#[test]
fn string_escapes_non_ascii_as_unicode() {
    let l = LitStr::new("\u{e9}", sp());
    assert_eq!(l.token, "\"\\u{e9}\"");
    assert_eq!(l.value(), "\u{e9}");
}

#[test]
fn string_escape_inverse_round_trip() {
    for v in ["", "plain", "q\"q", "back\\slash", "\r\n\t\0'", "mixed \u{1F600}\u{7f}"] {
        let l = LitStr::new(v, sp());
        assert_eq!(l.value(), v);
    }
}

#[test]
fn byte_string_escapes() {
    let l = LitByteStr::new(&[0, 9, 0x61, 0xFF, 0x22], sp());
    assert_eq!(l.token, "b\"\\0\\ta\\xFF\\\"\"");
    assert_eq!(l.value(), vec![0, 9, 0x61, 0xFF, 0x22]);
}

#[test]
fn byte_string_escape_inverse_round_trip() {
    let all: Vec<u8> = (0..=255).collect();
    let l = LitByteStr::new(&all, sp());
    assert_eq!(l.value(), all);
}

#[test]
fn byte_escapes() {
    assert_eq!(LitByte::new(0, sp()).token, "b'\\0'");
    assert_eq!(LitByte::new(b'"', sp()).token, "b'\"'");
    assert_eq!(LitByte::new(b'\'', sp()).token, "b'\\''");
    assert_eq!(LitByte::new(0x9D, sp()).token, "b'\\x9d'");
    assert_eq!(LitByte::new(b'f', sp()).token, "b'f'");
}

#[test]
fn byte_escape_inverse_round_trip() {
    for b in 0..=255u8 {
        assert_eq!(LitByte::new(b, sp()).value(), b);
    }
}

#[test]
fn char_escapes() {
    assert_eq!(LitChar::new('a', sp()).token, "'a'");
    assert_eq!(LitChar::new('\'', sp()).token, "'\\''");
    assert_eq!(LitChar::new('"', sp()).token, "'\\\"'");
    assert_eq!(LitChar::new('\u{1F600}', sp()).token, "'\\u{1f600}'");
}

#[test]
fn char_escape_inverse_round_trip() {
    for c in ['a', ' ', '~', '\t', '\r', '\n', '\\', '\'', '"', '\0', '\u{7f}', '\u{e9}',
        '\u{FFFD}', '\u{10FFFF}'] {
        assert_eq!(LitChar::new(c, sp()).value(), c);
    }
}

#[test]
fn int_unsigned_tokens() {
    assert_eq!(LitInt::new(1, IntSuffix::U16, sp()).token, "1u16");
    assert_eq!(LitInt::new(300, IntSuffix::U8, sp()).token, "44u8");
    assert_eq!(LitInt::new(123, IntSuffix::U128, sp()).token, "123u128");
    assert_eq!(
        LitInt::new(u64::MAX, IntSuffix::U64, sp()).token,
        "18446744073709551615u64"
    );
}

#[test]
fn int_signed_tokens_reinterpret() {
    assert_eq!(LitInt::new(255, IntSuffix::I8, sp()).token, "-1i8");
    assert_eq!(LitInt::new(5, IntSuffix::I8, sp()).token, "5i8");
    assert_eq!(LitInt::new(123, IntSuffix::I128, sp()).token, "123i128");
    assert_eq!(LitInt::new(u64::MAX, IntSuffix::NoSuffix, sp()).token, "-1");
    assert_eq!(LitInt::new(5, IntSuffix::NoSuffix, sp()).token, "5");
}

#[test]
fn int_constructed_value_round_trip() {
    let l = LitInt::new(1, IntSuffix::U16, sp());
    assert_eq!(l.value(), 1);
    assert_eq!(l.suffix(), IntSuffix::U16);
    let m = LitInt::new(300, IntSuffix::U8, sp());
    assert_eq!(m.value(), 44);
    let n = LitInt::new(7, IntSuffix::Usize, sp());
    assert_eq!(n.value(), 7);
    assert_eq!(n.suffix(), IntSuffix::Usize);
    let p = LitInt::new(40, IntSuffix::Isize, sp());
    assert_eq!(p.value(), 40);
}

#[test]
fn int_suffix_scan_on_all_spellings() {
    for (text, suffix) in [
        ("1i8", IntSuffix::I8),
        ("1i16", IntSuffix::I16),
        ("1i32", IntSuffix::I32),
        ("1i64", IntSuffix::I64),
        ("1i128", IntSuffix::I128),
        ("1isize", IntSuffix::Isize),
        ("1u8", IntSuffix::U8),
        ("1u16", IntSuffix::U16),
        ("1u32", IntSuffix::U32),
        ("1u64", IntSuffix::U64),
        ("1u128", IntSuffix::U128),
        ("1usize", IntSuffix::Usize),
        ("128", IntSuffix::NoSuffix),
    ] {
        let l = LitInt { token: text.to_string(), span: sp() };
        assert_eq!(l.suffix(), suffix);
    }
}

#[test]
fn float_suffix_scan() {
    for (text, suffix) in [
        ("1.0f32", FloatSuffix::F32),
        ("1.0f64", FloatSuffix::F64),
        ("1.0", FloatSuffix::NoSuffix),
    ] {
        let l = LitFloat { token: text.to_string(), span: sp() };
        assert_eq!(l.suffix(), suffix);
    }
}

#[test]
fn string_style_of_classified_tokens() {
    let cooked = LitStr { token: "\"x\"".to_string(), span: sp() };
    assert_eq!(cooked.style(), StrStyle::Cooked);
    let raw = LitStr { token: "r##\"x\"##".to_string(), span: sp() };
    assert_eq!(raw.style(), StrStyle::Raw(2));
    assert_eq!(LitStr::new("x", sp()).style(), StrStyle::Cooked);
}
