//! Classification: raw token text to the right literal kind and value.

use litcodec::lit::{Lit, LitBool};
use litcodec::{IntSuffix, LitError, Span};

fn sp() -> Span {
    Span::new(0, 0)
}

#[test]
fn classify_string() {
    let l = Lit::new("\"foo\"".to_string(), sp()).unwrap();
    match l {
        Lit::Str(s) => {
            assert_eq!(s.token, "\"foo\"");
            assert_eq!(s.value(), "foo");
        }
        _ => panic!("expected a string literal"),
    }
}

#[test]
fn classify_raw_string() {
    let l = Lit::new("r#\"fo\"o\"#".to_string(), sp()).unwrap();
    match l {
        Lit::Str(s) => assert_eq!(s.value(), "fo\"o"),
        _ => panic!("expected a string literal"),
    }
}

#[test]
fn classify_byte() {
    let l = Lit::new("b'f'".to_string(), sp()).unwrap();
    match l {
        Lit::Byte(b) => assert_eq!(b.value(), 0x66),
        _ => panic!("expected a byte literal"),
    }
}

#[test]
fn classify_byte_string() {
    let l = Lit::new("b\"a\\x00\"".to_string(), sp()).unwrap();
    match l {
        Lit::ByteStr(b) => assert_eq!(b.value(), vec![0x61, 0x00]),
        _ => panic!("expected a byte-string literal"),
    }
}

#[test]
fn classify_char() {
    let l = Lit::new("'a'".to_string(), sp()).unwrap();
    match l {
        Lit::Char(c) => assert_eq!(c.value(), 'a'),
        _ => panic!("expected a character literal"),
    }
}

#[test]
fn classify_int_with_suffix() {
    let l = Lit::new("1u16".to_string(), sp()).unwrap();
    match l {
        Lit::Int(i) => {
            assert_eq!(i.value(), 1);
            assert_eq!(i.suffix(), IntSuffix::U16);
        }
        _ => panic!("expected an integer literal"),
    }
}

#[test]
fn classify_hex_int() {
    let l = Lit::new("0xDEADBEEF".to_string(), sp()).unwrap();
    match l {
        Lit::Int(i) => assert_eq!(i.value(), 0xDEADBEEF),
        _ => panic!("expected an integer literal"),
    }
}

#[test]
fn classify_float_with_suffix() {
    let l = Lit::new("1.0e10f64".to_string(), sp()).unwrap();
    match l {
        Lit::Float(f) => {
            assert_eq!(f.token, "1.0e10f64");
            assert_eq!(f.suffix(), litcodec::FloatSuffix::F64);
        }
        _ => panic!("expected a float literal"),
    }
}

#[test]
fn classify_exponent_float() {
    let l = Lit::new("1e5".to_string(), sp()).unwrap();
    assert!(matches!(l, Lit::Float(_)));
}

#[test]
fn classify_bool_true() {
    let l = Lit::new("true".to_string(), sp()).unwrap();
    match l {
        Lit::Bool(b) => assert!(b.value),
        _ => panic!("expected a boolean literal"),
    }
}

#[test]
fn classify_bool_false() {
    let l = Lit::new("false".to_string(), sp()).unwrap();
    match l {
        Lit::Bool(b) => assert!(!b.value),
        _ => panic!("expected a boolean literal"),
    }
}

#[test]
fn classify_overflow_verbatim() {
    // One past the largest 64-bit value: preserved as opaque text.
    let l = Lit::new("18446744073709551616".to_string(), sp()).unwrap();
    match l {
        Lit::Verbatim(v) => assert_eq!(v.token, "18446744073709551616"),
        _ => panic!("expected a verbatim literal"),
    }
}

#[test]
fn classify_max_u64_is_int() {
    let l = Lit::new("18446744073709551615".to_string(), sp()).unwrap();
    match l {
        Lit::Int(i) => assert_eq!(i.value(), u64::MAX),
        _ => panic!("expected an integer literal"),
    }
}

#[test]
fn classify_unrecognized() {
    assert_eq!(
        Lit::new("@".to_string(), sp()).unwrap_err(),
        LitError::UnrecognizedLiteral
    );
    assert_eq!(
        Lit::new("".to_string(), sp()).unwrap_err(),
        LitError::UnrecognizedLiteral
    );
    assert_eq!(
        Lit::new("trueish".to_string(), sp()).unwrap_err(),
        LitError::UnrecognizedLiteral
    );
}

#[test]
fn classify_out_of_base_digit() {
    assert_eq!(
        Lit::new("0b2".to_string(), sp()).unwrap_err(),
        LitError::InvalidHexDigit
    );
}

#[test]
fn classify_bad_escape() {
    assert_eq!(
        Lit::new("\"\\q\"".to_string(), sp()).unwrap_err(),
        LitError::MalformedEscape
    );
}

#[test]
fn classify_big_hex_byte_in_string() {
    assert_eq!(
        Lit::new("\"\\xFF\"".to_string(), sp()).unwrap_err(),
        LitError::InvalidByteEscape
    );
}

#[test]
fn classify_bare_carriage_return() {
    assert_eq!(
        Lit::new("\"a\rb\"".to_string(), sp()).unwrap_err(),
        LitError::BareCarriageReturn
    );
}

#[test]
fn classify_surrogate_escape() {
    assert_eq!(
        Lit::new("\"\\u{D800}\"".to_string(), sp()).unwrap_err(),
        LitError::InvalidUnicodeEscape
    );
}

#[test]
fn classify_unicode_escape_in_byte_string() {
    assert_eq!(
        Lit::new("b\"\\u{41}\"".to_string(), sp()).unwrap_err(),
        LitError::MalformedEscape
    );
}

#[test]
fn round_trip_emits_original_text() {
    for text in [
        "\"foo\"",
        "r##\"a\"b\"##",
        "b\"bytes\\xFF\"",
        "b'q'",
        "'\\n'",
        "42u8",
        "1.5e3f32",
        "18446744073709551616",
    ] {
        let l = Lit::new(text.to_string(), sp()).unwrap();
        let tok = l.to_token();
        assert_eq!(tok.text, text);
        assert!(!tok.is_word);
    }
}

#[test]
fn round_trip_bool_is_word_token() {
    let l = Lit::new("true".to_string(), sp()).unwrap();
    let tok = l.to_token();
    assert_eq!(tok.text, "true");
    assert!(tok.is_word);
}

#[test]
fn span_carries_through() {
    let l = Lit::new("'x'".to_string(), Span::new(3, 6)).unwrap();
    assert_eq!(l.span(), Span::new(3, 6));
    assert_eq!(l.to_token().span, Span::new(3, 6));
}

#[test]
fn parse_shim_literal_first() {
    let r = Lit::parse(Some(("7i32".to_string(), sp())), None).unwrap();
    assert!(matches!(r, Lit::Int(_)));
}

#[test]
fn parse_shim_bool_word() {
    let r = Lit::parse(None, Some(("false".to_string(), sp()))).unwrap();
    match r {
        Lit::Bool(b) => assert!(!b.value),
        _ => panic!("expected a boolean literal"),
    }
}

#[test]
fn parse_shim_no_literal_here() {
    assert_eq!(
        Lit::parse(None, Some(("ident".to_string(), sp()))).unwrap_err(),
        LitError::NoLiteralHere
    );
    assert_eq!(Lit::parse(None, None).unwrap_err(), LitError::NoLiteralHere);
}

#[test]
fn bool_struct_is_plain_data() {
    let b = LitBool { value: true, span: Span::new(1, 2) };
    assert!(b.value);
    assert_eq!(b.span, Span::new(1, 2));
}

#[test]
fn token_equality_is_textual() {
    let a = Lit::new("1u8".to_string(), sp()).unwrap();
    let b = Lit::new("1u8".to_string(), sp()).unwrap();
    // Same decoded value, different spelling: not equal by default.
    let c = Lit::new("0x1u8".to_string(), sp()).unwrap();
    let d = Lit::new("\"x\"".to_string(), sp()).unwrap();
    assert!(a.token_eq(&b));
    assert!(!a.token_eq(&c));
    assert!(!a.token_eq(&d));
}
