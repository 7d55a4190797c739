pub mod chars;
pub mod decode;
pub mod encode;
pub mod laws;
pub mod lit;
pub mod num;

use vstd::prelude::*;

verus! {

/// How decoding or classifying a literal can fail.
///
/// The first six are fatal: the text breaks the literal grammar that the
/// upstream tokenizer is required to uphold. `NoLiteralHere` is recoverable:
/// the cursor simply does not sit on a literal, and the caller's grammar may
/// try another production.
#[derive(Clone, Copy, PartialEq, Eq, Structural, Debug)]
pub enum LitError {
    /// The text matches no literal shape, or its delimiters are malformed.
    UnrecognizedLiteral,
    /// An escape sequence is truncated or uses an unknown escape character.
    MalformedEscape,
    /// A non-hexadecimal character inside `\x`, or a digit outside the base
    /// of a numeric literal.
    InvalidHexDigit,
    /// A `\x` escape above 0x80 in a text (non-byte) context.
    InvalidByteEscape,
    /// A `\u{...}` escape that is malformed or names no Unicode scalar value.
    InvalidUnicodeEscape,
    /// A carriage return not immediately followed by a line feed.
    BareCarriageReturn,
    /// Recoverable: the next token is not a literal at all.
    NoLiteralHere,
}

/// The style of a string literal: plain quoted, or raw with the given count
/// of balancing `#` marks.
#[derive(Clone, Copy, PartialEq, Eq, Structural, Debug)]
pub enum StrStyle {
    Cooked,
    Raw(usize),
}

/// The suffix on an integer literal, if any, like the `u8` in `127u8`.
#[derive(Clone, Copy, PartialEq, Eq, Structural, Debug)]
pub enum IntSuffix {
    I8,
    I16,
    I32,
    I64,
    I128,
    Isize,
    U8,
    U16,
    U32,
    U64,
    U128,
    Usize,
    NoSuffix,
}

/// The suffix on a floating point literal, if any, like the `f32` in
/// `1.0f32`.
#[derive(Clone, Copy, PartialEq, Eq, Structural, Debug)]
pub enum FloatSuffix {
    F32,
    F64,
    NoSuffix,
}

/// Source-location metadata carried on every literal token. The codec never
/// reads positions; it only threads them from input tokens to output tokens.
#[derive(Clone, Copy, PartialEq, Eq, Structural, Debug)]
pub struct Span {
    pub lo: u32,
    pub hi: u32,
}

impl Span {
    pub fn new(lo: u32, hi: u32) -> (s: Span)
        ensures
            s.lo == lo,
            s.hi == hi,
    {
        Span { lo, hi }
    }
}

/// The byte at offset `idx`, or a default of 0 when looking past the end of
/// the input buffer.
pub fn byte(s: &[u8], idx: usize) -> (r: u8)
    ensures
        r == (if idx < s@.len() {
            s@[idx as int]
        } else {
            0u8
        }),
{
    if idx < s.len() {
        s[idx]
    } else {
        0
    }
}

} // verus!
