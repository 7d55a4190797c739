//! The literal union: classification of raw token text into a typed
//! literal, per-kind value decoding, and re-emission as token text.

use vstd::prelude::*;
use vstd::string::StringExecFns;

use crate::chars::{chars_eq_str, chars_vec, string_from_chars};
use crate::encode::{
    build_byte_escape, build_byte_str_escape, build_char_escape, build_str_escape, byte_escape,
    byte_str_escape, char_escape, int_token_spec, int_value_after, push_dec, push_signed_64,
    push_signed_small, str_escape, usize_mod,
};
use crate::laws::{
    lemma_byte_escape_inverse, lemma_byte_str_escape_inverse, lemma_char_escape_inverse,
    lemma_int_token_value, lemma_str_escape_inverse,
};
use crate::decode::{
    byte_lit_spec, byte_str_lit_spec, char_lit_spec, parse_lit_byte, parse_lit_byte_str,
    parse_lit_char, parse_lit_str, pound_run, str_lit_spec,
};
use crate::num::{
    float_suffix_spec, int_lit_spec, int_suffix_spec, is_float_spec, number_is_float,
    parse_lit_int, scan_float_suffix, scan_int_suffix,
};
use crate::{FloatSuffix, IntSuffix, LitError, Span, StrStyle};

verus! {

/// A UTF-8 string literal: `"foo"` or `r#"foo"#`.
#[derive(Clone, Debug)]
pub struct LitStr {
    pub token: String,
    pub span: Span,
}

/// A byte-string literal: `b"foo"` or `br#"foo"#`.
#[derive(Clone, Debug)]
pub struct LitByteStr {
    pub token: String,
    pub span: Span,
}

/// A byte literal: `b'f'`.
#[derive(Clone, Debug)]
pub struct LitByte {
    pub token: String,
    pub span: Span,
}

/// A character literal: `'a'`.
#[derive(Clone, Debug)]
pub struct LitChar {
    pub token: String,
    pub span: Span,
}

/// An integer literal holding up to 64 bits: `1` or `1u16`. Larger values
/// stay in [`LitVerbatim`].
#[derive(Clone, Debug)]
pub struct LitInt {
    pub token: String,
    pub span: Span,
}

/// A floating point literal: `1.0e10f64`. Its numeric value is decoded
/// outside this crate; here it keeps its exact text and suffix.
#[derive(Clone, Debug)]
pub struct LitFloat {
    pub token: String,
    pub span: Span,
}

/// A boolean literal: the decoded value, with no raw text of its own.
#[derive(Clone, Debug)]
pub struct LitBool {
    pub value: bool,
    pub span: Span,
}

/// A literal preserved as opaque text because its numeric value does not
/// fit in 64 bits; re-emitting it is lossless.
#[derive(Clone, Debug)]
pub struct LitVerbatim {
    pub token: String,
    pub span: Span,
}

/// A literal of any kind, as classified from raw token text.
#[derive(Clone, Debug)]
pub enum Lit {
    Str(LitStr),
    ByteStr(LitByteStr),
    Byte(LitByte),
    Char(LitChar),
    Int(LitInt),
    Float(LitFloat),
    Bool(LitBool),
    Verbatim(LitVerbatim),
}

/// The characters of the canonical `true` spelling.
pub open spec fn true_chars() -> Seq<char> {
    seq!['t', 'r', 'u', 'e']
}

/// The characters of the canonical `false` spelling.
pub open spec fn false_chars() -> Seq<char> {
    seq!['f', 'a', 'l', 's', 'e']
}

impl LitStr {
    /// Constructs a string literal token for `value` at `span`: always
    /// cooked style, never raw. Decoding the constructed token returns
    /// `value` again.
    pub fn new(value: &str, span: Span) -> (r: LitStr)
        ensures
            r.token@ == str_escape(value@),
            r.span == span,
            str_lit_spec(r.token@) == Ok::<Seq<char>, LitError>(value@),
            r.wf(),
    {
        let vc = chars_vec(value);
        let out = build_str_escape(&vc);
        let token = string_from_chars(&out);
        proof {
            lemma_str_escape_inverse(value@);
        }
        LitStr { token, span }
    }

    /// Well-formed: the stored text is a valid string literal.
    pub open spec fn wf(&self) -> bool {
        str_lit_spec(self.token@) is Ok
    }

    /// The style the stored text uses: plain cooked quoting, or raw with
    /// its count of balancing hash marks.
    #[verifier::loop_isolation(false)]
    pub fn style(&self) -> (r: StrStyle)
        requires
            self.wf(),
        ensures
            r == (if self.token@[0] == '"' {
                StrStyle::Cooked
            } else {
                StrStyle::Raw(pound_run(self.token@, 1) as usize)
            }),
    {
        let t = chars_vec(self.token.as_str());
        if t[0] == '"' {
            StrStyle::Cooked
        } else {
            let mut q: usize = 1;
            while q < t.len() && t[q] == '#'
                invariant
                    1 <= q && q <= t@.len(),
                    forall|m: int| 1 <= m < q ==> t@[m] == '#',
                decreases t@.len() - q,
            {
                q = q + 1;
            }
            proof {
                crate::decode::lemma_pound_run(t@, 1, q as int);
            }
            StrStyle::Raw(q - 1)
        }
    }

    /// The decoded text value of this string literal.
    pub fn value(&self) -> (r: String)
        requires
            self.wf(),
        ensures
            str_lit_spec(self.token@) == Ok::<Seq<char>, LitError>(r@),
    {
        match parse_lit_str(self.token.as_str()) {
            Ok(v) => v,
            Err(_) => vstd::pervasive::unreached(),
        }
    }
}

impl LitByteStr {
    /// Constructs a byte-string literal token for `value` at `span`: always
    /// cooked style. Decoding the constructed token returns `value` again.
    pub fn new(value: &[u8], span: Span) -> (r: LitByteStr)
        ensures
            r.token@ == byte_str_escape(value@),
            r.span == span,
            byte_str_lit_spec(r.token@) == Ok::<Seq<u8>, LitError>(value@),
            r.wf(),
    {
        let out = build_byte_str_escape(value);
        let token = string_from_chars(&out);
        proof {
            lemma_byte_str_escape_inverse(value@);
        }
        LitByteStr { token, span }
    }

    /// Well-formed: the stored text is a valid byte-string literal.
    pub open spec fn wf(&self) -> bool {
        byte_str_lit_spec(self.token@) is Ok
    }

    /// The decoded byte value of this byte-string literal.
    pub fn value(&self) -> (r: Vec<u8>)
        requires
            self.wf(),
        ensures
            byte_str_lit_spec(self.token@) == Ok::<Seq<u8>, LitError>(r@),
    {
        match parse_lit_byte_str(self.token.as_str()) {
            Ok(v) => v,
            Err(_) => vstd::pervasive::unreached(),
        }
    }
}

impl LitByte {
    /// Constructs a byte literal token for `value` at `span`. Decoding the
    /// constructed token returns `value` again.
    pub fn new(value: u8, span: Span) -> (r: LitByte)
        ensures
            r.token@ == byte_escape(value),
            r.span == span,
            byte_lit_spec(r.token@) == Ok::<u8, LitError>(value),
            r.wf(),
    {
        let out = build_byte_escape(value);
        let token = string_from_chars(&out);
        proof {
            lemma_byte_escape_inverse(value);
        }
        LitByte { token, span }
    }

    /// Well-formed: the stored text is a valid byte literal.
    pub open spec fn wf(&self) -> bool {
        byte_lit_spec(self.token@) is Ok
    }

    /// The decoded byte of this byte literal.
    pub fn value(&self) -> (r: u8)
        requires
            self.wf(),
        ensures
            byte_lit_spec(self.token@) == Ok::<u8, LitError>(r),
    {
        match parse_lit_byte(self.token.as_str()) {
            Ok(v) => v,
            Err(_) => vstd::pervasive::unreached(),
        }
    }
}

impl LitChar {
    /// Constructs a character literal token for `value` at `span`. Decoding
    /// the constructed token returns `value` again.
    pub fn new(value: char, span: Span) -> (r: LitChar)
        ensures
            r.token@ == char_escape(value),
            r.span == span,
            char_lit_spec(r.token@) == Ok::<char, LitError>(value),
            r.wf(),
    {
        let out = build_char_escape(value);
        let token = string_from_chars(&out);
        proof {
            lemma_char_escape_inverse(value);
        }
        LitChar { token, span }
    }

    /// Well-formed: the stored text is a valid character literal.
    pub open spec fn wf(&self) -> bool {
        char_lit_spec(self.token@) is Ok
    }

    /// The decoded character of this character literal.
    pub fn value(&self) -> (r: char)
        requires
            self.wf(),
        ensures
            char_lit_spec(self.token@) == Ok::<char, LitError>(r),
    {
        match parse_lit_char(self.token.as_str()) {
            Ok(v) => v,
            Err(_) => vstd::pervasive::unreached(),
        }
    }
}

impl LitInt {
    /// Constructs an integer literal token for `value` at `span`: the
    /// decimal rendering of `value` reinterpreted at the suffix's width and
    /// signedness, followed by the suffix spelling. The 128-bit suffixes
    /// and the unsuffixed form render the 64-bit value directly, the
    /// unsuffixed one as a signed 64-bit value. Whenever the rendering is
    /// non-negative, the constructed token re-decodes to it.
    #[verifier::loop_isolation(false)]
    #[verifier::rlimit(60)]
    pub fn new(value: u64, suffix: IntSuffix, span: Span) -> (r: LitInt)
        ensures
            r.token@ == int_token_spec(value, suffix),
            r.span == span,
            int_value_after(value, suffix) is Some ==> r.wf() && int_lit_spec(r.token@)
                == Ok::<Option<u64>, LitError>(Some(int_value_after(value, suffix)->0)),
    {
        let mut out: Vec<char> = Vec::new();
        match suffix {
            IntSuffix::I8 => {
                proof {
                    assert((value as int % 0x100) % 0x100 == value as int % 0x100);
                }
                push_signed_small(&mut out, value % 0x100, 0x100);
                out.push('i');
                out.push('8');
            
                proof {
                    assert(out@ =~= int_token_spec(value, suffix));
                }
            },
            IntSuffix::I16 => {
                proof {
                    assert((value as int % 0x10000) % 0x10000 == value as int % 0x10000);
                }
                push_signed_small(&mut out, value % 0x10000, 0x10000);
                out.push('i');
                out.push('1');
                out.push('6');
            
                proof {
                    assert(out@ =~= int_token_spec(value, suffix));
                }
            },
            IntSuffix::I32 => {
                proof {
                    assert((value as int % 0x100000000) % 0x100000000 == value as int
                        % 0x100000000);
                }
                push_signed_small(&mut out, value % 0x100000000, 0x100000000);
                out.push('i');
                out.push('3');
                out.push('2');
            
                proof {
                    assert(out@ =~= int_token_spec(value, suffix));
                }
            },
            IntSuffix::I64 => {
                push_signed_64(&mut out, value);
                out.push('i');
                out.push('6');
                out.push('4');
            
                proof {
                    assert(out@ =~= int_token_spec(value, suffix));
                }
            },
            IntSuffix::I128 => {
                push_dec(&mut out, value);
                out.push('i');
                out.push('1');
                out.push('2');
                out.push('8');
            
                proof {
                    assert(out@ =~= int_token_spec(value, suffix));
                }
            },
            IntSuffix::Isize => {
                let mx: u64 = usize::MAX as u64;
                if mx == u64::MAX {
                    proof {
                        assert(usize_mod() == 0x10000000000000000);
                    }
                    push_signed_64(&mut out, value);
                } else {
                    let m: u64 = mx + 1;
                    proof {
                        assert(usize_mod() == m as int);
                        vstd::arithmetic::div_mod::lemma_small_mod(
                            (value % m) as nat,
                            m as nat,
                        );
                    }
                    push_signed_small(&mut out, value % m, m);
                }
                out.push('i');
                out.push('s');
                out.push('i');
                out.push('z');
                out.push('e');
            
                proof {
                    assert(out@ =~= int_token_spec(value, suffix));
                }
            },
            IntSuffix::U8 => {
                push_dec(&mut out, value % 0x100);
                out.push('u');
                out.push('8');
            
                proof {
                    assert(out@ =~= int_token_spec(value, suffix));
                }
            },
            IntSuffix::U16 => {
                push_dec(&mut out, value % 0x10000);
                out.push('u');
                out.push('1');
                out.push('6');
            
                proof {
                    assert(out@ =~= int_token_spec(value, suffix));
                }
            },
            IntSuffix::U32 => {
                push_dec(&mut out, value % 0x100000000);
                out.push('u');
                out.push('3');
                out.push('2');
            
                proof {
                    assert(out@ =~= int_token_spec(value, suffix));
                }
            },
            IntSuffix::U64 => {
                push_dec(&mut out, value);
                out.push('u');
                out.push('6');
                out.push('4');
            
                proof {
                    assert(out@ =~= int_token_spec(value, suffix));
                }
            },
            IntSuffix::U128 => {
                push_dec(&mut out, value);
                out.push('u');
                out.push('1');
                out.push('2');
                out.push('8');
            
                proof {
                    assert(out@ =~= int_token_spec(value, suffix));
                }
            },
            IntSuffix::Usize => {
                let mx: u64 = usize::MAX as u64;
                if mx == u64::MAX {
                    proof {
                        assert(usize_mod() == 0x10000000000000000);
                        assert(value as int % usize_mod() == value as int);
                    }
                    push_dec(&mut out, value);
                } else {
                    let m: u64 = mx + 1;
                    proof {
                        assert(usize_mod() == m as int);
                    }
                    push_dec(&mut out, value % m);
                }
                out.push('u');
                out.push('s');
                out.push('i');
                out.push('z');
                out.push('e');
            
                proof {
                    assert(out@ =~= int_token_spec(value, suffix));
                }
            },
            IntSuffix::NoSuffix => {
                push_signed_64(&mut out, value);
                proof {
                    assert(out@ =~= int_token_spec(value, suffix));
                }
            },
        }
        proof {
            lemma_int_token_value(value, suffix);
        }
        let token = string_from_chars(&out);
        LitInt { token, span }
    }

    /// Well-formed: the stored text is a valid integer literal whose value
    /// fits in 64 bits.
    pub open spec fn wf(&self) -> bool {
        int_lit_spec(self.token@) matches Ok(Some(_))
    }

    /// The decoded value of this integer literal.
    pub fn value(&self) -> (r: u64)
        requires
            self.wf(),
        ensures
            int_lit_spec(self.token@) == Ok::<Option<u64>, LitError>(Some(r)),
    {
        match parse_lit_int(self.token.as_str()) {
            Ok(Some(v)) => v,
            _ => vstd::pervasive::unreached(),
        }
    }

    /// The suffix spelled at the end of this literal's text.
    pub fn suffix(&self) -> (r: IntSuffix)
        ensures
            r == int_suffix_spec(self.token@),
    {
        scan_int_suffix(self.token.as_str())
    }
}

impl LitFloat {
    /// Well-formed: the stored text starts with a digit and is
    /// float-shaped.
    pub open spec fn wf(&self) -> bool {
        self.token@.len() >= 1 && 48 <= self.token@[0] as u32 && self.token@[0] as u32 <= 57
            && is_float_spec(self.token@)
    }

    /// The suffix spelled at the end of this literal's text.
    pub fn suffix(&self) -> (r: FloatSuffix)
        ensures
            r == float_suffix_spec(self.token@),
    {
        scan_float_suffix(self.token.as_str())
    }
}

/// The error classification of `t` reports, or `None` when `t` classifies.
/// The leading bytes pick the kind; the kind's decoder validates the rest.
pub open spec fn classify_err(t: Seq<char>) -> Option<LitError> {
    if t.len() >= 1 && (t[0] == '"' || t[0] == 'r') {
        match str_lit_spec(t) {
            Ok(_) => None,
            Err(e) => Some(e),
        }
    } else if t.len() >= 2 && t[0] == 'b' && (t[1] == '"' || t[1] == 'r') {
        match byte_str_lit_spec(t) {
            Ok(_) => None,
            Err(e) => Some(e),
        }
    } else if t.len() >= 2 && t[0] == 'b' && t[1] == '\'' {
        match byte_lit_spec(t) {
            Ok(_) => None,
            Err(e) => Some(e),
        }
    } else if t.len() >= 1 && t[0] == '\'' {
        match char_lit_spec(t) {
            Ok(_) => None,
            Err(e) => Some(e),
        }
    } else if t.len() >= 1 && 48 <= t[0] as u32 && t[0] as u32 <= 57 {
        if is_float_spec(t) {
            None
        } else {
            match int_lit_spec(t) {
                Ok(_) => None,
                Err(e) => Some(e),
            }
        }
    } else if t == true_chars() || t == false_chars() {
        None
    } else {
        Some(LitError::UnrecognizedLiteral)
    }
}

/// What a successful classification of `t` at `span` must produce: the
/// matching kind for the leading bytes, validated text stored unchanged,
/// and the given span.
pub open spec fn classified(t: Seq<char>, span: Span, l: Lit) -> bool {
    match l {
        Lit::Str(x) => t.len() >= 1 && (t[0] == '"' || t[0] == 'r') && str_lit_spec(t) is Ok
            && x.token@ == t && x.span == span,
        Lit::ByteStr(x) => t.len() >= 2 && t[0] == 'b' && (t[1] == '"' || t[1] == 'r')
            && byte_str_lit_spec(t) is Ok && x.token@ == t && x.span == span,
        Lit::Byte(x) => t.len() >= 2 && t[0] == 'b' && t[1] == '\'' && byte_lit_spec(t) is Ok
            && x.token@ == t && x.span == span,
        Lit::Char(x) => t.len() >= 1 && t[0] == '\'' && char_lit_spec(t) is Ok && x.token@ == t
            && x.span == span,
        Lit::Int(x) => t.len() >= 1 && 48 <= t[0] as u32 && t[0] as u32 <= 57 && !is_float_spec(t)
            && (int_lit_spec(t) matches Ok(Some(_))) && x.token@ == t && x.span == span,
        Lit::Float(x) => t.len() >= 1 && 48 <= t[0] as u32 && t[0] as u32 <= 57 && is_float_spec(t)
            && x.token@ == t && x.span == span,
        Lit::Bool(x) => ((t == true_chars() && x.value) || (t == false_chars() && !x.value))
            && x.span == span,
        Lit::Verbatim(x) => t.len() >= 1 && 48 <= t[0] as u32 && t[0] as u32 <= 57
            && !is_float_spec(t) && int_lit_spec(t) == Ok::<Option<u64>, LitError>(None)
            && x.token@ == t && x.span == span,
    }
}

impl Lit {
    /// Classifies raw token text into a typed literal. The kind is decided
    /// by the leading bytes; the kind's decoder validates the text, so
    /// every stored token is well-formed. Text whose numeric value
    /// overflows 64 bits is preserved verbatim rather than rejected.
    pub fn new(token: String, span: Span) -> (r: Result<Lit, LitError>)
        ensures
            (match r {
                Ok(l) => classify_err(token@) is None && classified(token@, span, l),
                Err(e) => classify_err(token@) == Some(e),
            }),
    {
        proof {
            reveal_strlit("true");
            reveal_strlit("false");
            assert("true"@ =~= true_chars());
            assert("false"@ =~= false_chars());
        }
        let t = chars_vec(token.as_str());
        if t.len() >= 1 && (t[0] == '"' || t[0] == 'r') {
            match parse_lit_str(token.as_str()) {
                Ok(_) => Ok(Lit::Str(LitStr { token, span })),
                Err(e) => Err(e),
            }
        } else if t.len() >= 2 && t[0] == 'b' && (t[1] == '"' || t[1] == 'r') {
            match parse_lit_byte_str(token.as_str()) {
                Ok(_) => Ok(Lit::ByteStr(LitByteStr { token, span })),
                Err(e) => Err(e),
            }
        } else if t.len() >= 2 && t[0] == 'b' && t[1] == '\'' {
            match parse_lit_byte(token.as_str()) {
                Ok(_) => Ok(Lit::Byte(LitByte { token, span })),
                Err(e) => Err(e),
            }
        } else if t.len() >= 1 && t[0] == '\'' {
            match parse_lit_char(token.as_str()) {
                Ok(_) => Ok(Lit::Char(LitChar { token, span })),
                Err(e) => Err(e),
            }
        } else {
            let is_digit = t.len() >= 1 && 48 <= (t[0] as u32) && (t[0] as u32) <= 57;
            if is_digit {
                if number_is_float(token.as_str()) {
                    Ok(Lit::Float(LitFloat { token, span }))
                } else {
                    match parse_lit_int(token.as_str()) {
                        Ok(Some(_)) => Ok(Lit::Int(LitInt { token, span })),
                        Ok(None) => Ok(Lit::Verbatim(LitVerbatim { token, span })),
                        Err(e) => Err(e),
                    }
                }
            } else if chars_eq_str(&t, "true") {
                Ok(Lit::Bool(LitBool { value: true, span }))
            } else if chars_eq_str(&t, "false") {
                Ok(Lit::Bool(LitBool { value: false, span }))
            } else {
                Err(LitError::UnrecognizedLiteral)
            }
        }
    }
}

/// The span a literal carries.
pub open spec fn lit_span(l: Lit) -> Span {
    match l {
        Lit::Str(x) => x.span,
        Lit::ByteStr(x) => x.span,
        Lit::Byte(x) => x.span,
        Lit::Char(x) => x.span,
        Lit::Int(x) => x.span,
        Lit::Float(x) => x.span,
        Lit::Bool(x) => x.span,
        Lit::Verbatim(x) => x.span,
    }
}

/// The token text a literal re-emits: its stored raw text unchanged,
/// except Boolean, which emits the canonical `true`/`false` spelling.
pub open spec fn emit_text(l: Lit) -> Seq<char> {
    match l {
        Lit::Str(x) => x.token@,
        Lit::ByteStr(x) => x.token@,
        Lit::Byte(x) => x.token@,
        Lit::Char(x) => x.token@,
        Lit::Int(x) => x.token@,
        Lit::Float(x) => x.token@,
        Lit::Bool(x) => if x.value {
            true_chars()
        } else {
            false_chars()
        },
        Lit::Verbatim(x) => x.token@,
    }
}

/// A token ready for the output stream: raw text, the span it carries, and
/// whether it is a bare word (`true`/`false`) rather than a literal token.
#[derive(Clone, Debug)]
pub struct RawToken {
    pub text: String,
    pub span: Span,
    pub is_word: bool,
}

impl Lit {
    /// The span carried by this literal.
    pub fn span(&self) -> (r: Span)
        ensures
            r == lit_span(*self),
    {
        match self {
            Lit::Str(x) => x.span,
            Lit::ByteStr(x) => x.span,
            Lit::Byte(x) => x.span,
            Lit::Char(x) => x.span,
            Lit::Int(x) => x.span,
            Lit::Float(x) => x.span,
            Lit::Bool(x) => x.span,
            Lit::Verbatim(x) => x.span,
        }
    }

    /// Serializes this literal back into token form at its stored span.
    /// Every kind re-emits its raw text as a literal token, except Boolean,
    /// which becomes a word-shaped token spelling `true` or `false`.
    pub fn to_token(&self) -> (r: RawToken)
        ensures
            r.text@ == emit_text(*self),
            r.span == lit_span(*self),
            r.is_word == (*self matches Lit::Bool(_)),
    {
        proof {
            reveal_strlit("true");
            reveal_strlit("false");
            assert("true"@ =~= true_chars());
            assert("false"@ =~= false_chars());
        }
        match self {
            Lit::Str(x) => RawToken { text: x.token.clone(), span: x.span, is_word: false },
            Lit::ByteStr(x) => RawToken { text: x.token.clone(), span: x.span, is_word: false },
            Lit::Byte(x) => RawToken { text: x.token.clone(), span: x.span, is_word: false },
            Lit::Char(x) => RawToken { text: x.token.clone(), span: x.span, is_word: false },
            Lit::Int(x) => RawToken { text: x.token.clone(), span: x.span, is_word: false },
            Lit::Float(x) => RawToken { text: x.token.clone(), span: x.span, is_word: false },
            Lit::Bool(x) => RawToken {
                text: if x.value {
                    String::from_str("true")
                } else {
                    String::from_str("false")
                },
                span: x.span,
                is_word: true,
            },
            Lit::Verbatim(x) => RawToken { text: x.token.clone(), span: x.span, is_word: false },
        }
    }

    /// The default equality strategy: textual fidelity first. Two literals
    /// are equal exactly when they are of the same kind and spell the same
    /// raw token text (booleans: the same value); equal decoded values with
    /// different spellings do not compare equal.
    pub fn token_eq(&self, other: &Lit) -> (r: bool)
        ensures
            r == (match (*self, *other) {
                (Lit::Str(a), Lit::Str(b)) => a.token@ == b.token@,
                (Lit::ByteStr(a), Lit::ByteStr(b)) => a.token@ == b.token@,
                (Lit::Byte(a), Lit::Byte(b)) => a.token@ == b.token@,
                (Lit::Char(a), Lit::Char(b)) => a.token@ == b.token@,
                (Lit::Int(a), Lit::Int(b)) => a.token@ == b.token@,
                (Lit::Float(a), Lit::Float(b)) => a.token@ == b.token@,
                (Lit::Bool(a), Lit::Bool(b)) => a.value == b.value,
                (Lit::Verbatim(a), Lit::Verbatim(b)) => a.token@ == b.token@,
                _ => false,
            }),
    {
        match (self, other) {
            (Lit::Str(a), Lit::Str(b)) => a.token == b.token,
            (Lit::ByteStr(a), Lit::ByteStr(b)) => a.token == b.token,
            (Lit::Byte(a), Lit::Byte(b)) => a.token == b.token,
            (Lit::Char(a), Lit::Char(b)) => a.token == b.token,
            (Lit::Int(a), Lit::Int(b)) => a.token == b.token,
            (Lit::Float(a), Lit::Float(b)) => a.token == b.token,
            (Lit::Bool(a), Lit::Bool(b)) => a.value == b.value,
            (Lit::Verbatim(a), Lit::Verbatim(b)) => a.token == b.token,
            _ => false,
        }
    }

    /// Decides what the literal grammar production yields from the token
    /// cursor's two probes, tried in order: a literal token is classified;
    /// otherwise a word token spelling `true` or `false` becomes a Boolean;
    /// otherwise the recoverable `NoLiteralHere` lets the caller's grammar
    /// try another production at the same position.
    pub fn parse(literal: Option<(String, Span)>, word: Option<(String, Span)>) -> (r: Result<
        Lit,
        LitError,
    >)
        ensures
            (match literal {
                Some((t, sp)) => (match r {
                    Ok(l) => classify_err(t@) is None && classified(t@, sp, l),
                    Err(e) => classify_err(t@) == Some(e),
                }),
                None => (match word {
                    Some((w, sp)) => (match r {
                        Ok(l) => (w@ == true_chars() || w@ == false_chars()) && classified(
                            w@,
                            sp,
                            l,
                        ),
                        Err(e) => w@ != true_chars() && w@ != false_chars() && e
                            == LitError::NoLiteralHere,
                    }),
                    None => r == Err::<Lit, LitError>(LitError::NoLiteralHere),
                }),
            }),
    {
        proof {
            reveal_strlit("true");
            reveal_strlit("false");
            assert("true"@ =~= true_chars());
            assert("false"@ =~= false_chars());
        }
        match literal {
            Some((t, sp)) => Lit::new(t, sp),
            None => match word {
                Some((w, sp)) => {
                    let c = chars_vec(w.as_str());
                    if chars_eq_str(&c, "true") {
                        Ok(Lit::Bool(LitBool { value: true, span: sp }))
                    } else if chars_eq_str(&c, "false") {
                        Ok(Lit::Bool(LitBool { value: false, span: sp }))
                    } else {
                        Err(LitError::NoLiteralHere)
                    }
                },
                None => Err(LitError::NoLiteralHere),
            },
        }
    }
}

} // verus!
