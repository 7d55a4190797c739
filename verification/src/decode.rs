//! The read path: decoding string, byte-string, byte and character literal
//! text into semantic values.
//!
//! The grammar of cooked (escape-processed) text is captured once, as the
//! recursive specification [`cooked_units`]; the executable decoders are
//! proved to return exactly what it describes, error cases included.

use vstd::prelude::*;
use vstd::string::StrSliceExecFns;
use vstd::utf8::char_u32_cast;

use crate::chars::{
    char_from_u32, hex_digit_val, hex_val, is_whitespace_char, whitespace_char,
};
use crate::LitError;

verus! {

/// Whether escape decoding targets text (string and character literals) or
/// bytes (byte-string and byte literals). Text admits `\u{...}` and caps
/// `\x` at 0x80; bytes admit the full `\x` range and only ASCII otherwise.
#[derive(Clone, Copy, PartialEq, Eq, Structural, Debug)]
pub enum TextKind {
    Unicode,
    Byte,
}

/// The value of a simple one-character escape, if `e` is one.
pub open spec fn simple_escape_val(e: char) -> Option<char> {
    if e == 'n' {
        Some('\n')
    } else if e == 'r' {
        Some('\r')
    } else if e == 't' {
        Some('\t')
    } else if e == '\\' {
        Some('\\')
    } else if e == '0' {
        Some('\0')
    } else if e == '\'' {
        Some('\'')
    } else if e == '"' {
        Some('"')
    } else {
        None
    }
}

/// Executable form of [`simple_escape_val`].
pub fn simple_val(e: char) -> (r: Option<char>)
    ensures
        r == simple_escape_val(e),
{
    if e == 'n' {
        Some('\n')
    } else if e == 'r' {
        Some('\r')
    } else if e == 't' {
        Some('\t')
    } else if e == '\\' {
        Some('\\')
    } else if e == '0' {
        Some('\0')
    } else if e == '\'' {
        Some('\'')
    } else if e == '"' {
        Some('"')
    } else {
        None
    }
}

/// The byte named by the two hex digits at `i` (just past a `\x`).
pub open spec fn hex_escape_raw(t: Seq<char>, i: int) -> Result<u8, LitError> {
    if 0 <= i && i + 2 <= t.len() && hex_digit_val(t[i]) is Some && hex_digit_val(
        t[i + 1],
    ) is Some {
        Ok((hex_digit_val(t[i])->0 as int * 16 + hex_digit_val(t[i + 1])->0 as int) as u8)
    } else {
        Err(LitError::InvalidHexDigit)
    }
}

/// [`hex_escape_raw`] with the per-kind range rule: in text contexts the
/// byte must not exceed 0x80.
pub open spec fn hex_escape(t: Seq<char>, i: int, k: TextKind) -> Result<u8, LitError> {
    match hex_escape_raw(t, i) {
        Ok(v) => if k == TextKind::Unicode && v > 0x80 {
            Err(LitError::InvalidByteEscape)
        } else {
            Ok(v)
        },
        Err(e) => Err(e),
    }
}

/// Count of consecutive hexadecimal digit characters starting at `i`.
pub open spec fn hex_run_len(t: Seq<char>, i: int) -> int
    decreases t.len() - i,
{
    if 0 <= i && i < t.len() && hex_digit_val(t[i]) is Some {
        1 + hex_run_len(t, i + 1)
    } else {
        0
    }
}

/// The number named by the hex digits `t[i..j)`, most significant first.
pub open spec fn hex_fold(t: Seq<char>, i: int, j: int) -> int
    decreases j - i,
{
    if i >= j {
        0
    } else {
        hex_fold(t, i, j - 1) * 16 + (match hex_digit_val(t[j - 1]) {
            Some(d) => d as int,
            None => 0,
        })
    }
}

/// Whether `v` is a Unicode scalar value (what a `char` can hold).
pub open spec fn is_scalar_val(v: int) -> bool {
    0 <= v < 0xD800 || (0xE000 <= v && v <= 0x10FFFF)
}

/// The character and past-the-end index of a `\u{...}` escape whose brace
/// opens at `i` (just past the `u`): one to six hex digits naming a scalar.
pub open spec fn unicode_escape(t: Seq<char>, i: int) -> Result<(char, int), LitError> {
    if 0 <= i && i < t.len() && t[i] == '{' {
        let n = hex_run_len(t, i + 1);
        if 1 <= n && n <= 6 && i + 1 + n < t.len() && t[i + 1 + n] == '}' {
            let v = hex_fold(t, i + 1, i + 1 + n);
            if is_scalar_val(v) {
                Ok(((v as u32) as char, i + n + 2))
            } else {
                Err(LitError::InvalidUnicodeEscape)
            }
        } else {
            Err(LitError::InvalidUnicodeEscape)
        }
    } else {
        Err(LitError::InvalidUnicodeEscape)
    }
}

/// First index at or after `i` holding a non-whitespace character (or the
/// text length): where a line continuation resumes.
pub open spec fn ws_end(t: Seq<char>, i: int) -> int
    decreases t.len() - i,
{
    if 0 <= i && i < t.len() && is_whitespace_char(t[i]) {
        ws_end(t, i + 1)
    } else {
        i
    }
}

pub proof fn lemma_ws_end(t: Seq<char>, i: int)
    requires
        0 <= i <= t.len(),
    ensures
        i <= ws_end(t, i) <= t.len(),
    decreases t.len() - i,
{
    if i < t.len() && is_whitespace_char(t[i]) {
        lemma_ws_end(t, i + 1);
    }
}

/// Prepends one decoded unit to the rest of a decode.
pub open spec fn cons_unit(c: char, rest: Result<Seq<char>, LitError>) -> Result<
    Seq<char>,
    LitError,
> {
    match rest {
        Ok(u) => Ok(seq![c] + u),
        Err(e) => Err(e),
    }
}

/// The decoded units of cooked literal text from position `i` up to a
/// closing quote, which must end the text. Escapes are expanded, a CR LF
/// pair collapses to LF, a bare CR is an error, and a backslash before a
/// line break swallows all following whitespace. In `Byte` kind every
/// decoded unit is below 0x100 and unescaped characters must be ASCII.
pub open spec fn cooked_units(t: Seq<char>, i: int, k: TextKind) -> Result<Seq<char>, LitError>
    decreases t.len() - i,
    via cooked_units_dec
{
    if !(0 <= i && i < t.len()) {
        Err(LitError::UnrecognizedLiteral)
    } else if t[i] == '"' {
        if i == t.len() - 1 {
            Ok(Seq::<char>::empty())
        } else {
            Err(LitError::UnrecognizedLiteral)
        }
    } else if t[i] == '\\' {
        if i + 1 >= t.len() {
            Err(LitError::MalformedEscape)
        } else {
            let e = t[i + 1];
            if e == 'x' {
                match hex_escape(t, i + 2, k) {
                    Ok(v) => cons_unit(v as char, cooked_units(t, i + 4, k)),
                    Err(er) => Err(er),
                }
            } else if e == 'u' {
                if k == TextKind::Byte {
                    Err(LitError::MalformedEscape)
                } else {
                    match unicode_escape(t, i + 2) {
                        Ok((c, j)) => cons_unit(c, cooked_units(t, j, k)),
                        Err(er) => Err(er),
                    }
                }
            } else if e == '\r' || e == '\n' {
                cooked_units(t, ws_end(t, i + 2), k)
            } else {
                match simple_escape_val(e) {
                    Some(c) => cons_unit(c, cooked_units(t, i + 2, k)),
                    None => Err(LitError::MalformedEscape),
                }
            }
        }
    } else if t[i] == '\r' {
        if i + 1 < t.len() && t[i + 1] == '\n' {
            cons_unit('\n', cooked_units(t, i + 2, k))
        } else {
            Err(LitError::BareCarriageReturn)
        }
    } else {
        if k == TextKind::Byte && t[i] as u32 >= 0x80 {
            Err(LitError::UnrecognizedLiteral)
        } else {
            cons_unit(t[i], cooked_units(t, i + 1, k))
        }
    }
}

#[via_fn]
proof fn cooked_units_dec(t: Seq<char>, i: int, k: TextKind) {
    if 0 <= i && i + 2 <= t.len() {
        lemma_ws_end(t, i + 2);
    }
}

/// The decoded value of a cooked string literal `"..."`.
pub open spec fn cooked_str_spec(t: Seq<char>) -> Result<Seq<char>, LitError> {
    if t.len() >= 1 && t[0] == '"' {
        cooked_units(t, 1, TextKind::Unicode)
    } else {
        Err(LitError::UnrecognizedLiteral)
    }
}

/// The decoded value of a cooked byte-string literal `b"..."`.
pub open spec fn cooked_byte_str_spec(t: Seq<char>) -> Result<Seq<u8>, LitError> {
    if t.len() >= 2 && t[0] == 'b' && t[1] == '"' {
        match cooked_units(t, 2, TextKind::Byte) {
            Ok(u) => Ok(Seq::new(u.len(), |i: int| u[i] as u8)),
            Err(e) => Err(e),
        }
    } else {
        Err(LitError::UnrecognizedLiteral)
    }
}

/// Sixteen to the `k`th power; bounds the value of a run of hex digits.
pub open spec fn pow16(k: int) -> int
    decreases k,
{
    if k <= 0 {
        1
    } else {
        16 * pow16(k - 1)
    }
}

pub proof fn lemma_pow16_mono(a: int, b: int)
    requires
        0 <= a <= b,
    ensures
        1 <= pow16(a) <= pow16(b),
    decreases b - a,
{
    if a < b {
        lemma_pow16_mono(a, b - 1);
    } else {
        lemma_pow16_pos(a);
    }
}

pub proof fn lemma_pow16_pos(k: int)
    ensures
        pow16(k) >= 1,
    decreases k,
{
    if k > 0 {
        lemma_pow16_pos(k - 1);
    }
}

pub proof fn lemma_hex_fold_bound(t: Seq<char>, i: int, j: int)
    requires
        i <= j,
    ensures
        0 <= hex_fold(t, i, j) < pow16(j - i),
    decreases j - i,
{
    if i < j {
        lemma_hex_fold_bound(t, i, j - 1);
    }
}

/// A maximal run of hex digits before a non-hex character has the scanned
/// length.
pub proof fn lemma_hex_run(t: Seq<char>, p: int, j: int)
    requires
        0 <= p <= j <= t.len(),
        forall|m: int| p <= m < j ==> hex_digit_val(t[m]) is Some,
        j == t.len() || hex_digit_val(t[j]) is None,
    ensures
        hex_run_len(t, p) == j - p,
    decreases j - p,
{
    if p < j {
        lemma_hex_run(t, p + 1, j);
    }
}

/// Decodes the two hex digits that follow a `\x` escape, whose first digit
/// sits at `i`; returns the byte and the index just past the digits.
pub fn backslash_x(t: &Vec<char>, i: usize) -> (r: Result<(u8, usize), LitError>)
    ensures
        (match r {
            Ok((v, j)) => hex_escape_raw(t@, i as int) == Ok::<u8, LitError>(v) && j == i + 2,
            Err(e) => hex_escape_raw(t@, i as int) == Err::<u8, LitError>(e),
        }),
{
    if i < t.len() && t.len() - i >= 2 {
        let d0 = hex_val(t[i]);
        let d1 = hex_val(t[i + 1]);
        match (d0, d1) {
            (Some(a), Some(b)) => Ok((a * 16 + b, i + 2)),
            _ => Err(LitError::InvalidHexDigit),
        }
    } else {
        Err(LitError::InvalidHexDigit)
    }
}

/// Decodes a `\u{...}` escape whose opening brace sits at `i`; returns the
/// character and the index just past the closing brace.
pub fn backslash_u(t: &Vec<char>, i: usize) -> (r: Result<(char, usize), LitError>)
    ensures
        (match r {
            Ok((c, j)) => unicode_escape(t@, i as int) == Ok::<(char, int), LitError>(
                (c, j as int),
            ),
            Err(e) => unicode_escape(t@, i as int) == Err::<(char, int), LitError>(e),
        }),
{
    if !(i < t.len() && t[i] == '{') {
        return Err(LitError::InvalidUnicodeEscape);
    }
    let mut j: usize = i + 1;
    while j < t.len() && hex_val(t[j]).is_some()
        invariant
            i + 1 <= j <= t@.len(),
            forall|m: int| i + 1 <= m < j ==> hex_digit_val(t@[m]) is Some,
        decreases t@.len() - j,
    {
        j = j + 1;
    }
    proof {
        lemma_hex_run(t@, (i + 1) as int, j as int);
    }
    let n = j - (i + 1);
    if !(1 <= n && n <= 6 && j < t.len() && t[j] == '}') {
        return Err(LitError::InvalidUnicodeEscape);
    }
    let mut acc: u32 = 0;
    let mut m: usize = i + 1;
    while m < j
        invariant
            i + 1 <= m <= j <= t@.len(),
            j - (i + 1) <= 6,
            forall|q: int| i + 1 <= q < j ==> hex_digit_val(t@[q]) is Some,
            acc as int == hex_fold(t@, (i + 1) as int, m as int),
        decreases j - m,
    {
        let d = match hex_val(t[m]) {
            Some(d) => d,
            None => 0,
        };
        proof {
            lemma_hex_fold_bound(t@, (i + 1) as int, m as int);
            lemma_pow16_mono((m - (i + 1)) as int, 5);
            assert(pow16(0) == 1);
            assert(pow16(1) == 16);
            assert(pow16(2) == 256);
            assert(pow16(3) == 4096);
            assert(pow16(4) == 65536);
            assert(pow16(5) == 1048576);
        }
        acc = acc * 16 + (d as u32);
        m = m + 1;
    }
    if !(acc < 0xD800 || (0xE000 <= acc && acc <= 0x10FFFF)) {
        return Err(LitError::InvalidUnicodeEscape);
    }
    match char_from_u32(acc) {
        Some(c) => {
            proof {
                char_u32_cast(c, acc);
            }
            Ok((c, j + 1))
        },
        None => vstd::pervasive::unreached(),
    }
}

/// Appends already-decoded units in front of the rest of a decode.
pub open spec fn cu_append(pre: Seq<char>, rest: Result<Seq<char>, LitError>) -> Result<
    Seq<char>,
    LitError,
> {
    match rest {
        Ok(u) => Ok(pre + u),
        Err(e) => Err(e),
    }
}

proof fn lemma_cu_step(pre: Seq<char>, c: char, rest: Result<Seq<char>, LitError>)
    ensures
        cu_append(pre, cons_unit(c, rest)) == cu_append(pre.push(c), rest),
{
    match rest {
        Ok(u) => {
            assert(pre + (seq![c] + u) =~= pre.push(c) + u);
        },
        Err(_) => {},
    }
}

/// Decodes the units of cooked literal text starting at `start`, following
/// [`cooked_units`] exactly.
fn cook_units(t: &Vec<char>, start: usize, k: TextKind) -> (r: Result<Vec<char>, LitError>)
    requires
        start <= t@.len(),
    ensures
        (match r {
            Ok(v) => cooked_units(t@, start as int, k) == Ok::<Seq<char>, LitError>(v@) && (k
                == TextKind::Byte ==> forall|j: int|
                0 <= j < v@.len() ==> (v@[j] as u32) < 0x100),
            Err(e) => cooked_units(t@, start as int, k) == Err::<Seq<char>, LitError>(e),
        }),
{
    let ghost whole = cooked_units(t@, start as int, k);
    let mut out: Vec<char> = Vec::new();
    let mut i: usize = start;
    loop
        invariant
            start <= i && i <= t@.len(),
            whole == cooked_units(t@, start as int, k),
            whole == cu_append(out@, cooked_units(t@, i as int, k)),
            k == TextKind::Byte ==> forall|j: int| 0 <= j < out@.len() ==> (out@[j] as u32) < 0x100,
        decreases t@.len() - i,
    {
        if i == t.len() {
            return Err(LitError::UnrecognizedLiteral);
        }
        let c = t[i];
        if c == '"' {
            if i == t.len() - 1 {
                proof {
                    assert(out@ + Seq::<char>::empty() =~= out@);
                }
                return Ok(out);
            } else {
                return Err(LitError::UnrecognizedLiteral);
            }
        } else if c == '\\' {
            if i + 1 >= t.len() {
                return Err(LitError::MalformedEscape);
            }
            let e = t[i + 1];
            if e == 'x' {
                match backslash_x(t, i + 2) {
                    Ok((v, j)) => {
                        if k == TextKind::Unicode && v > 0x80 {
                            return Err(LitError::InvalidByteEscape);
                        }
                        let u = v as char;
                        proof {
                            assert(cooked_units(t@, i as int, k) == cons_unit(
                                u,
                                cooked_units(t@, j as int, k),
                            ));
                            lemma_cu_step(out@, u, cooked_units(t@, j as int, k));
                        }
                        out.push(u);
                        i = j;
                    },
                    Err(er) => {
                        return Err(er);
                    },
                }
            } else if e == 'u' {
                if k == TextKind::Byte {
                    return Err(LitError::MalformedEscape);
                }
                match backslash_u(t, i + 2) {
                    Ok((u, j)) => {
                        proof {
                            assert(cooked_units(t@, i as int, k) == cons_unit(
                                u,
                                cooked_units(t@, j as int, k),
                            ));
                            lemma_cu_step(out@, u, cooked_units(t@, j as int, k));
                        }
                        out.push(u);
                        i = j;
                    },
                    Err(er) => {
                        return Err(er);
                    },
                }
            } else if e == '\r' || e == '\n' {
                let mut m: usize = i + 2;
                while m < t.len() && whitespace_char(t[m])
                    invariant
                        i + 2 <= m && m <= t@.len(),
                        ws_end(t@, (i + 2) as int) == ws_end(t@, m as int),
                    decreases t@.len() - m,
                {
                    m = m + 1;
                }
                proof {
                    assert(ws_end(t@, m as int) == m as int);
                    assert(cooked_units(t@, i as int, k) == cooked_units(t@, m as int, k));
                }
                i = m;
            } else {
                match simple_val(e) {
                    Some(u) => {
                        proof {
                            assert(cooked_units(t@, i as int, k) == cons_unit(
                                u,
                                cooked_units(t@, (i + 2) as int, k),
                            ));
                            lemma_cu_step(out@, u, cooked_units(t@, (i + 2) as int, k));
                        }
                        out.push(u);
                        i = i + 2;
                    },
                    None => {
                        return Err(LitError::MalformedEscape);
                    },
                }
            }
        } else if c == '\r' {
            if i + 1 < t.len() && t[i + 1] == '\n' {
                proof {
                    assert(cooked_units(t@, i as int, k) == cons_unit(
                        '\n',
                        cooked_units(t@, (i + 2) as int, k),
                    ));
                    lemma_cu_step(out@, '\n', cooked_units(t@, (i + 2) as int, k));
                }
                out.push('\n');
                i = i + 2;
            } else {
                return Err(LitError::BareCarriageReturn);
            }
        } else {
            if k == TextKind::Byte && c as u32 >= 0x80 {
                return Err(LitError::UnrecognizedLiteral);
            }
            proof {
                assert(cooked_units(t@, i as int, k) == cons_unit(
                    c,
                    cooked_units(t@, (i + 1) as int, k),
                ));
                lemma_cu_step(out@, c, cooked_units(t@, (i + 1) as int, k));
            }
            out.push(c);
            i = i + 1;
        }
    }
}

/// Decodes a cooked string literal `"..."` into its text value.
pub fn parse_lit_str_cooked(s: &str) -> (r: Result<String, LitError>)
    ensures
        (match r {
            Ok(v) => cooked_str_spec(s@) == Ok::<Seq<char>, LitError>(v@),
            Err(e) => cooked_str_spec(s@) == Err::<Seq<char>, LitError>(e),
        }),
{
    let t = crate::chars::chars_vec(s);
    if t.len() == 0 || t[0] != '"' {
        return Err(LitError::UnrecognizedLiteral);
    }
    match cook_units(&t, 1, TextKind::Unicode) {
        Ok(v) => Ok(crate::chars::string_from_chars(&v)),
        Err(e) => Err(e),
    }
}

/// Decodes a cooked byte-string literal `b"..."` into its byte value.
pub fn parse_lit_byte_str_cooked(s: &str) -> (r: Result<Vec<u8>, LitError>)
    ensures
        (match r {
            Ok(v) => cooked_byte_str_spec(s@) == Ok::<Seq<u8>, LitError>(v@),
            Err(e) => cooked_byte_str_spec(s@) == Err::<Seq<u8>, LitError>(e),
        }),
{
    let t = crate::chars::chars_vec(s);
    if t.len() < 2 || t[0] != 'b' || t[1] != '"' {
        return Err(LitError::UnrecognizedLiteral);
    }
    match cook_units(&t, 2, TextKind::Byte) {
        Ok(v) => {
            let mut w: Vec<u8> = Vec::new();
            let mut i: usize = 0;
            while i < v.len()
                invariant
                    i <= v@.len(),
                    forall|j: int| 0 <= j < v@.len() ==> (v@[j] as u32) < 0x100,
                    w@.len() == i,
                    forall|j: int| 0 <= j < i ==> w@[j] == (v@[j] as u8),
                decreases v@.len() - i,
            {
                w.push(v[i] as u8);
                i = i + 1;
            }
            proof {
                assert(w@ =~= Seq::new(v@.len(), |j: int| v@[j] as u8));
            }
            Ok(w)
        },
        Err(e) => Err(e),
    }
}

/// Count of consecutive `#` characters starting at `i`.
pub open spec fn pound_run(t: Seq<char>, i: int) -> int
    decreases t.len() - i,
{
    if 0 <= i && i < t.len() && t[i] == '#' {
        1 + pound_run(t, i + 1)
    } else {
        0
    }
}

/// A maximal run of `#` before some other character has the scanned length.
pub proof fn lemma_pound_run(t: Seq<char>, p: int, j: int)
    requires
        0 <= p <= j <= t.len(),
        forall|m: int| p <= m < j ==> t[m] == '#',
        j == t.len() || t[j] != '#',
    ensures
        pound_run(t, p) == j - p,
    decreases j - p,
{
    if p < j {
        lemma_pound_run(t, p + 1, j);
    }
}

/// Structural validity of a raw string literal `r#"..."#`: after `r`, a run
/// of hashes, an opening quote, then a closing quote followed by the same
/// run of hashes ending the text.
pub open spec fn raw_str_ok(t: Seq<char>) -> bool {
    let p = pound_run(t, 1);
    &&& t.len() >= 1 && t[0] == 'r'
    &&& 1 + p < t.len() && t[1 + p] == '"'
    &&& t.len() - 1 - p > 1 + p
    &&& t[t.len() - 1 - p] == '"'
    &&& forall|j: int| t.len() - p <= j < t.len() ==> t[j] == '#'
}

/// The text strictly between the delimiters of a raw string literal.
pub open spec fn raw_str_value(t: Seq<char>) -> Seq<char> {
    let p = pound_run(t, 1);
    t.subrange(2 + p, t.len() - 1 - p)
}

/// The decoded value of a raw string literal: no escape processing at all.
pub open spec fn raw_str_spec(t: Seq<char>) -> Result<Seq<char>, LitError> {
    if raw_str_ok(t) {
        Ok(raw_str_value(t))
    } else {
        Err(LitError::UnrecognizedLiteral)
    }
}

/// Decodes a raw string literal held in `t`, following [`raw_str_spec`].
#[verifier::loop_isolation(false)]
fn raw_units(t: &Vec<char>) -> (r: Result<Vec<char>, LitError>)
    ensures
        (match r {
            Ok(v) => raw_str_spec(t@) == Ok::<Seq<char>, LitError>(v@),
            Err(e) => raw_str_spec(t@) == Err::<Seq<char>, LitError>(e),
        }),
{
    let n = t.len();
    if n == 0 || t[0] != 'r' {
        return Err(LitError::UnrecognizedLiteral);
    }
    let mut q: usize = 1;
    while q < n && t[q] == '#'
        invariant
            1 <= q && q <= n == t@.len(),
            forall|m: int| 1 <= m < q ==> t@[m] == '#',
        decreases n - q,
    {
        q = q + 1;
    }
    proof {
        lemma_pound_run(t@, 1, q as int);
        assert(pound_run(t@, 1) == q - 1);
    }
    if !(q < n && t[q] == '"') {
        return Err(LitError::UnrecognizedLiteral);
    }
    if !(n - q > q) {
        return Err(LitError::UnrecognizedLiteral);
    }
    if t[n - q] != '"' {
        return Err(LitError::UnrecognizedLiteral);
    }
    let mut m: usize = n - (q - 1);
    while m < n
        invariant
            n == t@.len(),
            n - (q - 1) <= m && m <= n,
            q >= 1,
            forall|j: int| n - (q - 1) <= j < m ==> t@[j] == '#',
        decreases n - m,
    {
        if t[m] != '#' {
            proof {
                assert(!raw_str_ok(t@)) by {
                    if raw_str_ok(t@) {
                        assert(t@[m as int] == '#');
                    }
                }
            }
            return Err(LitError::UnrecognizedLiteral);
        }
        m = m + 1;
    }
    let mut v: Vec<char> = Vec::new();
    let mut i: usize = q + 1;
    while i < n - q
        invariant
            n == t@.len(),
            q + 1 <= i && i <= n - q,
            n - q > q,
            v@ == t@.subrange((q + 1) as int, i as int),
        decreases n - q - i,
    {
        v.push(t[i]);
        i = i + 1;
        proof {
            assert(v@ =~= t@.subrange((q + 1) as int, i as int));
        }
    }
    proof {
        assert(raw_str_ok(t@));
        assert(v@ =~= raw_str_value(t@));
    }
    Ok(v)
}

/// The decoded value of a raw byte-string literal `br#"..."#`: the raw text
/// between the delimiters, which must be ASCII, taken byte for byte.
pub open spec fn raw_byte_str_spec(t: Seq<char>) -> Result<Seq<u8>, LitError> {
    if t.len() >= 2 && t[0] == 'b' && t[1] == 'r' {
        match raw_str_spec(t.subrange(1, t.len() as int)) {
            Ok(v) => if forall|j: int| 0 <= j < v.len() ==> (v[j] as u32) < 0x80 {
                Ok(Seq::new(v.len(), |j: int| v[j] as u8))
            } else {
                Err(LitError::UnrecognizedLiteral)
            },
            Err(e) => Err(e),
        }
    } else {
        Err(LitError::UnrecognizedLiteral)
    }
}

/// The decoded value of a string literal, cooked or raw by its first byte.
pub open spec fn str_lit_spec(t: Seq<char>) -> Result<Seq<char>, LitError> {
    if t.len() >= 1 && t[0] == '"' {
        cooked_str_spec(t)
    } else if t.len() >= 1 && t[0] == 'r' {
        raw_str_spec(t)
    } else {
        Err(LitError::UnrecognizedLiteral)
    }
}

/// The decoded value of a byte-string literal, cooked or raw.
pub open spec fn byte_str_lit_spec(t: Seq<char>) -> Result<Seq<u8>, LitError> {
    if t.len() >= 2 && t[0] == 'b' && t[1] == '"' {
        cooked_byte_str_spec(t)
    } else if t.len() >= 2 && t[0] == 'b' && t[1] == 'r' {
        raw_byte_str_spec(t)
    } else {
        Err(LitError::UnrecognizedLiteral)
    }
}

/// The first character of `s`, or NUL when `s` is empty.
pub fn next_chr(s: &str) -> (r: char)
    ensures
        r == (if s@.len() == 0 {
            '\0'
        } else {
            s@[0]
        }),
{
    if s.unicode_len() == 0 {
        '\0'
    } else {
        s.get_char(0)
    }
}

/// Decodes a raw string literal `r#"..."#` into its text value.
pub fn parse_lit_str_raw(s: &str) -> (r: Result<String, LitError>)
    ensures
        (match r {
            Ok(v) => raw_str_spec(s@) == Ok::<Seq<char>, LitError>(v@),
            Err(e) => raw_str_spec(s@) == Err::<Seq<char>, LitError>(e),
        }),
{
    let t = crate::chars::chars_vec(s);
    match raw_units(&t) {
        Ok(v) => Ok(crate::chars::string_from_chars(&v)),
        Err(e) => Err(e),
    }
}

/// Decodes a string literal of either style into its text value.
pub fn parse_lit_str(s: &str) -> (r: Result<String, LitError>)
    ensures
        (match r {
            Ok(v) => str_lit_spec(s@) == Ok::<Seq<char>, LitError>(v@),
            Err(e) => str_lit_spec(s@) == Err::<Seq<char>, LitError>(e),
        }),
{
    if s.unicode_len() == 0 {
        return Err(LitError::UnrecognizedLiteral);
    }
    let c0 = s.get_char(0);
    if c0 == '"' {
        parse_lit_str_cooked(s)
    } else if c0 == 'r' {
        parse_lit_str_raw(s)
    } else {
        Err(LitError::UnrecognizedLiteral)
    }
}

/// Decodes a raw byte-string literal `br#"..."#` into its byte value.
#[verifier::loop_isolation(false)]
pub fn parse_lit_byte_str_raw(s: &str) -> (r: Result<Vec<u8>, LitError>)
    ensures
        (match r {
            Ok(v) => raw_byte_str_spec(s@) == Ok::<Seq<u8>, LitError>(v@),
            Err(e) => raw_byte_str_spec(s@) == Err::<Seq<u8>, LitError>(e),
        }),
{
    let t = crate::chars::chars_vec(s);
    if t.len() < 2 || t[0] != 'b' || t[1] != 'r' {
        return Err(LitError::UnrecognizedLiteral);
    }
    let mut t2: Vec<char> = Vec::new();
    let mut i: usize = 1;
    while i < t.len()
        invariant
            1 <= i && i <= t@.len(),
            t2@ == t@.subrange(1, i as int),
        decreases t@.len() - i,
    {
        t2.push(t[i]);
        i = i + 1;
        proof {
            assert(t2@ =~= t@.subrange(1, i as int));
        }
    }
    proof {
        assert(t2@ =~= t@.subrange(1, t@.len() as int));
    }
    match raw_units(&t2) {
        Ok(v) => {
            let mut w: Vec<u8> = Vec::new();
            let mut j: usize = 0;
            while j < v.len()
                invariant
                    j <= v@.len(),
                    w@.len() == j,
                    forall|m: int| 0 <= m < j ==> (v@[m] as u32) < 0x80,
                    forall|m: int| 0 <= m < j ==> w@[m] == (v@[m] as u8),
                decreases v@.len() - j,
            {
                let c = v[j];
                if (c as u32) >= 0x80 {
                    proof {
                        assert(!(forall|m: int| 0 <= m < v@.len() ==> (v@[m] as u32) < 0x80)) by {
                            if forall|m: int| 0 <= m < v@.len() ==> (v@[m] as u32) < 0x80 {
                                assert((v@[j as int] as u32) < 0x80);
                            }
                        }
                    }
                    return Err(LitError::UnrecognizedLiteral);
                }
                w.push(c as u8);
                j = j + 1;
            }
            proof {
                assert(w@ =~= Seq::new(v@.len(), |m: int| v@[m] as u8));
            }
            Ok(w)
        },
        Err(e) => Err(e),
    }
}

/// Decodes a byte-string literal of either style into its byte value.
pub fn parse_lit_byte_str(s: &str) -> (r: Result<Vec<u8>, LitError>)
    ensures
        (match r {
            Ok(v) => byte_str_lit_spec(s@) == Ok::<Seq<u8>, LitError>(v@),
            Err(e) => byte_str_lit_spec(s@) == Err::<Seq<u8>, LitError>(e),
        }),
{
    if s.unicode_len() < 2 {
        return Err(LitError::UnrecognizedLiteral);
    }
    let c0 = s.get_char(0);
    let c1 = s.get_char(1);
    if c0 == 'b' && c1 == '"' {
        parse_lit_byte_str_cooked(s)
    } else if c0 == 'b' && c1 == 'r' {
        parse_lit_byte_str_raw(s)
    } else {
        Err(LitError::UnrecognizedLiteral)
    }
}

/// One decoded unit of a character or byte literal starting at `i`, with
/// the index just past it. No line continuation and no CR LF collapsing
/// apply inside single-unit literals.
pub open spec fn single_unit(t: Seq<char>, i: int, k: TextKind) -> Result<(char, int), LitError> {
    if !(0 <= i && i < t.len()) {
        Err(LitError::UnrecognizedLiteral)
    } else if t[i] == '\\' {
        if i + 1 >= t.len() {
            Err(LitError::MalformedEscape)
        } else {
            let e = t[i + 1];
            if e == 'x' {
                match hex_escape(t, i + 2, k) {
                    Ok(v) => Ok((v as char, i + 4)),
                    Err(er) => Err(er),
                }
            } else if e == 'u' {
                if k == TextKind::Byte {
                    Err(LitError::MalformedEscape)
                } else {
                    unicode_escape(t, i + 2)
                }
            } else {
                match simple_escape_val(e) {
                    Some(c) => Ok((c, i + 2)),
                    None => Err(LitError::MalformedEscape),
                }
            }
        }
    } else if k == TextKind::Byte && t[i] as u32 >= 0x80 {
        Err(LitError::UnrecognizedLiteral)
    } else {
        Ok((t[i], i + 1))
    }
}

/// Decodes one unit at `i`, following [`single_unit`].
fn one_unit(t: &Vec<char>, i: usize, k: TextKind) -> (r: Result<(char, usize), LitError>)
    requires
        i <= t@.len(),
    ensures
        (match r {
            Ok((c, j)) => single_unit(t@, i as int, k) == Ok::<(char, int), LitError>((c, j as int))
                && i < j <= t@.len(),
            Err(e) => single_unit(t@, i as int, k) == Err::<(char, int), LitError>(e),
        }),
{
    if i == t.len() {
        return Err(LitError::UnrecognizedLiteral);
    }
    let c = t[i];
    if c == '\\' {
        if i + 1 >= t.len() {
            return Err(LitError::MalformedEscape);
        }
        let e = t[i + 1];
        if e == 'x' {
            match backslash_x(t, i + 2) {
                Ok((v, j)) => {
                    if k == TextKind::Unicode && v > 0x80 {
                        Err(LitError::InvalidByteEscape)
                    } else {
                        Ok((v as char, j))
                    }
                },
                Err(er) => Err(er),
            }
        } else if e == 'u' {
            if k == TextKind::Byte {
                Err(LitError::MalformedEscape)
            } else {
                match backslash_u(t, i + 2) {
                    Ok((u, j)) => Ok((u, j)),
                    Err(er) => Err(er),
                }
            }
        } else {
            match simple_val(e) {
                Some(u) => Ok((u, i + 2)),
                None => Err(LitError::MalformedEscape),
            }
        }
    } else if k == TextKind::Byte && c as u32 >= 0x80 {
        Err(LitError::UnrecognizedLiteral)
    } else {
        Ok((c, i + 1))
    }
}

/// The decoded value of a character literal `'...'`: exactly one unit
/// between the quotes, nothing trailing.
pub open spec fn char_lit_spec(t: Seq<char>) -> Result<char, LitError> {
    if t.len() >= 1 && t[0] == '\'' {
        match single_unit(t, 1, TextKind::Unicode) {
            Ok((c, j)) => if j == t.len() - 1 && t[j] == '\'' {
                Ok(c)
            } else {
                Err(LitError::UnrecognizedLiteral)
            },
            Err(e) => Err(e),
        }
    } else {
        Err(LitError::UnrecognizedLiteral)
    }
}

/// The decoded value of a byte literal `b'...'`: one unit between the
/// quotes. A closing quote must follow the unit; what stands after it is
/// not examined.
pub open spec fn byte_lit_spec(t: Seq<char>) -> Result<u8, LitError> {
    if t.len() >= 2 && t[0] == 'b' && t[1] == '\'' {
        match single_unit(t, 2, TextKind::Byte) {
            Ok((c, j)) => if j < t.len() && t[j] == '\'' {
                Ok(c as u8)
            } else {
                Err(LitError::UnrecognizedLiteral)
            },
            Err(e) => Err(e),
        }
    } else {
        Err(LitError::UnrecognizedLiteral)
    }
}

/// Decodes a character literal `'...'` into its character.
pub fn parse_lit_char(s: &str) -> (r: Result<char, LitError>)
    ensures
        (match r {
            Ok(c) => char_lit_spec(s@) == Ok::<char, LitError>(c),
            Err(e) => char_lit_spec(s@) == Err::<char, LitError>(e),
        }),
{
    let t = crate::chars::chars_vec(s);
    if t.len() == 0 || t[0] != '\'' {
        return Err(LitError::UnrecognizedLiteral);
    }
    match one_unit(&t, 1, TextKind::Unicode) {
        Ok((c, j)) => {
            if j == t.len() - 1 && t[j] == '\'' {
                Ok(c)
            } else {
                Err(LitError::UnrecognizedLiteral)
            }
        },
        Err(e) => Err(e),
    }
}

/// Decodes a byte literal `b'...'` into its byte.
pub fn parse_lit_byte(s: &str) -> (r: Result<u8, LitError>)
    ensures
        (match r {
            Ok(b) => byte_lit_spec(s@) == Ok::<u8, LitError>(b),
            Err(e) => byte_lit_spec(s@) == Err::<u8, LitError>(e),
        }),
{
    let t = crate::chars::chars_vec(s);
    if t.len() < 2 || t[0] != 'b' || t[1] != '\'' {
        return Err(LitError::UnrecognizedLiteral);
    }
    match one_unit(&t, 2, TextKind::Byte) {
        Ok((c, j)) => {
            if j < t.len() && t[j] == '\'' {
                Ok(c as u8)
            } else {
                Err(LitError::UnrecognizedLiteral)
            }
        },
        Err(e) => Err(e),
    }
}

} // verus!
