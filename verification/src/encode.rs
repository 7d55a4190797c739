//! The write path: constructing canonical literal token text from semantic
//! values. String, character and byte constructors always emit cooked
//! style; integer constructors render the value at the suffix's width and
//! signedness, synthesizing the text digit by digit.

use vstd::prelude::*;

use crate::IntSuffix;

verus! {

/// Lowercase hexadecimal digit character for `d` (0 to 15).
pub open spec fn hex_char(d: int) -> char {
    if 0 <= d && d < 10 {
        ((48 + d) as u32) as char
    } else {
        ((87 + d) as u32) as char
    }
}

/// Uppercase hexadecimal digit character for `d` (0 to 15).
pub open spec fn hex_char_upper(d: int) -> char {
    if 0 <= d && d < 10 {
        ((48 + d) as u32) as char
    } else {
        ((55 + d) as u32) as char
    }
}

/// Minimal lowercase hexadecimal rendering of a non-negative `n`.
pub open spec fn hex_seq(n: int) -> Seq<char>
    decreases n,
{
    if n < 16 {
        seq![hex_char(n)]
    } else {
        hex_seq(n / 16) + seq![hex_char(n % 16)]
    }
}

/// Decimal rendering of a non-negative `n`.
pub open spec fn dec_seq(n: int) -> Seq<char>
    decreases n,
{
    if n < 10 {
        seq![((48 + n) as u32) as char]
    } else {
        dec_seq(n / 10) + seq![((48 + (n % 10)) as u32) as char]
    }
}

/// The escaping of one character for string and character literal text:
/// the simple escapes as two characters, printable ASCII as itself,
/// anything else as `\u{...}` in minimal lowercase hex.
pub open spec fn esc_char_units(c: char) -> Seq<char> {
    if c == '\t' {
        seq!['\\', 't']
    } else if c == '\r' {
        seq!['\\', 'r']
    } else if c == '\n' {
        seq!['\\', 'n']
    } else if c == '\\' {
        seq!['\\', '\\']
    } else if c == '\'' {
        seq!['\\', '\'']
    } else if c == '"' {
        seq!['\\', '"']
    } else if 0x20 <= c as u32 && c as u32 <= 0x7E {
        seq![c]
    } else {
        seq!['\\', 'u', '{'] + hex_seq(c as u32 as int) + seq!['}']
    }
}

/// The escaping of one byte for byte-string literal text: NUL and the
/// simple escapes as two characters, printable ASCII as itself, anything
/// else as `\xNN` in uppercase hex.
pub open spec fn esc_byte_str_units(b: u8) -> Seq<char> {
    if b == 0 {
        seq!['\\', '0']
    } else if b == 9 {
        seq!['\\', 't']
    } else if b == 10 {
        seq!['\\', 'n']
    } else if b == 13 {
        seq!['\\', 'r']
    } else if b == 0x22 {
        seq!['\\', '"']
    } else if b == 0x5C {
        seq!['\\', '\\']
    } else if 0x20 <= b && b <= 0x7E {
        seq![b as char]
    } else {
        seq!['\\', 'x', hex_char_upper(b as int / 16), hex_char_upper(b as int % 16)]
    }
}

/// The escaping of one byte for a byte literal: NUL as `\0`, a double
/// quote kept bare, otherwise the ASCII default escaping with `\xNN` in
/// lowercase hex.
pub open spec fn esc_byte_units(b: u8) -> Seq<char> {
    if b == 0 {
        seq!['\\', '0']
    } else if b == 0x22 {
        seq!['"']
    } else if b == 9 {
        seq!['\\', 't']
    } else if b == 10 {
        seq!['\\', 'n']
    } else if b == 13 {
        seq!['\\', 'r']
    } else if b == 0x5C {
        seq!['\\', '\\']
    } else if b == 0x27 {
        seq!['\\', '\'']
    } else if 0x20 <= b && b <= 0x7E {
        seq![b as char]
    } else {
        seq!['\\', 'x', hex_char(b as int / 16), hex_char(b as int % 16)]
    }
}

/// The escaped body of a cooked string literal for value `v`.
pub open spec fn esc_str_body(v: Seq<char>) -> Seq<char>
    decreases v.len(),
{
    if v.len() == 0 {
        Seq::<char>::empty()
    } else {
        esc_char_units(v[0]) + esc_str_body(v.drop_first())
    }
}

/// The full cooked string literal text for value `v`.
pub open spec fn str_escape(v: Seq<char>) -> Seq<char> {
    seq!['"'] + esc_str_body(v) + seq!['"']
}

/// The escaped body of a cooked byte-string literal for value `v`.
pub open spec fn esc_byte_str_body(v: Seq<u8>) -> Seq<char>
    decreases v.len(),
{
    if v.len() == 0 {
        Seq::<char>::empty()
    } else {
        esc_byte_str_units(v[0]) + esc_byte_str_body(v.drop_first())
    }
}

/// The full cooked byte-string literal text for value `v`.
pub open spec fn byte_str_escape(v: Seq<u8>) -> Seq<char> {
    seq!['b', '"'] + esc_byte_str_body(v) + seq!['"']
}

/// The full character literal text for value `c`.
pub open spec fn char_escape(c: char) -> Seq<char> {
    seq!['\''] + esc_char_units(c) + seq!['\'']
}

/// The full byte literal text for value `b`.
pub open spec fn byte_escape(b: u8) -> Seq<char> {
    seq!['b', '\''] + esc_byte_units(b) + seq!['\'']
}

/// Appends the minimal lowercase hex digits of `n` to `out`.
pub fn push_hex(out: &mut Vec<char>, n: u32)
    ensures
        final(out)@ == old(out)@ + hex_seq(n as int),
    decreases n,
{
    if n < 16 {
        let d: u8 = if n < 10 {
            48 + (n as u8)
        } else {
            87 + (n as u8)
        };
        out.push(d as char);
        proof {
            assert(final(out)@ =~= old(out)@ + hex_seq(n as int));
        }
    } else {
        push_hex(out, n / 16);
        let m: u32 = n % 16;
        let d: u8 = if m < 10 {
            48 + (m as u8)
        } else {
            87 + (m as u8)
        };
        out.push(d as char);
        proof {
            assert(final(out)@ =~= old(out)@ + hex_seq(n as int));
        }
    }
}

/// Appends the decimal digits of `n` to `out`.
pub fn push_dec(out: &mut Vec<char>, n: u64)
    ensures
        final(out)@ == old(out)@ + dec_seq(n as int),
    decreases n,
{
    if n < 10 {
        out.push((48 + (n as u8)) as char);
        proof {
            assert(final(out)@ =~= old(out)@ + dec_seq(n as int));
        }
    } else {
        push_dec(out, n / 10);
        out.push((48 + ((n % 10) as u8)) as char);
        proof {
            assert(final(out)@ =~= old(out)@ + dec_seq(n as int));
        }
    }
}

/// Appends the string-context escaping of `c` to `out`.
pub fn push_esc_char(out: &mut Vec<char>, c: char)
    ensures
        final(out)@ == old(out)@ + esc_char_units(c),
{
    if c == '\t' {
        out.push('\\');
        out.push('t');
    } else if c == '\r' {
        out.push('\\');
        out.push('r');
    } else if c == '\n' {
        out.push('\\');
        out.push('n');
    } else if c == '\\' {
        out.push('\\');
        out.push('\\');
    } else if c == '\'' {
        out.push('\\');
        out.push('\'');
    } else if c == '"' {
        out.push('\\');
        out.push('"');
    } else if 0x20 <= c as u32 && c as u32 <= 0x7E {
        out.push(c);
    } else {
        out.push('\\');
        out.push('u');
        out.push('{');
        push_hex(out, c as u32);
        out.push('}');
    }
    proof {
        assert(final(out)@ =~= old(out)@ + esc_char_units(c));
    }
}

/// Appends the byte-string-context escaping of `b` to `out`.
pub fn push_esc_byte_str(out: &mut Vec<char>, b: u8)
    ensures
        final(out)@ == old(out)@ + esc_byte_str_units(b),
{
    if b == 0 {
        out.push('\\');
        out.push('0');
    } else if b == 9 {
        out.push('\\');
        out.push('t');
    } else if b == 10 {
        out.push('\\');
        out.push('n');
    } else if b == 13 {
        out.push('\\');
        out.push('r');
    } else if b == 0x22 {
        out.push('\\');
        out.push('"');
    } else if b == 0x5C {
        out.push('\\');
        out.push('\\');
    } else if 0x20 <= b && b <= 0x7E {
        out.push(b as char);
    } else {
        out.push('\\');
        out.push('x');
        let hi: u8 = b / 16;
        let lo: u8 = b % 16;
        out.push((if hi < 10 {
            48 + hi
        } else {
            55 + hi
        }) as char);
        out.push((if lo < 10 {
            48 + lo
        } else {
            55 + lo
        }) as char);
    }
    proof {
        assert(final(out)@ =~= old(out)@ + esc_byte_str_units(b));
    }
}

/// Appends the byte-literal-context escaping of `b` to `out`.
pub fn push_esc_byte(out: &mut Vec<char>, b: u8)
    ensures
        final(out)@ == old(out)@ + esc_byte_units(b),
{
    if b == 0 {
        out.push('\\');
        out.push('0');
    } else if b == 0x22 {
        out.push('"');
    } else if b == 9 {
        out.push('\\');
        out.push('t');
    } else if b == 10 {
        out.push('\\');
        out.push('n');
    } else if b == 13 {
        out.push('\\');
        out.push('r');
    } else if b == 0x5C {
        out.push('\\');
        out.push('\\');
    } else if b == 0x27 {
        out.push('\\');
        out.push('\'');
    } else if 0x20 <= b && b <= 0x7E {
        out.push(b as char);
    } else {
        out.push('\\');
        out.push('x');
        let hi: u8 = b / 16;
        let lo: u8 = b % 16;
        out.push((if hi < 10 {
            48 + hi
        } else {
            87 + hi
        }) as char);
        out.push((if lo < 10 {
            48 + lo
        } else {
            87 + lo
        }) as char);
    }
    proof {
        assert(final(out)@ =~= old(out)@ + esc_byte_units(b));
    }
}

proof fn lemma_esc_str_body_push(v: Seq<char>, c: char)
    ensures
        esc_str_body(v.push(c)) == esc_str_body(v) + esc_char_units(c),
    decreases v.len(),
{
    if v.len() == 0 {
        assert(v.push(c).drop_first() =~= Seq::<char>::empty());
        assert(esc_str_body(v.push(c)) == esc_char_units(c) + esc_str_body(Seq::<char>::empty()));
        assert(esc_char_units(c) + Seq::<char>::empty() =~= esc_char_units(c));
        assert(esc_str_body(v) + esc_char_units(c) =~= esc_char_units(c));
    } else {
        lemma_esc_str_body_push(v.drop_first(), c);
        assert(v.push(c).drop_first() =~= v.drop_first().push(c));
        assert(v.push(c)[0] == v[0]);
        assert(esc_char_units(v[0]) + (esc_str_body(v.drop_first()) + esc_char_units(c))
            =~= (esc_char_units(v[0]) + esc_str_body(v.drop_first())) + esc_char_units(c));
    }
}

proof fn lemma_esc_byte_str_body_push(v: Seq<u8>, b: u8)
    ensures
        esc_byte_str_body(v.push(b)) == esc_byte_str_body(v) + esc_byte_str_units(b),
    decreases v.len(),
{
    if v.len() == 0 {
        assert(v.push(b).drop_first() =~= Seq::<u8>::empty());
        assert(esc_byte_str_body(v.push(b)) == esc_byte_str_units(b) + esc_byte_str_body(
            Seq::<u8>::empty(),
        ));
        assert(esc_byte_str_units(b) + Seq::<char>::empty() =~= esc_byte_str_units(b));
        assert(esc_byte_str_body(v) + esc_byte_str_units(b) =~= esc_byte_str_units(b));
    } else {
        lemma_esc_byte_str_body_push(v.drop_first(), b);
        assert(v.push(b).drop_first() =~= v.drop_first().push(b));
        assert(v.push(b)[0] == v[0]);
        assert(esc_byte_str_units(v[0]) + (esc_byte_str_body(v.drop_first()) + esc_byte_str_units(
            b,
        )) =~= (esc_byte_str_units(v[0]) + esc_byte_str_body(v.drop_first())) + esc_byte_str_units(
            b,
        ));
    }
}

/// Builds the full cooked string literal text for `v`.
#[verifier::loop_isolation(false)]
pub fn build_str_escape(v: &Vec<char>) -> (r: Vec<char>)
    ensures
        r@ == str_escape(v@),
{
    let mut out: Vec<char> = Vec::new();
    out.push('"');
    let mut i: usize = 0;
    while i < v.len()
        invariant
            i <= v@.len(),
            out@ == seq!['"'] + esc_str_body(v@.subrange(0, i as int)),
        decreases v@.len() - i,
    {
        proof {
            lemma_esc_str_body_push(v@.subrange(0, i as int), v@[i as int]);
            assert(v@.subrange(0, i as int).push(v@[i as int]) =~= v@.subrange(0, (i + 1) as int));
        }
        push_esc_char(&mut out, v[i]);
        i = i + 1;
        proof {
            assert(out@ =~= seq!['"'] + esc_str_body(v@.subrange(0, i as int)));
        }
    }
    proof {
        assert(v@.subrange(0, v@.len() as int) =~= v@);
    }
    out.push('"');
    proof {
        assert(out@ =~= str_escape(v@));
    }
    out
}

/// Builds the full cooked byte-string literal text for `v`.
#[verifier::loop_isolation(false)]
pub fn build_byte_str_escape(v: &[u8]) -> (r: Vec<char>)
    ensures
        r@ == byte_str_escape(v@),
{
    let mut out: Vec<char> = Vec::new();
    out.push('b');
    out.push('"');
    let mut i: usize = 0;
    while i < v.len()
        invariant
            i <= v@.len(),
            out@ == seq!['b', '"'] + esc_byte_str_body(v@.subrange(0, i as int)),
        decreases v@.len() - i,
    {
        proof {
            lemma_esc_byte_str_body_push(v@.subrange(0, i as int), v@[i as int]);
            assert(v@.subrange(0, i as int).push(v@[i as int]) =~= v@.subrange(0, (i + 1) as int));
        }
        push_esc_byte_str(&mut out, v[i]);
        i = i + 1;
        proof {
            assert(out@ =~= seq!['b', '"'] + esc_byte_str_body(v@.subrange(0, i as int)));
        }
    }
    proof {
        assert(v@.subrange(0, v@.len() as int) =~= v@);
    }
    out.push('"');
    proof {
        assert(out@ =~= byte_str_escape(v@));
    }
    out
}

/// Builds the full character literal text for `c`.
pub fn build_char_escape(c: char) -> (r: Vec<char>)
    ensures
        r@ == char_escape(c),
{
    let mut out: Vec<char> = Vec::new();
    out.push('\'');
    push_esc_char(&mut out, c);
    out.push('\'');
    proof {
        assert(out@ =~= char_escape(c));
    }
    out
}

/// Builds the full byte literal text for `b`.
pub fn build_byte_escape(b: u8) -> (r: Vec<char>)
    ensures
        r@ == byte_escape(b),
{
    let mut out: Vec<char> = Vec::new();
    out.push('b');
    out.push('\'');
    push_esc_byte(&mut out, b);
    out.push('\'');
    proof {
        assert(out@ =~= byte_escape(b));
    }
    out
}

/// Decimal rendering of `v mod m` read as a signed value of width `m`:
/// values at or above `m/2` render as the negation of their two's
/// complement.
pub open spec fn signed_dec(v: int, m: int) -> Seq<char> {
    let low = v % m;
    if low < m / 2 {
        dec_seq(low)
    } else {
        seq!['-'] + dec_seq(m - low)
    }
}

/// One more than the largest `usize`: the modulus of the platform word.
pub open spec fn usize_mod() -> int {
    usize::MAX as int + 1
}

/// Appends the signed rendering of `low` for a modulus `m` that fits in
/// 64 bits.
pub fn push_signed_small(out: &mut Vec<char>, low: u64, m: u64)
    requires
        m >= 2,
        low < m,
    ensures
        final(out)@ == old(out)@ + signed_dec(low as int, m as int),
{
    proof {
        vstd::arithmetic::div_mod::lemma_small_mod(low as nat, m as nat);
    }
    if low < m / 2 {
        push_dec(out, low);
    } else {
        out.push('-');
        push_dec(out, m - low);
        proof {
            assert(final(out)@ =~= old(out)@ + (seq!['-'] + dec_seq((m - low) as int)));
        }
    }
}

/// The decoded value that re-reading a constructed integer token yields:
/// the suffix-width reinterpretation of `v` when that is non-negative,
/// `None` when it renders negative (a leading minus is no longer part of a
/// bare literal token).
pub open spec fn signed_value_after(v: int, m: int) -> Option<u64> {
    let low = v % m;
    if low < m / 2 {
        Some(low as u64)
    } else {
        None
    }
}

/// The canonical token text for integer `value` under `suffix`: the
/// decimal rendering of `value` reinterpreted at the suffix's width and
/// signedness, followed by the suffix spelling. The 128-bit forms render
/// the 64-bit value directly; the unsuffixed form renders it as a signed
/// 64-bit value with no suffix.
pub open spec fn int_token_spec(value: u64, suffix: IntSuffix) -> Seq<char> {
    match suffix {
        IntSuffix::I8 => signed_dec(value as int, 0x100) + seq!['i', '8'],
        IntSuffix::I16 => signed_dec(value as int, 0x10000) + seq!['i', '1', '6'],
        IntSuffix::I32 => signed_dec(value as int, 0x100000000) + seq!['i', '3', '2'],
        IntSuffix::I64 => signed_dec(value as int, 0x10000000000000000) + seq!['i', '6', '4'],
        IntSuffix::I128 => dec_seq(value as int) + seq!['i', '1', '2', '8'],
        IntSuffix::Isize => signed_dec(value as int, usize_mod()) + seq!['i', 's', 'i', 'z', 'e'],
        IntSuffix::U8 => dec_seq(value as int % 0x100) + seq!['u', '8'],
        IntSuffix::U16 => dec_seq(value as int % 0x10000) + seq!['u', '1', '6'],
        IntSuffix::U32 => dec_seq(value as int % 0x100000000) + seq!['u', '3', '2'],
        IntSuffix::U64 => dec_seq(value as int) + seq!['u', '6', '4'],
        IntSuffix::U128 => dec_seq(value as int) + seq!['u', '1', '2', '8'],
        IntSuffix::Usize => dec_seq(value as int % usize_mod()) + seq!['u', 's', 'i', 'z', 'e'],
        IntSuffix::NoSuffix => signed_dec(value as int, 0x10000000000000000),
    }
}

/// The value a constructed integer literal re-decodes to, when its
/// rendering is a non-negative literal token.
pub open spec fn int_value_after(value: u64, suffix: IntSuffix) -> Option<u64> {
    match suffix {
        IntSuffix::I8 => signed_value_after(value as int, 0x100),
        IntSuffix::I16 => signed_value_after(value as int, 0x10000),
        IntSuffix::I32 => signed_value_after(value as int, 0x100000000),
        IntSuffix::I64 => signed_value_after(value as int, 0x10000000000000000),
        IntSuffix::I128 => Some(value),
        IntSuffix::Isize => signed_value_after(value as int, usize_mod()),
        IntSuffix::U8 => Some((value as int % 0x100) as u64),
        IntSuffix::U16 => Some((value as int % 0x10000) as u64),
        IntSuffix::U32 => Some((value as int % 0x100000000) as u64),
        IntSuffix::U64 => Some(value),
        IntSuffix::U128 => Some(value),
        IntSuffix::Usize => Some((value as int % usize_mod()) as u64),
        IntSuffix::NoSuffix => signed_value_after(value as int, 0x10000000000000000),
    }
}

/// Appends the signed 64-bit rendering of `value`.
pub fn push_signed_64(out: &mut Vec<char>, value: u64)
    ensures
        final(out)@ == old(out)@ + signed_dec(value as int, 0x10000000000000000),
{
    if value < 0x8000000000000000 {
        push_dec(out, value);
    } else {
        out.push('-');
        push_dec(out, (u64::MAX - value) + 1);
        proof {
            assert((u64::MAX - value) + 1 == 0x10000000000000000 - value as int);
            assert(final(out)@ =~= old(out)@ + (seq!['-'] + dec_seq(
                0x10000000000000000 - value as int,
            )));
        }
    }
}

} // verus!
