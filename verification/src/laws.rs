//! The laws this codec guarantees, stated and proved: re-emitting a
//! classified literal reproduces its text exactly, and decoding the cooked
//! text constructed for any value returns that value.

use vstd::prelude::*;

use crate::chars::hex_digit_val;
use crate::decode::{
    byte_lit_spec, byte_str_lit_spec, char_lit_spec, cons_unit, cooked_units, hex_escape,
    hex_escape_raw, is_scalar_val, lemma_hex_run, pow16, single_unit, str_lit_spec,
    unicode_escape, TextKind,
};
use crate::num::{digit_val, int_digits};
use crate::encode::{
    byte_escape, byte_str_escape, char_escape, dec_seq, esc_byte_str_body, esc_byte_str_units,
    esc_byte_units, esc_char_units, esc_str_body, hex_char, hex_char_upper, hex_seq,
    int_token_spec, int_value_after, signed_dec, signed_value_after, str_escape, usize_mod,
};
use crate::IntSuffix;
use crate::lit::{classified, emit_text, Lit};
use crate::{LitError, Span};

verus! {

/// Text that holds `e` starting at `i` agrees with `e` at offset `k`.
proof fn lemma_sub_index(t: Seq<char>, i: int, e: Seq<char>, k: int)
    requires
        0 <= i,
        i + e.len() <= t.len(),
        t.subrange(i, i + e.len() as int) == e,
        0 <= k < e.len(),
    ensures
        t[i + k] == e[k],
{
    assert(t.subrange(i, i + e.len() as int)[k] == e[k]);
}

/// A rendered hexadecimal digit reads back as its value (lowercase form).
proof fn lemma_hex_char_val(d: int)
    requires
        0 <= d < 16,
    ensures
        hex_digit_val(hex_char(d)) == Some(d as u8),
{
}

/// A rendered hexadecimal digit reads back as its value (uppercase form).
proof fn lemma_hex_char_upper_val(d: int)
    requires
        0 <= d < 16,
    ensures
        hex_digit_val(hex_char_upper(d)) == Some(d as u8),
{
}

/// Every character of a hex rendering is a hexadecimal digit.
proof fn lemma_hex_seq_digits(n: int)
    requires
        0 <= n,
    ensures
        hex_seq(n).len() >= 1,
        forall|j: int| 0 <= j < hex_seq(n).len() ==> hex_digit_val(#[trigger] hex_seq(n)[j]) is Some,
    decreases n,
{
    if n < 16 {
        lemma_hex_char_val(n);
    } else {
        lemma_hex_seq_digits(n / 16);
        lemma_hex_char_val(n % 16);
        assert forall|j: int| 0 <= j < hex_seq(n).len() implies hex_digit_val(
            #[trigger] hex_seq(n)[j],
        ) is Some by {
            if j < hex_seq(n / 16).len() {
                assert(hex_seq(n)[j] == hex_seq(n / 16)[j]);
            } else {
                assert(hex_seq(n)[j] == hex_char(n % 16));
            }
        }
    }
}

/// A hex rendering of a value below `16^k` has at most `k` digits.
proof fn lemma_hex_seq_len_bound(n: int, k: int)
    requires
        0 <= n,
        1 <= k,
        n < pow16(k),
    ensures
        hex_seq(n).len() <= k,
    decreases k,
{
    if n >= 16 {
        assert(pow16(k) == 16 * pow16(k - 1));
        if k == 1 {
            assert(pow16(0) == 1);
            assert(pow16(1) == 16);
            assert(false);
        }
        vstd::arithmetic::div_mod::lemma_multiply_divide_lt(n, 16, pow16(k - 1));
        lemma_hex_seq_len_bound(n / 16, k - 1);
    }
}

/// Folding the digits of a hex rendering recovers the rendered value.
proof fn lemma_hex_fold_inverse(t: Seq<char>, i: int, n: int)
    requires
        0 <= i,
        0 <= n,
        i + hex_seq(n).len() <= t.len(),
        t.subrange(i, i + hex_seq(n).len() as int) == hex_seq(n),
    ensures
        crate::decode::hex_fold(t, i, i + hex_seq(n).len()) == n,
    decreases n,
{
    let h = hex_seq(n);
    let l = h.len() as int;
    if n < 16 {
        lemma_hex_char_val(n);
        lemma_sub_index(t, i, h, 0);
        assert(h[0] == hex_char(n));
        assert(crate::decode::hex_fold(t, i, i) == 0);
    } else {
        let h2 = hex_seq(n / 16);
        let l2 = h2.len() as int;
        assert(l == l2 + 1);
        assert(t.subrange(i, i + l2) =~= h2) by {
            assert forall|m: int| 0 <= m < l2 implies t.subrange(i, i + l2)[m] == h2[m] by {
                lemma_sub_index(t, i, h, m);
                assert(h[m] == h2[m]);
            }
        }
        lemma_hex_fold_inverse(t, i, n / 16);
        lemma_hex_char_val(n % 16);
        lemma_sub_index(t, i, h, l - 1);
        assert(h[l - 1] == hex_char(n % 16));
    }
}

/// A `\u{...}` escape rendered for `c` decodes back to `c`.
proof fn lemma_unicode_escape_decodes(t: Seq<char>, i: int, c: char)
    requires
        0 <= i,
        !(c == '\t' || c == '\r' || c == '\n' || c == '\\' || c == '\'' || c == '"'),
        !(0x20 <= c as u32 && c as u32 <= 0x7E),
        i + esc_char_units(c).len() <= t.len(),
        t.subrange(i, i + esc_char_units(c).len() as int) == esc_char_units(c),
    ensures
        unicode_escape(t, i + 2) == Ok::<(char, int), LitError>((c, i + esc_char_units(c).len())),
{
    let code = c as u32 as int;
    let h = hex_seq(code);
    let l = h.len() as int;
    let e = esc_char_units(c);
    assert(e == seq!['\\', 'u', '{'] + h + seq!['}']);
    assert(e.len() == l + 4);
    lemma_sub_index(t, i, e, 2);
    assert(e[2] == '{');
    lemma_hex_seq_digits(code);
    assert forall|m: int| i + 3 <= m < i + 3 + l implies hex_digit_val(#[trigger] t[m]) is Some by {
        lemma_sub_index(t, i, e, m - i);
        assert(e[m - i] == h[m - i - 3]);
        assert(hex_digit_val(h[m - i - 3]) is Some);
    }
    assert(hex_digit_val('}') is None);
    lemma_sub_index(t, i, e, 3 + l);
    assert(e[3 + l] == '}');
    assert(t[i + 3 + l] == '}');
    lemma_hex_run(t, i + 3, i + 3 + l);
    assert(t.subrange(i + 3, i + 3 + l) =~= h) by {
        assert forall|m: int| 0 <= m < l implies t.subrange(i + 3, i + 3 + l)[m] == h[m] by {
            lemma_sub_index(t, i, e, 3 + m);
            assert(e[3 + m] == h[m]);
        }
    }
    lemma_hex_fold_inverse(t, i + 3, code);
    vstd::utf8::char_is_scalar(c);
    assert(code <= 0x10FFFF);
    assert(pow16(0) == 1);
    assert(pow16(1) == 16);
    assert(pow16(2) == 256);
    assert(pow16(3) == 4096);
    assert(pow16(4) == 65536);
    assert(pow16(5) == 1048576);
    assert(pow16(6) == 16777216);
    lemma_hex_seq_len_bound(code, 6);
    assert(is_scalar_val(code));
    vstd::utf8::char_u32_cast(c, c as u32);
}

/// Cooked decoding at the escape of `c` yields `c` and continues just past
/// it.
proof fn lemma_cooked_unit_decode(t: Seq<char>, i: int, c: char)
    requires
        0 <= i,
        i + esc_char_units(c).len() <= t.len(),
        t.subrange(i, i + esc_char_units(c).len() as int) == esc_char_units(c),
    ensures
        cooked_units(t, i, TextKind::Unicode) == cons_unit(
            c,
            cooked_units(t, i + esc_char_units(c).len(), TextKind::Unicode),
        ),
{
    let e = esc_char_units(c);
    if c == '\t' || c == '\r' || c == '\n' || c == '\\' || c == '\'' || c == '"' {
        lemma_sub_index(t, i, e, 0);
        lemma_sub_index(t, i, e, 1);
        assert(t[i] == '\\');
    } else if 0x20 <= c as u32 && c as u32 <= 0x7E {
        lemma_sub_index(t, i, e, 0);
        assert(t[i] == c);
    } else {
        lemma_sub_index(t, i, e, 0);
        lemma_sub_index(t, i, e, 1);
        assert(e[0] == '\\' && e[1] == 'u');
        assert(t[i] == '\\' && t[i + 1] == 'u');
        lemma_unicode_escape_decodes(t, i, c);
    }
}

/// Cooked byte decoding at the escape of `b` yields `b` (as a character
/// unit) and continues just past it.
proof fn lemma_cooked_byte_unit_decode(t: Seq<char>, i: int, b: u8)
    requires
        0 <= i,
        i + esc_byte_str_units(b).len() <= t.len(),
        t.subrange(i, i + esc_byte_str_units(b).len() as int) == esc_byte_str_units(b),
    ensures
        cooked_units(t, i, TextKind::Byte) == cons_unit(
            b as char,
            cooked_units(t, i + esc_byte_str_units(b).len(), TextKind::Byte),
        ),
{
    let e = esc_byte_str_units(b);
    if b == 0 || b == 9 || b == 10 || b == 13 || b == 0x22 || b == 0x5C {
        lemma_sub_index(t, i, e, 0);
        lemma_sub_index(t, i, e, 1);
        assert(t[i] == '\\');
    } else if 0x20 <= b && b <= 0x7E {
        lemma_sub_index(t, i, e, 0);
        assert(t[i] == b as char);
        assert((b as char) as u32 == b as u32);
    } else {
        lemma_sub_index(t, i, e, 0);
        lemma_sub_index(t, i, e, 1);
        lemma_sub_index(t, i, e, 2);
        lemma_sub_index(t, i, e, 3);
        assert(t[i] == '\\' && t[i + 1] == 'x');
        lemma_hex_char_upper_val(b as int / 16);
        lemma_hex_char_upper_val(b as int % 16);
        assert(t[i + 2] == hex_char_upper(b as int / 16));
        assert(t[i + 3] == hex_char_upper(b as int % 16));
        assert(hex_escape_raw(t, i + 2) == Ok::<u8, LitError>(b)) by {
            assert((b as int / 16) * 16 + (b as int % 16) == b as int);
        }
        assert(hex_escape(t, i + 2, TextKind::Byte) == Ok::<u8, LitError>(b));
    }
}

/// Decoding the escaped body of `v` followed by the closing quote yields
/// exactly `v`.
proof fn lemma_esc_body_decodes(t: Seq<char>, i: int, v: Seq<char>)
    requires
        0 <= i,
        i + esc_str_body(v).len() == t.len() - 1,
        t.subrange(i, i + esc_str_body(v).len() as int) == esc_str_body(v),
        t[t.len() - 1] == '"',
    ensures
        cooked_units(t, i, TextKind::Unicode) == Ok::<Seq<char>, LitError>(v),
    decreases v.len(),
{
    if v.len() == 0 {
        assert(i == t.len() - 1);
        assert(v =~= Seq::<char>::empty());
    } else {
        let c = v[0];
        let e = esc_char_units(c);
        let rest = esc_str_body(v.drop_first());
        let body = esc_str_body(v);
        assert(body == e + rest);
        assert(t.subrange(i, i + e.len() as int) =~= e) by {
            assert forall|m: int| 0 <= m < e.len() implies t.subrange(i, i + e.len() as int)[m]
                == e[m] by {
                lemma_sub_index(t, i, body, m);
                assert(body[m] == e[m]);
            }
        }
        lemma_cooked_unit_decode(t, i, c);
        let i2 = i + e.len() as int;
        assert(t.subrange(i2, i2 + rest.len() as int) =~= rest) by {
            assert forall|m: int| 0 <= m < rest.len() implies t.subrange(
                i2,
                i2 + rest.len() as int,
            )[m] == rest[m] by {
                lemma_sub_index(t, i, body, e.len() + m);
                assert(body[e.len() + m] == rest[m]);
            }
        }
        lemma_esc_body_decodes(t, i2, v.drop_first());
        assert(seq![c] + v.drop_first() =~= v);
    }
}

/// Decoding the escaped body of bytes `v` followed by the closing quote
/// yields the characters of those bytes.
proof fn lemma_esc_byte_body_decodes(t: Seq<char>, i: int, v: Seq<u8>)
    requires
        0 <= i,
        i + esc_byte_str_body(v).len() == t.len() - 1,
        t.subrange(i, i + esc_byte_str_body(v).len() as int) == esc_byte_str_body(v),
        t[t.len() - 1] == '"',
    ensures
        cooked_units(t, i, TextKind::Byte) == Ok::<Seq<char>, LitError>(
            Seq::new(v.len(), |j: int| v[j] as char),
        ),
    decreases v.len(),
{
    if v.len() == 0 {
        assert(i == t.len() - 1);
        assert(Seq::new(v.len(), |j: int| v[j] as char) =~= Seq::<char>::empty());
    } else {
        let b = v[0];
        let e = esc_byte_str_units(b);
        let rest = esc_byte_str_body(v.drop_first());
        let body = esc_byte_str_body(v);
        assert(body == e + rest);
        assert(t.subrange(i, i + e.len() as int) =~= e) by {
            assert forall|m: int| 0 <= m < e.len() implies t.subrange(i, i + e.len() as int)[m]
                == e[m] by {
                lemma_sub_index(t, i, body, m);
                assert(body[m] == e[m]);
            }
        }
        lemma_cooked_byte_unit_decode(t, i, b);
        let i2 = i + e.len() as int;
        assert(t.subrange(i2, i2 + rest.len() as int) =~= rest) by {
            assert forall|m: int| 0 <= m < rest.len() implies t.subrange(
                i2,
                i2 + rest.len() as int,
            )[m] == rest[m] by {
                lemma_sub_index(t, i, body, e.len() + m);
                assert(body[e.len() + m] == rest[m]);
            }
        }
        lemma_esc_byte_body_decodes(t, i2, v.drop_first());
        assert(seq![b as char] + Seq::new(v.drop_first().len(), |j: int| v.drop_first()[j] as char)
            =~= Seq::new(v.len(), |j: int| v[j] as char));
    }
}

/// Escape inverse, string form: decoding the cooked text constructed for
/// any text value returns that value.
pub proof fn lemma_str_escape_inverse(v: Seq<char>)
    ensures
        str_lit_spec(str_escape(v)) == Ok::<Seq<char>, LitError>(v),
{
    let t = str_escape(v);
    let body = esc_str_body(v);
    assert(t[0] == '"');
    assert(t[t.len() - 1] == '"');
    assert(t.subrange(1, 1 + body.len() as int) =~= body);
    lemma_esc_body_decodes(t, 1, v);
}

/// Escape inverse, byte-string form: decoding the cooked text constructed
/// for any byte value returns that value.
pub proof fn lemma_byte_str_escape_inverse(v: Seq<u8>)
    ensures
        byte_str_lit_spec(byte_str_escape(v)) == Ok::<Seq<u8>, LitError>(v),
{
    let t = byte_str_escape(v);
    let body = esc_byte_str_body(v);
    assert(t[0] == 'b' && t[1] == '"');
    assert(t[t.len() - 1] == '"');
    assert(t.subrange(2, 2 + body.len() as int) =~= body);
    lemma_esc_byte_body_decodes(t, 2, v);
    let u = Seq::new(v.len(), |j: int| v[j] as char);
    assert(Seq::new(u.len(), |j: int| u[j] as u8) =~= v) by {
        assert(forall|j: int| 0 <= j < v.len() ==> ((#[trigger] v[j]) as char) as u8 == v[j]);
    }
}

/// A single decoded unit at the escape of `c` is `c` itself.
proof fn lemma_single_unit_char(t: Seq<char>, i: int, c: char)
    requires
        0 <= i,
        i + esc_char_units(c).len() <= t.len(),
        t.subrange(i, i + esc_char_units(c).len() as int) == esc_char_units(c),
    ensures
        single_unit(t, i, TextKind::Unicode) == Ok::<(char, int), LitError>(
            (c, i + esc_char_units(c).len()),
        ),
{
    let e = esc_char_units(c);
    if c == '\t' || c == '\r' || c == '\n' || c == '\\' || c == '\'' || c == '"' {
        lemma_sub_index(t, i, e, 0);
        lemma_sub_index(t, i, e, 1);
        assert(t[i] == '\\');
    } else if 0x20 <= c as u32 && c as u32 <= 0x7E {
        lemma_sub_index(t, i, e, 0);
        assert(t[i] == c);
    } else {
        lemma_sub_index(t, i, e, 0);
        lemma_sub_index(t, i, e, 1);
        assert(t[i] == '\\' && t[i + 1] == 'u');
        lemma_unicode_escape_decodes(t, i, c);
    }
}

/// A single decoded unit at the escape of byte `b` is `b`'s character.
proof fn lemma_single_unit_byte(t: Seq<char>, i: int, b: u8)
    requires
        0 <= i,
        i + esc_byte_units(b).len() <= t.len(),
        t.subrange(i, i + esc_byte_units(b).len() as int) == esc_byte_units(b),
    ensures
        single_unit(t, i, TextKind::Byte) == Ok::<(char, int), LitError>(
            (b as char, i + esc_byte_units(b).len()),
        ),
{
    let e = esc_byte_units(b);
    if b == 0 || b == 9 || b == 10 || b == 13 || b == 0x5C || b == 0x27 {
        lemma_sub_index(t, i, e, 0);
        lemma_sub_index(t, i, e, 1);
        assert(t[i] == '\\');
    } else if b == 0x22 {
        lemma_sub_index(t, i, e, 0);
        assert(t[i] == '"');
        assert((b as char) as u32 == 0x22);
    } else if 0x20 <= b && b <= 0x7E {
        lemma_sub_index(t, i, e, 0);
        assert(t[i] == b as char);
        assert((b as char) as u32 == b as u32);
    } else {
        lemma_sub_index(t, i, e, 0);
        lemma_sub_index(t, i, e, 1);
        lemma_sub_index(t, i, e, 2);
        lemma_sub_index(t, i, e, 3);
        assert(t[i] == '\\' && t[i + 1] == 'x');
        lemma_hex_char_val(b as int / 16);
        lemma_hex_char_val(b as int % 16);
        assert(t[i + 2] == hex_char(b as int / 16));
        assert(t[i + 3] == hex_char(b as int % 16));
        assert(hex_escape_raw(t, i + 2) == Ok::<u8, LitError>(b)) by {
            assert((b as int / 16) * 16 + (b as int % 16) == b as int);
        }
        assert(hex_escape(t, i + 2, TextKind::Byte) == Ok::<u8, LitError>(b));
    }
}

/// Escape inverse, character form: decoding the cooked text constructed
/// for any character returns that character.
pub proof fn lemma_char_escape_inverse(c: char)
    ensures
        char_lit_spec(char_escape(c)) == Ok::<char, LitError>(c),
{
    let t = char_escape(c);
    let e = esc_char_units(c);
    assert(t[0] == '\'');
    assert(t.subrange(1, 1 + e.len() as int) =~= e);
    lemma_single_unit_char(t, 1, c);
    assert(t[t.len() - 1] == '\'');
}

/// Escape inverse, byte form: decoding the cooked text constructed for any
/// byte returns that byte.
pub proof fn lemma_byte_escape_inverse(b: u8)
    ensures
        byte_lit_spec(byte_escape(b)) == Ok::<u8, LitError>(b),
{
    let t = byte_escape(b);
    let e = esc_byte_units(b);
    assert(t[0] == 'b' && t[1] == '\'');
    assert(t.subrange(2, 2 + e.len() as int) =~= e);
    lemma_single_unit_byte(t, 2, b);
    assert(t[t.len() - 1] == '\'');
    assert((b as char) as u8 == b);
}

/// Ten to the `k`th power, to relate digit folding to renderings.
spec fn pow10(k: int) -> int
    decreases k,
{
    if k <= 0 {
        1
    } else {
        10 * pow10(k - 1)
    }
}

/// Every character of a decimal rendering is a decimal digit.
proof fn lemma_dec_seq_digits(n: int)
    requires
        0 <= n,
    ensures
        dec_seq(n).len() >= 1,
        forall|j: int|
            0 <= j < dec_seq(n).len() ==> 48 <= (#[trigger] dec_seq(n)[j]) as u32 && dec_seq(
                n,
            )[j] as u32 <= 57,
    decreases n,
{
    if n < 10 {
    } else {
        lemma_dec_seq_digits(n / 10);
        assert forall|j: int|
            0 <= j < dec_seq(n).len() implies 48 <= (#[trigger] dec_seq(n)[j]) as u32 && dec_seq(
            n,
        )[j] as u32 <= 57 by {
            if j < dec_seq(n / 10).len() {
                assert(dec_seq(n)[j] == dec_seq(n / 10)[j]);
            } else {
                assert(dec_seq(n)[j] == ((48 + (n % 10)) as u32) as char);
            }
        }
    }
}

/// Folding the digits of a decimal rendering onto an accumulator scales
/// the accumulator by the rendering's width and adds the rendered value.
proof fn lemma_dec_digits_fold(t: Seq<char>, i: int, n: int, acc: u64)
    requires
        0 <= i,
        0 <= n,
        i + dec_seq(n).len() <= t.len(),
        t.subrange(i, i + dec_seq(n).len() as int) == dec_seq(n),
        acc * pow10(dec_seq(n).len() as int) + n <= u64::MAX,
    ensures
        int_digits(t, i, 10, acc) == int_digits(
            t,
            i + dec_seq(n).len(),
            10,
            (acc * pow10(dec_seq(n).len() as int) + n) as u64,
        ),
    decreases n,
{
    let d = dec_seq(n);
    let l = d.len() as int;
    if n < 10 {
        lemma_sub_index(t, i, d, 0);
        assert(d[0] == ((48 + n) as u32) as char);
        assert(digit_val(t[i], 10) == Some(n));
        assert(pow10(0) == 1);
        assert(pow10(1) == 10);
    } else {
        let dh = dec_seq(n / 10);
        let lh = dh.len() as int;
        assert(l == lh + 1);
        assert(t.subrange(i, i + lh) =~= dh) by {
            assert forall|m: int| 0 <= m < lh implies t.subrange(i, i + lh)[m] == dh[m] by {
                lemma_sub_index(t, i, d, m);
                assert(d[m] == dh[m]);
            }
        }
        assert(pow10(l) == 10 * pow10(lh));
        assert(acc as int * (10 * pow10(lh)) == (acc as int * pow10(lh)) * 10) by (nonlinear_arith);
        assert((acc as int * pow10(lh)) * 10 + n == (acc as int * pow10(lh) + n / 10) * 10 + n % 10)
            by (nonlinear_arith);
        let acc2 = acc as int * pow10(lh) + n / 10;
        assert(acc2 * 10 + n % 10 == acc as int * pow10(l) + n);
        lemma_pow10_pos(lh);
        vstd::arithmetic::mul::lemma_mul_nonnegative(acc as int, pow10(lh));
        assert(0 <= acc2);
        assert(acc2 <= u64::MAX);
        lemma_dec_digits_fold(t, i, n / 10, acc);
        lemma_sub_index(t, i, d, l - 1);
        assert(d[l - 1] == ((48 + (n % 10)) as u32) as char);
        assert(digit_val(t[i + lh], 10) == Some(n % 10));
    }
}

proof fn lemma_pow10_pos(k: int)
    ensures
        pow10(k) >= 1,
    decreases k,
{
    if k > 0 {
        lemma_pow10_pos(k - 1);
    }
}

/// Decimal digits written for `n`, followed by a suffix that starts with
/// no digit-like character, re-parse as exactly `n`.
pub proof fn lemma_int_render_parses(t: Seq<char>, n: u64, suffix: Seq<char>)
    requires
        t == dec_seq(n as int) + suffix,
        suffix.len() == 0 || (digit_val(suffix[0], 10) is None && suffix[0] != '_' && suffix[0]
            != '.' && suffix[0] != 'e' && suffix[0] != 'E' && suffix[0] != 'x' && suffix[0] != 'o'
            && suffix[0] != 'b'),
    ensures
        crate::num::int_lit_spec(t) == Ok::<Option<u64>, LitError>(Some(n)),
{
    let d = dec_seq(n as int);
    let l = d.len() as int;
    lemma_dec_seq_digits(n as int);
    assert(t[0] == d[0]);
    assert(48 <= t[0] as u32 && t[0] as u32 <= 57);
    if t.len() >= 2 {
        if l >= 2 {
            assert(t[1] == d[1]);
            assert(48 <= t[1] as u32 && t[1] as u32 <= 57);
            assert(t[1] != 'x' && t[1] != 'o' && t[1] != 'b');
        } else {
            assert(t[1] == suffix[0]);
        }
    }
    assert(crate::num::int_base(t) == Some((10int, 0int)));
    assert(t.subrange(0, l) =~= d) by {
        assert(forall|m: int| 0 <= m < l ==> t.subrange(0, l)[m] == #[trigger] d[m]);
    }
    lemma_pow10_pos(l);
    assert(0int * pow10(l) + n as int == n as int);
    lemma_dec_digits_fold(t, 0, n as int, 0u64);
    if l == t.len() {
    } else {
        assert(t[l] == suffix[0]);
        assert(int_digits(t, l, 10, n) == Ok::<Option<u64>, LitError>(Some(n)));
    }
}

/// Whether `s` can stand as the suffix of a rendered integer token: empty,
/// or opening with a letter that ends digit folding without being mistaken
/// for a base prefix or a float marker.
spec fn benign_suffix(s: Seq<char>) -> bool {
    s.len() == 0 || (digit_val(s[0], 10) is None && s[0] != '_' && s[0] != '.' && s[0] != 'e'
        && s[0] != 'E' && s[0] != 'x' && s[0] != 'o' && s[0] != 'b')
}

proof fn lemma_signed_case(value: u64, m: int, sfx: Seq<char>)
    requires
        2 <= m <= 0x10000000000000000,
        benign_suffix(sfx),
    ensures
        signed_value_after(value as int, m) is Some ==> crate::num::int_lit_spec(
            signed_dec(value as int, m) + sfx,
        ) == Ok::<Option<u64>, LitError>(Some(signed_value_after(value as int, m)->0)),
{
    let low = value as int % m;
    if low < m / 2 {
        assert(signed_dec(value as int, m) == dec_seq(low));
        assert(dec_seq((low as u64) as int) == dec_seq(low));
        lemma_int_render_parses(signed_dec(value as int, m) + sfx, low as u64, sfx);
    }
}

proof fn lemma_unsigned_case(value: u64, m: int, sfx: Seq<char>)
    requires
        1 <= m <= 0x10000000000000000,
        benign_suffix(sfx),
    ensures
        crate::num::int_lit_spec(dec_seq(value as int % m) + sfx) == Ok::<Option<u64>, LitError>(
            Some(((value as int % m) as u64)),
        ),
{
    let low = value as int % m;
    assert(dec_seq((low as u64) as int) == dec_seq(low));
    lemma_int_render_parses(dec_seq(value as int % m) + sfx, low as u64, sfx);
}

/// A constructed integer token re-decodes to its rendered value whenever
/// that rendering is non-negative.
pub proof fn lemma_int_token_value(value: u64, suffix: IntSuffix)
    ensures
        int_value_after(value, suffix) is Some ==> crate::num::int_lit_spec(
            int_token_spec(value, suffix),
        ) == Ok::<Option<u64>, LitError>(Some(int_value_after(value, suffix)->0)),
{
    match suffix {
        IntSuffix::I8 => {
            lemma_signed_case(value, 0x100, seq!['i', '8']);
        },
        IntSuffix::I16 => {
            lemma_signed_case(value, 0x10000, seq!['i', '1', '6']);
        },
        IntSuffix::I32 => {
            lemma_signed_case(value, 0x100000000, seq!['i', '3', '2']);
        },
        IntSuffix::I64 => {
            lemma_signed_case(value, 0x10000000000000000, seq!['i', '6', '4']);
        },
        IntSuffix::I128 => {
            vstd::arithmetic::div_mod::lemma_small_mod(value as nat, 0x10000000000000000nat);
            lemma_unsigned_case(value, 0x10000000000000000, seq!['i', '1', '2', '8']);
        },
        IntSuffix::Isize => {
            lemma_signed_case(value, usize_mod(), seq!['i', 's', 'i', 'z', 'e']);
        },
        IntSuffix::U8 => {
            lemma_unsigned_case(value, 0x100, seq!['u', '8']);
        },
        IntSuffix::U16 => {
            lemma_unsigned_case(value, 0x10000, seq!['u', '1', '6']);
        },
        IntSuffix::U32 => {
            lemma_unsigned_case(value, 0x100000000, seq!['u', '3', '2']);
        },
        IntSuffix::U64 => {
            vstd::arithmetic::div_mod::lemma_small_mod(value as nat, 0x10000000000000000nat);
            lemma_unsigned_case(value, 0x10000000000000000, seq!['u', '6', '4']);
        },
        IntSuffix::U128 => {
            vstd::arithmetic::div_mod::lemma_small_mod(value as nat, 0x10000000000000000nat);
            lemma_unsigned_case(value, 0x10000000000000000, seq!['u', '1', '2', '8']);
        },
        IntSuffix::Usize => {
            lemma_unsigned_case(value, usize_mod(), seq!['u', 's', 'i', 'z', 'e']);
        },
        IntSuffix::NoSuffix => {
            lemma_signed_case(value, 0x10000000000000000, Seq::<char>::empty());
            assert(signed_dec(value as int, 0x10000000000000000) + Seq::<char>::empty()
                =~= signed_dec(value as int, 0x10000000000000000));
        },
    }
}

/// Round trip: re-emitting any classified literal reproduces the original
/// token text exactly. Boolean reproduces it too, because only the
/// canonical `true`/`false` spellings classify as Boolean.
pub proof fn lemma_classify_round_trip(t: Seq<char>, span: Span, l: Lit)
    requires
        classified(t, span, l),
    ensures
        emit_text(l) == t,
{
}

} // verus!
