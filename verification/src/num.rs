//! Numeric literal decoding: base detection from the `0x`/`0o`/`0b` prefix,
//! digit folding with overflow tracking, suffix scanning, and normalization
//! of float literal text.

use vstd::prelude::*;

use crate::chars::{chars_contain, chars_end_with, chars_vec, seq_ends_with, string_from_chars};
use crate::{FloatSuffix, IntSuffix, LitError};

verus! {

/// Digit value of `c` in `base`; letters count as digits only above base
/// ten.
pub open spec fn digit_val(c: char, base: int) -> Option<int> {
    let u = c as u32;
    if 48 <= u && u <= 57 {
        Some((u - 48) as int)
    } else if 97 <= u && u <= 102 && base > 10 {
        Some((u - 87) as int)
    } else if 65 <= u && u <= 70 && base > 10 {
        Some((u - 55) as int)
    } else {
        None
    }
}

/// The base of a numeric literal and the position where its digits begin.
pub open spec fn int_base(t: Seq<char>) -> Option<(int, int)> {
    if t.len() >= 2 && t[0] == '0' && t[1] == 'x' {
        Some((16, 2))
    } else if t.len() >= 2 && t[0] == '0' && t[1] == 'o' {
        Some((8, 2))
    } else if t.len() >= 2 && t[0] == '0' && t[1] == 'b' {
        Some((2, 2))
    } else if t.len() >= 1 && 48 <= t[0] as u32 && t[0] as u32 <= 57 {
        Some((10, 0))
    } else {
        None
    }
}

/// Folds digits of `t` from `i` onto `acc`: `Ok(Some(v))` once a non-digit
/// suffix or the end is reached; `Ok(None)` on 64-bit overflow or on a
/// float-only character (`.`, `e`, `E` in base ten), which asks the caller
/// to reclassify; `Err` on a digit at or above the base. Underscores are
/// skipped.
pub open spec fn int_digits(t: Seq<char>, i: int, base: int, acc: u64) -> Result<
    Option<u64>,
    LitError,
>
    decreases t.len() - i,
{
    if !(0 <= i && i < t.len()) {
        Ok(Some(acc))
    } else {
        let c = t[i];
        match digit_val(c, base) {
            Some(d) => if d >= base {
                Err(LitError::InvalidHexDigit)
            } else if acc * base + d > u64::MAX {
                Ok(None)
            } else {
                int_digits(t, i + 1, base, (acc * base + d) as u64)
            },
            None => if c == '_' {
                int_digits(t, i + 1, base, acc)
            } else if c == '.' && base == 10 {
                Ok(None)
            } else if (c == 'e' || c == 'E') && base == 10 {
                Ok(None)
            } else {
                Ok(Some(acc))
            },
        }
    }
}

/// The decoded value of an integer literal: `Ok(Some(v))`, `Ok(None)` when
/// the value overflows 64 bits or the text is float-shaped, `Err` on a
/// grammar violation.
pub open spec fn int_lit_spec(t: Seq<char>) -> Result<Option<u64>, LitError> {
    match int_base(t) {
        Some((base, start)) => int_digits(t, start, base, 0u64),
        None => Err(LitError::UnrecognizedLiteral),
    }
}

/// Decodes an integer literal, following [`int_lit_spec`]. `Ok(None)` means
/// the caller should reclassify the text as a float or preserve it
/// verbatim.
#[verifier::loop_isolation(false)]
pub fn parse_lit_int(s: &str) -> (r: Result<Option<u64>, LitError>)
    ensures
        r == int_lit_spec(s@),
{
    let t = chars_vec(s);
    let n = t.len();
    let base: u64;
    let start: usize;
    if n >= 2 && t[0] == '0' && t[1] == 'x' {
        base = 16;
        start = 2;
    } else if n >= 2 && t[0] == '0' && t[1] == 'o' {
        base = 8;
        start = 2;
    } else if n >= 2 && t[0] == '0' && t[1] == 'b' {
        base = 2;
        start = 2;
    } else if n >= 1 && 48 <= t[0] as u32 && t[0] as u32 <= 57 {
        base = 10;
        start = 0;
    } else {
        return Err(LitError::UnrecognizedLiteral);
    }
    proof {
        assert(int_base(t@) == Some((base as int, start as int)));
    }
    let mut acc: u64 = 0;
    let mut i: usize = start;
    loop
        invariant
            start <= i && i <= n == t@.len(),
            int_digits(t@, start as int, base as int, 0u64) == int_digits(
                t@,
                i as int,
                base as int,
                acc,
            ),
        decreases t@.len() - i,
    {
        if i == n {
            return Ok(Some(acc));
        }
        let c = t[i];
        let u = c as u32;
        let d: u64 = if 48 <= u && u <= 57 {
            (u - 48) as u64
        } else if 97 <= u && u <= 102 && base > 10 {
            (u - 87) as u64
        } else if 65 <= u && u <= 70 && base > 10 {
            (u - 55) as u64
        } else {
            64
        };
        if d < 64 {
            proof {
                assert(digit_val(c, base as int) == Some(d as int));
            }
            if d >= base {
                return Err(LitError::InvalidHexDigit);
            }
            proof {
                vstd::arithmetic::mul::lemma_mul_upper_bound(
                    acc as int,
                    u64::MAX as int,
                    base as int,
                    16,
                );
            }
            let next: u128 = (acc as u128) * (base as u128) + (d as u128);
            if next > u64::MAX as u128 {
                return Ok(None);
            }
            acc = next as u64;
            i = i + 1;
        } else {
            proof {
                assert(digit_val(c, base as int) is None);
            }
            if c == '_' {
                i = i + 1;
            } else if c == '.' && base == 10 {
                return Ok(None);
            } else if (c == 'e' || c == 'E') && base == 10 {
                return Ok(None);
            } else {
                return Ok(Some(acc));
            }
        }
    }
}

/// Whether numeric literal text is float-shaped: it holds a dot, or an
/// exponent marker while being neither hex-prefixed nor `size`-suffixed.
pub open spec fn is_float_spec(t: Seq<char>) -> bool {
    t.contains('.') || (!(t.len() >= 2 && t[0] == '0' && t[1] == 'x') && !seq_ends_with(
        t,
        seq!['s', 'i', 'z', 'e'],
    ) && (t.contains('e') || t.contains('E')))
}

/// Whether numeric literal text should be read as a float.
pub fn number_is_float(s: &str) -> (r: bool)
    ensures
        r == is_float_spec(s@),
{
    let t = chars_vec(s);
    if chars_contain(&t, '.') {
        return true;
    }
    if t.len() >= 2 && t[0] == '0' && t[1] == 'x' {
        return false;
    }
    proof {
        reveal_strlit("size");
        assert("size"@ =~= seq!['s', 'i', 'z', 'e']);
    }
    if chars_end_with(&t, "size") {
        return false;
    }
    if chars_contain(&t, 'e') {
        return true;
    }
    chars_contain(&t, 'E')
}

/// Whether numeric literal text should be read as an integer: not
/// float-shaped, and its digits fold into 64 bits. A digit out of base
/// range is a grammar violation and is returned as the error it names.
pub fn number_is_int(s: &str) -> (r: Result<bool, LitError>)
    ensures
        (match r {
            Ok(b) => b == (!is_float_spec(s@) && (int_lit_spec(s@) matches Ok(Some(_)))),
            Err(e) => !is_float_spec(s@) && int_lit_spec(s@) == Err::<Option<u64>, LitError>(e),
        }),
{
    if number_is_float(s) {
        Ok(false)
    } else {
        match parse_lit_int(s) {
            Ok(v) => Ok(v.is_some()),
            Err(e) => Err(e),
        }
    }
}

/// The integer suffix spelled at the end of literal text, if any.
pub open spec fn int_suffix_spec(t: Seq<char>) -> IntSuffix {
    if seq_ends_with(t, seq!['i', '8']) {
        IntSuffix::I8
    } else if seq_ends_with(t, seq!['i', '1', '6']) {
        IntSuffix::I16
    } else if seq_ends_with(t, seq!['i', '3', '2']) {
        IntSuffix::I32
    } else if seq_ends_with(t, seq!['i', '6', '4']) {
        IntSuffix::I64
    } else if seq_ends_with(t, seq!['i', '1', '2', '8']) {
        IntSuffix::I128
    } else if seq_ends_with(t, seq!['i', 's', 'i', 'z', 'e']) {
        IntSuffix::Isize
    } else if seq_ends_with(t, seq!['u', '8']) {
        IntSuffix::U8
    } else if seq_ends_with(t, seq!['u', '1', '6']) {
        IntSuffix::U16
    } else if seq_ends_with(t, seq!['u', '3', '2']) {
        IntSuffix::U32
    } else if seq_ends_with(t, seq!['u', '6', '4']) {
        IntSuffix::U64
    } else if seq_ends_with(t, seq!['u', '1', '2', '8']) {
        IntSuffix::U128
    } else if seq_ends_with(t, seq!['u', 's', 'i', 'z', 'e']) {
        IntSuffix::Usize
    } else {
        IntSuffix::NoSuffix
    }
}

/// Scans the end of integer literal text for its suffix.
pub fn scan_int_suffix(s: &str) -> (r: IntSuffix)
    ensures
        r == int_suffix_spec(s@),
{
    let t = chars_vec(s);
    proof {
        reveal_strlit("i8");
        reveal_strlit("i16");
        reveal_strlit("i32");
        reveal_strlit("i64");
        reveal_strlit("i128");
        reveal_strlit("isize");
        reveal_strlit("u8");
        reveal_strlit("u16");
        reveal_strlit("u32");
        reveal_strlit("u64");
        reveal_strlit("u128");
        reveal_strlit("usize");
        assert("i8"@ =~= seq!['i', '8']);
        assert("i16"@ =~= seq!['i', '1', '6']);
        assert("i32"@ =~= seq!['i', '3', '2']);
        assert("i64"@ =~= seq!['i', '6', '4']);
        assert("i128"@ =~= seq!['i', '1', '2', '8']);
        assert("isize"@ =~= seq!['i', 's', 'i', 'z', 'e']);
        assert("u8"@ =~= seq!['u', '8']);
        assert("u16"@ =~= seq!['u', '1', '6']);
        assert("u32"@ =~= seq!['u', '3', '2']);
        assert("u64"@ =~= seq!['u', '6', '4']);
        assert("u128"@ =~= seq!['u', '1', '2', '8']);
        assert("usize"@ =~= seq!['u', 's', 'i', 'z', 'e']);
    }
    if chars_end_with(&t, "i8") {
        IntSuffix::I8
    } else if chars_end_with(&t, "i16") {
        IntSuffix::I16
    } else if chars_end_with(&t, "i32") {
        IntSuffix::I32
    } else if chars_end_with(&t, "i64") {
        IntSuffix::I64
    } else if chars_end_with(&t, "i128") {
        IntSuffix::I128
    } else if chars_end_with(&t, "isize") {
        IntSuffix::Isize
    } else if chars_end_with(&t, "u8") {
        IntSuffix::U8
    } else if chars_end_with(&t, "u16") {
        IntSuffix::U16
    } else if chars_end_with(&t, "u32") {
        IntSuffix::U32
    } else if chars_end_with(&t, "u64") {
        IntSuffix::U64
    } else if chars_end_with(&t, "u128") {
        IntSuffix::U128
    } else if chars_end_with(&t, "usize") {
        IntSuffix::Usize
    } else {
        IntSuffix::NoSuffix
    }
}

/// The float suffix spelled at the end of literal text, if any.
pub open spec fn float_suffix_spec(t: Seq<char>) -> FloatSuffix {
    if seq_ends_with(t, seq!['f', '3', '2']) {
        FloatSuffix::F32
    } else if seq_ends_with(t, seq!['f', '6', '4']) {
        FloatSuffix::F64
    } else {
        FloatSuffix::NoSuffix
    }
}

/// Scans the end of float literal text for its suffix.
pub fn scan_float_suffix(s: &str) -> (r: FloatSuffix)
    ensures
        r == float_suffix_spec(s@),
{
    let t = chars_vec(s);
    proof {
        reveal_strlit("f32");
        reveal_strlit("f64");
        assert("f32"@ =~= seq!['f', '3', '2']);
        assert("f64"@ =~= seq!['f', '6', '4']);
    }
    if chars_end_with(&t, "f32") {
        FloatSuffix::F32
    } else if chars_end_with(&t, "f64") {
        FloatSuffix::F64
    } else {
        FloatSuffix::NoSuffix
    }
}

/// `t` with every underscore separator removed.
pub open spec fn strip_underscores(t: Seq<char>) -> Seq<char>
    decreases t.len(),
{
    if t.len() == 0 {
        Seq::<char>::empty()
    } else if t[0] == '_' {
        strip_underscores(t.drop_first())
    } else {
        seq![t[0]] + strip_underscores(t.drop_first())
    }
}

proof fn lemma_strip_push(t: Seq<char>, c: char)
    ensures
        strip_underscores(t.push(c)) == strip_underscores(t) + (if c == '_' {
            Seq::<char>::empty()
        } else {
            seq![c]
        }),
    decreases t.len(),
{
    if t.len() == 0 {
        assert(t.push(c).len() == 1);
        assert(t.push(c)[0] == c);
        assert(t.push(c).drop_first() =~= Seq::<char>::empty());
        assert(strip_underscores(t.push(c).drop_first()) == strip_underscores(
            Seq::<char>::empty(),
        ));
        assert(strip_underscores(Seq::<char>::empty()) == Seq::<char>::empty());
        assert(strip_underscores(t) == Seq::<char>::empty());
        if c == '_' {
            assert(strip_underscores(t.push(c)) == Seq::<char>::empty());
            assert(strip_underscores(t) + Seq::<char>::empty() =~= Seq::<char>::empty());
        } else {
            assert(strip_underscores(t.push(c)) == seq![c] + Seq::<char>::empty());
            assert(seq![c] + Seq::<char>::empty() =~= seq![c]);
            assert(strip_underscores(t) + seq![c] =~= seq![c]);
        }
    } else {
        lemma_strip_push(t.drop_first(), c);
        assert(t.push(c).drop_first() =~= t.drop_first().push(c));
        if t[0] == '_' {
        } else {
            if c == '_' {
                assert(strip_underscores(t) + Seq::<char>::empty() =~= strip_underscores(t));
            } else {
                assert(seq![t[0]] + (strip_underscores(t.drop_first()) + seq![c]) =~= (seq![t[0]]
                    + strip_underscores(t.drop_first())) + seq![c]);
            }
        }
    }
}

/// Index of the first `f` in `u`, or its length when there is none.
pub open spec fn first_f(u: Seq<char>) -> int
    decreases u.len(),
{
    if u.len() == 0 {
        0
    } else if u[0] == 'f' {
        0
    } else {
        1 + first_f(u.drop_first())
    }
}

proof fn lemma_first_f(u: Seq<char>, i: int)
    requires
        0 <= i <= u.len(),
        forall|j: int| 0 <= j < i ==> u[j] != 'f',
        i == u.len() || u[i] == 'f',
    ensures
        first_f(u) == i,
    decreases u.len(),
{
    if u.len() > 0 && i > 0 {
        lemma_first_f(u.drop_first(), i - 1);
    }
}

/// The portion of float literal text that carries its numeric value:
/// underscore separators removed, then truncated at the first suffix
/// letter `f`.
pub open spec fn float_digits_spec(t: Seq<char>) -> Seq<char> {
    let u = strip_underscores(t);
    u.subrange(0, first_f(u))
}

/// Normalizes float literal text for numeric parsing, following
/// [`float_digits_spec`].
#[verifier::loop_isolation(false)]
pub fn float_digits(s: &str) -> (r: String)
    ensures
        r@ == float_digits_spec(s@),
{
    let t = chars_vec(s);
    let mut out: Vec<char> = Vec::new();
    let mut i: usize = 0;
    while i < t.len()
        invariant
            i <= t@.len(),
            out@ == strip_underscores(t@.subrange(0, i as int)),
        decreases t@.len() - i,
    {
        let c = t[i];
        proof {
            lemma_strip_push(t@.subrange(0, i as int), c);
            assert(t@.subrange(0, i as int).push(c) =~= t@.subrange(0, (i + 1) as int));
            if c != '_' {
                assert(strip_underscores(t@.subrange(0, i as int)) + seq![c] =~= strip_underscores(
                    t@.subrange(0, i as int),
                ).push(c));
            } else {
                assert(strip_underscores(t@.subrange(0, i as int)) + Seq::<char>::empty()
                    =~= strip_underscores(t@.subrange(0, i as int)));
            }
        }
        if c != '_' {
            out.push(c);
        }
        i = i + 1;
    }
    proof {
        assert(t@.subrange(0, t@.len() as int) =~= t@);
    }
    let mut j: usize = 0;
    while j < out.len()
        invariant
            j <= out@.len(),
            forall|m: int| 0 <= m < j ==> out@[m] != 'f',
        decreases out@.len() - j,
    {
        if out[j] == 'f' {
            break ;
        }
        j = j + 1;
    }
    proof {
        lemma_first_f(out@, j as int);
    }
    let mut v = out;
    v.truncate(j);
    proof {
        assert(v@ =~= float_digits_spec(s@));
    }
    string_from_chars(&v)
}

} // verus!
