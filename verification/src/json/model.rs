//! The mathematical model of the decoder: what each parsing function
//! returns, stated as recursive functions over the byte sequence.
//!
//! Every function takes the immutable buffer and a byte offset and yields
//! either the decoded mathematical value together with the offset just past
//! what was consumed, or the error the decoder reports there. The executable
//! decoder in `parse` is proved to return exactly these results.

use vstd::prelude::*;

use crate::json::{Error, FloatLitView, NumberView, ValueView};

verus! {

// The byte values the grammar speaks of, by their ASCII names.
pub const SPACE: u8 = 0x20;
pub const TAB: u8 = 0x09;
pub const CR: u8 = 0x0d;
pub const LF: u8 = 0x0a;
pub const QUOTE: u8 = 0x22;
pub const BACKSLASH: u8 = 0x5c;
pub const SLASH: u8 = 0x2f;
pub const PLUS: u8 = 0x2b;
pub const COMMA: u8 = 0x2c;
pub const MINUS: u8 = 0x2d;
pub const DOT: u8 = 0x2e;
pub const DIGIT_0: u8 = 0x30;
pub const DIGIT_1: u8 = 0x31;
pub const DIGIT_9: u8 = 0x39;
pub const COLON: u8 = 0x3a;
pub const UPPER_A: u8 = 0x41;
pub const UPPER_E: u8 = 0x45;
pub const UPPER_F: u8 = 0x46;
pub const LBRACKET: u8 = 0x5b;
pub const RBRACKET: u8 = 0x5d;
pub const LBRACE: u8 = 0x7b;
pub const RBRACE: u8 = 0x7d;
pub const LOWER_A: u8 = 0x61;
pub const LOWER_B: u8 = 0x62;
pub const LOWER_E: u8 = 0x65;
pub const LOWER_F: u8 = 0x66;
pub const LOWER_L: u8 = 0x6c;
pub const LOWER_N: u8 = 0x6e;
pub const LOWER_R: u8 = 0x72;
pub const LOWER_S: u8 = 0x73;
pub const LOWER_T: u8 = 0x74;
pub const LOWER_U: u8 = 0x75;

/// How many nesting levels of arrays and objects the decoder accepts
/// before it gives up with `Syntax`, to keep the recursion depth bounded.
pub const DEFAULT_MAX_DEPTH: usize = 128;

/// The whitespace bytes the decoder skips: space, tab, CR, LF.
pub open spec fn is_ws(b: u8) -> bool {
    b == SPACE || b == TAB || b == CR || b == LF
}

/// The first index at or after `i` that holds a non-whitespace byte, or
/// the end of the buffer.
pub open spec fn ws_end(s: Seq<u8>, i: int) -> int
    decreases s.len() - i,
{
    if 0 <= i < s.len() && is_ws(s[i]) {
        ws_end(s, i + 1)
    } else {
        i
    }
}

/// Skipping whitespace never moves backwards, never goes past the end,
/// stops on a non-whitespace byte, and skips only whitespace.
pub proof fn lemma_ws_end(s: Seq<u8>, i: int)
    requires
        0 <= i <= s.len(),
    ensures
        i <= ws_end(s, i) <= s.len(),
        ws_end(s, i) < s.len() ==> !is_ws(s[ws_end(s, i)]),
        forall|k: int| i <= k < ws_end(s, i) ==> is_ws(s[k]),
    decreases s.len() - i,
{
    if i < s.len() && is_ws(s[i]) {
        lemma_ws_end(s, i + 1);
    }
}

/// An ASCII decimal digit.
pub open spec fn is_digit(b: u8) -> bool {
    DIGIT_0 <= b <= DIGIT_9
}

/// The first index at or after `i` that holds a non-digit byte, or the
/// end of the buffer.
pub open spec fn digits_end(s: Seq<u8>, i: int) -> int
    decreases s.len() - i,
{
    if 0 <= i < s.len() && is_digit(s[i]) {
        digits_end(s, i + 1)
    } else {
        i
    }
}

/// A digit run never moves backwards, never goes past the end, stops on a
/// non-digit, and covers only digits.
pub proof fn lemma_digits_end(s: Seq<u8>, i: int)
    requires
        0 <= i <= s.len(),
    ensures
        i <= digits_end(s, i) <= s.len(),
        digits_end(s, i) < s.len() ==> !is_digit(s[digits_end(s, i)]),
        forall|k: int| i <= k < digits_end(s, i) ==> is_digit(s[k]),
    decreases s.len() - i,
{
    if i < s.len() && is_digit(s[i]) {
        lemma_digits_end(s, i + 1);
    }
}

/// The digits in `[i, j)` read left to right into an `i64` accumulator,
/// each step `acc * 10 + digit` with 64-bit wraparound. The decoder makes
/// no overflow check, so a literal past the 64-bit range wraps.
pub open spec fn i64_digits(s: Seq<u8>, i: int, j: int) -> i64
    decreases j - i,
{
    if j <= i {
        0i64
    } else {
        vstd::wrapping::i64_specs::wrapping_add(
            vstd::wrapping::i64_specs::wrapping_mul(i64_digits(s, i, j - 1), 10),
            (s[j - 1] - DIGIT_0) as i64,
        )
    }
}

/// The digits in `[i, j)` read left to right into an `i32` accumulator
/// with 32-bit wraparound, as the exponent of a number is.
pub open spec fn i32_digits(s: Seq<u8>, i: int, j: int) -> i32
    decreases j - i,
{
    if j <= i {
        0i32
    } else {
        vstd::wrapping::i32_specs::wrapping_add(
            vstd::wrapping::i32_specs::wrapping_mul(i32_digits(s, i, j - 1), 10),
            (s[j - 1] - DIGIT_0) as i32,
        )
    }
}

/// The numeric values of the digit bytes in `[i, j)`.
pub open spec fn digit_values(s: Seq<u8>, i: int, j: int) -> Seq<u8> {
    s.subrange(i, j).map_values(|b: u8| (b - DIGIT_0) as u8)
}

/// `null` at offset `i`, where the dispatcher has already seen the `n`.
pub open spec fn spec_parse_null(s: Seq<u8>, i: int) -> Result<(ValueView, int), Error> {
    if i + 3 < s.len() {
        if s[i + 1] == LOWER_U && s[i + 2] == LOWER_L && s[i + 3] == LOWER_L {
            Ok((ValueView::Null, i + 4))
        } else {
            Err(Error::Syntax)
        }
    } else {
        Err(Error::Syntax)
    }
}

/// `true` at offset `i`, where the dispatcher has already seen the `t`.
pub open spec fn spec_parse_true(s: Seq<u8>, i: int) -> Result<(ValueView, int), Error> {
    if i + 3 < s.len() {
        if s[i + 1] == LOWER_R && s[i + 2] == LOWER_U && s[i + 3] == LOWER_E {
            Ok((ValueView::Boolean(true), i + 4))
        } else {
            Err(Error::Syntax)
        }
    } else {
        Err(Error::Syntax)
    }
}

/// `false` at offset `i`, where the dispatcher has already seen the `f`.
pub open spec fn spec_parse_false(s: Seq<u8>, i: int) -> Result<(ValueView, int), Error> {
    if i + 4 < s.len() {
        if s[i + 1] == LOWER_A && s[i + 2] == LOWER_L && s[i + 3] == LOWER_S && s[i + 4]
            == LOWER_E {
            Ok((ValueView::Boolean(false), i + 5))
        } else {
            Err(Error::Syntax)
        }
    } else {
        Err(Error::Syntax)
    }
}

/// The sign of the integer part of a number: -1 for a leading `-`, else 1,
/// applied with 64-bit wraparound as the decoder does.
pub open spec fn apply_i64_sign(negative: bool, magnitude: i64) -> i64 {
    vstd::wrapping::i64_specs::wrapping_mul(if negative { -1i64 } else { 1i64 }, magnitude)
}

/// The exponent of a number with its sign applied, with 32-bit wraparound.
pub open spec fn apply_i32_sign(negative: bool, magnitude: i32) -> i32 {
    vstd::wrapping::i32_specs::wrapping_mul(if negative { -1i32 } else { 1i32 }, magnitude)
}

/// The tail of a numeric literal after its integer part: an optional
/// fraction, then an optional exponent. `neg` and `left` are the sign and
/// the accumulated integer part; `i2` stands just past the integer digits.
pub open spec fn spec_number_tail(s: Seq<u8>, neg: bool, left: i64, i2: int) -> Result<
    (ValueView, int),
    Error,
> {
    if i2 >= s.len() || (s[i2] != DOT && s[i2] != LOWER_E && s[i2] != UPPER_E) {
        Ok((ValueView::Number(NumberView::Int(apply_i64_sign(neg, left))), i2))
    } else {
        let has_frac = s[i2] == DOT;
        let i3 = i2 + 1;
        if has_frac && (i3 >= s.len() || !is_digit(s[i3])) {
            Err(Error::Syntax)
        } else {
            let i4 = if has_frac {
                digits_end(s, i3)
            } else {
                i2
            };
            let frac = if has_frac {
                digit_values(s, i3, i4)
            } else {
                Seq::empty()
            };
            if i4 < s.len() && (s[i4] == LOWER_E || s[i4] == UPPER_E) {
                let i5 = i4 + 1;
                if i5 >= s.len() {
                    Err(Error::Syntax)
                } else {
                    let eneg = s[i5] == MINUS;
                    let i6 = if s[i5] == MINUS || s[i5] == PLUS {
                        i5 + 1
                    } else {
                        i5
                    };
                    if i6 >= s.len() || !is_digit(s[i6]) {
                        Err(Error::Syntax)
                    } else {
                        let i7 = digits_end(s, i6);
                        let exp = apply_i32_sign(eneg, i32_digits(s, i6, i7));
                        Ok(
                            (
                                ValueView::Number(
                                    NumberView::Float(
                                        FloatLitView {
                                            negative: neg,
                                            integer: left,
                                            fraction: frac,
                                            exponent: exp,
                                        },
                                    ),
                                ),
                                i7,
                            ),
                        )
                    }
                }
            } else {
                Ok(
                    (
                        ValueView::Number(
                            NumberView::Float(
                                FloatLitView {
                                    negative: neg,
                                    integer: left,
                                    fraction: frac,
                                    exponent: 0i32,
                                },
                            ),
                        ),
                        i4,
                    ),
                )
            }
        }
    }
}

/// A numeric literal at offset `i`: an optional sign, an integer part
/// (a single `0`, or a nonzero digit followed by any digits), then the
/// tail. An integer results exactly when the literal has neither `.` nor
/// `e`/`E` directly after the integer part.
pub open spec fn spec_parse_number(s: Seq<u8>, i: int) -> Result<(ValueView, int), Error> {
    if !(0 <= i < s.len()) {
        Err(Error::Syntax)
    } else {
        let neg = s[i] == MINUS;
        let i1 = if neg {
            i + 1
        } else {
            i
        };
        if i1 >= s.len() {
            Err(Error::Syntax)
        } else if s[i1] == DIGIT_0 {
            spec_number_tail(s, neg, 0i64, i1 + 1)
        } else if DIGIT_1 <= s[i1] <= DIGIT_9 {
            let i2 = digits_end(s, i1);
            spec_number_tail(s, neg, i64_digits(s, i1, i2), i2)
        } else {
            Err(Error::Syntax)
        }
    }
}

/// A UTF-8 continuation byte, `10xxxxxx`.
pub open spec fn is_continuation(b: u8) -> bool {
    0x80 <= b <= 0xbf
}

/// A Unicode scalar value: any code point outside the surrogate range
/// `D800..=DFFF` and at most `10FFFF`. Exactly these can be a `char`.
pub open spec fn is_unicode_scalar(u: u32) -> bool {
    u < 0xd800 || (0xdfff < u && u <= 0x10ffff)
}

/// The value of an ASCII hex digit, or `None` for any other byte.
pub open spec fn hex_nibble(b: u8) -> Option<u32> {
    if DIGIT_0 <= b <= DIGIT_9 {
        Some((b - DIGIT_0) as u32)
    } else if LOWER_A <= b <= LOWER_F {
        Some((b - LOWER_A + 10) as u32)
    } else if UPPER_A <= b <= UPPER_F {
        Some((b - UPPER_A + 10) as u32)
    } else {
        None
    }
}

/// An escape sequence whose backslash stands at `i`: one of the eight
/// defined escapes, or `\u` with four hex digits taken as one code point.
/// A `\u` code point in the surrogate range is `BadUtf8`; surrogate pairs
/// are not reassembled. Yields the decoded character and the offset past
/// the escape.
pub open spec fn spec_escape(s: Seq<u8>, i: int) -> Result<(char, int), Error> {
    if i + 1 >= s.len() {
        Err(Error::Syntax)
    } else {
        let e = s[i + 1];
        if e == QUOTE || e == BACKSLASH || e == SLASH {
            Ok(((e as u32) as char, i + 2))
        } else if e == LOWER_B {
            Ok(((8u32) as char, i + 2))
        } else if e == LOWER_F {
            Ok(((12u32) as char, i + 2))
        } else if e == LOWER_N {
            Ok(('\n', i + 2))
        } else if e == LOWER_R {
            Ok(('\r', i + 2))
        } else if e == LOWER_T {
            Ok(('\t', i + 2))
        } else if e == LOWER_U {
            if i + 5 >= s.len() {
                Err(Error::Syntax)
            } else {
                match (
                    hex_nibble(s[i + 2]),
                    hex_nibble(s[i + 3]),
                    hex_nibble(s[i + 4]),
                    hex_nibble(s[i + 5]),
                ) {
                    (Some(a), Some(b), Some(c), Some(d)) => {
                        let code = (a << 12) | (b << 8) | (c << 4) | d;
                        if is_unicode_scalar(code) {
                            Ok((code as char, i + 6))
                        } else {
                            Err(Error::BadUtf8)
                        }
                    },
                    _ => Err(Error::Syntax),
                }
            }
        } else {
            Err(Error::Syntax)
        }
    }
}

/// A raw UTF-8 sequence whose lead byte stands at `i`, decoded bit by bit:
/// 1-byte ASCII, or a 2-, 3- or 4-byte sequence whose continuation bytes
/// must each match `10xxxxxx` (else `BadUtf8`); a lead byte outside the
/// four classes, or a decoded value that is no Unicode scalar, is
/// `BadUtf8`; a sequence cut off by the end of the input is `Syntax`.
pub open spec fn spec_utf8_char(s: Seq<u8>, i: int) -> Result<(char, int), Error> {
    let lead = s[i];
    if lead <= 0x7f {
        Ok((((lead as u32) as char), i + 1))
    } else if 0xc0 <= lead <= 0xdf {
        if i + 1 >= s.len() {
            Err(Error::Syntax)
        } else if !is_continuation(s[i + 1]) {
            Err(Error::BadUtf8)
        } else {
            let u = (((lead & 0x1f) as u32) << 6) | ((s[i + 1] & 0x3f) as u32);
            if is_unicode_scalar(u) {
                Ok((u as char, i + 2))
            } else {
                Err(Error::BadUtf8)
            }
        }
    } else if 0xe0 <= lead <= 0xef {
        if i + 2 >= s.len() {
            Err(Error::Syntax)
        } else if !is_continuation(s[i + 1]) {
            Err(Error::BadUtf8)
        } else if !is_continuation(s[i + 2]) {
            Err(Error::BadUtf8)
        } else {
            let u = (((lead & 0x0f) as u32) << 12) | (((s[i + 1] & 0x3f) as u32) << 6) | ((s[i
                + 2] & 0x3f) as u32);
            if is_unicode_scalar(u) {
                Ok((u as char, i + 3))
            } else {
                Err(Error::BadUtf8)
            }
        }
    } else if 0xf0 <= lead <= 0xf7 {
        if i + 3 >= s.len() {
            Err(Error::Syntax)
        } else if !is_continuation(s[i + 1]) {
            Err(Error::BadUtf8)
        } else if !is_continuation(s[i + 2]) {
            Err(Error::BadUtf8)
        } else if !is_continuation(s[i + 3]) {
            Err(Error::BadUtf8)
        } else {
            let u = (((lead & 0x07) as u32) << 18) | (((s[i + 1] & 0x3f) as u32) << 12) | (((s[i
                + 2] & 0x3f) as u32) << 6) | ((s[i + 3] & 0x3f) as u32);
            if is_unicode_scalar(u) {
                Ok((u as char, i + 4))
            } else {
                Err(Error::BadUtf8)
            }
        }
    } else {
        Err(Error::BadUtf8)
    }
}

/// The rest of a string literal from `i`, an offset inside the quotes:
/// the remaining decoded characters and the offset past the closing
/// quote. Running out of input before the quote is `NotClosed`.
pub open spec fn spec_string_rest(s: Seq<u8>, i: int) -> Result<(Seq<char>, int), Error>
    decreases s.len() - i,
{
    if !(0 <= i) {
        Err(Error::Syntax)
    } else if i >= s.len() {
        Err(Error::NotClosed)
    } else if s[i] == QUOTE {
        Ok((Seq::empty(), i + 1))
    } else {
        let step = if s[i] == BACKSLASH {
            spec_escape(s, i)
        } else {
            spec_utf8_char(s, i)
        };
        match step {
            Err(e) => Err(e),
            Ok((c, j)) => {
                if !(i < j && j <= s.len()) {
                    // a decoded character always advances; never taken
                    Err(Error::Syntax)
                } else {
                    match spec_string_rest(s, j) {
                        Err(e) => Err(e),
                        Ok((cs, e)) => Ok((seq![c] + cs, e)),
                    }
                }
            },
        }
    }
}

/// A string literal whose opening quote stands at `i`: the decoded
/// characters and the offset past the closing quote.
pub open spec fn spec_parse_string(s: Seq<u8>, i: int) -> Result<(Seq<char>, int), Error> {
    spec_string_rest(s, i + 1)
}

/// The elements of an array from `i`, the offset of the first element:
/// the decoded values in order and the offset past the closing bracket.
pub open spec fn spec_parse_elements(s: Seq<u8>, i: int, depth: nat) -> Result<
    (Seq<ValueView>, int),
    Error,
>
    decreases s.len() - i, 2int,
{
    if depth == 0 {
        Err(Error::Syntax)
    } else {
        match spec_parse_value(s, i, (depth - 1) as nat) {
            Err(e) => Err(e),
            Ok((v, k)) => {
                if !(i < k && k <= s.len()) {
                    // a value always advances; never taken
                    Err(Error::Syntax)
                } else {
                    match spec_elements_sep(s, k, depth) {
                        Err(e) => Err(e),
                        Ok((vs, e)) => Ok((seq![v] + vs, e)),
                    }
                }
            },
        }
    }
}

/// What follows an array element at `k`: the closing bracket ends the
/// array, a comma starts the next element, anything else is `Syntax`,
/// and running out of input is `NotClosed`. Yields the values decoded
/// from `k` on and the offset past the closing bracket.
pub open spec fn spec_elements_sep(s: Seq<u8>, k: int, depth: nat) -> Result<
    (Seq<ValueView>, int),
    Error,
>
    decreases s.len() - k, 3int,
{
    if k >= s.len() {
        Err(Error::NotClosed)
    } else if s[k] == RBRACKET {
        Ok((Seq::empty(), k + 1))
    } else if s[k] == COMMA {
        spec_parse_elements(s, k + 1, depth)
    } else {
        Err(Error::Syntax)
    }
}

/// The members of an object from `i`, the offset of the first key's
/// quote: the key/value mapping, a later duplicate key overwriting an
/// earlier one, and the offset past the closing brace.
pub open spec fn spec_parse_members(s: Seq<u8>, i: int, depth: nat) -> Result<
    (Map<Seq<char>, ValueView>, int),
    Error,
>
    decreases s.len() - i, 2int,
{
    if depth == 0 {
        Err(Error::Syntax)
    } else {
        match spec_parse_string(s, i) {
            Err(e) => Err(e),
            Ok((key, k)) => {
                let j = ws_end(s, k);
                if !(i < j && j <= s.len()) {
                    // a key and its whitespace always advance; never taken
                    Err(Error::Syntax)
                } else if !(j + 1 < s.len()) || s[j] != COLON {
                    Err(Error::Syntax)
                } else {
                    match spec_parse_value(s, j + 1, (depth - 1) as nat) {
                        Err(e) => Err(e),
                        Ok((v, p)) => {
                            if !(j + 1 < p && p <= s.len()) {
                                // a value always advances; never taken
                                Err(Error::Syntax)
                            } else if p == s.len() {
                                Err(Error::NotClosed)
                            } else if s[p] == RBRACE {
                                Ok((Map::empty().insert(key, v), p + 1))
                            } else if s[p] == COMMA {
                                let q = ws_end(s, p + 1);
                                if !(p < q && q <= s.len()) {
                                    // whitespace never moves backwards; never taken
                                    Err(Error::Syntax)
                                } else if q == s.len() {
                                    Err(Error::NotClosed)
                                } else {
                                    match spec_parse_members(s, q, depth) {
                                        Err(e) => Err(e),
                                        Ok((m, e)) => Ok(
                                            (Map::empty().insert(key, v).union_prefer_right(m), e),
                                        ),
                                    }
                                }
                            } else {
                                Err(Error::Syntax)
                            }
                        },
                    }
                }
            },
        }
    }
}

/// An array whose opening bracket stands at `i`.
pub open spec fn spec_parse_array(s: Seq<u8>, i: int, depth: nat) -> Result<
    (ValueView, int),
    Error,
>
    decreases s.len() - i, 0int,
{
    let c0 = i + 1;
    if c0 >= s.len() {
        Err(Error::NotClosed)
    } else {
        let c1 = ws_end(s, c0);
        if !(i < c1 && c1 <= s.len()) {
            // whitespace never moves backwards; never taken
            Err(Error::Syntax)
        } else if c1 >= s.len() {
            Err(Error::NotClosed)
        } else if s[c1] == RBRACKET {
            Ok((ValueView::Array(Seq::empty()), c1 + 1))
        } else {
            match spec_parse_elements(s, c1, depth) {
                Err(e) => Err(e),
                Ok((vs, e)) => Ok((ValueView::Array(vs), e)),
            }
        }
    }
}

/// An object whose opening brace stands at `i`.
pub open spec fn spec_parse_object(s: Seq<u8>, i: int, depth: nat) -> Result<
    (ValueView, int),
    Error,
>
    decreases s.len() - i, 0int,
{
    let c1 = ws_end(s, i + 1);
    if !(i < c1 && c1 <= s.len()) {
        // whitespace never moves backwards; never taken
        Err(Error::Syntax)
    } else if c1 >= s.len() {
        Err(Error::NotClosed)
    } else if s[c1] == RBRACE {
        Ok((ValueView::Object(Map::empty()), c1 + 1))
    } else {
        match spec_parse_members(s, c1, depth) {
            Err(e) => Err(e),
            Ok((m, e)) => Ok((ValueView::Object(m), e)),
        }
    }
}

/// Any value at `i`: leading whitespace is skipped, the lead byte picks
/// the sub-parser, and trailing whitespace is consumed after success, so
/// the returned offset lets a caller parse the next value directly.
/// `depth` is the nesting allowance left; at zero the parse fails with
/// `Syntax`.
pub open spec fn spec_parse_value(s: Seq<u8>, i: int, depth: nat) -> Result<
    (ValueView, int),
    Error,
>
    decreases s.len() - i, 1int,
{
    if depth == 0 {
        Err(Error::Syntax)
    } else {
        let j = ws_end(s, i);
        if !(i <= j && j <= s.len()) {
            // whitespace never moves backwards; never taken
            Err(Error::Syntax)
        } else if j >= s.len() {
            Err(Error::Syntax)
        } else {
            let b = s[j];
            let r = if b == LOWER_N {
                spec_parse_null(s, j)
            } else if b == LOWER_T {
                spec_parse_true(s, j)
            } else if b == LOWER_F {
                spec_parse_false(s, j)
            } else if b == LBRACKET {
                spec_parse_array(s, j, depth)
            } else if b == LBRACE {
                spec_parse_object(s, j, depth)
            } else if b == QUOTE {
                match spec_parse_string(s, j) {
                    Err(e) => Err(e),
                    Ok((cs, k)) => Ok((ValueView::Str(cs), k)),
                }
            } else if b == MINUS || is_digit(b) {
                spec_parse_number(s, j)
            } else {
                Err(Error::Syntax)
            };
            match r {
                Err(e) => Err(e),
                Ok((v, k)) => Ok((v, ws_end(s, k))),
            }
        }
    }
}

} // verus!

// What follows shows that every successful parse consumes at least one
// byte and never leaves the buffer, so the offset-advance guards in the
// definitions above can never fire on a result the decoder returns.

verus! {

/// A decoded escape ends past its backslash and within the buffer.
pub proof fn lemma_escape_bounds(s: Seq<u8>, i: int)
    requires
        0 <= i,
    ensures
        spec_escape(s, i) matches Ok((c, j)) ==> i < j <= s.len(),
{
}

/// A decoded raw character ends past its lead byte and within the buffer.
pub proof fn lemma_utf8_char_bounds(s: Seq<u8>, i: int)
    requires
        0 <= i < s.len(),
    ensures
        spec_utf8_char(s, i) matches Ok((c, j)) ==> i < j <= s.len(),
{
}

/// A decoded string tail ends past its first byte and within the buffer.
pub proof fn lemma_string_rest_bounds(s: Seq<u8>, i: int)
    requires
        0 <= i,
    ensures
        spec_string_rest(s, i) matches Ok((cs, j)) ==> i < j <= s.len(),
    decreases s.len() - i,
{
    if i < s.len() && s[i] != QUOTE {
        let step = if s[i] == BACKSLASH {
            spec_escape(s, i)
        } else {
            spec_utf8_char(s, i)
        };
        lemma_escape_bounds(s, i);
        lemma_utf8_char_bounds(s, i);
        match step {
            Ok((c, j)) => {
                if i < j <= s.len() {
                    lemma_string_rest_bounds(s, j);
                }
            },
            Err(_) => {},
        }
    }
}

/// A decoded string ends past its opening quote and within the buffer.
pub proof fn lemma_parse_string_bounds(s: Seq<u8>, i: int)
    requires
        0 <= i,
    ensures
        spec_parse_string(s, i) matches Ok((cs, j)) ==> i + 1 < j <= s.len(),
{
    lemma_string_rest_bounds(s, i + 1);
}

/// The tail of a number never moves backwards and stays in the buffer.
pub proof fn lemma_number_tail_bounds(s: Seq<u8>, neg: bool, left: i64, i2: int)
    requires
        0 <= i2 <= s.len(),
    ensures
        spec_number_tail(s, neg, left, i2) matches Ok((v, k)) ==> i2 <= k <= s.len(),
{
    if i2 < s.len() && s[i2] == DOT {
        lemma_digits_end(s, i2 + 1);
    }
    if i2 < s.len() && (s[i2] == DOT || s[i2] == LOWER_E || s[i2] == UPPER_E) {
        let has_frac = s[i2] == DOT;
        let i4 = if has_frac {
            digits_end(s, i2 + 1)
        } else {
            i2
        };
        if i2 <= i4 <= s.len() && i4 < s.len() && (s[i4] == LOWER_E || s[i4] == UPPER_E) {
            let i5 = i4 + 1;
            if i5 < s.len() {
                let i6 = if s[i5] == MINUS || s[i5] == PLUS {
                    i5 + 1
                } else {
                    i5
                };
                if i6 <= s.len() {
                    lemma_digits_end(s, i6);
                }
            }
        }
    }
}

/// A decoded number ends past its first byte and within the buffer.
pub proof fn lemma_parse_number_bounds(s: Seq<u8>, i: int)
    ensures
        spec_parse_number(s, i) matches Ok((v, k)) ==> i < k <= s.len(),
{
    if 0 <= i < s.len() {
        let neg = s[i] == MINUS;
        let i1 = if neg {
            i + 1
        } else {
            i
        };
        if i1 < s.len() {
            if s[i1] == DIGIT_0 {
                lemma_number_tail_bounds(s, neg, 0i64, i1 + 1);
            } else if DIGIT_1 <= s[i1] <= DIGIT_9 {
                let i2 = digits_end(s, i1);
                lemma_digits_end(s, i1);
                assert(i2 == digits_end(s, i1 + 1));
                lemma_digits_end(s, i1 + 1);
                lemma_number_tail_bounds(s, neg, i64_digits(s, i1, i2), i2);
            }
        }
    }
}

/// A decoded value ends past its start and within the buffer.
pub proof fn lemma_parse_value_bounds(s: Seq<u8>, i: int, depth: nat)
    requires
        0 <= i,
    ensures
        spec_parse_value(s, i, depth) matches Ok((v, k)) ==> i < k <= s.len(),
    decreases s.len() - i, 1int,
{
    if depth > 0 {
        let j = ws_end(s, i);
        if i <= j < s.len() {
            let b = s[j];
            if b == LBRACKET {
                lemma_parse_array_bounds(s, j, depth);
            } else if b == LBRACE {
                lemma_parse_object_bounds(s, j, depth);
            } else if b == QUOTE {
                lemma_parse_string_bounds(s, j);
            } else if b == MINUS || is_digit(b) {
                lemma_parse_number_bounds(s, j);
            }
            let r = if b == LOWER_N {
                spec_parse_null(s, j)
            } else if b == LOWER_T {
                spec_parse_true(s, j)
            } else if b == LOWER_F {
                spec_parse_false(s, j)
            } else if b == LBRACKET {
                spec_parse_array(s, j, depth)
            } else if b == LBRACE {
                spec_parse_object(s, j, depth)
            } else if b == QUOTE {
                match spec_parse_string(s, j) {
                    Err(e) => Err(e),
                    Ok((cs, k)) => Ok((ValueView::Str(cs), k)),
                }
            } else if b == MINUS || is_digit(b) {
                spec_parse_number(s, j)
            } else {
                Err(Error::Syntax)
            };
            match r {
                Ok((v, k)) => {
                    if j < k <= s.len() {
                        lemma_ws_end(s, k);
                    }
                },
                Err(_) => {},
            }
        }
    }
}

/// Decoded array elements end past their start and within the buffer.
pub proof fn lemma_parse_elements_bounds(s: Seq<u8>, i: int, depth: nat)
    requires
        0 <= i,
    ensures
        spec_parse_elements(s, i, depth) matches Ok((vs, e)) ==> i < e <= s.len(),
    decreases s.len() - i, 2int,
{
    if depth > 0 {
        lemma_parse_value_bounds(s, i, (depth - 1) as nat);
        match spec_parse_value(s, i, (depth - 1) as nat) {
            Ok((v, k)) => {
                if i < k && k <= s.len() {
                    lemma_elements_sep_bounds(s, k, depth);
                }
            },
            Err(_) => {},
        }
    }
}

/// What follows an element ends past the separator and within the buffer.
pub proof fn lemma_elements_sep_bounds(s: Seq<u8>, k: int, depth: nat)
    requires
        0 <= k,
    ensures
        spec_elements_sep(s, k, depth) matches Ok((vs, e)) ==> k < e <= s.len(),
    decreases s.len() - k, 3int,
{
    if k < s.len() && s[k] == COMMA {
        lemma_parse_elements_bounds(s, k + 1, depth);
    }
}

/// Decoded object members end past their start and within the buffer.
pub proof fn lemma_parse_members_bounds(s: Seq<u8>, i: int, depth: nat)
    requires
        0 <= i,
    ensures
        spec_parse_members(s, i, depth) matches Ok((m, e)) ==> i < e <= s.len(),
    decreases s.len() - i, 2int,
{
    if depth > 0 {
        lemma_parse_string_bounds(s, i);
        match spec_parse_string(s, i) {
            Ok((key, k)) => {
                if i + 1 < k && k <= s.len() {
                    let j = ws_end(s, k);
                    lemma_ws_end(s, k);
                    if i < j && j + 1 < s.len() && s[j] == COLON {
                        lemma_parse_value_bounds(s, j + 1, (depth - 1) as nat);
                        match spec_parse_value(s, j + 1, (depth - 1) as nat) {
                            Ok((v, p)) => {
                                if j + 1 < p && p < s.len() && s[p] == COMMA {
                                    let q = ws_end(s, p + 1);
                                    lemma_ws_end(s, p + 1);
                                    if p < q && q < s.len() {
                                        lemma_parse_members_bounds(s, q, depth);
                                    }
                                }
                            },
                            Err(_) => {},
                        }
                    }
                }
            },
            Err(_) => {},
        }
    }
}

/// A decoded array ends past its opening bracket and within the buffer.
pub proof fn lemma_parse_array_bounds(s: Seq<u8>, i: int, depth: nat)
    requires
        0 <= i,
    ensures
        spec_parse_array(s, i, depth) matches Ok((v, e)) ==> i < e <= s.len(),
    decreases s.len() - i, 0int,
{
    if i + 1 < s.len() {
        lemma_ws_end(s, i + 1);
        let c1 = ws_end(s, i + 1);
        if i < c1 && c1 < s.len() && s[c1] != RBRACKET {
            lemma_parse_elements_bounds(s, c1, depth);
        }
    }
}

/// A decoded object ends past its opening brace and within the buffer.
pub proof fn lemma_parse_object_bounds(s: Seq<u8>, i: int, depth: nat)
    requires
        0 <= i,
    ensures
        spec_parse_object(s, i, depth) matches Ok((v, e)) ==> i < e <= s.len(),
    decreases s.len() - i, 0int,
{
    if i + 1 <= s.len() {
        lemma_ws_end(s, i + 1);
        let c1 = ws_end(s, i + 1);
        if i < c1 && c1 < s.len() && s[c1] != RBRACE {
            lemma_parse_members_bounds(s, c1, depth);
        }
    }
}

} // verus!
