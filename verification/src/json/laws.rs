//! Properties of the decoder, proved from the model: how literals behave
//! under whitespace, when a number is an integer, that escapes and UTF-8
//! sequences decode to the characters they encode, and what empty
//! containers yield.

use vstd::prelude::*;

use crate::json::{Error, NumberView, ValueView};
use super::model::{
    digits_end, is_continuation, is_digit, lemma_digits_end, lemma_parse_value_bounds,
    lemma_ws_end, spec_escape, spec_parse_array, spec_parse_members, spec_parse_number,
    spec_parse_object, spec_parse_string, spec_parse_value, spec_string_rest, spec_utf8_char,
    ws_end, BACKSLASH, COMMA, DIGIT_0, DIGIT_1, DIGIT_9, DOT, LBRACE, LBRACKET, LOWER_A,
    LOWER_B, LOWER_E, LOWER_F, LOWER_L, LOWER_N, LOWER_R, LOWER_S, LOWER_T, LOWER_U, MINUS,
    PLUS, QUOTE, RBRACE, RBRACKET, SLASH, UPPER_E,
};

verus! {

/// A `null` literal, under any leading whitespace, parses to `Null`, and
/// the returned offset is the literal's end plus the trailing whitespace
/// consumed.
pub proof fn lemma_null_literal(s: Seq<u8>, i: int, depth: nat)
    requires
        0 <= i <= s.len(),
        depth >= 1,
        ws_end(s, i) + 3 < s.len(),
        s[ws_end(s, i)] == LOWER_N,
        s[ws_end(s, i) + 1] == LOWER_U,
        s[ws_end(s, i) + 2] == LOWER_L,
        s[ws_end(s, i) + 3] == LOWER_L,
    ensures
        spec_parse_value(s, i, depth) == Ok::<(ValueView, int), Error>(
            (ValueView::Null, ws_end(s, ws_end(s, i) + 4)),
        ),
{
    lemma_ws_end(s, i);
}

/// A `true` literal, under any leading whitespace, parses to
/// `Boolean(true)`, and the returned offset is the literal's end plus the
/// trailing whitespace consumed.
pub proof fn lemma_true_literal(s: Seq<u8>, i: int, depth: nat)
    requires
        0 <= i <= s.len(),
        depth >= 1,
        ws_end(s, i) + 3 < s.len(),
        s[ws_end(s, i)] == LOWER_T,
        s[ws_end(s, i) + 1] == LOWER_R,
        s[ws_end(s, i) + 2] == LOWER_U,
        s[ws_end(s, i) + 3] == LOWER_E,
    ensures
        spec_parse_value(s, i, depth) == Ok::<(ValueView, int), Error>(
            (ValueView::Boolean(true), ws_end(s, ws_end(s, i) + 4)),
        ),
{
    lemma_ws_end(s, i);
}

/// A `false` literal, under any leading whitespace, parses to
/// `Boolean(false)`, and the returned offset is the literal's end plus
/// the trailing whitespace consumed.
pub proof fn lemma_false_literal(s: Seq<u8>, i: int, depth: nat)
    requires
        0 <= i <= s.len(),
        depth >= 1,
        ws_end(s, i) + 4 < s.len(),
        s[ws_end(s, i)] == LOWER_F,
        s[ws_end(s, i) + 1] == LOWER_A,
        s[ws_end(s, i) + 2] == LOWER_L,
        s[ws_end(s, i) + 3] == LOWER_S,
        s[ws_end(s, i) + 4] == LOWER_E,
    ensures
        spec_parse_value(s, i, depth) == Ok::<(ValueView, int), Error>(
            (ValueView::Boolean(false), ws_end(s, ws_end(s, i) + 5)),
        ),
{
    lemma_ws_end(s, i);
}

/// A numeric literal parses to `Int` exactly when the bytes it consumes
/// hold neither `.` nor `e` nor `E`; otherwise it parses to `Float`.
pub proof fn lemma_number_int_iff(s: Seq<u8>, i: int, v: ValueView, k: int)
    requires
        spec_parse_number(s, i) == Ok::<(ValueView, int), Error>((v, k)),
    ensures
        v matches ValueView::Number(_),
        (v matches ValueView::Number(NumberView::Int(_))) <==> (forall|m: int|
            i <= m < k ==> s[m] != DOT && s[m] != LOWER_E && s[m] != UPPER_E),
        (v matches ValueView::Number(NumberView::Float(_))) <==> (exists|m: int|
            i <= m < k && (s[m] == DOT || s[m] == LOWER_E || s[m] == UPPER_E)),
{
    let neg = s[i] == MINUS;
    let i1 = if neg {
        i + 1
    } else {
        i
    };
    let i2 = if s[i1] == DIGIT_0 {
        i1 + 1
    } else {
        digits_end(s, i1)
    };
    if s[i1] != DIGIT_0 {
        lemma_digits_end(s, i1);
        assert(i2 == digits_end(s, i1 + 1));
        lemma_digits_end(s, i1 + 1);
    }
    assert(forall|m: int| i1 <= m < i2 ==> is_digit(s[m]));
    if i2 >= s.len() || (s[i2] != DOT && s[i2] != LOWER_E && s[i2] != UPPER_E) {
        // the integer case: everything consumed is the sign and digits
        assert(k == i2);
        assert forall|m: int| i <= m < k implies s[m] != DOT && s[m] != LOWER_E && s[m]
            != UPPER_E by {
            if m >= i1 {
                assert(is_digit(s[m]));
            }
        }
    } else {
        // the float case: the byte at the end of the integer part is a
        // `.` or an exponent mark, and it lies inside the consumed range
        let has_frac = s[i2] == DOT;
        let i3 = i2 + 1;
        if !(has_frac && (i3 >= s.len() || !is_digit(s[i3]))) {
            let i4 = if has_frac {
                digits_end(s, i3)
            } else {
                i2
            };
            if has_frac {
                lemma_digits_end(s, i3);
            }
            if i4 < s.len() && (s[i4] == LOWER_E || s[i4] == UPPER_E) {
                let i5 = i4 + 1;
                if i5 < s.len() {
                    let i6 = if s[i5] == MINUS || s[i5] == PLUS {
                        i5 + 1
                    } else {
                        i5
                    };
                    if !(i6 >= s.len() || !is_digit(s[i6])) {
                        lemma_digits_end(s, i6);
                        assert(i <= i4 < k && (s[i4] == DOT || s[i4] == LOWER_E || s[i4]
                            == UPPER_E));
                    }
                }
            } else {
                assert(i <= i2 < k && s[i2] == DOT);
            }
        }
    }
}

/// Each of the eight defined escapes decodes to its character.
pub proof fn lemma_escape_decodes(s: Seq<u8>, i: int)
    requires
        0 <= i,
        i + 1 < s.len(),
    ensures
        s[i + 1] == QUOTE ==> spec_escape(s, i) == Ok::<(char, int), Error>(('"', i + 2)),
        s[i + 1] == BACKSLASH ==> spec_escape(s, i) == Ok::<(char, int), Error>(('\\', i + 2)),
        s[i + 1] == SLASH ==> spec_escape(s, i) == Ok::<(char, int), Error>(('/', i + 2)),
        s[i + 1] == LOWER_B ==> spec_escape(s, i) == Ok::<(char, int), Error>(
            ((8u32) as char, i + 2),
        ),
        s[i + 1] == LOWER_F ==> spec_escape(s, i) == Ok::<(char, int), Error>(
            ((12u32) as char, i + 2),
        ),
        s[i + 1] == LOWER_N ==> spec_escape(s, i) == Ok::<(char, int), Error>(('\n', i + 2)),
        s[i + 1] == LOWER_R ==> spec_escape(s, i) == Ok::<(char, int), Error>(('\r', i + 2)),
        s[i + 1] == LOWER_T ==> spec_escape(s, i) == Ok::<(char, int), Error>(('\t', i + 2)),
{
}

/// A character with a one-byte encoding decodes from that byte.
pub proof fn lemma_utf8_one_byte_roundtrip(s: Seq<u8>, i: int, c: char)
    requires
        0 <= i < s.len(),
        c as u32 <= 0x7f,
        s[i] == c as u32 as u8,
    ensures
        spec_utf8_char(s, i) == Ok::<(char, int), Error>((c, i + 1)),
{
    let u = c as u32;
    assert(((u as u8) as u32) == u) by (bit_vector)
        requires
            u <= 0x7f,
    ;
    vstd::utf8::char_u32_cast(c, u);
}

/// A character with a two-byte encoding decodes from its lead and
/// continuation bytes.
pub proof fn lemma_utf8_two_byte_roundtrip(s: Seq<u8>, i: int, c: char)
    requires
        0 <= i,
        i + 1 < s.len(),
        0x80 <= c as u32 <= 0x7ff,
        s[i] == (0xc0u32 | ((c as u32) >> 6)) as u8,
        s[i + 1] == (0x80u32 | ((c as u32) & 0x3f)) as u8,
    ensures
        spec_utf8_char(s, i) == Ok::<(char, int), Error>((c, i + 2)),
{
    let u = c as u32;
    let b1 = s[i];
    let b2 = s[i + 1];
    assert(0xc0 <= b1 <= 0xdf && 0x80 <= b2 <= 0xbf && ((((b1 & 0x1f) as u32) << 6) | ((b2
        & 0x3f) as u32)) == u) by (bit_vector)
        requires
            b1 == (0xc0u32 | (u >> 6)) as u8,
            b2 == (0x80u32 | (u & 0x3f)) as u8,
            0x80 <= u <= 0x7ff,
    ;
    vstd::utf8::char_u32_cast(c, u);
}

/// A character with a three-byte encoding decodes from its lead and
/// continuation bytes.
pub proof fn lemma_utf8_three_byte_roundtrip(s: Seq<u8>, i: int, c: char)
    requires
        0 <= i,
        i + 2 < s.len(),
        0x800 <= c as u32 <= 0xffff,
        s[i] == (0xe0u32 | ((c as u32) >> 12)) as u8,
        s[i + 1] == (0x80u32 | (((c as u32) >> 6) & 0x3f)) as u8,
        s[i + 2] == (0x80u32 | ((c as u32) & 0x3f)) as u8,
    ensures
        spec_utf8_char(s, i) == Ok::<(char, int), Error>((c, i + 3)),
{
    let u = c as u32;
    let b1 = s[i];
    let b2 = s[i + 1];
    let b3 = s[i + 2];
    vstd::utf8::char_is_scalar(c);
    assert(0xe0 <= b1 <= 0xef && 0x80 <= b2 <= 0xbf && 0x80 <= b3 <= 0xbf && ((((b1
        & 0x0f) as u32) << 12) | (((b2 & 0x3f) as u32) << 6) | ((b3 & 0x3f) as u32)) == u)
        by (bit_vector)
        requires
            b1 == (0xe0u32 | (u >> 12)) as u8,
            b2 == (0x80u32 | ((u >> 6) & 0x3f)) as u8,
            b3 == (0x80u32 | (u & 0x3f)) as u8,
            0x800 <= u <= 0xffff,
    ;
    vstd::utf8::char_u32_cast(c, u);
}

/// A character with a four-byte encoding decodes from its lead and
/// continuation bytes.
pub proof fn lemma_utf8_four_byte_roundtrip(s: Seq<u8>, i: int, c: char)
    requires
        0 <= i,
        i + 3 < s.len(),
        0x10000 <= c as u32,
        s[i] == (0xf0u32 | ((c as u32) >> 18)) as u8,
        s[i + 1] == (0x80u32 | (((c as u32) >> 12) & 0x3f)) as u8,
        s[i + 2] == (0x80u32 | (((c as u32) >> 6) & 0x3f)) as u8,
        s[i + 3] == (0x80u32 | ((c as u32) & 0x3f)) as u8,
    ensures
        spec_utf8_char(s, i) == Ok::<(char, int), Error>((c, i + 4)),
{
    let u = c as u32;
    let b1 = s[i];
    let b2 = s[i + 1];
    let b3 = s[i + 2];
    let b4 = s[i + 3];
    vstd::utf8::char_is_scalar(c);
    assert(0xf0 <= b1 <= 0xf7 && 0x80 <= b2 <= 0xbf && 0x80 <= b3 <= 0xbf && 0x80 <= b4 <= 0xbf
        && ((((b1 & 0x07) as u32) << 18) | (((b2 & 0x3f) as u32) << 12) | (((b3
        & 0x3f) as u32) << 6) | ((b4 & 0x3f) as u32)) == u) by (bit_vector)
        requires
            b1 == (0xf0u32 | (u >> 18)) as u8,
            b2 == (0x80u32 | ((u >> 12) & 0x3f)) as u8,
            b3 == (0x80u32 | ((u >> 6) & 0x3f)) as u8,
            b4 == (0x80u32 | (u & 0x3f)) as u8,
            0x10000 <= u <= 0x10ffff,
    ;
    vstd::utf8::char_u32_cast(c, u);
}

/// Inside a string, a multi-byte sequence whose bytes are all present
/// but where some continuation byte is not of the form `10xxxxxx` makes
/// the decode fail with `BadUtf8`, never `Syntax`; so does a lead byte
/// outside all four classes.
pub proof fn lemma_bad_continuation(s: Seq<u8>, i: int)
    requires
        0 <= i < s.len(),
    ensures
        0xc0 <= s[i] <= 0xdf && i + 1 < s.len() && !is_continuation(s[i + 1])
            ==> spec_utf8_char(s, i) == Err::<(char, int), Error>(Error::BadUtf8)
            && spec_string_rest(s, i) == Err::<(Seq<char>, int), Error>(Error::BadUtf8),
        0xe0 <= s[i] <= 0xef && i + 2 < s.len() && (!is_continuation(s[i + 1])
            || !is_continuation(s[i + 2])) ==> spec_utf8_char(s, i) == Err::<
            (char, int),
            Error,
        >(Error::BadUtf8) && spec_string_rest(s, i) == Err::<(Seq<char>, int), Error>(
            Error::BadUtf8,
        ),
        0xf0 <= s[i] <= 0xf7 && i + 3 < s.len() && (!is_continuation(s[i + 1])
            || !is_continuation(s[i + 2]) || !is_continuation(s[i + 3])) ==> spec_utf8_char(
            s,
            i,
        ) == Err::<(char, int), Error>(Error::BadUtf8) && spec_string_rest(s, i) == Err::<
            (Seq<char>, int),
            Error,
        >(Error::BadUtf8),
        0x80 <= s[i] <= 0xbf || s[i] > 0xf7 ==> spec_utf8_char(s, i) == Err::<
            (char, int),
            Error,
        >(Error::BadUtf8) && spec_string_rest(s, i) == Err::<(Seq<char>, int), Error>(
            Error::BadUtf8,
        ),
{
}

/// An empty array, with or without interior whitespace, parses to the
/// empty array, consuming up to its closing bracket.
pub proof fn lemma_empty_array(s: Seq<u8>, i: int, depth: nat)
    requires
        0 <= i < s.len(),
        s[i] == LBRACKET,
        ws_end(s, i + 1) < s.len(),
        s[ws_end(s, i + 1)] == RBRACKET,
    ensures
        spec_parse_array(s, i, depth) == Ok::<(ValueView, int), Error>(
            (ValueView::Array(Seq::empty()), ws_end(s, i + 1) + 1),
        ),
{
    lemma_ws_end(s, i + 1);
}

/// An empty object, with or without interior whitespace, parses to the
/// empty mapping, consuming up to its closing brace.
pub proof fn lemma_empty_object(s: Seq<u8>, i: int, depth: nat)
    requires
        0 <= i < s.len(),
        s[i] == LBRACE,
        ws_end(s, i + 1) < s.len(),
        s[ws_end(s, i + 1)] == RBRACE,
    ensures
        spec_parse_object(s, i, depth) == Ok::<(ValueView, int), Error>(
            (ValueView::Object(Map::empty()), ws_end(s, i + 1) + 1),
        ),
{
    lemma_ws_end(s, i + 1);
}

} // verus!

verus! {

/// A parsable value wrapped in brackets parses to the one-element array
/// of exactly that value: nesting keeps the tree's structure.
pub proof fn lemma_singleton_array(s: Seq<u8>, i: int, depth: nat, v: ValueView, k: int)
    requires
        0 <= i < s.len(),
        s[i] == LBRACKET,
        depth >= 1,
        ws_end(s, i + 1) < s.len(),
        s[ws_end(s, i + 1)] != RBRACKET,
        spec_parse_value(s, ws_end(s, i + 1), (depth - 1) as nat) == Ok::<
            (ValueView, int),
            Error,
        >((v, k)),
        k < s.len(),
        s[k] == RBRACKET,
    ensures
        spec_parse_array(s, i, depth) == Ok::<(ValueView, int), Error>(
            (ValueView::Array(seq![v]), k + 1),
        ),
{
    lemma_ws_end(s, i + 1);
    lemma_parse_value_bounds(s, ws_end(s, i + 1), (depth - 1) as nat);
}

/// Object members are last-write-wins: when the member list opens with a
/// binding of some key and goes on after a comma, a later binding of the
/// same key decides that key's value; only a key that never comes back
/// keeps the opening binding's value.
pub proof fn lemma_members_last_write_wins(s: Seq<u8>, i: int, depth: nat)
    requires
        depth >= 1,
        spec_parse_members(s, i, depth) is Ok,
        spec_parse_string(s, i) is Ok,
    ensures
        ({
            let (key, k) = spec_parse_string(s, i)->Ok_0;
            let j = ws_end(s, k);
            let m = spec_parse_members(s, i, depth)->Ok_0.0;
            spec_parse_value(s, j + 1, (depth - 1) as nat) matches Ok((v, p)) ==> (p < s.len()
                && s[p] == COMMA && spec_parse_members(s, ws_end(s, p + 1), depth) is Ok ==> {
                let m2 = spec_parse_members(s, ws_end(s, p + 1), depth)->Ok_0.0;
                &&& (m2.dom().contains(key) ==> m[key] == m2[key])
                &&& (!m2.dom().contains(key) ==> m.dom().contains(key) && m[key] == v)
            })
        }),
{
}

} // verus!
