//! The executable decoder, verified against the model in `model`.

use vstd::prelude::*;

use crate::json::{views_of, Error, FloatLit, IntOrFloat, Object, Value, ValueView};
use super::model::{
    ws_end, lemma_ws_end, is_digit, digits_end, i64_digits, i32_digits, digit_values, hex_nibble,
    is_unicode_scalar, spec_parse_null, spec_parse_true, spec_parse_false, spec_parse_number,
    spec_number_tail, spec_escape, spec_utf8_char, spec_string_rest, spec_parse_string,
    spec_parse_elements, spec_elements_sep, spec_parse_members, spec_parse_array,
    spec_parse_object, spec_parse_value, lemma_parse_string_bounds, lemma_parse_number_bounds,
    lemma_parse_value_bounds, lemma_parse_array_bounds, lemma_parse_object_bounds, SPACE, TAB,
    CR, LF, QUOTE, BACKSLASH, SLASH, PLUS, COMMA, MINUS, DOT, DIGIT_0, DIGIT_1, DIGIT_9, COLON,
    UPPER_A, UPPER_E, UPPER_F, LBRACKET, RBRACKET, LBRACE, RBRACE, LOWER_A, LOWER_B, LOWER_E,
    LOWER_F, LOWER_L, LOWER_N, LOWER_R, LOWER_S, LOWER_T, LOWER_U, DEFAULT_MAX_DEPTH,
};

verus! {

/// Whether `start_index` is a valid index into the buffer.
pub fn check_inbounds(string: &[u8], start_index: usize) -> (r: bool)
    ensures
        r == (start_index < string@.len()),
{
    start_index < string.len()
}

/// Advances past space, tab, CR and LF; stops at the first other byte or
/// at the end of the buffer. Never errors.
pub fn skip_whitespace(string: &[u8], start_index: usize) -> (r: usize)
    ensures
        r == ws_end(string@, start_index as int),
{
    let mut current_index = start_index;
    loop
        invariant
            start_index <= current_index,
            current_index <= string@.len() || current_index == start_index,
            ws_end(string@, start_index as int) == ws_end(string@, current_index as int),
        decreases string@.len() - current_index,
    {
        if !check_inbounds(string, current_index) {
            return current_index;
        }
        let b = string[current_index];
        if b == SPACE || b == TAB || b == CR || b == LF {
            current_index += 1;
        } else {
            return current_index;
        }
    }
}

/// The mathematical reading of a decoder result: the value's view and
/// the offset as an integer.
pub open spec fn result_view(r: Result<(Value, usize), Error>) -> Result<
    (ValueView, int),
    Error,
> {
    match r {
        Ok((v, k)) => Ok((v@, k as int)),
        Err(e) => Err(e),
    }
}

/// `null` where the dispatcher has already seen the `n` at `start_index`.
fn parse_null(string: &[u8], start_index: usize) -> (r: Result<(Value, usize), Error>)
    requires
        start_index < string@.len(),
    ensures
        result_view(r) == spec_parse_null(string@, start_index as int),
{
    if string.len() - start_index > 3 {
        if string[start_index + 1] == LOWER_U && string[start_index + 2] == LOWER_L
            && string[start_index + 3] == LOWER_L {
            Ok((Value::Null, start_index + 4))
        } else {
            Err(Error::Syntax)
        }
    } else {
        Err(Error::Syntax)
    }
}

/// `true` where the dispatcher has already seen the `t` at `start_index`.
fn parse_true(string: &[u8], start_index: usize) -> (r: Result<(Value, usize), Error>)
    requires
        start_index < string@.len(),
    ensures
        result_view(r) == spec_parse_true(string@, start_index as int),
{
    if string.len() - start_index > 3 {
        if string[start_index + 1] == LOWER_R && string[start_index + 2] == LOWER_U
            && string[start_index + 3] == LOWER_E {
            Ok((Value::Boolean(true), start_index + 4))
        } else {
            Err(Error::Syntax)
        }
    } else {
        Err(Error::Syntax)
    }
}

/// `false` where the dispatcher has already seen the `f` at `start_index`.
fn parse_false(string: &[u8], start_index: usize) -> (r: Result<(Value, usize), Error>)
    requires
        start_index < string@.len(),
    ensures
        result_view(r) == spec_parse_false(string@, start_index as int),
{
    if string.len() - start_index > 4 {
        if string[start_index + 1] == LOWER_A && string[start_index + 2] == LOWER_L
            && string[start_index + 3] == LOWER_S && string[start_index + 4] == LOWER_E {
            Ok((Value::Boolean(false), start_index + 5))
        } else {
            Err(Error::Syntax)
        }
    } else {
        Err(Error::Syntax)
    }
}

/// A numeric literal at `start_index`, which holds its sign or first
/// digit.
#[verifier::rlimit(100)]
fn parse_number(string: &[u8], start_index: usize) -> (r: Result<(Value, usize), Error>)
    requires
        start_index < string@.len(),
    ensures
        result_view(r) == spec_parse_number(string@, start_index as int),
{
    let mut current_index = start_index;
    let negative = string[current_index] == MINUS;
    if negative {
        current_index += 1;
        if !check_inbounds(string, current_index) {
            return Err(Error::Syntax);
        }
    }
    let ghost i1 = current_index as int;

    let left_of_decimal: i64;
    if string[current_index] == DIGIT_0 {
        current_index += 1;
        left_of_decimal = 0;
    } else if DIGIT_1 <= string[current_index] && string[current_index] <= DIGIT_9 {
        let mut number = (string[current_index] - DIGIT_0) as i64;
        current_index += 1;
        proof {
            assert(i64_digits(string@, i1, i1) == 0i64);
            assert(number == i64_digits(string@, i1, i1 + 1));
        }
        while current_index < string.len() && DIGIT_0 <= string[current_index]
            && string[current_index] <= DIGIT_9
            invariant
                0 <= i1 < current_index as int <= string@.len(),
                number == i64_digits(string@, i1, current_index as int),
                digits_end(string@, i1) == digits_end(string@, current_index as int),
            decreases string@.len() - current_index,
        {
            number = number.wrapping_mul(10).wrapping_add(
                (string[current_index] - DIGIT_0) as i64,
            );
            current_index += 1;
        }
        assert(current_index as int == digits_end(string@, i1));
        left_of_decimal = number;
    } else {
        return Err(Error::Syntax);
    }
    let ghost i2 = current_index as int;
    proof {
        assert(spec_parse_number(string@, start_index as int) == spec_number_tail(
            string@,
            negative,
            left_of_decimal,
            i2,
        ));
    }

    if !check_inbounds(string, current_index) || (string[current_index] != DOT
        && string[current_index] != LOWER_E && string[current_index] != UPPER_E) {
        let signi: i64 = if negative {
            -1
        } else {
            1
        };
        return Ok(
            (
                Value::Number(IntOrFloat::Int(signi.wrapping_mul(left_of_decimal))),
                current_index,
            ),
        );
    }

    let mut fraction: Vec<u8> = Vec::new();
    let has_frac = string[current_index] == DOT;
    if has_frac {
        current_index += 1;
        if !check_inbounds(string, current_index) {
            return Err(Error::Syntax);
        }
        if !(DIGIT_0 <= string[current_index] && string[current_index] <= DIGIT_9) {
            return Err(Error::Syntax);
        }
        let ghost i3 = current_index as int;
        while current_index < string.len() && DIGIT_0 <= string[current_index]
            && string[current_index] <= DIGIT_9
            invariant
                0 <= i3 <= current_index as int <= string@.len(),
                fraction@ == digit_values(string@, i3, current_index as int),
                digits_end(string@, i3) == digits_end(string@, current_index as int),
            decreases string@.len() - current_index,
        {
            proof {
                assert(digit_values(string@, i3, current_index + 1) =~= digit_values(
                    string@,
                    i3,
                    current_index as int,
                ).push((string@[current_index as int] - DIGIT_0) as u8));
            }
            fraction.push(string[current_index] - DIGIT_0);
            current_index += 1;
        }
        assert(current_index as int == digits_end(string@, i3));
    }
    let ghost i4 = current_index as int;

    if check_inbounds(string, current_index) && (string[current_index] == LOWER_E
        || string[current_index] == UPPER_E) {
        current_index += 1;
        if !check_inbounds(string, current_index) {
            return Err(Error::Syntax);
        }
        let exp_negative = string[current_index] == MINUS;
        if string[current_index] == MINUS || string[current_index] == PLUS {
            current_index += 1;
            if !check_inbounds(string, current_index) {
                return Err(Error::Syntax);
            }
        }
        if !(DIGIT_0 <= string[current_index] && string[current_index] <= DIGIT_9) {
            return Err(Error::Syntax);
        }
        let ghost i6 = current_index as int;
        let mut exponent_amount: i32 = 0;
        while current_index < string.len() && DIGIT_0 <= string[current_index]
            && string[current_index] <= DIGIT_9
            invariant
                0 <= i6 <= current_index as int <= string@.len(),
                exponent_amount == i32_digits(string@, i6, current_index as int),
                digits_end(string@, i6) == digits_end(string@, current_index as int),
            decreases string@.len() - current_index,
        {
            exponent_amount = exponent_amount.wrapping_mul(10).wrapping_add(
                (string[current_index] - DIGIT_0) as i32,
            );
            current_index += 1;
        }
        assert(current_index as int == digits_end(string@, i6));
        let signe: i32 = if exp_negative {
            -1
        } else {
            1
        };
        let exponent = signe.wrapping_mul(exponent_amount);
        Ok(
            (
                Value::Number(
                    IntOrFloat::Float(
                        FloatLit { negative, integer: left_of_decimal, fraction, exponent },
                    ),
                ),
                current_index,
            ),
        )
    } else {
        Ok(
            (
                Value::Number(
                    IntOrFloat::Float(
                        FloatLit { negative, integer: left_of_decimal, fraction, exponent: 0 },
                    ),
                ),
                current_index,
            ),
        )
    }
}

} // verus!

verus! {

/// Relies on `String::push`: appends the character at the end of the
/// string.
#[verifier::external_body]
pub(crate) fn push_char(s: &mut String, c: char)
    ensures
        final(s)@ == old(s)@.push(c),
{
    s.push(c);
}

/// Relies on `char::from_u32`: `Some` exactly when the argument is a
/// Unicode scalar value, and then the character's code point is the
/// argument.
#[verifier::external_body]
pub(crate) fn char_from_u32(u: u32) -> (r: Option<char>)
    ensures
        r matches Some(c) ==> c as u32 == u,
        r is Some <==> is_unicode_scalar(u),
{
    char::from_u32(u)
}

/// The value of an ASCII hex digit, or `None` for any other byte.
fn hex_to_nibble(value: u8) -> (r: Option<u32>)
    ensures
        r == hex_nibble(value),
{
    if DIGIT_0 <= value && value <= DIGIT_9 {
        Some((value - DIGIT_0) as u32)
    } else if LOWER_A <= value && value <= LOWER_F {
        Some((value - LOWER_A + 10) as u32)
    } else if UPPER_A <= value && value <= UPPER_F {
        Some((value - UPPER_A + 10) as u32)
    } else {
        None
    }
}

/// The reading of a string-parser result as a decoder result.
pub open spec fn string_result_to_value(r: Result<(Seq<char>, int), Error>) -> Result<
    (ValueView, int),
    Error,
> {
    match r {
        Ok((cs, j)) => Ok((ValueView::Str(cs), j)),
        Err(e) => Err(e),
    }
}

/// A string literal whose opening quote stands at `start_index`: decodes
/// escapes and raw UTF-8 byte sequences until the closing quote.
#[verifier::rlimit(100)]
fn parse_string(string: &[u8], start_index: usize) -> (r: Result<(Value, usize), Error>)
    requires
        start_index < string@.len(),
    ensures
        result_view(r) == string_result_to_value(
            spec_parse_string(string@, start_index as int),
        ),
{
    proof {
        vstd::slice::axiom_spec_len(string);
    }
    let mut current_index = start_index + 1;
    let mut result = String::new();
    proof {
        match spec_string_rest(string@, start_index as int + 1) {
            Ok((cs, e)) => {
                assert(Seq::<char>::empty() + cs =~= cs);
            },
            Err(_) => {},
        }
    }

    loop
        invariant
            start_index as int + 1 <= current_index as int <= string@.len(),
            spec_string_rest(string@, start_index as int + 1) == (match spec_string_rest(
                string@,
                current_index as int,
            ) {
                Ok((cs, e)) => Ok::<(Seq<char>, int), Error>((result@ + cs, e)),
                Err(e) => Err(e),
            }),
        decreases string@.len() - current_index,
    {
        if !check_inbounds(string, current_index) {
            return Err(Error::NotClosed);
        }
        let b = string[current_index];
        if b == QUOTE {
            proof {
                assert(result@ + Seq::<char>::empty() =~= result@);
            }
            return Ok((Value::String(result), current_index + 1));
        }
        let ch: char;
        let next: usize;
        if b == BACKSLASH {
            if string.len() - current_index <= 1 {
                return Err(Error::Syntax);
            }
            let e = string[current_index + 1];
            if e == QUOTE || e == BACKSLASH || e == SLASH {
                ch = e as char;
                next = current_index + 2;
            } else if e == LOWER_B {
                ch = 8u8 as char;
                next = current_index + 2;
            } else if e == LOWER_F {
                ch = 12u8 as char;
                next = current_index + 2;
            } else if e == LOWER_N {
                ch = '\n';
                next = current_index + 2;
            } else if e == LOWER_R {
                ch = '\r';
                next = current_index + 2;
            } else if e == LOWER_T {
                ch = '\t';
                next = current_index + 2;
            } else if e == LOWER_U {
                if string.len() - current_index <= 5 {
                    return Err(Error::Syntax);
                }
                let code: u32 = match (
                    hex_to_nibble(string[current_index + 2]),
                    hex_to_nibble(string[current_index + 3]),
                    hex_to_nibble(string[current_index + 4]),
                    hex_to_nibble(string[current_index + 5]),
                ) {
                    (Some(a), Some(b2), Some(c), Some(d)) => (a << 12u32) | (b2 << 8u32) | (c
                        << 4u32) | d,
                    _ => {
                        return Err(Error::Syntax);
                    },
                };
                match char_from_u32(code) {
                    Some(c2) => {
                        proof {
                            vstd::utf8::char_u32_cast(c2, code);
                        }
                        ch = c2;
                        next = current_index + 6;
                    },
                    None => {
                        return Err(Error::BadUtf8);
                    },
                }
            } else {
                return Err(Error::Syntax);
            }
            proof {
                assert(spec_escape(string@, current_index as int) == Ok::<(char, int), Error>(
                    (ch, next as int),
                ));
            }
        } else {
            let unicode: u32;
            if b <= 0x7f {
                unicode = b as u32;
                next = current_index + 1;
            } else if 0xc0 <= b && b <= 0xdf {
                if string.len() - current_index <= 1 {
                    return Err(Error::Syntax);
                }
                let second = string[current_index + 1];
                if !(0x80 <= second && second <= 0xbf) {
                    return Err(Error::BadUtf8);
                }
                unicode = (((b & 0x1f) as u32) << 6u32) | ((second & 0x3f) as u32);
                next = current_index + 2;
            } else if 0xe0 <= b && b <= 0xef {
                if string.len() - current_index <= 2 {
                    return Err(Error::Syntax);
                }
                let second = string[current_index + 1];
                if !(0x80 <= second && second <= 0xbf) {
                    return Err(Error::BadUtf8);
                }
                let third = string[current_index + 2];
                if !(0x80 <= third && third <= 0xbf) {
                    return Err(Error::BadUtf8);
                }
                unicode = (((b & 0x0f) as u32) << 12u32) | (((second & 0x3f) as u32) << 6u32) | ((
                third & 0x3f) as u32);
                next = current_index + 3;
            } else if 0xf0 <= b && b <= 0xf7 {
                if string.len() - current_index <= 3 {
                    return Err(Error::Syntax);
                }
                let second = string[current_index + 1];
                if !(0x80 <= second && second <= 0xbf) {
                    return Err(Error::BadUtf8);
                }
                let third = string[current_index + 2];
                if !(0x80 <= third && third <= 0xbf) {
                    return Err(Error::BadUtf8);
                }
                let fourth = string[current_index + 3];
                if !(0x80 <= fourth && fourth <= 0xbf) {
                    return Err(Error::BadUtf8);
                }
                unicode = (((b & 0x07) as u32) << 18u32) | (((second & 0x3f) as u32) << 12u32)
                    | (((third & 0x3f) as u32) << 6u32) | ((fourth & 0x3f) as u32);
                next = current_index + 4;
            } else {
                return Err(Error::BadUtf8);
            }
            match char_from_u32(unicode) {
                Some(c2) => {
                    proof {
                        vstd::utf8::char_u32_cast(c2, unicode);
                    }
                    ch = c2;
                },
                None => {
                    return Err(Error::BadUtf8);
                },
            }
            proof {
                assert(spec_utf8_char(string@, current_index as int) == Ok::<(char, int), Error>(
                    (ch, next as int),
                ));
            }
        }
        proof {
            match spec_string_rest(string@, next as int) {
                Ok((cs, e)) => {
                    assert(result@.push(ch) + cs =~= result@ + (seq![ch] + cs));
                },
                Err(_) => {},
            }
        }
        push_char(&mut result, ch);
        current_index = next;
    }
}

} // verus!

verus! {

/// An array whose opening bracket stands at `start_index`.
#[verifier::rlimit(100)]
fn parse_array(string: &[u8], start_index: usize, depth: usize) -> (r: Result<
    (Value, usize),
    Error,
>)
    requires
        start_index < string@.len(),
        depth >= 1,
    ensures
        result_view(r) == spec_parse_array(string@, start_index as int, depth as nat),
    decreases string@.len() - start_index, 0int,
{
    proof {
        vstd::slice::axiom_spec_len(string);
    }
    let mut current_index = start_index + 1;
    if !check_inbounds(string, current_index) {
        return Err(Error::NotClosed);
    }
    current_index = skip_whitespace(string, current_index);
    proof {
        lemma_ws_end(string@, start_index as int + 1);
    }
    if !check_inbounds(string, current_index) {
        return Err(Error::NotClosed);
    }
    if string[current_index] == RBRACKET {
        proof {
            assert(views_of(Seq::<Value>::empty()) =~= Seq::<ValueView>::empty());
        }
        return Ok((Value::Array(Vec::new()), current_index + 1));
    }
    let ghost c1 = current_index as int;

    let mut result: Vec<Value> = Vec::new();
    match parse_value_at(string, current_index, depth - 1) {
        Ok((value, end_index)) => {
            proof {
                lemma_parse_value_bounds(string@, c1, (depth - 1) as nat);
                assert(result@.push(value).drop_last() =~= result@);
                assert(views_of(result@) =~= Seq::<ValueView>::empty());
                assert(views_of(result@.push(value)) =~= seq![value@]);
                match spec_elements_sep(string@, end_index as int, depth as nat) {
                    Ok((vs, e)) => {
                        assert(seq![value@] + vs =~= views_of(result@.push(value)) + vs);
                    },
                    Err(_) => {},
                }
            }
            result.push(value);
            current_index = end_index;
        },
        Err(e) => {
            return Err(e);
        },
    }

    loop
        invariant
            (start_index as int) < c1,
            c1 < (current_index as int),
            (current_index as int) <= string@.len(),
            depth >= 1,
            spec_parse_array(string@, start_index as int, depth as nat) == (match spec_parse_elements(
                string@,
                c1,
                depth as nat,
            ) {
                Ok((vs, e)) => Ok::<(ValueView, int), Error>((ValueView::Array(vs), e)),
                Err(e) => Err(e),
            }),
            spec_parse_elements(string@, c1, depth as nat) == (match spec_elements_sep(
                string@,
                current_index as int,
                depth as nat,
            ) {
                Ok((vs, e)) => Ok::<(Seq<ValueView>, int), Error>((views_of(result@) + vs, e)),
                Err(e) => Err(e),
            }),
        decreases string@.len() - current_index,
    {
        if !check_inbounds(string, current_index) {
            return Err(Error::NotClosed);
        }
        let b = string[current_index];
        if b == RBRACKET {
            proof {
                assert(views_of(result@) + Seq::<ValueView>::empty() =~= views_of(result@));
            }
            return Ok((Value::Array(result), current_index + 1));
        } else if b == COMMA {
            match parse_value_at(string, current_index + 1, depth - 1) {
                Ok((value, end_index)) => {
                    proof {
                        lemma_parse_value_bounds(
                            string@,
                            current_index as int + 1,
                            (depth - 1) as nat,
                        );
                        assert(result@.push(value).drop_last() =~= result@);
                        assert(views_of(result@.push(value)) =~= views_of(result@).push(value@));
                        match spec_elements_sep(string@, end_index as int, depth as nat) {
                            Ok((vs, e)) => {
                                assert(views_of(result@) + (seq![value@] + vs) =~= views_of(
                                    result@.push(value),
                                ) + vs);
                            },
                            Err(_) => {},
                        }
                    }
                    result.push(value);
                    current_index = end_index;
                },
                Err(e) => {
                    return Err(e);
                },
            }
        } else {
            return Err(Error::Syntax);
        }
    }
}

/// An object whose opening brace stands at `start_index`.
#[verifier::rlimit(100)]
fn parse_object(string: &[u8], start_index: usize, depth: usize) -> (r: Result<
    (Value, usize),
    Error,
>)
    requires
        start_index < string@.len(),
        depth >= 1,
    ensures
        result_view(r) == spec_parse_object(string@, start_index as int, depth as nat),
    decreases string@.len() - start_index, 0int,
{
    proof {
        vstd::slice::axiom_spec_len(string);
        lemma_ws_end(string@, start_index as int + 1);
    }
    let mut current_index = skip_whitespace(string, start_index + 1);
    if !check_inbounds(string, current_index) {
        return Err(Error::NotClosed);
    }
    if string[current_index] == RBRACE {
        return Ok((Value::Object(Object::new()), current_index + 1));
    }
    let ghost c1 = current_index as int;

    let mut result = Object::new();
    proof {
        match spec_parse_members(string@, c1, depth as nat) {
            Ok((m, e)) => {
                assert(Map::<Seq<char>, ValueView>::empty().union_prefer_right(m) =~= m);
            },
            Err(_) => {},
        }
    }
    loop
        invariant
            (start_index as int) < c1,
            c1 <= (current_index as int),
            (current_index as int) < string@.len(),
            depth >= 1,
            spec_parse_object(string@, start_index as int, depth as nat) == (match spec_parse_members(
                string@,
                c1,
                depth as nat,
            ) {
                Ok((m, e)) => Ok::<(ValueView, int), Error>((ValueView::Object(m), e)),
                Err(e) => Err(e),
            }),
            spec_parse_members(string@, c1, depth as nat) == (match spec_parse_members(
                string@,
                current_index as int,
                depth as nat,
            ) {
                Ok((m, e)) => Ok::<(Map<Seq<char>, ValueView>, int), Error>(
                    (result@.union_prefer_right(m), e),
                ),
                Err(e) => Err(e),
            }),
        decreases string@.len() - current_index,
    {
        let ghost head = current_index as int;
        let key: String;
        match parse_string(string, current_index) {
            Ok((v, index)) => {
                proof {
                    lemma_parse_string_bounds(string@, head);
                }
                match v {
                    Value::String(k) => {
                        key = k;
                        proof {
                            lemma_ws_end(string@, index as int);
                        }
                        current_index = skip_whitespace(string, index);
                    },
                    _ => {
                        proof {
                            assert(false);
                        }
                        return Err(Error::Syntax);
                    },
                }
            },
            Err(e) => {
                return Err(e);
            },
        }
        if string.len() - current_index <= 1 || string[current_index] != COLON {
            return Err(Error::Syntax);
        }
        current_index += 1;
        let ghost vstart = current_index as int;
        let value: Value;
        match parse_value_at(string, current_index, depth - 1) {
            Ok((v, index)) => {
                proof {
                    lemma_parse_value_bounds(string@, vstart, (depth - 1) as nat);
                }
                value = v;
                current_index = index;
            },
            Err(e) => {
                return Err(e);
            },
        }
        if !check_inbounds(string, current_index) {
            return Err(Error::NotClosed);
        }
        let ghost acc0 = result@;
        let ghost keyv = key@;
        let ghost valv = value@;
        result.insert(key, value);
        let b = string[current_index];
        if b == RBRACE {
            proof {
                assert(acc0.union_prefer_right(Map::empty().insert(keyv, valv)) =~= acc0.insert(
                    keyv,
                    valv,
                ));
            }
            return Ok((Value::Object(result), current_index + 1));
        } else if b == COMMA {
            proof {
                lemma_ws_end(string@, current_index as int + 1);
            }
            current_index = skip_whitespace(string, current_index + 1);
            if !check_inbounds(string, current_index) {
                return Err(Error::NotClosed);
            }
            proof {
                match spec_parse_members(string@, current_index as int, depth as nat) {
                    Ok((m, e)) => {
                        assert(acc0.union_prefer_right(
                            Map::empty().insert(keyv, valv).union_prefer_right(m),
                        ) =~= acc0.insert(keyv, valv).union_prefer_right(m));
                    },
                    Err(_) => {},
                }
            }
        } else {
            return Err(Error::Syntax);
        }
    }
}

/// Any value at `start_index`: skips surrounding whitespace and routes by
/// the lead byte. `depth` is the nesting allowance left.
#[verifier::rlimit(100)]
fn parse_value_at(string: &[u8], start_index: usize, depth: usize) -> (r: Result<
    (Value, usize),
    Error,
>)
    requires
        start_index <= string@.len(),
    ensures
        result_view(r) == spec_parse_value(string@, start_index as int, depth as nat),
    decreases string@.len() - start_index, 1int,
{
    if depth == 0 {
        return Err(Error::Syntax);
    }
    proof {
        lemma_ws_end(string@, start_index as int);
    }
    let value_start_index = skip_whitespace(string, start_index);
    if !check_inbounds(string, value_start_index) {
        return Err(Error::Syntax);
    }
    let ghost j = value_start_index as int;
    let b = string[value_start_index];
    let result = if b == LOWER_N {
        parse_null(string, value_start_index)
    } else if b == LOWER_T {
        parse_true(string, value_start_index)
    } else if b == LOWER_F {
        parse_false(string, value_start_index)
    } else if b == LBRACKET {
        parse_array(string, value_start_index, depth)
    } else if b == LBRACE {
        parse_object(string, value_start_index, depth)
    } else if b == QUOTE {
        parse_string(string, value_start_index)
    } else if b == MINUS || (DIGIT_0 <= b && b <= DIGIT_9) {
        parse_number(string, value_start_index)
    } else {
        return Err(Error::Syntax);
    };

    match result {
        Ok((value, start_of_trailing_whitespace)) => {
            proof {
                if b == LBRACKET {
                    lemma_parse_array_bounds(string@, j, depth as nat);
                } else if b == LBRACE {
                    lemma_parse_object_bounds(string@, j, depth as nat);
                } else if b == QUOTE {
                    lemma_parse_string_bounds(string@, j);
                } else if b == MINUS || is_digit(b) {
                    lemma_parse_number_bounds(string@, j);
                }
                lemma_ws_end(string@, start_of_trailing_whitespace as int);
            }
            let end_index = skip_whitespace(string, start_of_trailing_whitespace);
            Ok((value, end_index))
        },
        Err(e) => Err(e),
    }
}

/// Decodes the JSON value that starts at `start_index`, skipping leading
/// whitespace; on success the returned offset stands just past the value
/// and its trailing whitespace, so a caller can decode several values
/// back to back from one buffer. Nesting deeper than `max_depth` levels
/// of arrays and objects fails with `Syntax`.
pub fn parse_value_with_depth(string: &[u8], start_index: usize, max_depth: usize) -> (r: Result<
    (Value, usize),
    Error,
>)
    ensures
        result_view(r) == spec_parse_value(string@, start_index as int, max_depth as nat),
{
    if start_index > string.len() {
        return Err(Error::Syntax);
    }
    parse_value_at(string, start_index, max_depth)
}

/// Decodes the JSON value that starts at `start_index`, skipping leading
/// whitespace; on success the returned offset stands just past the value
/// and its trailing whitespace. Nesting is bounded by `DEFAULT_MAX_DEPTH`.
pub fn parse_value(string: &[u8], start_index: usize) -> (r: Result<(Value, usize), Error>)
    ensures
        result_view(r) == spec_parse_value(
            string@,
            start_index as int,
            DEFAULT_MAX_DEPTH as nat,
        ),
{
    parse_value_with_depth(string, start_index, DEFAULT_MAX_DEPTH)
}

} // verus!
