//! The decoder exercised on whole inputs: literals, numbers, strings,
//! arrays, objects, nesting, and each error kind.

use alarmbot::json::{
    check_inbounds, parse_value, parse_value_with_depth, skip_whitespace, Error, FloatLit,
    IntOrFloat, Object, Value,
};

/// The floating-point value a literal denotes, evaluated the way the
/// decoder's callers do: sign * (integer + 0.fraction) * 10^exponent.
fn eval_float(l: &FloatLit) -> f64 {
    let signf = if l.negative { -1f64 } else { 1f64 };
    let mut frac = 0f64;
    let mut place = 0.1f64;
    for d in l.fraction.iter() {
        frac += *d as f64 * place;
        place /= 10f64;
    }
    let mantissa = signf * (l.integer as f64 + frac);
    mantissa * 10f64.powi(l.exponent)
}

/// The parsed number as a float, if the parse gave a float.
fn parsed_float(r: Result<(Value, usize), Error>) -> (f64, usize) {
    match r {
        Ok((Value::Number(IntOrFloat::Float(l)), end)) => (eval_float(&l), end),
        other => panic!("expected a float, got {:?}", other),
    }
}

fn float_lit(negative: bool, integer: i64, fraction: Vec<u8>, exponent: i32) -> Value {
    Value::Number(IntOrFloat::Float(FloatLit { negative, integer, fraction, exponent }))
}

fn object_of(pairs: Vec<(&str, Value)>) -> Value {
    let mut o = Object::new();
    for (k, v) in pairs {
        o.insert(k.to_string(), v);
    }
    Value::Object(o)
}

#[test]
fn true_value() {
    let just_true = parse_value(b"true", 0);
    let true_with_whitespace = parse_value(b"\n\r\t true  ", 0);
    assert_eq!(just_true, Ok((Value::Boolean(true), 4)));
    assert_eq!(true_with_whitespace, Ok((Value::Boolean(true), 10)));
}

#[test]
fn false_value() {
    let just_false = parse_value(b"false", 0);
    let false_with_whitespace = parse_value(b"\n\r\t false  ", 0);
    assert_eq!(just_false, Ok((Value::Boolean(false), 5)));
    assert_eq!(false_with_whitespace, Ok((Value::Boolean(false), 11)));
}

#[test]
fn null() {
    let just_null = parse_value(b"null", 0);
    let null_with_whitespace = parse_value(b"\n\r\t null  ", 0);
    assert_eq!(just_null, Ok((Value::Null, 4)));
    assert_eq!(null_with_whitespace, Ok((Value::Null, 10)));
}

#[test]
fn number() {
    let zero = parse_value(b"0", 0);
    assert_eq!(zero, Ok((Value::Number(IntOrFloat::Int(0)), 1)));

    let zero_ws = parse_value(b" 0 ", 0);
    assert_eq!(zero_ws, Ok((Value::Number(IntOrFloat::Int(0)), 3)));

    let two = parse_value(b"2", 0);
    assert_eq!(two, Ok((Value::Number(IntOrFloat::Int(2)), 1)));

    let neg_two = parse_value(b"-2", 0);
    assert_eq!(neg_two, Ok((Value::Number(IntOrFloat::Int(-2)), 2)));

    let six_seven = parse_value(b"67", 0);
    assert_eq!(six_seven, Ok((Value::Number(IntOrFloat::Int(67)), 2)));

    let neg_six_seven = parse_value(b"-67", 0);
    assert_eq!(neg_six_seven, Ok((Value::Number(IntOrFloat::Int(-67)), 3)));

    let two_e_three = parsed_float(parse_value(b"2e3", 0));
    assert_eq!(two_e_three, (2e3, 3));

    let two_e_neg_three = parsed_float(parse_value(b"2e-3", 0));
    assert_eq!(two_e_neg_three, (2e-3, 4));

    let neg_two_e_three = parsed_float(parse_value(b"-2e3", 0));
    assert_eq!(neg_two_e_three, (-2e3, 4));

    let neg_two_e_neg_three = parsed_float(parse_value(b"-2e-3", 0));
    assert_eq!(neg_two_e_neg_three, (-2e-3, 5));

    let three_point_five = parsed_float(parse_value(b"3.5", 0));
    assert_eq!(three_point_five, (3.5, 3));

    let three_point_four_five = parsed_float(parse_value(b"3.45", 0));
    assert_eq!(three_point_four_five, (3.45, 4));

    let two_three_point_four = parsed_float(parse_value(b"23.4", 0));
    assert_eq!(two_three_point_four, (23.4, 4));

    let two_three_point_four_five = parsed_float(parse_value(b"23.45", 0));
    assert_eq!(two_three_point_four_five, (23.45, 5));

    let neg_two_three_point_four_five = parsed_float(parse_value(b"-23.45", 0));
    assert_eq!(neg_two_three_point_four_five, (-23.45, 6));

    let neg_e_six = parsed_float(parse_value(b"-23.45e6", 0));
    assert_eq!(neg_e_six, (-23.45e6, 8));

    let neg_e_neg_six_seven = parsed_float(parse_value(b"-23.45E-67", 0));
    assert_eq!(neg_e_neg_six_seven, (-23.45e-67, 10));
}

#[test]
fn string() {
    let empty = parse_value(br#""""#, 0);
    assert_eq!(empty, Ok((Value::String("".into()), 2)));

    let quote_slash = parse_value(br#""\"\\""#, 0);
    assert_eq!(quote_slash, Ok((Value::String(r#""\"#.into()), 6)));

    let backspace = parse_value(br#""\b""#, 0);
    assert_eq!(backspace, Ok((Value::String((8 as char).into()), 4)));

    let aaaa = parse_value(br#""A\u0041A\u0041""#, 0);
    assert_eq!(aaaa, Ok((Value::String("AAAA".into()), 16)));

    let ok_hand = parse_value(&[b'"', 0xf0, 0x9f, 0x91, 0x8c, b'"'], 0);
    assert_eq!(ok_hand, Ok((Value::String("\u{1f44c}".into()), 6)));
}

#[test]
fn array() {
    let empty = parse_value(b"[]", 0);
    assert_eq!(empty, Ok((Value::Array(vec![]), 2)));

    let empty_ws = parse_value(b"[ ]", 0);
    assert_eq!(empty_ws, Ok((Value::Array(vec![]), 3)));

    let one_two = parse_value(b"[1,2]", 0);
    assert_eq!(
        one_two,
        Ok((
            Value::Array(vec![
                Value::Number(IntOrFloat::Int(1)),
                Value::Number(IntOrFloat::Int(2))
            ]),
            5
        ))
    );

    let one_two_spaced = parse_value(b" [ 1 , 2 ] ", 0);
    assert_eq!(
        one_two_spaced,
        Ok((
            Value::Array(vec![
                Value::Number(IntOrFloat::Int(1)),
                Value::Number(IntOrFloat::Int(2))
            ]),
            11
        ))
    );

    let hello_world = parse_value(br#"["hello", "world", false, true, null]"#, 0);
    assert_eq!(
        hello_world,
        Ok((
            Value::Array(vec![
                Value::String("hello".into()),
                Value::String("world".into()),
                Value::Boolean(false),
                Value::Boolean(true),
                Value::Null
            ]),
            37
        ))
    );
}

#[test]
fn object() {
    let empty = parse_value(b"{}", 0);
    assert_eq!(empty, Ok((object_of(vec![]), 2)));

    let empty_ws = parse_value(b"{ }", 0);
    assert_eq!(empty_ws, Ok((object_of(vec![]), 3)));

    let hello_world = parse_value(br#"{"hello":"world"}"#, 0);
    assert_eq!(
        hello_world,
        Ok((object_of(vec![("hello", Value::String("world".into()))]), 17))
    );

    let six_seven = parse_value(br#"{"six":6,"seven":7.0}"#, 0);
    let expected = object_of(vec![
        ("six", Value::Number(IntOrFloat::Int(6))),
        ("seven", float_lit(false, 7, vec![0], 0)),
    ]);
    assert_eq!(six_seven, Ok((expected, 21)));

    let six_seven_ws = parse_value(br#" { "six" : 6 , "seven":7.0 } "#, 0);
    let expected_ws = object_of(vec![
        ("six", Value::Number(IntOrFloat::Int(6))),
        ("seven", float_lit(false, 7, vec![0], 0)),
    ]);
    assert_eq!(six_seven_ws, Ok((expected_ws, 29)));
}

#[test]
fn nested() {
    let parsed = parse_value(
        br#"{"first":[2,"three",4.0],"five":6,"seven":{"eight":[9,{"ten":11,"twelve":13}]}}"#,
        0,
    );
    let expected = object_of(vec![
        (
            "first",
            Value::Array(vec![
                Value::Number(IntOrFloat::Int(2)),
                Value::String("three".into()),
                float_lit(false, 4, vec![0], 0),
            ]),
        ),
        ("five", Value::Number(IntOrFloat::Int(6))),
        (
            "seven",
            object_of(vec![(
                "eight",
                Value::Array(vec![
                    Value::Number(IntOrFloat::Int(9)),
                    object_of(vec![
                        ("ten", Value::Number(IntOrFloat::Int(11))),
                        ("twelve", Value::Number(IntOrFloat::Int(13))),
                    ]),
                ]),
            )]),
        ),
    ]);
    assert_eq!(parsed, Ok((expected, 79)));
}

#[test]
fn boolean_with_whitespace_offset() {
    assert_eq!(parse_value(b"  true  ", 0), Ok((Value::Boolean(true), 8)));
}

#[test]
fn float_parts_kept_exactly() {
    let parsed = parse_value(b"-23.45E-67", 0);
    assert_eq!(parsed, Ok((float_lit(true, 23, vec![4, 5], -67), 10)));
}

#[test]
fn int_iff_no_dot_or_exponent() {
    assert_eq!(parse_value(b"230", 0), Ok((Value::Number(IntOrFloat::Int(230)), 3)));
    assert_eq!(parse_value(b"2.30", 0), Ok((float_lit(false, 2, vec![3, 0], 0), 4)));
    assert_eq!(parse_value(b"2E1", 0), Ok((float_lit(false, 2, vec![], 1), 3)));
    assert_eq!(parse_value(b"2e0", 0), Ok((float_lit(false, 2, vec![], 0), 3)));
}

#[test]
fn unterminated_string() {
    assert_eq!(parse_value(br#""abc"#, 0), Err(Error::NotClosed));
}

#[test]
fn bad_continuation_is_bad_utf8() {
    // a 2-byte lead followed by a byte that is not 10xxxxxx
    assert_eq!(parse_value(&[b'"', 0xc3, b'A', b'"'], 0), Err(Error::BadUtf8));
    // a 3-byte lead whose second continuation is broken
    assert_eq!(parse_value(&[b'"', 0xe2, 0x82, b'A', b'"'], 0), Err(Error::BadUtf8));
    // a stray continuation byte as lead
    assert_eq!(parse_value(&[b'"', 0x80, b'"'], 0), Err(Error::BadUtf8));
}

#[test]
fn utf8_length_classes_roundtrip() {
    // 1-byte A, 2-byte é, 3-byte €, 4-byte 𝄞
    let text = "A\u{e9}\u{20ac}\u{1d11e}";
    let mut bytes = vec![b'"'];
    bytes.extend_from_slice(text.as_bytes());
    bytes.push(b'"');
    let parsed = parse_value(&bytes, 0);
    assert_eq!(parsed, Ok((Value::String(text.into()), bytes.len())));
}

#[test]
fn escapes_roundtrip() {
    let parsed = parse_value(br#""\"\\\/\b\f\n\r\t""#, 0);
    assert_eq!(
        parsed,
        Ok((Value::String("\"\\/\u{8}\u{c}\n\r\t".into()), 18))
    );
}

#[test]
fn lone_surrogate_escape_is_bad_utf8() {
    assert_eq!(parse_value(br#""\ud800""#, 0), Err(Error::BadUtf8));
}

#[test]
fn bad_escape_is_syntax() {
    assert_eq!(parse_value(br#""\q""#, 0), Err(Error::Syntax));
    assert_eq!(parse_value(br#""\u00zz""#, 0), Err(Error::Syntax));
}

#[test]
fn stray_byte_is_syntax() {
    assert_eq!(parse_value(b"x", 0), Err(Error::Syntax));
    assert_eq!(parse_value(b"", 0), Err(Error::Syntax));
    assert_eq!(parse_value(b"[1;2]", 0), Err(Error::Syntax));
}

#[test]
fn unclosed_containers() {
    assert_eq!(parse_value(b"[1,2", 0), Err(Error::NotClosed));
    assert_eq!(parse_value(br#"{"a":1"#, 0), Err(Error::NotClosed));
    assert_eq!(parse_value(b"[", 0), Err(Error::NotClosed));
}

#[test]
fn duplicate_key_overwrites() {
    let parsed = parse_value(br#"{"k":1,"k":2}"#, 0);
    assert_eq!(
        parsed,
        Ok((object_of(vec![("k", Value::Number(IntOrFloat::Int(2)))]), 13))
    );
}

#[test]
fn leading_zero_stops_after_zero() {
    // `012` is read as the single number 0 and the offset stays inside
    // the literal
    assert_eq!(parse_value(b"012", 0), Ok((Value::Number(IntOrFloat::Int(0)), 1)));
}

#[test]
fn sequential_values_from_one_buffer() {
    let buffer = b" 1 2 ";
    let (first, next) = parse_value(buffer, 0).unwrap();
    assert_eq!(first, Value::Number(IntOrFloat::Int(1)));
    let (second, end) = parse_value(buffer, next).unwrap();
    assert_eq!(second, Value::Number(IntOrFloat::Int(2)));
    assert_eq!(end, 5);
}

#[test]
fn deep_nesting_keeps_structure() {
    let mut v = Value::Number(IntOrFloat::Int(7));
    let mut text = String::from("7");
    for _ in 0..40 {
        v = Value::Array(vec![v]);
        text = format!("[{}]", text);
    }
    let parsed = parse_value(text.as_bytes(), 0);
    assert_eq!(parsed, Ok((v, text.len())));
}

#[test]
fn nesting_past_the_depth_bound_is_syntax() {
    let deep = "[".repeat(200) + &"]".repeat(200);
    assert_eq!(parse_value(deep.as_bytes(), 0), Err(Error::Syntax));
    assert_eq!(parse_value_with_depth(b"[[1]]", 0, 2), Err(Error::Syntax));
    assert_eq!(
        parse_value_with_depth(b"[[1]]", 0, 3),
        Ok((
            Value::Array(vec![Value::Array(vec![Value::Number(IntOrFloat::Int(1))])]),
            5
        ))
    );
}

#[test]
fn integer_accumulation_wraps_at_64_bits() {
    // twenty nines pass the 64-bit range; the accumulator wraps
    let parsed = parse_value(b"99999999999999999999", 0);
    assert_eq!(
        parsed,
        Ok((Value::Number(IntOrFloat::Int(7766279631452241919)), 20))
    );
}

#[test]
fn exponent_needs_digits() {
    assert_eq!(parse_value(b"1e", 0), Err(Error::Syntax));
    assert_eq!(parse_value(b"1e-", 0), Err(Error::Syntax));
    assert_eq!(parse_value(b"1e-x", 0), Err(Error::Syntax));
    assert_eq!(parse_value(b"1ex", 0), Err(Error::Syntax));
}

#[test]
fn whitespace_scanner_and_bounds() {
    assert_eq!(skip_whitespace(b" \t\r\na ", 0), 4);
    assert_eq!(skip_whitespace(b"  ", 0), 2);
    assert_eq!(skip_whitespace(b"ab", 1), 1);
    assert!(check_inbounds(b"ab", 1));
    assert!(!check_inbounds(b"ab", 2));
}

#[test]
fn object_lookup_and_removal() {
    let mut o = Object::new();
    o.insert("a".to_string(), Value::Number(IntOrFloat::Int(1)));
    o.insert("b".to_string(), Value::Boolean(true));
    o.insert("a".to_string(), Value::Number(IntOrFloat::Int(2)));
    assert_eq!(o.get("a"), Some(&Value::Number(IntOrFloat::Int(2))));
    assert_eq!(o.get("b"), Some(&Value::Boolean(true)));
    assert_eq!(o.get("missing"), None);
    assert_eq!(o.remove("a"), Some(Value::Number(IntOrFloat::Int(2))));
    assert_eq!(o.get("a"), None);
    assert_eq!(o.remove("a"), None);
}
