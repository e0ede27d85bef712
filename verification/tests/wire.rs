use rustdb::decimal::{parse_i64, parse_u64, push_decimal, push_signed_decimal};
use rustdb::resp::{parse_bulk, parse_simple, ParseError, RESP};
use rustdb::value::{decode_value, encode_value, parse_value, Value};

fn text(s: &str) -> Value {
    Value::String(s.to_string())
}

#[test]
fn value_wire_forms() {
    assert_eq!(text("foo").encode_resp(), "$3foo\r\n");
    assert_eq!(text("").encode_resp(), "$0\r\n");
    assert_eq!(Value::Int(-42).encode_resp(), ":-42\r\n");
    assert_eq!(Value::Int(0).encode_resp(), ":0\r\n");
    assert_eq!(Value::Null.encode_resp(), "$-1\r\n");
    assert_eq!(Value::SimpleString("OK".to_string()).encode_resp(), "+OK\r\n");
    assert_eq!(Value::SimpleError("bad".to_string()).encode_resp(), "-bad\r\n");
    assert_eq!(Value::Array(vec![]).encode_resp(), "*0\r\n");
    assert_eq!(
        Value::Array(vec![text("a"), Value::Int(1)]).encode_resp(),
        "*2$1a\r\n:1\r\n\r\n"
    );
}

#[test]
fn bulk_length_counts_bytes() {
    let v = text("héllo");
    let wire = v.clone().encode_resp();
    assert_eq!(wire, "$6héllo\r\n");
    assert_eq!(Value::decode_resp(wire), Ok(v));
}

#[test]
fn integer_limits_round_trip() {
    for i in [i64::MIN, -1, 0, 1, i64::MAX] {
        let wire = Value::Int(i).encode_resp();
        assert_eq!(wire, format!(":{}\r\n", i));
        assert_eq!(Value::decode_resp(wire), Ok(Value::Int(i)));
    }
}

#[test]
fn value_round_trip_nested_array() {
    let v = Value::Array(vec![
        text("Asdf"),
        Value::Int(123),
        Value::Null,
        Value::Array(vec![text("Hello"), text("world")]),
        Value::SimpleString("OK".to_string()),
        Value::SimpleError("no\rgood".to_string()),
        Value::Array(vec![]),
    ]);
    let wire = v.clone().encode_resp();
    assert_eq!(Value::decode_resp(wire), Ok(v));
}

#[test]
fn round_trip_matches_bytes_and_text() {
    let v = Value::Array(vec![text("k"), Value::Int(7)]);
    let bytes = encode_value(&v);
    assert_eq!(bytes, v.clone().encode_resp().into_bytes());
    assert_eq!(decode_value(&bytes), Ok(v));
}

#[test]
fn string_that_starts_with_a_digit_does_not_read_back() {
    let wire = text("5abc").encode_resp();
    assert_eq!(wire, "$45abc\r\n");
    assert_eq!(decode_value(wire.as_bytes()), Err(ParseError::LengthMismatch));
}

#[test]
fn simple_string_with_terminator_does_not_read_back() {
    let wire = Value::SimpleString("a\r\nb".to_string()).encode_resp();
    assert_eq!(decode_value(wire.as_bytes()), Err(ParseError::TrailingBytes));
}

#[test]
fn null_is_tried_before_bulk_string() {
    assert_eq!(decode_value(b"$-1\r\n"), Ok(Value::Null));
    assert_eq!(decode_value(b"$-1"), Err(ParseError::BadNumber));
}

#[test]
fn decoder_accepts_leading_zeros_and_plus_sign() {
    assert_eq!(decode_value(b"$003foo\r\n"), Ok(text("foo")));
    assert_eq!(decode_value(b":+7\r\n"), Ok(Value::Int(7)));
    assert_eq!(decode_value(b":-0\r\n"), Ok(Value::Int(0)));
}

#[test]
fn each_parse_error() {
    assert_eq!(decode_value(b""), Err(ParseError::UnknownPrefix));
    assert_eq!(decode_value(b"?abc\r\n"), Err(ParseError::UnknownPrefix));
    assert_eq!(decode_value(b"$x\r\n"), Err(ParseError::BadNumber));
    assert_eq!(decode_value(b":\r\n"), Err(ParseError::BadNumber));
    assert_eq!(decode_value(b":9223372036854775808\r\n"), Err(ParseError::BadNumber));
    assert_eq!(decode_value(b":-9223372036854775809\r\n"), Err(ParseError::BadNumber));
    assert_eq!(decode_value(b"*18446744073709551616\r\n"), Err(ParseError::BadNumber));
    assert_eq!(decode_value(b"$5ab\r\n"), Err(ParseError::LengthMismatch));
    assert_eq!(decode_value(b"$3foo"), Err(ParseError::MissingTerminator));
    assert_eq!(decode_value(b"$3foobar\r\n"), Err(ParseError::MissingTerminator));
    assert_eq!(decode_value(b"+OK"), Err(ParseError::MissingTerminator));
    assert_eq!(decode_value(b":12"), Err(ParseError::MissingTerminator));
    assert_eq!(decode_value(b"*1:1\r\n"), Err(ParseError::MissingTerminator));
    assert_eq!(decode_value(&[b'+', 0xff, b'\r', b'\n']), Err(ParseError::InvalidText));
    assert_eq!(decode_value(&[b'$', b'1', 0xc3, b'\r', b'\n']), Err(ParseError::InvalidText));
    assert_eq!(decode_value(b"+OK\r\nx"), Err(ParseError::TrailingBytes));
}

#[test]
fn error_messages() {
    assert_eq!(
        Value::decode_resp("+OK\r\nx".to_string()),
        Err("expected end of string".to_string())
    );
    assert_eq!(ParseError::UnknownPrefix.message(), "unrecognized prefix");
    assert_eq!(ParseError::BadNumber.message(), "expected a number");
    assert_eq!(ParseError::LengthMismatch.message(), "declared length exceeds the input");
    assert_eq!(ParseError::MissingTerminator.message(), "expected line terminator");
    assert_eq!(ParseError::InvalidText.message(), "expected valid text");
}

#[test]
fn truncated_array_fails() {
    assert_eq!(decode_value(b"*2$3GET\r\n"), Err(ParseError::UnknownPrefix));
    assert_eq!(decode_value(b"*2$3GET\r\n\r\n"), Err(ParseError::UnknownPrefix));
}

#[test]
fn parse_value_leaves_the_rest() {
    let input = b":5\r\n+next\r\n";
    let (rest, v) = parse_value(input).unwrap();
    assert_eq!(v, Value::Int(5));
    assert_eq!(rest, b"+next\r\n");
}

#[test]
fn parse_bulk_with_any_prefix() {
    let (rest, s) = parse_bulk(b"!5hello\r\nrest", b"!").unwrap();
    assert_eq!(s, "hello");
    assert_eq!(rest, b"rest");
    assert_eq!(parse_bulk(b"$5hello\r\n", b"!"), Err(ParseError::UnknownPrefix));
    let (rest, s) = parse_bulk(b"ab2xy\r\n", b"ab").unwrap();
    assert_eq!(s, "xy");
    assert_eq!(rest, b"");
}

#[test]
fn parse_simple_stops_at_first_terminator() {
    let (rest, s) = parse_simple(b"+a\rb\r\nc\r\n", b"+").unwrap();
    assert_eq!(s, "a\rb");
    assert_eq!(rest, b"c\r\n");
    assert_eq!(parse_simple(b"-x\r\n", b"+"), Err(ParseError::UnknownPrefix));
    assert_eq!(parse_simple(b"+x\r", b"+"), Err(ParseError::MissingTerminator));
}

#[test]
fn decimal_text() {
    let mut out = Vec::new();
    push_decimal(&mut out, 0);
    push_decimal(&mut out, 18446744073709551615);
    push_signed_decimal(&mut out, -9223372036854775808);
    assert_eq!(out, b"018446744073709551615-9223372036854775808");
    assert_eq!(parse_u64(b"18446744073709551615x"), Ok((&b"x"[..], u64::MAX)));
    assert_eq!(parse_u64(b"18446744073709551616"), Err(ParseError::BadNumber));
    assert_eq!(parse_u64(b"-1"), Err(ParseError::BadNumber));
    assert_eq!(parse_i64(b"-9223372036854775808,"), Ok((&b","[..], i64::MIN)));
    assert_eq!(parse_i64(b"+"), Err(ParseError::BadNumber));
}
