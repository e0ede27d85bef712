use rustdb::command::{Command, CommandError};
use rustdb::resp::{ParseError, RESP};
use rustdb::response::Response;
use rustdb::value::Value;

fn text(s: &str) -> Value {
    Value::String(s.to_string())
}

#[test]
fn command_wire_forms() {
    assert_eq!(
        Command::Get("foo".to_string()).encode_resp(),
        "*2$3GET\r\n$3foo\r\n\r\n"
    );
    assert_eq!(
        Command::SetKey("k".to_string(), Value::Int(5)).encode_resp(),
        "*3$3SET\r\n$1k\r\n:5\r\n\r\n"
    );
    assert_eq!(Command::Inc("n".to_string()).encode_resp(), "*2$3INC\r\n$1n\r\n\r\n");
    assert_eq!(Command::Dec("n".to_string()).encode_resp(), "*2$3DEC\r\n$1n\r\n\r\n");
    assert_eq!(Command::Hello.encode_resp(), "*1$5HELLO\r\n\r\n");
    assert_eq!(Command::Save.encode_resp(), "*1$4SAVE\r\n\r\n");
}

#[test]
fn decode_array_of_two_bulk_strings_as_get() {
    assert_eq!(
        Command::decode_resp("*2$3GET\r\n$3foo\r\n\r\n".to_string()),
        Ok(Command::Get("foo".to_string()))
    );
}

#[test]
fn decode_truncated_array_is_a_parse_error() {
    assert_eq!(
        Command::decode(b"*2$3GET\r\n"),
        Err(CommandError::Parse(ParseError::UnknownPrefix))
    );
    assert_eq!(
        Command::decode(b"*2$3GET$3foo\r\n"),
        Err(CommandError::Parse(ParseError::MissingTerminator))
    );
    assert!(Command::decode_resp("*2$3GET\r\n".to_string()).is_err());
}

#[test]
fn command_round_trip() {
    let commands = vec![
        Command::Get("foo".to_string()),
        Command::SetKey("Hello".to_string(), text("world")),
        Command::SetKey(
            "list".to_string(),
            Value::Array(vec![Value::Int(1), Value::Null, text("x")]),
        ),
        Command::Inc("a".to_string()),
        Command::Dec("a".to_string()),
        Command::Hello,
        Command::Save,
    ];
    for c in commands {
        let wire = c.clone().encode_resp();
        assert_eq!(Command::decode_resp(wire), Ok(c));
    }
}

#[test]
fn command_value_shape() {
    assert_eq!(
        Command::SetKey("k".to_string(), Value::Null).to_value(),
        Value::Array(vec![text("SET"), text("k"), Value::Null])
    );
    assert_eq!(
        Command::from_value(&Value::Array(vec![text("DEC"), text("k")])),
        Ok(Command::Dec("k".to_string()))
    );
}

#[test]
fn each_command_error() {
    assert_eq!(Command::from_value(&Value::Int(1)), Err(CommandError::ExpectedArray));
    assert_eq!(Command::from_value(&Value::Array(vec![])), Err(CommandError::ExpectedArray));
    assert_eq!(
        Command::from_value(&Value::Array(vec![Value::Int(1)])),
        Err(CommandError::ExpectedArray)
    );
    assert_eq!(
        Command::from_value(&Value::Array(vec![text("DEL"), text("k")])),
        Err(CommandError::UnknownCommand)
    );
    assert_eq!(
        Command::from_value(&Value::Array(vec![text("get"), text("k")])),
        Err(CommandError::UnknownCommand)
    );
    assert_eq!(
        Command::from_value(&Value::Array(vec![text("GET")])),
        Err(CommandError::InvalidUsage)
    );
    assert_eq!(
        Command::from_value(&Value::Array(vec![text("GET"), Value::Int(1)])),
        Err(CommandError::InvalidUsage)
    );
    assert_eq!(
        Command::from_value(&Value::Array(vec![text("GET"), text("a"), text("b")])),
        Err(CommandError::InvalidUsage)
    );
    assert_eq!(
        Command::from_value(&Value::Array(vec![text("SET"), text("k")])),
        Err(CommandError::InvalidUsage)
    );
    assert_eq!(
        Command::from_value(&Value::Array(vec![
            text("SET"),
            Value::SimpleString("k".to_string()),
            Value::Int(1)
        ])),
        Err(CommandError::InvalidUsage)
    );
    assert_eq!(
        Command::from_value(&Value::Array(vec![text("HELLO"), text("x")])),
        Err(CommandError::InvalidUsage)
    );
    assert_eq!(
        Command::from_value(&Value::Array(vec![text("SAVE"), text("x")])),
        Err(CommandError::InvalidUsage)
    );
    assert_eq!(
        Command::decode(b"+OK\r\nx"),
        Err(CommandError::Parse(ParseError::TrailingBytes))
    );
}

#[test]
fn command_error_messages() {
    assert_eq!(
        Command::decode_resp(":1\r\n".to_string()),
        Err("expected array of strings".to_string())
    );
    assert_eq!(
        Command::decode_resp("*1$3DEL\r\n\r\n".to_string()),
        Err("unknown command".to_string())
    );
    assert_eq!(
        Command::decode_resp("*1$3SET\r\n\r\n".to_string()),
        Err("invalid usage".to_string())
    );
    assert_eq!(
        Command::decode_resp("*1$3SET\r\n".to_string()),
        Err("expected line terminator".to_string())
    );
}

#[test]
fn response_wire_forms() {
    assert_eq!(Response::Success(Value::Int(3)).encode_resp(), ":3\r\n");
    assert_eq!(Response::Error("oops".to_string()).encode_resp(), "!4oops\r\n");
    assert_eq!(Response::Error(String::new()).encode(), b"!0\r\n");
}

#[test]
fn response_round_trip() {
    let responses = vec![
        Response::Success(Value::Null),
        Response::Success(Value::SimpleString("OK".to_string())),
        Response::Success(Value::Array(vec![text("a"), Value::Int(-1)])),
        Response::Error("expected end of string".to_string()),
        Response::Error(String::new()),
    ];
    for r in responses {
        let wire = r.clone().encode_resp();
        assert_eq!(Response::decode_resp(wire), Ok(r));
    }
}

#[test]
fn response_errors() {
    assert_eq!(Response::decode(b"!4oops"), Err(ParseError::MissingTerminator));
    assert_eq!(Response::decode(b"!9oops\r\n"), Err(ParseError::LengthMismatch));
    assert_eq!(Response::decode(b"!x\r\n"), Err(ParseError::BadNumber));
    assert_eq!(Response::decode(b"!0\r\n+"), Err(ParseError::TrailingBytes));
    assert_eq!(Response::decode(b""), Err(ParseError::UnknownPrefix));
    assert_eq!(
        Response::decode_resp("!1é\r\n".to_string()),
        Err("expected line terminator".to_string())
    );
}
