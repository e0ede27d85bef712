use rustdb::command::{parse_readable_command, Command};
use rustdb::value::Value;

fn text(s: &str) -> Value {
    Value::String(s.to_string())
}

fn set(key: &str, value: Value) -> Result<Command, String> {
    Ok(Command::SetKey(key.to_string(), value))
}

fn failure(message: &str) -> Result<Command, String> {
    Err(message.to_string())
}

#[test]
fn readable_names_in_any_case() {
    assert_eq!(parse_readable_command("GET foo"), Ok(Command::Get("foo".to_string())));
    assert_eq!(parse_readable_command("get foo"), Ok(Command::Get("foo".to_string())));
    assert_eq!(parse_readable_command("  GeT   foo  "), Ok(Command::Get("foo".to_string())));
    assert_eq!(parse_readable_command("GET\tfoo \r\n"), Ok(Command::Get("foo".to_string())));
    // a word ends at a space and at nothing else
    assert_eq!(parse_readable_command("GET\tfoo\r\n"), Ok(Command::Get("foo\r\n".to_string())));
    assert_eq!(parse_readable_command("inc counter"), Ok(Command::Inc("counter".to_string())));
    assert_eq!(parse_readable_command("Dec counter"), Ok(Command::Dec("counter".to_string())));
    assert_eq!(parse_readable_command("hello"), Ok(Command::Hello));
    assert_eq!(parse_readable_command("SAVE"), Ok(Command::Save));
    assert_eq!(parse_readable_command("GETfoo"), Ok(Command::Get("foo".to_string())));
}

#[test]
fn readable_values() {
    assert_eq!(parse_readable_command("SET key 5"), set("key", Value::Int(5)));
    assert_eq!(parse_readable_command("SET key -12"), set("key", Value::Int(-12)));
    assert_eq!(parse_readable_command("SET key +5"), set("key", Value::Int(5)));
    assert_eq!(parse_readable_command("SET key word"), set("key", text("word")));
    assert_eq!(
        parse_readable_command("SET key \"hello world\""),
        set("key", text("hello world"))
    );
    assert_eq!(parse_readable_command("SET key \"\""), set("key", text("")));
    assert_eq!(
        parse_readable_command("SET key \"unterminated"),
        set("key", text("\"unterminated"))
    );
    assert_eq!(parse_readable_command("SET \"a key\" 1"), set("a key", Value::Int(1)));
    assert_eq!(parse_readable_command("SET k a\tb"), set("k", text("a\tb")));
    assert_eq!(parse_readable_command("SET k héllo"), set("k", text("héllo")));
    assert_eq!(
        parse_readable_command("SET k 99999999999999999999"),
        set("k", text("99999999999999999999"))
    );
}

#[test]
fn readable_arrays() {
    assert_eq!(parse_readable_command("SET k []"), set("k", Value::Array(vec![])));
    assert_eq!(
        parse_readable_command("SET k [1,2,3]"),
        set("k", Value::Array(vec![Value::Int(1), Value::Int(2), Value::Int(3)]))
    );
    assert_eq!(
        parse_readable_command("SET k [1, 2]"),
        set("k", Value::Array(vec![Value::Int(1), Value::Int(2)]))
    );
    assert_eq!(
        parse_readable_command("SET k [[1],[2]]"),
        set(
            "k",
            Value::Array(vec![
                Value::Array(vec![Value::Int(1)]),
                Value::Array(vec![Value::Int(2)]),
            ])
        )
    );
    assert_eq!(
        parse_readable_command("SET k [\"a\",\"b c\"]"),
        set("k", Value::Array(vec![text("a"), text("b c")]))
    );
    // a word runs up to the next space, closing bracket included
    assert_eq!(parse_readable_command("SET k [a,b]"), set("k", text("[a,b]")));
    assert_eq!(parse_readable_command("SET k [1,]"), set("k", text("[1,]")));
    assert_eq!(parse_readable_command("SET k [1"), set("k", text("[1")));
}

#[test]
fn readable_failures() {
    assert_eq!(parse_readable_command(""), failure("Invalid command"));
    assert_eq!(parse_readable_command("   "), failure("Invalid command"));
    assert_eq!(parse_readable_command("FOO bar"), failure("Invalid command"));
    assert_eq!(parse_readable_command("GE"), failure("Invalid command"));
    assert_eq!(parse_readable_command("GET"), failure("Invalid usage: GET <key>"));
    assert_eq!(parse_readable_command("GET 5"), failure("Invalid usage: GET <key>"));
    assert_eq!(parse_readable_command("GET a b"), failure("Invalid usage: GET <key>"));
    assert_eq!(parse_readable_command("SET key"), failure("Invalid usage: SET <key> <value>"));
    assert_eq!(parse_readable_command("SET 1 2"), failure("Invalid usage: SET <key> <value>"));
    assert_eq!(
        parse_readable_command("SET k 12abc"),
        failure("Invalid usage: SET <key> <value>")
    );
    assert_eq!(parse_readable_command("INC"), failure("Invalid usage: INC <key>"));
    assert_eq!(parse_readable_command("DEC [1]"), failure("Invalid usage: DEC <key>"));
    assert_eq!(parse_readable_command("SAVE now"), failure("Invalid usage: SAVE"));
    assert_eq!(parse_readable_command("HELLO there"), failure("Invalid usage: HELLO"));
}
