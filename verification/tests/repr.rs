use rustdb::value::Value;

#[test]
fn string_repr_of_each_form() {
    assert_eq!(Value::String("hi".to_string()).string_repr(), "\"hi\"");
    assert_eq!(Value::Int(-7).string_repr(), "(integer) -7");
    assert_eq!(Value::Null.string_repr(), "(nil)");
    assert_eq!(Value::SimpleString("OK".to_string()).string_repr(), "(string) OK");
    assert_eq!(Value::SimpleError("no".to_string()).string_repr(), "(error) no");
    assert_eq!(Value::Array(vec![]).string_repr(), "[]");
    assert_eq!(Value::Array(vec![Value::Int(1)]).string_repr(), "[(integer) 1]");
    assert_eq!(
        Value::Array(vec![
            Value::String("a".to_string()),
            Value::Int(2),
            Value::Array(vec![Value::Null, Value::Null]),
        ])
        .string_repr(),
        "[\"a\", (integer) 2, [(nil), (nil)]]"
    );
}

#[test]
fn to_string_of_strings() {
    assert_eq!(Value::String("key".to_string()).to_string(), "key");
    assert_eq!(Value::SimpleString("OK".to_string()).to_string(), "OK");
}
