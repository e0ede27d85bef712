use rustdb::command::Command;
use rustdb::server::{dispatch, save_reply, Action, Db};
use rustdb::table::Table;
use rustdb::value::Value;

fn store() -> Db {
    Db { table: Table::new(), path: None }
}

fn ok() -> Action {
    Action::Reply(Value::SimpleString("OK".to_string()))
}

fn error(message: &str) -> Action {
    Action::Reply(Value::SimpleError(message.to_string()))
}

#[test]
fn set_then_inc_and_dec() {
    let mut db = store();
    assert_eq!(dispatch(Command::SetKey("a".to_string(), Value::Int(1)), &mut db), ok());
    assert_eq!(dispatch(Command::Inc("a".to_string()), &mut db), ok());
    assert_eq!(db.table.get("a"), Some(Value::Int(2)));
    assert_eq!(dispatch(Command::Dec("a".to_string()), &mut db), ok());
    assert_eq!(dispatch(Command::Dec("a".to_string()), &mut db), ok());
    assert_eq!(db.table.get("a"), Some(Value::Int(0)));
    assert_eq!(
        dispatch(Command::Inc("missing".to_string()), &mut db),
        error("cannot increment non-integer")
    );
    assert_eq!(db.table.get("missing"), None);
}

#[test]
fn inc_on_five_gives_six() {
    let mut db = store();
    db.table.set("n".to_string(), Value::Int(5));
    assert_eq!(dispatch(Command::Inc("n".to_string()), &mut db), ok());
    assert_eq!(db.table.get("n"), Some(Value::Int(6)));
}

#[test]
fn inc_and_dec_on_what_is_no_integer_change_nothing() {
    let mut db = store();
    db.table.set("s".to_string(), Value::String("text".to_string()));
    let before = db.table.clone();
    assert_eq!(
        dispatch(Command::Inc("s".to_string()), &mut db),
        error("cannot increment non-integer")
    );
    assert_eq!(
        dispatch(Command::Dec("s".to_string()), &mut db),
        error("cannot decrement non-integer")
    );
    assert_eq!(
        dispatch(Command::Dec("absent".to_string()), &mut db),
        error("cannot decrement non-integer")
    );
    assert_eq!(db.table, before);
}

#[test]
fn inc_and_dec_at_the_limits_change_nothing() {
    let mut db = store();
    db.table.set("top".to_string(), Value::Int(i64::MAX));
    db.table.set("bottom".to_string(), Value::Int(i64::MIN));
    let before = db.table.clone();
    assert_eq!(
        dispatch(Command::Inc("top".to_string()), &mut db),
        error("cannot increment the largest integer")
    );
    assert_eq!(
        dispatch(Command::Dec("bottom".to_string()), &mut db),
        error("cannot decrement the smallest integer")
    );
    assert_eq!(db.table, before);
    assert_eq!(dispatch(Command::Dec("top".to_string()), &mut db), ok());
    assert_eq!(db.table.get("top"), Some(Value::Int(i64::MAX - 1)));
}

#[test]
fn get_gives_value_or_null() {
    let mut db = store();
    db.table.set("k".to_string(), Value::Array(vec![Value::Int(1)]));
    assert_eq!(
        dispatch(Command::Get("k".to_string()), &mut db),
        Action::Reply(Value::Array(vec![Value::Int(1)]))
    );
    assert_eq!(dispatch(Command::Get("none".to_string()), &mut db), Action::Reply(Value::Null));
}

#[test]
fn hello_answers_world() {
    let mut db = store();
    assert_eq!(
        dispatch(Command::Hello, &mut db),
        Action::Reply(Value::SimpleString("WORLD".to_string()))
    );
    assert_eq!(db.table, Table::new());
}

#[test]
fn save_without_a_path_is_ok() {
    let mut db = store();
    assert_eq!(dispatch(Command::Save, &mut db), ok());
    db.path = Some(String::new());
    assert_eq!(dispatch(Command::Save, &mut db), ok());
}

#[test]
fn save_with_a_path_asks_for_the_write() {
    let mut db = store();
    db.path = Some("db.bin".to_string());
    db.table.set("k".to_string(), Value::Int(1));
    assert_eq!(dispatch(Command::Save, &mut db), Action::Persist("db.bin".to_string()));
    assert_eq!(db.path, Some("db.bin".to_string()));
    assert_eq!(db.table.get("k"), Some(Value::Int(1)));
}

#[test]
fn save_reply_reports_the_outcome() {
    assert_eq!(save_reply(Ok(())), Value::SimpleString("OK".to_string()));
    assert_eq!(
        save_reply(Err("disk full".to_string())),
        Value::SimpleError("disk full".to_string())
    );
}
