//! The dispatcher: what each command does to the table and what is answered.
//! The caller holds the lock on the store for the whole of one step, and
//! carries out the one action that touches the disk.

use crate::command::{Command, CommandView};
use crate::table::Table;
use crate::value::{Value, ValueView};
use vstd::prelude::*;
use vstd::string::StringExecFns;

verus! {

/// The store that the connections share: the table, and where it is
/// persisted, if anywhere.
pub struct Db {
    pub table: Table,
    pub path: Option<String>,
}

/// What follows a command: the answer, or a write to disk whose outcome
/// decides the answer.
#[derive(Debug, PartialEq)]
pub enum Action {
    /// Send this value back.
    Reply(Value),
    /// Write the table to this path, then answer with [`save_reply`].
    Persist(String),
}

/// The mathematical content of an [`Action`].
pub enum ActionView {
    Reply(ValueView),
    Persist(Seq<char>),
}

impl View for Action {
    type V = ActionView;

    open spec fn view(&self) -> ActionView {
        match self {
            Action::Reply(value) => ActionView::Reply(value@),
            Action::Persist(path) => ActionView::Persist(path@),
        }
    }
}

/// The path of a store, by its characters.
pub open spec fn path_view(path: Option<String>) -> Option<Seq<char>> {
    match path {
        Some(p) => Some(p@),
        None => None,
    }
}

/// The answer to a command that did what it was asked.
pub open spec fn ok_reply() -> ValueView {
    ValueView::SimpleString("OK"@)
}

/// The message for adding `delta` to what is no integer.
pub open spec fn not_an_integer(delta: int) -> Seq<char> {
    if delta > 0 {
        "cannot increment non-integer"@
    } else {
        "cannot decrement non-integer"@
    }
}

/// The message for adding `delta` to an integer that has reached its limit.
pub open spec fn out_of_range(delta: int) -> Seq<char> {
    if delta > 0 {
        "cannot increment the largest integer"@
    } else {
        "cannot decrement the smallest integer"@
    }
}

/// Adding `delta` to the integer under `key`: the table with the new integer
/// and the answer `OK`, or the table as it was and an error, where the key is
/// absent, holds no integer, or holds one at the limit of its range.
pub open spec fn spec_adjust(
    table: Map<Seq<char>, ValueView>,
    key: Seq<char>,
    delta: int,
) -> (Map<Seq<char>, ValueView>, ActionView) {
    if table.contains_key(key) && table[key] is Int {
        let sum = table[key]->Int_0 + delta;
        if i64::MIN <= sum <= i64::MAX {
            (table.insert(key, ValueView::Int(sum as i64)), ActionView::Reply(ok_reply()))
        } else {
            (table, ActionView::Reply(ValueView::SimpleError(out_of_range(delta))))
        }
    } else {
        (table, ActionView::Reply(ValueView::SimpleError(not_an_integer(delta))))
    }
}

/// What a command does: the table after it, and the action that follows.
/// `room` tells whether the table can take a key that it does not hold yet.
pub open spec fn spec_dispatch(
    command: CommandView,
    table: Map<Seq<char>, ValueView>,
    path: Option<Seq<char>>,
    room: bool,
) -> (Map<Seq<char>, ValueView>, ActionView) {
    match command {
        CommandView::Get(key) => (
            table,
            ActionView::Reply(
                if table.contains_key(key) {
                    table[key]
                } else {
                    ValueView::Null
                },
            ),
        ),
        CommandView::SetKey(key, value) => if room || table.contains_key(key) {
            (table.insert(key, value), ActionView::Reply(ok_reply()))
        } else {
            (table, ActionView::Reply(ValueView::SimpleError("table cannot grow"@)))
        },
        CommandView::Inc(key) => spec_adjust(table, key, 1),
        CommandView::Dec(key) => spec_adjust(table, key, -1),
        CommandView::Hello => (table, ActionView::Reply(ValueView::SimpleString("WORLD"@))),
        CommandView::Save => (
            table,
            if path is Some && path->Some_0.len() > 0 {
                ActionView::Persist(path->Some_0)
            } else {
                ActionView::Reply(ok_reply())
            },
        ),
    }
}

/// The answer `OK`.
fn reply_ok() -> (r: Action)
    ensures
        r@ == ActionView::Reply(ok_reply()),
{
    Action::Reply(Value::SimpleString(String::from_str("OK")))
}

/// Adds one to the integer under `key`, or takes one from it.
fn adjust(db: &mut Db, key: String, up: bool) -> (action: Action)
    requires
        old(db).table.wf(),
    ensures
        final(db).table.wf(),
        final(db).path == old(db).path,
        (final(db).table@, action@) == spec_adjust(
            old(db).table@,
            key@,
            if up {
                1
            } else {
                -1
            },
        ),
        final(db).table@ == old(db).table@ ==> final(db).table == old(db).table,
{
    match db.table.get(key.as_str()) {
        Some(Value::Int(i)) => {
            let next = if up { i.checked_add(1) } else { i.checked_sub(1) };
            match next {
                Some(n) => {
                    db.table.set(key, Value::Int(n));
                    proof {
                        if db.table@ == old(db).table@ {
                            assert(db.table@[key@] == ValueView::Int(n));
                        }
                    }
                    reply_ok()
                },
                None => Action::Reply(
                    Value::SimpleError(
                        if up {
                            String::from_str("cannot increment the largest integer")
                        } else {
                            String::from_str("cannot decrement the smallest integer")
                        },
                    ),
                ),
            }
        },
        _ => Action::Reply(
            Value::SimpleError(
                if up {
                    String::from_str("cannot increment non-integer")
                } else {
                    String::from_str("cannot decrement non-integer")
                },
            ),
        ),
    }
}

/// Runs one command against the store and says what follows: the answer, or
/// the write to disk that `Save` asks for where a path is configured.
pub fn dispatch(command: Command, db: &mut Db) -> (action: Action)
    requires
        old(db).table.wf(),
    ensures
        final(db).table.wf(),
        final(db).path == old(db).path,
        (final(db).table@, action@) == spec_dispatch(
            command@,
            old(db).table@,
            path_view(old(db).path),
            old(db).table.can_grow(),
        ),
        !(command@ is SetKey) && final(db).table@ == old(db).table@ ==> final(db).table == old(
            db,
        ).table,
{
    match command {
        Command::Get(key) => {
            match db.table.get(key.as_str()) {
                Some(value) => Action::Reply(value),
                None => Action::Reply(Value::Null),
            }
        },
        Command::SetKey(key, value) => {
            let room = db.table.has_room() || db.table.get(key.as_str()).is_some();
            if room {
                db.table.set(key, value);
                reply_ok()
            } else {
                Action::Reply(Value::SimpleError(String::from_str("table cannot grow")))
            }
        },
        Command::Inc(key) => adjust(db, key, true),
        Command::Dec(key) => adjust(db, key, false),
        Command::Hello => Action::Reply(Value::SimpleString(String::from_str("WORLD"))),
        Command::Save => {
            match &db.path {
                Some(path) => {
                    if path.as_str().unicode_len() > 0 {
                        Action::Persist(path.clone())
                    } else {
                        reply_ok()
                    }
                },
                None => reply_ok(),
            }
        },
    }
}

/// The answer to `Save` once the write has been tried: `OK`, or the failure
/// as an error of the command.
pub fn save_reply(written: Result<(), String>) -> (r: Value)
    ensures
        r@ == match written {
            Ok(_) => ok_reply(),
            Err(message) => ValueView::SimpleError(message@),
        },
{
    match written {
        Ok(_) => Value::SimpleString(String::from_str("OK")),
        Err(message) => Value::SimpleError(message),
    }
}

} // verus!
