//! The commands of the store and their wire form: an array whose first item
//! names the command and whose other items are its arguments.

pub use crate::readable::parse_readable_command;
use crate::resp::{bulk_safe, ParseError, RESP};
use crate::utf8::str_eq;
use crate::value::{
    decode_value, lemma_value_round_trip, lemma_views, spec_decode_value, views, wire_safe,
    wire_value, Value, ValueView,
};
use vstd::prelude::*;
use vstd::string::StringExecFns;
use vstd::utf8::{encode_utf8, is_ascii_chars_encode_utf8};

verus! {

/// A command of the store.
#[derive(Debug, PartialEq)]
pub enum Command {
    /// Reads the value of a key.
    Get(String),
    /// Stores a value under a key.
    SetKey(String, Value),
    /// Adds one to the integer under a key.
    Inc(String),
    /// Takes one from the integer under a key.
    Dec(String),
    /// Asks whether the server is alive.
    Hello,
    /// Asks the server to persist the table.
    Save,
}

/// The mathematical content of a [`Command`].
pub enum CommandView {
    Get(Seq<char>),
    SetKey(Seq<char>, ValueView),
    Inc(Seq<char>),
    Dec(Seq<char>),
    Hello,
    Save,
}

impl View for Command {
    type V = CommandView;

    open spec fn view(&self) -> CommandView {
        match self {
            Command::Get(key) => CommandView::Get(key@),
            Command::SetKey(key, value) => CommandView::SetKey(key@, value@),
            Command::Inc(key) => CommandView::Inc(key@),
            Command::Dec(key) => CommandView::Dec(key@),
            Command::Hello => CommandView::Hello,
            Command::Save => CommandView::Save,
        }
    }
}

impl Clone for Command {
    fn clone(&self) -> (res: Self)
        ensures
            res@ == self@,
    {
        match self {
            Command::Get(key) => Command::Get(key.clone()),
            Command::SetKey(key, value) => Command::SetKey(key.clone(), value.clone()),
            Command::Inc(key) => Command::Inc(key.clone()),
            Command::Dec(key) => Command::Dec(key.clone()),
            Command::Hello => Command::Hello,
            Command::Save => Command::Save,
        }
    }
}

/// Why a message is not a command.
#[derive(Clone, Copy, Debug, PartialEq, Eq, Structural)]
pub enum CommandError {
    /// The message is not a well-formed value.
    Parse(ParseError),
    /// The value is not an array that starts with a string.
    ExpectedArray,
    /// The first string names no command.
    UnknownCommand,
    /// The command has the wrong number or the wrong kind of arguments.
    InvalidUsage,
}

impl CommandError {
    /// The text that describes this error.
    pub open spec fn spec_message(self) -> Seq<char> {
        match self {
            CommandError::Parse(e) => e.spec_message(),
            CommandError::ExpectedArray => "expected array of strings"@,
            CommandError::UnknownCommand => "unknown command"@,
            CommandError::InvalidUsage => "invalid usage"@,
        }
    }

    /// A description of this error for a human reader.
    pub fn message(&self) -> (r: String)
        ensures
            r@ == self.spec_message(),
    {
        match self {
            CommandError::Parse(e) => e.message(),
            CommandError::ExpectedArray => String::from_str("expected array of strings"),
            CommandError::UnknownCommand => String::from_str("unknown command"),
            CommandError::InvalidUsage => String::from_str("invalid usage"),
        }
    }
}

/// The value that stands for a command on the wire: an array of the
/// command's name in upper case and its arguments.
pub open spec fn command_value(c: CommandView) -> ValueView {
    match c {
        CommandView::Get(key) => ValueView::Array(
            seq![ValueView::String("GET"@), ValueView::String(key)],
        ),
        CommandView::SetKey(key, value) => ValueView::Array(
            seq![ValueView::String("SET"@), ValueView::String(key), value],
        ),
        CommandView::Inc(key) => ValueView::Array(
            seq![ValueView::String("INC"@), ValueView::String(key)],
        ),
        CommandView::Dec(key) => ValueView::Array(
            seq![ValueView::String("DEC"@), ValueView::String(key)],
        ),
        CommandView::Hello => ValueView::Array(seq![ValueView::String("HELLO"@)]),
        CommandView::Save => ValueView::Array(seq![ValueView::String("SAVE"@)]),
    }
}

/// The key of a command that takes a key and nothing else.
pub open spec fn spec_key_argument(items: Seq<ValueView>) -> Result<Seq<char>, CommandError> {
    if items.len() == 2 && items[1] is String {
        Ok(items[1]->String_0)
    } else {
        Err(CommandError::InvalidUsage)
    }
}

/// The command that a value stands for: the value is an array, its first
/// item is a string that names a command, and the other items are exactly
/// the arguments of that command.
pub open spec fn spec_command_of(v: ValueView) -> Result<CommandView, CommandError> {
    if !(v is Array) || v->Array_0.len() == 0 || !(v->Array_0[0] is String) {
        Err(CommandError::ExpectedArray)
    } else {
        let items = v->Array_0;
        let name = items[0]->String_0;
        if name == "GET"@ {
            match spec_key_argument(items) {
                Ok(key) => Ok(CommandView::Get(key)),
                Err(e) => Err(e),
            }
        } else if name == "SET"@ {
            if items.len() == 3 && items[1] is String {
                Ok(CommandView::SetKey(items[1]->String_0, items[2]))
            } else {
                Err(CommandError::InvalidUsage)
            }
        } else if name == "INC"@ {
            match spec_key_argument(items) {
                Ok(key) => Ok(CommandView::Inc(key)),
                Err(e) => Err(e),
            }
        } else if name == "DEC"@ {
            match spec_key_argument(items) {
                Ok(key) => Ok(CommandView::Dec(key)),
                Err(e) => Err(e),
            }
        } else if name == "HELLO"@ {
            if items.len() == 1 {
                Ok(CommandView::Hello)
            } else {
                Err(CommandError::InvalidUsage)
            }
        } else if name == "SAVE"@ {
            if items.len() == 1 {
                Ok(CommandView::Save)
            } else {
                Err(CommandError::InvalidUsage)
            }
        } else {
            Err(CommandError::UnknownCommand)
        }
    }
}

/// Reading a whole message as a command.
pub open spec fn spec_decode_command(input: Seq<u8>) -> Result<CommandView, CommandError> {
    match spec_decode_value(input) {
        Err(e) => Err(CommandError::Parse(e)),
        Ok(v) => spec_command_of(v),
    }
}

/// The key of a command that takes a key and nothing else.
fn key_argument(items: &Vec<Value>) -> (r: Result<String, CommandError>)
    ensures
        match spec_key_argument(views(items@)) {
            Ok(key) => r is Ok && r->Ok_0@ == key,
            Err(e) => r == Err::<String, CommandError>(e),
        },
{
    proof {
        lemma_views(items@);
    }
    if items.len() != 2 {
        return Err(CommandError::InvalidUsage);
    }
    match &items[1] {
        Value::String(key) => Ok(key.clone()),
        _ => Err(CommandError::InvalidUsage),
    }
}

impl Command {
    /// The value that stands for this command on the wire.
    pub fn to_value(self) -> (r: Value)
        ensures
            r@ == command_value(self@),
    {
        let mut items: Vec<Value> = Vec::new();
        match self {
            Command::Get(key) => {
                items.push(Value::String(String::from_str("GET")));
                items.push(Value::String(key));
            },
            Command::SetKey(key, value) => {
                items.push(Value::String(String::from_str("SET")));
                items.push(Value::String(key));
                items.push(value);
            },
            Command::Inc(key) => {
                items.push(Value::String(String::from_str("INC")));
                items.push(Value::String(key));
            },
            Command::Dec(key) => {
                items.push(Value::String(String::from_str("DEC")));
                items.push(Value::String(key));
            },
            Command::Hello => {
                items.push(Value::String(String::from_str("HELLO")));
            },
            Command::Save => {
                items.push(Value::String(String::from_str("SAVE")));
            },
        }
        proof {
            lemma_views(items@);
            assert(views(items@) =~= command_value(self@)->Array_0);
        }
        Value::Array(items)
    }

    /// The command that a value stands for.
    pub fn from_value(value: &Value) -> (r: Result<Command, CommandError>)
        ensures
            match spec_command_of(value@) {
                Ok(c) => r is Ok && r->Ok_0@ == c,
                Err(e) => r == Err::<Command, CommandError>(e),
            },
    {
        let items = match value {
            Value::Array(items) => items,
            _ => {
                return Err(CommandError::ExpectedArray);
            },
        };
        proof {
            lemma_views(items@);
        }
        if items.len() == 0 {
            return Err(CommandError::ExpectedArray);
        }
        let name = match &items[0] {
            Value::String(name) => name,
            _ => {
                return Err(CommandError::ExpectedArray);
            },
        };
        if str_eq(name.as_str(), "GET") {
            match key_argument(items) {
                Ok(key) => Ok(Command::Get(key)),
                Err(e) => Err(e),
            }
        } else if str_eq(name.as_str(), "SET") {
            if items.len() != 3 {
                return Err(CommandError::InvalidUsage);
            }
            match &items[1] {
                Value::String(key) => Ok(Command::SetKey(key.clone(), items[2].clone())),
                _ => Err(CommandError::InvalidUsage),
            }
        } else if str_eq(name.as_str(), "INC") {
            match key_argument(items) {
                Ok(key) => Ok(Command::Inc(key)),
                Err(e) => Err(e),
            }
        } else if str_eq(name.as_str(), "DEC") {
            match key_argument(items) {
                Ok(key) => Ok(Command::Dec(key)),
                Err(e) => Err(e),
            }
        } else if str_eq(name.as_str(), "HELLO") {
            if items.len() == 1 {
                Ok(Command::Hello)
            } else {
                Err(CommandError::InvalidUsage)
            }
        } else if str_eq(name.as_str(), "SAVE") {
            if items.len() == 1 {
                Ok(Command::Save)
            } else {
                Err(CommandError::InvalidUsage)
            }
        } else {
            Err(CommandError::UnknownCommand)
        }
    }

    /// Reads a whole message as a command.
    pub fn decode(input: &[u8]) -> (r: Result<Command, CommandError>)
        ensures
            match spec_decode_command(input@) {
                Ok(c) => r is Ok && r->Ok_0@ == c,
                Err(e) => r == Err::<Command, CommandError>(e),
            },
    {
        match decode_value(input) {
            Err(e) => Err(CommandError::Parse(e)),
            Ok(value) => Command::from_value(&value),
        }
    }
}

impl RESP for Command {
    fn encode_resp(self) -> (out: String)
        ensures
            encode_utf8(out@) == wire_value(command_value(self@)),
    {
        self.to_value().encode_resp()
    }

    fn decode_resp(s: String) -> (r: Result<Self, String>)
        ensures
            match spec_decode_command(encode_utf8(s@)) {
                Ok(c) => r is Ok && r->Ok_0@ == c,
                Err(e) => r is Err && r->Err_0@ == e.spec_message(),
            },
    {
        match Command::decode(s.as_str().as_bytes()) {
            Ok(command) => Ok(command),
            Err(e) => Err(e.message()),
        }
    }
}

/// The commands whose wire form reads back as the command itself: their
/// keys and values are ones that the wire form gives back.
pub open spec fn command_safe(c: CommandView) -> bool {
    match c {
        CommandView::Get(key) => bulk_safe(key),
        CommandView::SetKey(key, value) => bulk_safe(key) && wire_safe(value),
        CommandView::Inc(key) => bulk_safe(key),
        CommandView::Dec(key) => bulk_safe(key),
        CommandView::Hello => true,
        CommandView::Save => true,
    }
}

/// An upper-case ASCII word is a payload that the wire form gives back.
proof fn lemma_word_is_safe(word: Seq<char>)
    requires
        0 < word.len() <= 5,
        forall|i: int| 0 <= i < word.len() ==> 'A' <= #[trigger] word[i] <= 'Z',
    ensures
        bulk_safe(word),
{
    is_ascii_chars_encode_utf8(word);
}

/// The names of the commands differ from each other, and the wire form
/// gives each of them back.
pub proof fn lemma_command_names()
    ensures
        bulk_safe("GET"@),
        bulk_safe("SET"@),
        bulk_safe("INC"@),
        bulk_safe("DEC"@),
        bulk_safe("HELLO"@),
        bulk_safe("SAVE"@),
        "GET"@ != "SET"@ && "GET"@ != "INC"@ && "GET"@ != "DEC"@ && "GET"@ != "HELLO"@ && "GET"@
            != "SAVE"@,
        "SET"@ != "INC"@ && "SET"@ != "DEC"@ && "SET"@ != "HELLO"@ && "SET"@ != "SAVE"@,
        "INC"@ != "DEC"@ && "INC"@ != "HELLO"@ && "INC"@ != "SAVE"@,
        "DEC"@ != "HELLO"@ && "DEC"@ != "SAVE"@,
        "HELLO"@ != "SAVE"@,
{
    reveal_strlit("GET");
    reveal_strlit("SET");
    reveal_strlit("INC");
    reveal_strlit("DEC");
    reveal_strlit("HELLO");
    reveal_strlit("SAVE");
    lemma_word_is_safe("GET"@);
    lemma_word_is_safe("SET"@);
    lemma_word_is_safe("INC"@);
    lemma_word_is_safe("DEC"@);
    lemma_word_is_safe("HELLO"@);
    lemma_word_is_safe("SAVE"@);
    assert("GET"@[0] != "SET"@[0]);
    assert("GET"@[0] != "INC"@[0]);
    assert("GET"@[0] != "DEC"@[0]);
    assert("SET"@[0] != "INC"@[0]);
    assert("SET"@[0] != "DEC"@[0]);
    assert("INC"@[0] != "DEC"@[0]);
    assert("HELLO"@[0] != "SAVE"@[0]);
}

/// Writing a command and reading the whole message back gives the command.
pub proof fn lemma_command_round_trip(c: CommandView)
    requires
        command_safe(c),
    ensures
        wire_safe(command_value(c)),
        spec_command_of(command_value(c)) == Ok::<CommandView, CommandError>(c),
        spec_decode_command(wire_value(command_value(c))) == Ok::<CommandView, CommandError>(c),
{
    lemma_command_names();
    let items = command_value(c)->Array_0;
    assert(items[0] is String && wire_safe(items[0]));
    assert forall|i: int| 0 <= i < items.len() implies wire_safe(#[trigger] items[i]) by {
        if i == 1 {
            assert(items[1] is String && wire_safe(items[1]));
        }
    }
    assert(wire_safe(command_value(c)));
    lemma_value_round_trip(command_value(c));
}

} // verus!
