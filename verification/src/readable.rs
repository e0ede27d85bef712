//! The commands as a person types them: a command name in any case, then its
//! arguments, separated by white space. An argument is a signed integer, an
//! array in square brackets with commas between its items, a string in
//! double quotes, or any run of characters up to the next space.

use crate::command::{Command, CommandView};
use crate::decimal::{lemma_leading_digits_bound, parse_i64, spec_parse_i64};
use crate::resp::starts_with;
use crate::utf8::{spec_text, text_of};
use crate::value::{lemma_views, views, Value, ValueView};
use vstd::prelude::*;
use vstd::slice::slice_subrange;
use vstd::string::StringExecFns;
use vstd::utf8::encode_utf8;

verus! {

/// True for a space, a tab, a carriage return and a line feed.
pub open spec fn is_space(b: u8) -> bool {
    b == 32 || b == 9 || b == 13 || b == 10
}

/// How many white-space bytes `s` starts with.
pub open spec fn leading_spaces(s: Seq<u8>) -> nat
    decreases s.len(),
{
    if s.len() > 0 && is_space(s[0]) {
        1 + leading_spaces(s.drop_first())
    } else {
        0
    }
}

/// `s` without the white space that it starts with.
pub open spec fn skip_spaces(s: Seq<u8>) -> Seq<u8> {
    s.skip(leading_spaces(s) as int)
}

/// How many bytes other than a space `s` starts with.
pub open spec fn leading_unspaced(s: Seq<u8>) -> nat
    decreases s.len(),
{
    if s.len() > 0 && s[0] != 32 {
        1 + leading_unspaced(s.drop_first())
    } else {
        0
    }
}

/// The position of the first double quote in `s` at or after `from`.
pub open spec fn find_quote(s: Seq<u8>, from: int) -> Option<int>
    decreases s.len() - from,
{
    if from < 0 || from >= s.len() {
        None
    } else if s[from] == 34 {
        Some(from)
    } else {
        find_quote(s, from + 1)
    }
}

/// An argument that is a signed integer.
pub open spec fn spec_readable_int(s: Seq<u8>) -> Option<(ValueView, Seq<u8>)> {
    match spec_parse_i64(s) {
        Ok((i, rest)) => Some((ValueView::Int(i), rest)),
        Err(_) => None,
    }
}

/// An argument in double quotes: the text up to the next double quote.
pub open spec fn spec_literal_string(s: Seq<u8>) -> Option<(ValueView, Seq<u8>)> {
    if s.len() > 0 && s[0] == 34 {
        match find_quote(s, 1) {
            Some(at) => match spec_text(s.subrange(1, at)) {
                Some(chars) => Some((ValueView::String(chars), s.skip(at + 1))),
                None => None,
            },
            None => None,
        }
    } else {
        None
    }
}

/// An argument without quotes: the text up to the next space, which must not
/// be empty.
pub open spec fn spec_unquoted_string(s: Seq<u8>) -> Option<(ValueView, Seq<u8>)> {
    let n = leading_unspaced(s) as int;
    if n == 0 {
        None
    } else {
        match spec_text(s.take(n)) {
            Some(chars) => Some((ValueView::String(chars), s.skip(n))),
            None => None,
        }
    }
}

/// An argument that is a string, in quotes or without.
pub open spec fn spec_readable_string(s: Seq<u8>) -> Option<(ValueView, Seq<u8>)> {
    match spec_literal_string(s) {
        Some(found) => Some(found),
        None => spec_unquoted_string(s),
    }
}

/// An argument, with the white space around it: an integer, else an array,
/// else a string.
pub open spec fn spec_readable_value(input: Seq<u8>) -> Option<(ValueView, Seq<u8>)>
    decreases input.len(), 2nat,
{
    let s = skip_spaces(input);
    let found = match spec_readable_int(s) {
        Some(found) => Some(found),
        None => {
            proof {
                lemma_leading_spaces_bound(input);
            }
            match spec_readable_array(s) {
                Some(found) => Some(found),
                None => spec_readable_string(s),
            }
        },
    };
    match found {
        Some((v, rest)) => Some((v, skip_spaces(rest))),
        None => None,
    }
}

/// An argument that is an array: `[]`, or an opening bracket, items with
/// commas between them, and a closing bracket.
pub open spec fn spec_readable_array(s: Seq<u8>) -> Option<(ValueView, Seq<u8>)>
    decreases s.len(), 1nat,
{
    if starts_with(s, seq![91u8, 93u8]) {
        Some((ValueView::Array(Seq::empty()), s.skip(2)))
    } else if s.len() > 0 && s[0] == 91 {
        let (items, rest) = spec_readable_list(s.skip(1));
        if rest.len() > 0 && rest[0] == 93 {
            Some((ValueView::Array(items), rest.skip(1)))
        } else {
            None
        }
    } else {
        None
    }
}

/// The items of an array: none where no argument can be read, else one
/// argument and what follows it.
pub open spec fn spec_readable_list(input: Seq<u8>) -> (Seq<ValueView>, Seq<u8>)
    decreases input.len(), 3nat,
{
    match spec_readable_value(input) {
        None => (Seq::empty(), input),
        Some((v, rest)) => if rest.len() < input.len() {
            let (more, end) = spec_readable_more(rest);
            (seq![v] + more, end)
        } else {
            (seq![v], rest)
        },
    }
}

/// The items of an array after the first: as long as a comma and an argument
/// follow, one more item. A comma that no argument follows is left unread.
pub open spec fn spec_readable_more(input: Seq<u8>) -> (Seq<ValueView>, Seq<u8>)
    decreases input.len(), 0nat,
{
    if input.len() > 0 && input[0] == 44 {
        match spec_readable_value(input.skip(1)) {
            None => (Seq::empty(), input),
            Some((v, rest)) => if rest.len() < input.len() {
                let (more, end) = spec_readable_more(rest);
                (seq![v] + more, end)
            } else {
                (seq![v], rest)
            },
        }
    } else {
        (Seq::empty(), input)
    }
}

/// The arguments of a command: as many as can be read, one after the other.
pub open spec fn spec_readable_args(input: Seq<u8>) -> (Seq<ValueView>, Seq<u8>)
    decreases input.len(),
{
    match spec_readable_value(input) {
        None => (Seq::empty(), input),
        Some((v, rest)) => if rest.len() < input.len() {
            let (more, end) = spec_readable_args(rest);
            (seq![v] + more, end)
        } else {
            (Seq::empty(), input)
        },
    }
}

/// White space at the start is no longer than the input.
pub proof fn lemma_leading_spaces_bound(s: Seq<u8>)
    ensures
        leading_spaces(s) <= s.len(),
        skip_spaces(s).len() <= s.len(),
        skip_spaces(s).len() > 0 ==> !is_space(skip_spaces(s)[0]),
    decreases s.len(),
{
    if s.len() > 0 && is_space(s[0]) {
        lemma_leading_spaces_bound(s.drop_first());
        assert(skip_spaces(s) =~= skip_spaces(s.drop_first()));
    } else {
        assert(skip_spaces(s) =~= s);
    }
}

/// The run of bytes other than a space at the start is no longer than the
/// input.
pub proof fn lemma_leading_unspaced_bound(s: Seq<u8>)
    ensures
        leading_unspaced(s) <= s.len(),
    decreases s.len(),
{
    if s.len() > 0 && s[0] != 32 {
        lemma_leading_unspaced_bound(s.drop_first());
    }
}

/// Where a double quote is found, it lies within the input.
pub proof fn lemma_find_quote_bound(s: Seq<u8>, from: int)
    requires
        0 <= from,
    ensures
        find_quote(s, from) is Some ==> from <= find_quote(s, from)->Some_0 < s.len(),
    decreases s.len() - from,
{
    if from < s.len() && s[from] != 34 {
        lemma_find_quote_bound(s, from + 1);
    }
}

/// An argument that is read leaves less input than it was given.
pub proof fn lemma_readable_value_consumes(input: Seq<u8>)
    ensures
        spec_readable_value(input) is Some ==> spec_readable_value(input)->Some_0.1.len()
            < input.len(),
    decreases input.len(), 2nat,
{
    let s = skip_spaces(input);
    lemma_leading_spaces_bound(input);
    if spec_readable_int(s) is Some {
        let signed = s.len() > 0 && (s[0] == 45 || s[0] == 43);
        let digits = if signed { s.skip(1) } else { s };
        lemma_leading_digits_bound(digits);
        lemma_leading_spaces_bound(spec_readable_int(s)->Some_0.1);
    } else if spec_readable_array(s) is Some {
        lemma_readable_array_consumes(s);
        lemma_leading_spaces_bound(spec_readable_array(s)->Some_0.1);
    } else if spec_readable_string(s) is Some {
        lemma_find_quote_bound(s, 1);
        lemma_leading_unspaced_bound(s);
        lemma_leading_spaces_bound(spec_readable_string(s)->Some_0.1);
    }
}

/// An array that is read leaves less input than it was given.
pub proof fn lemma_readable_array_consumes(s: Seq<u8>)
    ensures
        spec_readable_array(s) is Some ==> spec_readable_array(s)->Some_0.1.len() < s.len(),
    decreases s.len(), 1nat,
{
    if starts_with(s, seq![91u8, 93u8]) {
    } else if s.len() > 0 && s[0] == 91 {
        lemma_readable_list_consumes(s.skip(1));
    }
}

/// The items of an array leave no more input than they were given.
pub proof fn lemma_readable_list_consumes(input: Seq<u8>)
    ensures
        spec_readable_list(input).1.len() <= input.len(),
    decreases input.len(), 3nat,
{
    lemma_readable_value_consumes(input);
    match spec_readable_value(input) {
        None => {},
        Some((v, rest)) => {
            lemma_readable_more_consumes(rest);
        },
    }
}

/// The further items of an array leave no more input than they were given.
pub proof fn lemma_readable_more_consumes(input: Seq<u8>)
    ensures
        spec_readable_more(input).1.len() <= input.len(),
    decreases input.len(), 0nat,
{
    if input.len() > 0 && input[0] == 44 {
        lemma_readable_value_consumes(input.skip(1));
        match spec_readable_value(input.skip(1)) {
            None => {},
            Some((v, rest)) => {
                lemma_readable_more_consumes(rest);
            },
        }
    }
}

/// What a parser returned agrees with what the grammar says of its input.
pub open spec fn agrees<'a>(
    r: Option<(&'a [u8], Value)>,
    expected: Option<(ValueView, Seq<u8>)>,
) -> bool {
    match expected {
        Some((v, rest)) => r is Some && r->Some_0.0@ == rest && r->Some_0.1@ == v,
        None => r is None,
    }
}

/// Puts the items already read in front of what the rest of the input gives.
pub open spec fn prepend(done: Seq<ValueView>, r: (Seq<ValueView>, Seq<u8>)) -> (
    Seq<ValueView>,
    Seq<u8>,
) {
    (done + r.0, r.1)
}

/// Drops the white space that `input` starts with.
fn skip_white(input: &[u8]) -> (r: &[u8])
    ensures
        r@ == skip_spaces(input@),
{
    let mut n: usize = 0;
    assert(input@.skip(0) =~= input@);
    while n < input.len() && (input[n] == 32 || input[n] == 9 || input[n] == 13 || input[n] == 10)
        invariant
            0 <= n <= input.len(),
            leading_spaces(input@) == n + leading_spaces(input@.skip(n as int)),
        decreases input.len() - n,
    {
        proof {
            let s = input@.skip(n as int);
            assert(s[0] == input@[n as int]);
            assert(s.drop_first() =~= input@.skip(n + 1));
        }
        n = n + 1;
    }
    proof {
        let s = input@.skip(n as int);
        if n < input.len() {
            assert(s[0] == input@[n as int]);
        }
    }
    slice_subrange(input, n, input.len())
}

fn parse_readable_int(input: &[u8]) -> (r: Option<(&[u8], Value)>)
    ensures
        agrees(r, spec_readable_int(input@)),
{
    match parse_i64(input) {
        Ok((remaining, i)) => Some((remaining, Value::Int(i))),
        Err(_) => None,
    }
}

fn parse_literal_string(input: &[u8]) -> (r: Option<(&[u8], Value)>)
    ensures
        agrees(r, spec_literal_string(input@)),
{
    if input.len() == 0 || input[0] != 34 {
        return None;
    }
    let mut at: usize = 1;
    while at < input.len() && input[at] != 34
        invariant
            1 <= at <= input.len(),
            find_quote(input@, 1) == find_quote(input@, at as int),
        decreases input.len() - at,
    {
        at = at + 1;
    }
    if at >= input.len() {
        return None;
    }
    match text_of(slice_subrange(input, 1, at)) {
        Some(s) => Some((slice_subrange(input, at + 1, input.len()), Value::String(s))),
        None => None,
    }
}

fn parse_unquoted_string(input: &[u8]) -> (r: Option<(&[u8], Value)>)
    ensures
        agrees(r, spec_unquoted_string(input@)),
{
    let mut n: usize = 0;
    assert(input@.skip(0) =~= input@);
    while n < input.len() && input[n] != 32
        invariant
            0 <= n <= input.len(),
            leading_unspaced(input@) == n + leading_unspaced(input@.skip(n as int)),
        decreases input.len() - n,
    {
        proof {
            let s = input@.skip(n as int);
            assert(s[0] == input@[n as int]);
            assert(s.drop_first() =~= input@.skip(n + 1));
        }
        n = n + 1;
    }
    proof {
        let s = input@.skip(n as int);
        if n < input.len() {
            assert(s[0] == input@[n as int]);
        }
    }
    if n == 0 {
        return None;
    }
    match text_of(slice_subrange(input, 0, n)) {
        Some(s) => Some((slice_subrange(input, n, input.len()), Value::String(s))),
        None => None,
    }
}

fn parse_readable_string(input: &[u8]) -> (r: Option<(&[u8], Value)>)
    ensures
        agrees(r, spec_readable_string(input@)),
{
    match parse_literal_string(input) {
        Some(found) => Some(found),
        None => parse_unquoted_string(input),
    }
}

fn parse_readable_array(input: &[u8]) -> (r: Option<(&[u8], Value)>)
    ensures
        agrees(r, spec_readable_array(input@)),
    decreases input.len(), 1nat,
{
    let empty: [u8; 2] = [91u8, 93u8];
    assert(empty@ =~= seq![91u8, 93u8]);
    if crate::resp::has_prefix(input, empty.as_slice()) {
        let values: Vec<Value> = Vec::new();
        proof {
            lemma_views(values@);
            assert(views(values@) =~= Seq::<ValueView>::empty());
        }
        return Some((slice_subrange(input, 2, input.len()), Value::Array(values)));
    }
    if input.len() == 0 || input[0] != 91 {
        return None;
    }
    let after = slice_subrange(input, 1, input.len());
    let mut values: Vec<Value> = Vec::new();
    let mut remaining = after;
    proof {
        lemma_views(values@);
        lemma_readable_value_consumes(after@);
    }
    match parse_readable_value(after) {
        None => {},
        Some((next, value)) => {
            values.push(value);
            remaining = next;
            proof {
                lemma_views(values@);
                assert(views(values@) =~= seq![value@]);
                assert(seq![value@] + spec_readable_more(next@).0 =~= views(values@)
                    + spec_readable_more(next@).0);
            }
            loop
                invariant
                    remaining@.len() < input@.len(),
                    spec_readable_list(after@) == prepend(
                        views(values@),
                        spec_readable_more(remaining@),
                    ),
                ensures
                    spec_readable_list(after@) == (views(values@), remaining@),
                decreases remaining@.len(),
            {
                if remaining.len() == 0 || remaining[0] != 44 {
                    proof {
                        assert(views(values@) + Seq::<ValueView>::empty() =~= views(values@));
                    }
                    break;
                }
                let ghost before = remaining@;
                let ghost done = views(values@);
                proof {
                    lemma_readable_value_consumes(before.skip(1));
                }
                match parse_readable_value(slice_subrange(remaining, 1, remaining.len())) {
                    None => {
                        proof {
                            assert(done + Seq::<ValueView>::empty() =~= done);
                        }
                        break;
                    },
                    Some((next, value)) => {
                        proof {
                            assert(values@.push(value).drop_last() =~= values@);
                            assert(done + (seq![value@] + spec_readable_more(next@).0)
                                =~= done.push(value@) + spec_readable_more(next@).0);
                        }
                        values.push(value);
                        remaining = next;
                    },
                }
            }
        },
    }
    if remaining.len() > 0 && remaining[0] == 93 {
        Some((slice_subrange(remaining, 1, remaining.len()), Value::Array(values)))
    } else {
        None
    }
}

/// Reads one argument, with the white space around it.
fn parse_readable_value(input: &[u8]) -> (r: Option<(&[u8], Value)>)
    ensures
        agrees(r, spec_readable_value(input@)),
    decreases input.len(), 2nat,
{
    let s = skip_white(input);
    proof {
        lemma_leading_spaces_bound(input@);
    }
    let found = match parse_readable_int(s) {
        Some(found) => Some(found),
        None => match parse_readable_array(s) {
            Some(found) => Some(found),
            None => parse_readable_string(s),
        },
    };
    match found {
        Some((remaining, value)) => Some((skip_white(remaining), value)),
        None => None,
    }
}

/// The names of the commands.
#[derive(Clone, Copy, Debug, PartialEq, Eq, Structural)]
pub enum Keyword {
    Get,
    SetKey,
    Inc,
    Dec,
    Save,
    Hello,
}

impl Keyword {
    /// The name in upper case, as bytes.
    pub open spec fn word(self) -> Seq<u8> {
        match self {
            Keyword::Get => encode_utf8("GET"@),
            Keyword::SetKey => encode_utf8("SET"@),
            Keyword::Inc => encode_utf8("INC"@),
            Keyword::Dec => encode_utf8("DEC"@),
            Keyword::Save => encode_utf8("SAVE"@),
            Keyword::Hello => encode_utf8("HELLO"@),
        }
    }

    /// What is said where the command has the wrong arguments.
    pub open spec fn usage(self) -> Seq<char> {
        match self {
            Keyword::Get => "Invalid usage: GET <key>"@,
            Keyword::SetKey => "Invalid usage: SET <key> <value>"@,
            Keyword::Inc => "Invalid usage: INC <key>"@,
            Keyword::Dec => "Invalid usage: DEC <key>"@,
            Keyword::Save => "Invalid usage: SAVE"@,
            Keyword::Hello => "Invalid usage: HELLO"@,
        }
    }

    fn usage_text(&self) -> (r: String)
        ensures
            r@ == self.usage(),
    {
        match self {
            Keyword::Get => String::from_str("Invalid usage: GET <key>"),
            Keyword::SetKey => String::from_str("Invalid usage: SET <key> <value>"),
            Keyword::Inc => String::from_str("Invalid usage: INC <key>"),
            Keyword::Dec => String::from_str("Invalid usage: DEC <key>"),
            Keyword::Save => String::from_str("Invalid usage: SAVE"),
            Keyword::Hello => String::from_str("Invalid usage: HELLO"),
        }
    }
}

/// A letter in upper case; any other byte as it is.
pub open spec fn upper(b: u8) -> u8 {
    if 97 <= b <= 122 {
        (b - 32) as u8
    } else {
        b
    }
}

/// True where `s` begins with `word`, letters taken in either case.
pub open spec fn starts_with_word(s: Seq<u8>, word: Seq<u8>) -> bool {
    word.len() <= s.len() && forall|i: int|
        0 <= i < word.len() ==> upper(s[i]) == #[trigger] word[i]
}

/// The command name that `s` begins with: the first that fits, of `GET`,
/// `SET`, `INC`, `DEC`, `SAVE` and `HELLO`.
pub open spec fn spec_command_name(s: Seq<u8>) -> Option<(Keyword, Seq<u8>)> {
    if starts_with_word(s, Keyword::Get.word()) {
        Some((Keyword::Get, s.skip(Keyword::Get.word().len() as int)))
    } else if starts_with_word(s, Keyword::SetKey.word()) {
        Some((Keyword::SetKey, s.skip(Keyword::SetKey.word().len() as int)))
    } else if starts_with_word(s, Keyword::Inc.word()) {
        Some((Keyword::Inc, s.skip(Keyword::Inc.word().len() as int)))
    } else if starts_with_word(s, Keyword::Dec.word()) {
        Some((Keyword::Dec, s.skip(Keyword::Dec.word().len() as int)))
    } else if starts_with_word(s, Keyword::Save.word()) {
        Some((Keyword::Save, s.skip(Keyword::Save.word().len() as int)))
    } else if starts_with_word(s, Keyword::Hello.word()) {
        Some((Keyword::Hello, s.skip(Keyword::Hello.word().len() as int)))
    } else {
        None
    }
}

/// The key of a command whose only argument is a key.
pub open spec fn spec_only_key(args: Seq<ValueView>) -> Option<Seq<char>> {
    if args.len() == 1 && args[0] is String {
        Some(args[0]->String_0)
    } else {
        None
    }
}

/// The command that a name and its arguments make, or what is said of
/// arguments that do not fit the name.
pub open spec fn spec_command_from(word: Keyword, args: Seq<ValueView>) -> Result<
    CommandView,
    Seq<char>,
> {
    match word {
        Keyword::Get => match spec_only_key(args) {
            Some(key) => Ok(CommandView::Get(key)),
            None => Err(word.usage()),
        },
        Keyword::SetKey => if args.len() == 2 && args[0] is String {
            Ok(CommandView::SetKey(args[0]->String_0, args[1]))
        } else {
            Err(word.usage())
        },
        Keyword::Inc => match spec_only_key(args) {
            Some(key) => Ok(CommandView::Inc(key)),
            None => Err(word.usage()),
        },
        Keyword::Dec => match spec_only_key(args) {
            Some(key) => Ok(CommandView::Dec(key)),
            None => Err(word.usage()),
        },
        Keyword::Save => if args.len() == 0 {
            Ok(CommandView::Save)
        } else {
            Err(word.usage())
        },
        Keyword::Hello => if args.len() == 0 {
            Ok(CommandView::Hello)
        } else {
            Err(word.usage())
        },
    }
}

/// The command that a typed line stands for: white space, a command name,
/// white space, and arguments to the end of the line, which must fit the
/// name.
pub open spec fn spec_parse_readable_command(input: Seq<u8>) -> Result<CommandView, Seq<char>> {
    match spec_command_name(skip_spaces(input)) {
        None => Err("Invalid command"@),
        Some((word, rest)) => {
            let (args, end) = spec_readable_args(skip_spaces(rest));
            if end.len() == 0 {
                spec_command_from(word, args)
            } else {
                Err("Invalid command"@)
            }
        },
    }
}

/// Tells whether `input` begins with `word`, letters taken in either case.
fn has_word(input: &[u8], word: &[u8]) -> (r: bool)
    ensures
        r == starts_with_word(input@, word@),
{
    if word.len() > input.len() {
        return false;
    }
    let mut i: usize = 0;
    while i < word.len()
        invariant
            0 <= i <= word.len() <= input.len(),
            forall|j: int| 0 <= j < i ==> upper(input@[j]) == #[trigger] word@[j],
        decreases word.len() - i,
    {
        let b: u8 = input[i];
        let raised: u8 = if b >= 97 && b <= 122 { b - 32 } else { b };
        if raised != word[i] {
            assert(upper(input@[i as int]) != word@[i as int]);
            return false;
        }
        i = i + 1;
    }
    true
}

fn parse_command_name(input: &[u8]) -> (r: Option<(&[u8], Keyword)>)
    ensures
        match spec_command_name(input@) {
            Some((word, rest)) => r is Some && r->Some_0.0@ == rest && r->Some_0.1 == word,
            None => r is None,
        },
{
    if has_word(input, "GET".as_bytes()) {
        Some((slice_subrange(input, "GET".as_bytes().len(), input.len()), Keyword::Get))
    } else if has_word(input, "SET".as_bytes()) {
        Some((slice_subrange(input, "SET".as_bytes().len(), input.len()), Keyword::SetKey))
    } else if has_word(input, "INC".as_bytes()) {
        Some((slice_subrange(input, "INC".as_bytes().len(), input.len()), Keyword::Inc))
    } else if has_word(input, "DEC".as_bytes()) {
        Some((slice_subrange(input, "DEC".as_bytes().len(), input.len()), Keyword::Dec))
    } else if has_word(input, "SAVE".as_bytes()) {
        Some((slice_subrange(input, "SAVE".as_bytes().len(), input.len()), Keyword::Save))
    } else if has_word(input, "HELLO".as_bytes()) {
        Some((slice_subrange(input, "HELLO".as_bytes().len(), input.len()), Keyword::Hello))
    } else {
        None
    }
}

/// The key of a command whose only argument is a key.
fn only_key(args: &Vec<Value>) -> (r: Option<String>)
    ensures
        match spec_only_key(views(args@)) {
            Some(key) => r is Some && r->Some_0@ == key,
            None => r is None,
        },
{
    proof {
        lemma_views(args@);
    }
    if args.len() != 1 {
        return None;
    }
    match &args[0] {
        Value::String(key) => Some(key.clone()),
        _ => None,
    }
}

/// The command that a name and its arguments make.
fn command_from(word: Keyword, args: &Vec<Value>) -> (r: Result<Command, String>)
    ensures
        match spec_command_from(word, views(args@)) {
            Ok(c) => r is Ok && r->Ok_0@ == c,
            Err(message) => r is Err && r->Err_0@ == message,
        },
{
    proof {
        lemma_views(args@);
    }
    match word {
        Keyword::Get => match only_key(args) {
            Some(key) => Ok(Command::Get(key)),
            None => Err(word.usage_text()),
        },
        Keyword::SetKey => {
            if args.len() != 2 {
                return Err(word.usage_text());
            }
            match &args[0] {
                Value::String(key) => Ok(Command::SetKey(key.clone(), args[1].clone())),
                _ => Err(word.usage_text()),
            }
        },
        Keyword::Inc => match only_key(args) {
            Some(key) => Ok(Command::Inc(key)),
            None => Err(word.usage_text()),
        },
        Keyword::Dec => match only_key(args) {
            Some(key) => Ok(Command::Dec(key)),
            None => Err(word.usage_text()),
        },
        Keyword::Save => if args.len() == 0 {
            Ok(Command::Save)
        } else {
            Err(word.usage_text())
        },
        Keyword::Hello => if args.len() == 0 {
            Ok(Command::Hello)
        } else {
            Err(word.usage_text())
        },
    }
}

/// Reads a command as a person types it. Fails with `Invalid command` where
/// the line does not start with a command name, and with the usage of the
/// command where the arguments do not fit it.
pub fn parse_readable_command(input: &str) -> (r: Result<Command, String>)
    ensures
        match spec_parse_readable_command(encode_utf8(input@)) {
            Ok(c) => r is Ok && r->Ok_0@ == c,
            Err(message) => r is Err && r->Err_0@ == message,
        },
{
    let line = skip_white(input.as_bytes());
    let (after, word) = match parse_command_name(line) {
        Some(found) => found,
        None => {
            return Err(String::from_str("Invalid command"));
        },
    };
    let first = skip_white(after);
    let mut remaining = first;
    let mut args: Vec<Value> = Vec::new();
    proof {
        lemma_views(args@);
        assert(views(args@) =~= Seq::<ValueView>::empty());
    }
    loop
        invariant
            spec_readable_args(first@) == prepend(views(args@), spec_readable_args(remaining@)),
        ensures
            spec_readable_args(first@) == (views(args@), remaining@),
        decreases remaining@.len(),
    {
        let ghost before = remaining@;
        let ghost done = views(args@);
        proof {
            lemma_readable_value_consumes(before);
        }
        match parse_readable_value(remaining) {
            None => {
                proof {
                    assert(done + Seq::<ValueView>::empty() =~= done);
                }
                break;
            },
            Some((next, value)) => {
                proof {
                    assert(args@.push(value).drop_last() =~= args@);
                    assert(done + (seq![value@] + spec_readable_args(next@).0) =~= done.push(
                        value@,
                    ) + spec_readable_args(next@).0);
                }
                args.push(value);
                remaining = next;
            },
        }
    }
    if remaining.len() != 0 {
        return Err(String::from_str("Invalid command"));
    }
    command_from(word, &args)
}

} // verus!
