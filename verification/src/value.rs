//! The values that are stored in the table and exchanged on the wire.

use crate::decimal::{
    decimal, is_digit, lemma_decimal_is_digits, lemma_leading_digits_bound,
    lemma_parse_i64_of_decimal, lemma_parse_u64_of_decimal, parse_i64, parse_u64, push_decimal,
    push_signed_decimal, signed_decimal, spec_parse_i64, spec_parse_u64,
};
use crate::resp::{
    bulk_safe, crlf, find_crlf, has_crlf, has_prefix, lemma_parse_bulk_of_wire,
    lemma_parse_simple_of_wire, lemma_wire_bulk_is_text, lemma_wire_simple_is_text, line_safe,
    parse_bulk, parse_simple, push_bytes, push_crlf, spec_parse_bulk, spec_parse_simple,
    starts_with, wire_bulk, wire_simple, write_bulk, write_simple, ParseError, RESP,
};
use crate::utf8::{lemma_ascii_is_valid, text_of};
use vstd::pervasive::unreached;
use vstd::prelude::*;
use vstd::slice::slice_subrange;
use vstd::utf8::{encode_utf8, valid_utf8, valid_utf8_concat};

verus! {

/// A value of the store.
#[derive(Debug, PartialEq)]
pub enum Value {
    /// A length-prefixed string.
    String(String),
    /// A signed 64-bit integer.
    Int(i64),
    /// An ordered sequence of values, nested to any depth.
    Array(Vec<Value>),
    /// The absent value.
    Null,
    /// A short status string such as `OK`.
    SimpleString(String),
    /// A short error string.
    SimpleError(String),
}

/// The mathematical content of a [`Value`].
pub enum ValueView {
    String(Seq<char>),
    Int(i64),
    Array(Seq<ValueView>),
    Null,
    SimpleString(Seq<char>),
    SimpleError(Seq<char>),
}

impl View for Value {
    type V = ValueView;

    open spec fn view(&self) -> ValueView {
        value_view(*self)
    }
}

/// The content of a value: strings by their characters, arrays item by item.
pub open spec fn value_view(v: Value) -> ValueView
    decreases v,
{
    match v {
        Value::String(s) => ValueView::String(s@),
        Value::Int(i) => ValueView::Int(i),
        Value::Array(a) => ValueView::Array(views(a@)),
        Value::Null => ValueView::Null,
        Value::SimpleString(s) => ValueView::SimpleString(s@),
        Value::SimpleError(s) => ValueView::SimpleError(s@),
    }
}

/// The contents of a sequence of values, item by item.
pub open spec fn views(items: Seq<Value>) -> Seq<ValueView>
    decreases items,
{
    if items.len() == 0 {
        Seq::empty()
    } else {
        views(items.drop_last()).push(value_view(items.last()))
    }
}

/// `views` keeps the length and the order of the items.
pub proof fn lemma_views(items: Seq<Value>)
    ensures
        views(items).len() == items.len(),
        forall|i: int| 0 <= i < items.len() ==> (#[trigger] views(items)[i]) == items[i]@,
    decreases items.len(),
{
    if items.len() > 0 {
        lemma_views(items.drop_last());
    }
}

impl Clone for Value {
    fn clone(&self) -> (res: Self)
        ensures
            res@ == self@,
        decreases self,
    {
        match self {
            Value::String(s) => Value::String(s.clone()),
            Value::Int(i) => Value::Int(*i),
            Value::Array(a) => {
                let mut items: Vec<Value> = Vec::new();
                let mut i: usize = 0;
                while i < a.len()
                    invariant
                        0 <= i <= a.len(),
                        items@.len() == i,
                        self is Array,
                        self->Array_0 == *a,
                        forall|j: int| 0 <= j < i ==> (#[trigger] items@[j])@ == a@[j]@,
                    decreases a.len() - i,
                {
                    let item = a[i].clone();
                    items.push(item);
                    i = i + 1;
                }
                proof {
                    lemma_views(items@);
                    lemma_views(a@);
                    assert(views(items@) =~= views(a@));
                }
                Value::Array(items)
            },
            Value::Null => Value::Null,
            Value::SimpleString(s) => Value::SimpleString(s.clone()),
            Value::SimpleError(s) => Value::SimpleError(s.clone()),
        }
    }
}

/// The prefix of a length-prefixed string: `$`.
pub open spec fn bulk_prefix() -> Seq<u8> {
    seq![36u8]
}

/// The prefix of an integer: `:`.
pub open spec fn int_prefix() -> Seq<u8> {
    seq![58u8]
}

/// The prefix of an array: `*`.
pub open spec fn array_prefix() -> Seq<u8> {
    seq![42u8]
}

/// The prefix of a simple string: `+`.
pub open spec fn simple_string_prefix() -> Seq<u8> {
    seq![43u8]
}

/// The prefix of a simple error: `-`.
pub open spec fn simple_error_prefix() -> Seq<u8> {
    seq![45u8]
}

/// The wire form of the absent value: `$-1` and the terminator.
pub open spec fn null_wire() -> Seq<u8> {
    seq![36u8, 45u8, 49u8, 13u8, 10u8]
}

/// The wire form of a value.
pub open spec fn wire_value(v: ValueView) -> Seq<u8>
    decreases v,
{
    match v {
        ValueView::String(s) => wire_bulk(bulk_prefix(), s),
        ValueView::Int(i) => int_prefix() + signed_decimal(i as int) + crlf(),
        ValueView::Array(items) => array_prefix() + decimal(items.len()) + wire_items(items)
            + crlf(),
        ValueView::Null => null_wire(),
        ValueView::SimpleString(s) => wire_simple(simple_string_prefix(), s),
        ValueView::SimpleError(s) => wire_simple(simple_error_prefix(), s),
    }
}

/// The wire forms of the items of an array, one after the other.
pub open spec fn wire_items(items: Seq<ValueView>) -> Seq<u8>
    decreases items,
{
    if items.len() == 0 {
        Seq::empty()
    } else {
        wire_value(items.first()) + wire_items(items.drop_first())
    }
}

/// Reading the absent value.
pub open spec fn spec_parse_null(input: Seq<u8>) -> Result<(ValueView, Seq<u8>), ParseError> {
    if starts_with(input, null_wire()) {
        Ok((ValueView::Null, input.skip(5)))
    } else {
        Err(ParseError::UnknownPrefix)
    }
}

/// Reading a simple string.
pub open spec fn spec_parse_simple_string(input: Seq<u8>) -> Result<
    (ValueView, Seq<u8>),
    ParseError,
> {
    match spec_parse_simple(input, simple_string_prefix()) {
        Ok((s, rest)) => Ok((ValueView::SimpleString(s), rest)),
        Err(e) => Err(e),
    }
}

/// Reading a simple error.
pub open spec fn spec_parse_simple_error(input: Seq<u8>) -> Result<
    (ValueView, Seq<u8>),
    ParseError,
> {
    match spec_parse_simple(input, simple_error_prefix()) {
        Ok((s, rest)) => Ok((ValueView::SimpleError(s), rest)),
        Err(e) => Err(e),
    }
}

/// Reading a length-prefixed string.
pub open spec fn spec_parse_nonnull_string(input: Seq<u8>) -> Result<
    (ValueView, Seq<u8>),
    ParseError,
> {
    match spec_parse_bulk(input, bulk_prefix()) {
        Ok((s, rest)) => Ok((ValueView::String(s), rest)),
        Err(e) => Err(e),
    }
}

/// Reading an integer: its prefix, a signed decimal number, the terminator.
pub open spec fn spec_parse_int(input: Seq<u8>) -> Result<(ValueView, Seq<u8>), ParseError> {
    if !starts_with(input, int_prefix()) {
        Err(ParseError::UnknownPrefix)
    } else {
        match spec_parse_i64(input.skip(1)) {
            Err(e) => Err(e),
            Ok((i, rest)) => if starts_with(rest, crlf()) {
                Ok((ValueView::Int(i), rest.skip(2)))
            } else {
                Err(ParseError::MissingTerminator)
            },
        }
    }
}

/// Reading a value: the first byte decides the form, and the absent value is
/// tried before the length-prefixed string, with which it shares its prefix.
pub open spec fn spec_parse_value(input: Seq<u8>) -> Result<(ValueView, Seq<u8>), ParseError>
    decreases input.len(), 1nat,
{
    if input.len() == 0 {
        Err(ParseError::UnknownPrefix)
    } else if input[0] == 43 {
        spec_parse_simple_string(input)
    } else if input[0] == 45 {
        spec_parse_simple_error(input)
    } else if input[0] == 36 {
        if spec_parse_null(input) is Ok {
            spec_parse_null(input)
        } else {
            spec_parse_nonnull_string(input)
        }
    } else if input[0] == 58 {
        spec_parse_int(input)
    } else if input[0] == 42 {
        spec_parse_array(input)
    } else {
        Err(ParseError::UnknownPrefix)
    }
}

/// Reading an array: its prefix, the number of items in decimal, that many
/// values, the terminator.
pub open spec fn spec_parse_array(input: Seq<u8>) -> Result<(ValueView, Seq<u8>), ParseError>
    decreases input.len(), 0nat,
{
    if !starts_with(input, array_prefix()) {
        Err(ParseError::UnknownPrefix)
    } else {
        match spec_parse_u64(input.skip(1)) {
            Err(e) => Err(e),
            Ok((n, rest)) => {
                proof {
                    lemma_leading_digits_bound(input.skip(1));
                }
                match spec_parse_items(rest, n as nat) {
                    Err(e) => Err(e),
                    Ok((items, rest)) => if starts_with(rest, crlf()) {
                        Ok((ValueView::Array(items), rest.skip(2)))
                    } else {
                        Err(ParseError::MissingTerminator)
                    },
                }
            },
        }
    }
}

/// Reading `n` values in a row. Each of them takes at least one byte.
pub open spec fn spec_parse_items(input: Seq<u8>, n: nat) -> Result<
    (Seq<ValueView>, Seq<u8>),
    ParseError,
>
    decreases input.len(), 2nat,
{
    if n == 0 {
        Ok((Seq::empty(), input))
    } else {
        match spec_parse_value(input) {
            Err(e) => Err(e),
            Ok((v, rest)) => if rest.len() < input.len() {
                match spec_parse_items(rest, (n - 1) as nat) {
                    Err(e) => Err(e),
                    Ok((items, rest)) => Ok((seq![v] + items, rest)),
                }
            } else {
                Err(ParseError::LengthMismatch)
            },
        }
    }
}

/// Reading a whole message: one value, and nothing after it.
pub open spec fn spec_decode_value(input: Seq<u8>) -> Result<ValueView, ParseError> {
    match spec_parse_value(input) {
        Err(e) => Err(e),
        Ok((v, rest)) => if rest.len() == 0 {
            Ok(v)
        } else {
            Err(ParseError::TrailingBytes)
        },
    }
}

/// What a parser returned agrees with what the grammar says of its input.
pub open spec fn agrees<'a>(
    r: Result<(&'a [u8], Value), ParseError>,
    expected: Result<(ValueView, Seq<u8>), ParseError>,
) -> bool {
    match expected {
        Ok((v, rest)) => r is Ok && r->Ok_0.0@ == rest && r->Ok_0.1@ == v,
        Err(e) => r == Err::<(&'a [u8], Value), ParseError>(e),
    }
}

/// Puts the items already read in front of what the rest of the input gives.
pub open spec fn prepend(
    done: Seq<ValueView>,
    r: Result<(Seq<ValueView>, Seq<u8>), ParseError>,
) -> Result<(Seq<ValueView>, Seq<u8>), ParseError> {
    match r {
        Ok((items, rest)) => Ok((done + items, rest)),
        Err(e) => Err(e),
    }
}

fn parse_null(input: &[u8]) -> (r: Result<(&[u8], Value), ParseError>)
    ensures
        agrees(r, spec_parse_null(input@)),
{
    let word: [u8; 5] = [36u8, 45u8, 49u8, 13u8, 10u8];
    assert(word@ =~= null_wire());
    if has_prefix(input, word.as_slice()) {
        Ok((slice_subrange(input, 5, input.len()), Value::Null))
    } else {
        Err(ParseError::UnknownPrefix)
    }
}

fn parse_simple_string(input: &[u8]) -> (r: Result<(&[u8], Value), ParseError>)
    ensures
        agrees(r, spec_parse_simple_string(input@)),
{
    let prefix: [u8; 1] = [43u8];
    assert(prefix@ =~= simple_string_prefix());
    match parse_simple(input, prefix.as_slice()) {
        Ok((remaining, s)) => Ok((remaining, Value::SimpleString(s))),
        Err(e) => Err(e),
    }
}

fn parse_simple_error(input: &[u8]) -> (r: Result<(&[u8], Value), ParseError>)
    ensures
        agrees(r, spec_parse_simple_error(input@)),
{
    let prefix: [u8; 1] = [45u8];
    assert(prefix@ =~= simple_error_prefix());
    match parse_simple(input, prefix.as_slice()) {
        Ok((remaining, s)) => Ok((remaining, Value::SimpleError(s))),
        Err(e) => Err(e),
    }
}

fn parse_nonnull_string(input: &[u8]) -> (r: Result<(&[u8], Value), ParseError>)
    ensures
        agrees(r, spec_parse_nonnull_string(input@)),
{
    let prefix: [u8; 1] = [36u8];
    assert(prefix@ =~= bulk_prefix());
    match parse_bulk(input, prefix.as_slice()) {
        Ok((remaining, s)) => Ok((remaining, Value::String(s))),
        Err(e) => Err(e),
    }
}

fn parse_int(input: &[u8]) -> (r: Result<(&[u8], Value), ParseError>)
    ensures
        agrees(r, spec_parse_int(input@)),
{
    let prefix: [u8; 1] = [58u8];
    assert(prefix@ =~= int_prefix());
    if !has_prefix(input, prefix.as_slice()) {
        return Err(ParseError::UnknownPrefix);
    }
    match parse_i64(slice_subrange(input, 1, input.len())) {
        Err(e) => Err(e),
        Ok((remaining, i)) => {
            if has_crlf(remaining) {
                Ok((slice_subrange(remaining, 2, remaining.len()), Value::Int(i)))
            } else {
                Err(ParseError::MissingTerminator)
            }
        },
    }
}

fn parse_array(input: &[u8]) -> (r: Result<(&[u8], Value), ParseError>)
    ensures
        agrees(r, spec_parse_array(input@)),
    decreases input.len(), 0nat,
{
    let prefix: [u8; 1] = [42u8];
    assert(prefix@ =~= array_prefix());
    if !has_prefix(input, prefix.as_slice()) {
        return Err(ParseError::UnknownPrefix);
    }
    let after = slice_subrange(input, 1, input.len());
    let (first, len) = match parse_u64(after) {
        Ok(pair) => pair,
        Err(e) => {
            return Err(e);
        },
    };
    proof {
        lemma_leading_digits_bound(after@);
    }
    let mut remaining = first;
    let mut values: Vec<Value> = Vec::new();
    let mut count: u64 = 0;
    assert(views(values@) + Seq::<ValueView>::empty() =~= views(values@));
    while count < len
        invariant
            count <= len,
            remaining@.len() < input@.len(),
            starts_with(input@, array_prefix()),
            spec_parse_u64(input@.skip(1)) == Ok::<(u64, Seq<u8>), ParseError>((len, first@)),
            spec_parse_items(first@, len as nat) == prepend(
                views(values@),
                spec_parse_items(remaining@, (len - count) as nat),
            ),
        decreases len - count,
    {
        let ghost before = remaining@;
        let ghost done = views(values@);
        match parse_value(remaining) {
            Err(e) => {
                assert(spec_parse_items(before, (len - count) as nat) == Err::<
                    (Seq<ValueView>, Seq<u8>),
                    ParseError,
                >(e));
                return Err(e);
            },
            Ok((next, value)) => {
                proof {
                    lemma_parse_value_consumes(before);
                    let tail = spec_parse_items(next@, (len - count - 1) as nat);
                    assert(values@.push(value).drop_last() =~= values@);
                    if tail is Ok {
                        assert(done + (seq![value@] + tail->Ok_0.0) =~= done.push(value@)
                            + tail->Ok_0.0);
                    }
                }
                values.push(value);
                remaining = next;
            },
        }
        count = count + 1;
    }
    if has_crlf(remaining) {
        Ok((slice_subrange(remaining, 2, remaining.len()), Value::Array(values)))
    } else {
        Err(ParseError::MissingTerminator)
    }
}

/// Reads one value from the start of `input`, and returns what follows it
/// together with the value.
pub fn parse_value(input: &[u8]) -> (r: Result<(&[u8], Value), ParseError>)
    ensures
        agrees(r, spec_parse_value(input@)),
    decreases input.len(), 1nat,
{
    if input.len() == 0 {
        return Err(ParseError::UnknownPrefix);
    }
    let first: u8 = input[0];
    if first == 43 {
        parse_simple_string(input)
    } else if first == 45 {
        parse_simple_error(input)
    } else if first == 36 {
        match parse_null(input) {
            Ok(found) => Ok(found),
            Err(_) => parse_nonnull_string(input),
        }
    } else if first == 58 {
        parse_int(input)
    } else if first == 42 {
        parse_array(input)
    } else {
        Err(ParseError::UnknownPrefix)
    }
}

/// Reads a whole message: one value with nothing after it.
pub fn decode_value(input: &[u8]) -> (r: Result<Value, ParseError>)
    ensures
        match spec_decode_value(input@) {
            Ok(v) => r is Ok && r->Ok_0@ == v,
            Err(e) => r == Err::<Value, ParseError>(e),
        },
{
    match parse_value(input) {
        Err(e) => Err(e),
        Ok((remaining, value)) => {
            if remaining.len() == 0 {
                Ok(value)
            } else {
                Err(ParseError::TrailingBytes)
            }
        },
    }
}

/// A simple string that is read leaves less input than it was given.
pub proof fn lemma_parse_simple_consumes(input: Seq<u8>, prefix: Seq<u8>)
    ensures
        spec_parse_simple(input, prefix) is Ok ==> spec_parse_simple(input, prefix)->Ok_0.1.len()
            < input.len(),
{
    if starts_with(input, prefix) {
        let body = input.skip(prefix.len() as int);
        lemma_find_crlf_bound(body, 0);
    }
}

/// Where a terminator is found, it lies wholly within the input.
pub proof fn lemma_find_crlf_bound(s: Seq<u8>, from: int)
    requires
        0 <= from,
    ensures
        find_crlf(s, from) is Some ==> from <= find_crlf(s, from)->Some_0 && find_crlf(
            s,
            from,
        )->Some_0 + 2 <= s.len(),
    decreases s.len() - from,
{
    if from + 1 < s.len() && !(s[from] == 13 && s[from + 1] == 10) {
        lemma_find_crlf_bound(s, from + 1);
    }
}

/// A length-prefixed string that is read leaves less input than it was given.
pub proof fn lemma_parse_bulk_consumes(input: Seq<u8>, prefix: Seq<u8>)
    ensures
        spec_parse_bulk(input, prefix) is Ok ==> spec_parse_bulk(input, prefix)->Ok_0.1.len()
            < input.len(),
{
    if starts_with(input, prefix) {
        lemma_leading_digits_bound(input.skip(prefix.len() as int));
    }
}

/// A value that is read leaves less input than it was given.
pub proof fn lemma_parse_value_consumes(input: Seq<u8>)
    ensures
        spec_parse_value(input) is Ok ==> spec_parse_value(input)->Ok_0.1.len() < input.len(),
    decreases input.len(), 1nat,
{
    if input.len() == 0 {
    } else if input[0] == 43 {
        lemma_parse_simple_consumes(input, simple_string_prefix());
    } else if input[0] == 45 {
        lemma_parse_simple_consumes(input, simple_error_prefix());
    } else if input[0] == 36 {
        lemma_parse_bulk_consumes(input, bulk_prefix());
    } else if input[0] == 58 {
        if starts_with(input, int_prefix()) {
            let body = input.skip(1);
            let signed = body.len() > 0 && (body[0] == 45 || body[0] == 43);
            let digits = if signed { body.skip(1) } else { body };
            lemma_leading_digits_bound(digits);
        }
    } else if input[0] == 42 {
        if starts_with(input, array_prefix()) {
            lemma_leading_digits_bound(input.skip(1));
            match spec_parse_u64(input.skip(1)) {
                Ok((n, rest)) => {
                    lemma_parse_items_consumes(rest, n as nat);
                },
                Err(_) => {},
            }
        }
    }
}

/// Values that are read in a row leave no more input than they were given.
pub proof fn lemma_parse_items_consumes(input: Seq<u8>, n: nat)
    ensures
        spec_parse_items(input, n) is Ok ==> spec_parse_items(input, n)->Ok_0.1.len()
            <= input.len(),
    decreases input.len(), 2nat,
{
    if n > 0 {
        match spec_parse_value(input) {
            Ok((v, rest)) => {
                if rest.len() < input.len() {
                    lemma_parse_items_consumes(rest, (n - 1) as nat);
                }
            },
            Err(_) => {},
        }
    }
}

/// The wire form of a sequence of items grows at its end with each item.
pub proof fn lemma_wire_items_push(items: Seq<ValueView>, v: ValueView)
    ensures
        wire_items(items.push(v)) == wire_items(items) + wire_value(v),
    decreases items.len(),
{
    let all = items.push(v);
    if items.len() == 0 {
        assert(all.drop_first() =~= Seq::<ValueView>::empty());
        assert(all.first() == v);
        assert(wire_items(items) =~= Seq::<u8>::empty());
        assert(wire_items(all.drop_first()) =~= Seq::<u8>::empty());
        assert(wire_items(all) == wire_value(all.first()) + wire_items(all.drop_first()));
        assert(wire_items(all) =~= wire_value(v));
        assert(wire_items(items) + wire_value(v) =~= wire_value(v));
    } else {
        assert(all.first() == items.first());
        assert(all.drop_first() =~= items.drop_first().push(v));
        lemma_wire_items_push(items.drop_first(), v);
        assert(wire_items(all) =~= wire_items(items) + wire_value(v));
    }
}

/// Appends the wire form of `v` to `out`.
pub fn write_value(v: &Value, out: &mut Vec<u8>)
    ensures
        final(out)@ == old(out)@ + wire_value(v@),
    decreases v,
{
    match v {
        Value::String(s) => {
            let prefix: [u8; 1] = [36u8];
            assert(prefix@ =~= bulk_prefix());
            write_bulk(out, prefix.as_slice(), s.as_str());
        },
        Value::Int(i) => {
            out.push(58u8);
            push_signed_decimal(out, *i);
            push_crlf(out);
            assert(out@ =~= old(out)@ + wire_value(v@));
        },
        Value::Array(a) => {
            out.push(42u8);
            push_decimal(out, a.len() as u64);
            let ghost head = out@;
            let ghost items = views(a@);
            proof {
                lemma_views(a@);
                assert(items.take(0) =~= Seq::<ValueView>::empty());
                assert(head + wire_items(items.take(0)) =~= head);
            }
            let mut i: usize = 0;
            while i < a.len()
                invariant
                    0 <= i <= a.len(),
                    v is Array,
                    v->Array_0 == *a,
                    items == views(a@),
                    items.len() == a@.len(),
                    out@ == head + wire_items(items.take(i as int)),
                decreases a.len() - i,
            {
                proof {
                    lemma_views(a@);
                    lemma_wire_items_push(items.take(i as int), a@[i as int]@);
                    assert(items.take(i + 1) =~= items.take(i as int).push(a@[i as int]@));
                }
                write_value(&a[i], out);
                i = i + 1;
                assert(out@ =~= head + wire_items(items.take(i as int)));
            }
            push_crlf(out);
            proof {
                assert(items.take(a@.len() as int) =~= items);
                assert(out@ =~= old(out)@ + wire_value(v@));
            }
        },
        Value::Null => {
            let word: [u8; 5] = [36u8, 45u8, 49u8, 13u8, 10u8];
            assert(word@ =~= null_wire());
            push_bytes(out, word.as_slice());
        },
        Value::SimpleString(s) => {
            let prefix: [u8; 1] = [43u8];
            assert(prefix@ =~= simple_string_prefix());
            write_simple(out, prefix.as_slice(), s.as_str());
        },
        Value::SimpleError(s) => {
            let prefix: [u8; 1] = [45u8];
            assert(prefix@ =~= simple_error_prefix());
            write_simple(out, prefix.as_slice(), s.as_str());
        },
    }
}

/// The wire form of `v`, as bytes.
pub fn encode_value(v: &Value) -> (out: Vec<u8>)
    ensures
        out@ == wire_value(v@),
{
    let mut out: Vec<u8> = Vec::new();
    write_value(v, &mut out);
    assert(out@ =~= wire_value(v@));
    out
}

/// The values whose wire form reads back as the value itself: strings that
/// do not begin with a digit, simple strings and errors without a line
/// terminator, and arrays of such values.
pub open spec fn wire_safe(v: ValueView) -> bool
    decreases v,
{
    match v {
        ValueView::String(s) => bulk_safe(s),
        ValueView::Int(_) => true,
        ValueView::Array(items) => items.len() <= u64::MAX && forall|i: int|
            0 <= i < items.len() ==> wire_safe(#[trigger] items[i]),
        ValueView::Null => true,
        ValueView::SimpleString(s) => line_safe(s),
        ValueView::SimpleError(s) => line_safe(s),
    }
}

/// The wire form of a value is never empty, and begins with the byte that
/// names its form, which is no digit.
pub proof fn lemma_wire_value_first(v: ValueView)
    ensures
        wire_value(v).len() > 0,
        wire_value(v)[0] == match v {
            ValueView::String(_) => 36u8,
            ValueView::Int(_) => 58u8,
            ValueView::Array(_) => 42u8,
            ValueView::Null => 36u8,
            ValueView::SimpleString(_) => 43u8,
            ValueView::SimpleError(_) => 45u8,
        },
        !is_digit(wire_value(v)[0]),
{
}

/// The wire form of a value is valid text.
pub proof fn lemma_wire_value_is_text(v: ValueView)
    ensures
        valid_utf8(wire_value(v)),
    decreases v,
{
    lemma_ascii_is_valid(crlf());
    match v {
        ValueView::String(s) => {
            lemma_ascii_is_valid(bulk_prefix());
            lemma_wire_bulk_is_text(bulk_prefix(), s);
        },
        ValueView::Int(i) => {
            lemma_ascii_is_valid(int_prefix());
            let m: nat = if i < 0 { (-i) as nat } else { i as nat };
            lemma_decimal_is_digits(m);
            lemma_ascii_is_valid(signed_decimal(i as int));
            valid_utf8_concat(int_prefix(), signed_decimal(i as int));
            valid_utf8_concat(int_prefix() + signed_decimal(i as int), crlf());
        },
        ValueView::Array(items) => {
            lemma_ascii_is_valid(array_prefix());
            lemma_decimal_is_digits(items.len());
            lemma_ascii_is_valid(decimal(items.len()));
            lemma_wire_items_is_text(items);
            valid_utf8_concat(array_prefix(), decimal(items.len()));
            valid_utf8_concat(array_prefix() + decimal(items.len()), wire_items(items));
            valid_utf8_concat(
                array_prefix() + decimal(items.len()) + wire_items(items),
                crlf(),
            );
        },
        ValueView::Null => {
            lemma_ascii_is_valid(null_wire());
        },
        ValueView::SimpleString(s) => {
            lemma_ascii_is_valid(simple_string_prefix());
            lemma_wire_simple_is_text(simple_string_prefix(), s);
        },
        ValueView::SimpleError(s) => {
            lemma_ascii_is_valid(simple_error_prefix());
            lemma_wire_simple_is_text(simple_error_prefix(), s);
        },
    }
}

/// The wire forms of items in a row are valid text.
pub proof fn lemma_wire_items_is_text(items: Seq<ValueView>)
    ensures
        valid_utf8(wire_items(items)),
    decreases items,
{
    if items.len() == 0 {
        lemma_ascii_is_valid(wire_items(items));
    } else {
        lemma_wire_value_is_text(items.first());
        lemma_wire_items_is_text(items.drop_first());
        valid_utf8_concat(wire_value(items.first()), wire_items(items.drop_first()));
    }
}

/// Reading back the wire form of a value, whatever follows it: the value
/// comes out, and what followed is left.
pub proof fn lemma_parse_of_wire(v: ValueView, tail: Seq<u8>)
    requires
        wire_safe(v),
    ensures
        spec_parse_value(wire_value(v) + tail) == Ok::<(ValueView, Seq<u8>), ParseError>(
            (v, tail),
        ),
    decreases v,
{
    let input = wire_value(v) + tail;
    lemma_wire_value_first(v);
    assert(input[0] == wire_value(v)[0]);
    match v {
        ValueView::String(s) => {
            lemma_parse_bulk_of_wire(bulk_prefix(), s, tail);
            lemma_decimal_is_digits(encode_utf8(s).len());
            assert(input[1] == decimal(encode_utf8(s).len())[0]);
            if input.len() >= 5 {
                assert(input.take(5)[1] == input[1]);
            }
        },
        ValueView::Int(i) => {
            let after = crlf() + tail;
            assert(input =~= int_prefix() + (signed_decimal(i as int) + after));
            assert(input.take(1) =~= int_prefix());
            assert(input.skip(1) =~= signed_decimal(i as int) + after);
            assert(after[0] == 13);
            lemma_parse_i64_of_decimal(i, after);
            assert(after.take(2) =~= crlf());
            assert(after.skip(2) =~= tail);
        },
        ValueView::Array(items) => {
            let after = wire_items(items) + (crlf() + tail);
            assert(input =~= array_prefix() + (decimal(items.len()) + after));
            assert(input.take(1) =~= array_prefix());
            assert(input.skip(1) =~= decimal(items.len()) + after);
            if items.len() > 0 {
                lemma_wire_value_first(items.first());
                assert(wire_items(items) == wire_value(items.first()) + wire_items(
                    items.drop_first(),
                ));
                assert(after[0] == wire_value(items.first())[0]);
            } else {
                assert(wire_items(items) =~= Seq::<u8>::empty());
                assert(after[0] == 13);
            }
            lemma_parse_u64_of_decimal(items.len() as u64, after);
            lemma_parse_items_of_wire(items, crlf() + tail);
            assert((crlf() + tail).take(2) =~= crlf());
            assert((crlf() + tail).skip(2) =~= tail);
        },
        ValueView::Null => {
            assert(input.take(5) =~= null_wire());
            assert(input.skip(5) =~= tail);
        },
        ValueView::SimpleString(s) => {
            lemma_parse_simple_of_wire(simple_string_prefix(), s, tail);
        },
        ValueView::SimpleError(s) => {
            lemma_parse_simple_of_wire(simple_error_prefix(), s, tail);
        },
    }
}

/// Reading back the wire forms of items in a row, whatever follows them.
pub proof fn lemma_parse_items_of_wire(items: Seq<ValueView>, tail: Seq<u8>)
    requires
        forall|i: int| 0 <= i < items.len() ==> wire_safe(#[trigger] items[i]),
    ensures
        spec_parse_items(wire_items(items) + tail, items.len()) == Ok::<
            (Seq<ValueView>, Seq<u8>),
            ParseError,
        >((items, tail)),
    decreases items,
{
    let input = wire_items(items) + tail;
    if items.len() == 0 {
        assert(wire_items(items) =~= Seq::<u8>::empty());
        assert(input =~= tail);
        assert(items =~= Seq::<ValueView>::empty());
    } else {
        let first = items.first();
        let others = items.drop_first();
        let after = wire_items(others) + tail;
        assert(wire_safe(items[0]));
        assert forall|i: int| 0 <= i < others.len() implies wire_safe(#[trigger] others[i]) by {
            assert(others[i] == items[i + 1]);
        }
        assert(input =~= wire_value(first) + after);
        lemma_wire_value_first(first);
        lemma_parse_of_wire(first, after);
        lemma_parse_items_of_wire(others, tail);
        assert(seq![first] + others =~= items);
    }
}

/// Writing a value and reading the whole message back gives the value.
pub proof fn lemma_value_round_trip(v: ValueView)
    requires
        wire_safe(v),
    ensures
        spec_decode_value(wire_value(v)) == Ok::<ValueView, ParseError>(v),
{
    lemma_parse_of_wire(v, Seq::empty());
    assert(wire_value(v) + Seq::<u8>::empty() =~= wire_value(v));
}

impl RESP for Value {
    fn encode_resp(self) -> (out: String)
        ensures
            encode_utf8(out@) == wire_value(self@),
    {
        let bytes = encode_value(&self);
        proof {
            lemma_wire_value_is_text(self@);
        }
        match text_of(bytes.as_slice()) {
            Some(text) => text,
            None => unreached(),
        }
    }

    fn decode_resp(s: String) -> (r: Result<Self, String>)
        ensures
            match spec_decode_value(encode_utf8(s@)) {
                Ok(v) => r is Ok && r->Ok_0@ == v,
                Err(e) => r is Err && r->Err_0@ == e.spec_message(),
            },
    {
        match decode_value(s.as_str().as_bytes()) {
            Ok(value) => Ok(value),
            Err(e) => Err(e.message()),
        }
    }
}

/// How a value is shown to a human reader, as the bytes of the text:
/// strings in double quotes, integers after `(integer) `, arrays in square
/// brackets with `, ` between the items, the absent value as `(nil)`, simple
/// strings after `(string) ` and simple errors after `(error) `.
pub open spec fn spec_repr(v: ValueView) -> Seq<u8>
    decreases v,
{
    match v {
        ValueView::String(s) => encode_utf8("\""@) + encode_utf8(s) + encode_utf8("\""@),
        ValueView::Int(i) => encode_utf8("(integer) "@) + signed_decimal(i as int),
        ValueView::Array(items) => encode_utf8("["@) + spec_repr_items(items) + encode_utf8(
            "]"@,
        ),
        ValueView::Null => encode_utf8("(nil)"@),
        ValueView::SimpleString(s) => encode_utf8("(string) "@) + encode_utf8(s),
        ValueView::SimpleError(s) => encode_utf8("(error) "@) + encode_utf8(s),
    }
}

/// The items of an array as shown to a human reader, with `, ` between them.
pub open spec fn spec_repr_items(items: Seq<ValueView>) -> Seq<u8>
    decreases items,
{
    if items.len() == 0 {
        Seq::empty()
    } else if items.len() == 1 {
        spec_repr(items.first())
    } else {
        spec_repr_items(items.drop_last()) + encode_utf8(", "@) + spec_repr(items.last())
    }
}

/// What is shown of a value is valid text.
pub proof fn lemma_repr_is_text(v: ValueView)
    ensures
        valid_utf8(spec_repr(v)),
    decreases v,
{
    broadcast use vstd::utf8::encode_utf8_valid_utf8;

    match v {
        ValueView::String(s) => {
            valid_utf8_concat(encode_utf8("\""@), encode_utf8(s));
            valid_utf8_concat(encode_utf8("\""@) + encode_utf8(s), encode_utf8("\""@));
        },
        ValueView::Int(i) => {
            let m: nat = if i < 0 { (-i) as nat } else { i as nat };
            lemma_decimal_is_digits(m);
            lemma_ascii_is_valid(signed_decimal(i as int));
            valid_utf8_concat(encode_utf8("(integer) "@), signed_decimal(i as int));
        },
        ValueView::Array(items) => {
            lemma_repr_items_is_text(items);
            valid_utf8_concat(encode_utf8("["@), spec_repr_items(items));
            valid_utf8_concat(encode_utf8("["@) + spec_repr_items(items), encode_utf8("]"@));
        },
        ValueView::Null => {},
        ValueView::SimpleString(s) => {
            valid_utf8_concat(encode_utf8("(string) "@), encode_utf8(s));
        },
        ValueView::SimpleError(s) => {
            valid_utf8_concat(encode_utf8("(error) "@), encode_utf8(s));
        },
    }
}

/// What is shown of the items of an array is valid text.
pub proof fn lemma_repr_items_is_text(items: Seq<ValueView>)
    ensures
        valid_utf8(spec_repr_items(items)),
    decreases items,
{
    broadcast use vstd::utf8::encode_utf8_valid_utf8;

    if items.len() == 0 {
        lemma_ascii_is_valid(spec_repr_items(items));
    } else if items.len() == 1 {
        lemma_repr_is_text(items.first());
    } else {
        lemma_repr_items_is_text(items.drop_last());
        lemma_repr_is_text(items.last());
        valid_utf8_concat(spec_repr_items(items.drop_last()), encode_utf8(", "@));
        valid_utf8_concat(
            spec_repr_items(items.drop_last()) + encode_utf8(", "@),
            spec_repr(items.last()),
        );
    }
}

/// Appends to `out` what is shown of `v`.
fn write_repr(v: &Value, out: &mut Vec<u8>)
    ensures
        final(out)@ == old(out)@ + spec_repr(v@),
    decreases v,
{
    match v {
        Value::String(s) => {
            push_bytes(out, "\"".as_bytes());
            push_bytes(out, s.as_str().as_bytes());
            push_bytes(out, "\"".as_bytes());
            assert(out@ =~= old(out)@ + spec_repr(v@));
        },
        Value::Int(i) => {
            push_bytes(out, "(integer) ".as_bytes());
            push_signed_decimal(out, *i);
            assert(out@ =~= old(out)@ + spec_repr(v@));
        },
        Value::Array(a) => {
            push_bytes(out, "[".as_bytes());
            let ghost head = out@;
            let ghost items = views(a@);
            proof {
                lemma_views(a@);
                assert(items.take(0) =~= Seq::<ValueView>::empty());
                assert(head + spec_repr_items(items.take(0)) =~= head);
            }
            let mut i: usize = 0;
            while i < a.len()
                invariant
                    0 <= i <= a.len(),
                    v is Array,
                    v->Array_0 == *a,
                    items == views(a@),
                    items.len() == a@.len(),
                    out@ == head + spec_repr_items(items.take(i as int)),
                decreases a.len() - i,
            {
                proof {
                    lemma_views(a@);
                    let t = items.take(i + 1);
                    assert(t.drop_last() =~= items.take(i as int));
                    assert(t.last() == a@[i as int]@);
                    assert(t.first() == items[0]);
                }
                if i > 0 {
                    push_bytes(out, ", ".as_bytes());
                }
                write_repr(&a[i], out);
                i = i + 1;
                assert(out@ =~= head + spec_repr_items(items.take(i as int)));
            }
            push_bytes(out, "]".as_bytes());
            proof {
                assert(items.take(a@.len() as int) =~= items);
                assert(out@ =~= old(out)@ + spec_repr(v@));
            }
        },
        Value::Null => {
            push_bytes(out, "(nil)".as_bytes());
        },
        Value::SimpleString(s) => {
            push_bytes(out, "(string) ".as_bytes());
            push_bytes(out, s.as_str().as_bytes());
            assert(out@ =~= old(out)@ + spec_repr(v@));
        },
        Value::SimpleError(s) => {
            push_bytes(out, "(error) ".as_bytes());
            push_bytes(out, s.as_str().as_bytes());
            assert(out@ =~= old(out)@ + spec_repr(v@));
        },
    }
}

impl Value {
    /// The value as shown to a human reader.
    pub fn string_repr(&self) -> (r: String)
        ensures
            encode_utf8(r@) == spec_repr(self@),
    {
        let mut out: Vec<u8> = Vec::new();
        write_repr(self, &mut out);
        proof {
            assert(out@ =~= spec_repr(self@));
            lemma_repr_is_text(self@);
        }
        match text_of(out.as_slice()) {
            Some(text) => text,
            None => unreached(),
        }
    }

    /// The text of a string or of a simple string.
    pub fn to_string(&self) -> (r: String)
        requires
            self is String || self is SimpleString,
        ensures
            self is String ==> r@ == self->String_0@,
            self is SimpleString ==> r@ == self->SimpleString_0@,
    {
        match self {
            Value::SimpleString(s) => s.clone(),
            Value::String(s) => s.clone(),
            _ => unreached(),
        }
    }
}

} // verus!
