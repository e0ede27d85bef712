//! The wire format's shared pieces: the codec trait, the errors of a failed
//! parse, and the two string forms that values and responses are built from.

use crate::decimal::{
    decimal, lemma_decimal_is_digits, lemma_parse_u64_of_decimal, parse_u64, push_decimal,
    spec_parse_u64,
};
use crate::utf8::{lemma_ascii_is_valid, lemma_crlf_in_text, lemma_first_byte, spec_text, text_of};
use vstd::prelude::*;
use vstd::slice::slice_subrange;
use vstd::string::StringExecFns;
use vstd::utf8::{
    encode_utf8, encode_utf8_decode_utf8, encode_utf8_valid_utf8, valid_utf8, valid_utf8_concat,
};

verus! {

/// A type with a wire form: it can be written as text and read back.
pub trait RESP: Sized {
    /// The wire text of `self`.
    fn encode_resp(self) -> String;

    /// Reads a whole message; fails with a description of what is wrong.
    fn decode_resp(s: String) -> Result<Self, String>;
}

/// Why a byte string is not a well-formed wire message.
#[derive(Clone, Copy, Debug, PartialEq, Eq, Structural)]
pub enum ParseError {
    /// The input is empty or does not start with the expected prefix.
    UnknownPrefix,
    /// A number is missing, or does not fit its type.
    BadNumber,
    /// A declared length exceeds the input that is left.
    LengthMismatch,
    /// The two-byte line terminator is missing where one is required.
    MissingTerminator,
    /// A payload is not valid UTF-8 text.
    InvalidText,
    /// Bytes remain after a complete message.
    TrailingBytes,
}

impl ParseError {
    /// The text that describes this error.
    pub open spec fn spec_message(self) -> Seq<char> {
        match self {
            ParseError::UnknownPrefix => "unrecognized prefix"@,
            ParseError::BadNumber => "expected a number"@,
            ParseError::LengthMismatch => "declared length exceeds the input"@,
            ParseError::MissingTerminator => "expected line terminator"@,
            ParseError::InvalidText => "expected valid text"@,
            ParseError::TrailingBytes => "expected end of string"@,
        }
    }

    /// A description of this error for a human reader.
    pub fn message(&self) -> (r: String)
        ensures
            r@ == self.spec_message(),
    {
        match self {
            ParseError::UnknownPrefix => String::from_str("unrecognized prefix"),
            ParseError::BadNumber => String::from_str("expected a number"),
            ParseError::LengthMismatch => String::from_str("declared length exceeds the input"),
            ParseError::MissingTerminator => String::from_str("expected line terminator"),
            ParseError::InvalidText => String::from_str("expected valid text"),
            ParseError::TrailingBytes => String::from_str("expected end of string"),
        }
    }
}

/// The line terminator: carriage return, line feed.
pub open spec fn crlf() -> Seq<u8> {
    seq![13u8, 10u8]
}

/// True where `input` begins with `prefix`.
pub open spec fn starts_with(input: Seq<u8>, prefix: Seq<u8>) -> bool {
    prefix.len() <= input.len() && input.take(prefix.len() as int) == prefix
}

/// The position of the first line terminator in `s` at or after `from`.
pub open spec fn find_crlf(s: Seq<u8>, from: int) -> Option<int>
    decreases s.len() - from,
{
    if from < 0 || from + 1 >= s.len() {
        None
    } else if s[from] == 13 && s[from + 1] == 10 {
        Some(from)
    } else {
        find_crlf(s, from + 1)
    }
}

/// The wire form of a length-prefixed string: the prefix, the number of bytes
/// of the payload in decimal, the payload itself, and the terminator.
pub open spec fn wire_bulk(prefix: Seq<u8>, s: Seq<char>) -> Seq<u8> {
    prefix + decimal(encode_utf8(s).len()) + encode_utf8(s) + crlf()
}

/// The wire form of a simple string: the prefix, the text, and the terminator.
pub open spec fn wire_simple(prefix: Seq<u8>, s: Seq<char>) -> Seq<u8> {
    prefix + encode_utf8(s) + crlf()
}

/// Reading a length-prefixed string: after the prefix comes a decimal length,
/// then exactly that many bytes of payload, then the terminator. The payload
/// must be valid text.
pub open spec fn spec_parse_bulk(input: Seq<u8>, prefix: Seq<u8>) -> Result<
    (Seq<char>, Seq<u8>),
    ParseError,
> {
    if !starts_with(input, prefix) {
        Err(ParseError::UnknownPrefix)
    } else {
        match spec_parse_u64(input.skip(prefix.len() as int)) {
            Err(e) => Err(e),
            Ok((len, rest)) => {
                if rest.len() < len {
                    Err(ParseError::LengthMismatch)
                } else if !starts_with(rest.skip(len as int), crlf()) {
                    Err(ParseError::MissingTerminator)
                } else {
                    match spec_text(rest.take(len as int)) {
                        None => Err(ParseError::InvalidText),
                        Some(chars) => Ok((chars, rest.skip(len + 2))),
                    }
                }
            },
        }
    }
}

/// Reading a simple string: after the prefix, everything up to the first
/// terminator, which must be valid text.
pub open spec fn spec_parse_simple(input: Seq<u8>, prefix: Seq<u8>) -> Result<
    (Seq<char>, Seq<u8>),
    ParseError,
> {
    if !starts_with(input, prefix) {
        Err(ParseError::UnknownPrefix)
    } else {
        let body = input.skip(prefix.len() as int);
        match find_crlf(body, 0) {
            None => Err(ParseError::MissingTerminator),
            Some(at) => match spec_text(body.take(at)) {
                None => Err(ParseError::InvalidText),
                Some(chars) => Ok((chars, body.skip(at + 2))),
            },
        }
    }
}

/// Appends `bytes` to `out`.
pub fn push_bytes(out: &mut Vec<u8>, bytes: &[u8])
    ensures
        final(out)@ == old(out)@ + bytes@,
{
    out.extend_from_slice(bytes);
    assert(out@ =~= old(out)@ + bytes@);
}

/// Appends the line terminator to `out`.
pub fn push_crlf(out: &mut Vec<u8>)
    ensures
        final(out)@ == old(out)@ + crlf(),
{
    out.push(13u8);
    out.push(10u8);
    assert(out@ =~= old(out)@ + crlf());
}

/// Appends the wire form of a length-prefixed string to `out`.
pub fn write_bulk(out: &mut Vec<u8>, prefix: &[u8], s: &str)
    ensures
        final(out)@ == old(out)@ + wire_bulk(prefix@, s@),
{
    let payload = s.as_bytes();
    push_bytes(out, prefix);
    push_decimal(out, payload.len() as u64);
    push_bytes(out, payload);
    push_crlf(out);
    assert(out@ =~= old(out)@ + wire_bulk(prefix@, s@));
}

/// Appends the wire form of a simple string to `out`.
pub fn write_simple(out: &mut Vec<u8>, prefix: &[u8], s: &str)
    ensures
        final(out)@ == old(out)@ + wire_simple(prefix@, s@),
{
    push_bytes(out, prefix);
    push_bytes(out, s.as_bytes());
    push_crlf(out);
    assert(out@ =~= old(out)@ + wire_simple(prefix@, s@));
}

/// Tells whether `input` begins with `prefix`.
pub fn has_prefix(input: &[u8], prefix: &[u8]) -> (r: bool)
    ensures
        r == starts_with(input@, prefix@),
{
    if prefix.len() > input.len() {
        return false;
    }
    let mut i: usize = 0;
    while i < prefix.len()
        invariant
            0 <= i <= prefix.len() <= input.len(),
            forall|j: int| 0 <= j < i ==> input@[j] == prefix@[j],
        decreases prefix.len() - i,
    {
        if input[i] != prefix[i] {
            proof {
                assert(input@.take(prefix@.len() as int)[i as int] == input@[i as int]);
            }
            return false;
        }
        i = i + 1;
    }
    proof {
        assert(input@.take(prefix@.len() as int) =~= prefix@);
    }
    true
}

/// Tells whether `input` begins with the line terminator.
pub fn has_crlf(input: &[u8]) -> (r: bool)
    ensures
        r == starts_with(input@, crlf()),
{
    if input.len() >= 2 && input[0] == 13 && input[1] == 10 {
        proof {
            assert(input@.take(2) =~= crlf());
        }
        true
    } else {
        proof {
            if input.len() >= 2 {
                assert(input@.take(2)[0] == input@[0]);
                assert(input@.take(2)[1] == input@[1]);
            }
        }
        false
    }
}

/// Reads a length-prefixed string that starts with `prefix`, and returns what
/// follows it together with the payload.
pub fn parse_bulk<'a>(input: &'a [u8], prefix: &[u8]) -> (r: Result<(&'a [u8], String), ParseError>)
    ensures
        match spec_parse_bulk(input@, prefix@) {
            Ok((s, rest)) => r is Ok && r->Ok_0.0@ == rest && r->Ok_0.1@ == s,
            Err(e) => r == Err::<(&[u8], String), ParseError>(e),
        },
{
    if !has_prefix(input, prefix) {
        return Err(ParseError::UnknownPrefix);
    }
    let after = slice_subrange(input, prefix.len(), input.len());
    let (rest, len) = match parse_u64(after) {
        Ok(pair) => pair,
        Err(e) => {
            return Err(e);
        },
    };
    let available: u64 = rest.len() as u64;
    if available < len {
        return Err(ParseError::LengthMismatch);
    }
    let n: usize = len as usize;
    if !has_crlf(slice_subrange(rest, n, rest.len())) {
        return Err(ParseError::MissingTerminator);
    }
    match text_of(slice_subrange(rest, 0, n)) {
        None => Err(ParseError::InvalidText),
        Some(s) => Ok((slice_subrange(rest, n + 2, rest.len()), s)),
    }
}

/// Reads a simple string that starts with `prefix`, and returns what follows
/// its terminator together with the text.
pub fn parse_simple<'a>(input: &'a [u8], prefix: &[u8]) -> (r: Result<
    (&'a [u8], String),
    ParseError,
>)
    ensures
        match spec_parse_simple(input@, prefix@) {
            Ok((s, rest)) => r is Ok && r->Ok_0.0@ == rest && r->Ok_0.1@ == s,
            Err(e) => r == Err::<(&[u8], String), ParseError>(e),
        },
{
    if !has_prefix(input, prefix) {
        return Err(ParseError::UnknownPrefix);
    }
    let body = slice_subrange(input, prefix.len(), input.len());
    let mut at: usize = 0;
    while body.len() - at >= 2 && !(body[at] == 13 && body[at + 1] == 10)
        invariant
            0 <= at <= body.len(),
            find_crlf(body@, 0) == find_crlf(body@, at as int),
        decreases body.len() - at,
    {
        at = at + 1;
    }
    if body.len() - at < 2 {
        return Err(ParseError::MissingTerminator);
    }
    match text_of(slice_subrange(body, 0, at)) {
        None => Err(ParseError::InvalidText),
        Some(s) => Ok((slice_subrange(body, at + 2, body.len()), s)),
    }
}

/// True for the characters `0` to `9`, whose codes are 48 to 57.
pub open spec fn is_digit_char(c: char) -> bool {
    48 <= c as u32 <= 57
}

/// A payload that a length-prefixed string can carry and give back: it does
/// not begin with a digit, which the reader would take for part of the
/// length, and its length in bytes fits in 64 bits.
pub open spec fn bulk_safe(s: Seq<char>) -> bool {
    encode_utf8(s).len() <= u64::MAX && (s.len() == 0 || !is_digit_char(s[0]))
}

/// A text that a simple string can carry and give back: it holds no carriage
/// return followed by a line feed, at which the reader would stop.
pub open spec fn line_safe(s: Seq<char>) -> bool {
    forall|j: int| 0 <= j && j + 1 < s.len() ==> !(s[j] == '\r' && #[trigger] s[j + 1] == '\n')
}

/// The first terminator at or after `from` is the one at `at`, where none
/// starts before it.
pub proof fn lemma_find_crlf_first(s: Seq<u8>, from: int, at: int)
    requires
        0 <= from <= at,
        at + 1 < s.len(),
        s[at] == 13,
        s[at + 1] == 10,
        forall|j: int| from <= j < at ==> !(s[j] == 13 && #[trigger] s[j + 1] == 10),
    ensures
        find_crlf(s, from) == Some(at),
    decreases at - from,
{
    if from < at {
        assert(!(s[from] == 13 && s[from + 1] == 10));
        lemma_find_crlf_first(s, from + 1, at);
    }
}

/// Reading back a length-prefixed string, whatever follows it.
pub proof fn lemma_parse_bulk_of_wire(prefix: Seq<u8>, s: Seq<char>, tail: Seq<u8>)
    requires
        bulk_safe(s),
    ensures
        spec_parse_bulk(wire_bulk(prefix, s) + tail, prefix) == Ok::<
            (Seq<char>, Seq<u8>),
            ParseError,
        >((s, tail)),
{
    let bytes = encode_utf8(s);
    let input = wire_bulk(prefix, s) + tail;
    let after = bytes + crlf() + tail;
    let len = bytes.len() as u64;
    assert(input =~= prefix + (decimal(bytes.len()) + after));
    assert(input.take(prefix.len() as int) =~= prefix);
    assert(input.skip(prefix.len() as int) =~= decimal(bytes.len()) + after);
    lemma_first_byte(s);
    assert(after[0] == if bytes.len() == 0 { 13u8 } else { bytes[0] });
    lemma_parse_u64_of_decimal(len, after);
    assert(after.skip(len as int) =~= crlf() + tail);
    assert((crlf() + tail).take(2) =~= crlf());
    assert(after.take(len as int) =~= bytes);
    assert(after.skip(len + 2) =~= tail);
    encode_utf8_valid_utf8(s);
    encode_utf8_decode_utf8(s);
}

/// Reading back a simple string, whatever follows it.
pub proof fn lemma_parse_simple_of_wire(prefix: Seq<u8>, s: Seq<char>, tail: Seq<u8>)
    requires
        line_safe(s),
    ensures
        spec_parse_simple(wire_simple(prefix, s) + tail, prefix) == Ok::<
            (Seq<char>, Seq<u8>),
            ParseError,
        >((s, tail)),
{
    let bytes = encode_utf8(s);
    let input = wire_simple(prefix, s) + tail;
    let body = bytes + crlf() + tail;
    let at = bytes.len() as int;
    assert(input =~= prefix + body);
    assert(input.take(prefix.len() as int) =~= prefix);
    assert(input.skip(prefix.len() as int) =~= body);
    assert forall|j: int| 0 <= j < at implies !(body[j] == 13 && #[trigger] body[j + 1] == 10) by {
        if j + 1 < at {
            assert(body[j] == bytes[j]);
            assert(body[j + 1] == bytes[j + 1]);
            if bytes[j] == 13 && bytes[j + 1] == 10 {
                lemma_crlf_in_text(s, j);
            }
        } else {
            assert(body[j + 1] == 13);
        }
    }
    assert(body[at] == 13);
    assert(body[at + 1] == 10);
    lemma_find_crlf_first(body, 0, at);
    assert(body.take(at) =~= bytes);
    assert(body.skip(at + 2) =~= tail);
    encode_utf8_valid_utf8(s);
    encode_utf8_decode_utf8(s);
}

/// The wire form of a length-prefixed string is text, where its prefix is.
pub proof fn lemma_wire_bulk_is_text(prefix: Seq<u8>, s: Seq<char>)
    requires
        valid_utf8(prefix),
    ensures
        valid_utf8(wire_bulk(prefix, s)),
{
    let bytes = encode_utf8(s);
    lemma_decimal_is_digits(bytes.len());
    lemma_ascii_is_valid(decimal(bytes.len()));
    lemma_ascii_is_valid(crlf());
    encode_utf8_valid_utf8(s);
    valid_utf8_concat(prefix, decimal(bytes.len()));
    valid_utf8_concat(prefix + decimal(bytes.len()), bytes);
    valid_utf8_concat(prefix + decimal(bytes.len()) + bytes, crlf());
}

/// The wire form of a simple string is text, where its prefix is.
pub proof fn lemma_wire_simple_is_text(prefix: Seq<u8>, s: Seq<char>)
    requires
        valid_utf8(prefix),
    ensures
        valid_utf8(wire_simple(prefix, s)),
{
    lemma_ascii_is_valid(crlf());
    encode_utf8_valid_utf8(s);
    valid_utf8_concat(prefix, encode_utf8(s));
    valid_utf8_concat(prefix + encode_utf8(s), crlf());
}

} // verus!
