//! The responses of the server and their wire form: a value, or a protocol
//! error that carries its message as a length-prefixed string.

use crate::resp::{
    bulk_safe, lemma_parse_bulk_of_wire, lemma_wire_bulk_is_text, parse_bulk, spec_parse_bulk,
    wire_bulk, write_bulk, ParseError, RESP,
};
use crate::utf8::{lemma_ascii_is_valid, text_of};
use crate::value::{
    lemma_parse_of_wire, lemma_wire_value_first, lemma_wire_value_is_text, parse_value,
    spec_parse_value, wire_safe, wire_value, write_value, Value, ValueView,
};
use vstd::pervasive::unreached;
use vstd::prelude::*;
use vstd::utf8::encode_utf8;

verus! {

/// What the server answers: the value of a command that ran, or the message
/// of a protocol failure.
#[derive(Debug, PartialEq)]
pub enum Response {
    /// The command ran; this is its result.
    Success(Value),
    /// The request was not understood.
    Error(String),
}

/// The mathematical content of a [`Response`].
pub enum ResponseView {
    Success(ValueView),
    Error(Seq<char>),
}

impl View for Response {
    type V = ResponseView;

    open spec fn view(&self) -> ResponseView {
        match self {
            Response::Success(value) => ResponseView::Success(value@),
            Response::Error(message) => ResponseView::Error(message@),
        }
    }
}

impl Clone for Response {
    fn clone(&self) -> (res: Self)
        ensures
            res@ == self@,
    {
        match self {
            Response::Success(value) => Response::Success(value.clone()),
            Response::Error(message) => Response::Error(message.clone()),
        }
    }
}

/// The prefix of a protocol error: `!`.
pub open spec fn error_prefix() -> Seq<u8> {
    seq![33u8]
}

/// The wire form of a response: that of its value, or the error prefix and
/// the message as a length-prefixed string.
pub open spec fn wire_response(r: ResponseView) -> Seq<u8> {
    match r {
        ResponseView::Success(value) => wire_value(value),
        ResponseView::Error(message) => wire_bulk(error_prefix(), message),
    }
}

/// Reading a protocol error.
pub open spec fn spec_parse_error(input: Seq<u8>) -> Result<(ResponseView, Seq<u8>), ParseError> {
    match spec_parse_bulk(input, error_prefix()) {
        Ok((message, rest)) => Ok((ResponseView::Error(message), rest)),
        Err(e) => Err(e),
    }
}

/// Reading a successful response.
pub open spec fn spec_parse_success(input: Seq<u8>) -> Result<
    (ResponseView, Seq<u8>),
    ParseError,
> {
    match spec_parse_value(input) {
        Ok((value, rest)) => Ok((ResponseView::Success(value), rest)),
        Err(e) => Err(e),
    }
}

/// Reading a response: a protocol error where the input starts with the
/// error prefix, a value otherwise.
pub open spec fn spec_parse_response(input: Seq<u8>) -> Result<
    (ResponseView, Seq<u8>),
    ParseError,
> {
    if input.len() > 0 && input[0] == 33 {
        spec_parse_error(input)
    } else {
        spec_parse_success(input)
    }
}

/// Reading a whole message as a response.
pub open spec fn spec_decode_response(input: Seq<u8>) -> Result<ResponseView, ParseError> {
    match spec_parse_response(input) {
        Err(e) => Err(e),
        Ok((r, rest)) => if rest.len() == 0 {
            Ok(r)
        } else {
            Err(ParseError::TrailingBytes)
        },
    }
}

/// What a parser returned agrees with what the grammar says of its input.
pub open spec fn agrees<'a>(
    r: Result<(&'a [u8], Response), ParseError>,
    expected: Result<(ResponseView, Seq<u8>), ParseError>,
) -> bool {
    match expected {
        Ok((v, rest)) => r is Ok && r->Ok_0.0@ == rest && r->Ok_0.1@ == v,
        Err(e) => r == Err::<(&'a [u8], Response), ParseError>(e),
    }
}

fn parse_error(input: &[u8]) -> (r: Result<(&[u8], Response), ParseError>)
    ensures
        agrees(r, spec_parse_error(input@)),
{
    let prefix: [u8; 1] = [33u8];
    assert(prefix@ =~= error_prefix());
    match parse_bulk(input, prefix.as_slice()) {
        Ok((remaining, message)) => Ok((remaining, Response::Error(message))),
        Err(e) => Err(e),
    }
}

fn parse_success(input: &[u8]) -> (r: Result<(&[u8], Response), ParseError>)
    ensures
        agrees(r, spec_parse_success(input@)),
{
    match parse_value(input) {
        Ok((remaining, value)) => Ok((remaining, Response::Success(value))),
        Err(e) => Err(e),
    }
}

fn parse_response(input: &[u8]) -> (r: Result<(&[u8], Response), ParseError>)
    ensures
        agrees(r, spec_parse_response(input@)),
{
    if input.len() > 0 && input[0] == 33 {
        parse_error(input)
    } else {
        parse_success(input)
    }
}

impl Response {
    /// The wire form of this response, as bytes.
    pub fn encode(&self) -> (out: Vec<u8>)
        ensures
            out@ == wire_response(self@),
    {
        let mut out: Vec<u8> = Vec::new();
        match self {
            Response::Success(value) => {
                write_value(value, &mut out);
            },
            Response::Error(message) => {
                let prefix: [u8; 1] = [33u8];
                assert(prefix@ =~= error_prefix());
                write_bulk(&mut out, prefix.as_slice(), message.as_str());
            },
        }
        assert(out@ =~= wire_response(self@));
        out
    }

    /// Reads a whole message as a response.
    pub fn decode(input: &[u8]) -> (r: Result<Response, ParseError>)
        ensures
            match spec_decode_response(input@) {
                Ok(v) => r is Ok && r->Ok_0@ == v,
                Err(e) => r == Err::<Response, ParseError>(e),
            },
    {
        match parse_response(input) {
            Err(e) => Err(e),
            Ok((remaining, response)) => {
                if remaining.len() == 0 {
                    Ok(response)
                } else {
                    Err(ParseError::TrailingBytes)
                }
            },
        }
    }
}

/// The responses whose wire form reads back as the response itself.
pub open spec fn response_safe(r: ResponseView) -> bool {
    match r {
        ResponseView::Success(value) => wire_safe(value),
        ResponseView::Error(message) => bulk_safe(message),
    }
}

/// The wire form of a response is valid text.
pub proof fn lemma_wire_response_is_text(r: ResponseView)
    ensures
        vstd::utf8::valid_utf8(wire_response(r)),
{
    match r {
        ResponseView::Success(value) => {
            lemma_wire_value_is_text(value);
        },
        ResponseView::Error(message) => {
            lemma_ascii_is_valid(error_prefix());
            lemma_wire_bulk_is_text(error_prefix(), message);
        },
    }
}

/// Writing a response and reading the whole message back gives the response.
pub proof fn lemma_response_round_trip(r: ResponseView)
    requires
        response_safe(r),
    ensures
        spec_decode_response(wire_response(r)) == Ok::<ResponseView, ParseError>(r),
{
    let input = wire_response(r);
    assert(input + Seq::<u8>::empty() =~= input);
    match r {
        ResponseView::Success(value) => {
            lemma_wire_value_first(value);
            lemma_parse_of_wire(value, Seq::empty());
        },
        ResponseView::Error(message) => {
            lemma_parse_bulk_of_wire(error_prefix(), message, Seq::empty());
            assert(input[0] == 33);
        },
    }
}

impl RESP for Response {
    fn encode_resp(self) -> (out: String)
        ensures
            encode_utf8(out@) == wire_response(self@),
    {
        let bytes = self.encode();
        proof {
            lemma_wire_response_is_text(self@);
        }
        match text_of(bytes.as_slice()) {
            Some(text) => text,
            None => unreached(),
        }
    }

    fn decode_resp(s: String) -> (r: Result<Self, String>)
        ensures
            match spec_decode_response(encode_utf8(s@)) {
                Ok(v) => r is Ok && r->Ok_0@ == v,
                Err(e) => r is Err && r->Err_0@ == e.spec_message(),
            },
    {
        match Response::decode(s.as_str().as_bytes()) {
            Ok(response) => Ok(response),
            Err(e) => Err(e.message()),
        }
    }
}

} // verus!
