//! Text as UTF-8 bytes: the one place where bytes become `str`.

use vstd::prelude::*;
use vstd::string::StringSliceAdditionalSpecFns;
use vstd::utf8::*;

verus! {

/// `core::str::from_utf8`: the bytes seen as text, where they are valid UTF-8,
/// and nothing where they are not. The text holds exactly the bytes given.
#[verifier::external_body]
pub(crate) fn utf8_text(bytes: &[u8]) -> (r: Option<&str>)
    ensures
        r is Some <==> valid_utf8(bytes@),
        r is Some ==> r->Some_0.spec_bytes() == bytes@,
{
    match core::str::from_utf8(bytes) {
        Ok(text) => Some(text),
        Err(_) => None,
    }
}

/// The characters that a byte string spells, where it is valid UTF-8.
pub open spec fn spec_text(bytes: Seq<u8>) -> Option<Seq<char>> {
    if valid_utf8(bytes) {
        Some(decode_utf8(bytes))
    } else {
        None
    }
}

/// Turns bytes into an owned string, where they are valid UTF-8.
pub fn text_of(bytes: &[u8]) -> (r: Option<String>)
    ensures
        match spec_text(bytes@) {
            Some(chars) => r is Some && r->Some_0@ == chars && encode_utf8(chars) == bytes@,
            None => r is None,
        },
{
    match utf8_text(bytes) {
        Some(text) => {
            proof {
                encode_utf8_decode_utf8(text@);
            }
            Some(text.to_owned())
        },
        None => None,
    }
}

/// Bytes below 128 are valid UTF-8 on their own.
pub proof fn lemma_ascii_is_valid(bytes: Seq<u8>)
    requires
        forall|i: int| 0 <= i < bytes.len() ==> #[trigger] bytes[i] < 128,
    ensures
        valid_utf8(bytes),
    decreases bytes.len(),
{
    if bytes.len() > 0 {
        let b = bytes[0];
        assert(is_leading_byte_width_1(b)) by (bit_vector)
            requires
                b < 128,
        ;
        assert(not_surrogate(codepoint_width_1(b)) && not_overlong_encoding(
            codepoint_width_1(b),
            1,
        ) && codepoint_width_1(b) <= 0x10ffff) by (bit_vector)
            requires
                b < 128,
        ;
        assert(pop_first_scalar(bytes) =~= bytes.drop_first());
        lemma_ascii_is_valid(bytes.drop_first());
    }
}

/// The bytes of one character: the character itself where it is ASCII, and
/// bytes of 128 and above where it is not.
pub proof fn lemma_scalar_bytes(c: char)
    ensures
        encode_scalar(c as u32).len() >= 1,
        (c as u32) < 128 ==> encode_scalar(c as u32) == seq![c as u8] && (c as u8) as u32
            == c as u32,
        (c as u32) >= 128 ==> forall|k: int|
            0 <= k < encode_scalar(c as u32).len() ==> #[trigger] encode_scalar(c as u32)[k]
                >= 128,
{
    let v = c as u32;
    char_is_scalar(c);
    if has_width_1_encoding(v) {
        assert((v & 0x7F) as u8 == v as u8) by (bit_vector)
            requires
                v <= 0x7F,
        ;
        assert((v as u8) as u32 == v) by (bit_vector)
            requires
                v <= 0x7F,
        ;
        assert(v as u8 == c as u8);
        assert(encode_scalar(v) =~= seq![c as u8]);
    } else {
        assert(0x80u8 | (v & 0x3F) as u8 >= 128) by (bit_vector);
        assert(0x80u8 | ((v >> 6) & 0x3F) as u8 >= 128) by (bit_vector);
        assert(0x80u8 | ((v >> 12) & 0x3F) as u8 >= 128) by (bit_vector);
        assert(0xC0u8 | ((v >> 6) & 0x1F) as u8 >= 128) by (bit_vector);
        assert(0xE0u8 | ((v >> 12) & 0x0F) as u8 >= 128) by (bit_vector);
        assert(0xF0u8 | ((v >> 18) & 0x7) as u8 >= 128) by (bit_vector);
    }
}

/// The first byte of a text is its first character where that is ASCII, and
/// a byte of 128 or above where it is not.
pub proof fn lemma_first_byte(s: Seq<char>)
    ensures
        s.len() == 0 ==> encode_utf8(s).len() == 0,
        s.len() > 0 ==> encode_utf8(s).len() > 0,
        s.len() > 0 && (s[0] as u32) < 128 ==> encode_utf8(s)[0] == s[0] as u8 && encode_utf8(
            s,
        )[0] as u32 == s[0] as u32,
        s.len() > 0 && (s[0] as u32) >= 128 ==> encode_utf8(s)[0] >= 128,
{
    if s.len() > 0 {
        lemma_scalar_bytes(s[0]);
        let head = encode_scalar(s[0] as u32);
        assert(encode_utf8(s)[0] == head[0]);
    }
}

/// A line terminator among the bytes of a text is a carriage return followed
/// by a line feed among its characters.
pub proof fn lemma_crlf_in_text(s: Seq<char>, at: int)
    requires
        0 <= at,
        at + 1 < encode_utf8(s).len(),
        encode_utf8(s)[at] == 13,
        encode_utf8(s)[at + 1] == 10,
    ensures
        exists|j: int| 0 <= j && j + 1 < s.len() && s[j] == '\r' && #[trigger] s[j + 1] == '\n',
    decreases s.len(),
{
    lemma_first_byte(s);
    let head = encode_scalar(s[0] as u32);
    let tail = s.drop_first();
    let rest = encode_utf8(tail);
    lemma_scalar_bytes(s[0]);
    assert(encode_utf8(s) == head + rest);
    if at >= head.len() {
        assert(rest[at - head.len()] == 13);
        assert(rest[at + 1 - head.len()] == 10);
        lemma_crlf_in_text(tail, at - head.len());
        let j = choose|j: int|
            0 <= j && j + 1 < tail.len() && tail[j] == '\r' && #[trigger] tail[j + 1] == '\n';
        assert(s[j + 1] == '\r' && s[j + 1 + 1] == '\n');
    } else {
        assert(head[at] == 13);
        assert((s[0] as u32) < 128);
        assert(at == 0 && s[0] as u8 == 13);
        assert(rest[0] == 10);
        lemma_first_byte(tail);
        assert(tail.len() > 0 && (tail[0] as u32) < 128 && tail[0] as u8 == 10);
        lemma_scalar_bytes(tail[0]);
        char_u32_cast(s[0], 13u32);
        char_u32_cast(tail[0], 10u32);
        let j = 0int;
        assert(s[j + 1] == tail[0]);
        assert(s[j] == '\r' && s[j + 1] == '\n');
    }
}

/// Two strings with the same bytes are the same string.
pub proof fn lemma_same_bytes_same_text(a: Seq<char>, b: Seq<char>)
    requires
        encode_utf8(a) == encode_utf8(b),
    ensures
        a == b,
{
    encode_utf8_decode_utf8(a);
    encode_utf8_decode_utf8(b);
}

/// Tells whether two strings hold the same characters.
pub fn str_eq(a: &str, b: &str) -> (r: bool)
    ensures
        r == (a@ == b@),
{
    let x = a.as_bytes();
    let y = b.as_bytes();
    if x.len() != y.len() {
        return false;
    }
    let mut i: usize = 0;
    while i < x.len()
        invariant
            0 <= i <= x.len(),
            x.len() == y.len(),
            x@ == encode_utf8(a@),
            y@ == encode_utf8(b@),
            forall|j: int| 0 <= j < i ==> x@[j] == y@[j],
        decreases x.len() - i,
    {
        if x[i] != y[i] {
            return false;
        }
        i = i + 1;
    }
    proof {
        assert(x@ =~= y@);
        lemma_same_bytes_same_text(a@, b@);
    }
    true
}

} // verus!
