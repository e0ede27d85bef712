//! Decimal numbers as ASCII text: how they are written and how they are read.

use crate::resp::ParseError;
use vstd::prelude::*;
use vstd::slice::slice_subrange;

verus! {

/// True for the ASCII digits `0` to `9`.
pub open spec fn is_digit(b: u8) -> bool {
    48 <= b <= 57
}

/// The decimal digits of `n`, most significant first, without leading zeros.
pub open spec fn decimal(n: nat) -> Seq<u8>
    decreases n,
{
    if n < 10 {
        seq![(48 + n) as u8]
    } else {
        decimal(n / 10).push((48 + n % 10) as u8)
    }
}

/// The decimal text of a signed number: a minus sign before a negative one.
pub open spec fn signed_decimal(i: int) -> Seq<u8> {
    if i < 0 {
        seq![45u8] + decimal((-i) as nat)
    } else {
        decimal(i as nat)
    }
}

/// How many digits `s` starts with.
pub open spec fn leading_digits(s: Seq<u8>) -> nat
    decreases s.len(),
{
    if s.len() > 0 && is_digit(s[0]) {
        1 + leading_digits(s.drop_first())
    } else {
        0
    }
}

/// The number that a string of digits denotes.
pub open spec fn digits_value(s: Seq<u8>) -> nat
    decreases s.len(),
{
    if s.len() == 0 {
        0
    } else {
        10 * digits_value(s.drop_last()) + (s.last() - 48) as nat
    }
}

/// An unsigned number at the start of `input`: the longest run of digits, which
/// must not be empty and must denote a value that fits in 64 bits.
pub open spec fn spec_parse_u64(input: Seq<u8>) -> Result<(u64, Seq<u8>), ParseError> {
    let k = leading_digits(input) as int;
    let n = digits_value(input.take(k));
    if k == 0 || n > u64::MAX {
        Err(ParseError::BadNumber)
    } else {
        Ok((n as u64, input.skip(k)))
    }
}

/// A signed number at the start of `input`: an optional `+` or `-`, then the
/// longest run of digits, which must not be empty; the value must fit in an
/// `i64`.
pub open spec fn spec_parse_i64(input: Seq<u8>) -> Result<(i64, Seq<u8>), ParseError> {
    let signed = input.len() > 0 && (input[0] == 45 || input[0] == 43);
    let negative = input.len() > 0 && input[0] == 45;
    let body = if signed { input.skip(1) } else { input };
    let k = leading_digits(body) as int;
    let n = digits_value(body.take(k)) as int;
    let value = if negative { -n } else { n };
    if k == 0 || value < i64::MIN || value > i64::MAX {
        Err(ParseError::BadNumber)
    } else {
        Ok((value as i64, body.skip(k)))
    }
}

/// A string starts with no more digits than it has bytes.
pub proof fn lemma_leading_digits_bound(s: Seq<u8>)
    ensures
        leading_digits(s) <= s.len(),
    decreases s.len(),
{
    if s.len() > 0 && is_digit(s[0]) {
        lemma_leading_digits_bound(s.drop_first());
    }
}

/// The digits of a number are digits, and denote that number.
pub proof fn lemma_decimal_is_digits(n: nat)
    ensures
        decimal(n).len() >= 1,
        forall|i: int| 0 <= i < decimal(n).len() ==> is_digit(#[trigger] decimal(n)[i]),
        digits_value(decimal(n)) == n,
    decreases n,
{
    if n >= 10 {
        lemma_decimal_is_digits(n / 10);
        assert(decimal(n).drop_last() =~= decimal(n / 10));
        assert(decimal(n).last() == (48 + n % 10) as u8);
    } else {
        assert(decimal(n).drop_last() =~= Seq::<u8>::empty());
        assert(digits_value(Seq::<u8>::empty()) == 0);
        assert(decimal(n).last() == (48 + n) as u8);
    }
}

/// A run of digits followed by anything starts with at least that many digits,
/// and with no more where what follows does not start with a digit.
pub proof fn lemma_leading_digits_concat(d: Seq<u8>, tail: Seq<u8>)
    requires
        forall|i: int| 0 <= i < d.len() ==> is_digit(#[trigger] d[i]),
    ensures
        leading_digits(d + tail) == d.len() + leading_digits(tail),
    decreases d.len(),
{
    if d.len() == 0 {
        assert(d + tail =~= tail);
    } else {
        assert((d + tail)[0] == d[0]);
        assert((d + tail).drop_first() =~= d.drop_first() + tail);
        lemma_leading_digits_concat(d.drop_first(), tail);
    }
}

/// Reading back the decimal text of `n`, whatever follows it, as long as that
/// does not start with a digit.
pub proof fn lemma_parse_u64_of_decimal(n: u64, tail: Seq<u8>)
    requires
        tail.len() == 0 || !is_digit(tail[0]),
    ensures
        spec_parse_u64(decimal(n as nat) + tail) == Ok::<(u64, Seq<u8>), ParseError>((n, tail)),
{
    let d = decimal(n as nat);
    lemma_decimal_is_digits(n as nat);
    lemma_leading_digits_concat(d, tail);
    assert((d + tail).take(d.len() as int) =~= d);
    assert((d + tail).skip(d.len() as int) =~= tail);
}

/// Reading back the decimal text of a signed number.
pub proof fn lemma_parse_i64_of_decimal(i: i64, tail: Seq<u8>)
    requires
        tail.len() == 0 || !is_digit(tail[0]),
    ensures
        spec_parse_i64(signed_decimal(i as int) + tail) == Ok::<(i64, Seq<u8>), ParseError>(
            (i, tail),
        ),
{
    let input = signed_decimal(i as int) + tail;
    let m: nat = if i < 0 { (-i) as nat } else { i as nat };
    let d = decimal(m);
    lemma_decimal_is_digits(m);
    lemma_leading_digits_concat(d, tail);
    assert((d + tail).take(d.len() as int) =~= d);
    assert((d + tail).skip(d.len() as int) =~= tail);
    if i < 0 {
        assert(input =~= seq![45u8] + (d + tail));
        assert(input[0] == 45);
        assert(input.skip(1) =~= d + tail);
    } else {
        assert(input =~= d + tail);
        assert(is_digit(d[0]));
        assert(input[0] == d[0]);
    }
}

/// Appends the decimal text of `n` to `out`.
pub fn push_decimal(out: &mut Vec<u8>, n: u64)
    ensures
        final(out)@ == old(out)@ + decimal(n as nat),
    decreases n,
{
    if n >= 10 {
        push_decimal(out, n / 10);
    }
    let digit: u8 = (48 + n % 10) as u8;
    out.push(digit);
    proof {
        if n >= 10 {
            assert(out@ =~= old(out)@ + decimal(n as nat));
        } else {
            assert(out@ =~= old(out)@ + decimal(n as nat));
        }
    }
}

/// Appends the decimal text of a signed number to `out`.
pub fn push_signed_decimal(out: &mut Vec<u8>, i: i64)
    ensures
        final(out)@ == old(out)@ + signed_decimal(i as int),
{
    if i < 0 {
        out.push(45u8);
        let magnitude: u64 = ((-(i + 1)) as u64) + 1;
        push_decimal(out, magnitude);
        assert(out@ =~= old(out)@ + signed_decimal(i as int));
    } else {
        push_decimal(out, i as u64);
    }
}

/// Reads an unsigned decimal number from the start of `input` and returns what
/// follows it together with the number.
pub fn parse_u64(input: &[u8]) -> (r: Result<(&[u8], u64), ParseError>)
    ensures
        match spec_parse_u64(input@) {
            Ok((n, rest)) => r is Ok && r->Ok_0.0@ == rest && r->Ok_0.1 == n,
            Err(e) => r == Err::<(&[u8], u64), ParseError>(e),
        },
{
    let mut k: usize = 0;
    let mut value: u64 = 0;
    let mut overflow: bool = false;
    assert(input@.skip(0) =~= input@);
    assert(input@.take(0) =~= Seq::<u8>::empty());
    while k < input.len() && input[k] >= 48 && input[k] <= 57
        invariant
            0 <= k <= input.len(),
            leading_digits(input@) == k + leading_digits(input@.skip(k as int)),
            !overflow ==> value == digits_value(input@.take(k as int)),
            overflow ==> digits_value(input@.take(k as int)) > u64::MAX,
        decreases input.len() - k,
    {
        let d: u64 = (input[k] - 48) as u64;
        proof {
            let s = input@.skip(k as int);
            assert(s[0] == input@[k as int]);
            assert(s.drop_first() =~= input@.skip(k + 1));
            let t = input@.take(k + 1);
            assert(t.drop_last() =~= input@.take(k as int));
            assert(t.last() == input@[k as int]);
        }
        if !overflow {
            match value.checked_mul(10) {
                Some(v) => match v.checked_add(d) {
                    Some(w) => {
                        value = w;
                    },
                    None => {
                        overflow = true;
                    },
                },
                None => {
                    overflow = true;
                },
            }
        }
        k = k + 1;
    }
    proof {
        let s = input@.skip(k as int);
        if k < input.len() {
            assert(s[0] == input@[k as int]);
        }
        assert(leading_digits(s) == 0);
    }
    if k == 0 || overflow {
        Err(ParseError::BadNumber)
    } else {
        Ok((slice_subrange(input, k, input.len()), value))
    }
}

/// Reads a signed decimal number from the start of `input` and returns what
/// follows it together with the number.
pub fn parse_i64(input: &[u8]) -> (r: Result<(&[u8], i64), ParseError>)
    ensures
        match spec_parse_i64(input@) {
            Ok((n, rest)) => r is Ok && r->Ok_0.0@ == rest && r->Ok_0.1 == n,
            Err(e) => r == Err::<(&[u8], i64), ParseError>(e),
        },
{
    let negative: bool = input.len() > 0 && input[0] == 45;
    let signed: bool = input.len() > 0 && (input[0] == 45 || input[0] == 43);
    let start: usize = if signed { 1 } else { 0 };
    let ghost body = input@.skip(start as int);
    let mut k: usize = start;
    let mut value: i64 = 0;
    let mut overflow: bool = false;
    assert(input@.skip(0) =~= input@);
    assert(body.take(0) =~= Seq::<u8>::empty());
    while k < input.len() && input[k] >= 48 && input[k] <= 57
        invariant
            start <= k <= input.len(),
            body == input@.skip(start as int),
            leading_digits(body) == (k - start) + leading_digits(input@.skip(k as int)),
            !overflow && negative ==> value == -digits_value(body.take(k - start)),
            !overflow && !negative ==> value == digits_value(body.take(k - start)),
            overflow && negative ==> -digits_value(body.take(k - start)) < i64::MIN,
            overflow && !negative ==> digits_value(body.take(k - start)) > i64::MAX,
        decreases input.len() - k,
    {
        let d: i64 = (input[k] - 48) as i64;
        proof {
            let s = input@.skip(k as int);
            assert(s[0] == input@[k as int]);
            assert(s.drop_first() =~= input@.skip(k + 1));
            let t = body.take(k + 1 - start);
            assert(t.drop_last() =~= body.take(k - start));
            assert(t.last() == input@[k as int]);
        }
        if !overflow {
            match value.checked_mul(10) {
                Some(v) => {
                    let next = if negative { v.checked_sub(d) } else { v.checked_add(d) };
                    match next {
                        Some(w) => {
                            value = w;
                        },
                        None => {
                            overflow = true;
                        },
                    }
                },
                None => {
                    overflow = true;
                },
            }
        }
        k = k + 1;
    }
    proof {
        let s = input@.skip(k as int);
        if k < input.len() {
            assert(s[0] == input@[k as int]);
        }
        assert(leading_digits(s) == 0);
        assert(body.skip(k - start) =~= input@.skip(k as int));
    }
    if k == start || overflow {
        Err(ParseError::BadNumber)
    } else {
        Ok((slice_subrange(input, k, input.len()), value))
    }
}

} // verus!
