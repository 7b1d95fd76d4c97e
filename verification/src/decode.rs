//! Decoding of bencode bytes into a value, by recursive descent.

use crate::decimal::{
    decimal_value, digits_end, is_digit, lemma_digits_end, lemma_digits_end_is, lemma_value_push,
};
use crate::grammar::{
    parse_byte_string, parse_entries, parse_integer, parse_items, parse_value, remaining, Parsed,
    SyntaxKind,
};
use crate::model::{lemma_list_push_wf, ValueTree};
use crate::value::{lemma_list_model, list_model, BencodeValue, Dictionary};
use vstd::prelude::*;

verus! {

/// A failure to decode: what is wrong, and the offset of the element that
/// could not be read.
#[derive(Clone, Copy, Debug, PartialEq, Eq, Structural)]
pub struct BencodeSyntaxError {
    pub kind: SyntaxKind,
    pub offset: usize,
}

/// `error` reports the failure of kind `kind` at `offset`.
pub open spec fn reports<T>(error: BencodeSyntaxError, parsed: Parsed<T>) -> bool {
    parsed == (Parsed::<T>::Failed { kind: error.kind, offset: error.offset as int })
}

/// The index after the run of digits that starts at `from`.
fn scan_digits(input: &[u8], from: usize) -> (end: usize)
    requires
        from <= input@.len(),
    ensures
        end == digits_end(input@, from as int),
        from <= end <= input@.len(),
{
    let mut end: usize = from;
    while end < input.len() && 48 <= input[end] && input[end] <= 57
        invariant
            from <= end <= input@.len(),
            forall|j: int| from <= j < end ==> is_digit(#[trigger] input@[j]),
        decreases input@.len() - end,
    {
        end += 1;
    }
    proof {
        lemma_digits_end_is(input@, from as int, end as int);
    }
    end
}

/// The value of the digits of `input` from `from` to `end`, where it is at
/// most `cap`.
fn digits_value(input: &[u8], from: usize, end: usize, cap: u64) -> (value: Option<u64>)
    requires
        from <= end <= input@.len(),
        forall|j: int| from <= j < end ==> is_digit(#[trigger] input@[j]),
    ensures
        match value {
            Some(n) => n == decimal_value(input@.subrange(from as int, end as int)) && n <= cap,
            None => decimal_value(input@.subrange(from as int, end as int)) > cap,
        },
{
    let mut acc: u64 = 0;
    let mut i: usize = from;
    assert(input@.subrange(from as int, from as int) =~= Seq::<u8>::empty());
    while i < end
        invariant
            from <= i <= end <= input@.len(),
            forall|j: int| from <= j < end ==> is_digit(#[trigger] input@[j]),
            acc == decimal_value(input@.subrange(from as int, i as int)),
            acc <= cap,
        decreases end - i,
    {
        let digit: u64 = (input[i] - 48) as u64;
        proof {
            assert(is_digit(input@[i as int]));
            assert(input@.subrange(from as int, i + 1) =~= input@.subrange(
                from as int,
                i as int,
            ).push(input@[i as int]));
            lemma_value_push(input@.subrange(from as int, i as int), input@[i as int]);
        }
        if digit > cap || acc > (cap - digit) / 10 {
            proof {
                lemma_value_grows(input@, from as int, i + 1, end as int);
            }
            return None;
        }
        acc = acc * 10 + digit;
        i += 1;
    }
    Some(acc)
}

/// A run of digits stands for at least what any of its prefixes stands for.
proof fn lemma_value_grows(s: Seq<u8>, from: int, mid: int, end: int)
    requires
        0 <= from <= mid <= end <= s.len(),
        forall|j: int| from <= j < end ==> is_digit(#[trigger] s[j]),
    ensures
        decimal_value(s.subrange(from, mid)) <= decimal_value(s.subrange(from, end)),
    decreases end - mid,
{
    if mid < end {
        lemma_value_grows(s, from, mid, end - 1);
        assert(s.subrange(from, end) =~= s.subrange(from, end - 1).push(s[end - 1]));
        lemma_value_push(s.subrange(from, end - 1), s[end - 1]);
        assert(is_digit(s[end - 1]));
    }
}

/// Reads the byte string that starts at `pos`; returns it with the position
/// after its last byte.
pub fn decode_byte_string(input: &[u8], pos: usize) -> (result: Result<
    (Vec<u8>, usize),
    BencodeSyntaxError,
>)
    ensures
        match result {
            Ok((bytes, next)) => parse_byte_string(input@, pos as int) == (Parsed::Done {
                value: bytes@,
                next: next as int,
            }) && pos < next <= input@.len(),
            Err(error) => reports(error, parse_byte_string(input@, pos as int)),
        },
{
    if pos >= input.len() {
        return Err(BencodeSyntaxError { kind: SyntaxKind::MalformedLength, offset: pos });
    }
    let end = scan_digits(input, pos);
    if end == pos {
        return Err(BencodeSyntaxError { kind: SyntaxKind::MalformedLength, offset: pos });
    }
    if end >= input.len() {
        return Err(BencodeSyntaxError { kind: SyntaxKind::TruncatedInput, offset: pos });
    }
    if input[end] != 58 {
        return Err(BencodeSyntaxError { kind: SyntaxKind::MalformedLength, offset: pos });
    }
    let available: usize = input.len() - end - 1;
    proof {
        lemma_digits_end(input@, pos as int);
    }
    match digits_value(input, pos, end, available as u64) {
        None => Err(BencodeSyntaxError { kind: SyntaxKind::TruncatedInput, offset: pos }),
        Some(length) => {
            let start: usize = end + 1;
            let stop: usize = start + length as usize;
            let mut bytes: Vec<u8> = Vec::with_capacity(length as usize);
            let mut i: usize = start;
            while i < stop
                invariant
                    start <= i <= stop <= input@.len(),
                    bytes@ == input@.subrange(start as int, i as int),
                decreases stop - i,
            {
                bytes.push(input[i]);
                assert(input@.subrange(start as int, i + 1) =~= input@.subrange(
                    start as int,
                    i as int,
                ).push(input@[i as int]));
                i += 1;
            }
            Ok((bytes, stop))
        },
    }
}

/// Reads the integer that starts at `pos`; returns it with the position
/// after its terminator.
pub fn decode_integer(input: &[u8], pos: usize) -> (result: Result<
    (i64, usize),
    BencodeSyntaxError,
>)
    ensures
        match result {
            Ok((n, next)) => parse_integer(input@, pos as int) == (Parsed::Done {
                value: n,
                next: next as int,
            }) && pos < next <= input@.len(),
            Err(error) => reports(error, parse_integer(input@, pos as int)),
        },
{
    let failure = BencodeSyntaxError { kind: SyntaxKind::MalformedInteger, offset: pos };
    if pos >= input.len() || input[pos] != 105 {
        return Err(failure);
    }
    let negative: bool = pos + 1 < input.len() && input[pos + 1] == 45;
    let start: usize = if negative {
        pos + 2
    } else {
        pos + 1
    };
    let end = scan_digits(input, start);
    if end == start {
        return Err(failure);
    }
    if input[start] == 48 && (end != start + 1 || negative) {
        return Err(failure);
    }
    if end >= input.len() || input[end] != 101 {
        return Err(failure);
    }
    proof {
        lemma_digits_end(input@, start as int);
    }
    let cap: u64 = if negative {
        0x8000_0000_0000_0000
    } else {
        0x7fff_ffff_ffff_ffff
    };
    match digits_value(input, start, end, cap) {
        None => Err(failure),
        Some(magnitude) => {
            let n: i64 = if !negative {
                magnitude as i64
            } else if magnitude == 0x8000_0000_0000_0000 {
                i64::MIN
            } else {
                -(magnitude as i64)
            };
            Ok((n, end + 1))
        },
    }
}

/// Reads the rest of a list from `pos` on, up to its closing `e`.
fn decode_items(input: &[u8], pos: usize) -> (result: Result<
    (Vec<BencodeValue>, usize),
    BencodeSyntaxError,
>)
    requires
        0 < pos,
    ensures
        match result {
            Ok((items, next)) => parse_items(input@, pos as int, Seq::empty()) == (Parsed::Done {
                value: list_model(items@),
                next: next as int,
            }) && pos < next <= input@.len() && ValueTree::List(list_model(items@)).wf(),
            Err(error) => reports(error, parse_items(input@, pos as int, Seq::empty())),
        },
    decreases remaining(input@, pos as int), 1nat,
{
    let mut items: Vec<BencodeValue> = Vec::new();
    let mut at: usize = pos;
    assert(list_model(items@) =~= Seq::<ValueTree>::empty());
    loop
        invariant
            pos <= at,
            parse_items(input@, pos as int, Seq::empty()) == parse_items(
                input@,
                at as int,
                list_model(items@),
            ),
            ValueTree::List(list_model(items@)).wf(),
        decreases remaining(input@, at as int),
    {
        if at >= input.len() {
            return Err(BencodeSyntaxError { kind: SyntaxKind::TruncatedInput, offset: at });
        }
        if input[at] == 101 {
            return Ok((items, at + 1));
        }
        match decode_value_at(input, at) {
            Err(error) => {
                return Err(error);
            },
            Ok((value, next)) => {
                let ghost before = list_model(items@);
                items.push(value);
                proof {
                    assert(list_model(items@) =~= before.push(value@));
                    lemma_list_push_wf(before, value@);
                }
                at = next;
            },
        }
    }
}

/// Reads the rest of a dictionary from `pos` on, up to its closing `e`.
fn decode_entries(input: &[u8], pos: usize) -> (result: Result<
    (Dictionary, usize),
    BencodeSyntaxError,
>)
    requires
        0 < pos,
    ensures
        match result {
            Ok((entries, next)) => parse_entries(input@, pos as int, Seq::empty()) == (
            Parsed::Done { value: entries@, next: next as int }) && pos < next <= input@.len()
                && entries.wf(),
            Err(error) => reports(error, parse_entries(input@, pos as int, Seq::empty())),
        },
    decreases remaining(input@, pos as int), 1nat,
{
    let mut entries = Dictionary::new();
    let mut at: usize = pos;
    loop
        invariant
            pos <= at,
            parse_entries(input@, pos as int, Seq::empty()) == parse_entries(
                input@,
                at as int,
                entries@,
            ),
            entries.wf(),
        decreases remaining(input@, at as int),
    {
        if at >= input.len() {
            return Err(BencodeSyntaxError { kind: SyntaxKind::TruncatedInput, offset: at });
        }
        if input[at] == 101 {
            return Ok((entries, at + 1));
        }
        if !(48 <= input[at] && input[at] <= 57) {
            return Err(BencodeSyntaxError { kind: SyntaxKind::MalformedDictionary, offset: at });
        }
        match decode_byte_string(input, at) {
            Err(error) => {
                return Err(error);
            },
            Ok((key, after_key)) => {
                if entries.contains_key(key.as_slice()) {
                    return Err(BencodeSyntaxError { kind: SyntaxKind::DuplicateKey, offset: at });
                }
                match decode_value_at(input, after_key) {
                    Err(error) => {
                        return Err(error);
                    },
                    Ok((value, next)) => {
                        entries.insert(key, value);
                        at = next;
                    },
                }
            },
        }
    }
}

/// Reads the value that starts at `pos`; returns it with the position after
/// its last byte.
pub fn decode_value_at(input: &[u8], pos: usize) -> (result: Result<
    (BencodeValue, usize),
    BencodeSyntaxError,
>)
    ensures
        match result {
            Ok((value, next)) => parse_value(input@, pos as int) == (Parsed::Done {
                value: value@,
                next: next as int,
            }) && pos < next <= input@.len() && value.wf(),
            Err(error) => reports(error, parse_value(input@, pos as int)),
        },
    decreases remaining(input@, pos as int), 0nat,
{
    if pos >= input.len() {
        return Err(BencodeSyntaxError { kind: SyntaxKind::TruncatedInput, offset: pos });
    }
    let tag: u8 = input[pos];
    if tag == 105 {
        match decode_integer(input, pos) {
            Ok((n, next)) => Ok((BencodeValue::Integer(n), next)),
            Err(error) => Err(error),
        }
    } else if tag == 108 {
        match decode_items(input, pos + 1) {
            Ok((items, next)) => {
                proof {
                    lemma_list_model(items);
                }
                Ok((BencodeValue::List(items), next))
            },
            Err(error) => Err(error),
        }
    } else if tag == 100 {
        match decode_entries(input, pos + 1) {
            Ok((entries, next)) => Ok((BencodeValue::Dictionary(entries), next)),
            Err(error) => Err(error),
        }
    } else if 48 <= tag && tag <= 57 {
        match decode_byte_string(input, pos) {
            Ok((bytes, next)) => Ok((BencodeValue::ByteString(bytes), next)),
            Err(error) => Err(error),
        }
    } else {
        Err(BencodeSyntaxError { kind: SyntaxKind::InvalidTag, offset: pos })
    }
}

/// Decodes the value at the start of `input`; returns it with the number of
/// bytes that it takes, after which the remainder of the input begins.
pub fn decode(input: &[u8]) -> (result: Result<(BencodeValue, usize), BencodeSyntaxError>)
    ensures
        match result {
            Ok((value, next)) => parse_value(input@, 0) == (Parsed::Done {
                value: value@,
                next: next as int,
            }) && 0 < next <= input@.len() && value.wf(),
            Err(error) => reports(error, parse_value(input@, 0)),
        },
{
    decode_value_at(input, 0)
}

} // verus!
