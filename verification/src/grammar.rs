//! The bencode grammar, as a mathematical function from a byte sequence and
//! a position to the value that starts there or to the failure that stops
//! the reading.

use crate::decimal::{decimal_value, digits_end, is_digit, lemma_digits_end};
use crate::model::{
    has_key, lemma_list_push_wf, lemma_with_entry_wf, with_entry, Entries, ValueTree,
};
use vstd::prelude::*;

verus! {

/// The ways in which a byte buffer can fail to be bencode.
#[derive(Clone, Copy, Debug, PartialEq, Eq, Structural)]
pub enum SyntaxKind {
    /// The length prefix of a byte string is absent or not a decimal number
    /// followed by a colon.
    MalformedLength,
    /// The buffer ends before the element does.
    TruncatedInput,
    /// An integer has no digits, a leading zero, no terminator, or does not
    /// fit in 64 bits.
    MalformedInteger,
    /// A dictionary key is not a byte string.
    MalformedDictionary,
    /// A dictionary holds the same key twice.
    DuplicateKey,
    /// The byte that should start a value starts none.
    InvalidTag,
}

/// What reading one element at a position comes to.
pub enum Parsed<T> {
    /// The element, and the position after its last byte.
    Done { value: T, next: int },
    /// The failure, and the position of the element that could not be read.
    Failed { kind: SyntaxKind, offset: int },
}

/// How many bytes are left from `pos` on.
pub open spec fn remaining(s: Seq<u8>, pos: int) -> nat {
    if 0 <= pos <= s.len() {
        (s.len() - pos) as nat
    } else {
        0
    }
}

/// The byte string that starts at `pos`: decimal digits, a colon, and as many
/// bytes as the digits say.
pub open spec fn parse_byte_string(s: Seq<u8>, pos: int) -> Parsed<Seq<u8>> {
    let end = digits_end(s, pos);
    let length = decimal_value(s.subrange(pos, end));
    if end == pos {
        Parsed::Failed { kind: SyntaxKind::MalformedLength, offset: pos }
    } else if end >= s.len() {
        Parsed::Failed { kind: SyntaxKind::TruncatedInput, offset: pos }
    } else if s[end] != 58 {
        Parsed::Failed { kind: SyntaxKind::MalformedLength, offset: pos }
    } else if end + 1 + length > s.len() {
        Parsed::Failed { kind: SyntaxKind::TruncatedInput, offset: pos }
    } else {
        Parsed::Done { value: s.subrange(end + 1, end + 1 + length), next: end + 1 + length }
    }
}

/// The integer that starts at `pos`: `i`, an optional minus sign, decimal
/// digits without a leading zero (and no `-0`), and `e`.
pub open spec fn parse_integer(s: Seq<u8>, pos: int) -> Parsed<i64> {
    let negative = 0 <= pos && pos + 1 < s.len() && s[pos + 1] == 45;
    let start = if negative {
        pos + 2
    } else {
        pos + 1
    };
    let end = digits_end(s, start);
    let magnitude = decimal_value(s.subrange(start, end));
    let well_formed = {
        &&& 0 <= pos < s.len()
        &&& s[pos] == 105
        &&& start < end
        &&& s[start] == 48 ==> end == start + 1 && !negative
        &&& end < s.len()
        &&& s[end] == 101
        &&& if negative {
            magnitude <= 0x8000_0000_0000_0000
        } else {
            magnitude <= 0x7fff_ffff_ffff_ffff
        }
    };
    if well_formed {
        Parsed::Done {
            value: if negative {
                (-magnitude) as i64
            } else {
                magnitude as i64
            },
            next: end + 1,
        }
    } else {
        Parsed::Failed { kind: SyntaxKind::MalformedInteger, offset: pos }
    }
}

/// The value that starts at `pos`, told by its first byte: `i` an integer,
/// `l` a list, `d` a dictionary, a digit a byte string.
pub open spec fn parse_value(s: Seq<u8>, pos: int) -> Parsed<ValueTree>
    decreases remaining(s, pos), 0nat,
{
    if pos < 0 || pos >= s.len() {
        Parsed::Failed { kind: SyntaxKind::TruncatedInput, offset: pos }
    } else if s[pos] == 105 {
        match parse_integer(s, pos) {
            Parsed::Done { value, next } => Parsed::Done { value: ValueTree::Integer(value), next },
            Parsed::Failed { kind, offset } => Parsed::Failed { kind, offset },
        }
    } else if s[pos] == 108 {
        match parse_items(s, pos + 1, Seq::empty()) {
            Parsed::Done { value, next } => Parsed::Done { value: ValueTree::List(value), next },
            Parsed::Failed { kind, offset } => Parsed::Failed { kind, offset },
        }
    } else if s[pos] == 100 {
        match parse_entries(s, pos + 1, Seq::empty()) {
            Parsed::Done { value, next } => Parsed::Done {
                value: ValueTree::Dictionary(value),
                next,
            },
            Parsed::Failed { kind, offset } => Parsed::Failed { kind, offset },
        }
    } else if is_digit(s[pos]) {
        match parse_byte_string(s, pos) {
            Parsed::Done { value, next } => Parsed::Done {
                value: ValueTree::ByteString(value),
                next,
            },
            Parsed::Failed { kind, offset } => Parsed::Failed { kind, offset },
        }
    } else {
        Parsed::Failed { kind: SyntaxKind::InvalidTag, offset: pos }
    }
}

/// The rest of a list from `pos` on, after the items `done`: values up to
/// the closing `e`.
///
/// Every value that is read takes at least one byte
/// (`lemma_parse_value_advances`); the test for it only shows that the
/// reading ends.
pub open spec fn parse_items(s: Seq<u8>, pos: int, done: Seq<ValueTree>) -> Parsed<Seq<ValueTree>>
    decreases remaining(s, pos), 1nat,
{
    if pos < 0 || pos >= s.len() {
        Parsed::Failed { kind: SyntaxKind::TruncatedInput, offset: pos }
    } else if s[pos] == 101 {
        Parsed::Done { value: done, next: pos + 1 }
    } else {
        match parse_value(s, pos) {
            Parsed::Done { value, next } => if next > pos {
                parse_items(s, next, done.push(value))
            } else {
                Parsed::Failed { kind: SyntaxKind::TruncatedInput, offset: pos }
            },
            Parsed::Failed { kind, offset } => Parsed::Failed { kind, offset },
        }
    }
}

/// The rest of a dictionary from `pos` on, after the entries `done`: pairs
/// of a byte-string key and a value up to the closing `e`. The keys may come
/// in any order; each entry goes where the order of keys puts it. A key that
/// was read before is refused.
///
/// Every value that is read takes at least one byte
/// (`lemma_parse_value_advances`); the test for it only shows that the
/// reading ends.
pub open spec fn parse_entries(s: Seq<u8>, pos: int, done: Entries) -> Parsed<Entries>
    decreases remaining(s, pos), 1nat,
{
    if pos < 0 || pos >= s.len() {
        Parsed::Failed { kind: SyntaxKind::TruncatedInput, offset: pos }
    } else if s[pos] == 101 {
        Parsed::Done { value: done, next: pos + 1 }
    } else if !is_digit(s[pos]) {
        Parsed::Failed { kind: SyntaxKind::MalformedDictionary, offset: pos }
    } else {
        match parse_byte_string(s, pos) {
            Parsed::Done { value: key, next: after_key } => if has_key(done, key) {
                Parsed::Failed { kind: SyntaxKind::DuplicateKey, offset: pos }
            } else {
                proof {
                    lemma_parse_byte_string_advances(s, pos);
                }
                match parse_value(s, after_key) {
                    Parsed::Done { value, next } => if next > after_key {
                        parse_entries(s, next, with_entry(done, key, value))
                    } else {
                        Parsed::Failed { kind: SyntaxKind::TruncatedInput, offset: pos }
                    },
                    Parsed::Failed { kind, offset } => Parsed::Failed { kind, offset },
                }
            },
            Parsed::Failed { kind, offset } => Parsed::Failed { kind, offset },
        }
    }
}

/// A byte string that is read ends after its start and within the input.
pub proof fn lemma_parse_byte_string_advances(s: Seq<u8>, pos: int)
    requires
        0 <= pos,
    ensures
        parse_byte_string(s, pos) matches Parsed::Done { next, .. } ==> pos < next <= s.len(),
        parse_byte_string(s, pos) matches Parsed::Failed { offset, .. } ==> offset == pos,
{
    if pos <= s.len() {
        lemma_digits_end(s, pos);
    }
}

/// An integer that is read ends after its start and within the input.
pub proof fn lemma_parse_integer_advances(s: Seq<u8>, pos: int)
    ensures
        parse_integer(s, pos) matches Parsed::Done { next, .. } ==> pos < next <= s.len(),
        parse_integer(s, pos) matches Parsed::Failed { offset, .. } ==> offset == pos,
{
    if 0 <= pos < s.len() {
        let negative = pos + 1 < s.len() && s[pos + 1] == 45;
        let start = if negative {
            pos + 2
        } else {
            pos + 1
        };
        lemma_digits_end(s, start);
    }
}

/// A value that is read ends after its start and within the input, and a
/// failure lies at or after the start.
pub proof fn lemma_parse_value_advances(s: Seq<u8>, pos: int)
    requires
        0 <= pos,
    ensures
        parse_value(s, pos) matches Parsed::Done { next, .. } ==> pos < next <= s.len(),
        parse_value(s, pos) matches Parsed::Failed { offset, .. } ==> pos <= offset,
    decreases remaining(s, pos), 0nat,
{
    if pos < s.len() {
        if s[pos] == 105 {
            lemma_parse_integer_advances(s, pos);
        } else if s[pos] == 108 {
            lemma_parse_items_advances(s, pos + 1, Seq::empty());
        } else if s[pos] == 100 {
            lemma_parse_entries_advances(s, pos + 1, Seq::empty());
        } else if is_digit(s[pos]) {
            lemma_parse_byte_string_advances(s, pos);
        }
    }
}

/// The rest of a list that is read ends after its start and within the
/// input.
pub proof fn lemma_parse_items_advances(s: Seq<u8>, pos: int, done: Seq<ValueTree>)
    requires
        0 <= pos,
    ensures
        parse_items(s, pos, done) matches Parsed::Done { next, .. } ==> pos < next <= s.len(),
        parse_items(s, pos, done) matches Parsed::Failed { offset, .. } ==> pos <= offset,
    decreases remaining(s, pos), 1nat,
{
    if pos < s.len() && s[pos] != 101 {
        lemma_parse_value_advances(s, pos);
        match parse_value(s, pos) {
            Parsed::Done { value, next } => {
                lemma_parse_items_advances(s, next, done.push(value));
            },
            Parsed::Failed { .. } => {},
        }
    }
}

/// The rest of a dictionary that is read ends after its start and within the
/// input.
pub proof fn lemma_parse_entries_advances(
    s: Seq<u8>,
    pos: int,
    done: Entries,
)
    requires
        0 <= pos,
    ensures
        parse_entries(s, pos, done) matches Parsed::Done { next, .. } ==> pos < next <= s.len(),
        parse_entries(s, pos, done) matches Parsed::Failed { offset, .. } ==> pos <= offset,
    decreases remaining(s, pos), 1nat,
{
    if pos < s.len() && s[pos] != 101 && is_digit(s[pos]) {
        lemma_parse_byte_string_advances(s, pos);
        match parse_byte_string(s, pos) {
            Parsed::Done { value: key, next: after_key } => {
                if !has_key(done, key) {
                    lemma_parse_value_advances(s, after_key);
                    match parse_value(s, after_key) {
                        Parsed::Done { value, next } => {
                            lemma_parse_entries_advances(s, next, with_entry(done, key, value));
                        },
                        Parsed::Failed { .. } => {},
                    }
                }
            },
            Parsed::Failed { .. } => {},
        }
    }
}

/// A value that is read is well formed: every dictionary in it has strictly
/// ascending keys, in whatever order the input held them.
pub proof fn lemma_parse_value_wf(s: Seq<u8>, pos: int)
    requires
        0 <= pos,
    ensures
        parse_value(s, pos) matches Parsed::Done { value, .. } ==> value.wf(),
    decreases remaining(s, pos), 0nat,
{
    if pos < s.len() {
        if s[pos] == 108 {
            lemma_parse_items_wf(s, pos + 1, Seq::empty());
        } else if s[pos] == 100 {
            lemma_parse_entries_wf(s, pos + 1, Seq::empty());
        }
    }
}

/// The list that is read after well-formed items is well formed.
pub proof fn lemma_parse_items_wf(s: Seq<u8>, pos: int, done: Seq<ValueTree>)
    requires
        0 <= pos,
        ValueTree::List(done).wf(),
    ensures
        parse_items(s, pos, done) matches Parsed::Done { value, .. } ==> ValueTree::List(
            value,
        ).wf(),
    decreases remaining(s, pos), 1nat,
{
    if pos < s.len() && s[pos] != 101 {
        lemma_parse_value_wf(s, pos);
        match parse_value(s, pos) {
            Parsed::Done { value, next } => {
                if next > pos {
                    lemma_list_push_wf(done, value);
                    lemma_parse_items_wf(s, next, done.push(value));
                }
            },
            Parsed::Failed { .. } => {},
        }
    }
}

/// The dictionary that is read after well-formed entries is well formed.
pub proof fn lemma_parse_entries_wf(s: Seq<u8>, pos: int, done: Entries)
    requires
        0 <= pos,
        ValueTree::Dictionary(done).wf(),
    ensures
        parse_entries(s, pos, done) matches Parsed::Done { value, .. } ==> ValueTree::Dictionary(
            value,
        ).wf(),
    decreases remaining(s, pos), 1nat,
{
    if pos < s.len() && s[pos] != 101 && is_digit(s[pos]) {
        lemma_parse_byte_string_advances(s, pos);
        match parse_byte_string(s, pos) {
            Parsed::Done { value: key, next: after_key } => {
                if !has_key(done, key) {
                    lemma_parse_value_wf(s, after_key);
                    match parse_value(s, after_key) {
                        Parsed::Done { value, next } => {
                            if next > after_key {
                                lemma_with_entry_wf(done, key, value);
                                lemma_parse_entries_wf(s, next, with_entry(done, key, value));
                            }
                        },
                        Parsed::Failed { .. } => {},
                    }
                }
            },
            Parsed::Failed { .. } => {},
        }
    }
}

} // verus!
