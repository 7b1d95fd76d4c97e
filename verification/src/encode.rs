//! Canonical encoding of a value tree into bencode bytes.

use crate::decimal::{decimal, integer_text, push_decimal, push_integer_text};
use crate::model::{Entries, ValueTree};
use crate::value::{lemma_list_model, list_model, BencodeValue, Dictionary};
use vstd::prelude::*;

verus! {

/// The encoding of a byte string: the decimal length, a colon, the bytes.
pub open spec fn encode_bytes(bytes: Seq<u8>) -> Seq<u8> {
    decimal(bytes.len()) + seq![58u8] + bytes
}

/// The canonical encoding of a value tree. Integers are in minimal decimal
/// form between `i` and `e`, byte strings are length-prefixed, lists stand
/// between `l` and `e`, dictionaries between `d` and `e` with their entries in
/// stored order, which for a well-formed tree is the byte-lexicographic
/// order of the keys.
pub open spec fn encode_tree(v: ValueTree) -> Seq<u8>
    decreases v,
{
    match v {
        ValueTree::Integer(n) => seq![105u8] + integer_text(n as int) + seq![101u8],
        ValueTree::ByteString(bytes) => encode_bytes(bytes),
        ValueTree::List(items) => seq![108u8] + encode_items(items) + seq![101u8],
        ValueTree::Dictionary(entries) => seq![100u8] + encode_entries(entries) + seq![101u8],
    }
}

/// The encodings of the items of a list, one after the other.
pub open spec fn encode_items(items: Seq<ValueTree>) -> Seq<u8>
    decreases items,
{
    if items.len() == 0 {
        Seq::empty()
    } else {
        encode_items(items.drop_last()) + encode_tree(items.last())
    }
}

/// The encodings of the entries of a dictionary, one after the other: each
/// key as a byte string, then its value.
pub open spec fn encode_entries(entries: Entries) -> Seq<u8>
    decreases entries,
{
    if entries.len() == 0 {
        Seq::empty()
    } else {
        encode_entries(entries.drop_last()) + encode_bytes(entries.last().0) + encode_tree(
            entries.last().1,
        )
    }
}

/// Appends the encoding of a byte string to `out`.
pub fn encode_bytes_into(bytes: &[u8], out: &mut Vec<u8>)
    ensures
        final(out)@ == old(out)@ + encode_bytes(bytes@),
{
    push_decimal(out, bytes.len() as u64);
    out.push(58u8);
    let ghost head = out@;
    let mut i: usize = 0;
    while i < bytes.len()
        invariant
            i <= bytes@.len(),
            out@ == head + bytes@.take(i as int),
        decreases bytes@.len() - i,
    {
        out.push(bytes[i]);
        assert(bytes@.take(i + 1) =~= bytes@.take(i as int).push(bytes@[i as int]));
        i += 1;
    }
    assert(bytes@.take(bytes@.len() as int) =~= bytes@);
    assert(head + bytes@ =~= old(out)@ + encode_bytes(bytes@));
}

/// Appends the encodings of the items of a list to `out`.
fn encode_items_into(items: &Vec<BencodeValue>, out: &mut Vec<u8>)
    ensures
        final(out)@ == old(out)@ + encode_items(list_model(items@)),
    decreases list_model(items@),
{
    let ghost all = list_model(items@);
    let mut i: usize = 0;
    assert(all.take(0) =~= Seq::<ValueTree>::empty());
    while i < items.len()
        invariant
            i <= items@.len(),
            all == list_model(items@),
            out@ == old(out)@ + encode_items(all.take(i as int)),
        decreases items@.len() - i,
    {
        let ghost before = out@;
        assert(all[i as int] == items@[i as int]@);
        encode_into(&items[i], out);
        proof {
            assert(all.take(i + 1).drop_last() =~= all.take(i as int));
            assert(all.take(i + 1).last() == items@[i as int]@);
            assert(before + encode_tree(items@[i as int]@) =~= old(out)@ + encode_items(
                all.take(i + 1),
            ));
        }
        i += 1;
    }
    assert(all.take(items@.len() as int) =~= all);
}

/// Appends the encodings of the entries of a dictionary to `out`.
fn encode_entries_into(d: &Dictionary, out: &mut Vec<u8>)
    ensures
        final(out)@ == old(out)@ + encode_entries(d@),
    decreases d@,
{
    let ghost all = d@;
    let n = d.len();
    let mut i: usize = 0;
    assert(all.take(0) =~= Entries::empty());
    while i < n
        invariant
            i <= n,
            n == d@.len(),
            all == d@,
            out@ == old(out)@ + encode_entries(all.take(i as int)),
        decreases n - i,
    {
        let ghost before = out@;
        encode_bytes_into(d.key_at(i).as_slice(), out);
        encode_into(d.value_at(i), out);
        proof {
            assert(all.take(i + 1).drop_last() =~= all.take(i as int));
            assert(all.take(i + 1).last() == all[i as int]);
            assert(before + encode_bytes(all[i as int].0) + encode_tree(all[i as int].1)
                =~= old(out)@ + encode_entries(all.take(i + 1)));
        }
        i += 1;
    }
    assert(all.take(n as int) =~= all);
}

/// Appends the canonical encoding of `value` to `out`.
pub fn encode_into(value: &BencodeValue, out: &mut Vec<u8>)
    ensures
        final(out)@ == old(out)@ + encode_tree(value@),
    decreases value@,
{
    match value {
        BencodeValue::Integer(n) => {
            out.push(105u8);
            push_integer_text(out, *n);
            out.push(101u8);
            assert(out@ =~= old(out)@ + encode_tree(value@));
        },
        BencodeValue::ByteString(bytes) => {
            encode_bytes_into(bytes.as_slice(), out);
        },
        BencodeValue::List(items) => {
            out.push(108u8);
            proof {
                lemma_list_model(*items);
                assert(value@->List_0 == list_model(items@));
            }
            encode_items_into(items, out);
            out.push(101u8);
            assert(out@ =~= old(out)@ + encode_tree(value@));
        },
        BencodeValue::Dictionary(d) => {
            out.push(100u8);
            assert(value@->Dictionary_0 == d@);
            encode_entries_into(d, out);
            out.push(101u8);
            assert(out@ =~= old(out)@ + encode_tree(value@));
        },
    }
}

/// The canonical encoding of `value`.
pub fn encode(value: &BencodeValue) -> (bytes: Vec<u8>)
    ensures
        bytes@ == encode_tree(value@),
{
    let mut out: Vec<u8> = Vec::new();
    encode_into(value, &mut out);
    assert(Seq::<u8>::empty() + encode_tree(value@) =~= encode_tree(value@));
    out
}

} // verus!
