//! Decoding inverts encoding: the value that is read back from the canonical
//! encoding of a well-formed value tree is that tree.

use crate::decimal::{decimal, integer_text, is_digit, lemma_decimal, lemma_digits_end_is};
use crate::encode::{encode_bytes, encode_entries, encode_items, encode_tree};
use crate::grammar::{
    parse_byte_string, parse_entries, parse_integer, parse_items, parse_value, Parsed,
};
use crate::model::{
    bind_all, distinct_keys, has_key, lemma_bind_all, lemma_bind_all_of_ascending,
    lemma_dictionary_values_wf, lemma_list_items_wf, with_entry, Entries, ValueTree,
};
use vstd::prelude::*;

verus! {

/// The bytes of `piece` stand in `s` from `pos` on.
pub open spec fn occurs_at(s: Seq<u8>, pos: int, piece: Seq<u8>) -> bool {
    &&& 0 <= pos
    &&& pos + piece.len() <= s.len()
    &&& forall|i: int| 0 <= i < piece.len() ==> s[pos + i] == #[trigger] piece[i]
}

/// Where a concatenation occurs, its two parts occur one after the other.
pub proof fn lemma_occurs_split(s: Seq<u8>, pos: int, a: Seq<u8>, b: Seq<u8>)
    requires
        occurs_at(s, pos, a + b),
    ensures
        occurs_at(s, pos, a),
        occurs_at(s, pos + a.len(), b),
{
    let whole = a + b;
    assert forall|i: int| 0 <= i < a.len() implies s[pos + i] == #[trigger] a[i] by {
        assert(whole[i] == a[i]);
    }
    assert forall|i: int| 0 <= i < b.len() implies s[pos + a.len() + i] == #[trigger] b[i] by {
        assert(whole[a.len() + i] == b[i]);
    }
}

/// An encoding is never empty, and it starts with the byte that tells its
/// kind, which is never the closing `e`.
pub proof fn lemma_encoding_head(v: ValueTree)
    ensures
        encode_tree(v).len() >= 2,
        match v {
            ValueTree::Integer(_) => encode_tree(v)[0] == 105,
            ValueTree::ByteString(_) => is_digit(encode_tree(v)[0]),
            ValueTree::List(_) => encode_tree(v)[0] == 108,
            ValueTree::Dictionary(_) => encode_tree(v)[0] == 100,
        },
{
    match v {
        ValueTree::Integer(n) => {
            let m: nat = if n < 0 {
                (-n) as nat
            } else {
                n as nat
            };
            lemma_decimal(m);
        },
        ValueTree::ByteString(bytes) => {
            lemma_decimal(bytes.len());
            assert(encode_bytes(bytes)[0] == decimal(bytes.len())[0]);
        },
        ValueTree::List(_) => {},
        ValueTree::Dictionary(_) => {},
    }
}

/// Reading the encoding of an integer gives the integer back.
proof fn lemma_integer_read_back(n: i64, s: Seq<u8>, pos: int)
    requires
        occurs_at(s, pos, encode_tree(ValueTree::Integer(n))),
    ensures
        parse_integer(s, pos) == (Parsed::Done {
            value: n,
            next: pos + encode_tree(ValueTree::Integer(n)).len(),
        }),
{
    let m: nat = if n < 0 {
        (-n) as nat
    } else {
        n as nat
    };
    let digits = decimal(m);
    let text = integer_text(n as int);
    let whole = encode_tree(ValueTree::Integer(n));
    lemma_decimal(m);
    assert(whole == seq![105u8] + text + seq![101u8]);
    assert(whole.len() == text.len() + 2);
    assert(s[pos + 0] == whole[0]);
    let start = if n < 0 {
        pos + 2
    } else {
        pos + 1
    };
    let end = start + digits.len();
    assert(s[pos + 1] == whole[1]);
    if n < 0 {
        assert(text == seq![45u8] + digits);
        assert(whole[1] == 45);
    } else {
        assert(whole[1] == digits[0]);
        assert(is_digit(digits[0]));
    }
    assert forall|j: int| start <= j < end implies is_digit(#[trigger] s[j]) by {
        assert(s[pos + (j - pos)] == whole[j - pos]);
        assert(whole[j - pos] == digits[j - start]);
    }
    assert(s[pos + (end - pos)] == whole[end - pos]);
    assert(whole[end - pos] == 101);
    lemma_digits_end_is(s, start, end);
    assert(s.subrange(start, end) =~= digits) by {
        assert forall|j: int| 0 <= j < digits.len() implies s.subrange(start, end)[j]
            == digits[j] by {
            assert(s[pos + (start + j - pos)] == whole[start + j - pos]);
        }
    }
    assert(s[start] == digits[0]) by {
        assert(s.subrange(start, end)[0] == digits[0]);
    }
}

/// Reading the encoding of a byte string gives the byte string back.
proof fn lemma_bytes_read_back(bytes: Seq<u8>, s: Seq<u8>, pos: int)
    requires
        occurs_at(s, pos, encode_bytes(bytes)),
    ensures
        parse_byte_string(s, pos) == (Parsed::Done {
            value: bytes,
            next: pos + encode_bytes(bytes).len(),
        }),
        is_digit(s[pos]),
{
    let digits = decimal(bytes.len());
    let whole = encode_bytes(bytes);
    lemma_decimal(bytes.len());
    let end = pos + digits.len();
    assert(whole == digits + seq![58u8] + bytes);
    assert forall|j: int| pos <= j < end implies is_digit(#[trigger] s[j]) by {
        assert(s[pos + (j - pos)] == whole[j - pos]);
        assert(whole[j - pos] == digits[j - pos]);
    }
    assert(s[pos + (end - pos)] == whole[end - pos]);
    assert(whole[end - pos] == 58);
    lemma_digits_end_is(s, pos, end);
    assert(s.subrange(pos, end) =~= digits) by {
        assert forall|j: int| 0 <= j < digits.len() implies s.subrange(pos, end)[j]
            == digits[j] by {
            assert(s[pos + j] == whole[j]);
        }
    }
    assert(s.subrange(end + 1, end + 1 + bytes.len()) =~= bytes) by {
        assert forall|j: int| 0 <= j < bytes.len() implies s.subrange(
            end + 1,
            end + 1 + bytes.len(),
        )[j] == bytes[j] by {
            assert(s[pos + (end + 1 + j - pos)] == whole[end + 1 + j - pos]);
        }
    }
    assert(is_digit(s[pos]));
}

/// The encoding of the first `k + 1` items is that of the first `k` followed
/// by the encoding of the item at `k`.
proof fn lemma_encode_items_step(items: Seq<ValueTree>, k: int)
    requires
        0 <= k < items.len(),
    ensures
        encode_items(items.take(k + 1)) == encode_items(items.take(k)) + encode_tree(items[k]),
{
    assert(items.take(k + 1).drop_last() =~= items.take(k));
    assert(items.take(k + 1).last() == items[k]);
}

/// The encoding of the first `k` items opens the encoding of them all.
proof fn lemma_encode_items_prefix(items: Seq<ValueTree>, k: int)
    requires
        0 <= k <= items.len(),
    ensures
        encode_items(items.take(k)).len() <= encode_items(items).len(),
        encode_items(items).subrange(0, encode_items(items.take(k)).len() as int) == encode_items(
            items.take(k),
        ),
    decreases items.len() - k,
{
    if k == items.len() {
        assert(items.take(k) =~= items);
        assert(encode_items(items).subrange(0, encode_items(items).len() as int) =~= encode_items(
            items,
        ));
    } else {
        lemma_encode_items_prefix(items, k + 1);
        lemma_encode_items_step(items, k);
        let longer = encode_items(items.take(k + 1));
        let shorter = encode_items(items.take(k));
        assert(longer.subrange(0, shorter.len() as int) =~= shorter);
        assert(encode_items(items).subrange(0, shorter.len() as int) =~= encode_items(
            items,
        ).subrange(0, longer.len() as int).subrange(0, shorter.len() as int));
    }
}

/// The encoding of the first `k + 1` entries is that of the first `k`
/// followed by the encoded key and value of the entry at `k`.
pub proof fn lemma_encode_entries_step(entries: Entries, k: int)
    requires
        0 <= k < entries.len(),
    ensures
        encode_entries(entries.take(k + 1)) == encode_entries(entries.take(k)) + encode_bytes(
            entries[k].0,
        ) + encode_tree(entries[k].1),
{
    assert(entries.take(k + 1).drop_last() =~= entries.take(k));
    assert(entries.take(k + 1).last() == entries[k]);
}

/// The encoding of the first `k` entries opens the encoding of them all.
pub proof fn lemma_encode_entries_prefix(entries: Entries, k: int)
    requires
        0 <= k <= entries.len(),
    ensures
        encode_entries(entries.take(k)).len() <= encode_entries(entries).len(),
        encode_entries(entries).subrange(0, encode_entries(entries.take(k)).len() as int)
            == encode_entries(entries.take(k)),
    decreases entries.len() - k,
{
    if k == entries.len() {
        assert(entries.take(k) =~= entries);
        assert(encode_entries(entries).subrange(0, encode_entries(entries).len() as int)
            =~= encode_entries(entries));
    } else {
        lemma_encode_entries_prefix(entries, k + 1);
        lemma_encode_entries_step(entries, k);
        let longer = encode_entries(entries.take(k + 1));
        let shorter = encode_entries(entries.take(k));
        assert(longer.subrange(0, shorter.len() as int) =~= shorter);
        assert(encode_entries(entries).subrange(0, shorter.len() as int) =~= encode_entries(
            entries,
        ).subrange(0, longer.len() as int).subrange(0, shorter.len() as int));
    }
}

/// Where `whole` occurs and `whole` opens with `head` followed by `piece`,
/// `piece` occurs after `head`.
pub proof fn lemma_occurs_inside(
    s: Seq<u8>,
    pos: int,
    whole: Seq<u8>,
    head: Seq<u8>,
    piece: Seq<u8>,
)
    requires
        occurs_at(s, pos, whole),
        head.len() + piece.len() <= whole.len(),
        whole.subrange(0, (head.len() + piece.len()) as int) == head + piece,
    ensures
        occurs_at(s, pos + head.len(), piece),
{
    let joined = head + piece;
    assert forall|i: int| 0 <= i < piece.len() implies s[pos + head.len() + i]
        == #[trigger] piece[i] by {
        let opening = whole.subrange(0, (head.len() + piece.len()) as int);
        assert(whole[head.len() + i] == opening[head.len() + i]);
        assert(joined[head.len() + i] == piece[i]);
        assert(s[pos + (head.len() + i)] == whole[head.len() + i]);
    }
}

/// Reading the canonical encoding of a well-formed value tree, wherever it
/// stands in a buffer, gives the tree back and ends right after the encoding.
pub proof fn lemma_read_back(v: ValueTree, s: Seq<u8>, pos: int)
    requires
        v.wf(),
        occurs_at(s, pos, encode_tree(v)),
    ensures
        parse_value(s, pos) == (Parsed::Done { value: v, next: pos + encode_tree(v).len() }),
    decreases v, 0nat,
{
    let whole = encode_tree(v);
    lemma_encoding_head(v);
    assert(s[pos + 0] == whole[0]);
    match v {
        ValueTree::Integer(n) => {
            lemma_integer_read_back(n, s, pos);
        },
        ValueTree::ByteString(bytes) => {
            lemma_bytes_read_back(bytes, s, pos);
        },
        ValueTree::List(items) => {
            assert(items.take(0) =~= Seq::<ValueTree>::empty());
            assert(whole =~= seq![108u8] + (encode_items(items) + seq![101u8]));
            lemma_occurs_split(s, pos, seq![108u8], encode_items(items) + seq![101u8]);
            lemma_items_read_back(items, 0, s, pos + 1);
        },
        ValueTree::Dictionary(entries) => {
            assert(entries.take(0) =~= Entries::empty());
            assert(whole =~= seq![100u8] + (encode_entries(entries) + seq![101u8]));
            lemma_occurs_split(s, pos, seq![100u8], encode_entries(entries) + seq![101u8]);
            lemma_bind_all_of_ascending(entries);
            assert forall|i: int| 0 <= i < entries.len() implies (#[trigger] entries[i]).1.wf() by {
                lemma_dictionary_values_wf(entries, i);
            }
            lemma_pairs_read_back(entries, 0, s, pos + 1);
        },
    }
}

/// Reading on in the encoding of a list after its first `k` items gives the
/// whole list.
proof fn lemma_items_read_back(items: Seq<ValueTree>, k: int, s: Seq<u8>, start: int)
    requires
        ValueTree::List(items).wf(),
        0 <= k <= items.len(),
        occurs_at(s, start, encode_items(items) + seq![101u8]),
    ensures
        parse_items(s, start + encode_items(items.take(k)).len(), items.take(k)) == (Parsed::Done {
            value: items,
            next: start + encode_items(items).len() + 1,
        }),
    decreases items, items.len() - k,
{
    let body = encode_items(items);
    let done = encode_items(items.take(k));
    let at = start + done.len();
    lemma_encode_items_prefix(items, k);
    lemma_occurs_split(s, start, body, seq![101u8]);
    if k == items.len() {
        assert(items.take(k) =~= items);
        assert(s[start + body.len() + 0] == seq![101u8][0]);
    } else {
        let item = items[k];
        let piece = encode_tree(item);
        lemma_encode_items_step(items, k);
        lemma_encode_items_prefix(items, k + 1);
        lemma_occurs_inside(s, start, body, done, piece);
        lemma_encoding_head(item);
        assert(s[at + 0] == piece[0]);
        lemma_list_items_wf(items, k);
        lemma_read_back(item, s, at);
        assert(items.take(k).push(item) =~= items.take(k + 1));
        lemma_items_read_back(items, k + 1, s, start);
    }
}

/// Reading on after the first `k` of the pairs of an encoded dictionary,
/// which may stand in any order of their keys, gives the dictionary that
/// binding all the pairs makes.
pub proof fn lemma_pairs_read_back(pairs: Entries, k: int, s: Seq<u8>, start: int)
    requires
        distinct_keys(pairs),
        forall|i: int| 0 <= i < pairs.len() ==> (#[trigger] pairs[i]).1.wf(),
        0 <= k <= pairs.len(),
        occurs_at(s, start, encode_entries(pairs) + seq![101u8]),
    ensures
        parse_entries(s, start + encode_entries(pairs.take(k)).len(), bind_all(pairs.take(k)))
            == (Parsed::Done {
            value: bind_all(pairs),
            next: start + encode_entries(pairs).len() + 1,
        }),
    decreases pairs, pairs.len() - k,
{
    let body = encode_entries(pairs);
    let done = encode_entries(pairs.take(k));
    let at = start + done.len();
    lemma_encode_entries_prefix(pairs, k);
    lemma_occurs_split(s, start, body, seq![101u8]);
    if k == pairs.len() {
        assert(pairs.take(k) =~= pairs);
        assert(s[start + body.len() + 0] == seq![101u8][0]);
    } else {
        let key = pairs[k].0;
        let value = pairs[k].1;
        let key_piece = encode_bytes(key);
        let value_piece = encode_tree(value);
        lemma_encode_entries_step(pairs, k);
        lemma_encode_entries_prefix(pairs, k + 1);
        assert(done + key_piece + value_piece =~= done + (key_piece + value_piece));
        lemma_occurs_inside(s, start, body, done, key_piece + value_piece);
        lemma_occurs_split(s, at, key_piece, value_piece);
        lemma_bytes_read_back(key, s, at);
        assert(!has_key(bind_all(pairs.take(k)), key)) by {
            lemma_bind_all(pairs.take(k));
            if has_key(pairs.take(k), key) {
                let c = choose|c: int|
                    0 <= c < pairs.take(k).len() && (#[trigger] pairs.take(k)[c]).0 == key;
                assert(pairs[c].0 != pairs[k].0);
            }
        }
        assert(with_entry(bind_all(pairs.take(k)), key, value) == bind_all(pairs.take(k + 1))) by {
            assert(pairs.take(k + 1).drop_last() =~= pairs.take(k));
            assert(pairs.take(k + 1).last() == pairs[k]);
        }
        lemma_encoding_head(value);
        lemma_read_back(value, s, at + key_piece.len());
        assert(done.len() + key_piece.len() + value_piece.len() == encode_entries(
            pairs.take(k + 1),
        ).len());
        lemma_pairs_read_back(pairs, k + 1, s, start);
    }
}

/// Decoding inverts encoding: for every well-formed value tree `v`, reading
/// its canonical encoding gives `v` back and takes all of the encoding,
/// whatever bytes follow it.
pub proof fn lemma_decode_inverts_encode(v: ValueTree, rest: Seq<u8>)
    requires
        v.wf(),
    ensures
        parse_value(encode_tree(v) + rest, 0) == (Parsed::Done {
            value: v,
            next: encode_tree(v).len() as int,
        }),
{
    let s = encode_tree(v) + rest;
    assert forall|i: int| 0 <= i < encode_tree(v).len() implies s[0 + i]
        == #[trigger] encode_tree(v)[i] by {}
    lemma_read_back(v, s, 0);
}

} // verus!
