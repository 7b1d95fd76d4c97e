//! What holds of the library as a whole: re-encoding keeps the value, the
//! keys of an encoded dictionary ascend, neither the order of insertion nor
//! the order of the entries in the input matters, the info-hash is a function
//! of the info tree, and a required field that is missing is named.

use crate::encode::{encode_bytes, encode_entries, encode_tree};
use crate::grammar::{lemma_parse_value_wf, parse_value, Parsed};
use crate::lexical::lex_lt;
use crate::metainfo::{
    info_hash_text, torrent_of_bytes, torrent_of_tree, MetaInfoModel, TorrentError,
};
use crate::model::{
    bind_all, distinct_keys, each_among, first_not_below, has_key, keys_ascending, lemma_bind_all,
    lemma_bind_all_ignores_order, lemma_dictionary_values_wf, lemma_first_not_below,
    lemma_has_key_at_position, lemma_with_entry, lemma_with_entry_commutes, lemma_with_entry_wf,
    lemma_without_key, lemma_without_key_wf, lookup, with_entry, without_key, Entries, ValueTree,
};
use crate::roundtrip::{
    lemma_decode_inverts_encode, lemma_encode_entries_prefix, lemma_encode_entries_step,
    lemma_encoding_head, lemma_pairs_read_back, occurs_at,
};
use crate::schema::{dictionary_under, required_fields, Field, FieldsModel, SchemaViolation};
use vstd::prelude::*;

verus! {

/// Encoding what was decoded gives a buffer that decodes to the same tree:
/// whatever the formatting of the input, its canonical re-encoding stands
/// for the value that the input stands for.
pub proof fn lemma_reencoding_keeps_the_value(input: Seq<u8>, rest: Seq<u8>)
    requires
        parse_value(input, 0) is Done,
    ensures
        parse_value(input, 0)->value.wf(),
        parse_value(encode_tree(parse_value(input, 0)->value) + rest, 0) == (Parsed::Done {
            value: parse_value(input, 0)->value,
            next: encode_tree(parse_value(input, 0)->value).len() as int,
        }),
{
    lemma_parse_value_wf(input, 0);
    lemma_decode_inverts_encode(parse_value(input, 0)->value, rest);
}

/// Where the entry at `index` begins in the encoding of `entries`.
pub open spec fn entry_offset(entries: Entries, index: int) -> int {
    encode_entries(entries.take(index)).len() as int
}

/// The encoding of a dictionary holds its entries in byte-lexicographic order
/// of their keys: each entry stands at its offset as the encoded key followed
/// by the encoded value, a later entry at a later offset, and an entry at a
/// later offset has the greater key.
pub proof fn lemma_encoded_in_key_order(entries: Entries)
    requires
        keys_ascending(entries),
    ensures
        forall|k: int|
            0 <= k < entries.len() ==> occurs_at(
                encode_entries(entries),
                #[trigger] entry_offset(entries, k),
                encode_bytes(entries[k].0) + encode_tree(entries[k].1),
            ),
        forall|i: int, j: int|
            0 <= i < j < entries.len() ==> #[trigger] entry_offset(entries, i)
                < #[trigger] entry_offset(entries, j) && lex_lt(entries[i].0, entries[j].0),
{
    let whole = encode_entries(entries);
    assert forall|k: int| 0 <= k < entries.len() implies occurs_at(
        whole,
        #[trigger] entry_offset(entries, k),
        encode_bytes(entries[k].0) + encode_tree(entries[k].1),
    ) by {
        let piece = encode_bytes(entries[k].0) + encode_tree(entries[k].1);
        let head = encode_entries(entries.take(k));
        lemma_encode_entries_step(entries, k);
        lemma_encode_entries_prefix(entries, k + 1);
        let longer = encode_entries(entries.take(k + 1));
        assert(longer =~= head + piece);
        assert forall|i: int| 0 <= i < piece.len() implies whole[head.len() + i]
            == #[trigger] piece[i] by {
            assert(whole.subrange(0, longer.len() as int)[head.len() + i] == longer[head.len()
                + i]);
        }
    }
    assert forall|i: int, j: int| 0 <= i < j < entries.len() implies #[trigger] entry_offset(
        entries,
        i,
    ) < #[trigger] entry_offset(entries, j) && lex_lt(entries[i].0, entries[j].0) by {
        lemma_offsets_grow(entries, i, j);
        assert(lex_lt(entries[i].0, entries[j].0));
    }
}

/// A later entry begins at a later offset.
proof fn lemma_offsets_grow(entries: Entries, i: int, j: int)
    requires
        0 <= i < j <= entries.len(),
    ensures
        entry_offset(entries, i) < entry_offset(entries, j),
    decreases j - i,
{
    lemma_encode_entries_step(entries, j - 1);
    lemma_encoding_head(entries[j - 1].1);
    if i < j - 1 {
        lemma_offsets_grow(entries, i, j - 1);
    }
}

/// The encoding of a dictionary does not depend on the order in which two
/// different keys were bound.
pub proof fn lemma_encoding_ignores_insertion_order(
    entries: Entries,
    first_key: Seq<u8>,
    first_value: ValueTree,
    second_key: Seq<u8>,
    second_value: ValueTree,
)
    requires
        keys_ascending(entries),
        first_key != second_key,
    ensures
        encode_tree(
            ValueTree::Dictionary(
                with_entry(with_entry(entries, first_key, first_value), second_key, second_value),
            ),
        ) == encode_tree(
            ValueTree::Dictionary(
                with_entry(with_entry(entries, second_key, second_value), first_key, first_value),
            ),
        ),
        keys_ascending(
            with_entry(with_entry(entries, first_key, first_value), second_key, second_value),
        ),
{
    lemma_with_entry_commutes(entries, first_key, first_value, second_key, second_value);
    lemma_with_entry(entries, first_key, first_value);
    lemma_with_entry(with_entry(entries, first_key, first_value), second_key, second_value);
}

/// The bytes of a dictionary whose entries are written in the order of
/// `pairs`, whatever that order is.
pub open spec fn written_in_order(pairs: Entries) -> Seq<u8> {
    seq![100u8] + encode_entries(pairs) + seq![101u8]
}

/// A dictionary decodes to the same tree in whatever order its entries are
/// written: the tree holds them in ascending order of their keys.
pub proof fn lemma_decoding_ignores_entry_order(pairs: Entries, rest: Seq<u8>)
    requires
        distinct_keys(pairs),
        forall|i: int| 0 <= i < pairs.len() ==> (#[trigger] pairs[i]).1.wf(),
    ensures
        parse_value(written_in_order(pairs) + rest, 0) == (Parsed::Done {
            value: ValueTree::Dictionary(bind_all(pairs)),
            next: written_in_order(pairs).len() as int,
        }),
        keys_ascending(bind_all(pairs)),
        forall|other: Entries|
            distinct_keys(other) && each_among(pairs, other) && each_among(other, pairs)
                ==> #[trigger] bind_all(other) == bind_all(pairs),
{
    let body = encode_entries(pairs) + seq![101u8];
    let s = written_in_order(pairs) + rest;
    assert forall|i: int| 0 <= i < body.len() implies s[1 + i] == #[trigger] body[i] by {}
    assert(pairs.take(0) =~= Entries::empty());
    assert(bind_all(pairs.take(0)) =~= Entries::empty());
    lemma_pairs_read_back(pairs, 0, s, 1);
    lemma_bind_all(pairs);
    assert forall|other: Entries|
        distinct_keys(other) && each_among(pairs, other) && each_among(
            other,
            pairs,
        ) implies #[trigger] bind_all(other) == bind_all(pairs) by {
        lemma_bind_all_ignores_order(other, pairs);
    }
}

/// The info tree of a buffer that holds a torrent.
pub open spec fn info_tree(input: Seq<u8>) -> ValueTree {
    required_fields(parse_value(input, 0)->value)->Ok_0.info
}

/// The info-hash is a function of the decoded info tree alone: it is the
/// hexadecimal SHA-1 digest of the canonical encoding of that tree, so two
/// buffers whose info trees are the same have the same info-hash, however
/// the bytes of the two differ.
pub proof fn lemma_info_hash_determined(a: Seq<u8>, b: Seq<u8>)
    requires
        torrent_of_bytes(a) is Ok,
        torrent_of_bytes(b) is Ok,
        info_tree(a) == info_tree(b),
    ensures
        torrent_of_bytes(a)->Ok_0.info_hash == info_hash_text(info_tree(a)),
        torrent_of_bytes(a)->Ok_0.info_hash == torrent_of_bytes(b)->Ok_0.info_hash,
{
}

/// Two different fields have different keys.
pub proof fn lemma_keys_differ(a: Field, b: Field)
    requires
        a != b,
    ensures
        a.key() != b.key(),
{
    assert(a.key().len() != b.key().len() || a.key()[0] != b.key()[0]);
}

/// The tree without the entry of `field`: taken out of the root dictionary
/// for `announce` and `info`, out of the info dictionary for the others.
pub open spec fn without_field(root: ValueTree, field: Field) -> ValueTree {
    let top = root->Dictionary_0;
    if field == Field::Announce || field == Field::Info {
        ValueTree::Dictionary(without_key(top, field.key()))
    } else {
        let info = dictionary_under(top, Field::Info)->0;
        ValueTree::Dictionary(
            with_entry(
                top,
                Field::Info.key(),
                ValueTree::Dictionary(without_key(info, field.key())),
            ),
        )
    }
}

/// A torrent tree from which one required field is taken out is refused with
/// `MissingField` of that very field, and so is its encoding when it is
/// parsed.
pub proof fn lemma_missing_field(root: ValueTree, field: Field, rest: Seq<u8>)
    requires
        root.wf(),
        required_fields(root) is Ok,
    ensures
        without_field(root, field).wf(),
        required_fields(without_field(root, field)) == Err::<FieldsModel, SchemaViolation>(
            SchemaViolation::MissingField(field),
        ),
        torrent_of_tree(without_field(root, field)) == Err::<MetaInfoModel, SchemaViolation>(
            SchemaViolation::MissingField(field),
        ),
        torrent_of_bytes(encode_tree(without_field(root, field)) + rest) == Err::<
            MetaInfoModel,
            TorrentError,
        >(TorrentError::Schema(SchemaViolation::MissingField(field))),
{
    let top = root->Dictionary_0;
    let info = dictionary_under(top, Field::Info)->0;
    let after = without_field(root, field);
    assert(keys_ascending(top));
    assert(lookup(top, Field::Info.key()) == Some(ValueTree::Dictionary(info)));
    assert(ValueTree::Dictionary(info).wf()) by {
        assert(has_key(top, Field::Info.key()));
        lemma_has_key_at_position(top, Field::Info.key());
        lemma_first_not_below(top, Field::Info.key(), 0);
        lemma_dictionary_values_wf(top, first_not_below(top, Field::Info.key(), 0));
    }
    assert(keys_ascending(info));
    if field == Field::Announce || field == Field::Info {
        lemma_without_key(top, field.key());
        lemma_without_key_wf(top, field.key());
        if field == Field::Info {
            lemma_keys_differ(Field::Announce, Field::Info);
            assert(lookup(without_key(top, field.key()), Field::Announce.key()) == lookup(
                top,
                Field::Announce.key(),
            ));
        }
    } else {
        let thinner = without_key(info, field.key());
        lemma_without_key(info, field.key());
        lemma_without_key_wf(info, field.key());
        lemma_with_entry(top, Field::Info.key(), ValueTree::Dictionary(thinner));
        lemma_with_entry_wf(top, Field::Info.key(), ValueTree::Dictionary(thinner));
        lemma_keys_differ(Field::Announce, Field::Info);
        let new_top = after->Dictionary_0;
        assert(lookup(new_top, Field::Announce.key()) == lookup(top, Field::Announce.key()));
        assert(lookup(new_top, Field::Info.key()) == Some(ValueTree::Dictionary(thinner)));
        if field != Field::Pieces {
            lemma_keys_differ(Field::Pieces, field);
            assert(lookup(thinner, Field::Pieces.key()) == lookup(info, Field::Pieces.key()));
        }
        if field != Field::PieceLength {
            lemma_keys_differ(Field::PieceLength, field);
            assert(lookup(thinner, Field::PieceLength.key()) == lookup(
                info,
                Field::PieceLength.key(),
            ));
        }
        if field != Field::Length {
            lemma_keys_differ(Field::Length, field);
            assert(lookup(thinner, Field::Length.key()) == lookup(info, Field::Length.key()));
        }
    }
    lemma_decode_inverts_encode(after, rest);
}

} // verus!
