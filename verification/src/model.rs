//! The mathematical model of a bencode value tree, and of a dictionary as
//! a sequence of entries with strictly ascending keys.

use crate::lexical::{
    lemma_lex_asymmetric, lemma_lex_irreflexive, lemma_lex_total, lemma_lex_transitive, lex_lt,
};
use vstd::prelude::*;

verus! {

/// The mathematical model of a bencode value.
pub enum ValueTree {
    /// A signed 64-bit integer.
    Integer(i64),
    /// A raw byte string.
    ByteString(Seq<u8>),
    /// An ordered sequence of values.
    List(Seq<ValueTree>),
    /// The entries of a dictionary, key and value, in stored order.
    Dictionary(Seq<(Seq<u8>, ValueTree)>),
}

/// The entries of a dictionary, key and value, in stored order.
pub type Entries = Seq<(Seq<u8>, ValueTree)>;

/// The keys of `entries` are strictly ascending in byte-lexicographic order,
/// hence unique.
pub open spec fn keys_ascending(entries: Entries) -> bool {
    forall|i: int, j: int|
        #![trigger entries[i], entries[j]]
        0 <= i < j < entries.len() ==> lex_lt(entries[i].0, entries[j].0)
}

/// Some entry of `entries` has the key `key`.
pub open spec fn has_key(entries: Entries, key: Seq<u8>) -> bool {
    exists|i: int| 0 <= i < entries.len() && (#[trigger] entries[i]).0 == key
}

/// The value that `entries` holds under `key`, if any.
pub open spec fn lookup(entries: Entries, key: Seq<u8>) -> Option<ValueTree> {
    if has_key(entries, key) {
        Some(entries[choose|i: int| 0 <= i < entries.len() && (#[trigger] entries[i]).0 == key].1)
    } else {
        None
    }
}

/// The first index from `from` on whose key is not below `key`, or the
/// length where there is none.
pub open spec fn first_not_below(entries: Entries, key: Seq<u8>, from: int) -> int
    decreases entries.len() - from,
{
    if 0 <= from < entries.len() && lex_lt(entries[from].0, key) {
        first_not_below(entries, key, from + 1)
    } else {
        from
    }
}

/// The entries after `key` is bound to `value`: an entry already under `key`
/// is replaced, a new one goes where the order of keys puts it.
pub open spec fn with_entry(entries: Entries, key: Seq<u8>, value: ValueTree) -> Entries {
    let p = first_not_below(entries, key, 0);
    if p < entries.len() && entries[p].0 == key {
        entries.update(p, (key, value))
    } else {
        entries.insert(p, (key, value))
    }
}

/// The entries without the one under `key`.
pub open spec fn without_key(entries: Entries, key: Seq<u8>) -> Entries {
    let p = first_not_below(entries, key, 0);
    if p < entries.len() && entries[p].0 == key {
        entries.remove(p)
    } else {
        entries
    }
}

impl ValueTree {
    /// Every dictionary in the tree has strictly ascending keys.
    pub open spec fn wf(self) -> bool
        decreases self,
    {
        match self {
            ValueTree::Integer(_) => true,
            ValueTree::ByteString(_) => true,
            ValueTree::List(items) => forall|i: int|
                0 <= i < items.len() ==> (#[trigger] items[i]).wf(),
            ValueTree::Dictionary(entries) => {
                &&& keys_ascending(entries)
                &&& forall|i: int| 0 <= i < entries.len() ==> (#[trigger] entries[i]).1.wf()
            },
        }
    }
}

/// Where `first_not_below` stops: everything before has a smaller key, and
/// the entry there, if any, does not.
pub proof fn lemma_first_not_below(entries: Entries, key: Seq<u8>, from: int)
    requires
        0 <= from <= entries.len(),
    ensures
        from <= first_not_below(entries, key, from) <= entries.len(),
        forall|j: int|
            from <= j < first_not_below(entries, key, from) ==> lex_lt(
                (#[trigger] entries[j]).0,
                key,
            ),
        first_not_below(entries, key, from) < entries.len() ==> !lex_lt(
            entries[first_not_below(entries, key, from)].0,
            key,
        ),
    decreases entries.len() - from,
{
    if from < entries.len() && lex_lt(entries[from].0, key) {
        lemma_first_not_below(entries, key, from + 1);
    }
}

/// An index that separates the smaller keys from the rest is the one that
/// `first_not_below` finds.
pub proof fn lemma_first_not_below_is(entries: Entries, key: Seq<u8>, p: int)
    requires
        0 <= p <= entries.len(),
        forall|j: int| 0 <= j < p ==> lex_lt((#[trigger] entries[j]).0, key),
        p < entries.len() ==> !lex_lt(entries[p].0, key),
    ensures
        first_not_below(entries, key, 0) == p,
{
    lemma_first_not_below(entries, key, 0);
    let q = first_not_below(entries, key, 0);
    if q < p {
        assert(lex_lt(entries[q].0, key));
    } else if p < q {
        assert(lex_lt(entries[p].0, key));
    }
}

/// In ascending entries a key stands at one index only, the one that
/// `first_not_below` finds.
pub proof fn lemma_key_position(entries: Entries, key: Seq<u8>, i: int)
    requires
        keys_ascending(entries),
        0 <= i < entries.len(),
        entries[i].0 == key,
    ensures
        first_not_below(entries, key, 0) == i,
        has_key(entries, key),
        lookup(entries, key) == Some(entries[i].1),
{
    lemma_lex_irreflexive(key);
    assert forall|j: int| 0 <= j < i implies lex_lt((#[trigger] entries[j]).0, key) by {
        assert(lex_lt(entries[j].0, entries[i].0));
    }
    lemma_first_not_below_is(entries, key, i);
    let c = choose|c: int| 0 <= c < entries.len() && (#[trigger] entries[c]).0 == key;
    if c < i {
        assert(lex_lt(entries[c].0, entries[i].0));
    } else if i < c {
        assert(lex_lt(entries[i].0, entries[c].0));
    }
}

/// In ascending entries a key is present exactly where `first_not_below`
/// points at it.
pub proof fn lemma_has_key_at_position(entries: Entries, key: Seq<u8>)
    requires
        keys_ascending(entries),
    ensures
        has_key(entries, key) <==> (first_not_below(entries, key, 0) < entries.len()
            && entries[first_not_below(entries, key, 0)].0 == key),
        has_key(entries, key) ==> lookup(entries, key) == Some(
            entries[first_not_below(entries, key, 0)].1,
        ),
{
    lemma_first_not_below(entries, key, 0);
    if has_key(entries, key) {
        let c = choose|c: int| 0 <= c < entries.len() && (#[trigger] entries[c]).0 == key;
        lemma_key_position(entries, key, c);
    }
}

/// Binding a key keeps the keys ascending, binds the key, and leaves every
/// other key as it was.
pub proof fn lemma_with_entry(entries: Entries, key: Seq<u8>, value: ValueTree)
    requires
        keys_ascending(entries),
    ensures
        keys_ascending(with_entry(entries, key, value)),
        lookup(with_entry(entries, key, value), key) == Some(value),
        forall|other: Seq<u8>|
            other != key ==> #[trigger] lookup(with_entry(entries, key, value), other) == lookup(
                entries,
                other,
            ),
        with_entry(entries, key, value).len() == if has_key(entries, key) {
            entries.len()
        } else {
            entries.len() + 1
        },
{
    let p = first_not_below(entries, key, 0);
    let after = with_entry(entries, key, value);
    lemma_first_not_below(entries, key, 0);
    lemma_has_key_at_position(entries, key);
    if p < entries.len() && entries[p].0 == key {
        assert(keys_ascending(after)) by {
            assert forall|i: int, j: int| 0 <= i < j < after.len() implies lex_lt(
                (#[trigger] after[i]).0,
                (#[trigger] after[j]).0,
            ) by {
                assert(lex_lt(entries[i].0, entries[j].0));
            }
        }
        lemma_key_position(after, key, p);
        assert forall|other: Seq<u8>| other != key implies #[trigger] lookup(after, other)
            == lookup(entries, other) by {
            if has_key(entries, other) {
                let c = choose|c: int|
                    0 <= c < entries.len() && (#[trigger] entries[c]).0 == other;
                lemma_key_position(entries, other, c);
                assert(after[c] == entries[c]);
                lemma_key_position(after, other, c);
            } else if has_key(after, other) {
                let c = choose|c: int| 0 <= c < after.len() && (#[trigger] after[c]).0 == other;
                assert(entries[c].0 == other);
            }
        }
    } else {
        assert(after.len() == entries.len() + 1);
        assert(forall|i: int| 0 <= i < p ==> after[i] == entries[i]);
        assert(after[p] == (key, value));
        assert(forall|i: int| p < i < after.len() ==> after[i] == entries[i - 1]);
        assert forall|i: int| p <= i < entries.len() implies lex_lt(
            key,
            (#[trigger] entries[i]).0,
        ) by {
            lemma_lex_total(key, entries[p].0);
            if p < i {
                assert(lex_lt(entries[p].0, entries[i].0));
                lemma_lex_transitive(key, entries[p].0, entries[i].0);
            }
        }
        assert(keys_ascending(after)) by {
            assert forall|i: int, j: int| 0 <= i < j < after.len() implies lex_lt(
                (#[trigger] after[i]).0,
                (#[trigger] after[j]).0,
            ) by {
                if j < p {
                    assert(lex_lt(entries[i].0, entries[j].0));
                } else if j == p {
                    assert(lex_lt(entries[i].0, key));
                } else if i < p {
                    assert(lex_lt(entries[i].0, entries[j - 1].0));
                } else if i == p {
                    assert(lex_lt(key, entries[j - 1].0));
                } else {
                    assert(lex_lt(entries[i - 1].0, entries[j - 1].0));
                }
            }
        }
        lemma_key_position(after, key, p);
        assert forall|other: Seq<u8>| other != key implies #[trigger] lookup(after, other)
            == lookup(entries, other) by {
            if has_key(entries, other) {
                let c = choose|c: int|
                    0 <= c < entries.len() && (#[trigger] entries[c]).0 == other;
                lemma_key_position(entries, other, c);
                if c < p {
                    assert(after[c] == entries[c]);
                    lemma_key_position(after, other, c);
                } else {
                    assert(after[c + 1] == entries[c]);
                    lemma_key_position(after, other, c + 1);
                }
            } else if has_key(after, other) {
                let c = choose|c: int| 0 <= c < after.len() && (#[trigger] after[c]).0 == other;
                if c < p {
                    assert(entries[c].0 == other);
                } else {
                    assert(entries[c - 1].0 == other);
                }
            }
        }
    }
}

/// Taking a key out keeps the keys ascending, unbinds the key, and leaves
/// every other key as it was.
pub proof fn lemma_without_key(entries: Entries, key: Seq<u8>)
    requires
        keys_ascending(entries),
    ensures
        keys_ascending(without_key(entries, key)),
        lookup(without_key(entries, key), key) is None,
        forall|other: Seq<u8>|
            other != key ==> #[trigger] lookup(without_key(entries, key), other) == lookup(
                entries,
                other,
            ),
        forall|i: int|
            0 <= i < without_key(entries, key).len() ==> exists|j: int|
                0 <= j < entries.len() && entries[j] == #[trigger] without_key(entries, key)[i],
{
    let p = first_not_below(entries, key, 0);
    let after = without_key(entries, key);
    lemma_first_not_below(entries, key, 0);
    lemma_has_key_at_position(entries, key);
    if p < entries.len() && entries[p].0 == key {
        assert(after.len() == entries.len() - 1);
        assert(forall|i: int| 0 <= i < p ==> after[i] == entries[i]);
        assert(forall|i: int| p <= i < after.len() ==> after[i] == entries[i + 1]);
        assert(keys_ascending(after)) by {
            assert forall|i: int, j: int| 0 <= i < j < after.len() implies lex_lt(
                (#[trigger] after[i]).0,
                (#[trigger] after[j]).0,
            ) by {
                let a = if i < p {
                    i
                } else {
                    i + 1
                };
                let b = if j < p {
                    j
                } else {
                    j + 1
                };
                assert(lex_lt(entries[a].0, entries[b].0));
            }
        }
        lemma_lex_irreflexive(key);
        if has_key(after, key) {
            let c = choose|c: int| 0 <= c < after.len() && (#[trigger] after[c]).0 == key;
            if c < p {
                assert(lex_lt(entries[c].0, entries[p].0));
            } else {
                assert(lex_lt(entries[p].0, entries[c + 1].0));
            }
        }
        assert forall|other: Seq<u8>| other != key implies #[trigger] lookup(after, other)
            == lookup(entries, other) by {
            if has_key(entries, other) {
                let c = choose|c: int|
                    0 <= c < entries.len() && (#[trigger] entries[c]).0 == other;
                lemma_key_position(entries, other, c);
                if c < p {
                    assert(after[c] == entries[c]);
                    lemma_key_position(after, other, c);
                } else {
                    assert(after[c - 1] == entries[c]);
                    lemma_key_position(after, other, c - 1);
                }
            } else if has_key(after, other) {
                let c = choose|c: int| 0 <= c < after.len() && (#[trigger] after[c]).0 == other;
                if c < p {
                    assert(entries[c].0 == other);
                } else {
                    assert(entries[c + 1].0 == other);
                }
            }
        }
        assert forall|i: int| 0 <= i < after.len() implies exists|j: int|
            0 <= j < entries.len() && entries[j] == #[trigger] after[i] by {
            if i < p {
                assert(entries[i] == after[i]);
            } else {
                assert(entries[i + 1] == after[i]);
            }
        }
    } else {
        assert forall|i: int| 0 <= i < after.len() implies exists|j: int|
            0 <= j < entries.len() && entries[j] == #[trigger] after[i] by {
            assert(entries[i] == after[i]);
        }
    }
}

/// The items of a well-formed list are well formed.
pub proof fn lemma_list_items_wf(items: Seq<ValueTree>, i: int)
    requires
        ValueTree::List(items).wf(),
        0 <= i < items.len(),
    ensures
        items[i].wf(),
{
    let list = ValueTree::List(items);
    assert(list->List_0 == items);
    assert(forall|j: int| 0 <= j < items.len() ==> (#[trigger] items[j]).wf());
}

/// A well-formed list stays well formed when a well-formed item is appended.
pub proof fn lemma_list_push_wf(items: Seq<ValueTree>, item: ValueTree)
    requires
        ValueTree::List(items).wf(),
        item.wf(),
    ensures
        ValueTree::List(items.push(item)).wf(),
{
    let longer = items.push(item);
    assert forall|j: int| 0 <= j < longer.len() implies (#[trigger] longer[j]).wf() by {
        if j < items.len() {
            lemma_list_items_wf(items, j);
        }
    }
}

/// The values of a well-formed dictionary are well formed.
pub proof fn lemma_dictionary_values_wf(entries: Entries, i: int)
    requires
        ValueTree::Dictionary(entries).wf(),
        0 <= i < entries.len(),
    ensures
        entries[i].1.wf(),
        keys_ascending(entries),
{
    let dictionary = ValueTree::Dictionary(entries);
    assert(dictionary->Dictionary_0 == entries);
    assert(forall|j: int| 0 <= j < entries.len() ==> (#[trigger] entries[j]).1.wf());
}

/// Binding a key to a well-formed value keeps a dictionary well formed.
pub proof fn lemma_with_entry_wf(entries: Entries, key: Seq<u8>, value: ValueTree)
    requires
        ValueTree::Dictionary(entries).wf(),
        value.wf(),
    ensures
        ValueTree::Dictionary(with_entry(entries, key, value)).wf(),
{
    let p = first_not_below(entries, key, 0);
    let after = with_entry(entries, key, value);
    lemma_first_not_below(entries, key, 0);
    lemma_with_entry(entries, key, value);
    assert forall|i: int| 0 <= i < after.len() implies (#[trigger] after[i]).1.wf() by {
        if p < entries.len() && entries[p].0 == key {
            if i != p {
                lemma_dictionary_values_wf(entries, i);
            }
        } else {
            if i < p {
                lemma_dictionary_values_wf(entries, i);
            } else if i > p {
                lemma_dictionary_values_wf(entries, i - 1);
                assert(after[i] == entries[i - 1]);
            }
        }
    }
}

/// Taking a key out keeps a dictionary well formed.
pub proof fn lemma_without_key_wf(entries: Entries, key: Seq<u8>)
    requires
        ValueTree::Dictionary(entries).wf(),
    ensures
        ValueTree::Dictionary(without_key(entries, key)).wf(),
{
    let after = without_key(entries, key);
    lemma_without_key(entries, key);
    assert forall|i: int| 0 <= i < after.len() implies (#[trigger] after[i]).1.wf() by {
        let j = choose|j: int| 0 <= j < entries.len() && entries[j] == after[i];
        lemma_dictionary_values_wf(entries, j);
    }
}

/// In ascending entries, the entries before the last hold every key but the
/// last, with the same value.
pub proof fn lemma_lookup_drop_last(entries: Entries)
    requires
        keys_ascending(entries),
        entries.len() > 0,
    ensures
        keys_ascending(entries.drop_last()),
        forall|key: Seq<u8>| #[trigger]
            lookup(entries.drop_last(), key) == if key == entries.last().0 {
                None
            } else {
                lookup(entries, key)
            },
{
    let shorter = entries.drop_last();
    let last = entries.len() - 1;
    assert(keys_ascending(shorter)) by {
        assert forall|i: int, j: int| 0 <= i < j < shorter.len() implies lex_lt(
            (#[trigger] shorter[i]).0,
            (#[trigger] shorter[j]).0,
        ) by {
            assert(lex_lt(entries[i].0, entries[j].0));
        }
    }
    assert forall|key: Seq<u8>| #[trigger]
        lookup(shorter, key) == if key == entries.last().0 {
            None
        } else {
            lookup(entries, key)
        } by {
        if has_key(shorter, key) {
            let c = choose|c: int| 0 <= c < shorter.len() && (#[trigger] shorter[c]).0 == key;
            assert(shorter[c] == entries[c]);
            lemma_key_position(shorter, key, c);
            lemma_key_position(entries, key, c);
            assert(lex_lt(entries[c].0, entries[last].0));
            lemma_lex_irreflexive(key);
        } else if has_key(entries, key) {
            let c = choose|c: int| 0 <= c < entries.len() && (#[trigger] entries[c]).0 == key;
            if c < last {
                assert(shorter[c].0 == key);
            }
        }
    }
}

/// Ascending entries are determined by what they hold under each key: two
/// dictionaries that bind the same keys to the same values have the same
/// entries in the same order.
pub proof fn lemma_ascending_entries_unique(
    a: Entries,
    b: Entries,
)
    requires
        keys_ascending(a),
        keys_ascending(b),
        forall|key: Seq<u8>| lookup(a, key) == lookup(b, key),
    ensures
        a == b,
    decreases a.len(),
{
    if a.len() == 0 {
        if b.len() > 0 {
            lemma_key_position(b, b[0].0, 0);
            assert(lookup(a, b[0].0) == lookup(b, b[0].0));
        }
        assert(a =~= b);
    } else {
        let la = a.last();
        let ia = a.len() - 1;
        lemma_key_position(a, la.0, ia);
        assert(lookup(a, la.0) == lookup(b, la.0));
        let j = choose|j: int| 0 <= j < b.len() && (#[trigger] b[j]).0 == la.0;
        lemma_key_position(b, la.0, j);
        let lb = b.last();
        let ib = b.len() - 1;
        lemma_key_position(b, lb.0, ib);
        assert(lookup(a, lb.0) == lookup(b, lb.0));
        let i = choose|i: int| 0 <= i < a.len() && (#[trigger] a[i]).0 == lb.0;
        lemma_key_position(a, lb.0, i);
        if j < ib {
            assert(lex_lt(b[j].0, b[ib].0));
            if i < ia {
                assert(lex_lt(a[i].0, a[ia].0));
                lemma_lex_asymmetric(la.0, lb.0);
            } else {
                lemma_lex_irreflexive(la.0);
            }
        }
        assert(la == lb);
        lemma_lookup_drop_last(a);
        lemma_lookup_drop_last(b);
        assert forall|key: Seq<u8>| lookup(a.drop_last(), key) == lookup(b.drop_last(), key) by {
            assert(lookup(a, key) == lookup(b, key));
        }
        lemma_ascending_entries_unique(a.drop_last(), b.drop_last());
        assert(a =~= a.drop_last().push(la));
        assert(b =~= b.drop_last().push(lb));
    }
}

/// The order in which two different keys are bound does not matter.
pub proof fn lemma_with_entry_commutes(
    entries: Entries,
    first_key: Seq<u8>,
    first_value: ValueTree,
    second_key: Seq<u8>,
    second_value: ValueTree,
)
    requires
        keys_ascending(entries),
        first_key != second_key,
    ensures
        with_entry(with_entry(entries, first_key, first_value), second_key, second_value)
            == with_entry(
            with_entry(entries, second_key, second_value),
            first_key,
            first_value,
        ),
{
    let one = with_entry(entries, first_key, first_value);
    let two = with_entry(entries, second_key, second_value);
    let one_two = with_entry(one, second_key, second_value);
    let two_one = with_entry(two, first_key, first_value);
    lemma_with_entry(entries, first_key, first_value);
    lemma_with_entry(entries, second_key, second_value);
    lemma_with_entry(one, second_key, second_value);
    lemma_with_entry(two, first_key, first_value);
    assert forall|key: Seq<u8>| lookup(one_two, key) == lookup(two_one, key) by {
        if key == first_key {
            assert(lookup(one_two, first_key) == lookup(one, first_key));
        } else if key == second_key {
            assert(lookup(two_one, second_key) == lookup(two, second_key));
        } else {
            assert(lookup(one_two, key) == lookup(one, key));
            assert(lookup(one, key) == lookup(entries, key));
            assert(lookup(two_one, key) == lookup(two, key));
            assert(lookup(two, key) == lookup(entries, key));
        }
    }
    lemma_ascending_entries_unique(one_two, two_one);
}

/// No two of the pairs have the same key.
pub open spec fn distinct_keys(pairs: Entries) -> bool {
    forall|i: int, j: int|
        #![trigger pairs[i], pairs[j]]
        0 <= i < j < pairs.len() ==> pairs[i].0 != pairs[j].0
}

/// The dictionary that comes of binding the pairs one after the other, in
/// the order in which they stand.
pub open spec fn bind_all(pairs: Entries) -> Entries
    decreases pairs.len(),
{
    if pairs.len() == 0 {
        Seq::empty()
    } else {
        with_entry(bind_all(pairs.drop_last()), pairs.last().0, pairs.last().1)
    }
}

/// Each of `a` is one of `b`.
pub open spec fn each_among(a: Entries, b: Entries) -> bool {
    forall|i: int| 0 <= i < a.len() ==> exists|j: int| 0 <= j < b.len() && b[j] == #[trigger] a[i]
}

/// Binding pairs in whatever order gives ascending keys, binds exactly the
/// keys of the pairs, and, where no key occurs twice, binds each key to the
/// value of its pair.
pub proof fn lemma_bind_all(pairs: Entries)
    ensures
        keys_ascending(bind_all(pairs)),
        forall|key: Seq<u8>| #[trigger] has_key(bind_all(pairs), key) <==> has_key(pairs, key),
        distinct_keys(pairs) ==> forall|i: int|
            0 <= i < pairs.len() ==> lookup(bind_all(pairs), (#[trigger] pairs[i]).0) == Some(
                pairs[i].1,
            ),
    decreases pairs.len(),
{
    if pairs.len() > 0 {
        let earlier = pairs.drop_last();
        let last = pairs.last();
        let bound = bind_all(earlier);
        let after = bind_all(pairs);
        lemma_bind_all(earlier);
        lemma_with_entry(bound, last.0, last.1);
        assert forall|key: Seq<u8>| #[trigger] has_key(after, key) <==> has_key(pairs, key) by {
            if key == last.0 {
                assert(pairs[pairs.len() - 1].0 == key);
                assert(lookup(after, key) is Some);
            } else {
                assert(lookup(after, key) == lookup(bound, key));
                assert(has_key(bound, key) <==> has_key(earlier, key));
                if has_key(earlier, key) {
                    let c = choose|c: int|
                        0 <= c < earlier.len() && (#[trigger] earlier[c]).0 == key;
                    assert(pairs[c].0 == key);
                }
                if has_key(pairs, key) {
                    let c = choose|c: int| 0 <= c < pairs.len() && (#[trigger] pairs[c]).0 == key;
                    assert(earlier[c].0 == key);
                }
            }
        }
        if distinct_keys(pairs) {
            assert(distinct_keys(earlier)) by {
                assert forall|i: int, j: int| 0 <= i < j < earlier.len() implies (
                #[trigger] earlier[i]).0 != (#[trigger] earlier[j]).0 by {
                    assert(pairs[i].0 != pairs[j].0);
                }
            }
            assert forall|i: int| 0 <= i < pairs.len() implies lookup(
                after,
                (#[trigger] pairs[i]).0,
            ) == Some(pairs[i].1) by {
                if i < pairs.len() - 1 {
                    assert(pairs[i].0 != pairs[pairs.len() - 1].0);
                    assert(earlier[i] == pairs[i]);
                    assert(lookup(after, pairs[i].0) == lookup(bound, pairs[i].0));
                }
            }
        }
    }
}

/// Binding pairs with well-formed values gives a well-formed dictionary.
pub proof fn lemma_bind_all_wf(pairs: Entries)
    requires
        forall|i: int| 0 <= i < pairs.len() ==> (#[trigger] pairs[i]).1.wf(),
    ensures
        ValueTree::Dictionary(bind_all(pairs)).wf(),
    decreases pairs.len(),
{
    if pairs.len() > 0 {
        let earlier = pairs.drop_last();
        assert forall|i: int| 0 <= i < earlier.len() implies (#[trigger] earlier[i]).1.wf() by {
            assert(earlier[i] == pairs[i]);
        }
        lemma_bind_all_wf(earlier);
        assert(pairs[pairs.len() - 1].1.wf());
        lemma_with_entry_wf(bind_all(earlier), pairs.last().0, pairs.last().1);
    }
}

/// The dictionary that pairs make does not depend on their order: where two
/// sequences without repeated keys hold the same pairs, binding either gives
/// the same entries.
pub proof fn lemma_bind_all_ignores_order(a: Entries, b: Entries)
    requires
        distinct_keys(a),
        distinct_keys(b),
        each_among(a, b),
        each_among(b, a),
    ensures
        bind_all(a) == bind_all(b),
{
    lemma_bind_all(a);
    lemma_bind_all(b);
    assert forall|key: Seq<u8>| lookup(bind_all(a), key) == lookup(bind_all(b), key) by {
        if has_key(a, key) {
            let i = choose|i: int| 0 <= i < a.len() && (#[trigger] a[i]).0 == key;
            let j = choose|j: int| 0 <= j < b.len() && b[j] == a[i];
            assert(lookup(bind_all(a), a[i].0) == Some(a[i].1));
            assert(lookup(bind_all(b), b[j].0) == Some(b[j].1));
        } else {
            assert(!has_key(bind_all(a), key));
            if has_key(b, key) {
                let j = choose|j: int| 0 <= j < b.len() && (#[trigger] b[j]).0 == key;
                let i = choose|i: int| 0 <= i < a.len() && a[i] == b[j];
                assert(a[i].0 == key);
            }
            assert(!has_key(bind_all(b), key));
        }
    }
    lemma_ascending_entries_unique(bind_all(a), bind_all(b));
}

/// Binding entries that already stand in ascending order of their keys gives
/// the entries as they stand.
pub proof fn lemma_bind_all_of_ascending(entries: Entries)
    requires
        keys_ascending(entries),
    ensures
        bind_all(entries) == entries,
        distinct_keys(entries),
    decreases entries.len(),
{
    assert(distinct_keys(entries)) by {
        assert forall|i: int, j: int| 0 <= i < j < entries.len() implies (#[trigger] entries[i]).0
            != (#[trigger] entries[j]).0 by {
            assert(lex_lt(entries[i].0, entries[j].0));
            lemma_lex_irreflexive(entries[i].0);
        }
    }
    if entries.len() > 0 {
        let earlier = entries.drop_last();
        let last = entries.last();
        lemma_lookup_drop_last(entries);
        lemma_bind_all_of_ascending(earlier);
        assert forall|j: int| 0 <= j < earlier.len() implies lex_lt(
            (#[trigger] earlier[j]).0,
            last.0,
        ) by {
            assert(lex_lt(entries[j].0, entries[entries.len() - 1].0));
        }
        lemma_first_not_below_is(earlier, last.0, earlier.len() as int);
        assert(earlier.insert(earlier.len() as int, last) =~= entries);
    } else {
        assert(bind_all(entries) =~= entries);
    }
}

} // verus!
