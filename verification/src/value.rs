//! The executable bencode value and its dictionary, which keeps its keys in
//! byte-lexicographic order.

use crate::lexical::{bytes_eq, bytes_lt, lex_lt};
use crate::model::{
    first_not_below, has_key, lemma_dictionary_values_wf, lemma_first_not_below_is,
    lemma_has_key_at_position, lemma_with_entry_wf, lookup, with_entry, Entries, ValueTree,
};
use vstd::prelude::*;

verus! {

/// A mapping from byte-string keys to values. No key occurs twice, and the
/// entries are kept in byte-lexicographic order of their keys, whatever the
/// order in which they were inserted.
#[derive(Debug, PartialEq, Eq)]
pub struct Dictionary {
    entries: Vec<(Vec<u8>, BencodeValue)>,
}

/// A bencode value.
#[derive(Debug, PartialEq, Eq)]
pub enum BencodeValue {
    /// A signed 64-bit integer.
    Integer(i64),
    /// A raw byte string.
    ByteString(Vec<u8>),
    /// An ordered sequence of values.
    List(Vec<BencodeValue>),
    /// A mapping from byte-string keys to values.
    Dictionary(Dictionary),
}

impl Dictionary {
    /// The entries, key and value, in stored order.
    pub closed spec fn model(&self) -> Entries
        decreases self,
    {
        Seq::new(
            self.entries@.len(),
            |i: int|
                if 0 <= i < self.entries@.len() {
                    (self.entries@[i].0@, self.entries@[i].1.model())
                } else {
                    arbitrary()
                },
        )
    }

    /// The keys are strictly ascending, and every value is well formed.
    pub open spec fn wf(&self) -> bool {
        ValueTree::Dictionary(self@).wf()
    }
}

impl BencodeValue {
    /// The value tree that this value stands for.
    pub open spec fn model(&self) -> ValueTree
        decreases self,
    {
        match self {
            BencodeValue::Integer(n) => ValueTree::Integer(*n),
            BencodeValue::ByteString(bytes) => ValueTree::ByteString(bytes@),
            BencodeValue::List(items) => ValueTree::List(
                Seq::new(
                    items@.len(),
                    |i: int|
                        if 0 <= i < items@.len() {
                            items@[i].model()
                        } else {
                            arbitrary()
                        },
                ),
            ),
            BencodeValue::Dictionary(d) => ValueTree::Dictionary(d.model()),
        }
    }

    /// Every dictionary in the value has strictly ascending keys.
    pub open spec fn wf(&self) -> bool {
        self@.wf()
    }
}

/// The value trees of a sequence of values, item by item.
pub open spec fn list_model(items: Seq<BencodeValue>) -> Seq<ValueTree> {
    Seq::new(items.len(), |i: int| items[i].model())
}

/// The model of a list is the list of the models of its items.
pub proof fn lemma_list_model(items: Vec<BencodeValue>)
    ensures
        BencodeValue::List(items)@ == ValueTree::List(list_model(items@)),
{
    assert(BencodeValue::List(items)@->List_0 =~= list_model(items@));
}

impl View for Dictionary {
    type V = Entries;

    open spec fn view(&self) -> Entries {
        self.model()
    }
}

impl View for BencodeValue {
    type V = ValueTree;

    open spec fn view(&self) -> ValueTree {
        self.model()
    }
}

/// Copies a byte string.
pub fn copy_bytes(bytes: &[u8]) -> (out: Vec<u8>)
    ensures
        out@ == bytes@,
{
    let mut out: Vec<u8> = Vec::with_capacity(bytes.len());
    let mut i: usize = 0;
    while i < bytes.len()
        invariant
            i <= bytes@.len(),
            out@ == bytes@.take(i as int),
        decreases bytes@.len() - i,
    {
        out.push(bytes[i]);
        i += 1;
    }
    out
}

impl Dictionary {
    /// The empty dictionary.
    pub fn new() -> (d: Dictionary)
        ensures
            d@ == Entries::empty(),
            d.wf(),
    {
        let d = Dictionary { entries: Vec::new() };
        assert(d.model() =~= Seq::empty());
        d
    }

    /// The number of entries.
    pub fn len(&self) -> (n: usize)
        ensures
            n == self@.len(),
    {
        self.entries.len()
    }

    /// Tells whether the dictionary has no entry.
    pub fn is_empty(&self) -> (empty: bool)
        ensures
            empty == (self@.len() == 0),
    {
        self.entries.len() == 0
    }

    /// The key of the entry at `index`, in stored order.
    pub fn key_at(&self, index: usize) -> (key: &Vec<u8>)
        requires
            index < self@.len(),
        ensures
            key@ == self@[index as int].0,
    {
        &self.entries[index].0
    }

    /// The value of the entry at `index`, in stored order.
    pub fn value_at(&self, index: usize) -> (value: &BencodeValue)
        requires
            index < self@.len(),
        ensures
            value@ == self@[index as int].1,
            self.wf() ==> value.wf(),
    {
        proof {
            if self.wf() {
                lemma_dictionary_values_wf(self@, index as int);
            }
        }
        &self.entries[index].1
    }

    /// The index of the first entry whose key is not below `key`.
    fn position(&self, key: &[u8]) -> (p: usize)
        ensures
            p == first_not_below(self@, key@, 0),
            p <= self@.len(),
    {
        let mut p: usize = 0;
        while p < self.entries.len() && bytes_lt(self.entries[p].0.as_slice(), key)
            invariant
                p <= self@.len(),
                forall|j: int| 0 <= j < p ==> lex_lt((#[trigger] self@[j]).0, key@),
            decreases self@.len() - p,
        {
            p += 1;
        }
        proof {
            lemma_first_not_below_is(self@, key@, p as int);
        }
        p
    }

    /// Tells whether some entry has the key `key`.
    pub fn contains_key(&self, key: &[u8]) -> (found: bool)
        requires
            self.wf(),
        ensures
            found == has_key(self@, key@),
    {
        let p = self.position(key);
        proof {
            lemma_has_key_at_position(self@, key@);
        }
        p < self.entries.len() && bytes_eq(self.entries[p].0.as_slice(), key)
    }

    /// The value under `key`, if the dictionary has one.
    pub fn get(&self, key: &[u8]) -> (found: Option<&BencodeValue>)
        requires
            self.wf(),
        ensures
            match found {
                Some(value) => lookup(self@, key@) == Some(value@) && value.wf(),
                None => lookup(self@, key@) is None,
            },
    {
        let p = self.position(key);
        proof {
            lemma_has_key_at_position(self@, key@);
        }
        if p < self.entries.len() && bytes_eq(self.entries[p].0.as_slice(), key) {
            proof {
                lemma_dictionary_values_wf(self@, p as int);
            }
            Some(&self.entries[p].1)
        } else {
            None
        }
    }

    /// Binds `key` to `value`. A value already under `key` is replaced; a new
    /// entry goes where the order of keys puts it.
    pub fn insert(&mut self, key: Vec<u8>, value: BencodeValue)
        requires
            old(self).wf(),
            value.wf(),
        ensures
            final(self)@ == with_entry(old(self)@, key@, value@),
            final(self).wf(),
    {
        let p = self.position(key.as_slice());
        let ghost before = self@;
        let ghost k = key@;
        let ghost v = value@;
        if p < self.entries.len() && bytes_eq(self.entries[p].0.as_slice(), key.as_slice()) {
            self.entries[p] = (key, value);
            assert(self.model() =~= before.update(p as int, (k, v)));
        } else {
            self.entries.insert(p, (key, value));
            assert(self.model() =~= before.insert(p as int, (k, v)));
        }
        proof {
            lemma_with_entry_wf(before, k, v);
        }
    }
}

/// Copies a list of values.
fn clone_items(items: &Vec<BencodeValue>) -> (out: Vec<BencodeValue>)
    ensures
        out@.len() == items@.len(),
        forall|j: int| 0 <= j < items@.len() ==> (#[trigger] out@[j])@ == items@[j]@,
    decreases items,
{
    let mut out: Vec<BencodeValue> = Vec::with_capacity(items.len());
    let mut i: usize = 0;
    while i < items.len()
        invariant
            i <= items@.len(),
            out@.len() == i,
            forall|j: int| 0 <= j < i ==> (#[trigger] out@[j])@ == items@[j]@,
        decreases items@.len() - i,
    {
        let item = items[i].clone();
        out.push(item);
        i += 1;
    }
    out
}

/// Copies the entries of a dictionary.
fn clone_entries(entries: &Vec<(Vec<u8>, BencodeValue)>) -> (out: Vec<(Vec<u8>, BencodeValue)>)
    ensures
        out@.len() == entries@.len(),
        forall|j: int|
            0 <= j < entries@.len() ==> (#[trigger] out@[j]).0@ == entries@[j].0@ && out@[j].1@
                == entries@[j].1@,
    decreases entries,
{
    let mut out: Vec<(Vec<u8>, BencodeValue)> = Vec::with_capacity(entries.len());
    let mut i: usize = 0;
    while i < entries.len()
        invariant
            i <= entries@.len(),
            out@.len() == i,
            forall|j: int|
                0 <= j < i ==> (#[trigger] out@[j]).0@ == entries@[j].0@ && out@[j].1@
                    == entries@[j].1@,
        decreases entries@.len() - i,
    {
        let key = copy_bytes(entries[i].0.as_slice());
        let value = entries[i].1.clone();
        out.push((key, value));
        i += 1;
    }
    out
}

impl Clone for Dictionary {
    /// A deep copy, which stands for the same entries.
    fn clone(&self) -> (copy: Dictionary)
        ensures
            copy@ == self@,
        decreases self,
    {
        let copy = Dictionary { entries: clone_entries(&self.entries) };
        assert(copy.model() =~= self.model());
        copy
    }
}

impl Clone for BencodeValue {
    /// A deep copy, which stands for the same value tree.
    fn clone(&self) -> (copy: BencodeValue)
        ensures
            copy@ == self@,
        decreases self,
    {
        match self {
            BencodeValue::Integer(n) => BencodeValue::Integer(*n),
            BencodeValue::ByteString(bytes) => BencodeValue::ByteString(
                copy_bytes(bytes.as_slice()),
            ),
            BencodeValue::List(items) => {
                let copy = BencodeValue::List(clone_items(items));
                assert(copy@->List_0 =~= self@->List_0);
                copy
            },
            BencodeValue::Dictionary(d) => BencodeValue::Dictionary(d.clone()),
        }
    }
}

} // verus!
