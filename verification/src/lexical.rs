//! The byte-lexicographic order on byte strings, by which dictionary keys
//! are kept and emitted.

use vstd::prelude::*;

verus! {

/// `a` and `b` agree on their first `k` bytes.
pub open spec fn agree_upto(a: Seq<u8>, b: Seq<u8>, k: int) -> bool {
    &&& 0 <= k <= a.len()
    &&& k <= b.len()
    &&& forall|j: int| 0 <= j < k ==> a[j] == b[j]
}

/// `a` comes strictly before `b` in byte-lexicographic order: after a common
/// prefix, either `a` ends and `b` goes on, or `a` holds the smaller byte.
pub open spec fn lex_lt(a: Seq<u8>, b: Seq<u8>) -> bool {
    exists|k: int| #[trigger]
        agree_upto(a, b, k) && k < b.len() && (k == a.len() || a[k] < b[k])
}

/// No byte string comes before itself.
pub proof fn lemma_lex_irreflexive(a: Seq<u8>)
    ensures
        !lex_lt(a, a),
{
}

/// The order is asymmetric.
pub proof fn lemma_lex_asymmetric(a: Seq<u8>, b: Seq<u8>)
    requires
        lex_lt(a, b),
    ensures
        !lex_lt(b, a),
{
    let k = choose|k: int| #[trigger]
        agree_upto(a, b, k) && k < b.len() && (k == a.len() || a[k] < b[k]);
    if lex_lt(b, a) {
        let m = choose|m: int| #[trigger]
            agree_upto(b, a, m) && m < a.len() && (m == b.len() || b[m] < a[m]);
        if m < k {
            assert(a[m] == b[m]);
        } else if k < m {
            assert(b[k] == a[k]);
        }
    }
}

/// The order is transitive.
pub proof fn lemma_lex_transitive(a: Seq<u8>, b: Seq<u8>, c: Seq<u8>)
    requires
        lex_lt(a, b),
        lex_lt(b, c),
    ensures
        lex_lt(a, c),
{
    let k = choose|k: int| #[trigger]
        agree_upto(a, b, k) && k < b.len() && (k == a.len() || a[k] < b[k]);
    let m = choose|m: int| #[trigger]
        agree_upto(b, c, m) && m < c.len() && (m == b.len() || b[m] < c[m]);
    let n = if k <= m {
        k
    } else {
        m
    };
    assert(agree_upto(a, c, n)) by {
        assert forall|j: int| 0 <= j < n implies a[j] == c[j] by {
            assert(a[j] == b[j]);
            assert(b[j] == c[j]);
        }
    }
    if k < m {
        assert(b[k] == c[k]);
    }
}

/// Two different byte strings are ordered one way or the other.
pub proof fn lemma_lex_total(a: Seq<u8>, b: Seq<u8>)
    ensures
        a == b || lex_lt(a, b) || lex_lt(b, a),
{
    let k = first_difference(a, b, 0);
    lemma_first_difference(a, b, 0);
    assert(agree_upto(a, b, k));
    assert(agree_upto(b, a, k));
    if k == a.len() && k == b.len() {
        assert(a =~= b);
    }
}

/// The first index from `from` on at which `a` and `b` differ or one of them
/// ends.
pub open spec fn first_difference(a: Seq<u8>, b: Seq<u8>, from: int) -> int
    decreases a.len() - from,
{
    if 0 <= from < a.len() && from < b.len() && a[from] == b[from] {
        first_difference(a, b, from + 1)
    } else {
        from
    }
}

/// Up to the first difference the two byte strings agree, and there they
/// differ or one of them ends.
proof fn lemma_first_difference(a: Seq<u8>, b: Seq<u8>, from: int)
    requires
        agree_upto(a, b, from),
    ensures
        agree_upto(a, b, first_difference(a, b, from)),
        from <= first_difference(a, b, from),
        first_difference(a, b, from) == a.len() || first_difference(a, b, from) == b.len()
            || a[first_difference(a, b, from)] != b[first_difference(a, b, from)],
    decreases a.len() - from,
{
    if from < a.len() && from < b.len() && a[from] == b[from] {
        assert(agree_upto(a, b, from + 1));
        lemma_first_difference(a, b, from + 1);
    }
}

/// Tells whether two byte strings hold the same bytes.
pub fn bytes_eq(a: &[u8], b: &[u8]) -> (same: bool)
    ensures
        same == (a@ == b@),
{
    if a.len() != b.len() {
        return false;
    }
    let mut i: usize = 0;
    while i < a.len()
        invariant
            a@.len() == b@.len(),
            i <= a@.len(),
            forall|j: int| 0 <= j < i ==> a@[j] == b@[j],
        decreases a@.len() - i,
    {
        if a[i] != b[i] {
            return false;
        }
        i += 1;
    }
    assert(a@ =~= b@);
    true
}

/// Tells whether `a` comes strictly before `b` in byte-lexicographic order.
pub fn bytes_lt(a: &[u8], b: &[u8]) -> (before: bool)
    ensures
        before == lex_lt(a@, b@),
{
    let mut i: usize = 0;
    while i < a.len() && i < b.len()
        invariant
            agree_upto(a@, b@, i as int),
        decreases a@.len() - i,
    {
        if a[i] != b[i] {
            proof {
                lemma_decided_at(a@, b@, i as int);
            }
            return a[i] < b[i];
        }
        i += 1;
        assert(agree_upto(a@, b@, i as int));
    }
    proof {
        lemma_decided_at(a@, b@, i as int);
    }
    i < b.len()
}

/// Where two byte strings agree up to `k` and differ or end there, their
/// order is decided at `k`.
proof fn lemma_decided_at(a: Seq<u8>, b: Seq<u8>, k: int)
    requires
        agree_upto(a, b, k),
        k == a.len() || k == b.len() || a[k] != b[k],
    ensures
        lex_lt(a, b) <==> (k < b.len() && (k == a.len() || a[k] < b[k])),
{
    if lex_lt(a, b) {
        let m = choose|m: int| #[trigger]
            agree_upto(a, b, m) && m < b.len() && (m == a.len() || a[m] < b[m]);
        if m < k {
            assert(a[m] == b[m]);
        } else if k < m {
            assert(a[k] == b[k]);
        }
    }
}

} // verus!
