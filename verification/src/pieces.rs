//! The per-piece digests: the `pieces` blob of a torrent cut into windows of
//! twenty bytes, each rendered as hexadecimal text.

use crate::hexstr::{hex_bytes, hex_chars, is_lower_hex_text, lemma_hex_inverts, to_hex};
use vstd::prelude::*;
use vstd::slice::slice_subrange;

verus! {

/// How many windows a blob of `len` bytes is cut into: one for every twenty
/// bytes, and one more for what is left over.
pub open spec fn window_count(len: nat) -> nat {
    (len + 19) / 20
}

/// The window of `blob` at `index`: twenty bytes, or what is left of the
/// blob where it ends earlier.
pub open spec fn window(blob: Seq<u8>, index: int) -> Seq<u8> {
    blob.subrange(
        20 * index,
        if 20 * index + 20 <= blob.len() {
            20 * index + 20
        } else {
            blob.len() as int
        },
    )
}

/// The hexadecimal renderings of the windows of `blob`, in order.
pub open spec fn piece_hashes(blob: Seq<u8>) -> Seq<Seq<char>> {
    Seq::new(window_count(blob.len()), |index: int| hex_chars(window(blob, index)))
}

/// The character sequences of a sequence of strings.
pub open spec fn texts(strings: Seq<String>) -> Seq<Seq<char>> {
    Seq::new(strings.len(), |i: int| strings[i]@)
}

/// The concatenation of byte strings, in order.
pub open spec fn join(parts: Seq<Seq<u8>>) -> Seq<u8>
    decreases parts.len(),
{
    if parts.len() == 0 {
        Seq::empty()
    } else {
        join(parts.drop_last()) + parts.last()
    }
}

/// The bytes that each of `hashes` stands for.
pub open spec fn decoded(hashes: Seq<Seq<char>>) -> Seq<Seq<u8>> {
    Seq::new(hashes.len(), |i: int| hex_bytes(hashes[i]))
}

/// Splits `pieces` into consecutive windows of twenty bytes, in order, and
/// renders each as lowercase hexadecimal text. Bytes left over after the
/// last full window make a shorter last one.
pub fn parse_piece_hashes(pieces: &[u8]) -> (hashes: Vec<String>)
    ensures
        texts(hashes@) == piece_hashes(pieces@),
        hashes@.len() == window_count(pieces@.len()),
        pieces@.len() % 20 == 0 ==> hashes@.len() == pieces@.len() / 20,
{
    let len = pieces.len();
    let mut hashes: Vec<String> = Vec::new();
    let mut start: usize = 0;
    while start < len
        invariant
            len == pieces@.len(),
            start <= len,
            start == len || start == 20 * hashes@.len(),
            20 * hashes@.len() >= start,
            hashes@.len() <= window_count(len as nat),
            forall|i: int|
                0 <= i < hashes@.len() ==> (#[trigger] hashes@[i])@ == hex_chars(
                    window(pieces@, i),
                ),
        decreases len - start,
    {
        let end: usize = if len - start >= 20 {
            start + 20
        } else {
            len
        };
        let text = to_hex(slice_subrange(pieces, start, end));
        hashes.push(text);
        start = end;
    }
    assert(texts(hashes@) =~= piece_hashes(pieces@));
    hashes
}

/// Where the window at `index` ends in a blob of `len` bytes.
pub open spec fn window_end(len: nat, index: int) -> int {
    if 20 * index + 20 <= len {
        20 * index + 20
    } else {
        len as int
    }
}

/// The windows of `blob`, in order.
pub open spec fn windows(blob: Seq<u8>) -> Seq<Seq<u8>> {
    Seq::new(window_count(blob.len()), |index: int| window(blob, index))
}

/// The first `count` windows, joined, are the blob up to the end of the last
/// of them.
proof fn lemma_join_windows(blob: Seq<u8>, count: int)
    requires
        0 <= count <= window_count(blob.len()),
    ensures
        join(windows(blob).take(count)) == blob.take(
            if count == 0 {
                0
            } else {
                window_end(blob.len(), count - 1)
            },
        ),
    decreases count,
{
    let parts = windows(blob);
    if count == 0 {
        assert(parts.take(0) =~= Seq::<Seq<u8>>::empty());
        assert(blob.take(0) =~= Seq::<u8>::empty());
    } else {
        lemma_join_windows(blob, count - 1);
        let start = 20 * (count - 1);
        let end = window_end(blob.len(), count - 1);
        assert(start < blob.len());
        if count > 1 {
            assert(window_end(blob.len(), count - 2) == start);
        }
        let before = join(parts.take(count - 1));
        let last = blob.subrange(start, end);
        assert(before == blob.take(start));
        assert(parts.take(count).drop_last() =~= parts.take(count - 1));
        assert(parts.take(count).last() == parts[count - 1]);
        assert(parts[count - 1] == last);
        assert(join(parts.take(count)) == before + last);
        assert(blob.take(start) + last =~= blob.take(end));
    }
}

/// Decoding the piece hashes and joining the bytes gives the blob back,
/// whatever its length.
pub proof fn lemma_piece_hashes_rejoin(blob: Seq<u8>)
    ensures
        join(decoded(piece_hashes(blob))) == blob,
{
    let parts = decoded(piece_hashes(blob));
    let count = window_count(blob.len()) as int;
    assert(parts =~= windows(blob)) by {
        assert forall|i: int| 0 <= i < count implies parts[i] == windows(blob)[i] by {
            lemma_hex_inverts(window(blob, i));
        }
    }
    lemma_join_windows(blob, count);
    assert(windows(blob).take(count) =~= windows(blob));
    if count > 0 {
        assert(window_end(blob.len(), count - 1) == blob.len());
    }
    assert(blob.take(blob.len() as int) =~= blob);
}

/// A blob of `20 * k` bytes has exactly `k` piece hashes, each of forty
/// lowercase hexadecimal characters, and the bytes that they stand for,
/// joined in order, are the blob.
pub proof fn lemma_piece_hashes_total(blob: Seq<u8>, k: nat)
    requires
        blob.len() == 20 * k,
    ensures
        piece_hashes(blob).len() == k,
        forall|i: int|
            0 <= i < k ==> (#[trigger] piece_hashes(blob)[i]).len() == 40 && is_lower_hex_text(
                piece_hashes(blob)[i],
            ),
        join(decoded(piece_hashes(blob))) == blob,
{
    lemma_piece_hashes_rejoin(blob);
    assert forall|i: int| 0 <= i < k implies (#[trigger] piece_hashes(blob)[i]).len() == 40
        && is_lower_hex_text(piece_hashes(blob)[i]) by {
        lemma_hex_inverts(window(blob, i));
    }
}

} // verus!
