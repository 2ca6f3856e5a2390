//! The matches stated in bytes.
//!
//! Matches are computed over characters; these laws restate them over the UTF-8
//! encoding of the text, where `Match::start` and `Match::text` live.
use vstd::prelude::*;
use vstd::utf8::encode_utf8;

use crate::model::{all_matches, lemma_all_matches_complete, lemma_all_matches_ordered};
use crate::utf8::{byte_offset, lemma_byte_occurrence, lemma_byte_offset_mono};

verus! {

/// The matches in bytes: taking each listed match as the byte offset where it
/// starts and the characters it covers, `w` is listed at byte offset `b` if and
/// only if `w` is a nonempty keyword whose UTF-8 encoding appears in the encoding
/// of `t` starting at byte `b`.
pub proof fn lemma_all_matches_bytes(t: Seq<char>, kws: Set<Seq<char>>, b: int, w: Seq<char>)
    ensures
        (exists|a: int|
            0 <= a < all_matches(t, kws).len() && byte_offset(
                t,
                (#[trigger] all_matches(t, kws)[a]).0,
            ) == b && t.subrange(all_matches(t, kws)[a].0, all_matches(t, kws)[a].1) == w)
            <==> (w.len() > 0 && kws.contains(w) && 0 <= b && b + encode_utf8(w).len()
            <= encode_utf8(t).len() && encode_utf8(t).subrange(b, b + encode_utf8(w).len())
            == encode_utf8(w)),
{
    let all = all_matches(t, kws);
    if exists|a: int|
        0 <= a < all.len() && byte_offset(t, (#[trigger] all[a]).0) == b && t.subrange(
            all[a].0,
            all[a].1,
        ) == w {
        let a = choose|a: int|
            0 <= a < all.len() && byte_offset(t, (#[trigger] all[a]).0) == b && t.subrange(
                all[a].0,
                all[a].1,
            ) == w;
        let (i, j) = all[a];
        assert(all.contains((i, j)));
        lemma_all_matches_complete(t, kws, i, j);
        lemma_byte_occurrence(t, w, b);
        assert(t.subrange(i, i + w.len()) == w);
    }
    if w.len() > 0 {
        lemma_byte_occurrence(t, w, b);
        if kws.contains(w) && 0 <= b && b + encode_utf8(w).len() <= encode_utf8(t).len()
            && encode_utf8(t).subrange(b, b + encode_utf8(w).len()) == encode_utf8(w) {
            let i = choose|i: int|
                0 <= i && i + w.len() <= t.len() && byte_offset(t, i) == b && #[trigger] t.subrange(
                    i,
                    i + w.len(),
                ) == w;
            lemma_all_matches_complete(t, kws, i, i + w.len());
            let a = choose|a: int| 0 <= a < all.len() && all[a] == (i, i + w.len());
            assert(byte_offset(t, all[a].0) == b);
        }
    }
}

/// No byte-level occurrence is listed twice: two listed matches differ in the
/// byte offset where they start or in the characters they cover.
pub proof fn lemma_all_matches_bytes_distinct(t: Seq<char>, kws: Set<Seq<char>>, a: int, c: int)
    requires
        0 <= a < c < all_matches(t, kws).len(),
    ensures
        byte_offset(t, all_matches(t, kws)[a].0) != byte_offset(t, all_matches(t, kws)[c].0)
            || t.subrange(all_matches(t, kws)[a].0, all_matches(t, kws)[a].1) != t.subrange(
            all_matches(t, kws)[c].0,
            all_matches(t, kws)[c].1,
        ),
{
    let all = all_matches(t, kws);
    let (i1, j1) = all[a];
    let (i2, j2) = all[c];
    assert(all.contains((i1, j1)));
    assert(all.contains((i2, j2)));
    lemma_all_matches_complete(t, kws, i1, j1);
    lemma_all_matches_complete(t, kws, i2, j2);
    lemma_all_matches_ordered(t, kws, a, c);
    if i1 < i2 {
        lemma_byte_offset_mono(t, i1, i2);
    } else if i2 < i1 {
        lemma_byte_offset_mono(t, i2, i1);
    } else {
        assert(j1 != j2);
        assert(t.subrange(i1, j1).len() != t.subrange(i2, j2).len());
    }
}

} // verus!
