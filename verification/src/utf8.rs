//! Byte offsets of characters in UTF-8 text.
//!
//! The search works on `char`s while matches report byte offsets. This module
//! ties the two together through vstd's model of UTF-8 (`encode_utf8`).
use vstd::prelude::*;
use vstd::utf8::*;

verus! {

broadcast use vstd::utf8::group_utf8_lib;

/// Number of bytes in the UTF-8 encoding of `c`.
pub open spec fn char_width(c: char) -> nat {
    encode_scalar(c as u32).len()
}

/// Byte offset, in the UTF-8 encoding of `s`, of the character at index `k`.
pub open spec fn byte_offset(s: Seq<char>, k: int) -> nat {
    encode_utf8(s.take(k)).len()
}

/// Encoding a concatenation encodes each part in turn.
pub proof fn lemma_encode_concat(a: Seq<char>, b: Seq<char>)
    ensures
        encode_utf8(a + b) == encode_utf8(a) + encode_utf8(b),
    decreases a.len(),
{
    if a.len() == 0 {
        assert(a + b =~= b);
        assert(encode_utf8(a) + encode_utf8(b) =~= encode_utf8(b));
    } else {
        assert((a + b).drop_first() =~= a.drop_first() + b);
        lemma_encode_concat(a.drop_first(), b);
        assert(encode_utf8(a + b) =~= encode_utf8(a) + encode_utf8(b));
    }
}

/// A single character encodes to its scalar's encoding.
pub proof fn lemma_encode_single(c: char)
    ensures
        encode_utf8(seq![c]) == encode_scalar(c as u32),
{
    let one = seq![c];
    assert(one.drop_first() =~= Seq::<char>::empty());
    assert(encode_utf8(Seq::<char>::empty()) =~= Seq::<u8>::empty());
    assert(encode_utf8(one) =~= encode_scalar(c as u32));
}

/// Appending one character appends its encoding.
pub proof fn lemma_encode_push(a: Seq<char>, c: char)
    ensures
        encode_utf8(a.push(c)) == encode_utf8(a) + encode_scalar(c as u32),
        encode_utf8(a.push(c)).len() == encode_utf8(a).len() + char_width(c),
{
    let one = seq![c];
    assert(a.push(c) =~= a + one);
    lemma_encode_concat(a, one);
    lemma_encode_single(c);
}

/// Every character has an encoding of one to four bytes.
pub proof fn lemma_char_width_bounds(c: char)
    ensures
        1 <= char_width(c) <= 4,
{
    char_is_scalar(c);
}

/// The offset of character `k + 1` is the offset of character `k` plus its width.
pub proof fn lemma_byte_offset_step(s: Seq<char>, k: int)
    requires
        0 <= k < s.len(),
    ensures
        byte_offset(s, k + 1) == byte_offset(s, k) + char_width(s[k]),
{
    assert(s.take(k + 1) =~= s.take(k).push(s[k]));
    lemma_encode_push(s.take(k), s[k]);
}

/// Offsets grow strictly with the index.
pub proof fn lemma_byte_offset_increasing(s: Seq<char>, i: int, j: int)
    requires
        0 <= i <= j <= s.len(),
    ensures
        byte_offset(s, i) <= byte_offset(s, j),
        i < j ==> byte_offset(s, i) < byte_offset(s, j),
    decreases j - i,
{
    if i < j {
        lemma_byte_offset_increasing(s, i, j - 1);
        lemma_byte_offset_step(s, j - 1);
        lemma_char_width_bounds(s[j - 1]);
    }
}

/// Offsets grow with the index and stay within the encoding.
pub proof fn lemma_byte_offset_mono(s: Seq<char>, i: int, j: int)
    requires
        0 <= i <= j <= s.len(),
    ensures
        byte_offset(s, i) <= byte_offset(s, j) <= encode_utf8(s).len(),
        i < j ==> byte_offset(s, i) < byte_offset(s, j),
{
    lemma_byte_offset_increasing(s, i, j);
    lemma_byte_offset_increasing(s, j, s.len() as int);
    assert(s.take(s.len() as int) =~= s);
}

/// The encoding of `s` splits at the offset of any character index.
pub proof fn lemma_encode_split(s: Seq<char>, k: int)
    requires
        0 <= k <= s.len(),
    ensures
        encode_utf8(s) == encode_utf8(s.take(k)) + encode_utf8(s.skip(k)),
        encode_utf8(s).subrange(0, byte_offset(s, k) as int) == encode_utf8(s.take(k)),
        encode_utf8(s).subrange(byte_offset(s, k) as int, encode_utf8(s).len() as int)
            == encode_utf8(s.skip(k)),
{
    assert(s =~= s.take(k) + s.skip(k));
    lemma_encode_concat(s.take(k), s.skip(k));
    let e = encode_utf8(s);
    assert(e.subrange(0, byte_offset(s, k) as int) =~= encode_utf8(s.take(k)));
    assert(e.subrange(byte_offset(s, k) as int, e.len() as int) =~= encode_utf8(s.skip(k)));
}

/// The offset of every character index is a character boundary.
pub proof fn lemma_offset_is_char_boundary(s: Seq<char>, k: int)
    requires
        0 <= k <= s.len(),
    ensures
        is_char_boundary(encode_utf8(s), byte_offset(s, k) as int),
    decreases k,
{
    let bytes = encode_utf8(s);
    encode_utf8_valid_utf8(s);
    if k == 0 {
        assert(s.take(0) =~= Seq::<char>::empty());
    } else {
        let rest = s.drop_first();
        encode_utf8_first_scalar(s);
        assert(pop_first_scalar(bytes) =~= encode_utf8(rest));
        lemma_offset_is_char_boundary(rest, k - 1);
        assert(s.take(k) =~= seq![s[0]] + rest.take(k - 1));
        lemma_encode_concat(seq![s[0]], rest.take(k - 1));
        lemma_encode_single(s[0]);
        lemma_byte_offset_mono(s, k, s.len() as int);
        assert(s.take(s.len() as int) =~= s);
    }
}

/// The bytes between the offsets of characters `i` and `j` encode the characters `i..j`.
pub proof fn lemma_offset_diff(s: Seq<char>, i: int, j: int)
    requires
        0 <= i <= j <= s.len(),
    ensures
        byte_offset(s, j) == byte_offset(s, i) + encode_utf8(s.subrange(i, j)).len(),
        byte_offset(s.skip(i), j - i) == encode_utf8(s.subrange(i, j)).len(),
{
    assert(s.take(j) =~= s.take(i) + s.subrange(i, j));
    lemma_encode_concat(s.take(i), s.subrange(i, j));
    assert(s.skip(i).take(j - i) =~= s.subrange(i, j));
}

/// A character's encoding is the only sequence that encodes to the same bytes.
pub proof fn lemma_encode_injective(a: Seq<char>, b: Seq<char>)
    requires
        encode_utf8(a) == encode_utf8(b),
    ensures
        a == b,
{
    encode_utf8_decode_utf8(a);
    encode_utf8_decode_utf8(b);
}

/// Every character boundary of the encoding of `s` is the byte offset of a
/// character index of `s`.
pub proof fn lemma_char_boundary_is_offset(s: Seq<char>, b: int) -> (k: int)
    requires
        is_char_boundary(encode_utf8(s), b),
    ensures
        0 <= k <= s.len(),
        byte_offset(s, k) == b,
    decreases s.len(),
{
    let bytes = encode_utf8(s);
    encode_utf8_valid_utf8(s);
    if b == 0 {
        assert(s.take(0) =~= Seq::<char>::empty());
        0
    } else {
        if s.len() == 0 {
            assert(bytes.len() == 0);
        }
        let rest = s.drop_first();
        encode_utf8_first_scalar(s);
        assert(pop_first_scalar(bytes) =~= encode_utf8(rest));
        let l = length_of_first_scalar(bytes);
        let k1 = lemma_char_boundary_is_offset(rest, b - l);
        assert(s.take(k1 + 1) =~= seq![s[0]] + rest.take(k1));
        lemma_encode_concat(seq![s[0]], rest.take(k1));
        lemma_encode_single(s[0]);
        k1 + 1
    }
}

/// UTF-8 is a prefix code: where the encoding of `k` begins the encoding of `s`,
/// `k` begins `s`.
pub proof fn lemma_encode_prefix(s: Seq<char>, k: Seq<char>)
    requires
        encode_utf8(k).len() <= encode_utf8(s).len(),
        encode_utf8(s).take(encode_utf8(k).len() as int) == encode_utf8(k),
    ensures
        k.len() <= s.len(),
        s.take(k.len() as int) == k,
    decreases k.len(),
{
    if k.len() == 0 {
        assert(s.take(0) =~= k);
    } else {
        let es = encode_utf8(s);
        let ek = encode_utf8(k);
        encode_utf8_first_scalar(k);
        let l = length_of_first_scalar(ek);
        assert(ek =~= encode_scalar(k[0] as u32) + encode_utf8(k.drop_first()));
        assert(1 <= l <= ek.len());
        if s.len() == 0 {
            assert(es.len() == 0);
        }
        encode_utf8_first_scalar(s);
        assert forall|i: int| 0 <= i < ek.len() implies es[i] == ek[i] by {
            assert(es.take(ek.len() as int)[i] == es[i]);
        }
        assert(es[0] == ek[0]);
        assert(length_of_first_scalar(es) == l);
        if l >= 2 {
            assert(es[1] == ek[1]);
        }
        if l >= 3 {
            assert(es[2] == ek[2]);
        }
        if l >= 4 {
            assert(es[3] == ek[3]);
        }
        assert(decode_first_scalar(es) == decode_first_scalar(ek));
        char_u32_cast(k[0], decode_first_scalar(ek));
        char_u32_cast(s[0], decode_first_scalar(es));
        assert(s[0] == k[0]);
        let ks = k.drop_first();
        let ss = s.drop_first();
        assert(es =~= encode_scalar(s[0] as u32) + encode_utf8(ss));
        assert(ek.skip(l) =~= encode_utf8(ks));
        assert(es.skip(l) =~= encode_utf8(ss));
        assert(encode_utf8(ss).take(encode_utf8(ks).len() as int) =~= encode_utf8(ks));
        lemma_encode_prefix(ss, ks);
        assert(s.take(k.len() as int) =~= seq![s[0]] + ss.take(ks.len() as int));
        assert(k =~= seq![k[0]] + ks);
    }
}

/// The encoding of a nonempty `k` sits at byte `b` of the encoding of `t` exactly
/// when `k` occurs in `t` starting at a character whose byte offset is `b`.
pub proof fn lemma_byte_occurrence(t: Seq<char>, k: Seq<char>, b: int)
    requires
        k.len() > 0,
    ensures
        (0 <= b && b + encode_utf8(k).len() <= encode_utf8(t).len() && encode_utf8(t).subrange(
            b,
            b + encode_utf8(k).len(),
        ) == encode_utf8(k)) <==> exists|i: int|
            0 <= i && i + k.len() <= t.len() && byte_offset(t, i) == b && #[trigger] t.subrange(
                i,
                i + k.len(),
            ) == k,
{
    let bt = encode_utf8(t);
    let bk = encode_utf8(k);
    if exists|i: int|
        0 <= i && i + k.len() <= t.len() && byte_offset(t, i) == b && #[trigger] t.subrange(
            i,
            i + k.len(),
        ) == k {
        let i = choose|i: int|
            0 <= i && i + k.len() <= t.len() && byte_offset(t, i) == b && #[trigger] t.subrange(
                i,
                i + k.len(),
            ) == k;
        let rest = t.skip(i);
        lemma_encode_split(t, i);
        lemma_encode_split(rest, k.len() as int);
        assert(rest.take(k.len() as int) =~= k);
        assert(bt.subrange(b, b + bk.len()) =~= encode_utf8(rest).subrange(0, bk.len() as int));
    }
    if 0 <= b && b + bk.len() <= bt.len() && bt.subrange(b, b + bk.len()) == bk {
        encode_utf8_valid_utf8(k);
        encode_utf8_valid_utf8(t);
        encode_utf8_first_scalar(k);
        assert(bk.len() > 0);
        is_char_boundary_start_end_of_seq(bk);
        is_char_boundary_iff_not_is_continuation_byte(bk, 0);
        assert(bt[b] == bt.subrange(b, b + bk.len())[0]);
        is_char_boundary_iff_not_is_continuation_byte(bt, b);
        let i = lemma_char_boundary_is_offset(t, b);
        let rest = t.skip(i);
        lemma_encode_split(t, i);
        assert(encode_utf8(rest).take(bk.len() as int) =~= bt.subrange(b, b + bk.len()));
        lemma_encode_prefix(rest, k);
        assert(t.subrange(i, i + k.len()) =~= rest.take(k.len() as int));
    }
}

/// Number of bytes in the UTF-8 encoding of `c` (the value of `char::len_utf8`).
pub fn utf8_width(c: char) -> (w: usize)
    ensures
        w == char_width(c),
        1 <= w <= 4,
{
    let v = c as u32;
    proof {
        char_is_scalar(c);
    }
    if v < 0x80 {
        1
    } else if v < 0x800 {
        2
    } else if v < 0x10000 {
        3
    } else {
        4
    }
}

} // verus!
