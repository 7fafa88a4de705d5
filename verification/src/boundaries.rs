//! Facts about UTF-8 encodings and character boundaries that the piece table
//! and the cursor rely on.

use vstd::prelude::*;
use vstd::utf8::*;

verus! {

broadcast use vstd::utf8::group_utf8_lib;

/// The encoding of a concatenation is the concatenation of the encodings.
pub proof fn lemma_encode_concat(a: Seq<char>, b: Seq<char>)
    ensures
        encode_utf8(a + b) == encode_utf8(a) + encode_utf8(b),
    decreases a.len(),
{
    if a.len() == 0 {
        assert(a + b =~= b);
        assert(encode_utf8(a) + encode_utf8(b) =~= encode_utf8(b));
    } else {
        assert((a + b).drop_first() =~= a.drop_first() + b);
        lemma_encode_concat(a.drop_first(), b);
        assert(encode_utf8(a + b) =~= encode_utf8(a) + encode_utf8(b));
    }
}

/// On valid UTF-8, an index is a character boundary exactly when it is the
/// end of the bytes or points at a byte that does not continue a character.
pub proof fn lemma_boundary_byte(bytes: Seq<u8>, i: int)
    requires
        valid_utf8(bytes),
        0 <= i <= bytes.len(),
    ensures
        is_char_boundary(bytes, i) <==> (i == bytes.len() || !is_continuation_byte(bytes[i])),
{
    if i == bytes.len() {
        is_char_boundary_start_end_of_seq(bytes);
    } else {
        is_char_boundary_iff_not_is_continuation_byte(bytes, i);
    }
}

/// Joining two valid encodings gives a valid encoding whose character
/// boundaries are those of the left part followed by those of the right part.
pub proof fn lemma_boundary_concat(a: Seq<u8>, b: Seq<u8>, i: int)
    requires
        valid_utf8(a),
        valid_utf8(b),
        0 <= i <= a.len() + b.len(),
    ensures
        valid_utf8(a + b),
        is_char_boundary(a + b, i) <==> (if i <= a.len() {
            is_char_boundary(a, i)
        } else {
            is_char_boundary(b, i - a.len())
        }),
{
    valid_utf8_concat(a, b);
    let ab = a + b;
    lemma_boundary_byte(ab, i);
    if i < a.len() {
        lemma_boundary_byte(a, i);
        assert(ab[i] == a[i]);
    } else if i == a.len() {
        is_char_boundary_start_end_of_seq(a);
        if b.len() > 0 {
            lemma_boundary_byte(b, 0);
            is_char_boundary_start_end_of_seq(b);
            assert(ab[i] == b[0]);
        }
    } else {
        lemma_boundary_byte(b, i - a.len());
        if i < ab.len() {
            assert(ab[i] == b[i - a.len()]);
        }
    }
}

/// A stretch of valid UTF-8 cut at two character boundaries is valid UTF-8,
/// and its boundaries are those of the whole, shifted by the cut's start.
pub proof fn lemma_boundary_subrange(bytes: Seq<u8>, s: int, e: int, k: int)
    requires
        valid_utf8(bytes),
        0 <= s <= e <= bytes.len(),
        is_char_boundary(bytes, s),
        is_char_boundary(bytes, e),
        0 <= k <= e - s,
    ensures
        valid_utf8(bytes.subrange(s, e)),
        is_char_boundary(bytes.subrange(s, e), k) <==> is_char_boundary(bytes, s + k),
{
    let pre = bytes.subrange(0, e);
    valid_utf8_split(bytes, e);
    lemma_boundary_byte(bytes, s);
    lemma_boundary_byte(pre, s);
    if s < e {
        assert(pre[s] == bytes[s]);
    }
    valid_utf8_split(pre, s);
    let sub = bytes.subrange(s, e);
    assert(pre.subrange(s, pre.len() as int) =~= sub);
    lemma_boundary_byte(sub, k);
    lemma_boundary_byte(bytes, s + k);
    if k < e - s {
        assert(sub[k] == bytes[s + k]);
    }
}

/// Only the empty text encodes to no bytes.
pub proof fn lemma_encode_empty(chars: Seq<char>)
    ensures
        encode_utf8(chars).len() == 0 <==> chars.len() == 0,
{
    if chars.len() > 0 {
        assert(encode_scalar(chars[0] as u32).len() >= 1);
    }
}

} // verus!
