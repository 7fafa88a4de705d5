//! The model of a piece table: the document as a sequence of byte segments,
//! one per piece, in document order. Editing operations are stated as
//! functions on this model, together with the laws that connect them to the
//! flat document.

use vstd::prelude::*;
use vstd::utf8::*;
use crate::boundaries::lemma_boundary_concat;

verus! {

broadcast use vstd::seq_lib::group_seq_properties;

/// The document: all segments, concatenated in order.
pub open spec fn document(segs: Seq<Seq<u8>>) -> Seq<u8> {
    segs.flatten()
}

/// An edit of a document as `(pos, inserted, removed)`: the `removed` bytes
/// at `pos` give way to the bytes `inserted`.
pub open spec fn splice(doc: Seq<u8>, edit: (int, Seq<u8>, int)) -> Seq<u8> {
    doc.take(edit.0) + edit.1 + doc.skip(edit.0 + edit.2)
}

/// The document after the edits, applied in order.
pub open spec fn apply_edits(doc: Seq<u8>, edits: Seq<(int, Seq<u8>, int)>) -> Seq<u8>
    decreases edits.len(),
{
    if edits.len() == 0 {
        doc
    } else {
        splice(apply_edits(doc, edits.drop_last()), edits.last())
    }
}

/// `c` is a place where the document is cut into segments: the start of
/// some segment, or the end of the last one.
pub open spec fn is_cut(segs: Seq<Seq<u8>>, c: int) -> bool {
    exists|i: int| 0 <= i <= segs.len() && #[trigger] segment_start(segs, i) == c
}

/// Where segment `i` starts in the document.
pub open spec fn segment_start(segs: Seq<Seq<u8>>, i: int) -> int {
    segs.take(i).flatten().len() as int
}

/// Every segment is valid UTF-8 on its own.
pub open spec fn all_valid_utf8(segs: Seq<Seq<u8>>) -> bool {
    forall|i: int| 0 <= i < segs.len() ==> valid_utf8(#[trigger] segs[i])
}

/// The segments after inserting `text` at document position `pos`.
///
/// The segments are walked in order; the first one that holds the byte at
/// `pos` is split there, the left part kept only when it is not empty, and
/// `text` becomes a segment of its own between the two parts. When no segment
/// holds `pos` (it is the end of the document), `text` is appended as a last
/// segment.
pub open spec fn insert_segments(segs: Seq<Seq<u8>>, pos: int, text: Seq<u8>) -> Seq<Seq<u8>>
    decreases segs.len(),
{
    if segs.len() == 0 {
        seq![text]
    } else if pos < segs[0].len() {
        if pos > 0 {
            seq![segs[0].take(pos), text, segs[0].skip(pos)] + segs.drop_first()
        } else {
            seq![text, segs[0]] + segs.drop_first()
        }
    } else {
        seq![segs[0]] + insert_segments(segs.drop_first(), pos - segs[0].len(), text)
    }
}

/// Whether the `n` bytes from document position `pos` lie inside the first
/// segment that holds the byte at `pos` (true when no segment holds it).
pub open spec fn fits_in_one_segment(segs: Seq<Seq<u8>>, pos: int, n: int) -> bool
    decreases segs.len(),
{
    if segs.len() == 0 {
        true
    } else if pos < segs[0].len() {
        pos + n <= segs[0].len()
    } else {
        fits_in_one_segment(segs.drop_first(), pos - segs[0].len(), n)
    }
}

/// The segments after removing the `n` bytes from document position `pos`
/// out of the segment that holds `pos`: that segment is replaced by what lies
/// before the removed bytes and what lies after them, either possibly empty.
pub open spec fn delete_segments(segs: Seq<Seq<u8>>, pos: int, n: int) -> Seq<Seq<u8>>
    decreases segs.len(),
{
    if segs.len() == 0 {
        segs
    } else if pos < segs[0].len() {
        seq![segs[0].take(pos), segs[0].skip(pos + n)] + segs.drop_first()
    } else {
        seq![segs[0]] + delete_segments(segs.drop_first(), pos - segs[0].len(), n)
    }
}

/// The start and the length of the first segment that holds the byte at
/// `pos`; when no segment holds it, the end of the document and 0.
pub open spec fn holding_segment(segs: Seq<Seq<u8>>, pos: int) -> (int, int)
    decreases segs.len(),
{
    if segs.len() == 0 {
        (0, 0)
    } else if pos < segs[0].len() {
        (0, segs[0].len() as int)
    } else {
        let h = holding_segment(segs.drop_first(), pos - segs[0].len());
        (segs[0].len() + h.0, h.1)
    }
}

/// Flattening a sequence that starts with `a`.
pub proof fn lemma_flatten_cons(a: Seq<u8>, rest: Seq<Seq<u8>>)
    ensures
        (seq![a] + rest).flatten() == a + rest.flatten(),
{
    let s = seq![a] + rest;
    assert(s.first() == a);
    assert(s.drop_first() =~= rest);
}

/// The document splits at the start of any segment.
pub proof fn lemma_document_split(segs: Seq<Seq<u8>>, i: int)
    requires
        0 <= i <= segs.len(),
    ensures
        segs.flatten() == segs.take(i).flatten() + segs.skip(i).flatten(),
{
    vstd::seq_lib::lemma_flatten_concat(segs.take(i), segs.skip(i));
    assert(segs.take(i) + segs.skip(i) =~= segs);
}

/// Segment `i` sits in the document right at its start position.
pub proof fn lemma_document_around(segs: Seq<Seq<u8>>, i: int)
    requires
        0 <= i < segs.len(),
    ensures
        segs.flatten() == segs.take(i).flatten() + segs[i] + segs.skip(i + 1).flatten(),
        segs.take(i + 1).flatten() == segs.take(i).flatten() + segs[i],
        segment_start(segs, i) + segs[i].len() <= segs.flatten().len(),
{
    lemma_document_split(segs, i);
    assert(segs.skip(i) =~= seq![segs[i]] + segs.skip(i + 1));
    lemma_flatten_cons(segs[i], segs.skip(i + 1));
    assert(segs.take(i + 1) =~= segs.take(i).push(segs[i]));
    segs.take(i).lemma_flatten_push(segs[i]);
    assert(segs.flatten() =~= segs.take(i).flatten() + segs[i] + segs.skip(i + 1).flatten());
}

/// Concatenating valid UTF-8 segments gives valid UTF-8.
pub proof fn lemma_document_valid(segs: Seq<Seq<u8>>)
    requires
        all_valid_utf8(segs),
    ensures
        valid_utf8(segs.flatten()),
    decreases segs.len(),
{
    if segs.len() > 0 {
        let rest = segs.drop_first();
        assert(all_valid_utf8(rest)) by {
            assert forall|i: int| 0 <= i < rest.len() implies valid_utf8(#[trigger] rest[i]) by {
                assert(rest[i] == segs[i + 1]);
            }
        }
        lemma_document_valid(rest);
        assert(valid_utf8(segs[0]));
        valid_utf8_concat(segs[0], rest.flatten());
    }
}

/// Inside segment `i`, the document's character boundaries are the
/// segment's own.
pub proof fn lemma_boundary_in_segment(segs: Seq<Seq<u8>>, i: int, k: int)
    requires
        all_valid_utf8(segs),
        0 <= i < segs.len(),
        0 <= k <= segs[i].len(),
    ensures
        is_char_boundary(segs.flatten(), segment_start(segs, i) + k) <==> is_char_boundary(
            segs[i],
            k,
        ),
{
    lemma_document_around(segs, i);
    let before = segs.take(i);
    let after = segs.skip(i + 1);
    assert(all_valid_utf8(before)) by {
        assert forall|j: int| 0 <= j < before.len() implies valid_utf8(#[trigger] before[j]) by {
            assert(before[j] == segs[j]);
        }
    }
    assert(all_valid_utf8(after)) by {
        assert forall|j: int| 0 <= j < after.len() implies valid_utf8(#[trigger] after[j]) by {
            assert(after[j] == segs[i + 1 + j]);
        }
    }
    lemma_document_valid(before);
    lemma_document_valid(after);
    let b = before.flatten();
    let a = after.flatten();
    let s = segs[i];
    lemma_boundary_concat(s, a, k);
    lemma_boundary_concat(b, s + a, b.len() + k);
    assert(segs.flatten() =~= b + (s + a));
    if k == 0 {
        is_char_boundary_start_end_of_seq(s);
        is_char_boundary_start_end_of_seq(b);
    }
}

/// Inserting into the segments inserts into the document: the text lands at
/// `pos`, with what was before it kept before and what was after it kept after.
pub proof fn lemma_insert_document(segs: Seq<Seq<u8>>, pos: int, text: Seq<u8>)
    requires
        0 <= pos <= segs.flatten().len(),
    ensures
        insert_segments(segs, pos, text).flatten() == segs.flatten().take(pos) + text
            + segs.flatten().skip(pos),
    decreases segs.len(),
{
    let flat = segs.flatten();
    if segs.len() == 0 {
        seq![text].lemma_flatten_one_element();
        assert(flat.take(pos) + text + flat.skip(pos) =~= text);
    } else {
        let s0 = segs[0];
        let rest = segs.drop_first();
        lemma_flatten_cons(s0, rest);
        assert(seq![s0] + rest =~= segs);
        if pos < s0.len() {
            if pos > 0 {
                let left = seq![s0.take(pos), text, s0.skip(pos)];
                vstd::seq_lib::lemma_flatten_concat(left, rest);
                lemma_flatten_cons(s0.take(pos), seq![text, s0.skip(pos)]);
                assert(seq![s0.take(pos)] + seq![text, s0.skip(pos)] =~= left);
                lemma_flatten_cons(text, seq![s0.skip(pos)]);
                assert(seq![text] + seq![s0.skip(pos)] =~= seq![text, s0.skip(pos)]);
                seq![s0.skip(pos)].lemma_flatten_one_element();
                assert(insert_segments(segs, pos, text).flatten() =~= flat.take(pos) + text
                    + flat.skip(pos));
            } else {
                let left = seq![text, s0];
                vstd::seq_lib::lemma_flatten_concat(left, rest);
                lemma_flatten_cons(text, seq![s0]);
                assert(seq![text] + seq![s0] =~= left);
                seq![s0].lemma_flatten_one_element();
                assert(insert_segments(segs, pos, text).flatten() =~= flat.take(pos) + text
                    + flat.skip(pos));
            }
        } else {
            lemma_insert_document(rest, pos - s0.len(), text);
            lemma_flatten_cons(s0, insert_segments(rest, pos - s0.len(), text));
            assert(insert_segments(segs, pos, text).flatten() =~= flat.take(pos) + text
                + flat.skip(pos));
        }
    }
}

/// Removing bytes from the segments removes them from the document.
pub proof fn lemma_delete_document(segs: Seq<Seq<u8>>, pos: int, n: int)
    requires
        0 <= pos < segs.flatten().len(),
        0 <= n,
        fits_in_one_segment(segs, pos, n),
    ensures
        delete_segments(segs, pos, n).flatten() == segs.flatten().take(pos) + segs.flatten().skip(
            pos + n,
        ),
        pos + n <= segs.flatten().len(),
    decreases segs.len(),
{
    let flat = segs.flatten();
    let s0 = segs[0];
    let rest = segs.drop_first();
    lemma_flatten_cons(s0, rest);
    assert(seq![s0] + rest =~= segs);
    if pos < s0.len() {
        let left = seq![s0.take(pos), s0.skip(pos + n)];
        vstd::seq_lib::lemma_flatten_concat(left, rest);
        lemma_flatten_cons(s0.take(pos), seq![s0.skip(pos + n)]);
        assert(seq![s0.take(pos)] + seq![s0.skip(pos + n)] =~= left);
        seq![s0.skip(pos + n)].lemma_flatten_one_element();
        assert(delete_segments(segs, pos, n).flatten() =~= flat.take(pos) + flat.skip(pos + n));
    } else {
        lemma_delete_document(rest, pos - s0.len(), n);
        lemma_flatten_cons(s0, delete_segments(rest, pos - s0.len(), n));
        assert(delete_segments(segs, pos, n).flatten() =~= flat.take(pos) + flat.skip(pos + n));
    }
}

/// A single character of a document made of valid UTF-8 segments never
/// straddles two segments: the bytes from one character boundary to the
/// next lie in one segment.
pub proof fn lemma_char_in_one_segment(segs: Seq<Seq<u8>>, a: int, b: int)
    requires
        all_valid_utf8(segs),
        0 <= a < b <= segs.flatten().len(),
        is_char_boundary(segs.flatten(), a),
        is_char_boundary(segs.flatten(), b),
        forall|j: int| a < j < b ==> !is_char_boundary(segs.flatten(), j),
    ensures
        fits_in_one_segment(segs, a, b - a),
    decreases segs.len(),
{
    let s0 = segs[0];
    let rest = segs.drop_first();
    let r = rest.flatten();
    lemma_flatten_cons(s0, rest);
    assert(seq![s0] + rest =~= segs);
    assert(all_valid_utf8(rest)) by {
        assert forall|i: int| 0 <= i < rest.len() implies valid_utf8(#[trigger] rest[i]) by {
            assert(rest[i] == segs[i + 1]);
        }
    }
    lemma_document_valid(rest);
    assert(valid_utf8(s0));
    let l = s0.len() as int;
    if a < l {
        if b > l {
            lemma_boundary_concat(s0, r, l);
            is_char_boundary_start_end_of_seq(s0);
            assert(is_char_boundary(segs.flatten(), l));
        }
    } else {
        assert forall|j: int| a - l < j < b - l implies !is_char_boundary(r, j) by {
            lemma_boundary_concat(s0, r, j + l);
            assert(!is_char_boundary(segs.flatten(), j + l));
        }
        lemma_boundary_concat(s0, r, a);
        lemma_boundary_concat(s0, r, b);
        if a == l {
            is_char_boundary_start_end_of_seq(r);
        }
        lemma_char_in_one_segment(rest, a - l, b - l);
    }
}

/// Text that was just inserted at `pos` fills the segment that holds `pos`.
pub proof fn lemma_inserted_text_fits(segs: Seq<Seq<u8>>, pos: int, text: Seq<u8>)
    requires
        0 <= pos <= segs.flatten().len(),
        text.len() > 0,
    ensures
        fits_in_one_segment(insert_segments(segs, pos, text), pos, text.len() as int),
    decreases segs.len(),
{
    if segs.len() > 0 {
        let s0 = segs[0];
        let rest = segs.drop_first();
        lemma_flatten_cons(s0, rest);
        assert(seq![s0] + rest =~= segs);
        let ins = insert_segments(segs, pos, text);
        if pos < s0.len() {
            if pos > 0 {
                assert(ins[0] == s0.take(pos));
                assert(ins.drop_first()[0] == text);
                assert(fits_in_one_segment(ins.drop_first(), 0, text.len() as int));
            } else {
                assert(ins[0] == text);
            }
        } else {
            lemma_inserted_text_fits(rest, pos - s0.len(), text);
            assert(ins.drop_first() =~= insert_segments(rest, pos - s0.len(), text));
            assert(ins[0] == s0);
        }
    }
}

/// Deleting what was just inserted restores the document: after `text` is
/// inserted at a character boundary `pos` of a document made of valid UTF-8
/// segments, the range of the new text starts and ends on character
/// boundaries and lies in one segment, so deleting it succeeds, and the
/// document is again what it was before the insertion.
pub proof fn lemma_insert_then_delete(segs: Seq<Seq<u8>>, pos: int, text: Seq<u8>)
    requires
        all_valid_utf8(segs),
        valid_utf8(text),
        text.len() > 0,
        0 <= pos <= document(segs).len(),
        is_char_boundary(document(segs), pos),
    ensures
        ({
            let inserted = insert_segments(segs, pos, text);
            let d = document(inserted);
            &&& d == document(segs).take(pos) + text + document(segs).skip(pos)
            &&& pos + text.len() <= d.len()
            &&& is_char_boundary(d, pos)
            &&& is_char_boundary(d, pos + text.len())
            &&& fits_in_one_segment(inserted, pos, text.len() as int)
            &&& document(delete_segments(inserted, pos, text.len() as int)) == document(segs)
        }),
{
    let doc = document(segs);
    let inserted = insert_segments(segs, pos, text);
    lemma_document_valid(segs);
    lemma_insert_document(segs, pos, text);
    lemma_inserted_text_fits(segs, pos, text);
    let before = doc.take(pos);
    let after = doc.skip(pos);
    valid_utf8_split(doc, pos);
    assert(doc.subrange(0, pos) == before);
    assert(doc.subrange(pos, doc.len() as int) == after);
    is_char_boundary_start_end_of_seq(before);
    is_char_boundary_start_end_of_seq(text);
    lemma_boundary_concat(text, after, text.len() as int);
    lemma_boundary_concat(before, text + after, pos);
    lemma_boundary_concat(before, text + after, pos + text.len());
    assert(before + text + after =~= before + (text + after));
    lemma_delete_document(inserted, pos, text.len() as int);
    assert(document(inserted).take(pos) + document(inserted).skip(pos + text.len()) =~= doc);
}

/// Inserting back what was just deleted restores the document.
pub proof fn lemma_delete_then_insert(segs: Seq<Seq<u8>>, pos: int, n: int)
    requires
        0 <= pos,
        0 < n,
        pos + n <= document(segs).len(),
        fits_in_one_segment(segs, pos, n),
    ensures
        document(
            insert_segments(
                delete_segments(segs, pos, n),
                pos,
                document(segs).subrange(pos, pos + n),
            ),
        ) == document(segs),
{
    let doc = document(segs);
    let deleted = delete_segments(segs, pos, n);
    lemma_delete_document(segs, pos, n);
    lemma_insert_document(deleted, pos, doc.subrange(pos, pos + n));
    assert(document(deleted).take(pos) + doc.subrange(pos, pos + n) + document(deleted).skip(pos)
        =~= doc);
}

/// Reading back after a run of edits: when every step of a run of documents
/// is the previous document with one edit spliced in, the last document is
/// the first with all the edits applied in order.
pub proof fn lemma_edits_read_back(docs: Seq<Seq<u8>>, edits: Seq<(int, Seq<u8>, int)>)
    requires
        docs.len() == edits.len() + 1,
        forall|k: int| 0 <= k < edits.len() ==> #[trigger] docs[k + 1] == splice(docs[k], edits[k]),
    ensures
        docs.last() == apply_edits(docs[0], edits),
    decreases edits.len(),
{
    if edits.len() > 0 {
        let k = edits.len() - 1;
        assert forall|j: int| 0 <= j < edits.drop_last().len() implies #[trigger] docs.drop_last()[j
            + 1] == splice(docs.drop_last()[j], edits.drop_last()[j]) by {
            assert(docs[j + 1] == splice(docs[j], edits[j]));
        }
        lemma_edits_read_back(docs.drop_last(), edits.drop_last());
        assert(docs[k + 1] == splice(docs[k], edits[k]));
    }
}

/// Where segment `i` starts, counted from the start of the second segment.
pub proof fn lemma_segment_start_cons(segs: Seq<Seq<u8>>, i: int)
    requires
        1 <= i <= segs.len(),
    ensures
        segment_start(segs, i) == segs[0].len() + segment_start(segs.drop_first(), i - 1),
        segment_start(segs, 0) == 0,
{
    assert(segs.take(i) =~= seq![segs[0]] + segs.drop_first().take(i - 1));
    lemma_flatten_cons(segs[0], segs.drop_first().take(i - 1));
    assert(segs.take(0) =~= Seq::<Seq<u8>>::empty());
}

/// A deletion fits exactly when some segment spans the whole range: a
/// non-empty range inside the document lies in the segment that holds its
/// first byte if and only if there is a segment, starting at or before `pos`,
/// that reaches at least to `pos + n`.
pub proof fn lemma_fits_iff_some_segment_spans(segs: Seq<Seq<u8>>, pos: int, n: int)
    requires
        0 <= pos,
        0 < n,
        pos + n <= document(segs).len(),
    ensures
        fits_in_one_segment(segs, pos, n) <==> exists|i: int|
            0 <= i < segs.len() && #[trigger] segment_start(segs, i) <= pos && pos + n
                <= segment_start(segs, i) + segs[i].len(),
    decreases segs.len(),
{
    if segs.len() == 0 {
        assert(segs.flatten() =~= Seq::<u8>::empty());
    } else {
        let s0 = segs[0];
        let rest = segs.drop_first();
        let l0 = s0.len() as int;
        lemma_flatten_cons(s0, rest);
        assert(seq![s0] + rest =~= segs);
        assert(segment_start(segs, 0) == 0) by {
            assert(segs.take(0) =~= Seq::<Seq<u8>>::empty());
        }
        if pos < l0 {
            if exists|i: int|
                0 <= i < segs.len() && #[trigger] segment_start(segs, i) <= pos && pos + n
                    <= segment_start(segs, i) + segs[i].len() {
                let i = choose|i: int|
                    0 <= i < segs.len() && #[trigger] segment_start(segs, i) <= pos && pos + n
                        <= segment_start(segs, i) + segs[i].len();
                if i >= 1 {
                    lemma_segment_start_cons(segs, i);
                }
            }
        } else {
            lemma_fits_iff_some_segment_spans(rest, pos - l0, n);
            if fits_in_one_segment(segs, pos, n) {
                let j = choose|j: int|
                    0 <= j < rest.len() && #[trigger] segment_start(rest, j) <= pos - l0 && pos
                        - l0 + n <= segment_start(rest, j) + rest[j].len();
                lemma_segment_start_cons(segs, j + 1);
                assert(segs[j + 1] == rest[j]);
                assert(segment_start(segs, j + 1) <= pos && pos + n <= segment_start(segs, j + 1)
                    + segs[j + 1].len());
            }
            if exists|i: int|
                0 <= i < segs.len() && #[trigger] segment_start(segs, i) <= pos && pos + n
                    <= segment_start(segs, i) + segs[i].len() {
                let i = choose|i: int|
                    0 <= i < segs.len() && #[trigger] segment_start(segs, i) <= pos && pos + n
                        <= segment_start(segs, i) + segs[i].len();
                if i >= 1 {
                    lemma_segment_start_cons(segs, i);
                    assert(segs[i] == rest[i - 1]);
                    assert(segment_start(rest, i - 1) <= pos - l0 && pos - l0 + n
                        <= segment_start(rest, i - 1) + rest[i - 1].len());
                }
            }
        }
    }
}

/// The segment reported as holding `pos` does hold it: for a position inside
/// the document, it is the start and the length of a segment whose bytes
/// include the byte at `pos`.
pub proof fn lemma_holding_segment_holds(segs: Seq<Seq<u8>>, pos: int)
    requires
        0 <= pos < document(segs).len(),
    ensures
        exists|i: int|
            0 <= i < segs.len() && holding_segment(segs, pos) == (
                #[trigger] segment_start(segs, i),
                segs[i].len() as int,
            ) && segment_start(segs, i) <= pos < segment_start(segs, i) + segs[i].len(),
    decreases segs.len(),
{
    if segs.len() == 0 {
        assert(segs.flatten() =~= Seq::<u8>::empty());
    } else {
        let s0 = segs[0];
        let rest = segs.drop_first();
        let l0 = s0.len() as int;
        lemma_flatten_cons(s0, rest);
        assert(seq![s0] + rest =~= segs);
        if pos < l0 {
            assert(segment_start(segs, 0) == 0) by {
                assert(segs.take(0) =~= Seq::<Seq<u8>>::empty());
            }
        } else {
            lemma_holding_segment_holds(rest, pos - l0);
            let j = choose|j: int|
                0 <= j < rest.len() && holding_segment(rest, pos - l0) == (
                    #[trigger] segment_start(rest, j),
                    rest[j].len() as int,
                ) && segment_start(rest, j) <= pos - l0 < segment_start(rest, j) + rest[j].len();
            lemma_segment_start_cons(segs, j + 1);
            assert(segs[j + 1] == rest[j]);
        }
    }
}

/// The cuts of a sequence that starts with `a`: its start, and the cuts of
/// the rest moved along by `a`'s length.
pub proof fn lemma_is_cut_cons(a: Seq<u8>, rest: Seq<Seq<u8>>, c: int)
    ensures
        is_cut(seq![a] + rest, c) <==> (c == 0 || is_cut(rest, c - a.len())),
        is_cut(rest, c - a.len()) ==> c - a.len() >= 0,
        is_cut(rest, 0),
{
    let segs = seq![a] + rest;
    assert(segs[0] == a);
    assert(segs.drop_first() =~= rest);
    assert(segment_start(segs, 0) == 0) by {
        assert(segs.take(0) =~= Seq::<Seq<u8>>::empty());
    }
    assert(segment_start(rest, 0) == 0) by {
        assert(rest.take(0) =~= Seq::<Seq<u8>>::empty());
    }
    if is_cut(segs, c) {
        let i = choose|i: int| 0 <= i <= segs.len() && #[trigger] segment_start(segs, i) == c;
        if i >= 1 {
            lemma_segment_start_cons(segs, i);
            assert(segment_start(rest, i - 1) == c - a.len());
        }
    }
    if is_cut(rest, c - a.len()) {
        let j = choose|j: int| 0 <= j <= rest.len() && #[trigger] segment_start(rest, j) == c - a.len();
        lemma_segment_start_cons(segs, j + 1);
        assert(segment_start(segs, j + 1) == c);
    }
    if c == 0 {
        assert(segment_start(segs, 0) == c);
    }
}

/// The only cut of no segments is 0.
pub proof fn lemma_is_cut_empty(c: int)
    ensures
        is_cut(Seq::<Seq<u8>>::empty(), c) <==> c == 0,
{
    let e = Seq::<Seq<u8>>::empty();
    assert(segment_start(e, 0) == 0) by {
        assert(e.take(0) =~= Seq::<Seq<u8>>::empty());
    }
}

/// Where inserting cuts the document: the old cuts up to `pos` stay, the old
/// cuts from `pos` on move along by the text's length, and the text's own
/// two ends become cuts; there are no others. So an insertion never splits
/// the document anywhere but around the new text.
pub proof fn lemma_insert_cuts(segs: Seq<Seq<u8>>, pos: int, text: Seq<u8>, c: int)
    requires
        0 <= pos <= document(segs).len(),
    ensures
        is_cut(insert_segments(segs, pos, text), c) <==> {
            ||| is_cut(segs, c) && c <= pos
            ||| is_cut(segs, c - text.len()) && c - text.len() >= pos
            ||| c == pos
            ||| c == pos + text.len()
        },
    decreases segs.len(),
{
    let t = text.len() as int;
    if segs.len() == 0 {
        assert(segs.flatten() =~= Seq::<u8>::empty());
        lemma_is_cut_cons(text, Seq::<Seq<u8>>::empty(), c);
        assert(seq![text] + Seq::<Seq<u8>>::empty() =~= seq![text]);
        lemma_is_cut_empty(c);
        lemma_is_cut_empty(c - t);
        lemma_is_cut_empty(c - t - t);
    } else {
        let s0 = segs[0];
        let rest = segs.drop_first();
        let l0 = s0.len() as int;
        lemma_flatten_cons(s0, rest);
        assert(seq![s0] + rest =~= segs);
        lemma_is_cut_cons(s0, rest, c);
        lemma_is_cut_cons(s0, rest, c - t);
        if pos < l0 {
            if pos > 0 {
                let a = s0.take(pos);
                let b = s0.skip(pos);
                assert(seq![a, text, b] + rest =~= seq![a] + (seq![text] + (seq![b] + rest)));
                lemma_is_cut_cons(a, seq![text] + (seq![b] + rest), c);
                lemma_is_cut_cons(text, seq![b] + rest, c - pos);
                lemma_is_cut_cons(b, rest, c - pos - t);
            } else {
                assert(seq![text, s0] + rest =~= seq![text] + (seq![s0] + rest));
                lemma_is_cut_cons(text, seq![s0] + rest, c);
                lemma_is_cut_cons(s0, rest, c - t);
            }
        } else {
            lemma_insert_cuts(rest, pos - l0, text, c - l0);
            lemma_is_cut_cons(s0, insert_segments(rest, pos - l0, text), c);
            lemma_is_cut_cons(s0, rest, c - t);
        }
    }
}

/// Where deleting cuts the document: the old cuts up to `pos` stay, the old
/// cuts from `pos + n` on move back by `n`, and `pos` is a cut; there are no
/// others.
pub proof fn lemma_delete_cuts(segs: Seq<Seq<u8>>, pos: int, n: int, c: int)
    requires
        0 <= pos,
        0 < n,
        pos + n <= document(segs).len(),
        fits_in_one_segment(segs, pos, n),
    ensures
        is_cut(delete_segments(segs, pos, n), c) <==> {
            ||| is_cut(segs, c) && c <= pos
            ||| is_cut(segs, c + n) && c >= pos
            ||| c == pos
        },
    decreases segs.len(),
{
    let s0 = segs[0];
    let rest = segs.drop_first();
    let l0 = s0.len() as int;
    lemma_flatten_cons(s0, rest);
    assert(seq![s0] + rest =~= segs);
    lemma_is_cut_cons(s0, rest, c);
    lemma_is_cut_cons(s0, rest, c + n);
    if pos < l0 {
        let a = s0.take(pos);
        let b = s0.skip(pos + n);
        assert(seq![a, b] + rest =~= seq![a] + (seq![b] + rest));
        lemma_is_cut_cons(a, seq![b] + rest, c);
        lemma_is_cut_cons(b, rest, c - pos);
    } else {
        lemma_delete_cuts(rest, pos - l0, n, c - l0);
        lemma_is_cut_cons(s0, delete_segments(rest, pos - l0, n), c);
    }
}

} // verus!
