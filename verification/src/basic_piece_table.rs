//! A leaner piece table: it keeps no cached length (the length is summed
//! over the pieces when needed) and leaves it to its callers to edit at
//! UTF-8 character boundaries. Inserting empty text is accepted and does
//! nothing.

use vstd::prelude::*;
use vstd::utf8::*;
use crate::messages::{
    delete_piece_message, delete_piece_text, delete_position_message, delete_position_text,
    delete_range_message, delete_range_text, insert_position_message, insert_position_text,
};
use crate::segments::{
    delete_segments, document, fits_in_one_segment, holding_segment, insert_segments, is_cut, lemma_delete_cuts, lemma_fits_iff_some_segment_spans,
    lemma_holding_segment_holds, lemma_insert_cuts, segment_start, splice,
};
use crate::store::{byte_len, PieceStore};

verus! {

broadcast use vstd::utf8::group_utf8_lib;

/// A piece table over an original buffer and an add buffer.
pub struct PieceTable {
    store: PieceStore,
}

impl View for PieceTable {
    /// The segments that the pieces select, in document order.
    type V = Seq<Seq<u8>>;

    closed spec fn view(&self) -> Seq<Seq<u8>> {
        self.store.segments()
    }
}

impl PieceTable {
    /// Every piece selects whole characters inside its buffer, and the
    /// buffers fit in memory.
    pub closed spec fn wf(&self) -> bool {
        self.store.wf()
    }

    /// The document's bytes.
    pub open spec fn bytes(&self) -> Seq<u8> {
        document(self@)
    }

    /// The document's characters.
    pub open spec fn text(&self) -> Seq<char> {
        decode_utf8(self.bytes())
    }

    /// The bytes of the original buffer, which never changes.
    pub closed spec fn original_bytes(&self) -> Seq<u8> {
        self.store.original_bytes()
    }

    /// The bytes of the add buffer, which only ever grows at its end.
    pub closed spec fn add_bytes(&self) -> Seq<u8> {
        self.store.add_bytes()
    }

    /// How many bytes the two buffers hold together.
    pub open spec fn stored_len(&self) -> nat {
        self.original_bytes().len() + self.add_bytes().len()
    }

    /// Creates a table whose document is `text`, held as one piece.
    pub fn new(text: String) -> (table: Self)
        ensures
            table.wf(),
            table@ == seq![encode_utf8(text@)],
            table.bytes() == encode_utf8(text@),
            table.text() == text@,
            table.original_bytes() == encode_utf8(text@),
            table.add_bytes() == Seq::<u8>::empty(),
    {
        let store = PieceStore::new(text);
        proof {
            seq![encode_utf8(text@)].lemma_flatten_one_element();
        }
        PieceTable { store }
    }

    /// The document as a string: what each piece selects, joined in order.
    pub fn to_string(&self) -> (s: String)
        requires
            self.wf(),
        ensures
            s@ == self.text(),
            encode_utf8(s@) == self.bytes(),
    {
        self.store.to_string()
    }

    /// Inserts `text` at byte offset `pos`, which must be a character
    /// boundary of the document when it lies within it.
    ///
    /// Empty text is accepted and changes nothing. The text is appended to
    /// the add buffer before `pos` is checked: when `pos` lies past the end of
    /// the document the call fails and the document is unchanged, though the
    /// add buffer keeps the text. Otherwise the piece that holds `pos` is split
    /// around a new piece for the text (see `insert_segments`).
    pub fn insert(&mut self, pos: usize, text: &str) -> (r: Result<(), String>)
        requires
            old(self).wf(),
            old(self).stored_len() + encode_utf8(text@).len() <= usize::MAX,
            text@.len() > 0 && pos <= old(self).bytes().len() ==> is_char_boundary(
                old(self).bytes(),
                pos as int,
            ),
        ensures
            final(self).wf(),
            final(self).original_bytes() == old(self).original_bytes(),
            r is Ok <==> (text@.len() == 0 || pos <= old(self).bytes().len()),
            text@.len() == 0 ==> *final(self) == *old(self),
            text@.len() > 0 ==> final(self).add_bytes() == old(self).add_bytes() + encode_utf8(
                text@,
            ),
            text@.len() > 0 && r is Ok ==> {
                &&& final(self)@ == insert_segments(old(self)@, pos as int, encode_utf8(text@))
                &&& final(self).bytes() == old(self).bytes().take(pos as int) + encode_utf8(text@)
                    + old(self).bytes().skip(pos as int)
                &&& final(self).bytes() == splice(old(self).bytes(), (pos as int, encode_utf8(text@), 0))
                &&& forall|c: int|
                    #![trigger is_cut(final(self)@, c)]
                    is_cut(final(self)@, c) <==> {
                        ||| is_cut(old(self)@, c) && c <= pos
                        ||| is_cut(old(self)@, c - encode_utf8(text@).len()) && c - encode_utf8(
                            text@,
                        ).len() >= pos
                        ||| c == pos
                        ||| c == pos + encode_utf8(text@).len()
                    }
            },
            r is Err ==> final(self)@ == old(self)@,
            r matches Err(e) ==> e@ == insert_position_text(pos as nat, old(self).bytes().len()),
    {
        if text.is_empty() {
            return Ok(());
        }
        proof {
            self.store.lemma_segments_valid();
        }
        let add_start = self.store.push_text(text);
        let doc_len = self.store.document_len();
        if pos > doc_len {
            return Err(insert_position_message(pos, doc_len));
        }
        let text_len = byte_len(text);
        proof {
            let t = encode_utf8(text@);
            self.store.lemma_segments_valid();
            assert(self.store.add_bytes().subrange(add_start as int, add_start + text_len) =~= t);
        }
        self.store.place(pos, add_start, text_len);
        proof {
            let t = encode_utf8(text@);
            crate::segments::lemma_insert_document(old(self)@, pos as int, t);
            assert forall|c: int| #![trigger is_cut(self@, c)] is_cut(self@, c) <==> {
                ||| is_cut(old(self)@, c) && c <= pos
                ||| is_cut(old(self)@, c - t.len()) && c - t.len() >= pos
                ||| c == pos
                ||| c == pos + t.len()
            } by {
                lemma_insert_cuts(old(self)@, pos as int, t, c);
            }
        }
        Ok(())
    }

    /// Deletes `len` bytes starting at byte offset `pos`; when the range
    /// lies within the document, both its ends must be character boundaries.
    ///
    /// Deleting nothing at a position inside the document succeeds and
    /// changes nothing. Fails, leaving the table unchanged, when `pos` lies
    /// past the end, when the range runs past the end, or when the range does
    /// not lie inside the one piece that holds `pos`. Otherwise that piece is
    /// split into what lies before the range and what lies after it (see
    /// `delete_segments`).
    pub fn delete(&mut self, pos: usize, len: usize) -> (r: Result<(), String>)
        requires
            old(self).wf(),
            pos <= old(self).bytes().len() && len > 0 ==> pos + len <= usize::MAX,
            len > 0 && pos + len <= old(self).bytes().len() ==> {
                &&& is_char_boundary(old(self).bytes(), pos as int)
                &&& is_char_boundary(old(self).bytes(), pos + len)
            },
        ensures
            final(self).wf(),
            final(self).original_bytes() == old(self).original_bytes(),
            final(self).add_bytes() == old(self).add_bytes(),
            r is Ok <==> {
                &&& pos <= old(self).bytes().len()
                &&& len == 0 || {
                    &&& pos + len <= old(self).bytes().len()
                    &&& fits_in_one_segment(old(self)@, pos as int, len as int)
                }
            },
            r is Ok && len == 0 ==> *final(self) == *old(self),
            r is Ok && len > 0 ==> {
                &&& final(self)@ == delete_segments(old(self)@, pos as int, len as int)
                &&& final(self).bytes() == old(self).bytes().take(pos as int) + old(
                    self,
                ).bytes().skip(pos + len)
                &&& final(self).bytes() == splice(
                    old(self).bytes(),
                    (pos as int, Seq::<u8>::empty(), len as int),
                )
                &&& forall|c: int|
                    #![trigger is_cut(final(self)@, c)]
                    is_cut(final(self)@, c) <==> {
                        ||| is_cut(old(self)@, c) && c <= pos
                        ||| is_cut(old(self)@, c + len) && c >= pos
                        ||| c == pos
                    }
            },
            len > 0 && pos + len <= old(self).bytes().len() ==> (fits_in_one_segment(
                old(self)@,
                pos as int,
                len as int,
            ) <==> exists|i: int|
                0 <= i < old(self)@.len() && #[trigger] segment_start(old(self)@, i) <= pos && pos
                    + len <= segment_start(old(self)@, i) + old(self)@[i].len()),
            pos < old(self).bytes().len() ==> exists|i: int|
                0 <= i < old(self)@.len() && holding_segment(old(self)@, pos as int) == (
                    #[trigger] segment_start(old(self)@, i),
                    old(self)@[i].len() as int,
                ) && segment_start(old(self)@, i) <= pos < segment_start(old(self)@, i) + old(
                    self,
                )@[i].len(),
            r is Err ==> *final(self) == *old(self),
            r matches Err(e) ==> e@ == (if pos > old(self).bytes().len() {
                delete_position_text(pos as nat, old(self).bytes().len())
            } else if pos + len > old(self).bytes().len() {
                delete_range_text(pos as nat, (pos + len) as nat, old(self).bytes().len())
            } else {
                delete_piece_text(
                    pos as nat,
                    len as nat,
                    holding_segment(old(self)@, pos as int).1 as nat,
                    holding_segment(old(self)@, pos as int).0 as nat,
                )
            }),
    {
        proof {
            if len > 0 && pos + len <= self.bytes().len() {
                lemma_fits_iff_some_segment_spans(self@, pos as int, len as int);
            }
            if pos < self.bytes().len() {
                lemma_holding_segment_holds(self@, pos as int);
            }
        }
        let doc_len = self.store.document_len();
        if pos > doc_len {
            return Err(delete_position_message(pos, doc_len));
        }
        if len == 0 {
            return Ok(());
        }
        if len > doc_len - pos {
            return Err(delete_range_message(pos, pos + len, doc_len));
        }
        match self.store.cut(pos, len) {
            Ok(()) => {},
            Err((piece_len, offset)) => {
                return Err(delete_piece_message(pos, len, piece_len, offset));
            },
        }
        proof {
            crate::segments::lemma_delete_document(old(self)@, pos as int, len as int);
            assert forall|c: int| #![trigger is_cut(self@, c)] is_cut(self@, c) <==> {
                ||| is_cut(old(self)@, c) && c <= pos
                ||| is_cut(old(self)@, c + len) && c >= pos
                ||| c == pos
            } by {
                lemma_delete_cuts(old(self)@, pos as int, len as int, c);
            }
        }
        Ok(())
    }
}

} // verus!
