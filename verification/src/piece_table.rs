//! A piece table: a text document kept as an unchanging original buffer, an
//! append-only buffer of added text, and a list of pieces that select byte
//! ranges of the two. Editing only rearranges pieces; no text is ever
//! rewritten. Positions and lengths are byte offsets into the UTF-8 document,
//! and edits must fall on character boundaries.

use vstd::prelude::*;
use vstd::utf8::*;
use crate::boundaries::lemma_encode_empty;
use crate::messages::{
    delete_boundary_message, delete_boundary_text, delete_piece_message, delete_piece_text,
    delete_position_message, delete_position_text, delete_range_message, delete_range_text,
    insert_boundary_message, insert_boundary_text, insert_empty_message, insert_empty_text,
    insert_position_message, insert_position_text,
};
use crate::segments::{
    all_valid_utf8, delete_segments, document, fits_in_one_segment, holding_segment,
    insert_segments, is_cut, lemma_delete_cuts, lemma_fits_iff_some_segment_spans,
    lemma_holding_segment_holds, lemma_insert_cuts, segment_start, splice,
};
use crate::store::{byte_len, PieceStore};

verus! {

broadcast use vstd::utf8::group_utf8_lib;

/// A piece table whose byte length is kept alongside the pieces.
pub struct PieceTable {
    store: PieceStore,
    len: usize,
}

impl View for PieceTable {
    /// The segments that the pieces select, in document order.
    type V = Seq<Seq<u8>>;

    closed spec fn view(&self) -> Seq<Seq<u8>> {
        self.store.segments()
    }
}

impl Default for PieceTable {
    /// An empty table.
    fn default() -> (table: Self)
        ensures
            table.wf(),
            table@ == seq![Seq::<u8>::empty()],
            table.bytes() == Seq::<u8>::empty(),
            table.stored_len() == 0,
    {
        let table = PieceTable::new(String::new());
        proof {
            assert(encode_utf8(Seq::<char>::empty()) =~= Seq::<u8>::empty());
        }
        table
    }
}

impl PieceTable {
    /// Every piece selects whole characters inside its buffer, the buffers
    /// fit in memory, and the kept length is the document's.
    pub closed spec fn wf(&self) -> bool {
        &&& self.store.wf()
        &&& self.len == document(self.store.segments()).len()
    }

    /// The document's bytes.
    pub open spec fn bytes(&self) -> Seq<u8> {
        document(self@)
    }

    /// The document's characters.
    pub open spec fn text(&self) -> Seq<char> {
        decode_utf8(self.bytes())
    }

    /// The bytes of the original buffer, which never changes.
    pub closed spec fn original_bytes(&self) -> Seq<u8> {
        self.store.original_bytes()
    }

    /// The bytes of the add buffer, which only ever grows at its end.
    pub closed spec fn add_bytes(&self) -> Seq<u8> {
        self.store.add_bytes()
    }

    /// How many bytes the two buffers hold together.
    pub open spec fn stored_len(&self) -> nat {
        self.original_bytes().len() + self.add_bytes().len()
    }

    /// The document of a well-formed table is valid UTF-8, and so is every
    /// segment of it.
    pub proof fn lemma_valid(&self)
        requires
            self.wf(),
        ensures
            all_valid_utf8(self@),
            valid_utf8(self.bytes()),
            self.bytes().len() <= self.stored_len() <= usize::MAX,
    {
        self.store.lemma_segments_valid();
    }

    /// Creates a table whose document is `text`, held as one piece.
    pub fn new(text: String) -> (table: Self)
        ensures
            table.wf(),
            table@ == seq![encode_utf8(text@)],
            table.bytes() == encode_utf8(text@),
            table.text() == text@,
            table.original_bytes() == encode_utf8(text@),
            table.add_bytes() == Seq::<u8>::empty(),
    {
        let len = byte_len(text.as_str());
        let store = PieceStore::new(text);
        proof {
            seq![encode_utf8(text@)].lemma_flatten_one_element();
        }
        PieceTable { store, len }
    }

    /// The document as a string.
    pub fn to_string(&self) -> (s: String)
        requires
            self.wf(),
        ensures
            s@ == self.text(),
            encode_utf8(s@) == self.bytes(),
    {
        self.store.to_string()
    }

    /// The document's length in bytes.
    pub fn len(&self) -> (n: usize)
        requires
            self.wf(),
        ensures
            n == self.bytes().len(),
    {
        self.len
    }

    /// Whether the document is empty.
    pub fn is_empty(&self) -> (b: bool)
        requires
            self.wf(),
        ensures
            b == (self.bytes().len() == 0),
    {
        self.len() == 0
    }

    /// Inserts `text` at byte offset `pos`.
    ///
    /// Fails, leaving the table unchanged, when `text` is empty, when `pos`
    /// lies past the end of the document, or when `pos` is not a character
    /// boundary of the document. Otherwise the text is appended to the add
    /// buffer and the piece that holds `pos` is split around a new piece for
    /// it (see `insert_segments`).
    pub fn insert(&mut self, pos: usize, text: &str) -> (r: Result<(), String>)
        requires
            old(self).wf(),
            old(self).stored_len() + encode_utf8(text@).len() <= usize::MAX,
        ensures
            final(self).wf(),
            r is Ok <==> {
                &&& text@.len() > 0
                &&& pos <= old(self).bytes().len()
                &&& is_char_boundary(old(self).bytes(), pos as int)
            },
            r is Ok ==> {
                &&& final(self)@ == insert_segments(old(self)@, pos as int, encode_utf8(text@))
                &&& final(self).bytes() == old(self).bytes().take(pos as int) + encode_utf8(text@)
                    + old(self).bytes().skip(pos as int)
                &&& final(self).bytes() == splice(old(self).bytes(), (pos as int, encode_utf8(text@), 0))
                &&& final(self).original_bytes() == old(self).original_bytes()
                &&& final(self).add_bytes() == old(self).add_bytes() + encode_utf8(text@)
            },
            r is Err ==> *final(self) == *old(self),
            r matches Err(e) ==> e@ == (if text@.len() == 0 {
                insert_empty_text()
            } else if pos > old(self).bytes().len() {
                insert_position_text(pos as nat, old(self).bytes().len())
            } else {
                insert_boundary_text(pos as nat)
            }),
    {
        if text.is_empty() {
            return Err(insert_empty_message());
        }
        let doc_len: usize = self.len;
        if pos > doc_len {
            return Err(insert_position_message(pos, doc_len));
        }
        let doc = self.to_string();
        if !doc.as_str().is_char_boundary(pos) {
            return Err(insert_boundary_message(pos));
        }
        proof {
            lemma_encode_empty(text@);
            self.store.lemma_segments_valid();
        }
        let add_start = self.store.push_text(text);
        let text_len = byte_len(text);
        self.store.place(pos, add_start, text_len);
        proof {
            let t = encode_utf8(text@);
            assert(old(self).store.add_bytes().len() + t.len() == self.store.add_bytes().len());
            assert(self.store.add_bytes().subrange(add_start as int, add_start + text_len) =~= t);
            crate::segments::lemma_insert_document(old(self)@, pos as int, t);
            assert forall|c: int| #![trigger is_cut(self@, c)] is_cut(self@, c) <==> {
                ||| is_cut(old(self)@, c) && c <= pos
                ||| is_cut(old(self)@, c - t.len()) && c - t.len() >= pos
                ||| c == pos
                ||| c == pos + t.len()
            } by {
                lemma_insert_cuts(old(self)@, pos as int, t, c);
            }
        }
        self.len = self.len + text_len;
        Ok(())
    }

    /// Deletes `len` bytes starting at byte offset `pos`.
    ///
    /// Deleting nothing at a position inside the document succeeds and
    /// changes nothing. Fails, leaving the table unchanged, when `pos` lies
    /// past the end, when the range runs past the end, when either end of the
    /// range is not a character boundary, or when the range does not lie
    /// inside the one piece that holds `pos` (deletion never spans pieces).
    /// Otherwise that piece is split into what lies before the range and what
    /// lies after it (see `delete_segments`).
    pub fn delete(&mut self, pos: usize, len: usize) -> (r: Result<(), String>)
        requires
            old(self).wf(),
            pos <= old(self).bytes().len() && len > 0 ==> pos + len <= usize::MAX,
        ensures
            final(self).wf(),
            final(self).original_bytes() == old(self).original_bytes(),
            final(self).add_bytes() == old(self).add_bytes(),
            r is Ok <==> {
                &&& pos <= old(self).bytes().len()
                &&& len == 0 || {
                    &&& pos + len <= old(self).bytes().len()
                    &&& is_char_boundary(old(self).bytes(), pos as int)
                    &&& is_char_boundary(old(self).bytes(), pos + len)
                    &&& fits_in_one_segment(old(self)@, pos as int, len as int)
                }
            },
            r is Ok && len == 0 ==> *final(self) == *old(self),
            r is Ok && len > 0 ==> {
                &&& final(self)@ == delete_segments(old(self)@, pos as int, len as int)
                &&& final(self).bytes() == old(self).bytes().take(pos as int) + old(
                    self,
                ).bytes().skip(pos + len)
                &&& final(self).bytes() == splice(
                    old(self).bytes(),
                    (pos as int, Seq::<u8>::empty(), len as int),
                )
                &&& forall|c: int|
                    #![trigger is_cut(final(self)@, c)]
                    is_cut(final(self)@, c) <==> {
                        ||| is_cut(old(self)@, c) && c <= pos
                        ||| is_cut(old(self)@, c + len) && c >= pos
                        ||| c == pos
                    }
            },
            len > 0 && pos + len <= old(self).bytes().len() ==> (fits_in_one_segment(
                old(self)@,
                pos as int,
                len as int,
            ) <==> exists|i: int|
                0 <= i < old(self)@.len() && #[trigger] segment_start(old(self)@, i) <= pos && pos
                    + len <= segment_start(old(self)@, i) + old(self)@[i].len()),
            pos < old(self).bytes().len() ==> exists|i: int|
                0 <= i < old(self)@.len() && holding_segment(old(self)@, pos as int) == (
                    #[trigger] segment_start(old(self)@, i),
                    old(self)@[i].len() as int,
                ) && segment_start(old(self)@, i) <= pos < segment_start(old(self)@, i) + old(
                    self,
                )@[i].len(),
            r is Err ==> *final(self) == *old(self),
            r matches Err(e) ==> e@ == (if pos > old(self).bytes().len() {
                delete_position_text(pos as nat, old(self).bytes().len())
            } else if pos + len > old(self).bytes().len() {
                delete_range_text(pos as nat, (pos + len) as nat, old(self).bytes().len())
            } else if !is_char_boundary(old(self).bytes(), pos as int) || !is_char_boundary(
                old(self).bytes(),
                pos + len,
            ) {
                delete_boundary_text(pos as nat, (pos + len) as nat)
            } else {
                delete_piece_text(
                    pos as nat,
                    len as nat,
                    holding_segment(old(self)@, pos as int).1 as nat,
                    holding_segment(old(self)@, pos as int).0 as nat,
                )
            }),
    {
        proof {
            if len > 0 && pos + len <= self.bytes().len() {
                lemma_fits_iff_some_segment_spans(self@, pos as int, len as int);
            }
            if pos < self.bytes().len() {
                lemma_holding_segment_holds(self@, pos as int);
            }
        }
        let doc_len = self.len;
        if pos > doc_len {
            return Err(delete_position_message(pos, doc_len));
        }
        if len == 0 {
            return Ok(());
        }
        if len > doc_len - pos {
            return Err(delete_range_message(pos, pos + len, doc_len));
        }
        let doc = self.to_string();
        if !doc.as_str().is_char_boundary(pos) || !doc.as_str().is_char_boundary(pos + len) {
            return Err(delete_boundary_message(pos, pos + len));
        }
        match self.store.cut(pos, len) {
            Ok(()) => {},
            Err((piece_len, offset)) => {
                return Err(delete_piece_message(pos, len, piece_len, offset));
            },
        }
        proof {
            self.store.lemma_segments_valid();
            crate::segments::lemma_delete_document(old(self)@, pos as int, len as int);
        }
        self.len = self.len - len;
        proof {
            assert forall|c: int| #![trigger is_cut(self@, c)] is_cut(self@, c) <==> {
                ||| is_cut(old(self)@, c) && c <= pos
                ||| is_cut(old(self)@, c + len) && c >= pos
                ||| c == pos
            } by {
                lemma_delete_cuts(old(self)@, pos as int, len as int, c);
            }
        }
        Ok(())
    }

    /// One character of the document lies inside a single piece: from a
    /// character boundary to the next one, no piece ends in between.
    pub proof fn lemma_char_in_one_segment(&self, start: int, end: int)
        requires
            self.wf(),
            0 <= start < end <= self.bytes().len(),
            is_char_boundary(self.bytes(), start),
            is_char_boundary(self.bytes(), end),
            forall|k: int| start < k < end ==> !is_char_boundary(self.bytes(), k),
        ensures
            fits_in_one_segment(self@, start, end - start),
    {
        self.store.lemma_segments_valid();
        crate::segments::lemma_char_in_one_segment(self@, start, end);
    }
}

} // verus!
