//! The storage behind a piece table: an original buffer that is never
//! changed, an append-only buffer for added text, and the pieces that select
//! byte ranges of the two, in document order.

use vstd::prelude::*;
use vstd::string::StringExecFns;
use vstd::utf8::*;
use crate::boundaries::{lemma_boundary_concat, lemma_boundary_subrange, lemma_encode_concat};
use crate::segments::{
    all_valid_utf8, delete_segments, document, fits_in_one_segment, holding_segment,
    insert_segments, lemma_boundary_in_segment, lemma_document_around, lemma_document_split,
    segment_start,
};

verus! {

broadcast use {vstd::utf8::group_utf8_lib, vstd::slice::group_slice_axioms};

/// Which buffer a piece selects from.
#[derive(Clone, Copy)]
pub enum BufferKind {
    Original,
    Add,
}

/// A contiguous byte range of one buffer.
#[derive(Clone, Copy)]
pub struct Piece {
    pub buffer: BufferKind,
    pub start: usize,
    pub len: usize,
}

/// The two buffers and the pieces over them.
pub struct PieceStore {
    original: String,
    add: String,
    pieces: Vec<Piece>,
}

/// The number of bytes in the UTF-8 encoding of `s`.
pub fn byte_len(s: &str) -> (n: usize)
    ensures
        n == encode_utf8(s@).len(),
{
    s.as_bytes().len()
}

impl PieceStore {
    /// The bytes of the original buffer.
    pub closed spec fn original_bytes(&self) -> Seq<u8> {
        encode_utf8(self.original@)
    }

    /// The bytes of the add buffer.
    pub closed spec fn add_bytes(&self) -> Seq<u8> {
        encode_utf8(self.add@)
    }

    pub closed spec fn buffer_bytes(&self, kind: BufferKind) -> Seq<u8> {
        match kind {
            BufferKind::Original => self.original_bytes(),
            BufferKind::Add => self.add_bytes(),
        }
    }

    /// The bytes that a piece selects.
    pub closed spec fn piece_bytes(&self, p: Piece) -> Seq<u8> {
        self.buffer_bytes(p.buffer).subrange(p.start as int, p.start + p.len)
    }

    /// What the pieces select, one segment per piece.
    pub closed spec fn segments(&self) -> Seq<Seq<u8>> {
        Seq::new(self.pieces@.len(), |k: int| self.piece_bytes(self.pieces@[k]))
    }

    /// The number of bytes held in the two buffers together.
    pub open spec fn stored_len(&self) -> nat {
        self.original_bytes().len() + self.add_bytes().len()
    }

    /// A piece selects a whole number of characters of its buffer.
    pub closed spec fn piece_ok(&self, p: Piece) -> bool {
        let buf = self.buffer_bytes(p.buffer);
        &&& p.start + p.len <= buf.len()
        &&& is_char_boundary(buf, p.start as int)
        &&& is_char_boundary(buf, p.start + p.len)
    }

    /// Every piece selects whole characters inside its buffer, the buffers'
    /// total length fits a `usize`, and the document is no longer than that.
    pub closed spec fn wf(&self) -> bool {
        &&& forall|i: int| 0 <= i < self.pieces@.len() ==> #[trigger] self.piece_ok(self.pieces@[i])
        &&& self.stored_len() <= usize::MAX
        &&& document(self.segments()).len() <= self.stored_len()
    }

    /// Every segment of a well-formed store is valid UTF-8.
    pub proof fn lemma_segments_valid(&self)
        requires
            self.wf(),
        ensures
            all_valid_utf8(self.segments()),
            valid_utf8(document(self.segments())),
            document(self.segments()).len() <= self.stored_len() <= usize::MAX,
    {
        assert forall|i: int| 0 <= i < self.segments().len() implies valid_utf8(
            #[trigger] self.segments()[i],
        ) by {
            let p = self.pieces@[i];
            assert(self.piece_ok(p));
            lemma_boundary_subrange(
                self.buffer_bytes(p.buffer),
                p.start as int,
                p.start + p.len,
                0,
            );
        }
        crate::segments::lemma_document_valid(self.segments());
    }

    /// A store whose document is `text`, held as one piece of the original
    /// buffer.
    pub fn new(text: String) -> (s: Self)
        ensures
            s.wf(),
            s.segments() == seq![encode_utf8(text@)],
            s.stored_len() == encode_utf8(text@).len(),
            s.original_bytes() == encode_utf8(text@),
            s.add_bytes() == Seq::<u8>::empty(),
    {
        let len = byte_len(text.as_str());
        let mut pieces: Vec<Piece> = Vec::new();
        pieces.push(Piece { buffer: BufferKind::Original, start: 0, len });
        let s = PieceStore { original: text, add: String::new(), pieces };
        proof {
            assert(s.add_bytes() =~= Seq::<u8>::empty());
            let p = s.pieces@[0];
            assert(s.piece_bytes(p) =~= encode_utf8(text@));
            assert(s.segments() =~= seq![encode_utf8(text@)]);
            seq![encode_utf8(text@)].lemma_flatten_one_element();
            is_char_boundary_start_end_of_seq(s.original_bytes());
            assert(s.piece_ok(p));
        }
        s
    }

    /// The document, rebuilt by joining what each piece selects.
    pub fn to_string(&self) -> (res: String)
        requires
            self.wf(),
        ensures
            encode_utf8(res@) == document(self.segments()),
            res@ == decode_utf8(document(self.segments())),
    {
        let mut result = String::new();
        let n = self.pieces.len();
        let mut i: usize = 0;
        while i < n
            invariant
                self.wf(),
                n == self.pieces@.len(),
                i <= n,
                encode_utf8(result@) == self.segments().take(i as int).flatten(),
            decreases n - i,
        {
            let piece = self.pieces[i];
            let source: &str = match piece.buffer {
                BufferKind::Original => self.original.as_str(),
                BufferKind::Add => self.add.as_str(),
            };
            assert(self.piece_ok(self.pieces@[i as int]));
            let end = piece.start + piece.len;
            proof {
                assert(encode_utf8(source@) == self.buffer_bytes(piece.buffer));
                is_char_boundary_start_end_of_seq(encode_utf8(source@));
                lemma_boundary_subrange(
                    encode_utf8(source@),
                    0,
                    end as int,
                    piece.start as int,
                );
            }
            let (head, _) = source.split_at(end);
            let (_, segment) = head.split_at(piece.start);
            let ghost before = result@;
            result.append(segment);
            proof {
                let bytes = encode_utf8(source@);
                assert(encode_utf8(segment@) =~= bytes.subrange(piece.start as int, end as int));
                assert(self.segments()[i as int] == encode_utf8(segment@));
                lemma_encode_concat(before, segment@);
                self.segments().take(i as int).lemma_flatten_push(self.segments()[i as int]);
                assert(self.segments().take(i + 1) =~= self.segments().take(i as int).push(
                    self.segments()[i as int],
                ));
            }
            i += 1;
        }
        proof {
            assert(self.segments().take(n as int) =~= self.segments());
        }
        result
    }

    /// Replacing piece `i` by the pieces `mid` replaces segment `i` by what
    /// `mid` selects.
    proof fn lemma_replace(before: PieceStore, after: PieceStore, i: int, mid: Seq<Piece>)
        requires
            before.wf(),
            0 <= i < before.pieces@.len(),
            after.original@ == before.original@,
            after.add@ == before.add@,
            after.pieces@ == before.pieces@.take(i) + mid + before.pieces@.skip(i + 1),
            forall|j: int| 0 <= j < mid.len() ==> #[trigger] before.piece_ok(mid[j]),
        ensures
            after.segments() == before.segments().take(i) + mid.map_values(
                |p: Piece| before.piece_bytes(p),
            ) + before.segments().skip(i + 1),
            forall|j: int| 0 <= j < after.pieces@.len() ==> #[trigger] after.piece_ok(after.pieces@[j]),
            after.stored_len() == before.stored_len(),
    {
        let expected = before.segments().take(i) + mid.map_values(|p: Piece| before.piece_bytes(p))
            + before.segments().skip(i + 1);
        assert(after.original_bytes() == before.original_bytes());
        assert(after.add_bytes() == before.add_bytes());
        assert forall|j: int| #![trigger after.pieces@[j]] 0 <= j < after.pieces@.len() implies after.segments()[j]
            == expected[j] && after.piece_ok(after.pieces@[j]) by {
            let p = after.pieces@[j];
            assert(after.segments()[j] == after.piece_bytes(p));
            assert(after.buffer_bytes(p.buffer) == before.buffer_bytes(p.buffer));
            assert(after.piece_bytes(p) == before.piece_bytes(p));
            assert(after.piece_ok(p) == before.piece_ok(p));
            if j < i {
                assert(after.pieces@[j] == before.pieces@[j]);
                assert(before.piece_ok(before.pieces@[j]));
            } else if j < i + mid.len() {
                assert(after.pieces@[j] == mid[j - i]);
                assert(expected[j] == mid.map_values(|p: Piece| before.piece_bytes(p))[j - i]);
            } else {
                assert(after.pieces@[j] == before.pieces@[j - mid.len() + 1]);
                assert(before.piece_ok(before.pieces@[j - mid.len() + 1]));
            }
        }
        assert(after.segments() =~= expected);
    }

    /// Appends `text` to the add buffer and gives where it starts there; the
    /// document is unchanged.
    pub fn push_text(&mut self, text: &str) -> (add_start: usize)
        requires
            old(self).wf(),
            old(self).stored_len() + encode_utf8(text@).len() <= usize::MAX,
        ensures
            final(self).wf(),
            final(self).segments() == old(self).segments(),
            final(self).original_bytes() == old(self).original_bytes(),
            final(self).add_bytes() == old(self).add_bytes() + encode_utf8(text@),
            final(self).stored_len() == old(self).stored_len() + encode_utf8(text@).len(),
            add_start == old(self).add_bytes().len(),
            is_char_boundary(final(self).add_bytes(), add_start as int),
    {
        let add_start = byte_len(self.add.as_str());
        self.add.append(text);
        proof {
            let a = old(self).add_bytes();
            let t = encode_utf8(text@);
            lemma_encode_concat(old(self).add@, text@);
            assert(self.add_bytes() == a + t);
            lemma_boundary_concat(a, t, a.len() as int);
            is_char_boundary_start_end_of_seq(a);
            assert forall|j: int| #![trigger self.pieces@[j]] 0 <= j < self.pieces@.len() implies self.piece_ok(
                self.pieces@[j],
            ) && self.segments()[j] == old(self).segments()[j] by {
                let p = self.pieces@[j];
                assert(old(self).piece_ok(p));
                match p.buffer {
                    BufferKind::Original => {},
                    BufferKind::Add => {
                        lemma_boundary_concat(a, t, p.start as int);
                        lemma_boundary_concat(a, t, p.start + p.len);
                        assert((a + t).subrange(p.start as int, p.start + p.len) =~= a.subrange(
                            p.start as int,
                            p.start + p.len,
                        ));
                    },
                }
            }
            assert(self.segments() =~= old(self).segments());
        }
        add_start
    }

    /// Places the `text_len` bytes that end the add buffer into the document
    /// at `pos`: the piece that holds `pos` is split there and a piece for
    /// the new text goes between the halves; at the end of the document the
    /// new piece is appended.
    pub fn place(&mut self, pos: usize, add_start: usize, text_len: usize)
        requires
            old(self).wf(),
            add_start + text_len == old(self).add_bytes().len(),
            is_char_boundary(old(self).add_bytes(), add_start as int),
            pos <= document(old(self).segments()).len(),
            is_char_boundary(document(old(self).segments()), pos as int),
            document(old(self).segments()).len() + text_len <= old(self).stored_len(),
        ensures
            final(self).wf(),
            final(self).segments() == insert_segments(
                old(self).segments(),
                pos as int,
                old(self).add_bytes().subrange(add_start as int, add_start + text_len),
            ),
            final(self).original_bytes() == old(self).original_bytes(),
            final(self).add_bytes() == old(self).add_bytes(),
            final(self).stored_len() == old(self).stored_len(),
    {
        let ghost segs = self.segments();
        let ghost t = self.add_bytes().subrange(add_start as int, add_start + text_len);
        proof {
            self.lemma_segments_valid();
            crate::segments::lemma_insert_document(segs, pos as int, t);
            is_char_boundary_start_end_of_seq(self.add_bytes());
            assert(segs.take(0) =~= Seq::<Seq<u8>>::empty());
            assert(segs.skip(0) =~= segs);
        }
        let n = self.pieces.len();
        let mut offset: usize = 0;
        let mut i: usize = 0;
        while i < n
            invariant
                *self == *old(self),
                segs == self.segments(),
                t == self.add_bytes().subrange(add_start as int, add_start + text_len),
                self.wf(),
                all_valid_utf8(segs),
                n == self.pieces@.len(),
                i <= n,
                offset == segment_start(segs, i as int),
                offset <= pos,
                add_start + text_len == self.add_bytes().len(),
                is_char_boundary(self.add_bytes(), add_start as int),
                is_char_boundary(self.add_bytes(), add_start + text_len),
                pos <= document(segs).len(),
                is_char_boundary(document(segs), pos as int),
                document(segs).len() + text_len <= self.stored_len(),
                insert_segments(segs, pos as int, t) == segs.take(i as int) + insert_segments(
                    segs.skip(i as int),
                    pos - offset,
                    t,
                ),
                insert_segments(segs, pos as int, t).flatten().len() == document(segs).len()
                    + text_len,
            decreases n - i,
        {
            let piece = self.pieces[i];
            proof {
                lemma_document_around(segs, i as int);
                assert(self.piece_ok(self.pieces@[i as int]));
                assert(segs[i as int].len() == piece.len);
                assert(segs.skip(i as int)[0] == segs[i as int]);
                assert(segs.skip(i as int).drop_first() =~= segs.skip(i + 1));
            }
            if pos >= offset && pos < offset + piece.len {
                let split = pos - offset;
                let left_piece = Piece { buffer: piece.buffer, start: piece.start, len: split };
                let new_piece = Piece { buffer: BufferKind::Add, start: add_start, len: text_len };
                let right_piece = Piece {
                    buffer: piece.buffer,
                    start: piece.start + split,
                    len: piece.len - split,
                };
                let ghost before = *self;
                self.pieces.remove(i);
                if split < piece.len {
                    self.pieces.insert(i, right_piece);
                }
                self.pieces.insert(i, new_piece);
                if split > 0 {
                    self.pieces.insert(i, left_piece);
                }
                proof {
                    let s_i = segs[i as int];
                    let buf = before.buffer_bytes(piece.buffer);
                    lemma_boundary_in_segment(segs, i as int, split as int);
                    lemma_boundary_subrange(
                        buf,
                        piece.start as int,
                        piece.start + piece.len,
                        split as int,
                    );
                    assert(before.piece_ok(left_piece));
                    assert(before.piece_ok(right_piece));
                    assert(before.piece_ok(new_piece));
                    assert(before.piece_bytes(left_piece) =~= s_i.take(split as int));
                    assert(before.piece_bytes(right_piece) =~= s_i.skip(split as int));
                    assert(before.piece_bytes(new_piece) == t);
                    let mid = if split > 0 {
                        seq![left_piece, new_piece, right_piece]
                    } else {
                        seq![new_piece, right_piece]
                    };
                    assert(self.pieces@ =~= before.pieces@.take(i as int) + mid + before.pieces@.skip(
                        i + 1,
                    ));
                    PieceStore::lemma_replace(before, *self, i as int, mid);
                    let mid_bytes = mid.map_values(|p: Piece| before.piece_bytes(p));
                    if split > 0 {
                        assert(mid_bytes =~= seq![s_i.take(split as int), t, s_i.skip(split as int)]);
                    } else {
                        assert(s_i.skip(0) =~= s_i);
                        assert(mid_bytes =~= seq![t, s_i]);
                    }
                    assert(self.segments() =~= insert_segments(segs, pos as int, t));
                }
                return;
            }
            offset += piece.len;
            i += 1;
        }
        proof {
            lemma_document_split(segs, n as int);
            assert(segs.take(n as int) =~= segs);
            assert(segs.skip(n as int) =~= Seq::<Seq<u8>>::empty());
        }
        let ghost before = *self;
        self.pieces.push(Piece { buffer: BufferKind::Add, start: add_start, len: text_len });
        proof {
            let new_piece = Piece { buffer: BufferKind::Add, start: add_start, len: text_len };
            assert(before.piece_ok(new_piece));
            assert forall|j: int| #![trigger self.pieces@[j]] 0 <= j < self.pieces@.len() implies self.piece_ok(
                self.pieces@[j],
            ) && self.segments()[j] == insert_segments(segs, pos as int, t)[j] by {
                if j < n {
                    assert(self.pieces@[j] == before.pieces@[j]);
                    assert(before.piece_ok(before.pieces@[j]));
                }
            }
            assert(self.segments() =~= insert_segments(segs, pos as int, t));
        }
    }

    /// Removes the `n` bytes at document position `pos` when they lie inside
    /// the piece that holds `pos`: that piece is split into what lies before
    /// them and what lies after them. Otherwise nothing changes and the
    /// length and start of that piece come back.
    pub fn cut(&mut self, pos: usize, n: usize) -> (r: Result<(), (usize, usize)>)
        requires
            old(self).wf(),
            n > 0,
            pos + n <= document(old(self).segments()).len(),
            is_char_boundary(document(old(self).segments()), pos as int),
            is_char_boundary(document(old(self).segments()), pos + n),
        ensures
            final(self).wf(),
            final(self).original_bytes() == old(self).original_bytes(),
            final(self).add_bytes() == old(self).add_bytes(),
            final(self).stored_len() == old(self).stored_len(),
            r is Ok <==> fits_in_one_segment(old(self).segments(), pos as int, n as int),
            r is Ok ==> final(self).segments() == delete_segments(
                old(self).segments(),
                pos as int,
                n as int,
            ),
            r matches Err((len, start)) ==> {
                &&& *final(self) == *old(self)
                &&& (start as int, len as int) == holding_segment(old(self).segments(), pos as int)
            },
    {
        let ghost segs = self.segments();
        proof {
            self.lemma_segments_valid();
            assert(segs.take(0) =~= Seq::<Seq<u8>>::empty());
            assert(segs.skip(0) =~= segs);
        }
        let count = self.pieces.len();
        let mut offset: usize = 0;
        let mut i: usize = 0;
        while i < count
            invariant
                *self == *old(self),
                segs == self.segments(),
                self.wf(),
                all_valid_utf8(segs),
                count == self.pieces@.len(),
                i <= count,
                offset == segment_start(segs, i as int),
                offset <= pos,
                n > 0,
                pos + n <= document(segs).len(),
                is_char_boundary(document(segs), pos as int),
                is_char_boundary(document(segs), pos + n),
                fits_in_one_segment(segs, pos as int, n as int) == fits_in_one_segment(
                    segs.skip(i as int),
                    pos - offset,
                    n as int,
                ),
                delete_segments(segs, pos as int, n as int) == segs.take(i as int)
                    + delete_segments(segs.skip(i as int), pos - offset, n as int),
                holding_segment(segs, pos as int) == ({
                    let h = holding_segment(segs.skip(i as int), pos - offset);
                    (offset + h.0, h.1)
                }),
            decreases count - i,
        {
            let piece = self.pieces[i];
            proof {
                lemma_document_around(segs, i as int);
                assert(self.piece_ok(self.pieces@[i as int]));
                assert(segs[i as int].len() == piece.len);
                assert(segs.skip(i as int)[0] == segs[i as int]);
                assert(segs.skip(i as int).drop_first() =~= segs.skip(i + 1));
            }
            if pos >= offset && pos < offset + piece.len {
                let split = pos - offset;
                if split + n > piece.len {
                    return Err((piece.len, offset));
                }
                let left_piece = Piece { buffer: piece.buffer, start: piece.start, len: split };
                let right_piece = Piece {
                    buffer: piece.buffer,
                    start: piece.start + split + n,
                    len: piece.len - split - n,
                };
                let ghost before = *self;
                self.pieces.remove(i);
                self.pieces.insert(i, right_piece);
                self.pieces.insert(i, left_piece);
                proof {
                    let s_i = segs[i as int];
                    let buf = before.buffer_bytes(piece.buffer);
                    lemma_boundary_in_segment(segs, i as int, split as int);
                    lemma_boundary_in_segment(segs, i as int, split + n);
                    lemma_boundary_subrange(
                        buf,
                        piece.start as int,
                        piece.start + piece.len,
                        split as int,
                    );
                    lemma_boundary_subrange(
                        buf,
                        piece.start as int,
                        piece.start + piece.len,
                        split + n,
                    );
                    assert(before.piece_ok(left_piece));
                    assert(before.piece_ok(right_piece));
                    assert(before.piece_bytes(left_piece) =~= s_i.take(split as int));
                    assert(before.piece_bytes(right_piece) =~= s_i.skip(split + n));
                    let mid = seq![left_piece, right_piece];
                    assert(self.pieces@ =~= before.pieces@.take(i as int) + mid + before.pieces@.skip(
                        i + 1,
                    ));
                    PieceStore::lemma_replace(before, *self, i as int, mid);
                    let mid_bytes = mid.map_values(|p: Piece| before.piece_bytes(p));
                    assert(mid_bytes =~= seq![s_i.take(split as int), s_i.skip(split + n)]);
                    assert(self.segments() =~= delete_segments(segs, pos as int, n as int));
                    crate::segments::lemma_delete_document(segs, pos as int, n as int);
                }
                return Ok(());
            }
            offset += piece.len;
            i += 1;
        }
        proof {
            lemma_document_split(segs, count as int);
            assert(segs.take(count as int) =~= segs);
        }
        Ok(())
    }

    /// The document's length in bytes, summed over the pieces.
    pub fn document_len(&self) -> (n: usize)
        requires
            self.wf(),
        ensures
            n == document(self.segments()).len(),
    {
        let ghost segs = self.segments();
        proof {
            assert(segs.take(0) =~= Seq::<Seq<u8>>::empty());
        }
        let count = self.pieces.len();
        let mut total: usize = 0;
        let mut i: usize = 0;
        while i < count
            invariant
                segs == self.segments(),
                self.wf(),
                count == self.pieces@.len(),
                i <= count,
                total == segment_start(segs, i as int),
            decreases count - i,
        {
            proof {
                lemma_document_around(segs, i as int);
                assert(self.piece_ok(self.pieces@[i as int]));
            }
            total = total + self.pieces[i].len;
            i += 1;
        }
        proof {
            assert(segs.take(count as int) =~= segs);
        }
        total
    }
}

} // verus!
