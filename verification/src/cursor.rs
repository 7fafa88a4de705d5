//! A cursor over a piece table: a byte position in the document that moves
//! and edits one UTF-8 character at a time.

use vstd::prelude::*;
use vstd::utf8::*;
use crate::messages::{
    cursor_boundary_message, cursor_boundary_text, cursor_bounds_message, cursor_bounds_text,
    insert_boundary_text, insert_position_text,
};
use crate::piece_table::PieceTable;
use crate::segments::{delete_segments, insert_segments, splice};
use crate::store::byte_len;

verus! {

broadcast use vstd::utf8::group_utf8_lib;

/// `to` is the last character boundary of `bytes` before `from`.
pub open spec fn previous_boundary(bytes: Seq<u8>, from: int, to: int) -> bool {
    &&& to < from
    &&& is_char_boundary(bytes, to)
    &&& forall|k: int| to < k < from ==> !is_char_boundary(bytes, k)
}

/// `to` is the first character boundary of `bytes` after `from`.
pub open spec fn next_boundary(bytes: Seq<u8>, from: int, to: int) -> bool {
    &&& from < to
    &&& is_char_boundary(bytes, to)
    &&& forall|k: int| from < k < to ==> !is_char_boundary(bytes, k)
}

/// One call of a cursor operation took the document from `b0` to `b1` and
/// the cursor from `i0` to `i1`: nothing changed (a failed edit, or a move
/// at an edge); the cursor stepped back or forward to the neighbouring
/// character boundary; a character was inserted at an in-range boundary and
/// the cursor passed it; or the character before an in-range boundary was
/// removed and the cursor went to where it started.
pub open spec fn cursor_step(b0: Seq<u8>, i0: int, b1: Seq<u8>, i1: int) -> bool {
    ||| b1 == b0 && i1 == i0
    ||| b1 == b0 && previous_boundary(b0, i0, i1)
    ||| b1 == b0 && next_boundary(b0, i0, i1)
    ||| exists|c: char|
        {
            &&& 0 <= i0 <= b0.len()
            &&& is_char_boundary(b0, i0)
            &&& b1 == splice(b0, (i0, #[trigger] encode_utf8(seq![c]), 0))
            &&& i1 == i0 + encode_utf8(seq![c]).len()
        }
    ||| {
        &&& 0 <= i0 <= b0.len()
        &&& is_char_boundary(b0, i0)
        &&& previous_boundary(b0, i0, i1)
        &&& b1 == splice(b0, (i1, Seq::<u8>::empty(), i0 - i1))
    }
}

/// A byte position in a piece table's document.
pub struct Cursor {
    pub index: usize,
}

/// Calls `String::from(char)`, which allocates a string holding the one
/// character `c`. The contract claims that the string's characters are
/// exactly `c`.
#[verifier::external_body]
fn char_to_string(c: char) -> (s: String)
    ensures
        s@ == seq![c],
{
    String::from(c)
}

/// The last character boundary of `doc` before `from`.
fn previous_char_start(doc: &str, from: usize) -> (to: usize)
    requires
        from > 0,
    ensures
        previous_boundary(encode_utf8(doc@), from as int, to as int),
{
    proof {
        is_char_boundary_start_end_of_seq(encode_utf8(doc@));
    }
    let mut to = from - 1;
    while !doc.is_char_boundary(to)
        invariant
            to < from,
            is_char_boundary(encode_utf8(doc@), 0),
            forall|k: int| to < k < from ==> !is_char_boundary(encode_utf8(doc@), k),
        decreases to,
    {
        to -= 1;
    }
    to
}

impl Default for Cursor {
    /// A cursor at the start of the document.
    fn default() -> (c: Self)
        ensures
            c.index == 0,
    {
        Cursor::new()
    }
}

impl Cursor {
    /// A cursor at the start of the document.
    pub fn new() -> (c: Self)
        ensures
            c.index == 0,
    {
        Cursor { index: 0 }
    }

    /// The cursor's byte position.
    pub fn get_index(&self) -> (i: usize)
        ensures
            i == self.index,
    {
        self.index
    }

    /// Moves one character to the left: to the last character boundary
    /// before the cursor. Does nothing at position 0.
    pub fn move_left(&mut self, table: &PieceTable)
        requires
            table.wf(),
        ensures
            old(self).index == 0 ==> final(self).index == 0,
            old(self).index > 0 ==> previous_boundary(
                table.bytes(),
                old(self).index as int,
                final(self).index as int,
            ),
            cursor_step(
                table.bytes(),
                old(self).index as int,
                table.bytes(),
                final(self).index as int,
            ),
    {
        if self.get_index() == 0 {
            return;
        }
        let doc = table.to_string();
        self.index = previous_char_start(doc.as_str(), self.index);
    }

    /// Moves one character to the right: to the first character boundary
    /// after the cursor. Does nothing at or past the end of the document.
    pub fn move_right(&mut self, table: &PieceTable)
        requires
            table.wf(),
        ensures
            old(self).index >= table.bytes().len() ==> final(self).index == old(self).index,
            old(self).index < table.bytes().len() ==> next_boundary(
                table.bytes(),
                old(self).index as int,
                final(self).index as int,
            ),
            cursor_step(
                table.bytes(),
                old(self).index as int,
                table.bytes(),
                final(self).index as int,
            ),
    {
        let doc = table.to_string();
        let len = byte_len(doc.as_str());
        if self.index >= len {
            return;
        }
        proof {
            table.lemma_valid();
            is_char_boundary_start_end_of_seq(table.bytes());
        }
        let mut new_index = self.index + 1;
        while new_index <= len && !doc.as_str().is_char_boundary(new_index)
            invariant
                encode_utf8(doc@) == table.bytes(),
                len == table.bytes().len(),
                is_char_boundary(table.bytes(), len as int),
                self.index < new_index <= len,
                forall|k: int| self.index < k < new_index ==> !is_char_boundary(table.bytes(), k),
            decreases len - new_index,
        {
            new_index += 1;
        }
        if new_index > len {
            new_index = len;
        }
        self.index = new_index;
    }

    /// Inserts `c` at the cursor and moves the cursor past it.
    ///
    /// Fails, changing neither the table nor the cursor, when the cursor lies
    /// past the end of the document or is not on a character boundary.
    pub fn insert_char(&mut self, table: &mut PieceTable, c: char) -> (r: Result<(), String>)
        requires
            old(table).wf(),
            old(table).stored_len() + encode_utf8(seq![c]).len() <= usize::MAX,
        ensures
            final(table).wf(),
            r is Ok <==> {
                &&& old(self).index <= old(table).bytes().len()
                &&& is_char_boundary(old(table).bytes(), old(self).index as int)
            },
            r is Ok ==> {
                &&& final(table)@ == insert_segments(
                    old(table)@,
                    old(self).index as int,
                    encode_utf8(seq![c]),
                )
                &&& final(table).bytes() == old(table).bytes().take(old(self).index as int)
                    + encode_utf8(seq![c]) + old(table).bytes().skip(old(self).index as int)
                &&& final(table).original_bytes() == old(table).original_bytes()
                &&& final(table).add_bytes() == old(table).add_bytes() + encode_utf8(seq![c])
                &&& final(self).index == old(self).index + encode_utf8(seq![c]).len()
            },
            r is Err ==> *final(table) == *old(table) && final(self).index == old(self).index,
            cursor_step(
                old(table).bytes(),
                old(self).index as int,
                final(table).bytes(),
                final(self).index as int,
            ),
            r matches Err(e) ==> e@ == (if old(self).index > old(table).bytes().len() {
                insert_position_text(old(self).index as nat, old(table).bytes().len())
            } else {
                insert_boundary_text(old(self).index as nat)
            }),
    {
        let encoded = char_to_string(c);
        proof {
            crate::boundaries::lemma_encode_empty(seq![c]);
        }
        match table.insert(self.get_index(), encoded.as_str()) {
            Ok(()) => {},
            Err(e) => {
                return Err(e);
            },
        }
        proof {
            table.lemma_valid();
        }
        self.index = self.index + byte_len(encoded.as_str());
        proof {
            let b0 = old(table).bytes();
            let i0 = old(self).index as int;
            assert(splice(b0, (i0, encode_utf8(seq![c]), 0)) =~= b0.take(i0) + encode_utf8(seq![c])
                + b0.skip(i0));
        }
        Ok(())
    }

    /// Deletes the character before the cursor (backspace) and moves the
    /// cursor to where that character started. At position 0 there is
    /// nothing to delete and `Ok(false)` comes back.
    ///
    /// Fails, changing neither the table nor the cursor, when the cursor lies
    /// past the end of the document or is not on a character boundary.
    pub fn delete_char(&mut self, table: &mut PieceTable) -> (r: Result<bool, String>)
        requires
            old(table).wf(),
        ensures
            final(table).wf(),
            final(table).original_bytes() == old(table).original_bytes(),
            final(table).add_bytes() == old(table).add_bytes(),
            r == Ok::<bool, String>(false) <==> old(self).index == 0,
            r is Ok <==> old(self).index == 0 || {
                &&& old(self).index <= old(table).bytes().len()
                &&& is_char_boundary(old(table).bytes(), old(self).index as int)
            },
            r == Ok::<bool, String>(true) ==> {
                &&& previous_boundary(
                    old(table).bytes(),
                    old(self).index as int,
                    final(self).index as int,
                )
                &&& final(table)@ == delete_segments(
                    old(table)@,
                    final(self).index as int,
                    old(self).index - final(self).index,
                )
                &&& final(table).bytes() == old(table).bytes().take(final(self).index as int)
                    + old(table).bytes().skip(old(self).index as int)
            },
            r != Ok::<bool, String>(true) ==> *final(table) == *old(table) && final(self).index
                == old(self).index,
            cursor_step(
                old(table).bytes(),
                old(self).index as int,
                final(table).bytes(),
                final(self).index as int,
            ),
            r matches Err(e) ==> e@ == (if old(self).index > old(table).bytes().len() {
                cursor_bounds_text(old(self).index as nat, old(table).bytes().len())
            } else {
                cursor_boundary_text(old(self).index as nat)
            }),
    {
        if self.get_index() == 0 {
            return Ok(false);
        }
        let text = table.to_string();
        let cursor_index = self.get_index();
        let text_len = byte_len(text.as_str());
        proof {
            table.lemma_valid();
        }
        if cursor_index > text_len {
            return Err(cursor_bounds_message(cursor_index, text_len));
        }
        if !text.as_str().is_char_boundary(cursor_index) {
            return Err(cursor_boundary_message(cursor_index));
        }
        let previous_index = previous_char_start(text.as_str(), cursor_index);
        proof {
            table.lemma_char_in_one_segment(previous_index as int, cursor_index as int);
        }
        match table.delete(previous_index, cursor_index - previous_index) {
            Ok(()) => {},
            Err(e) => {
                return Err(e);
            },
        }
        self.index = previous_index;
        proof {
            let b0 = old(table).bytes();
            assert(splice(
                b0,
                (previous_index as int, Seq::<u8>::empty(), cursor_index - previous_index),
            ) =~= b0.take(previous_index as int) + b0.skip(cursor_index as int));
        }
        Ok(true)
    }
}

/// Within the encoding of one character, only its two ends are character
/// boundaries.
proof fn lemma_one_char_boundaries(c: char, k: int)
    requires
        0 < k < encode_utf8(seq![c]).len(),
    ensures
        !is_char_boundary(encode_utf8(seq![c]), k),
{
    let e = encode_utf8(seq![c]);
    encode_utf8_first_scalar(seq![c]);
    assert(seq![c].drop_first() =~= Seq::<char>::empty());
    assert(seq![c][0] == c);
    assert(encode_utf8(Seq::<char>::empty()) =~= Seq::<u8>::empty());
    assert(e == encode_scalar(c as u32) + encode_utf8(seq![c].drop_first()));
    assert(e =~= encode_scalar(c as u32));
    assert(pop_first_scalar(e) =~= Seq::<u8>::empty());
    reveal_with_fuel(is_char_boundary, 2);
}

/// Moving left undoes moving right: from a character boundary, the step
/// right lands on the next boundary, and the step left from there comes back.
pub proof fn lemma_move_left_undoes_move_right(bytes: Seq<u8>, from: int, to: int)
    requires
        is_char_boundary(bytes, from),
        next_boundary(bytes, from, to),
    ensures
        previous_boundary(bytes, to, from),
        forall|k: int| previous_boundary(bytes, to, k) ==> k == from,
{
    assert forall|k: int| previous_boundary(bytes, to, k) implies k == from by {
        if k < from {
            assert(!is_char_boundary(bytes, from));
        } else if k > from {
            assert(!is_char_boundary(bytes, k));
        }
    }
}

/// Deleting a character undoes inserting it: after `c` is inserted at a
/// character boundary `at`, the cursor (moved past `c`) is on a boundary
/// inside the document whose previous boundary is `at`, and removing the bytes
/// between the two gives back the document.
pub proof fn lemma_delete_char_undoes_insert_char(bytes: Seq<u8>, at: int, c: char)
    requires
        valid_utf8(bytes),
        is_char_boundary(bytes, at),
    ensures
        ({
            let e = encode_utf8(seq![c]);
            let inserted = bytes.take(at) + e + bytes.skip(at);
            let end = at + e.len();
            &&& 0 < end <= inserted.len()
            &&& is_char_boundary(inserted, end)
            &&& previous_boundary(inserted, end, at)
            &&& forall|k: int| previous_boundary(inserted, end, k) ==> k == at
            &&& inserted.take(at) + inserted.skip(end) == bytes
        }),
{
    let e = encode_utf8(seq![c]);
    let before = bytes.take(at);
    let after = bytes.skip(at);
    let inserted = before + e + after;
    let end = at + e.len();
    crate::boundaries::lemma_encode_empty(seq![c]);
    is_char_boundary_start_end_of_seq(bytes);
    assert(0 <= at <= bytes.len()) by {
        reveal_with_fuel(is_char_boundary, 1);
    }
    valid_utf8_split(bytes, at);
    assert(bytes.subrange(0, at) == before);
    assert(bytes.subrange(at, bytes.len() as int) == after);
    assert(inserted =~= before + (e + after));
    is_char_boundary_start_end_of_seq(before);
    is_char_boundary_start_end_of_seq(e);
    crate::boundaries::lemma_boundary_concat(e, after, e.len() as int);
    crate::boundaries::lemma_boundary_concat(before, e + after, at);
    crate::boundaries::lemma_boundary_concat(before, e + after, end);
    assert forall|k: int| at < k < end implies !is_char_boundary(inserted, k) by {
        crate::boundaries::lemma_boundary_concat(e, after, k - at);
        crate::boundaries::lemma_boundary_concat(before, e + after, k);
        lemma_one_char_boundaries(c, k - at);
    }
    assert(inserted.take(at) + inserted.skip(end) =~= bytes);
    assert forall|k: int| previous_boundary(inserted, end, k) implies k == at by {
        if k < at {
            assert(!is_char_boundary(inserted, at));
        } else if k > at {
            assert(!is_char_boundary(inserted, k));
        }
    }
}

/// One cursor operation keeps the cursor on a character boundary inside
/// the document.
pub proof fn lemma_step_keeps_boundary(b0: Seq<u8>, i0: int, b1: Seq<u8>, i1: int)
    requires
        valid_utf8(b0),
        valid_utf8(b1),
        0 <= i0 <= b0.len(),
        is_char_boundary(b0, i0),
        cursor_step(b0, i0, b1, i1),
    ensures
        0 <= i1 <= b1.len(),
        is_char_boundary(b1, i1),
{
    reveal_with_fuel(is_char_boundary, 1);
    if b1 == b0 && i1 == i0 {
    } else if b1 == b0 && previous_boundary(b0, i0, i1) {
    } else if b1 == b0 && next_boundary(b0, i0, i1) {
    } else if exists|c: char|
        {
            &&& 0 <= i0 <= b0.len()
            &&& is_char_boundary(b0, i0)
            &&& b1 == splice(b0, (i0, #[trigger] encode_utf8(seq![c]), 0))
            &&& i1 == i0 + encode_utf8(seq![c]).len()
        } {
        let c = choose|c: char|
            {
                &&& 0 <= i0 <= b0.len()
                &&& is_char_boundary(b0, i0)
                &&& b1 == splice(b0, (i0, #[trigger] encode_utf8(seq![c]), 0))
                &&& i1 == i0 + encode_utf8(seq![c]).len()
            };
        lemma_delete_char_undoes_insert_char(b0, i0, c);
        assert(b1 =~= b0.take(i0) + encode_utf8(seq![c]) + b0.skip(i0));
    } else {
        assert(0 <= i1 < i0);
        let before = b0.take(i1);
        let after = b0.skip(i0);
        valid_utf8_split(b0, i1);
        valid_utf8_split(b0, i0);
        assert(b0.subrange(0, i1) == before);
        assert(b0.subrange(i0, b0.len() as int) == after);
        assert(b1 =~= before + after);
        is_char_boundary_start_end_of_seq(before);
        crate::boundaries::lemma_boundary_concat(before, after, i1);
    }
}

/// The cursor never leaves the document's character boundaries: starting
/// at position 0, through any run of moves and edits (each taking the
/// document and the cursor one `cursor_step` further, with the document valid
/// UTF-8 throughout, as a well-formed table's always is), the cursor stays on
/// a character boundary no further than the end of the document.
#[verifier::rlimit(40)]
pub proof fn lemma_cursor_stays_on_boundary(states: Seq<(Seq<u8>, int)>)
    requires
        states.len() > 0,
        states[0].1 == 0,
        forall|k: int| 0 <= k < states.len() ==> valid_utf8(#[trigger] states[k].0),
        forall|k: int|
            0 <= k < states.len() - 1 ==> cursor_step(
                #[trigger] states[k].0,
                states[k].1,
                states[k + 1].0,
                states[k + 1].1,
            ),
    ensures
        forall|k: int|
            0 <= k < states.len() ==> 0 <= #[trigger] states[k].1 <= states[k].0.len()
                && is_char_boundary(states[k].0, states[k].1),
    decreases states.len(),
{
    if states.len() == 1 {
        is_char_boundary_start_end_of_seq(states[0].0);
    } else {
        let prefix = states.drop_last();
        assert forall|k: int| 0 <= k < prefix.len() - 1 implies cursor_step(
            #[trigger] prefix[k].0,
            prefix[k].1,
            prefix[k + 1].0,
            prefix[k + 1].1,
        ) by {
            assert(cursor_step(states[k].0, states[k].1, states[k + 1].0, states[k + 1].1));
        }
        assert forall|k: int| 0 <= k < prefix.len() implies valid_utf8(#[trigger] prefix[k].0) by {
            assert(valid_utf8(states[k].0));
        }
        lemma_cursor_stays_on_boundary(prefix);
        let n = states.len() - 1;
        assert(0 <= prefix[n - 1].1 <= prefix[n - 1].0.len() && is_char_boundary(
            prefix[n - 1].0,
            prefix[n - 1].1,
        ));
        assert(valid_utf8(states[n - 1].0));
        assert(valid_utf8(states[n].0));
        assert(cursor_step(states[n - 1].0, states[n - 1].1, states[n].0, states[n].1));
        lemma_step_keeps_boundary(states[n - 1].0, states[n - 1].1, states[n].0, states[n].1);
        assert forall|k: int| 0 <= k < states.len() implies 0 <= #[trigger] states[k].1
            <= states[k].0.len() && is_char_boundary(states[k].0, states[k].1) by {
            if k < n {
                assert(states[k] == prefix[k]);
                assert(0 <= prefix[k].1 <= prefix[k].0.len() && is_char_boundary(prefix[k].0, prefix[k].1));
            }
        }
    }
}

} // verus!
