# nightingale

A piece table for text editing and a cursor that moves and edits over it one
UTF-8 character at a time, written in Verus with its behaviour proved.

- `src/segments.rs` — the model: the document as the sequence of byte segments
  that the pieces select; insertion, deletion and the laws that tie them to the
  flat document.
- `src/store.rs` — the two buffers and the pieces, with the well-formedness
  invariant (every piece selects whole characters of its buffer).
- `src/piece_table.rs` — the piece table with a cached length that validates
  every edit; `src/basic_piece_table.rs` — a leaner table that sums its length
  and leaves boundary checks to its callers.
- `src/cursor.rs` — the character cursor over `PieceTable`;
  `src/basic_cursor.rs` — a plain byte index bounded by the caller.
- `src/boundaries.rs` — facts about UTF-8 character boundaries.
- `src/messages.rs` — the exact text of every error.
- `app/lib.rs` — `Display` for a piece table, through a wrapper.
