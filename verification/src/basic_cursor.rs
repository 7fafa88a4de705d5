//! A cursor that is a plain byte index, moved one byte at a time within
//! bounds that the caller supplies.

use vstd::prelude::*;

verus! {

/// A byte index.
pub struct Cursor {
    pub index: usize,
}

impl Cursor {
    /// A cursor at index 0.
    pub fn new() -> (c: Self)
        ensures
            c.index == 0,
    {
        Cursor { index: 0 }
    }

    /// Moves one byte to the left, staying at 0 once there.
    pub fn move_left(&mut self)
        ensures
            final(self).index == if old(self).index > 0 {
                old(self).index - 1
            } else {
                0
            },
    {
        if self.index > 0 {
            self.index -= 1;
        }
    }

    /// Moves one byte to the right, staying put once at `max` or beyond.
    pub fn move_right(&mut self, max: usize)
        ensures
            final(self).index == if old(self).index < max {
                old(self).index + 1
            } else {
                old(self).index as int
            },
    {
        if self.index < max {
            self.index += 1;
        }
    }
}

} // verus!
