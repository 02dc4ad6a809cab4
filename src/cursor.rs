use vstd::prelude::*;

verus! {

/// Character offsets into a text buffer.
pub type IdxSize = usize;

/// A caret: its position, an optional selection anchor, and the column it
/// keeps while moving vertically.
#[derive(Clone, Copy, Debug, PartialEq, Eq, Structural)]
pub struct Cursor {
    pub idx: IdxSize,
    pub selection_idx: Option<IdxSize>,
    pub preferred_column: IdxSize,
}

/// The span between two offsets, low end first.
pub open spec fn ordered(a: IdxSize, b: IdxSize) -> (IdxSize, IdxSize) {
    if a <= b {
        (a, b)
    } else {
        (b, a)
    }
}

impl Cursor {
    /// The selected span, or the empty span at the caret.
    pub open spec fn range_of(self) -> (IdxSize, IdxSize) {
        match self.selection_idx {
            Some(s) => ordered(s, self.idx),
            None => (self.idx, self.idx),
        }
    }

    /// The span a backspace removes: the selection, or the character before the caret.
    pub open spec fn backspace_range_of(self) -> (IdxSize, IdxSize) {
        match self.selection_idx {
            Some(s) => ordered(s, self.idx),
            None => if self.idx == 0 {
                (0, 0)
            } else {
                ((self.idx - 1) as IdxSize, self.idx)
            },
        }
    }

    /// The span a delete removes: the selection, or the character after the caret.
    pub open spec fn delete_range_of(self, content_length: IdxSize) -> (IdxSize, IdxSize) {
        match self.selection_idx {
            Some(s) => ordered(s, self.idx),
            None => if self.idx >= content_length {
                (self.idx, self.idx)
            } else {
                (self.idx, (self.idx + 1) as IdxSize)
            },
        }
    }

    /// Every offset the cursor holds lies in `[0, len]`.
    pub open spec fn within(self, len: int) -> bool {
        &&& self.idx <= len
        &&& match self.selection_idx {
            Some(s) => s <= len,
            None => true,
        }
    }

    pub fn new(idx: IdxSize) -> (r: Self)
        ensures
            r == (Cursor { idx, selection_idx: None, preferred_column: 0 }),
    {
        Cursor { idx, selection_idx: None, preferred_column: 0 }
    }

    pub fn selection(idx: IdxSize, selection_idx: IdxSize) -> (r: Self)
        ensures
            r == (Cursor { idx, selection_idx: Some(selection_idx), preferred_column: 0 }),
    {
        Cursor { idx, selection_idx: Some(selection_idx), preferred_column: 0 }
    }

    pub fn get_range(&self) -> (r: (IdxSize, IdxSize))
        ensures
            r == self.range_of(),
    {
        match self.selection_idx {
            Some(s) => if s <= self.idx {
                (s, self.idx)
            } else {
                (self.idx, s)
            },
            None => (self.idx, self.idx),
        }
    }

    pub fn get_backspace_range(&self) -> (r: (IdxSize, IdxSize))
        ensures
            r == self.backspace_range_of(),
    {
        match self.selection_idx {
            Some(_) => self.get_range(),
            None => if self.idx == 0 {
                (0, 0)
            } else {
                (self.idx - 1, self.idx)
            },
        }
    }

    /// A caret at or past `content_length` has nothing after it to delete.
    pub fn get_delete_range(&self, content_length: IdxSize) -> (r: (IdxSize, IdxSize))
        ensures
            r == self.delete_range_of(content_length),
    {
        match self.selection_idx {
            Some(_) => self.get_range(),
            None => if self.idx >= content_length {
                (self.idx, self.idx)
            } else {
                (self.idx, self.idx + 1)
            },
        }
    }
}

} // verus!
