use vstd::prelude::*;

use std::ops::Range;

verus! {

/// The editing action that can be performed on a rope.
#[derive(Debug, PartialEq)]
pub enum RopeAction<Cell, Attribute> {
    /// Replaces a range of cells. The new cells take the attribute of the
    /// leaf in which the range starts.
    Replace(Range<usize>, Vec<Cell>),
    /// Sets the attribute of a range of cells.
    SetAttributes(Range<usize>, Attribute),
    /// Replaces a range of cells and sets the attribute of the new cells.
    ReplaceAttributes(Range<usize>, Vec<Cell>, Attribute),
}

impl<Cell, Attribute> RopeAction<Cell, Attribute> {
    /// The range of the rope that this action edits.
    pub open spec fn range_of(self) -> Range<usize> {
        match self {
            RopeAction::Replace(r, _) => r,
            RopeAction::SetAttributes(r, _) => r,
            RopeAction::ReplaceAttributes(r, _, _) => r,
        }
    }

    /// The number of cells that the action puts into the rope.
    pub open spec fn added(self) -> nat {
        match self {
            RopeAction::Replace(_, c) => c@.len(),
            RopeAction::SetAttributes(_, _) => 0,
            RopeAction::ReplaceAttributes(_, c, _) => c@.len(),
        }
    }

    /// The number of cells that stand in place of the edited range afterwards.
    pub open spec fn new_len(self) -> nat {
        match self {
            RopeAction::Replace(r, c) => c@.len(),
            RopeAction::SetAttributes(r, _) => if r.start <= r.end { (r.end - r.start) as nat } else { 0 },
            RopeAction::ReplaceAttributes(r, c, _) => c@.len(),
        }
    }
}

} // verus!
