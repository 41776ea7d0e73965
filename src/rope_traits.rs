use vstd::prelude::*;

use crate::attributed_rope::{clamp_range, AttributedRope};
use crate::pending_change::extent;
use crate::pull_rope::PullRope;
use crate::rope_action::RopeAction;

use std::ops::Range;

verus! {

/// What an edit does to the cells: a replacement splices its cells into the
/// clamped range, and setting attributes leaves the cells as they were.
pub open spec fn cells_after_edit<Cell, Attribute>(
    before: Seq<Cell>,
    action: RopeAction<Cell, Attribute>,
) -> Seq<Cell> {
    let (s, e) = clamp_range(action.range_of(), before.len());
    match action {
        RopeAction::Replace(_, c) => before.take(s) + c@ + before.skip(e),
        RopeAction::SetAttributes(_, _) => before,
        RopeAction::ReplaceAttributes(_, c, _) => before.take(s) + c@ + before.skip(e),
    }
}

/// A rope that can be read.
pub trait Rope {
    /// A cell of the rope.
    type Cell;
    /// The attribute of a run of cells.
    type Attribute;

    /// The rope can be read.
    spec fn is_ready(&self) -> bool;

    /// The cells of the rope, in order.
    spec fn cell_seq(&self) -> Seq<Self::Cell>;

    /// The attribute of each cell.
    spec fn attr_seq(&self) -> Seq<Self::Attribute>;

    /// The number of cells.
    fn len(&self) -> (r: usize)
        requires
            self.is_ready(),
        ensures
            r == self.cell_seq().len(),
    ;

    /// The cells in a range (clamped to the rope).
    fn read_cells(&self, range: Range<usize>) -> (r: Vec<Self::Cell>)
        requires
            self.is_ready(),
        ensures
            ({
                let (s, e) = clamp_range(range, self.cell_seq().len());
                r@ == self.cell_seq().subrange(s, e)
            }),
    ;

    /// The attribute at a position and an extent around it whose cells all
    /// carry that attribute.
    fn read_attributes(&self, pos: usize) -> (r: (&Self::Attribute, Range<usize>))
        requires
            self.is_ready(),
        ensures
            ({
                let len = self.cell_seq().len();
                let p = if pos < len { pos as int } else { len - 1 };
                len > 0 ==> {
                    &&& r.1.start <= p < r.1.end <= len
                    &&& *r.0 == self.attr_seq()[p]
                    &&& forall|q: int| r.1.start <= q < r.1.end ==> #[trigger] self.attr_seq()[q] == *r.0
                }
            }),
    ;
}

/// A rope that can be edited.
pub trait RopeMut: Rope {
    /// The rope can take the action: what it adds fits in the machine.
    spec fn can_edit(&self, action: RopeAction<Self::Cell, Self::Attribute>) -> bool;

    /// Performs an editing action.
    fn edit(&mut self, action: RopeAction<Self::Cell, Self::Attribute>)
        requires
            old(self).is_ready(),
            old(self).can_edit(action),
        ensures
            final(self).is_ready(),
            final(self).cell_seq() == cells_after_edit(old(self).cell_seq(), action),
    ;
}

impl<Cell: Copy, Attribute: Copy + PartialEq + Default> Rope for AttributedRope<Cell, Attribute> {
    type Cell = Cell;

    type Attribute = Attribute;

    open spec fn is_ready(&self) -> bool {
        self.wf() && vstd::laws_eq::obeys_concrete_eq::<Attribute>()
    }

    open spec fn cell_seq(&self) -> Seq<Cell> {
        self.cells()
    }

    open spec fn attr_seq(&self) -> Seq<Attribute> {
        self.attrs()
    }

    fn len(&self) -> (r: usize) {
        AttributedRope::len(self)
    }

    fn read_cells(&self, range: Range<usize>) -> (r: Vec<Cell>) {
        AttributedRope::read_cells(self, range)
    }

    fn read_attributes(&self, pos: usize) -> (r: (&Attribute, Range<usize>)) {
        AttributedRope::read_attributes(self, pos)
    }
}

impl<Cell: Copy, Attribute: Copy + PartialEq + Default> RopeMut for AttributedRope<Cell, Attribute> {
    open spec fn can_edit(&self, action: RopeAction<Cell, Attribute>) -> bool {
        self.cells().len() + action.added() <= usize::MAX
    }

    fn edit(&mut self, action: RopeAction<Cell, Attribute>) {
        AttributedRope::edit(self, action)
    }
}

impl<Cell: Copy, Attribute: Copy + PartialEq + Default, PullFn: Fn()> Rope for PullRope<Cell, Attribute, PullFn> {
    type Cell = Cell;

    type Attribute = Attribute;

    open spec fn is_ready(&self) -> bool {
        self.ok() && vstd::laws_eq::obeys_concrete_eq::<Attribute>()
    }

    open spec fn cell_seq(&self) -> Seq<Cell> {
        self.inner().cells()
    }

    open spec fn attr_seq(&self) -> Seq<Attribute> {
        self.inner().attrs()
    }

    fn len(&self) -> (r: usize) {
        PullRope::len(self)
    }

    fn read_cells(&self, range: Range<usize>) -> (r: Vec<Cell>) {
        PullRope::read_cells(self, range)
    }

    fn read_attributes(&self, pos: usize) -> (r: (&Attribute, Range<usize>)) {
        PullRope::read_attributes(self, pos)
    }
}

impl<Cell: Copy, Attribute: Copy + PartialEq + Default, PullFn: Fn()> RopeMut for PullRope<Cell, Attribute, PullFn> {
    open spec fn can_edit(&self, action: RopeAction<Cell, Attribute>) -> bool {
        &&& self.notify_fn().requires(())
        &&& self.inner().cells().len() + action.added() <= usize::MAX
        &&& extent(self.pending()) + 3 * self.inner().cells().len() + action.added() <= usize::MAX
    }

    fn edit(&mut self, action: RopeAction<Cell, Attribute>) {
        PullRope::edit(self, action)
    }
}

} // verus!
