use vstd::prelude::*;

use crate::attributed_rope::{clamp_range, AttributedRope};
use crate::leaf_seq::{edit_leaf, leaf_start, run_end};
use crate::rope_action::RopeAction;

use std::ops::Range;

verus! {

/// A copy of an action.
pub fn copy_action<Cell: Copy, Attribute: Copy>(a: &RopeAction<Cell, Attribute>) -> (r: RopeAction<Cell, Attribute>)
    ensures
        same_action(r, *a),
{
    match a {
        RopeAction::Replace(range, cells) => RopeAction::Replace(range.start..range.end, copy_cells(cells)),
        RopeAction::SetAttributes(range, attr) => RopeAction::SetAttributes(range.start..range.end, *attr),
        RopeAction::ReplaceAttributes(range, cells, attr) => RopeAction::ReplaceAttributes(
            range.start..range.end,
            copy_cells(cells),
            *attr,
        ),
    }
}

/// Two actions of the same kind, on the same range, with the same cells and attribute.
pub open spec fn same_action<Cell, Attribute>(a: RopeAction<Cell, Attribute>, b: RopeAction<Cell, Attribute>) -> bool {
    match (a, b) {
        (RopeAction::Replace(r1, c1), RopeAction::Replace(r2, c2)) => r1 == r2 && c1@ == c2@,
        (RopeAction::SetAttributes(r1, x1), RopeAction::SetAttributes(r2, x2)) => r1 == r2 && x1 == x2,
        (RopeAction::ReplaceAttributes(r1, c1, x1), RopeAction::ReplaceAttributes(r2, c2, x2)) => r1 == r2 && c1@
            == c2@ && x1 == x2,
        _ => false,
    }
}

fn copy_cells<Cell: Copy>(cells: &Vec<Cell>) -> (r: Vec<Cell>)
    ensures
        r@ == cells@,
{
    let mut r: Vec<Cell> = Vec::new();
    let mut i: usize = 0;
    while i < cells.len()
        invariant
            i <= cells@.len(),
            r@ == cells@.subrange(0, i as int),
        decreases cells@.len() - i,
    {
        r.push(cells[i]);
        i = i + 1;
        proof {
            assert(r@ =~= cells@.subrange(0, i as int));
        }
    }
    proof {
        assert(r@ =~= cells@);
    }
    r
}

/// A rope that hands each edit to a function before performing it.
pub struct PushBeforeRope<Cell, Attribute, PushFn> {
    rope: AttributedRope<Cell, Attribute>,
    push_fn: PushFn,
}

/// A rope that hands each edit to a function after performing it.
pub struct PushAfterRope<Cell, Attribute, PushFn> {
    rope: AttributedRope<Cell, Attribute>,
    push_fn: PushFn,
}

impl<Cell: Copy, Attribute: Copy + PartialEq + Default, PushFn: Fn(&RopeAction<Cell, Attribute>)> PushBeforeRope<
    Cell,
    Attribute,
    PushFn,
> {
    /// The rope that holds the cells.
    pub closed spec fn inner(&self) -> AttributedRope<Cell, Attribute> {
        self.rope
    }

    /// The function that edits are handed to.
    pub closed spec fn push_fn(&self) -> PushFn {
        self.push_fn
    }

    /// Creates a push rope over a rope.
    pub fn from(rope: AttributedRope<Cell, Attribute>, push_fn: PushFn) -> (r: Self)
        ensures
            r.inner() == rope,
            r.push_fn() == push_fn,
    {
        PushBeforeRope { rope, push_fn }
    }

    /// The number of cells in the rope.
    pub fn len(&self) -> (r: usize)
        requires
            self.inner().wf(),
        ensures
            r == self.inner().cells().len(),
    {
        self.rope.len()
    }

    /// Reads the cells in a range of the rope (clamped to the rope).
    pub fn read_cells(&self, range: Range<usize>) -> (r: Vec<Cell>)
        requires
            self.inner().wf(),
        ensures
            ({
                let (s, e) = clamp_range(range, self.inner().cells().len());
                r@ == self.inner().cells().subrange(s, e)
            }),
    {
        self.rope.read_cells(range)
    }

    /// The attribute at a position and the extent of its run.
    pub fn read_attributes(&self, pos: usize) -> (r: (&Attribute, Range<usize>))
        requires
            self.inner().wf(),
            vstd::laws_eq::obeys_concrete_eq::<Attribute>(),
        ensures
            ({
                let ls = self.inner().leaves();
                let len = self.inner().cells().len();
                let p = if pos < len { pos as int } else { len - 1 };
                let k = edit_leaf(ls, p + 1);
                &&& 0 <= k < ls.len()
                &&& *r.0 == ls[k].1
                &&& r.1.start == leaf_start(ls, k)
                &&& r.1.end == leaf_start(ls, run_end(ls, k))
            }),
    {
        self.rope.read_attributes(pos)
    }

    /// Hands the action to the function, then performs it.
    pub fn edit(&mut self, action: RopeAction<Cell, Attribute>)
        requires
            old(self).inner().wf(),
            vstd::laws_eq::obeys_concrete_eq::<Attribute>(),
            old(self).inner().cells().len() + action.added() <= usize::MAX,
            old(self).push_fn().requires((&action,)),
        ensures
            final(self).inner().wf(),
            old(self).inner().edit_done(final(self).inner(), action),
            final(self).push_fn() == old(self).push_fn(),
    {
        (self.push_fn)(&action);
        self.rope.edit(action);
    }

    /// Replaces a range of cells, through `edit`.
    pub fn replace(&mut self, range: Range<usize>, new_cells: Vec<Cell>)
        requires
            old(self).inner().wf(),
            vstd::laws_eq::obeys_concrete_eq::<Attribute>(),
            old(self).inner().cells().len() + new_cells@.len() <= usize::MAX,
            forall|a: RopeAction<Cell, Attribute>| old(self).push_fn().requires((&a,)),
        ensures
            final(self).inner().wf(),
            old(self).inner().edit_done(final(self).inner(), RopeAction::Replace(range, new_cells)),
            final(self).push_fn() == old(self).push_fn(),
    {
        self.edit(RopeAction::Replace(range, new_cells));
    }

    /// Sets the attribute of a range of cells, through `edit`.
    pub fn set_attributes(&mut self, range: Range<usize>, new_attributes: Attribute)
        requires
            old(self).inner().wf(),
            vstd::laws_eq::obeys_concrete_eq::<Attribute>(),
            forall|a: RopeAction<Cell, Attribute>| old(self).push_fn().requires((&a,)),
        ensures
            final(self).inner().wf(),
            old(self).inner().edit_done(final(self).inner(), RopeAction::SetAttributes(range, new_attributes)),
            final(self).push_fn() == old(self).push_fn(),
    {
        proof {
            old(self).inner().lemma_total_fits();
        }
        self.edit(RopeAction::SetAttributes(range, new_attributes));
    }

    /// Replaces a range of cells with cells of the given attribute, through `edit`.
    pub fn replace_attributes(&mut self, range: Range<usize>, new_cells: Vec<Cell>, new_attributes: Attribute)
        requires
            old(self).inner().wf(),
            vstd::laws_eq::obeys_concrete_eq::<Attribute>(),
            old(self).inner().cells().len() + new_cells@.len() <= usize::MAX,
            forall|a: RopeAction<Cell, Attribute>| old(self).push_fn().requires((&a,)),
        ensures
            final(self).inner().wf(),
            old(self).inner().edit_done(
                final(self).inner(),
                RopeAction::ReplaceAttributes(range, new_cells, new_attributes),
            ),
            final(self).push_fn() == old(self).push_fn(),
    {
        self.edit(RopeAction::ReplaceAttributes(range, new_cells, new_attributes));
    }
}

impl<Cell: Copy, Attribute: Copy + PartialEq + Default, PushFn: Fn(RopeAction<Cell, Attribute>)> PushAfterRope<
    Cell,
    Attribute,
    PushFn,
> {
    /// The rope that holds the cells.
    pub closed spec fn inner(&self) -> AttributedRope<Cell, Attribute> {
        self.rope
    }

    /// The function that edits are handed to.
    pub closed spec fn push_fn(&self) -> PushFn {
        self.push_fn
    }

    /// Creates a push rope over a rope.
    pub fn from(rope: AttributedRope<Cell, Attribute>, push_fn: PushFn) -> (r: Self)
        ensures
            r.inner() == rope,
            r.push_fn() == push_fn,
    {
        PushAfterRope { rope, push_fn }
    }

    /// The number of cells in the rope.
    pub fn len(&self) -> (r: usize)
        requires
            self.inner().wf(),
        ensures
            r == self.inner().cells().len(),
    {
        self.rope.len()
    }

    /// Reads the cells in a range of the rope (clamped to the rope).
    pub fn read_cells(&self, range: Range<usize>) -> (r: Vec<Cell>)
        requires
            self.inner().wf(),
        ensures
            ({
                let (s, e) = clamp_range(range, self.inner().cells().len());
                r@ == self.inner().cells().subrange(s, e)
            }),
    {
        self.rope.read_cells(range)
    }

    /// The attribute at a position and the extent of its run.
    pub fn read_attributes(&self, pos: usize) -> (r: (&Attribute, Range<usize>))
        requires
            self.inner().wf(),
            vstd::laws_eq::obeys_concrete_eq::<Attribute>(),
        ensures
            ({
                let ls = self.inner().leaves();
                let len = self.inner().cells().len();
                let p = if pos < len { pos as int } else { len - 1 };
                let k = edit_leaf(ls, p + 1);
                &&& 0 <= k < ls.len()
                &&& *r.0 == ls[k].1
                &&& r.1.start == leaf_start(ls, k)
                &&& r.1.end == leaf_start(ls, run_end(ls, k))
            }),
    {
        self.rope.read_attributes(pos)
    }

    /// Performs the action, then hands it to the function.
    pub fn edit(&mut self, action: RopeAction<Cell, Attribute>)
        requires
            old(self).inner().wf(),
            vstd::laws_eq::obeys_concrete_eq::<Attribute>(),
            old(self).inner().cells().len() + action.added() <= usize::MAX,
            forall|a: RopeAction<Cell, Attribute>| same_action(a, action) ==> old(self).push_fn().requires((a,)),
        ensures
            final(self).inner().wf(),
            old(self).inner().edit_done(final(self).inner(), action),
            final(self).push_fn() == old(self).push_fn(),
    {
        let copy = copy_action(&action);
        self.rope.edit(action);
        (self.push_fn)(copy);
    }

    /// Replaces a range of cells, through `edit`.
    pub fn replace(&mut self, range: Range<usize>, new_cells: Vec<Cell>)
        requires
            old(self).inner().wf(),
            vstd::laws_eq::obeys_concrete_eq::<Attribute>(),
            old(self).inner().cells().len() + new_cells@.len() <= usize::MAX,
            forall|a: RopeAction<Cell, Attribute>| old(self).push_fn().requires((a,)),
        ensures
            final(self).inner().wf(),
            old(self).inner().edit_done(final(self).inner(), RopeAction::Replace(range, new_cells)),
            final(self).push_fn() == old(self).push_fn(),
    {
        self.edit(RopeAction::Replace(range, new_cells));
    }

    /// Sets the attribute of a range of cells, through `edit`.
    pub fn set_attributes(&mut self, range: Range<usize>, new_attributes: Attribute)
        requires
            old(self).inner().wf(),
            vstd::laws_eq::obeys_concrete_eq::<Attribute>(),
            forall|a: RopeAction<Cell, Attribute>| old(self).push_fn().requires((a,)),
        ensures
            final(self).inner().wf(),
            old(self).inner().edit_done(final(self).inner(), RopeAction::SetAttributes(range, new_attributes)),
            final(self).push_fn() == old(self).push_fn(),
    {
        proof {
            old(self).inner().lemma_total_fits();
        }
        self.edit(RopeAction::SetAttributes(range, new_attributes));
    }

    /// Replaces a range of cells with cells of the given attribute, through `edit`.
    pub fn replace_attributes(&mut self, range: Range<usize>, new_cells: Vec<Cell>, new_attributes: Attribute)
        requires
            old(self).inner().wf(),
            vstd::laws_eq::obeys_concrete_eq::<Attribute>(),
            old(self).inner().cells().len() + new_cells@.len() <= usize::MAX,
            forall|a: RopeAction<Cell, Attribute>| old(self).push_fn().requires((a,)),
        ensures
            final(self).inner().wf(),
            old(self).inner().edit_done(
                final(self).inner(),
                RopeAction::ReplaceAttributes(range, new_cells, new_attributes),
            ),
            final(self).push_fn() == old(self).push_fn(),
    {
        self.edit(RopeAction::ReplaceAttributes(range, new_cells, new_attributes));
    }
}

} // verus!
