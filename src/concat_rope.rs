use vstd::prelude::*;

use crate::rope_action::RopeAction;

use std::marker::PhantomData;
use std::ops::Range;

verus! {

/// The number of cells in a range, where a range whose end comes before
/// its start holds none.
pub open spec fn range_len(r: Range<usize>) -> int {
    if r.start <= r.end {
        r.end - r.start
    } else {
        0
    }
}

/// The number of cells an action adds to the rope (negative where it
/// removes cells).
pub open spec fn action_growth<Cell, Attribute>(a: RopeAction<Cell, Attribute>) -> int {
    a.new_len() - range_len(a.range_of())
}

/// The length of a side after the actions, from the first on.
pub open spec fn length_after<Cell, Attribute>(len: int, acts: Seq<RopeAction<Cell, Attribute>>) -> int
    decreases acts.len(),
{
    if acts.len() == 0 {
        len
    } else {
        length_after(len, acts.drop_last()) + action_growth(acts.last())
    }
}

/// The action with both ends of its range moved by `d`.
pub open spec fn shifted_action<Cell, Attribute>(a: RopeAction<Cell, Attribute>, d: int) -> RopeAction<
    Cell,
    Attribute,
> {
    match a {
        RopeAction::Replace(r, c) => RopeAction::Replace(
            Range { start: (r.start + d) as usize, end: (r.end + d) as usize },
            c,
        ),
        RopeAction::SetAttributes(r, x) => RopeAction::SetAttributes(
            Range { start: (r.start + d) as usize, end: (r.end + d) as usize },
            x,
        ),
        RopeAction::ReplaceAttributes(r, c, x) => RopeAction::ReplaceAttributes(
            Range { start: (r.start + d) as usize, end: (r.end + d) as usize },
            c,
            x,
        ),
    }
}

/// Joins the action streams of the two halves of a rope into the stream of
/// the whole rope: actions on the right half are moved past the left half.
pub struct RopeConcatenator<Cell, Attribute> {
    cell: PhantomData<Cell>,
    attribute: PhantomData<Attribute>,
    /// The length of the left half.
    left_len: usize,
}

/// The number of cells an action adds to the rope.
fn growth_of<Cell, Attribute>(a: &RopeAction<Cell, Attribute>) -> (r: (usize, usize))
    ensures
        r.0 - r.1 == action_growth(*a),
        r.0 == a.new_len(),
        r.1 == range_len(a.range_of()),
{
    let (range, new_len) = match a {
        RopeAction::Replace(range, cells) => (range, cells.len()),
        RopeAction::ReplaceAttributes(range, cells, _) => (range, cells.len()),
        RopeAction::SetAttributes(range, _) => (
            range,
            if range.start <= range.end {
                range.end - range.start
            } else {
                0
            },
        ),
    };
    let old_len = if range.start <= range.end {
        range.end - range.start
    } else {
        0
    };
    (new_len, old_len)
}

/// Moves the range of an action by `d`.
fn shift_action<Cell, Attribute>(a: RopeAction<Cell, Attribute>, d: usize) -> (r: RopeAction<Cell, Attribute>)
    requires
        a.range_of().start + d <= usize::MAX,
        a.range_of().end + d <= usize::MAX,
    ensures
        r == shifted_action(a, d as int),
{
    match a {
        RopeAction::Replace(range, cells) => RopeAction::Replace((range.start + d)..(range.end + d), cells),
        RopeAction::ReplaceAttributes(range, cells, attributes) => RopeAction::ReplaceAttributes(
            (range.start + d)..(range.end + d),
            cells,
            attributes,
        ),
        RopeAction::SetAttributes(range, attributes) => RopeAction::SetAttributes(
            (range.start + d)..(range.end + d),
            attributes,
        ),
    }
}

/// The items of `v` in reverse order.
fn reversed<T>(v: Vec<T>) -> (r: Vec<T>)
    ensures
        r@.len() == v@.len(),
        forall|i: int| 0 <= i < v@.len() ==> #[trigger] r@[i] == v@[v@.len() - 1 - i],
{
    let ghost orig = v@;
    let mut v = v;
    let mut r: Vec<T> = Vec::new();
    while v.len() > 0
        invariant
            v@.len() + r@.len() == orig.len(),
            v@ == orig.take(v@.len() as int),
            forall|i: int| 0 <= i < r@.len() ==> #[trigger] r@[i] == orig[orig.len() - 1 - i],
        decreases v@.len(),
    {
        let x = v.pop().unwrap();
        r.push(x);
        proof {
            assert(v@ =~= orig.take(v@.len() as int));
        }
    }
    r
}

impl<Cell, Attribute> RopeConcatenator<Cell, Attribute> {
    /// The length of the left half.
    pub closed spec fn left(&self) -> int {
        self.left_len as int
    }

    /// A concatenator whose two halves are empty.
    pub fn new() -> (r: Self)
        ensures
            r.left() == 0,
    {
        RopeConcatenator { cell: PhantomData, attribute: PhantomData, left_len: 0 }
    }

    /// Passes on actions on the left half unchanged, and tracks the length
    /// of the left half.
    pub fn send_left(&mut self, items: Vec<RopeAction<Cell, Attribute>>) -> (r: Vec<RopeAction<Cell, Attribute>>)
        requires
            forall|k: int|
                0 <= k <= items@.len() ==> 0 <= #[trigger] length_after(old(self).left(), items@.take(k))
                    <= usize::MAX,
        ensures
            r@ == items@,
            final(self).left() == length_after(old(self).left(), items@),
    {
        let ghost orig = items@;
        let mut rev = reversed(items);
        let mut out: Vec<RopeAction<Cell, Attribute>> = Vec::new();
        proof {
            assert(orig.take(0) =~= Seq::<RopeAction<Cell, Attribute>>::empty());
        }
        while rev.len() > 0
            invariant
                rev@.len() + out@.len() == orig.len(),
                forall|i: int| 0 <= i < rev@.len() ==> #[trigger] rev@[i] == orig[orig.len() - 1 - i],
                out@ == orig.take(out@.len() as int),
                self.left() == length_after(old(self).left(), orig.take(out@.len() as int)),
                forall|k: int|
                    0 <= k <= orig.len() ==> 0 <= #[trigger] length_after(old(self).left(), orig.take(k))
                        <= usize::MAX,
            decreases rev@.len(),
        {
            let item = rev.pop().unwrap();
            let ghost n = out@.len() as int;
            let (new_len, old_len) = growth_of(&item);
            proof {
                assert(item == orig[n]);
                assert(orig.take(n + 1).drop_last() =~= orig.take(n));
                assert(orig.take(n + 1).last() == orig[n]);
                assert(0 <= length_after(old(self).left(), orig.take(n + 1)) <= usize::MAX);
            }
            if new_len > old_len {
                self.left_len = self.left_len + (new_len - old_len);
            } else {
                self.left_len = self.left_len - (old_len - new_len);
            }
            out.push(item);
            proof {
                assert(out@ =~= orig.take(n + 1));
            }
        }
        proof {
            assert(orig.take(orig.len() as int) =~= orig);
        }
        out
    }

    /// Moves actions on the right half past the left half.
    pub fn send_right(&mut self, items: Vec<RopeAction<Cell, Attribute>>) -> (r: Vec<RopeAction<Cell, Attribute>>)
        requires
            forall|i: int|
                0 <= i < items@.len() ==> #[trigger] items@[i].range_of().end + old(self).left() <= usize::MAX
                    && items@[i].range_of().start + old(self).left() <= usize::MAX,
        ensures
            final(self).left() == old(self).left(),
            r@.len() == items@.len(),
            forall|i: int| 0 <= i < items@.len() ==> #[trigger] r@[i] == shifted_action(items@[i], old(self).left()),
    {
        let ghost orig = items@;
        let left_len = self.left_len;
        let mut rev = reversed(items);
        let mut out: Vec<RopeAction<Cell, Attribute>> = Vec::new();
        while rev.len() > 0
            invariant
                rev@.len() + out@.len() == orig.len(),
                forall|i: int| 0 <= i < rev@.len() ==> #[trigger] rev@[i] == orig[orig.len() - 1 - i],
                forall|i: int| 0 <= i < out@.len() ==> #[trigger] out@[i] == shifted_action(orig[i], left_len as int),
                forall|i: int|
                    0 <= i < orig.len() ==> #[trigger] orig[i].range_of().end + left_len <= usize::MAX
                        && orig[i].range_of().start + left_len <= usize::MAX,
                left_len == self.left_len,
                self.left() == old(self).left(),
            decreases rev@.len(),
        {
            let item = rev.pop().unwrap();
            let ghost n = out@.len() as int;
            proof {
                assert(item == orig[n]);
                assert(orig[n].range_of().end + left_len <= usize::MAX);
                assert(orig[n].range_of().start + left_len <= usize::MAX);
            }
            out.push(shift_action(item, left_len));
        }
        out
    }
}

} // verus!
