use vstd::prelude::*;

use crate::attributed_rope::{clamp_range, replace_attr_leaves, replace_leaves, AttributedRope};
use crate::leaf_seq::{edit_leaf, leaf_start, set_attr_leaves, with_attr};
use crate::pending_change::{change_of, changes_ok, kept, lemma_marks_kept, marked, extent, net_growth, record_change, RopePendingChange};
use crate::rope_action::RopeAction;

use std::ops::Range;

verus! {

/// What one pulled action says: the range it replaces in the rope as it
/// was at the last pull, the cells it puts there and, for an action that
/// sets attributes, their attribute.
pub type ActionPlan<Cell, Attribute> = (int, int, Seq<Cell>, Option<Attribute>);

/// The action matches its plan.
pub open spec fn action_matches<Cell, Attribute>(
    a: RopeAction<Cell, Attribute>,
    p: ActionPlan<Cell, Attribute>,
) -> bool {
    match a {
        RopeAction::Replace(r, c) => r.start == p.0 && r.end == p.1 && c@ == p.2 && p.3 is None,
        RopeAction::ReplaceAttributes(r, c, x) => r.start == p.0 && r.end == p.1 && c@ == p.2 && p.3
            == Some(x),
        RopeAction::SetAttributes(_, _) => false,
    }
}

/// The actions match their plans, one for one.
pub open spec fn actions_match<Cell, Attribute>(
    r: Seq<RopeAction<Cell, Attribute>>,
    ps: Seq<ActionPlan<Cell, Attribute>>,
) -> bool {
    &&& r.len() == ps.len()
    &&& forall|i: int| 0 <= i < r.len() ==> #[trigger] action_matches(r[i], ps[i])
}

/// The actions for the attribute runs of the cells `ns..end` of a rope,
/// from the last run back. The first replaces `os..oe`; the others insert
/// at `os`, in front of what came before.
pub open spec fn run_plans<Cell, Attribute>(
    rope: AttributedRope<Cell, Attribute>,
    ns: int,
    end: int,
    os: int,
    oe: int,
) -> Seq<ActionPlan<Cell, Attribute>>
    decreases end - ns,
{
    let ls = rope.leaves();
    let len = rope.cells().len() as int;
    let p = if end - 1 < len { end - 1 } else { len - 1 };
    let k = edit_leaf(ls, p + 1);
    let st = if leaf_start(ls, k) > ns { leaf_start(ls, k) as int } else { ns };
    let plan = (os, oe, rope.cells().subrange(clamp_range(st as usize..end as usize, len as nat).0, clamp_range(st as usize..end as usize, len as nat).1), Some(ls[k].1));
    if st <= ns || st >= end {
        seq![plan]
    } else {
        seq![plan] + run_plans(rope, ns, st, os, os)
    }
}

/// The actions for one pending change.
pub open spec fn change_plans<Cell, Attribute>(
    rope: AttributedRope<Cell, Attribute>,
    c: RopePendingChange,
) -> Seq<ActionPlan<Cell, Attribute>> {
    let os = c.original_range.start as int;
    let oe = c.original_range.end as int;
    let ns = c.new_range.start as int;
    let ne = c.new_range.end as int;
    if os == oe && ns == ne {
        Seq::empty()
    } else if c.changed_attributes && ns < ne {
        run_plans(rope, ns, ne, os, oe)
    } else {
        let (s, e) = clamp_range(c.new_range, rope.cells().len());
        seq![(os, oe, rope.cells().subrange(s, e), None)]
    }
}

/// The actions for the pending changes, the last change first.
pub open spec fn pull_plans<Cell, Attribute>(
    rope: AttributedRope<Cell, Attribute>,
    cs: Seq<RopePendingChange>,
) -> Seq<ActionPlan<Cell, Attribute>>
    decreases cs.len(),
{
    if cs.len() == 0 {
        Seq::empty()
    } else {
        change_plans(rope, cs.last()) + pull_plans(rope, cs.drop_last())
    }
}

/// The bounds of `range` clamped to a sequence of `len` cells.
fn clamped(range: Range<usize>, len: usize) -> (r: (usize, usize))
    ensures
        r.0 == clamp_range(range, len as nat).0,
        r.1 == clamp_range(range, len as nat).1,
        r.0 <= r.1 <= len,
        clamp_range(r.0..r.1, len as nat) == (r.0 as int, r.1 as int),
{
    let s = if range.start <= len {
        range.start
    } else {
        len
    };
    let e = if range.end <= s {
        s
    } else if range.end <= len {
        range.end
    } else {
        len
    };
    (s, e)
}

/// Appends to `out` the actions for the attribute runs of the cells
/// `ns..ne`, from the last run back.
fn push_runs<Cell: Copy, Attribute: Copy + PartialEq + Default>(
    rope_ref: &AttributedRope<Cell, Attribute>,
    ns: usize,
    ne: usize,
    os: usize,
    oe: usize,
    out: &mut Vec<RopeAction<Cell, Attribute>>,
)
    requires
        rope_ref.wf(),
        vstd::laws_eq::obeys_concrete_eq::<Attribute>(),
        ns < ne,
    ensures
        final(out)@.len() >= old(out)@.len(),
        final(out)@.subrange(0, old(out)@.len() as int) == old(out)@,
        actions_match(
            final(out)@.subrange(old(out)@.len() as int, final(out)@.len() as int),
            run_plans(*rope_ref, ns as int, ne as int, os as int, oe as int),
        ),
{
    let ghost base = out@;
    let ghost rope = *rope_ref;
    let ghost whole = run_plans(rope, ns as int, ne as int, os as int, oe as int);
    let ghost mut done: Seq<ActionPlan<Cell, Attribute>> = Seq::empty();
    let mut end = ne;
    let mut orig_end = oe;
    loop
        invariant_except_break
            rope_ref.wf(),
            vstd::laws_eq::obeys_concrete_eq::<Attribute>(),
            rope == *rope_ref,
            ns < end <= ne,
            orig_end == oe || orig_end == os,
            out@.len() == base.len() + done.len(),
            out@.subrange(0, base.len() as int) == base,
            actions_match(out@.subrange(base.len() as int, out@.len() as int), done),
            done + run_plans(rope, ns as int, end as int, os as int, orig_end as int) == whole,
        ensures
            out@.len() >= base.len(),
            out@.subrange(0, base.len() as int) == base,
            actions_match(out@.subrange(base.len() as int, out@.len() as int), whole),
        decreases end - ns,
    {
        let (attr, extent) = rope_ref.read_attributes(end - 1);
        let start = if extent.start > ns {
            extent.start
        } else {
            ns
        };
        let cells = rope_ref.read_cells(start..end);
        let ghost prev_out = out@;
        out.push(RopeAction::ReplaceAttributes(os..orig_end, cells, *attr));
        proof {
            let rest = run_plans(rope, ns as int, end as int, os as int, orig_end as int);
            assert(action_matches(out@.last(), rest[0]));
            let done2 = done.push(rest[0]);
            assert(out@.subrange(0, base.len() as int) =~= base);
            assert forall|i: int| 0 <= i < done2.len() implies #[trigger] action_matches(
                out@.subrange(base.len() as int, out@.len() as int)[i],
                done2[i],
            ) by {
                if i < done.len() {
                    assert(out@.subrange(base.len() as int, out@.len() as int)[i] == prev_out.subrange(
                        base.len() as int, prev_out.len() as int)[i]);
                }
            }
            if start <= ns || start >= end {
                assert(rest =~= seq![rest[0]]);
                assert(done2 =~= whole);
            } else {
                assert(done2 + run_plans(rope, ns as int, start as int, os as int, os as int) =~= whole);
            }
            done = done2;
        }
        if start <= ns || start >= end {
            break;
        }
        orig_end = os;
        end = start;
    }
}

/// A rope that gathers the changes made to it, to be pulled as one batch of
/// actions later. A function is called whenever the rope goes from having
/// no pending changes to having some.
pub struct PullRope<Cell, Attribute, PullFn> {
    /// The rope that holds the cells.
    rope: AttributedRope<Cell, Attribute>,
    /// Called when changes become pending.
    pull_fn: PullFn,
    /// The pending changes, in order.
    changes: Vec<RopePendingChange>,
    /// The length of the rope when the changes were last pulled.
    pulled_len: Ghost<int>,
}

impl<Cell: Copy, Attribute: Copy + PartialEq + Default, PullFn: Fn()> PullRope<Cell, Attribute, PullFn> {
    /// The rope that holds the cells.
    pub closed spec fn inner(&self) -> AttributedRope<Cell, Attribute> {
        self.rope
    }

    /// The pending changes.
    pub closed spec fn pending(&self) -> Seq<RopePendingChange> {
        self.changes@
    }

    /// The length of the rope when the changes were last pulled.
    pub closed spec fn pulled_len(&self) -> int {
        self.pulled_len@
    }

    /// The notification function.
    pub closed spec fn notify_fn(&self) -> PullFn {
        self.pull_fn
    }

    /// The rope is well-formed, the pending changes are in order, and
    /// together they account for the change in length since the last pull.
    pub open spec fn ok(&self) -> bool {
        &&& self.inner().wf()
        &&& changes_ok(self.pending())
        &&& self.inner().cells().len() - self.pulled_len() == net_growth(self.pending())
    }

    /// Creates a pull rope over a rope, with a function to call when changes
    /// become pending.
    pub fn from(rope: AttributedRope<Cell, Attribute>, pull_fn: PullFn) -> (r: Self)
        requires
            rope.wf(),
        ensures
            r.ok(),
            r.inner() == rope,
            r.pending() == Seq::<RopePendingChange>::empty(),
            r.pulled_len() == rope.cells().len(),
            r.notify_fn() == pull_fn,
    {
        let ghost n = rope.cells().len() as int;
        let r = PullRope { rope, pull_fn, changes: Vec::new(), pulled_len: Ghost(n) };
        proof {
            reveal(changes_ok);
        }
        r
    }

    /// The pending changes.
    pub fn changes(&self) -> (r: &Vec<RopePendingChange>)
        ensures
            r@ == self.pending(),
    {
        &self.changes
    }

    /// Marks the cells `original_range` of the current rope as replaced by
    /// `new_length` cells, for the next pull.
    pub fn mark_change(&mut self, original_range: Range<usize>, new_length: usize, attribute_change: bool)
        requires
            changes_ok(old(self).pending()),
            original_range.start <= original_range.end,
            extent(old(self).pending()) + 2 * original_range.end + new_length <= usize::MAX,
        ensures
            changes_ok(final(self).pending()),
            net_growth(final(self).pending()) == net_growth(old(self).pending()) + new_length - (
            original_range.end - original_range.start),
            extent(final(self).pending()) <= extent(old(self).pending()) + 2 * original_range.end
                + new_length,
            final(self).inner() == old(self).inner(),
            final(self).pulled_len() == old(self).pulled_len(),
            final(self).notify_fn() == old(self).notify_fn(),
            old(self).pending().len() == 0 ==> final(self).pending() == seq![
                change_of(
                    original_range.start as int,
                    original_range.end as int,
                    original_range.start as int,
                    original_range.start + new_length,
                    attribute_change,
                ),
            ],
            final(self).pending() == marked(
                old(self).pending(),
                original_range.start as int,
                original_range.end as int,
                new_length as int,
                attribute_change,
            ),
            kept(old(self).pending(), final(self).pending()),
    {
        record_change(&mut self.changes, original_range, new_length, attribute_change);
        proof {
            lemma_marks_kept(
                old(self).pending(),
                original_range.start as int,
                original_range.end as int,
                new_length as int,
                attribute_change,
            );
        }
    }

    /// The number of cells in the rope.
    pub fn len(&self) -> (r: usize)
        requires
            self.ok(),
        ensures
            r == self.inner().cells().len(),
    {
        self.rope.len()
    }

    /// Reads the cells in a range of the rope (clamped to the rope).
    pub fn read_cells(&self, range: Range<usize>) -> (r: Vec<Cell>)
        requires
            self.ok(),
        ensures
            ({
                let (s, e) = clamp_range(range, self.inner().cells().len());
                r@ == self.inner().cells().subrange(s, e)
            }),
    {
        self.rope.read_cells(range)
    }

    /// The attribute at a position and the extent of its run, as the rope
    /// reports them.
    pub fn read_attributes(&self, pos: usize) -> (r: (&Attribute, Range<usize>))
        requires
            self.ok(),
            vstd::laws_eq::obeys_concrete_eq::<Attribute>(),
        ensures
            ({
                let ls = self.inner().leaves();
                let len = self.inner().cells().len();
                let p = if pos < len { pos as int } else { len - 1 };
                let k = edit_leaf(ls, p + 1);
                &&& 0 <= k < ls.len()
                &&& *r.0 == ls[k].1
                &&& r.1.start == leaf_start(ls, k)
                &&& r.1.end == leaf_start(ls, crate::leaf_seq::run_end(ls, k))
                &&& len > 0 ==> {
                    &&& r.1.start <= p < r.1.end <= len
                    &&& *r.0 == self.inner().attrs()[p]
                    &&& forall|q: int| r.1.start <= q < r.1.end ==> #[trigger] self.inner().attrs()[q] == *r.0
                }
            }),
    {
        self.rope.read_attributes(pos)
    }

    /// Replaces a range of cells (clamped to the rope), as the rope does,
    /// and records the change.
    pub fn replace(&mut self, range: Range<usize>, new_cells: Vec<Cell>)
        requires
            old(self).ok(),
            old(self).notify_fn().requires(()),
            old(self).inner().cells().len() + new_cells@.len() <= usize::MAX,
            extent(old(self).pending()) + 2 * old(self).inner().cells().len() + new_cells@.len() <= usize::MAX,
        ensures
            final(self).ok(),
            final(self).pulled_len() == old(self).pulled_len(),
            final(self).notify_fn() == old(self).notify_fn(),
            kept(old(self).pending(), final(self).pending()),
            ({
                let (s, e) = clamp_range(range, old(self).inner().cells().len());
                let ls = old(self).inner().leaves();
                &&& final(self).inner().cells() == old(self).inner().cells().take(s) + new_cells@
                    + old(self).inner().cells().skip(e)
                &&& final(self).inner().attrs() == old(self).inner().attrs().take(s) + Seq::new(
                    new_cells@.len(),
                    |_i: int| ls[edit_leaf(ls, s)].1,
                ) + old(self).inner().attrs().skip(e)
                &&& old(self).pending().len() == 0 ==> final(self).pending() == seq![
                    change_of(s, e, s, s + new_cells@.len(), false),
                ]
                &&& final(self).pending() == marked(old(self).pending(), s, e, new_cells@.len() as int, false)
                &&& final(self).inner().leaves() == replace_leaves(ls, s, e, new_cells@)
            }),
    {
        let need_pull = self.changes.len() == 0;
        let len = self.rope.len();
        let (s, e) = clamped(range, len);
        self.mark_change(s..e, new_cells.len(), false);
        self.rope.replace(s..e, new_cells);
        if need_pull && self.changes.len() > 0 {
            (self.pull_fn)();
        }
    }

    /// Sets the attribute of a range of cells (clamped to the rope), as the
    /// rope does, and records the change.
    pub fn set_attributes(&mut self, range: Range<usize>, new_attributes: Attribute)
        requires
            old(self).ok(),
            old(self).notify_fn().requires(()),
            vstd::laws_eq::obeys_concrete_eq::<Attribute>(),
            extent(old(self).pending()) + 3 * old(self).inner().cells().len() <= usize::MAX,
        ensures
            final(self).ok(),
            final(self).pulled_len() == old(self).pulled_len(),
            final(self).notify_fn() == old(self).notify_fn(),
            kept(old(self).pending(), final(self).pending()),
            ({
                let (s, e) = clamp_range(range, old(self).inner().cells().len());
                &&& final(self).inner().cells() == old(self).inner().cells()
                &&& final(self).inner().attrs() == with_attr(old(self).inner().attrs(), s, e, new_attributes)
                &&& final(self).pending() == marked(old(self).pending(), s, e, e - s, true)
                &&& final(self).inner().leaves() == set_attr_leaves(old(self).inner().leaves(), s, e, new_attributes)
            }),
    {
        let need_pull = self.changes.len() == 0;
        let len = self.rope.len();
        let (s, e) = clamped(range, len);
        self.mark_change(s..e, e - s, true);
        self.rope.set_attributes(s..e, new_attributes);
        if need_pull && self.changes.len() > 0 {
            (self.pull_fn)();
        }
    }

    /// Replaces a range of cells (clamped to the rope) with cells of the
    /// given attribute, as the rope does, and records the change.
    pub fn replace_attributes(&mut self, range: Range<usize>, new_cells: Vec<Cell>, new_attributes: Attribute)
        requires
            old(self).ok(),
            old(self).notify_fn().requires(()),
            vstd::laws_eq::obeys_concrete_eq::<Attribute>(),
            old(self).inner().cells().len() + new_cells@.len() <= usize::MAX,
            extent(old(self).pending()) + 2 * old(self).inner().cells().len() + new_cells@.len() <= usize::MAX,
        ensures
            final(self).ok(),
            final(self).pulled_len() == old(self).pulled_len(),
            final(self).notify_fn() == old(self).notify_fn(),
            kept(old(self).pending(), final(self).pending()),
            ({
                let (s, e) = clamp_range(range, old(self).inner().cells().len());
                &&& final(self).inner().cells() == old(self).inner().cells().take(s) + new_cells@
                    + old(self).inner().cells().skip(e)
                &&& final(self).inner().attrs() == old(self).inner().attrs().take(s) + Seq::new(
                    new_cells@.len(),
                    |_i: int| new_attributes,
                ) + old(self).inner().attrs().skip(e)
                &&& final(self).pending() == marked(old(self).pending(), s, e, new_cells@.len() as int, true)
                &&& final(self).inner().leaves() == replace_attr_leaves(
                    old(self).inner().leaves(),
                    s,
                    e,
                    new_cells@,
                    new_attributes,
                )
            }),
    {
        let need_pull = self.changes.len() == 0;
        let len = self.rope.len();
        let (s, e) = clamped(range, len);
        self.mark_change(s..e, new_cells.len(), true);
        self.rope.replace_attributes(s..e, new_cells, new_attributes);
        if need_pull && self.changes.len() > 0 {
            (self.pull_fn)();
        }
    }

    /// Performs an editing action on the rope and records the change.
    pub fn edit(&mut self, action: RopeAction<Cell, Attribute>)
        requires
            old(self).ok(),
            old(self).notify_fn().requires(()),
            vstd::laws_eq::obeys_concrete_eq::<Attribute>(),
            old(self).inner().cells().len() + action.added() <= usize::MAX,
            extent(old(self).pending()) + 3 * old(self).inner().cells().len() + action.added() <= usize::MAX,
        ensures
            final(self).ok(),
            final(self).pulled_len() == old(self).pulled_len(),
            final(self).notify_fn() == old(self).notify_fn(),
            kept(old(self).pending(), final(self).pending()),
            old(self).inner().edit_done(final(self).inner(), action),
            ({
                let (s, e) = clamp_range(action.range_of(), old(self).inner().cells().len());
                final(self).pending() == match action {
                    RopeAction::Replace(_, c) => marked(old(self).pending(), s, e, c@.len() as int, false),
                    RopeAction::SetAttributes(_, _) => marked(old(self).pending(), s, e, e - s, true),
                    RopeAction::ReplaceAttributes(_, c, _) => marked(old(self).pending(), s, e, c@.len() as int, true),
                }
            }),
    {
        match action {
            RopeAction::Replace(range, new_cells) => {
                self.replace(range, new_cells);
            },
            RopeAction::SetAttributes(range, new_attributes) => {
                self.set_attributes(range, new_attributes);
            },
            RopeAction::ReplaceAttributes(range, new_cells, new_attributes) => {
                self.replace_attributes(range, new_cells, new_attributes);
            },
        }
    }

    /// Takes the pending changes and returns the actions that bring a copy
    /// of the rope, as it was at the last pull, up to date: the last change
    /// first, so that the positions of each action are those of that copy.
    pub fn pull_changes(&mut self) -> (r: Vec<RopeAction<Cell, Attribute>>)
        requires
            old(self).ok(),
            vstd::laws_eq::obeys_concrete_eq::<Attribute>(),
        ensures
            final(self).ok(),
            final(self).inner() == old(self).inner(),
            final(self).pending() == Seq::<RopePendingChange>::empty(),
            final(self).pulled_len() == old(self).inner().cells().len(),
            final(self).notify_fn() == old(self).notify_fn(),
            actions_match(r@, pull_plans(old(self).inner(), old(self).pending())),
    {
        let mut pending: Vec<RopePendingChange> = Vec::new();
        std::mem::swap(&mut self.changes, &mut pending);
        let ghost rope = self.inner();
        let ghost cs = pending@;
        let ghost mut done: Seq<ActionPlan<Cell, Attribute>> = Seq::empty();
        let mut result: Vec<RopeAction<Cell, Attribute>> = Vec::new();
        let mut i = pending.len();
        proof {
            assert(cs.take(cs.len() as int) =~= cs);
        }
        while i > 0
            invariant
                rope == self.inner(),
                rope.wf(),
                self.rope.wf(),
                i <= pending@.len(),
                cs == pending@,
                vstd::laws_eq::obeys_concrete_eq::<Attribute>(),
                actions_match(result@, done),
                done + pull_plans(rope, cs.take(i as int)) == pull_plans(rope, cs),
            decreases i,
        {
            i = i - 1;
            let os = pending[i].original_range.start;
            let oe = pending[i].original_range.end;
            let ns = pending[i].new_range.start;
            let ne = pending[i].new_range.end;
            let dirty = pending[i].changed_attributes;
            let ghost before = result@;
            proof {
                assert(cs.take(i + 1).drop_last() =~= cs.take(i as int));
                assert(cs.take(i + 1).last() == cs[i as int]);
            }
            if os == oe && ns == ne {
            } else if dirty && ns < ne {
                push_runs(&self.rope, ns, ne, os, oe, &mut result);
            } else {
                let cells = self.rope.read_cells(ns..ne);
                result.push(RopeAction::Replace(os..oe, cells));
            }
            proof {
                let cp = change_plans(rope, cs[i as int]);
                assert(result@.subrange(0, before.len() as int) =~= before);
                assert(actions_match(result@.subrange(before.len() as int, result@.len() as int), cp));
                let done2 = done + cp;
                assert forall|j: int| 0 <= j < done2.len() implies #[trigger] action_matches(result@[j], done2[j]) by {
                    if j < done.len() {
                        assert(result@[j] == before[j]);
                    } else {
                        assert(result@[j] == result@.subrange(before.len() as int, result@.len() as int)[j
                            - before.len()]);
                    }
                }
                assert(done2 + pull_plans(rope, cs.take(i as int)) =~= pull_plans(rope, cs));
                done = done2;
            }
        }
        let len = self.rope.len();
        self.pulled_len = Ghost(len as int);
        proof {
            assert(cs.take(0) =~= Seq::<RopePendingChange>::empty());
            assert(done =~= pull_plans(rope, cs));
            reveal(changes_ok);
        }
        result
    }
}

/// The cells after the planned actions are applied in order.
pub open spec fn apply_plans<Cell, Attribute>(
    cells: Seq<Cell>,
    plans: Seq<ActionPlan<Cell, Attribute>>,
) -> Seq<Cell>
    decreases plans.len(),
{
    if plans.len() == 0 {
        cells
    } else {
        let p = plans[0];
        apply_plans(cells.take(p.0) + p.2 + cells.skip(p.1), plans.drop_first())
    }
}

/// After one replacement on a pull rope with nothing pending, the pulled
/// actions, applied to the cells as they were before it, give the cells
/// after it.
pub proof fn lemma_single_replace_replays<Cell, Attribute>(
    before: Seq<Cell>,
    after: AttributedRope<Cell, Attribute>,
    s: int,
    e: int,
    new_cells: Seq<Cell>,
)
    requires
        0 <= s <= e <= before.len(),
        s + new_cells.len() <= usize::MAX,
        e <= usize::MAX,
        after.cells() == before.take(s) + new_cells + before.skip(e),
    ensures
        apply_plans(before, pull_plans(after, seq![change_of(s, e, s, s + new_cells.len(), false)]))
            == after.cells(),
{
    let c = change_of(s, e, s, s + new_cells.len(), false);
    let cs = seq![c];
    assert(cs.drop_last() =~= Seq::<RopePendingChange>::empty());
    let plans = pull_plans(after, cs);
    assert(plans == change_plans(after, c) + pull_plans(after, Seq::<RopePendingChange>::empty()));
    assert(plans =~= change_plans(after, c));
    if s == e && new_cells.len() == 0 {
        assert(after.cells() =~= before);
    } else {
        let n = new_cells.len() as int;
        assert(after.cells().subrange(s, s + n) =~= new_cells);
        assert(plans =~= seq![(s, e, new_cells, None::<Attribute>)]);
        assert(plans.drop_first() =~= Seq::<ActionPlan<Cell, Attribute>>::empty());
        assert(apply_plans(before, plans) == apply_plans(
            before.take(s) + new_cells + before.skip(e),
            plans.drop_first(),
        ));
    }
}

} // verus!
