use vstd::prelude::*;

use std::ops::Range;

verus! {

/// A region that has changed since the changes were last pulled.
#[derive(Debug)]
pub struct RopePendingChange {
    /// Where the region was when the changes were last pulled.
    pub original_range: Range<usize>,
    /// Where the region's cells stand now.
    pub new_range: Range<usize>,
    /// Whether an edit in this region changed attributes.
    pub changed_attributes: bool,
}

/// The change holds two ranges whose start is not after their end.
pub open spec fn change_ok(c: RopePendingChange) -> bool {
    &&& c.original_range.start <= c.original_range.end
    &&& c.new_range.start <= c.new_range.end
}

/// How many cells the change added (negative where it removed cells).
pub open spec fn growth(c: RopePendingChange) -> int {
    (c.new_range.end - c.new_range.start) - (c.original_range.end - c.original_range.start)
}

/// The pending changes are in order and do not overlap, and the untouched
/// gap before each change is as long now as it was when last pulled.
#[verifier::opaque]
pub open spec fn changes_ok(cs: Seq<RopePendingChange>) -> bool {
    &&& forall|i: int| 0 <= i < cs.len() ==> #[trigger] change_ok(cs[i])
    &&& forall|i: int|
        0 <= i < cs.len() - 1 ==> #[trigger] cs[i].new_range.end <= cs[i + 1].new_range.start
            && cs[i + 1].original_range.start - cs[i].original_range.end == cs[i
            + 1].new_range.start - cs[i].new_range.end
    &&& cs.len() > 0 ==> cs[0].original_range.start == cs[0].new_range.start
}

/// The number of cells that all the pending changes added together.
pub open spec fn net_growth(cs: Seq<RopePendingChange>) -> int
    decreases cs.len(),
{
    if cs.len() == 0 {
        0
    } else {
        net_growth(cs.drop_last()) + growth(cs.last())
    }
}

/// An upper bound on every position that the changes mention.
pub open spec fn extent(cs: Seq<RopePendingChange>) -> int {
    if cs.len() == 0 {
        0
    } else {
        cs.last().new_range.end + cs.last().original_range.end
    }
}

/// The growth of a sequence of changes is the sum of the growth of its parts.
pub proof fn lemma_growth_append(a: Seq<RopePendingChange>, b: Seq<RopePendingChange>)
    ensures
        net_growth(a + b) == net_growth(a) + net_growth(b),
    decreases b.len(),
{
    if b.len() == 0 {
        assert(a + b =~= a);
    } else {
        lemma_growth_append(a, b.drop_last());
        assert((a + b).drop_last() =~= a + b.drop_last());
    }
}

/// The growth of a single change.
pub proof fn lemma_growth_single(c: RopePendingChange)
    ensures
        net_growth(seq![c]) == growth(c),
{
    let e = Seq::<RopePendingChange>::empty();
    assert(seq![c].drop_last() =~= e);
    assert(net_growth(e) == 0);
    assert(seq![c].last() == c);
}

/// Changes whose entries grow alike grow alike.
pub proof fn lemma_growth_same(a: Seq<RopePendingChange>, b: Seq<RopePendingChange>)
    requires
        a.len() == b.len(),
        forall|i: int| 0 <= i < a.len() ==> #[trigger] growth(a[i]) == growth(b[i]),
    ensures
        net_growth(a) == net_growth(b),
    decreases a.len(),
{
    if a.len() > 0 {
        lemma_growth_same(a.drop_last(), b.drop_last());
    }
}

/// Replacing entry `i` changes the growth by the difference of the two entries.
pub proof fn lemma_growth_update(cs: Seq<RopePendingChange>, i: int, c: RopePendingChange)
    requires
        0 <= i < cs.len(),
    ensures
        net_growth(cs.update(i, c)) == net_growth(cs) - growth(cs[i]) + growth(c),
{
    assert(cs =~= cs.take(i) + seq![cs[i]] + cs.skip(i + 1));
    assert(cs.update(i, c) =~= cs.take(i) + seq![c] + cs.skip(i + 1));
    lemma_growth_append(cs.take(i) + seq![cs[i]], cs.skip(i + 1));
    lemma_growth_append(cs.take(i) + seq![c], cs.skip(i + 1));
    lemma_growth_append(cs.take(i), seq![cs[i]]);
    lemma_growth_append(cs.take(i), seq![c]);
    lemma_growth_single(cs[i]);
    lemma_growth_single(c);
}

/// Inserting an entry adds its growth.
pub proof fn lemma_growth_insert(cs: Seq<RopePendingChange>, i: int, c: RopePendingChange)
    requires
        0 <= i <= cs.len(),
    ensures
        net_growth(cs.insert(i, c)) == net_growth(cs) + growth(c),
{
    assert(cs =~= cs.take(i) + cs.skip(i));
    assert(cs.insert(i, c) =~= cs.take(i) + seq![c] + cs.skip(i));
    lemma_growth_append(cs.take(i) + seq![c], cs.skip(i));
    lemma_growth_append(cs.take(i), seq![c]);
    lemma_growth_append(cs.take(i), cs.skip(i));
    lemma_growth_single(c);
}


/// A change with the given bounds.
pub open spec fn change_of(os: int, oe: int, ns: int, ne: int, attrs: bool) -> RopePendingChange {
    RopePendingChange {
        original_range: Range { start: os as usize, end: oe as usize },
        new_range: Range { start: ns as usize, end: ne as usize },
        changed_attributes: attrs,
    }
}

fn make_change(os: usize, oe: usize, ns: usize, ne: usize, attrs: bool) -> (r: RopePendingChange)
    ensures
        r == change_of(os as int, oe as int, ns as int, ne as int, attrs),
{
    RopePendingChange { original_range: os..oe, new_range: ns..ne, changed_attributes: attrs }
}

/// Moves the current-coordinate ranges of the changes from `from` onwards
/// by `amount`, up or down.
fn shift_new_ranges(changes: &mut Vec<RopePendingChange>, from: usize, amount: usize, up: bool)
    requires
        from <= old(changes)@.len(),
        forall|i: int|
            from <= i < old(changes)@.len() ==> #[trigger] change_ok(old(changes)@[i]) && if up {
                old(changes)@[i].new_range.end + amount <= usize::MAX
            } else {
                old(changes)@[i].new_range.start >= amount
            },
    ensures
        final(changes)@.len() == old(changes)@.len(),
        forall|i: int| 0 <= i < from ==> #[trigger] final(changes)@[i] == old(changes)@[i],
        forall|i: int|
            from <= i < old(changes)@.len() ==> {
                let c = #[trigger] final(changes)@[i];
                let o = old(changes)@[i];
                &&& c.original_range == o.original_range
                &&& c.changed_attributes == o.changed_attributes
                &&& c.new_range.start == if up { o.new_range.start + amount } else { o.new_range.start - amount }
                &&& c.new_range.end == if up { o.new_range.end + amount } else { o.new_range.end - amount }
            },
{
    let mut m = from;
    while m < changes.len()
        invariant
            from <= m <= changes@.len(),
            changes@.len() == old(changes)@.len(),
            forall|i: int| 0 <= i < from ==> #[trigger] changes@[i] == old(changes)@[i],
            forall|i: int| m <= i < changes@.len() ==> #[trigger] changes@[i] == old(changes)@[i],
            forall|i: int|
                from <= i < old(changes)@.len() ==> #[trigger] change_ok(old(changes)@[i]) && if up {
                    old(changes)@[i].new_range.end + amount <= usize::MAX
                } else {
                    old(changes)@[i].new_range.start >= amount
                },
            forall|i: int|
                from <= i < m ==> {
                    let c = #[trigger] changes@[i];
                    let o = old(changes)@[i];
                    &&& c.original_range == o.original_range
                    &&& c.changed_attributes == o.changed_attributes
                    &&& c.new_range.start == if up { o.new_range.start + amount } else { o.new_range.start - amount }
                    &&& c.new_range.end == if up { o.new_range.end + amount } else { o.new_range.end - amount }
                },
        decreases changes@.len() - m,
    {
        let os = changes[m].original_range.start;
        let oe = changes[m].original_range.end;
        let ns = changes[m].new_range.start;
        let ne = changes[m].new_range.end;
        let flag = changes[m].changed_attributes;
        proof {
            assert(change_ok(old(changes)@[m as int]));
        }
        let c = if up {
            make_change(os, oe, ns + amount, ne + amount, flag)
        } else {
            make_change(os, oe, ns - amount, ne - amount, flag)
        };
        changes.set(m, c);
        m = m + 1;
    }
}


/// `cs` with the current-coordinate ranges from `from` onwards moved by `delta`.
pub open spec fn shift_seq(cs: Seq<RopePendingChange>, from: int, delta: int) -> Seq<RopePendingChange> {
    Seq::new(
        cs.len(),
        |i: int|
            if i < from {
                cs[i]
            } else {
                change_of(
                    cs[i].original_range.start as int,
                    cs[i].original_range.end as int,
                    cs[i].new_range.start + delta,
                    cs[i].new_range.end + delta,
                    cs[i].changed_attributes,
                )
            },
    )
}

/// Moving ranges does not change their growth.
proof fn lemma_growth_shift(cs: Seq<RopePendingChange>, from: int, delta: int)
    requires
        forall|i: int| from <= i < cs.len() ==> #[trigger] cs[i].new_range.start + delta >= 0 && cs[i].new_range.end
            + delta <= usize::MAX && cs[i].new_range.start <= cs[i].new_range.end,
    ensures
        net_growth(shift_seq(cs, from, delta)) == net_growth(cs),
{
    let cs2 = shift_seq(cs, from, delta);
    assert forall|i: int| 0 <= i < cs.len() implies #[trigger] growth(cs2[i]) == growth(cs[i]) by {
        if i >= from {
            assert(cs[i].new_range.start + delta >= 0);
        }
    }
    lemma_growth_same(cs2, cs);
}

/// Setting the end of change `idx` and moving every later change by the
/// same amount keeps the changes in order.
proof fn lemma_resize_ok(cs: Seq<RopePendingChange>, idx: int, c: RopePendingChange, delta: int)
    requires
        changes_ok(cs),
        0 <= idx < cs.len(),
        c.original_range == cs[idx].original_range,
        c.new_range.start == cs[idx].new_range.start,
        c.new_range.end == cs[idx].new_range.end + delta,
        c.new_range.start <= c.new_range.end,
        forall|i: int| idx < i < cs.len() ==> #[trigger] cs[i].new_range.start + delta >= 0 && cs[i].new_range.end
            + delta <= usize::MAX,
    ensures
        changes_ok(shift_seq(cs.update(idx, c), idx + 1, delta)),
        net_growth(shift_seq(cs.update(idx, c), idx + 1, delta)) == net_growth(cs) + delta,
{
    reveal(changes_ok);
    let cs1 = cs.update(idx, c);
    let cs2 = shift_seq(cs1, idx + 1, delta);
    assert forall|i: int| 0 <= i < cs2.len() implies #[trigger] change_ok(cs2[i]) by {
        assert(change_ok(cs[i]));
    }
    assert forall|i: int| 0 <= i < cs2.len() - 1 implies #[trigger] cs2[i].new_range.end <= cs2[i + 1].new_range.start
        && cs2[i + 1].original_range.start - cs2[i].original_range.end == cs2[i + 1].new_range.start
        - cs2[i].new_range.end by {
        assert(cs[i].new_range.end <= cs[i + 1].new_range.start);
        assert(change_ok(cs[i]));
        assert(change_ok(cs[i + 1]));
        if i > idx {
            assert(cs[i].new_range.start + delta >= 0);
            assert(cs[i + 1].new_range.start + delta >= 0);
        } else if i == idx {
            assert(cs[i + 1].new_range.start + delta >= 0);
        }
    }
    assert forall|i: int| idx + 1 <= i < cs1.len() implies #[trigger] cs1[i].new_range.start + delta >= 0
        && cs1[i].new_range.end + delta <= usize::MAX && cs1[i].new_range.start <= cs1[i].new_range.end by {
        assert(change_ok(cs[i]));
    }
    lemma_growth_update(cs, idx, c);
    lemma_growth_shift(cs1, idx + 1, delta);
}

/// Inserting a change that fits between its neighbours, and moving every
/// later change by `delta`, keeps the changes in order.
proof fn lemma_insert_ok(cs: Seq<RopePendingChange>, idx: int, c: RopePendingChange, delta: int)
    requires
        changes_ok(cs),
        0 <= idx <= cs.len(),
        change_ok(c),
        idx == 0 ==> c.original_range.start == c.new_range.start,
        idx > 0 ==> cs[idx - 1].new_range.end <= c.new_range.start && c.original_range.start
            - cs[idx - 1].original_range.end == c.new_range.start - cs[idx - 1].new_range.end,
        idx < cs.len() ==> c.new_range.end <= cs[idx].new_range.start + delta
            && cs[idx].original_range.start - c.original_range.end == cs[idx].new_range.start + delta
            - c.new_range.end,
        forall|i: int| idx <= i < cs.len() ==> #[trigger] cs[i].new_range.start + delta >= 0 && cs[i].new_range.end
            + delta <= usize::MAX,
    ensures
        changes_ok(shift_seq(cs.insert(idx, c), idx + 1, delta)),
        net_growth(shift_seq(cs.insert(idx, c), idx + 1, delta)) == net_growth(cs) + growth(c),
{
    reveal(changes_ok);
    let cs1 = cs.insert(idx, c);
    let cs2 = shift_seq(cs1, idx + 1, delta);
    assert forall|i: int| 0 <= i < cs2.len() implies #[trigger] change_ok(cs2[i]) by {
        if i < idx {
            assert(change_ok(cs[i]));
        } else if i > idx {
            assert(change_ok(cs[i - 1]));
        }
    }
    assert forall|i: int| 0 <= i < cs2.len() - 1 implies #[trigger] cs2[i].new_range.end <= cs2[i + 1].new_range.start
        && cs2[i + 1].original_range.start - cs2[i].original_range.end == cs2[i + 1].new_range.start
        - cs2[i].new_range.end by {
        if i < idx - 1 {
            assert(cs[i].new_range.end <= cs[i + 1].new_range.start);
        } else if i > idx {
            assert(cs[i - 1].new_range.end <= cs[i].new_range.start);
            assert(change_ok(cs[i - 1]));
            assert(change_ok(cs[i]));
            assert(cs[i - 1].new_range.start + delta >= 0);
            assert(cs[i].new_range.start + delta >= 0);
        } else if i == idx {
            assert(change_ok(cs[i]));
            assert(cs[i].new_range.start + delta >= 0);
        }
    }
    lemma_growth_insert(cs, idx, c);
    assert forall|i: int| idx + 1 <= i < cs1.len() implies #[trigger] cs1[i].new_range.start + delta >= 0
        && cs1[i].new_range.end + delta <= usize::MAX && cs1[i].new_range.start <= cs1[i].new_range.end by {
        assert(cs1[i] == cs[i - 1]);
        assert(change_ok(cs[i - 1]));
    }
    lemma_growth_shift(cs1, idx + 1, delta);
}


/// What ordered changes say of entry `i` and the one after it.
proof fn lemma_change_at(cs: Seq<RopePendingChange>, i: int)
    requires
        changes_ok(cs),
        0 <= i < cs.len(),
    ensures
        change_ok(cs[i]),
        i + 1 < cs.len() ==> cs[i].new_range.end <= cs[i + 1].new_range.start && cs[i + 1].original_range.start
            - cs[i].original_range.end == cs[i + 1].new_range.start - cs[i].new_range.end,
        i == 0 ==> cs[0].original_range.start == cs[0].new_range.start,
{
    reveal(changes_ok);
}

/// Along ordered changes, the ends never decrease.
proof fn lemma_ends_le(cs: Seq<RopePendingChange>, i: int, j: int)
    requires
        changes_ok(cs),
        0 <= i <= j < cs.len(),
    ensures
        cs[i].new_range.end <= cs[j].new_range.end,
        cs[i].original_range.end <= cs[j].original_range.end,
    decreases j - i,
{
    reveal(changes_ok);
    if i < j {
        lemma_ends_le(cs, i + 1, j);
        assert(change_ok(cs[i + 1]));
        assert(cs[i].new_range.end <= cs[i + 1].new_range.start);
    }
}

/// The index of the first change that ends after `pos`.
pub(crate) fn find_change(changes: &Vec<RopePendingChange>, pos: usize) -> (r: usize)
    requires
        changes_ok(changes@),
    ensures
        r <= changes@.len(),
        forall|i: int| 0 <= i < r ==> #[trigger] changes@[i].new_range.end <= pos,
        r < changes@.len() ==> changes@[r as int].new_range.end > pos,
        r == first_ending_after(changes@, pos as int, 0),
{
    let mut idx: usize = 0;
    while idx < changes.len()
        invariant
            idx <= changes@.len(),
            forall|i: int| 0 <= i < idx ==> #[trigger] changes@[i].new_range.end <= pos,
            first_ending_after(changes@, pos as int, 0) == first_ending_after(changes@, pos as int, idx as int),
        decreases changes@.len() - idx,
    {
        if changes[idx].new_range.end > pos {
            return idx;
        }
        idx = idx + 1;
    }
    idx
}

/// The first change, from `i` on, that ends after `pos` (the number of
/// changes where none does).
pub open spec fn first_ending_after(cs: Seq<RopePendingChange>, pos: int, i: int) -> int
    decreases cs.len() - i,
{
    if i >= cs.len() || i < 0 {
        cs.len() as int
    } else if cs[i].new_range.end > pos {
        i
    } else {
        first_ending_after(cs, pos, i + 1)
    }
}

/// Where a new change in the gap before change `idx` starts, as the rope
/// was at the last pull: the gap is as long then as now.
pub open spec fn original_at(cs: Seq<RopePendingChange>, idx: int, rs: int) -> int {
    if idx == 0 {
        rs
    } else {
        rs - cs[idx - 1].new_range.end + cs[idx - 1].original_range.end
    }
}

/// The rest of the edit lies in the gap before change `idx` (or past the
/// last change): it becomes a change of its own, and the later changes move
/// by its growth.
pub open spec fn step_gap_end(cs: Seq<RopePendingChange>, idx: int, rs: int, re: int, rl: int, flag: bool) -> Seq<
    RopePendingChange,
> {
    let os = original_at(cs, idx, rs);
    let c = change_of(os, os + (re - rs), rs, rs + rl, flag);
    if idx >= cs.len() {
        cs.push(c)
    } else {
        shift_seq(cs.insert(idx, c), idx + 1, rl - (re - rs))
    }
}

/// The edit lies inside change `idx`: the change grows by the edit's growth,
/// takes its flag, and the later changes move.
pub open spec fn step_inside(cs: Seq<RopePendingChange>, idx: int, rs: int, re: int, rl: int, flag: bool) -> Seq<
    RopePendingChange,
> {
    let ch = cs[idx];
    let c = change_of(
        ch.original_range.start as int,
        ch.original_range.end as int,
        ch.new_range.start as int,
        ch.new_range.end - (re - rs) + rl,
        ch.changed_attributes || flag,
    );
    shift_seq(cs.update(idx, c), idx + 1, rl - (re - rs))
}

/// How much change `idx` shrinks when the edit runs past it with fewer new
/// cells than the change holds after the edit's start: the reduction, as far
/// as the change's length allows.
pub open spec fn shrink_amount(cs: Seq<RopePendingChange>, idx: int, rs: int, re: int, rl: int) -> int {
    let ld = (re - rs) - rl;
    let cap = cs[idx].new_range.end - cs[idx].new_range.start;
    if cap < ld {
        cap
    } else {
        ld
    }
}

/// Change `idx` shrinks by `shrink_amount`, takes the edit's flag, and the
/// later changes move back.
pub open spec fn step_shrink(cs: Seq<RopePendingChange>, idx: int, rs: int, re: int, rl: int, flag: bool) -> Seq<
    RopePendingChange,
> {
    let ch = cs[idx];
    let lc = shrink_amount(cs, idx, rs, re, rl);
    let c = change_of(
        ch.original_range.start as int,
        ch.original_range.end as int,
        ch.new_range.start as int,
        ch.new_range.end - lc,
        ch.changed_attributes || flag,
    );
    shift_seq(cs.update(idx, c), idx + 1, -lc)
}

/// The edit runs from the gap before change `idx` into it: the gap becomes a
/// change with as many new cells as the gap held, or all that are left.
/// Returns the changes and what remains of the edit.
pub open spec fn step_gap_part(cs: Seq<RopePendingChange>, idx: int, rs: int, re: int, rl: int, flag: bool) -> (
    Seq<RopePendingChange>,
    int,
    int,
    int,
) {
    let os = original_at(cs, idx, rs);
    let gap = cs[idx].new_range.start - rs;
    if gap <= rl {
        (cs.insert(idx, change_of(os, os + gap, rs, rs + gap, flag)), rs + gap, re, rl - gap)
    } else {
        (
            shift_seq(cs.insert(idx, change_of(os, os + gap, rs, rs + rl, flag)), idx + 1, -(gap - rl)),
            rs + rl,
            re - (gap - rl),
            0,
        )
    }
}

/// Change `idx` with the edit's flag ORed into its own.
pub open spec fn with_flag(cs: Seq<RopePendingChange>, idx: int, flag: bool) -> Seq<RopePendingChange> {
    let ch = cs[idx];
    cs.update(
        idx,
        change_of(
            ch.original_range.start as int,
            ch.original_range.end as int,
            ch.new_range.start as int,
            ch.new_range.end as int,
            ch.changed_attributes || flag,
        ),
    )
}

/// The changes after the edit `rs..re`, replaced by `rl` cells, has been
/// folded in from change `idx` on, taking at most `fuel` steps.
pub open spec fn fold_from(
    cs: Seq<RopePendingChange>,
    idx: int,
    rs: int,
    re: int,
    rl: int,
    flag: bool,
    fuel: nat,
) -> Seq<RopePendingChange>
    decreases fuel,
{
    if fuel == 0 {
        cs
    } else if idx >= cs.len() {
        step_gap_end(cs, idx, rs, re, rl, flag)
    } else {
        let cs_start = cs[idx].new_range.start as int;
        let ce = cs[idx].new_range.end as int;
        if cs_start <= rs && ce < rs {
            fold_from(cs, idx + 1, rs, re, rl, flag, (fuel - 1) as nat)
        } else if cs_start <= rs {
            if re <= ce {
                step_inside(cs, idx, rs, re, rl, flag)
            } else if rs + rl < ce {
                let lc = shrink_amount(cs, idx, rs, re, rl);
                if lc == (re - rs) - rl {
                    step_shrink(cs, idx, rs, re, rl, flag)
                } else {
                    fold_from(step_shrink(cs, idx, rs, re, rl, flag), idx + 1, rs, re - lc, rl, flag, (fuel - 1) as nat)
                }
            } else {
                fold_from(with_flag(cs, idx, flag), idx + 1, ce, re, rl - (ce - rs), flag, (fuel - 1) as nat)
            }
        } else if cs_start >= re {
            step_gap_end(cs, idx, rs, re, rl, flag)
        } else {
            let (cs2, rs2, re2, rl2) = step_gap_part(cs, idx, rs, re, rl, flag);
            fold_from(cs2, idx + 1, rs2, re2, rl2, flag, (fuel - 1) as nat)
        }
    }
}

/// The pending changes after recording that the cells `s..e` were replaced
/// by `n` cells (changing attributes where `flag` is set). The edit is
/// folded in from the first change that ends after `s`:
/// - a change it lies inside grows or shrinks by the edit's growth;
/// - a change it runs past keeps as many of the new cells as it holds from
///   the edit's start, or, where fewer new cells are left, shrinks by the
///   reduction as far as its length allows and carries the rest on;
/// - each gap it covers becomes a change of its own, with as many of the new
///   cells as the gap held (the last piece takes all that are left);
/// - every change the edit touches has its attribute flag ORed with `flag`,
///   and each new change takes `flag`;
/// - the changes after the edit move by what the edit added.
pub open spec fn marked(cs: Seq<RopePendingChange>, s: int, e: int, n: int, flag: bool) -> Seq<RopePendingChange> {
    fold_from(cs, first_ending_after(cs, s, 0), s, e, n, flag, (2 * cs.len() + 2) as nat)
}

/// Where the folding of an edit into the changes stands: the edit's cells
/// `rs..re` of the current sequence, replaced by `rl` cells, remain to be
/// folded in from change `idx` on.
pub open spec fn walk_ok(
    cs: Seq<RopePendingChange>,
    idx: int,
    rs: int,
    re: int,
    rl: int,
    one: int,
    ooe: int,
    e0: int,
    n0: int,
    target: int,
) -> bool {
    &&& changes_ok(cs)
    &&& 0 <= idx <= cs.len()
    &&& 0 <= rs <= re <= e0
    &&& 0 <= rl <= n0
    &&& 0 <= one && 0 <= ooe
    &&& one + ooe + 2 * e0 + n0 <= usize::MAX
    &&& idx > 0 ==> cs[idx - 1].new_range.end <= rs
    &&& forall|i: int| idx <= i < cs.len() ==> #[trigger] cs[i].new_range.end <= one
    &&& forall|i: int| 0 <= i < cs.len() ==> #[trigger] cs[i].original_range.end <= ooe
    &&& net_growth(cs) + rl - (re - rs) == target
}

/// The edit has been folded in.
pub open spec fn walk_done(cs: Seq<RopePendingChange>, one: int, ooe: int, e0: int, n0: int, target: int) -> bool {
    &&& changes_ok(cs)
    &&& net_growth(cs) == target
    &&& cs.len() > 0 ==> cs.last().new_range.end <= one + e0 + n0
    &&& cs.len() > 0 ==> cs.last().original_range.end <= ooe + e0
}

/// Decreases at each step of the folding.
pub open spec fn walk_measure(cs: Seq<RopePendingChange>, idx: int, rs: int) -> int {
    2 * (cs.len() - idx) + if idx < cs.len() && cs[idx].new_range.start > rs {
        1int
    } else {
        0int
    }
}

/// Where the edit runs past change `idx` with enough new cells to fill it:
/// the change keeps its ranges and takes the edit's flag.
fn fold_flag(
    changes: &mut Vec<RopePendingChange>,
    idx: usize,
    rs: usize,
    re: usize,
    rl: usize,
    attribute_change: bool,
    Ghost(one): Ghost<int>,
    Ghost(ooe): Ghost<int>,
    Ghost(e0): Ghost<int>,
    Ghost(n0): Ghost<int>,
    Ghost(target): Ghost<int>,
)
    requires
        walk_ok(old(changes)@, idx as int, rs as int, re as int, rl as int, one, ooe, e0, n0, target),
        idx < old(changes)@.len(),
    ensures
        walk_ok(final(changes)@, idx as int, rs as int, re as int, rl as int, one, ooe, e0, n0, target),
        final(changes)@ == with_flag(old(changes)@, idx as int, attribute_change),
{
    let ghost cs = changes@;
    let os = changes[idx].original_range.start;
    let oe = changes[idx].original_range.end;
    let ns = changes[idx].new_range.start;
    let ne = changes[idx].new_range.end;
    let f = changes[idx].changed_attributes || attribute_change;
    let c = make_change(os, oe, ns, ne, f);
    proof {
        lemma_change_at(cs, idx as int);
        assert forall|i: int| idx < i < cs.len() implies #[trigger] cs[i].new_range.start + 0 >= 0
            && cs[i].new_range.end + 0 <= usize::MAX by {}
        lemma_resize_ok(cs, idx as int, c, 0);
        assert(shift_seq(cs.update(idx as int, c), idx + 1, 0) =~= cs.update(idx as int, c));
    }
    changes.set(idx, c);
    proof {
        assert forall|i: int| idx <= i < changes@.len() implies #[trigger] changes@[i].new_range.end <= one by {
            assert(changes@[i].new_range.end == cs[i].new_range.end);
        }
        assert forall|i: int| 0 <= i < changes@.len() implies #[trigger] changes@[i].original_range.end <= ooe by {
            assert(changes@[i].original_range.end == cs[i].original_range.end);
        }
        if idx > 0 {
            assert(changes@[idx - 1] == cs[idx - 1]);
        }
    }
}

/// Where the edit lies wholly inside change `idx`: the change grows or
/// shrinks by the edit, and the changes after it move.
fn fold_inside(
    changes: &mut Vec<RopePendingChange>,
    idx: usize,
    rs: usize,
    re: usize,
    rl: usize,
    attribute_change: bool,
    Ghost(one): Ghost<int>,
    Ghost(ooe): Ghost<int>,
    Ghost(e0): Ghost<int>,
    Ghost(n0): Ghost<int>,
    Ghost(target): Ghost<int>,
)
    requires
        walk_ok(old(changes)@, idx as int, rs as int, re as int, rl as int, one, ooe, e0, n0, target),
        idx < old(changes)@.len(),
        old(changes)@[idx as int].new_range.start <= rs,
        re <= old(changes)@[idx as int].new_range.end,
    ensures
        walk_done(final(changes)@, one, ooe, e0, n0, target),
        final(changes)@ == step_inside(old(changes)@, idx as int, rs as int, re as int, rl as int, attribute_change),
{
    let ghost cs = changes@;
    let _len = changes.len();
    let cs_start = changes[idx].new_range.start;
    let ce = changes[idx].new_range.end;
    let c_os = changes[idx].original_range.start;
    let c_oe = changes[idx].original_range.end;
    let c_flag = changes[idx].changed_attributes;
    proof {
        lemma_change_at(cs, idx as int);
    }
    let new_end = ce - (re - rs) + rl;
    let c = make_change(c_os, c_oe, cs_start, new_end, c_flag || attribute_change);
    proof {
        let delta = rl - (re - rs);
        assert forall|i: int| idx < i < cs.len() implies #[trigger] cs[i].new_range.start + delta
            >= 0 && cs[i].new_range.end + delta <= usize::MAX by {
            assert(cs[i].new_range.end <= one);
            lemma_ends_le(cs, idx as int, i - 1);
            lemma_change_at(cs, i - 1);
        }
        lemma_resize_ok(cs, idx as int, c, delta);
    }
    changes.set(idx, c);
    let ghost cs1 = changes@;
    proof {
        assert forall|i: int| idx + 1 <= i < cs1.len() implies #[trigger] change_ok(cs1[i])
            && cs1[i].new_range.end + (rl - (re - rs)) <= usize::MAX && cs1[i].new_range.start
            + (rl - (re - rs)) >= 0 by {
            lemma_change_at(cs, i);
            lemma_ends_le(cs, idx as int, i - 1);
            lemma_change_at(cs, i - 1);
        }
    }
    if rl >= re - rs {
        shift_new_ranges(changes, idx + 1, rl - (re - rs), true);
    } else {
        shift_new_ranges(changes, idx + 1, (re - rs) - rl, false);
    }
    proof {
        let delta = rl - (re - rs);
        assert(changes@ =~= shift_seq(cs1, idx + 1, delta));
        if changes@.len() > 0 {
            let last = changes@.len() - 1;
            if last > idx {
                assert(cs[last].new_range.end <= one);
            }
            assert(changes@[last].original_range.end == cs[last].original_range.end);
        }
    }
}

/// Where the edit starts in change `idx`, runs past its end, and leaves
/// fewer new cells than the change holds after the edit's start: the change
/// shrinks by the reduction, as far as its length allows. Returns whether
/// the whole reduction fitted, and the new end of the edit.
fn fold_shrink(
    changes: &mut Vec<RopePendingChange>,
    idx: usize,
    rs: usize,
    re: usize,
    rl: usize,
    attribute_change: bool,
    Ghost(one): Ghost<int>,
    Ghost(ooe): Ghost<int>,
    Ghost(e0): Ghost<int>,
    Ghost(n0): Ghost<int>,
    Ghost(target): Ghost<int>,
) -> (r: (bool, usize))
    requires
        walk_ok(old(changes)@, idx as int, rs as int, re as int, rl as int, one, ooe, e0, n0, target),
        idx < old(changes)@.len(),
        old(changes)@[idx as int].new_range.start <= rs,
        re > old(changes)@[idx as int].new_range.end,
        rs + rl < old(changes)@[idx as int].new_range.end,
    ensures
        r.0 ==> walk_done(final(changes)@, one, ooe, e0, n0, target),
        !r.0 ==> walk_ok(final(changes)@, idx + 1, rs as int, r.1 as int, rl as int, one, ooe, e0, n0, target),
        final(changes)@.len() == old(changes)@.len(),
        final(changes)@ == step_shrink(old(changes)@, idx as int, rs as int, re as int, rl as int, attribute_change),
        r.0 == (shrink_amount(old(changes)@, idx as int, rs as int, re as int, rl as int) == (re - rs) - rl),
        r.1 == re - shrink_amount(old(changes)@, idx as int, rs as int, re as int, rl as int),
{
    let ghost cs = changes@;
    let _len = changes.len();
    let cs_start = changes[idx].new_range.start;
    let ce = changes[idx].new_range.end;
    let c_os = changes[idx].original_range.start;
    let c_oe = changes[idx].original_range.end;
    let c_flag = changes[idx].changed_attributes;
    proof {
        lemma_change_at(cs, idx as int);
    }
    let length_diff = (re - rs) - rl;
    let length_change = if ce - cs_start < length_diff {
        ce - cs_start
    } else {
        length_diff
    };
    let c = make_change(c_os, c_oe, cs_start, ce - length_change, c_flag || attribute_change);
    proof {
        let delta = -(length_change as int);
        assert forall|i: int| idx < i < cs.len() implies #[trigger] cs[i].new_range.start + delta
            >= 0 && cs[i].new_range.end + delta <= usize::MAX by {
            lemma_ends_le(cs, idx as int, i - 1);
            lemma_change_at(cs, i - 1);
        }
        lemma_resize_ok(cs, idx as int, c, delta);
    }
    changes.set(idx, c);
    let ghost cs1 = changes@;
    proof {
        assert forall|i: int| idx + 1 <= i < cs1.len() implies #[trigger] change_ok(cs1[i])
            && cs1[i].new_range.start >= length_change by {
            lemma_change_at(cs, i);
            lemma_ends_le(cs, idx as int, i - 1);
            lemma_change_at(cs, i - 1);
        }
    }
    shift_new_ranges(changes, idx + 1, length_change, false);
    proof {
        assert(changes@ =~= shift_seq(cs1, idx + 1, -(length_change as int)));
        assert forall|i: int| idx + 1 <= i < changes@.len() implies #[trigger] changes@[i].new_range.end
            <= one by {
            assert(cs[i].new_range.end <= one);
        }
        assert forall|i: int| 0 <= i < changes@.len() implies #[trigger] changes@[i].original_range.end
            <= ooe by {
            assert(changes@[i].original_range.end == cs[i].original_range.end);
        }
        if changes@.len() > 0 {
            let last = changes@.len() - 1;
            assert(changes@[last].original_range.end == cs[last].original_range.end);
            if last >= idx {
                assert(cs[last].new_range.end <= one);
            }
        }
    }
    (length_change == length_diff, re - length_change)
}

/// Where the rest of the edit lies in the gap before change `idx` (or past
/// the last change): a new change records it, and the changes after it move.
fn fill_gap_end(
    changes: &mut Vec<RopePendingChange>,
    idx: usize,
    rs: usize,
    re: usize,
    rl: usize,
    attribute_change: bool,
    Ghost(one): Ghost<int>,
    Ghost(ooe): Ghost<int>,
    Ghost(e0): Ghost<int>,
    Ghost(n0): Ghost<int>,
    Ghost(target): Ghost<int>,
)
    requires
        walk_ok(old(changes)@, idx as int, rs as int, re as int, rl as int, one, ooe, e0, n0, target),
        idx < old(changes)@.len() ==> old(changes)@[idx as int].new_range.start >= re
            && old(changes)@[idx as int].new_range.start > rs,
    ensures
        walk_done(final(changes)@, one, ooe, e0, n0, target),
        final(changes)@ == step_gap_end(old(changes)@, idx as int, rs as int, re as int, rl as int, attribute_change),
{
    let ghost cs = changes@;
    let _len = changes.len();
    let os = if idx == 0 {
        rs
    } else {
        rs - changes[idx - 1].new_range.end + changes[idx - 1].original_range.end
    };
    proof {
        if idx > 0 {
            assert(cs[idx - 1].original_range.end <= ooe);
        }
    }
    let c = make_change(os, os + (re - rs), rs, rs + rl, attribute_change);
    if idx >= changes.len() {
        proof {
            if idx > 0 {
                lemma_change_at(cs, idx - 1);
            }
            lemma_insert_ok(cs, idx as int, c, 0);
            assert(cs.insert(idx as int, c) =~= cs.push(c));
            assert(shift_seq(cs.push(c), idx + 1, 0) =~= cs.push(c));
        }
        changes.push(c);
    } else {
        proof {
            let delta = rl - (re - rs);
            assert forall|i: int| idx <= i < cs.len() implies #[trigger] cs[i].new_range.start + delta
                >= 0 && cs[i].new_range.end + delta <= usize::MAX by {
                lemma_ends_le(cs, idx as int, i);
                lemma_change_at(cs, i);
                lemma_change_at(cs, idx as int);
                if i > idx {
                    lemma_ends_le(cs, idx as int, i - 1);
                    lemma_change_at(cs, i - 1);
                }
            }
            if idx > 0 {
                lemma_change_at(cs, idx - 1);
            }
            lemma_change_at(cs, idx as int);
            lemma_insert_ok(cs, idx as int, c, delta);
        }
        changes.insert(idx, c);
        let ghost cs1 = changes@;
        proof {
            assert forall|i: int| idx + 1 <= i < cs1.len() implies #[trigger] change_ok(cs1[i])
                && cs1[i].new_range.end + (rl - (re - rs)) <= usize::MAX && cs1[i].new_range.start
                + (rl - (re - rs)) >= 0 by {
                assert(cs1[i] == cs[i - 1]);
                lemma_change_at(cs, i - 1);
                lemma_ends_le(cs, idx as int, i - 1);
                lemma_change_at(cs, idx as int);
            }
        }
        if rl >= re - rs {
            shift_new_ranges(changes, idx + 1, rl - (re - rs), true);
        } else {
            shift_new_ranges(changes, idx + 1, (re - rs) - rl, false);
        }
        proof {
            let delta = rl - (re - rs);
            assert(changes@ =~= shift_seq(cs1, idx + 1, delta));
            let last = changes@.len() - 1;
            if last > idx {
                assert(cs[last - 1].new_range.end <= one);
                assert(changes@[last].original_range.end == cs[last - 1].original_range.end);
            }
        }
    }
}

/// Where the edit runs from the gap before change `idx` into that change:
/// a new change records the gap, with as many of the new cells as the gap
/// held (or all that are left, where fewer are). Returns what remains of
/// the edit.
#[verifier::rlimit(100)]
fn fill_gap_part(
    changes: &mut Vec<RopePendingChange>,
    idx: usize,
    rs: usize,
    re: usize,
    rl: usize,
    attribute_change: bool,
    Ghost(one): Ghost<int>,
    Ghost(ooe): Ghost<int>,
    Ghost(e0): Ghost<int>,
    Ghost(n0): Ghost<int>,
    Ghost(target): Ghost<int>,
) -> (r: (usize, usize, usize))
    requires
        walk_ok(old(changes)@, idx as int, rs as int, re as int, rl as int, one, ooe, e0, n0, target),
        idx < old(changes)@.len(),
        rs < old(changes)@[idx as int].new_range.start < re,
    ensures
        walk_ok(final(changes)@, idx + 1, r.0 as int, r.1 as int, r.2 as int, one, ooe, e0, n0, target),
        final(changes)@.len() == old(changes)@.len() + 1,
        final(changes)@[idx + 1].new_range.start == r.0,
        final(changes)@ == step_gap_part(old(changes)@, idx as int, rs as int, re as int, rl as int, attribute_change).0,
        r.0 == step_gap_part(old(changes)@, idx as int, rs as int, re as int, rl as int, attribute_change).1,
        r.1 == step_gap_part(old(changes)@, idx as int, rs as int, re as int, rl as int, attribute_change).2,
        r.2 == step_gap_part(old(changes)@, idx as int, rs as int, re as int, rl as int, attribute_change).3,
{
    let ghost cs = changes@;
    let _len = changes.len();
    let next_start = changes[idx].new_range.start;
    let os = if idx == 0 {
        rs
    } else {
        rs - changes[idx - 1].new_range.end + changes[idx - 1].original_range.end
    };
    proof {
        if idx > 0 {
            assert(cs[idx - 1].original_range.end <= ooe);
            lemma_change_at(cs, idx - 1);
        }
        lemma_change_at(cs, idx as int);
    }
    let gap = next_start - rs;
    if gap <= rl {
        let c = make_change(os, os + gap, rs, rs + gap, attribute_change);
        proof {
            assert forall|i: int| idx <= i < cs.len() implies #[trigger] cs[i].new_range.start + 0
                >= 0 && cs[i].new_range.end + 0 <= usize::MAX by {}
            lemma_insert_ok(cs, idx as int, c, 0);
            assert(shift_seq(cs.insert(idx as int, c), idx + 1, 0) =~= cs.insert(idx as int, c));
        }
        changes.insert(idx, c);
        proof {
            assert forall|i: int| idx + 1 <= i < changes@.len() implies #[trigger] changes@[i].new_range.end
                <= one by {
                assert(changes@[i] == cs[i - 1]);
            }
            assert forall|i: int| 0 <= i < changes@.len() implies #[trigger] changes@[i].original_range.end
                <= ooe by {
                if i < idx {
                    assert(changes@[i] == cs[i]);
                } else if i > idx {
                    assert(changes@[i] == cs[i - 1]);
                }
            }
        }
        (rs + gap, re, rl - gap)
    } else {
        let c = make_change(os, os + gap, rs, rs + rl, attribute_change);
        proof {
            let delta = -((gap - rl) as int);
            assert forall|i: int| idx <= i < cs.len() implies #[trigger] cs[i].new_range.start + delta
                >= 0 && cs[i].new_range.end + delta <= usize::MAX by {
                lemma_ends_le(cs, idx as int, i);
                lemma_change_at(cs, i);
                if i > idx {
                    lemma_ends_le(cs, idx as int, i - 1);
                    lemma_change_at(cs, i - 1);
                }
            }
            lemma_insert_ok(cs, idx as int, c, delta);
        }
        changes.insert(idx, c);
        let ghost cs1 = changes@;
        proof {
            assert forall|i: int| idx + 1 <= i < cs1.len() implies #[trigger] change_ok(cs1[i])
                && cs1[i].new_range.start >= gap - rl by {
                assert(cs1[i] == cs[i - 1]);
                lemma_change_at(cs, i - 1);
                if i - 1 > idx {
                    lemma_ends_le(cs, idx as int, i - 2);
                    lemma_change_at(cs, i - 2);
                }
            }
        }
        shift_new_ranges(changes, idx + 1, gap - rl, false);
        proof {
            assert(changes@ =~= shift_seq(cs1, idx + 1, -((gap - rl) as int)));
            assert forall|i: int| idx + 1 <= i < changes@.len() implies #[trigger] changes@[i].new_range.end
                <= one by {
                assert(cs[i - 1].new_range.end <= one);
            }
            assert forall|i: int| 0 <= i < changes@.len() implies #[trigger] changes@[i].original_range.end
                <= ooe by {
                if i < idx {
                    assert(changes@[i] == cs[i]);
                } else if i > idx {
                    assert(changes@[i].original_range.end == cs[i - 1].original_range.end);
                }
            }
        }
        (rs + rl, re - (gap - rl), 0)
    }
}

/// Records that the cells `original_range` of the current sequence were
/// replaced by `new_length` cells. The part of the edit that overlaps a
/// pending change is folded into it; the parts in the gaps between changes
/// become changes of their own. Where the edit removes more cells than a
/// change it overlaps holds, the rest of the removal carries on into what
/// follows.
pub(crate) fn record_change(
    changes: &mut Vec<RopePendingChange>,
    original_range: Range<usize>,
    new_length: usize,
    attribute_change: bool,
)
    requires
        changes_ok(old(changes)@),
        original_range.start <= original_range.end,
        extent(old(changes)@) + 2 * original_range.end + new_length <= usize::MAX,
    ensures
        changes_ok(final(changes)@),
        net_growth(final(changes)@) == net_growth(old(changes)@) + new_length - (original_range.end
            - original_range.start),
        extent(final(changes)@) <= extent(old(changes)@) + 2 * original_range.end + new_length,
        old(changes)@.len() == 0 ==> final(changes)@ == seq![
            change_of(
                original_range.start as int,
                original_range.end as int,
                original_range.start as int,
                original_range.start + new_length,
                attribute_change,
            ),
        ],
        final(changes)@ == marked(
            old(changes)@,
            original_range.start as int,
            original_range.end as int,
            new_length as int,
            attribute_change,
        ),
{
    if changes.len() == 0 {
        let s = original_range.start;
        let c = make_change(s, original_range.end, s, s + new_length, attribute_change);
        changes.push(c);
        proof {
            assert(changes@ =~= seq![c]);
            reveal(changes_ok);
            lemma_growth_single(c);
            let e = Seq::<RopePendingChange>::empty();
            assert(seq![c].drop_last() =~= e);
            assert(first_ending_after(e, s as int, 0) == 0);
            assert(marked(e, s as int, original_range.end as int, new_length as int, attribute_change) == step_gap_end(
                e,
                0,
                s as int,
                original_range.end as int,
                new_length as int,
                attribute_change,
            ));
        }
        return;
    }
    let ghost cs0 = changes@;
    let ghost one: int = if cs0.len() == 0 { 0 } else { cs0.last().new_range.end as int };
    let ghost ooe: int = if cs0.len() == 0 { 0 } else { cs0.last().original_range.end as int };
    let ghost e0 = original_range.end as int;
    let ghost n0 = new_length as int;
    let ghost target = net_growth(cs0) + new_length - (original_range.end - original_range.start);
    proof {
        assert forall|i: int| 0 <= i < cs0.len() implies #[trigger] cs0[i].new_range.end <= one by {
            lemma_ends_le(cs0, i, cs0.len() - 1);
        }
        assert forall|i: int| 0 <= i < cs0.len() implies #[trigger] cs0[i].original_range.end <= ooe by {
            lemma_ends_le(cs0, i, cs0.len() - 1);
        }
    }
    let mut idx = find_change(changes, original_range.start);
    let mut rs = original_range.start;
    let mut re = original_range.end;
    let mut rl = new_length;
    let ghost goal = marked(cs0, original_range.start as int, e0, n0, attribute_change);
    let ghost mut fuel: nat = (2 * cs0.len() + 2) as nat;
    loop
        invariant_except_break
            walk_ok(changes@, idx as int, rs as int, re as int, rl as int, one, ooe, e0, n0, target),
            fold_from(changes@, idx as int, rs as int, re as int, rl as int, attribute_change, fuel) == goal,
            fuel > walk_measure(changes@, idx as int, rs as int),
        ensures
            walk_done(changes@, one, ooe, e0, n0, target),
            changes@ == goal,
        decreases walk_measure(changes@, idx as int, rs as int),
    {
        if idx >= changes.len() {
            fill_gap_end(changes, idx, rs, re, rl, attribute_change, Ghost(one), Ghost(ooe), Ghost(e0), Ghost(n0), Ghost(target));
            break;
        }
        let cs_start = changes[idx].new_range.start;
        let ce = changes[idx].new_range.end;
        proof {
            lemma_change_at(changes@, idx as int);
        }
        let ghost cs = changes@;
        if cs_start <= rs && ce < rs {
            idx = idx + 1;
            proof {
                fuel = (fuel - 1) as nat;
            }
        } else if cs_start <= rs {
            if re <= ce {
                fold_inside(changes, idx, rs, re, rl, attribute_change, Ghost(one), Ghost(ooe), Ghost(e0), Ghost(n0), Ghost(target));
                break;
            } else if rs + rl < ce {
                let (done, new_re) = fold_shrink(changes, idx, rs, re, rl, attribute_change, Ghost(one), Ghost(ooe), Ghost(e0), Ghost(n0), Ghost(target));
                if done {
                    break;
                }
                re = new_re;
                idx = idx + 1;
                proof {
                    fuel = (fuel - 1) as nat;
                }
            } else {
                fold_flag(changes, idx, rs, re, rl, attribute_change, Ghost(one), Ghost(ooe), Ghost(e0), Ghost(n0), Ghost(target));
                let used = ce - rs;
                rs = ce;
                rl = rl - used;
                idx = idx + 1;
                proof {
                    fuel = (fuel - 1) as nat;
                }
            }
        } else if cs_start >= re {
            fill_gap_end(changes, idx, rs, re, rl, attribute_change, Ghost(one), Ghost(ooe), Ghost(e0), Ghost(n0), Ghost(target));
            break;
        } else {
            let (a, b, c) = fill_gap_part(changes, idx, rs, re, rl, attribute_change, Ghost(one), Ghost(ooe), Ghost(e0), Ghost(n0), Ghost(target));
            rs = a;
            re = b;
            rl = c;
            idx = idx + 1;
            proof {
                fuel = (fuel - 1) as nat;
            }
        }
    }
    proof {
        if changes@.len() > 0 {
            assert(cs0.len() > 0 ==> extent(cs0) == one + ooe);
        }
    }
}


/// Pending changes that are in order stay apart in both coordinates: every
/// change ends, now and as it was at the last pull, before the next starts.
pub proof fn lemma_changes_apart(cs: Seq<RopePendingChange>, i: int, j: int)
    requires
        changes_ok(cs),
        0 <= i < j < cs.len(),
    ensures
        cs[i].new_range.end <= cs[j].new_range.start,
        cs[i].original_range.end <= cs[j].original_range.start,
        cs[i].new_range.start <= cs[i].new_range.end,
        cs[i].original_range.start <= cs[i].original_range.end,
{
    lemma_change_at(cs, i);
    lemma_change_at(cs, j - 1);
    lemma_change_at(cs, j);
    if i < j - 1 {
        lemma_ends_le(cs, i, j - 1);
    }
}

/// Change `i` of `cs` is still in `cs2`, with the same original range, and
/// still marked as changing attributes if it was.
pub open spec fn kept_at(cs: Seq<RopePendingChange>, cs2: Seq<RopePendingChange>, i: int) -> bool {
    exists|j: int|
        #![trigger cs2[j]]
        0 <= j < cs2.len() && cs2[j].original_range == cs[i].original_range && (cs[i].changed_attributes
            ==> cs2[j].changed_attributes)
}

/// Every change of `cs` is kept in `cs2`.
pub open spec fn kept(cs: Seq<RopePendingChange>, cs2: Seq<RopePendingChange>) -> bool {
    forall|i: int| 0 <= i < cs.len() ==> #[trigger] kept_at(cs, cs2, i)
}

proof fn lemma_kept_trans(a: Seq<RopePendingChange>, b: Seq<RopePendingChange>, c: Seq<RopePendingChange>)
    requires
        kept(a, b),
        kept(b, c),
    ensures
        kept(a, c),
{
    assert forall|i: int| 0 <= i < a.len() implies #[trigger] kept_at(a, c, i) by {
        assert(kept_at(a, b, i));
        let jb = choose|j: int|
            #![trigger b[j]]
            0 <= j < b.len() && b[j].original_range == a[i].original_range && (a[i].changed_attributes
                ==> b[j].changed_attributes);
        assert(kept_at(b, c, jb));
        let jc = choose|j: int|
            #![trigger c[j]]
            0 <= j < c.len() && c[j].original_range == b[jb].original_range && (b[jb].changed_attributes
                ==> c[j].changed_attributes);
        assert(c[jc].original_range == a[i].original_range);
    }
}

proof fn lemma_kept_same(cs: Seq<RopePendingChange>, cs2: Seq<RopePendingChange>)
    requires
        cs.len() <= cs2.len(),
        forall|i: int|
            0 <= i < cs.len() ==> #[trigger] cs2[i].original_range == cs[i].original_range && (
            cs[i].changed_attributes ==> cs2[i].changed_attributes),
    ensures
        kept(cs, cs2),
{
    assert forall|i: int| 0 <= i < cs.len() implies #[trigger] kept_at(cs, cs2, i) by {
        assert(cs2[i].original_range == cs[i].original_range);
    }
}

proof fn lemma_kept_insert(cs: Seq<RopePendingChange>, idx: int, c: RopePendingChange)
    requires
        0 <= idx <= cs.len(),
    ensures
        kept(cs, cs.insert(idx, c)),
{
    let cs2 = cs.insert(idx, c);
    assert forall|i: int| 0 <= i < cs.len() implies #[trigger] kept_at(cs, cs2, i) by {
        if i < idx {
            assert(cs2[i] == cs[i]);
        } else {
            assert(cs2[i + 1] == cs[i]);
        }
    }
}

proof fn lemma_kept_fold(cs: Seq<RopePendingChange>, idx: int, rs: int, re: int, rl: int, flag: bool, fuel: nat)
    requires
        0 <= idx,
    ensures
        kept(cs, fold_from(cs, idx, rs, re, rl, flag, fuel)),
    decreases fuel,
{
    let r = fold_from(cs, idx, rs, re, rl, flag, fuel);
    if fuel == 0 {
        lemma_kept_same(cs, r);
        return;
    }
    let os = original_at(cs, idx, rs);
    if idx >= cs.len() {
        let c = change_of(os, os + (re - rs), rs, rs + rl, flag);
        lemma_kept_same(cs, cs.push(c));
        return;
    }
    let ch = cs[idx];
    let cs_start = ch.new_range.start as int;
    let ce = ch.new_range.end as int;
    if cs_start <= rs && ce < rs {
        lemma_kept_fold(cs, idx + 1, rs, re, rl, flag, (fuel - 1) as nat);
    } else if cs_start <= rs {
        if re <= ce {
            lemma_kept_same(cs, r);
        } else if rs + rl < ce {
            let lc = shrink_amount(cs, idx, rs, re, rl);
            let cs2 = step_shrink(cs, idx, rs, re, rl, flag);
            lemma_kept_same(cs, cs2);
            if lc != (re - rs) - rl {
                lemma_kept_fold(cs2, idx + 1, rs, re - lc, rl, flag, (fuel - 1) as nat);
                lemma_kept_trans(cs, cs2, r);
            }
        } else {
            let cs2 = with_flag(cs, idx, flag);
            lemma_kept_same(cs, cs2);
            lemma_kept_fold(cs2, idx + 1, ce, re, rl - (ce - rs), flag, (fuel - 1) as nat);
            lemma_kept_trans(cs, cs2, r);
        }
    } else if cs_start >= re {
        let c = change_of(os, os + (re - rs), rs, rs + rl, flag);
        let cs1 = cs.insert(idx, c);
        lemma_kept_insert(cs, idx, c);
        lemma_kept_same(cs1, r);
        lemma_kept_trans(cs, cs1, r);
    } else {
        let gap = cs_start - rs;
        let (cs2, rs2, re2, rl2) = step_gap_part(cs, idx, rs, re, rl, flag);
        let c = if gap <= rl {
            change_of(os, os + gap, rs, rs + gap, flag)
        } else {
            change_of(os, os + gap, rs, rs + rl, flag)
        };
        let cs1 = cs.insert(idx, c);
        lemma_kept_insert(cs, idx, c);
        lemma_kept_same(cs1, cs2);
        lemma_kept_trans(cs, cs1, cs2);
        lemma_kept_fold(cs2, idx + 1, rs2, re2, rl2, flag, (fuel - 1) as nat);
        lemma_kept_trans(cs, cs2, r);
    }
}

proof fn lemma_first_nonneg(cs: Seq<RopePendingChange>, pos: int, i: int)
    requires
        0 <= i,
    ensures
        0 <= first_ending_after(cs, pos, i),
    decreases cs.len() - i,
{
    if i < cs.len() && cs[i].new_range.end <= pos {
        lemma_first_nonneg(cs, pos, i + 1);
    }
}

/// A later edit keeps every pending change, with its original range, and
/// never clears the mark that a change altered attributes.
pub proof fn lemma_marks_kept(cs: Seq<RopePendingChange>, s: int, e: int, n: int, flag: bool)
    ensures
        kept(cs, marked(cs, s, e, n, flag)),
{
    lemma_first_nonneg(cs, s, 0);
    lemma_kept_fold(cs, first_ending_after(cs, s, 0), s, e, n, flag, (2 * cs.len() + 2) as nat);
}

} // verus!
