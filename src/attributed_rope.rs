use vstd::prelude::*;

use crate::leaf_seq::{flat_attrs, flat_cells, leaf_start, lemma_flat_split, lemma_leaf_start_end, lemma_flat_index, lemma_flat_single, lemma_leaf_start_mono, lemma_flat_lens, lemma_flat_splice, lemma_flat_remove_empty, lemma_flat_divide, edit_leaf, lemma_edit_leaf_unique, run_end, lemma_run_end_at, with_attr, lemma_flat_set_attr, set_attr_leaves, attr_pieces, lemma_set_attr_step, lemma_set_attr_untouched, lemma_set_attr_rest, lemma_set_attr_finish, trim_front, replaced_leaves, divided};
use crate::node::{RopeBranch, RopeNode, RopeNodeIndex};
use crate::rope_action::RopeAction;

use std::ops::Range;

verus! {

/// A rope of cells with attributes, held in an arena of nodes.
///
/// Leaves hold runs of cells that share one attribute; branches record how
/// many cells lie below them. Nodes refer to one another by their index in
/// the arena, and freed slots are reused.
///
/// The operations that compare attributes (`set_attributes`,
/// `replace_attributes`, `read_attributes`, `edit`) require that `==` on the
/// attribute type is equality (`obeys_concrete_eq`). vstd proves this for
/// the integer types and `bool`; for `()` and for types of the caller's own
/// it has to be established by the caller, so verified code cannot yet call
/// these on a rope whose attribute is `()`.
pub struct AttributedRope<Cell, Attribute> {
    /// The slots of the arena.
    pub(crate) nodes: Vec<RopeNode<Cell, Attribute>>,
    /// The index of the root node.
    pub(crate) root_node_idx: RopeNodeIndex,
    /// The slots that hold no node.
    pub(crate) free_nodes: Vec<usize>,
    /// The slots of the leaves, in the order in which their cells are read.
    pub(crate) order: Ghost<Seq<int>>,
    /// For each slot in the tree, the first position in `order` below it.
    pub(crate) lo: Ghost<spec_fn(int) -> int>,
    /// For each slot in the tree, the position in `order` just past it.
    pub(crate) hi: Ghost<spec_fn(int) -> int>,
}

impl<Cell, Attribute> AttributedRope<Cell, Attribute> {
    pub(crate) open spec fn node(&self, i: int) -> RopeNode<Cell, Attribute> {
        self.nodes@[i]
    }

    pub(crate) open spec fn lo_of(&self, i: int) -> int {
        (self.lo@)(i)
    }

    pub(crate) open spec fn hi_of(&self, i: int) -> int {
        (self.hi@)(i)
    }

    pub(crate) open spec fn slot_ok(&self, i: int) -> bool {
        0 <= i < self.nodes@.len()
    }

    /// Slot `i` holds a node of the tree.
    pub(crate) open spec fn live(&self, i: int) -> bool {
        self.slot_ok(i) && !(self.node(i) is Empty)
    }

    pub(crate) open spec fn root(&self) -> int {
        self.root_node_idx.0 as int
    }

    /// What a leaf slot holds: its cells and its attribute.
    pub(crate) open spec fn leaf_data(&self, i: int) -> (Seq<Cell>, Attribute) {
        match self.node(i) {
            RopeNode::Leaf(_, cells, attr) => (cells@, attr),
            _ => (Seq::empty(), arbitrary()),
        }
    }

    /// The leaves of the rope, in order: the model of the rope.
    pub closed spec fn leaves(&self) -> Seq<(Seq<Cell>, Attribute)> {
        Seq::new(self.order@.len(), |k: int| self.leaf_data(self.order@[k]))
    }

    /// The cells of the rope, in order.
    pub open spec fn cells(&self) -> Seq<Cell> {
        flat_cells(self.leaves())
    }

    /// The attribute of each cell of the rope.
    pub open spec fn attrs(&self) -> Seq<Attribute> {
        flat_attrs(self.leaves())
    }

    #[verifier::opaque]
    pub(crate) open spec fn wf_root(&self) -> bool {
        &&& self.live(self.root())
        &&& self.node(self.root()).parent_of() is None
        &&& self.lo_of(self.root()) == 0
        &&& self.hi_of(self.root()) == self.order@.len()
    }

    #[verifier::opaque]
    pub(crate) open spec fn wf_spans(&self) -> bool {
        forall|i: int|
            #![trigger self.lo_of(i)]
            #![trigger self.hi_of(i)]
            self.live(i) ==> 0 <= self.lo_of(i) < self.hi_of(i) <= self.order@.len()
    }

    #[verifier::opaque]
    pub(crate) open spec fn wf_leaf_slots(&self) -> bool {
        forall|i: int|
            #![trigger self.node(i)]
            self.live(i) && self.node(i) is Leaf ==> self.hi_of(i) == self.lo_of(i) + 1
                && self.order@[self.lo_of(i)] == i
    }

    #[verifier::opaque]
    pub(crate) open spec fn wf_order(&self) -> bool {
        forall|k: int|
            #![trigger self.order@[k]]
            0 <= k < self.order@.len() ==> self.slot_ok(self.order@[k]) && self.node(
                self.order@[k],
            ) is Leaf && self.lo_of(self.order@[k]) == k
    }

    pub(crate) open spec fn wf_branch_at(&self, i: int) -> bool {
        match self.node(i) {
            RopeNode::Branch(b) => {
                let l = b.left.0 as int;
                let r = b.right.0 as int;
                &&& self.live(l)
                &&& self.live(r)
                &&& self.node(l).parent_of() == Some(RopeNodeIndex(i as usize))
                &&& self.node(r).parent_of() == Some(RopeNodeIndex(i as usize))
                &&& self.lo_of(l) == self.lo_of(i)
                &&& self.hi_of(l) == self.lo_of(r)
                &&& self.hi_of(r) == self.hi_of(i)
            },
            _ => true,
        }
    }

    #[verifier::opaque]
    pub(crate) open spec fn wf_branches(&self) -> bool {
        forall|i: int| #![trigger self.node(i)] self.live(i) ==> self.wf_branch_at(i)
    }

    /// A branch records the number of cells of its two children.
    pub(crate) open spec fn length_ok_at(&self, i: int) -> bool {
        match self.node(i) {
            RopeNode::Branch(b) => b.length == self.node(b.left.0 as int).spec_len() + self.node(
                b.right.0 as int,
            ).spec_len(),
            _ => true,
        }
    }

    #[verifier::opaque]
    pub(crate) open spec fn wf_lengths(&self) -> bool {
        forall|i: int| #![trigger self.node(i)] self.live(i) ==> self.length_ok_at(i)
    }

    pub(crate) open spec fn parent_ok_at(&self, i: int) -> bool {
        i != self.root() ==> match self.node(i).parent_of() {
            Some(p) => self.slot_ok(p.0 as int) && match self.node(p.0 as int) {
                RopeNode::Branch(b) => b.left.0 == i || b.right.0 == i,
                _ => false,
            },
            None => false,
        }
    }

    #[verifier::opaque]
    pub(crate) open spec fn wf_parents(&self) -> bool {
        forall|i: int| #![trigger self.node(i)] self.live(i) ==> self.parent_ok_at(i)
    }

    #[verifier::opaque]
    pub(crate) open spec fn wf_free(&self) -> bool {
        &&& forall|j: int|
            #![trigger self.free_nodes@[j]]
            0 <= j < self.free_nodes@.len() ==> self.slot_ok(self.free_nodes@[j] as int)
                && self.node(self.free_nodes@[j] as int) is Empty
        &&& forall|i: int|
            #![trigger self.node(i)]
            self.slot_ok(i) && self.node(i) is Empty ==> self.free_nodes@.contains(i as usize)
        &&& self.free_nodes@.no_duplicates()
    }

    /// The arena holds a well-formed tree.
    #[verifier::opaque]
    pub closed spec fn wf(&self) -> bool {
        &&& self.wf_root()
        &&& self.wf_spans()
        &&& self.wf_leaf_slots()
        &&& self.wf_order()
        &&& self.wf_branches()
        &&& self.wf_lengths()
        &&& self.wf_parents()
        &&& self.wf_free()
    }

    /// The number of cells under slot `i`, read from the leaves.
    pub(crate) open spec fn span_len(&self, i: int) -> int {
        leaf_start(self.leaves(), self.hi_of(i)) - leaf_start(self.leaves(), self.lo_of(i))
    }

    /// The length recorded in a node is the number of cells of the leaves below it.
    pub(crate) proof fn lemma_span_len(&self, i: int)
        requires
            self.wf(),
            self.live(i),
        ensures
            self.node(i).spec_len() == self.span_len(i),
        decreases self.hi_of(i) - self.lo_of(i),
    {
        reveal(AttributedRope::wf);
        reveal(AttributedRope::wf_spans);
        reveal(AttributedRope::wf_leaf_slots);
        reveal(AttributedRope::wf_branches);
        reveal(AttributedRope::wf_lengths);
        let ls = self.leaves();
        match self.node(i) {
            RopeNode::Leaf(_, cells, _) => {
                let k = self.lo_of(i);
                lemma_flat_split(ls, k);
            },
            RopeNode::Branch(b) => {
                assert(self.wf_branch_at(i));
                assert(self.length_ok_at(i));
                let l = b.left.0 as int;
                let r = b.right.0 as int;
                self.lemma_span_len(l);
                self.lemma_span_len(r);
            },
            RopeNode::Empty => {},
        }
    }

    /// The length of the root is the length of the rope.
    pub(crate) proof fn lemma_root_len(&self)
        requires
            self.wf(),
        ensures
            self.node(self.root()).spec_len() == self.cells().len(),
    {
        reveal(AttributedRope::wf);
        reveal(AttributedRope::wf_root);
        self.lemma_span_len(self.root());
        lemma_leaf_start_end(self.leaves());
        assert(self.leaves().take(0) =~= Seq::<(Seq<Cell>, Attribute)>::empty());
    }
}


/// What an editing action does to a rope: `after` is `before` with the
/// action performed.
pub open spec fn edit_done_spec<Cell, Attribute>(
    before: AttributedRope<Cell, Attribute>,
    after: AttributedRope<Cell, Attribute>,
    action: RopeAction<Cell, Attribute>,
) -> bool {
    let (s, e) = clamp_range(action.range_of(), before.cells().len());
    let ls = before.leaves();
    match action {
        RopeAction::Replace(_, c) => {
            &&& after.cells() == before.cells().take(s) + c@ + before.cells().skip(e)
            &&& after.attrs() == before.attrs().take(s) + Seq::new(c@.len(), |_i: int| ls[edit_leaf(ls, s)].1)
                + before.attrs().skip(e)
            &&& after.leaves() == replace_leaves(ls, s, e, c@)
        },
        RopeAction::SetAttributes(_, a) => {
            &&& after.cells() == before.cells()
            &&& after.attrs() == with_attr(before.attrs(), s, e, a)
            &&& after.leaves() == set_attr_leaves(ls, s, e, a)
        },
        RopeAction::ReplaceAttributes(_, c, a) => {
            &&& after.cells() == before.cells().take(s) + c@ + before.cells().skip(e)
            &&& after.attrs() == before.attrs().take(s) + Seq::new(c@.len(), |_i: int| a) + before.attrs().skip(e)
            &&& after.leaves() == replace_attr_leaves(ls, s, e, c@, a)
        },
    }
}

impl<Cell, Attribute> AttributedRope<Cell, Attribute> {
    /// `after` is this rope with `action` performed.
    pub open spec fn edit_done(&self, after: Self, action: RopeAction<Cell, Attribute>) -> bool {
        edit_done_spec(*self, after, action)
    }
}

/// Past this many cells after the point of an edit, a leaf is split rather
/// than spliced.
pub const SPLIT_LENGTH: usize = 32;

/// The leaves after replacing the cells `s..e` (already clamped) by
/// `new_cells`: the edit takes place in `edit_leaf(ls, s)`, which is first
/// divided at `s` where more than `SPLIT_LENGTH` of its cells follow `s`.
pub open spec fn replace_leaves<Cell, Attribute>(
    ls: Seq<(Seq<Cell>, Attribute)>,
    s: int,
    e: int,
    new_cells: Seq<Cell>,
) -> Seq<(Seq<Cell>, Attribute)> {
    let k = edit_leaf(ls, s);
    let c = ls[k].0;
    let st = leaf_start(ls, k) as int;
    let pos = s - st;
    if c.len() - pos > SPLIT_LENGTH {
        replaced_leaves(divided(ls, k, pos), k, pos, pos, new_cells, e - s)
    } else {
        let b = if e - st < c.len() { e - st } else { c.len() as int };
        replaced_leaves(ls, k, pos, b, new_cells, (e - s) - (b - pos))
    }
}

/// The leaves with an empty leaf, of attribute `x`, inserted at `t` within
/// leaf `k`, and the position of the empty leaf.
pub open spec fn blank_leaves<Cell, Attribute>(
    ls: Seq<(Seq<Cell>, Attribute)>,
    k: int,
    t: int,
    x: Attribute,
) -> (Seq<(Seq<Cell>, Attribute)>, int) {
    let c = ls[k].0;
    let a = ls[k].1;
    let e = Seq::<Cell>::empty();
    if t == 0 {
        (ls.take(k) + seq![(e, x), (c, a)] + ls.skip(k + 1), k)
    } else if t >= c.len() {
        (ls.take(k) + seq![(c, a), (e, x)] + ls.skip(k + 1), k + 1)
    } else {
        (ls.take(k) + seq![(c.take(t), a), (e, x), (c.skip(t), a)] + ls.skip(k + 1), k + 1)
    }
}

/// The leaves after replacing the cells `s..e` (already clamped) by
/// `new_cells` of attribute `x`. Where the edit leaf already has `x`, this is
/// a plain replacement; where the range starts at that leaf and covers more
/// than all of it, the leaf takes `x` first; otherwise an empty leaf of
/// attribute `x` is inserted at `s` and receives the new cells.
pub open spec fn replace_attr_leaves<Cell, Attribute>(
    ls: Seq<(Seq<Cell>, Attribute)>,
    s: int,
    e: int,
    new_cells: Seq<Cell>,
    x: Attribute,
) -> Seq<(Seq<Cell>, Attribute)> {
    let k = edit_leaf(ls, s);
    let c = ls[k].0;
    let st = leaf_start(ls, k) as int;
    if ls[k].1 == x {
        replace_leaves(ls, s, e, new_cells)
    } else if st == s && c.len() < e - s {
        replace_leaves(ls.update(k, (c, x)), s, e, new_cells)
    } else {
        let (lb, kb) = blank_leaves(ls, k, s - st, x);
        replaced_leaves(lb, kb, 0, 0, new_cells, e - s)
    }
}

/// The clamped bounds of `range` in a sequence of `len` cells: the start is
/// at most `len`, and the end lies between the start and `len`.
pub open spec fn clamp_range(range: Range<usize>, len: nat) -> (int, int) {
    let s = if range.start <= len { range.start as int } else { len as int };
    let e = if range.end <= s { s } else if range.end <= len { range.end as int } else { len as int };
    (s, e)
}

impl<Cell: Copy, Attribute: Copy + PartialEq + Default> AttributedRope<Cell, Attribute> {
    /// A rope of the given cells, in one leaf with the default attribute.
    fn single_leaf(cells: Vec<Cell>) -> (r: Self)
        ensures
            r.wf(),
            r.leaves().len() == 1,
            r.leaves()[0].0 == cells@,
            call_ensures(Attribute::default, (), r.leaves()[0].1),
    {
        let attr = Attribute::default();
        let ghost order = seq![0int];
        let ghost lo = |i: int| 0int;
        let ghost hi = |i: int| 1int;
        let r = AttributedRope {
            nodes: vec![RopeNode::Leaf(None, cells, attr)],
            root_node_idx: RopeNodeIndex(0),
            free_nodes: Vec::new(),
            order: Ghost(order),
            lo: Ghost(lo),
            hi: Ghost(hi),
        };
        proof {
            reveal(AttributedRope::wf);
            reveal(AttributedRope::wf_root);
            reveal(AttributedRope::wf_spans);
            reveal(AttributedRope::wf_leaf_slots);
            reveal(AttributedRope::wf_order);
            reveal(AttributedRope::wf_branches);
            reveal(AttributedRope::wf_lengths);
            reveal(AttributedRope::wf_parents);
            reveal(AttributedRope::wf_free);
            assert(r.leaves()[0] == r.leaf_data(0));
            assert forall|i: int| r.live(i) implies i == 0 by {}
            assert forall|i: int| r.slot_ok(i) && r.node(i) is Empty implies false by {}
        }
        r
    }

    /// Creates a new, empty rope.
    pub fn new() -> (r: Self)
        ensures
            r.wf(),
            r.cells() == Seq::<Cell>::empty(),
            r.leaves().len() == 1,
            r.attrs().len() == r.cells().len(),
            call_ensures(Attribute::default, (), r.leaves()[0].1),
    {
        let r = Self::single_leaf(Vec::new());
        proof {
            lemma_flat_single(r.leaves()[0]);
            assert(r.leaves() =~= seq![r.leaves()[0]]);
            lemma_flat_lens(r.leaves());
        }
        r
    }

    /// Creates a rope that holds the given cells, with the default attribute.
    pub fn from(cells: Vec<Cell>) -> (r: Self)
        ensures
            r.wf(),
            r.cells() == cells@,
            r.leaves().len() == 1,
            r.attrs().len() == r.cells().len(),
            call_ensures(Attribute::default, (), r.leaves()[0].1),
    {
        let r = Self::single_leaf(cells);
        proof {
            lemma_flat_single(r.leaves()[0]);
            assert(r.leaves() =~= seq![r.leaves()[0]]);
            lemma_flat_lens(r.leaves());
        }
        r
    }

    /// The number of cells in the rope.
    pub fn len(&self) -> (r: usize)
        requires
            self.wf(),
        ensures
            r == self.cells().len(),
    {
        proof {
            self.lemma_root_len();
            reveal(AttributedRope::wf);
            reveal(AttributedRope::wf_root);
        }
        self.nodes[self.root_node_idx.idx()].len()
    }

    /// Finds the leaf in which an edit at `pos` takes place: the first leaf
    /// whose end is at or after `pos`. Returns the position of its first cell
    /// and its index.
    pub(crate) fn find_leaf(&self, pos: usize) -> (r: (usize, RopeNodeIndex))
        requires
            self.wf(),
        ensures
            self.live(r.1.0 as int),
            self.node(r.1.0 as int) is Leaf,
            r.0 == leaf_start(self.leaves(), self.lo_of(r.1.0 as int)),
            pos <= self.cells().len() ==> pos <= leaf_start(self.leaves(), self.lo_of(r.1.0 as int) + 1),
            self.lo_of(r.1.0 as int) == 0 || pos > leaf_start(self.leaves(), self.lo_of(r.1.0 as int)),
            pos > self.cells().len() ==> self.lo_of(r.1.0 as int) == self.leaves().len() - 1,
    {
        let mut cur = self.root_node_idx;
        let mut offset: usize = 0;
        proof {
            reveal(AttributedRope::wf);
            reveal(AttributedRope::wf_root);
            lemma_leaf_start_end(self.leaves());
            self.lemma_root_len();
            self.lemma_span_len(self.root());
            assert(self.leaves().take(0) =~= Seq::<(Seq<Cell>, Attribute)>::empty());
        }
        loop
            invariant
                self.wf(),
                self.live(cur.0 as int),
                offset == leaf_start(self.leaves(), self.lo_of(cur.0 as int)),
                pos <= leaf_start(self.leaves(), self.hi_of(cur.0 as int)) || self.hi_of(cur.0 as int)
                    == self.leaves().len(),
                pos > self.cells().len() ==> self.hi_of(cur.0 as int) == self.leaves().len(),
                leaf_start(self.leaves(), self.leaves().len() as int) == self.cells().len(),
                self.lo_of(cur.0 as int) == 0 || pos > leaf_start(self.leaves(), self.lo_of(cur.0 as int)),
            decreases self.hi_of(cur.0 as int) - self.lo_of(cur.0 as int),
        {
            proof {
                reveal(AttributedRope::wf);
                reveal(AttributedRope::wf_branches);
                reveal(AttributedRope::wf_leaf_slots);
                reveal(AttributedRope::wf_spans);
                assert(self.wf_branch_at(cur.0 as int));
            }
            match &self.nodes[cur.idx()] {
                RopeNode::Branch(branch) => {
                    let left = branch.left;
                    let right = branch.right;
                    let left_len = self.nodes[left.idx()].len();
                    proof {
                        self.lemma_span_len(left.0 as int);
                        lemma_leaf_start_mono(self.leaves(), self.hi_of(left.0 as int), self.leaves().len() as int);
                    }
                    if pos - offset <= left_len {
                        cur = left;
                    } else {
                        offset = offset + left_len;
                        cur = right;
                    }
                },
                _ => {
                    return (offset, cur);
                },
            }
        }
    }

    /// The leaf that follows everything under `node_idx`, or `None` where
    /// nothing follows it.
    pub(crate) fn next_leaf_to_the_right(&self, node_idx: RopeNodeIndex) -> (r: Option<RopeNodeIndex>)
        requires
            self.wf(),
            self.live(node_idx.0 as int),
        ensures
            match r {
                Some(j) => self.hi_of(node_idx.0 as int) < self.order@.len() && j.0 as int
                    == self.order@[self.hi_of(node_idx.0 as int)] && self.live(j.0 as int) && self.node(
                    j.0 as int) is Leaf && self.lo_of(j.0 as int) == self.hi_of(node_idx.0 as int),
                None => self.hi_of(node_idx.0 as int) == self.order@.len(),
            },
    {
        proof {
            reveal(AttributedRope::wf);
        }
        let ghost target = self.hi_of(node_idx.0 as int);
        let mut cur = node_idx;
        let mut maybe_parent = self.nodes[cur.idx()].parent();
        let mut right = node_idx;
        loop
            invariant
                self.wf(),
                self.live(cur.0 as int),
                self.hi_of(cur.0 as int) == target,
                target == self.hi_of(node_idx.0 as int),
                maybe_parent == self.node(cur.0 as int).parent_of(),
            ensures
                self.live(right.0 as int),
                self.lo_of(right.0 as int) == target,
            decreases self.order@.len() - (self.hi_of(cur.0 as int) - self.lo_of(cur.0 as int)),
        {
            proof {
                reveal(AttributedRope::wf);
                reveal(AttributedRope::wf_root);
                reveal(AttributedRope::wf_parents);
                reveal(AttributedRope::wf_branches);
                reveal(AttributedRope::wf_spans);
                assert(self.parent_ok_at(cur.0 as int));
            }
            match maybe_parent {
                None => {
                    proof {
                        assert(cur.0 as int == self.root());
                        assert(self.hi_of(cur.0 as int) == self.order@.len());
                    }
                    return None;
                },
                Some(parent_idx) => {
                    match &self.nodes[parent_idx.idx()] {
                        RopeNode::Branch(branch) => {
                            proof {
                                assert(self.wf_branch_at(parent_idx.0 as int));
                            }
                            if branch.left == cur {
                                right = branch.right;
                                break;
                            } else {
                                maybe_parent = branch.parent;
                                cur = parent_idx;
                            }
                        },
                        _ => {
                            return None;
                        },
                    }
                },
            }
        }
        let mut next = right;
        loop
            invariant
                self.wf(),
                self.live(next.0 as int),
                self.lo_of(next.0 as int) == target,
                target == self.hi_of(node_idx.0 as int),
            decreases self.hi_of(next.0 as int) - self.lo_of(next.0 as int),
        {
            proof {
                reveal(AttributedRope::wf);
                reveal(AttributedRope::wf_branches);
                reveal(AttributedRope::wf_leaf_slots);
                reveal(AttributedRope::wf_spans);
                assert(self.wf_branch_at(next.0 as int));
            }
            match &self.nodes[next.idx()] {
                RopeNode::Branch(branch) => {
                    next = branch.left;
                },
                _ => {
                    proof {
                        assert(self.lo_of(next.0 as int) < self.hi_of(next.0 as int));
                        assert(self.order@[self.lo_of(next.0 as int)] == next.0 as int);
                    }
                    return Some(next);
                },
            }
        }
    }

    /// Stores a node in a free slot, or in a new one where none is free, and
    /// returns the index it was written to.
    fn store_new_node(&mut self, node: RopeNode<Cell, Attribute>) -> (r: RopeNodeIndex)
        requires
            forall|j: int|
                #![trigger old(self).free_nodes@[j]]
                0 <= j < old(self).free_nodes@.len() ==> old(self).slot_ok(old(self).free_nodes@[j] as int),
            old(self).free_nodes@.no_duplicates(),
        ensures
            final(self).root_node_idx == old(self).root_node_idx,
            final(self).order == old(self).order,
            final(self).lo == old(self).lo,
            final(self).hi == old(self).hi,
            final(self).slot_ok(r.0 as int),
            final(self).nodes@ == old(self).nodes@.update(r.0 as int, node) || final(self).nodes@ == old(self).nodes@.push(node),
            final(self).nodes@.len() >= old(self).nodes@.len(),
            old(self).slot_ok(r.0 as int) ==> old(self).free_nodes@.contains(r.0),
            !old(self).slot_ok(r.0 as int) ==> r.0 == old(self).nodes@.len() && final(self).nodes@ == old(self).nodes@.push(node),
            old(self).slot_ok(r.0 as int) ==> final(self).nodes@ == old(self).nodes@.update(
                r.0 as int,
                node,
            ),
            forall|j: int|
                #![trigger final(self).free_nodes@[j]]
                0 <= j < final(self).free_nodes@.len() ==> old(self).free_nodes@.contains(
                    final(self).free_nodes@[j],
                ) && final(self).free_nodes@[j] != r.0,
            forall|x: usize|
                old(self).free_nodes@.contains(x) && x != r.0 ==> #[trigger] final(self).free_nodes@.contains(x),
            final(self).free_nodes@.no_duplicates(),
            old(self).free_nodes@.len() > 0 ==> r.0 == old(self).free_nodes@.last() && final(self).free_nodes@
                == old(self).free_nodes@.drop_last(),
            old(self).free_nodes@.len() == 0 ==> r.0 == old(self).nodes@.len() && final(self).free_nodes@
                == old(self).free_nodes@,
    {
        if let Some(free_node) = self.free_nodes.pop() {
            proof {
                let f = old(self).free_nodes@;
                assert(f.last() == free_node);
                assert(f =~= self.free_nodes@.push(free_node));
                assert forall|j: int| 0 <= j < self.free_nodes@.len() implies self.free_nodes@[j]
                    != free_node by {
                    assert(f[j] == self.free_nodes@[j]);
                    assert(f[f.len() - 1] == free_node);
                }
                assert forall|x: usize| f.contains(x) && x != free_node implies #[trigger] self.free_nodes@.contains(x) by {
                    let j = choose|j: int| 0 <= j < f.len() && f[j] == x;
                    assert(j != f.len() - 1);
                    assert(self.free_nodes@[j] == x);
                }
                assert forall|j: int| 0 <= j < self.free_nodes@.len() implies f.contains(self.free_nodes@[j]) by {
                    assert(f[j] == self.free_nodes@[j]);
                }
                assert(f.contains(free_node)) by {
                    assert(f[f.len() - 1] == free_node);
                }
            }
            self.nodes.set(free_node, node);
            RopeNodeIndex(free_node)
        } else {
            let free_node = self.nodes.len();
            self.nodes.push(node);
            RopeNodeIndex(free_node)
        }
    }

    /// Divides a leaf into two leaves that share its attribute; the leaf's
    /// slot becomes the branch above them. Returns the left-hand leaf.
    fn split(&mut self, leaf_node_idx: RopeNodeIndex, split_index: usize) -> (r: RopeNodeIndex)
        requires
            old(self).wf(),
            old(self).live(leaf_node_idx.0 as int),
            old(self).node(leaf_node_idx.0 as int) is Leaf,
            split_index <= old(self).leaf_data(leaf_node_idx.0 as int).0.len(),
        ensures
            final(self).wf(),
            ({
                let k = old(self).lo_of(leaf_node_idx.0 as int);
                let c = old(self).leaf_data(leaf_node_idx.0 as int).0;
                let a = old(self).leaf_data(leaf_node_idx.0 as int).1;
                &&& final(self).leaves() == old(self).leaves().take(k) + seq![
                    (c.take(split_index as int), a),
                    (c.skip(split_index as int), a),
                ] + old(self).leaves().skip(k + 1)
                &&& final(self).live(r.0 as int)
                &&& final(self).node(r.0 as int) is Leaf
                &&& final(self).lo_of(r.0 as int) == k
                &&& forall|i: int|
                    old(self).live(i) && old(self).node(i) is Leaf && i != leaf_node_idx.0 ==> #[trigger] final(
                        self).live(i) && final(self).node(i) is Leaf && final(self).lo_of(i) == shifted(
                        old(self).lo_of(i), k)
            }),
            ({
                let idx = leaf_node_idx.0 as int;
                let b = final(self).node(idx)->Branch_0;
                let f = old(self).free_nodes@;
                let n = old(self).nodes@.len();
                &&& final(self).node(idx) is Branch
                &&& b.left == r
                &&& b.length == old(self).leaf_data(idx).0.len()
                &&& b.parent == old(self).node(idx).parent_of()
                &&& final(self).node(r.0 as int).parent_of() == Some(leaf_node_idx)
                &&& final(self).node(b.right.0 as int) is Leaf
                &&& final(self).node(b.right.0 as int).parent_of() == Some(leaf_node_idx)
                &&& final(self).leaf_data(r.0 as int) == (old(self).leaf_data(idx).0.take(split_index as int), old(
                    self).leaf_data(idx).1)
                &&& final(self).leaf_data(b.right.0 as int) == (old(self).leaf_data(idx).0.skip(
                    split_index as int), old(self).leaf_data(idx).1)
                &&& f.len() >= 1 ==> r.0 == f.last()
                &&& f.len() == 0 ==> r.0 == n
                &&& f.len() >= 2 ==> b.right.0 == f[f.len() - 2]
                &&& f.len() == 1 ==> b.right.0 == n
                &&& f.len() == 0 ==> b.right.0 == n + 1
            }),
    {
        let ghost pre = *old(self);
        let ghost idx = leaf_node_idx.0 as int;
        let ghost k = pre.lo_of(idx);
        proof {
            reveal(AttributedRope::wf);
            reveal(AttributedRope::wf_free);
            reveal(AttributedRope::wf_spans);
            reveal(AttributedRope::wf_leaf_slots);
            assert(!pre.free_nodes@.contains(leaf_node_idx.0)) by {
                if pre.free_nodes@.contains(leaf_node_idx.0) {
                    let j = choose|j: int| 0 <= j < pre.free_nodes@.len() && pre.free_nodes@[j] == leaf_node_idx.0;
                }
            }
        }
        let leaf_node = self.nodes[leaf_node_idx.idx()].take();
        match leaf_node {
            RopeNode::Leaf(parent, cells, attribute) => {
                let length = cells.len();
                let mut left_cells = cells;
                let right_cells = left_cells.split_off(split_index);
                let ghost mid = *self;
                let left_idx = self.store_new_node(
                    RopeNode::Leaf(Some(leaf_node_idx), left_cells, attribute),
                );
                let ghost mid2 = *self;
                let right_idx = self.store_new_node(
                    RopeNode::Leaf(Some(leaf_node_idx), right_cells, attribute),
                );
                let ghost l = left_idx.0 as int;
                let ghost rr = right_idx.0 as int;
                proof {
                    assert(l != idx);
                    assert(rr != idx);
                    assert(l != rr);
                    assert(!pre.live(l));
                    assert(!pre.live(rr));
                }
                self.nodes.set(
                    leaf_node_idx.idx(),
                    RopeNode::Branch(
                        RopeBranch { left: left_idx, right: right_idx, length: length, parent: parent },
                    ),
                );
                let ghost old_lo = pre.lo@;
                let ghost old_hi = pre.hi@;
                let ghost new_order = pre.order@.take(k) + seq![l, rr] + pre.order@.skip(k + 1);
                let ghost new_lo = |i: int|
                    if i == l {
                        k
                    } else if i == rr {
                        k + 1
                    } else {
                        shifted(old_lo(i), k)
                    };
                let ghost new_hi = |i: int|
                    if i == l {
                        k + 1
                    } else if i == rr {
                        k + 2
                    } else {
                        shifted(old_hi(i), k)
                    };
                self.order = Ghost(new_order);
                self.lo = Ghost(new_lo);
                self.hi = Ghost(new_hi);
                proof {
                    assert(self.split_step(pre, idx, l, rr, k, split_index as int)) by {
                        reveal(AttributedRope::split_step);
                        reveal(AttributedRope::wf);
                        reveal(AttributedRope::wf_free);
                        assert forall|i: int| #[trigger] self.slot_ok(i) && i != l && i != rr implies pre.slot_ok(i) by {}
                        assert forall|i: int| pre.slot_ok(i) && i != idx && i != l && i != rr implies #[trigger] self.node(i) == pre.node(i) by {
                            assert(mid.node(i) == pre.node(i));
                            assert(mid2.node(i) == mid.node(i));
                        }
                        assert(self.node(l) == mid2.node(l));
                        assert forall|j: int|
                            0 <= j < self.free_nodes@.len() implies pre.free_nodes@.contains(#[trigger] self.free_nodes@[j])
                                && self.free_nodes@[j] != l && self.free_nodes@[j] != rr by {
                            assert(mid2.free_nodes@.contains(self.free_nodes@[j]));
                            let jj = choose|jj: int| 0 <= jj < mid2.free_nodes@.len() && mid2.free_nodes@[jj] == self.free_nodes@[j];
                            assert(mid.free_nodes@.contains(mid2.free_nodes@[jj]));
                        }
                        assert forall|x: usize|
                            pre.free_nodes@.contains(x) && x != l && x != rr implies #[trigger] self.free_nodes@.contains(x) by {
                            assert(mid2.free_nodes@.contains(x));
                        }
                    }
                    self.lemma_split_wf(pre, idx, l, rr, k, split_index as int);
                    reveal(AttributedRope::split_step);
                    assert forall|i: int|
                        pre.live(i) && pre.node(i) is Leaf && i != idx implies #[trigger] self.live(i)
                            && self.node(i) is Leaf && self.lo_of(i) == shifted(pre.lo_of(i), k) by {
                        assert(self.node(i) == pre.node(i));
                    }
                }
                left_idx
            },
            other => {
                proof {
                    assert(false);
                }
                self.nodes.set(leaf_node_idx.idx(), other);
                leaf_node_idx
            },
        }
    }

    /// Splices `new_cells` into a leaf in place of its cells `start..end`, and
    /// brings the lengths recorded in the branches above it up to date.
    /// Returns the cells that were taken out.
    #[verifier::rlimit(60)]
    fn replace_cells(
        &mut self,
        leaf_node_idx: RopeNodeIndex,
        start: usize,
        end: usize,
        new_cells: Vec<Cell>,
    ) -> (removed: Vec<Cell>)
        requires
            old(self).wf(),
            old(self).live(leaf_node_idx.0 as int),
            old(self).node(leaf_node_idx.0 as int) is Leaf,
            start <= end,
            old(self).cells().len() + new_cells@.len() <= usize::MAX,
        ensures
            final(self).wf(),
            final(self).same_shape(*old(self)),
            ({
                let k = old(self).lo_of(leaf_node_idx.0 as int);
                let c = old(self).leaf_data(leaf_node_idx.0 as int).0;
                let a = old(self).leaf_data(leaf_node_idx.0 as int).1;
                let s = if start <= c.len() { start as int } else { c.len() as int };
                let e = if end <= c.len() { end as int } else { c.len() as int };
                &&& final(self).leaves() == old(self).leaves().update(
                    k,
                    (c.subrange(0, s) + new_cells@ + c.subrange(e, c.len() as int), a),
                )
                &&& removed@ == c.subrange(s, e)
            }),
    {
        let leaf_len = self.nodes[leaf_node_idx.idx()].len();
        let start = if start <= leaf_len {
            start
        } else {
            leaf_len
        };
        let end = if end <= leaf_len {
            end
        } else {
            leaf_len
        };
        let ghost pre = *old(self);
        let ghost idx = leaf_node_idx.0 as int;
        let ghost k = pre.lo_of(idx);
        let ghost c = pre.leaf_data(idx).0;
        let ghost new_data = (
            c.subrange(0, start as int) + new_cells@ + c.subrange(end as int, c.len() as int),
            pre.leaf_data(idx).1,
        );
        proof {
            reveal(AttributedRope::wf);
            reveal(AttributedRope::wf_spans);
            reveal(AttributedRope::wf_leaf_slots);
            pre.lemma_len_le_total(idx);
        }
        let node = self.nodes[leaf_node_idx.idx()].take();
        match node {
            RopeNode::Leaf(parent, cells, attr) => {
                let mut cells = cells;
                let mut tail = cells.split_off(end);
                let removed = cells.split_off(start);
                let removed_len = removed.len();
                let added = new_cells.len();
                let mut new_cells = new_cells;
                cells.append(&mut new_cells);
                cells.append(&mut tail);
                self.nodes.set(leaf_node_idx.idx(), RopeNode::Leaf(parent, cells, attr));
                proof {
                    assert(self.leaf_data(idx).0 =~= new_data.0);
                    assert forall|i: int| #[trigger] self.node(i) == self.node(i) && 0 <= i < self.nodes@.len()
                        implies same_links(self.node(i), pre.node(i)) by {
                        if i != idx {
                            assert(self.node(i) == pre.node(i));
                        }
                    }
                    assert(self.nodes.len() == self.nodes@.len());
                    assert forall|i: int|
                        self.live(i) && (parent is None || i != parent.unwrap().0) implies #[trigger] self.length_ok_at(i) by {
                        reveal(AttributedRope::wf_lengths);
                        reveal(AttributedRope::wf_branches);
                        if i != idx {
                            assert(self.node(i) == pre.node(i));
                            assert(pre.length_ok_at(i));
                            match self.node(i) {
                                RopeNode::Branch(b) => {
                                    assert(pre.wf_branch_at(i));
                                    if b.left.0 as int == idx || b.right.0 as int == idx {
                                        assert(pre.node(idx).parent_of() == Some(RopeNodeIndex(i as usize)));
                                    }
                                },
                                _ => {},
                            }
                        }
                    }
                }
                let mut parent_idx = parent;
                let ghost mut cur = idx;
                let ghost mut updated: Set<int> = set![idx];
                loop
                    invariant
                        pre.wf(),
                        pre.live(idx),
                        pre.node(idx) is Leaf,
                        k == pre.lo_of(idx),
                        removed_len <= pre.node(idx).spec_len(),
                        pre.cells().len() - removed_len + added <= usize::MAX,
                        self.same_shape(pre),
                        self.leaf_data(idx) == new_data,
                        self.live(cur),
                        updated.contains(cur),
                        updated.contains(idx),
                        parent_idx == self.node(cur).parent_of(),
                        forall|i: int|
                            #[trigger] updated.contains(i) ==> pre.live(i) && pre.lo_of(i) <= k
                                < pre.hi_of(i) && (i == idx || pre.node(i) is Branch)
                                && pre.hi_of(i) - pre.lo_of(i) <= pre.hi_of(cur) - pre.lo_of(cur)
                                && pre.node(i).spec_len() >= removed_len
                                && self.node(i).spec_len() == pre.node(i).spec_len() - removed_len + added,
                        forall|i: int|
                            self.slot_ok(i) && !updated.contains(i) ==> #[trigger] self.node(i)
                                == pre.node(i),
                        forall|i: int|
                            self.live(i) && (parent_idx is None || i != parent_idx.unwrap().0) ==> #[trigger] self.length_ok_at(i),
                    ensures
                        self.same_shape(pre),
                        self.leaf_data(idx) == new_data,
                        forall|i: int|
                            self.slot_ok(i) && !updated.contains(i) ==> #[trigger] self.node(i)
                                == pre.node(i),
                        forall|i: int| #[trigger] updated.contains(i) ==> (i == idx || pre.node(i) is Branch),
                        forall|i: int| self.live(i) ==> #[trigger] self.length_ok_at(i),
                    decreases pre.order@.len() - (pre.hi_of(cur) - pre.lo_of(cur)),
                {
                    match parent_idx {
                        None => {
                            break;
                        },
                        Some(p) => {
                            let ghost pp = p.0 as int;
                            proof {
                                reveal(AttributedRope::wf);
                                reveal(AttributedRope::wf_root);
                                assert(pre.wf_parents());
                                assert(pre.wf_branches());
                                assert(pre.wf_spans());
                                assert(same_links(self.node(cur), pre.node(cur)));
                                assert(pre.parent_ok_at(cur)) by {
                                    reveal(AttributedRope::wf_parents);
                                }
                                assert(pre.wf_branch_at(pp)) by {
                                    reveal(AttributedRope::wf_parents);
                                    reveal(AttributedRope::wf_branches);
                                }
                                let pb = pre.node(pp)->Branch_0;
                                assert(pre.live(pb.left.0 as int) && pre.live(pb.right.0 as int));
                                assert(pre.lo_of(pb.left.0 as int) < pre.hi_of(pb.left.0 as int)
                                    && pre.lo_of(pb.right.0 as int) < pre.hi_of(pb.right.0 as int)
                                    && pre.lo_of(cur) < pre.hi_of(cur)) by {
                                    reveal(AttributedRope::wf_spans);
                                }
                                assert(pb.left.0 as int == cur || pb.right.0 as int == cur);
                                assert(pre.hi_of(pp) - pre.lo_of(pp) > pre.hi_of(cur) - pre.lo_of(cur));
                                assert(pre.lo_of(pp) <= pre.lo_of(cur) && pre.hi_of(cur) <= pre.hi_of(pp));
                                assert(pre.node(cur).parent_of() == self.node(cur).parent_of());
                                assert(cur != pre.root());
                                assert(!updated.contains(pp));
                                assert(self.node(pp) == pre.node(pp));
                                assert(pre.length_ok_at(pp)) by {
                                    reveal(AttributedRope::wf_lengths);
                                }
                                pre.lemma_len_le_total(pp);
                            }
                            if let RopeNode::Branch(branch) = &self.nodes[p.idx()] {
                                let mut new_branch = *branch;
                                let ghost sib = if branch.left.0 as int == cur { branch.right.0 as int } else { branch.left.0 as int };
                                proof {
                                    assert(!updated.contains(sib));
                                }
                                new_branch.length = branch.length - removed_len + added;
                                let ghost prev = *self;
                                self.nodes.set(p.idx(), RopeNode::Branch(new_branch));
                                proof {
                                    assert(self.node(sib) == pre.node(sib));
                                    assert(self.node(cur) == prev.node(cur));
                                    assert(self.length_ok_at(pp));
                                    assert forall|i: int| #[trigger] self.node(i) == self.node(i) && 0 <= i < self.nodes@.len()
                                        implies same_links(self.node(i), pre.node(i)) by {
                                        if i != pp {
                                            assert(self.node(i) == prev.node(i));
                                            assert(same_links(prev.node(i), pre.node(i)));
                                        }
                                    }
                                    self.lemma_length_step(prev, pre, pp);
                                }
                                parent_idx = new_branch.parent;
                                proof {
                                    assert(self.node(pp).spec_len() == pre.node(pp).spec_len() - removed_len + added);
                                    assert forall|i: int| self.slot_ok(i) && !updated.insert(pp).contains(i) implies #[trigger] self.node(i) == pre.node(i) by {
                                        assert(self.node(i) == prev.node(i));
                                    }
                                    assert(0 <= pre.lo_of(pp) && pre.hi_of(pp) <= pre.order@.len()) by {
                                        reveal(AttributedRope::wf_spans);
                                    }
                                    assert(pre.node(pp).spec_len() >= removed_len);
                                    updated = updated.insert(pp);
                                    cur = pp;
                                }
                            } else {
                                proof {
                                    assert(false);
                                }
                                break;
                            }
                        },
                    }
                }
                proof {
                    self.lemma_same_shape(pre);
                    reveal(AttributedRope::wf);
                    reveal(AttributedRope::wf_lengths);
                    reveal(AttributedRope::wf_order);
                    let expect = pre.leaves().update(k, new_data);
                    assert(self.leaves() =~= expect) by {
                        assert forall|j: int| 0 <= j < self.leaves().len() implies self.leaves()[j] == expect[j] by {
                            let i = pre.order@[j];
                            if j != k {
                                assert(pre.lo_of(i) == j);
                                assert(i != idx);
                                assert(!updated.contains(i));
                                assert(self.node(i) == pre.node(i));
                            }
                        }
                    }
                    assert(removed@ =~= c.subrange(start as int, end as int));
                }
                removed
            },
            other => {
                proof {
                    assert(false);
                }
                self.nodes.set(leaf_node_idx.idx(), other);
                Vec::new()
            },
        }
    }

    /// Removes an empty leaf that has a leaf to its right: its parent branch
    /// is replaced by the leaf's sibling, and both slots are freed.
    fn remove_empty_leaf(&mut self, leaf_node_idx: RopeNodeIndex)
        requires
            old(self).wf(),
            old(self).live(leaf_node_idx.0 as int),
            old(self).node(leaf_node_idx.0 as int) is Leaf,
            old(self).leaf_data(leaf_node_idx.0 as int).0.len() == 0,
            old(self).lo_of(leaf_node_idx.0 as int) + 1 < old(self).order@.len(),
        ensures
            final(self).wf(),
            final(self).leaves() == old(self).leaves().remove(old(self).lo_of(leaf_node_idx.0 as int)),
            forall|i: int|
                old(self).live(i) && old(self).node(i) is Leaf && i != leaf_node_idx.0 ==> #[trigger] final(
                    self).live(i) && final(self).node(i) is Leaf && final(self).lo_of(i) == unshifted(
                    old(self).lo_of(i), old(self).lo_of(leaf_node_idx.0 as int)),
            join_layout(*old(self), *final(self), leaf_node_idx.0 as int),
    {
        let ghost pre = *old(self);
        let ghost idx = leaf_node_idx.0 as int;
        let ghost k = pre.lo_of(idx);
        proof {
            reveal(AttributedRope::wf);
            reveal(AttributedRope::wf_root);
            reveal(AttributedRope::wf_spans);
            reveal(AttributedRope::wf_leaf_slots);
            reveal(AttributedRope::wf_parents);
            reveal(AttributedRope::wf_branches);
            assert(pre.hi_of(idx) == k + 1);
            assert(idx != pre.root());
            assert(pre.parent_ok_at(idx));
            assert(self.nodes.len() == self.nodes@.len());
        }
        let leaf_node = self.nodes[leaf_node_idx.idx()].take();
        let parent = match leaf_node {
            RopeNode::Leaf(parent, _, _) => parent,
            _ => None,
        };
        let parent_node_idx = match parent {
            Some(p) => p,
            None => {
                proof {
                    assert(false);
                }
                return ;
            },
        };
        let ghost p = parent_node_idx.0 as int;
        proof {
            assert(pre.wf_branch_at(p));
            assert(pre.parent_ok_at(p));
        }
        let parent_node = self.nodes[parent_node_idx.idx()].take();
        let branch = match parent_node {
            RopeNode::Branch(branch) => branch,
            _ => {
                proof {
                    assert(false);
                }
                return ;
            },
        };
        let remaining = if branch.left == leaf_node_idx {
            branch.right
        } else {
            branch.left
        };
        let grandparent = branch.parent;
        let ghost rem = remaining.0 as int;
        proof {
            assert(pre.live(rem));
            assert(pre.lo_of(rem) < pre.hi_of(rem));
            assert(pre.lo_of(idx) < pre.hi_of(idx));
            match grandparent {
                Some(g) => {
                    assert(pre.wf_branch_at(g.0 as int));
                    assert(pre.lo_of(g.0 as int) < pre.hi_of(g.0 as int));
                    assert(g.0 != idx && g.0 != p && g.0 != rem);
                },
                None => {},
            }
        }
        let ghost mid = *self;
        match grandparent {
            Some(g) => {
                if let RopeNode::Branch(gb) = &self.nodes[g.idx()] {
                    let mut new_gb = *gb;
                    if new_gb.left == parent_node_idx {
                        new_gb.left = remaining;
                    } else {
                        new_gb.right = remaining;
                    }
                    self.nodes.set(g.idx(), RopeNode::Branch(new_gb));
                } else {
                    proof {
                        assert(false);
                    }
                }
            },
            None => {
                self.root_node_idx = remaining;
            },
        }
        let ghost mid2 = *self;
        let rem_node = self.nodes[remaining.idx()].take();
        let rem_node = match rem_node {
            RopeNode::Leaf(_, cells, attr) => RopeNode::Leaf(grandparent, cells, attr),
            RopeNode::Branch(rb) => RopeNode::Branch(
                RopeBranch { left: rb.left, right: rb.right, length: rb.length, parent: grandparent },
            ),
            RopeNode::Empty => RopeNode::Empty,
        };
        self.nodes.set(remaining.idx(), rem_node);
        self.free_nodes.push(leaf_node_idx.idx());
        self.free_nodes.push(parent_node_idx.idx());
        let ghost old_lo = pre.lo@;
        let ghost old_hi = pre.hi@;
        let ghost new_order = pre.order@.remove(k);
        let ghost new_lo = |i: int| unshifted(old_lo(i), k);
        let ghost new_hi = |i: int| unshifted(old_hi(i), k);
        self.order = Ghost(new_order);
        self.lo = Ghost(new_lo);
        self.hi = Ghost(new_hi);
        proof {
            assert(self.join_step(pre, idx, p, rem, k)) by {
                reveal(AttributedRope::join_step);
                assert(self.node(rem) == with_parent(pre.node(rem), grandparent));
                match grandparent {
                    Some(g) => {
                        assert forall|i: int|
                            0 <= i < self.nodes@.len() && i != idx && i != p && i != rem && i != g.0 implies #[trigger] self.node(i)
                                == pre.node(i) by {
                            assert(self.node(i) == mid2.node(i));
                            assert(mid2.node(i) == mid.node(i));
                        }
                        assert(self.node(g.0 as int) == mid2.node(g.0 as int));
                    },
                    None => {
                        assert forall|i: int|
                            0 <= i < self.nodes@.len() && i != idx && i != p && i != rem implies #[trigger] self.node(i)
                                == pre.node(i) by {
                            assert(self.node(i) == mid2.node(i));
                        }
                    },
                }
            }
            self.lemma_join_wf(pre, idx, p, rem, k);
            self.lemma_join_facts(pre, idx, p, rem, k);
            self.lemma_join_frame(pre, idx, p, rem, k);
            reveal(AttributedRope::join_step);
            assert(join_layout(pre, *self, idx)) by {
                assert(self.free_nodes@ == pre.free_nodes@.push(idx as usize).push(p as usize));
                match grandparent {
                    Some(g) => {
                        assert(g.0 != rem);
                    },
                    None => {},
                }
            }
            assert forall|i: int|
                pre.live(i) && pre.node(i) is Leaf && i != idx implies #[trigger] self.live(i) && self.node(i) is Leaf
                    && self.lo_of(i) == unshifted(pre.lo_of(i), k) by {
                assert(i != p);
                if i != rem {
                    assert(grandparent is None || i != grandparent.unwrap().0);
                    assert(self.node(i) == pre.node(i));
                }
            }
        }
    }

    /// Joins a leaf to the leaf on its right: its cells go to the front of
    /// that leaf, and the leaf is removed. Does nothing to the last leaf.
    fn join_to_right(&mut self, leaf_node_idx: RopeNodeIndex)
        requires
            old(self).wf(),
            old(self).live(leaf_node_idx.0 as int),
            old(self).node(leaf_node_idx.0 as int) is Leaf,
        ensures
            final(self).wf(),
            ({
                let k = old(self).lo_of(leaf_node_idx.0 as int);
                let ls = old(self).leaves();
                &&& k + 1 < ls.len() ==> final(self).leaves() == ls.take(k) + seq![
                    (ls[k].0 + ls[k + 1].0, ls[k + 1].1),
                ] + ls.skip(k + 2)
                &&& k + 1 >= ls.len() ==> final(self).leaves() == ls
                &&& k + 1 < ls.len() ==> join_layout(*old(self), *final(self), leaf_node_idx.0 as int)
            }),
    {
        let ghost pre = *old(self);
        let ghost idx = leaf_node_idx.0 as int;
        let ghost k = pre.lo_of(idx);
        let right = match self.next_leaf_to_the_right(leaf_node_idx) {
            Some(r) => r,
            None => {
                proof {
                    reveal(AttributedRope::wf);
                    reveal(AttributedRope::wf_leaf_slots);
                }
                return ;
            },
        };
        proof {
            reveal(AttributedRope::wf);
            reveal(AttributedRope::wf_leaf_slots);
            reveal(AttributedRope::wf_order);
            reveal(AttributedRope::wf_spans);
            assert(pre.hi_of(idx) == k + 1);
            assert(pre.order@[k] == idx);
            assert(pre.leaves()[k] == pre.leaf_data(idx));
            assert(pre.leaves()[k + 1] == pre.leaf_data(right.0 as int));
            pre.lemma_len_le_total(idx);
            pre.lemma_total_fits();
            assert(pre.live(right.0 as int));
            assert(pre.lo_of(right.0 as int) == k + 1);
        }
        let n = self.nodes[leaf_node_idx.idx()].len();
        if n > 0 {
            let moved = self.replace_cells(leaf_node_idx, 0, n, Vec::new());
            let ghost mid = *self;
            proof {
                assert(mid.leaves() == pre.leaves().update(k, (Seq::<Cell>::empty(), pre.leaves()[k].1))) by {
                    let c = pre.leaf_data(idx).0;
                    assert(c.subrange(0, 0) + Seq::<Cell>::empty() + c.subrange(n as int, c.len() as int) =~= Seq::<Cell>::empty());
                }
                self.lemma_same_shape(pre);
                assert(self.live(right.0 as int));
                assert(self.node(right.0 as int) is Leaf);
                assert(self.lo_of(right.0 as int) == k + 1);
                assert(self.leaves()[k + 1] == self.leaf_data(right.0 as int)) by {
                    reveal(AttributedRope::wf_order);
                }
                assert(self.leaf_data(right.0 as int) == pre.leaf_data(right.0 as int));
                lemma_flat_split(pre.leaves(), k);
                lemma_flat_split(self.leaves(), k);
                assert(self.leaves().take(k) =~= pre.leaves().take(k));
                assert(self.leaves().skip(k + 1) =~= pre.leaves().skip(k + 1));
                assert(mid.cells().len() + n == pre.cells().len());
            }
            self.replace_cells(right, 0, 0, moved);
            proof {
                lemma_same_shape_trans(*self, mid, pre);
                let c = mid.leaf_data(right.0 as int).0;
                assert(c.subrange(0, 0) + moved@ + c.subrange(0, c.len() as int) =~= moved@ + c);
                let ls = pre.leaves();
                assert(moved@ =~= ls[k].0);
                assert(self.leaves() =~= ls.update(k, (Seq::<Cell>::empty(), ls[k].1)).update(
                    k + 1,
                    (ls[k].0 + ls[k + 1].0, ls[k + 1].1),
                ));
                self.lemma_same_shape(pre);
                assert(self.live(idx));
                assert(self.node(idx) is Leaf);
                assert(self.lo_of(idx) == k);
                assert(self.leaf_data(idx).0.len() == 0) by {
                    reveal(AttributedRope::wf_order);
                    assert(self.leaves()[k] == self.leaf_data(idx));
                }
            }
        } else {
            proof {
                assert(pre.leaves()[k].0.len() == 0);
            }
        }
        let ghost mid3 = *self;
        self.remove_empty_leaf(leaf_node_idx);
        proof {
            if n > 0 {
                assert(idx != pre.root()) by {
                    reveal(AttributedRope::wf);
                    reveal(AttributedRope::wf_root);
                }
                lemma_join_layout_shape(pre, mid3, *self, idx);
            }
        }
        proof {
            let ls = pre.leaves();
            let expect = ls.take(k) + seq![(ls[k].0 + ls[k + 1].0, ls[k + 1].1)] + ls.skip(k + 2);
            assert(ls[k].0 =~= Seq::<Cell>::empty() || n > 0);
            let ls2 = if n == 0 {
                ls
            } else {
                ls.update(k, (Seq::<Cell>::empty(), ls[k].1)).update(k + 1, (ls[k].0 + ls[k + 1].0, ls[k + 1].1))
            };
            if n == 0 {
                assert(ls[k].0 + ls[k + 1].0 =~= ls[k + 1].0);
            }
            assert(mid3.leaves() == ls2);
            assert(mid3.lo_of(idx) == k);
            assert(self.leaves() == ls2.remove(k));
            assert forall|j: int| 0 <= j < expect.len() implies #[trigger] self.leaves()[j] == expect[j] by {
                assert(ls2.remove(k) =~= ls2.subrange(0, k) + ls2.subrange(k + 1, ls2.len() as int));
            }
            assert(self.leaves().len() == expect.len());
            assert(self.leaves() =~= expect);
        }
    }

    /// Replaces the cells `start..end` by `new_cells`, where `start` lies in
    /// the leaf `leaf_node_idx` whose first cell stands at `leaf_offset`. The
    /// new cells go into that leaf; the rest of the range is taken from the
    /// leaves to its right, and leaves emptied on the way are removed.
    #[verifier::rlimit(80)]
    fn replace_leaf(
        &mut self,
        start: usize,
        end: usize,
        leaf_offset: usize,
        leaf_node_idx: RopeNodeIndex,
        new_cells: Vec<Cell>,
    )
        requires
            old(self).wf(),
            old(self).live(leaf_node_idx.0 as int),
            old(self).node(leaf_node_idx.0 as int) is Leaf,
            leaf_offset == leaf_start(old(self).leaves(), old(self).lo_of(leaf_node_idx.0 as int)),
            leaf_offset <= start <= leaf_start(old(self).leaves(), old(self).lo_of(leaf_node_idx.0 as int) + 1),
            start <= end <= old(self).cells().len(),
            old(self).cells().len() + new_cells@.len() <= usize::MAX,
        ensures
            final(self).wf(),
            final(self).cells() == old(self).cells().take(start as int) + new_cells@ + old(self).cells().skip(
                end as int,
            ),
            final(self).attrs() == old(self).attrs().take(start as int) + Seq::new(
                new_cells@.len(),
                |_i: int| old(self).leaf_data(leaf_node_idx.0 as int).1,
            ) + old(self).attrs().skip(end as int),
            ({
                let ls = old(self).leaves();
                let k = old(self).lo_of(leaf_node_idx.0 as int);
                let len = ls[k].0.len() as int;
                let a = start - leaf_offset;
                let b = if end - leaf_offset < len { end - leaf_offset } else { len };
                final(self).leaves() == replaced_leaves(ls, k, a, b, new_cells@, (end - start) - (b - a))
            }),
    {
        let ghost pre = *old(self);
        let ghost idx = leaf_node_idx.0 as int;
        let ghost k = pre.lo_of(idx);
        let ghost cs = pre.cells();
        let ghost at = pre.attrs();
        let ghost a = pre.leaf_data(idx).1;
        let ghost nc = new_cells@;
        let n = new_cells.len();
        proof {
            reveal(AttributedRope::wf);
            reveal(AttributedRope::wf_spans);
            reveal(AttributedRope::wf_leaf_slots);
            reveal(AttributedRope::wf_order);
            assert(pre.hi_of(idx) == k + 1);
            assert(pre.leaves()[k] == pre.leaf_data(idx));
            lemma_flat_split(pre.leaves(), k);
            lemma_flat_lens(pre.leaves());
        }
        let leaf_len = self.nodes[leaf_node_idx.idx()].len();
        let leaf_pos = start - leaf_offset;
        let inner_end = if end - leaf_offset < leaf_len {
            end - leaf_offset
        } else {
            leaf_len
        };
        proof {
            assert(leaf_len == pre.leaf_data(idx).0.len());
            assert(leaf_pos <= inner_end);
            assert(inner_end - leaf_pos <= end - start);
            assert(pre.cells().len() - (inner_end - leaf_pos) + nc.len() <= usize::MAX);
        }
        self.replace_cells(leaf_node_idx, leaf_pos, inner_end, new_cells);
        let mut remaining = (end - start) - (inner_end - leaf_pos);
        proof {
            lemma_flat_splice(pre.leaves(), k, leaf_pos as int, inner_end as int, nc);
            self.lemma_same_shape(pre);
            assert(self.cells() =~= cs.take(start as int) + nc + cs.skip(end - remaining));
            assert(self.attrs() =~= at.take(start as int) + Seq::new(nc.len(), |_i: int| a) + at.skip(
                end - remaining,
            ));
            assert(self.leaves()[k] == self.leaf_data(idx)) by {
                reveal(AttributedRope::wf_order);
            }
            lemma_flat_split(self.leaves(), k);
        }
        let ghost pre_part = self.leaves().take(k + 1);
        let ghost goal = trim_front(self.leaves().skip(k + 1), remaining as int);
        let ghost r0 = remaining as int;
        proof {
            let c = pre.leaf_data(idx).0;
            let mid = (c.subrange(0, leaf_pos as int) + nc + c.subrange(inner_end as int, c.len() as int), a);
            assert(pre_part =~= pre.leaves().take(k) + seq![mid]);
            assert(self.leaves().skip(k + 1) =~= pre.leaves().skip(k + 1));
        }
        if remaining > 0 {
            let mut next = match self.next_leaf_to_the_right(leaf_node_idx) {
                Some(r) => r,
                None => {
                    proof {
                        lemma_leaf_start_end(self.leaves());
                        assert(self.lo_of(idx) + 1 == self.order@.len());
                        assert(false);
                    }
                    return ;
                },
            };
            loop
                invariant
                    self.wf(),
                    self.live(idx),
                    self.node(idx) is Leaf,
                    self.lo_of(idx) == k,
                    self.live(next.0 as int),
                    self.node(next.0 as int) is Leaf,
                    self.lo_of(next.0 as int) == k + 1,
                    leaf_start(self.leaves(), k + 1) == start + n,
                    0 <= remaining <= end - start,
                    end <= cs.len(),
                    cs.len() == at.len(),
                    self.cells() == cs.take(start as int) + nc + cs.skip(end - remaining),
                    self.attrs() == at.take(start as int) + Seq::new(nc.len(), |_i: int| a) + at.skip(
                        end - remaining,
                    ),
                    nc.len() == n,
                    start + n <= self.cells().len(),
                    self.leaves().take(k + 1) == pre_part,
                    trim_front(self.leaves().skip(k + 1), remaining as int) == goal,
                ensures
                    self.leaves().take(k + 1) == pre_part,
                    trim_front(self.leaves().skip(k + 1), remaining as int) == goal,
                    self.wf(),
                    self.live(idx),
                    self.node(idx) is Leaf,
                    self.lo_of(idx) == k,
                    remaining == 0,
                    self.cells() == cs.take(start as int) + nc + cs.skip(end - remaining),
                    self.attrs() == at.take(start as int) + Seq::new(nc.len(), |_i: int| a) + at.skip(
                        end - remaining,
                    ),
                decreases remaining, self.order@.len(),
            {
                if remaining == 0 {
                    break;
                }
                let ghost before = *self;
                let ghost j = k + 1;
                let ghost tail0 = before.leaves().skip(k + 1);
                let ghost rem0 = remaining as int;
                let next_len = self.nodes[next.idx()].len();
                let to_remove = if remaining < next_len {
                    remaining
                } else {
                    next_len
                };
                proof {
                    reveal(AttributedRope::wf);
                    reveal(AttributedRope::wf_order);
                    reveal(AttributedRope::wf_spans);
                    reveal(AttributedRope::wf_leaf_slots);
                    assert(j < before.hi_of(next.0 as int));
                    assert(before.order@[j] == next.0 as int);
                    assert(before.leaves()[j] == before.leaf_data(next.0 as int));
                    lemma_flat_splice(before.leaves(), j, 0, to_remove as int, Seq::<Cell>::empty());
                    before.lemma_total_fits();
                }
                if to_remove > 0 {
                    self.replace_cells(next, 0, to_remove, Vec::new());
                    remaining = remaining - to_remove;
                    proof {
                        self.lemma_same_shape(before);
                        let c = before.leaf_data(next.0 as int).0;
                        assert(c.subrange(0, 0) + Seq::<Cell>::empty() + c.subrange(to_remove as int, c.len() as int)
                            =~= c.subrange(to_remove as int, c.len() as int));
                        let prefix = cs.take(start as int) + nc;
                        assert(before.cells() =~= prefix + cs.skip(end - (remaining + to_remove)));
                        assert(before.cells().take(start + n) =~= prefix);
                        assert(before.cells().skip(start + n + to_remove) =~= cs.skip(end - remaining));
                        let aprefix = at.take(start as int) + Seq::new(nc.len(), |_i: int| a);
                        assert(before.attrs().take(start + n) =~= aprefix);
                        assert(before.attrs().skip(start + n + to_remove) =~= at.skip(end - remaining));
                        assert(self.cells() =~= cs.take(start as int) + nc + cs.skip(end - remaining));
                        assert(self.attrs() =~= at.take(start as int) + Seq::new(nc.len(), |_i: int| a)
                            + at.skip(end - remaining));
                        lemma_flat_split(self.leaves(), j);
                        lemma_flat_split(before.leaves(), j);
                        assert(self.leaves().take(j) =~= before.leaves().take(j));
                        assert(self.leaves().skip(k + 1) =~= seq![(c.skip(to_remove as int), tail0[0].1)] + tail0.skip(
                            1,
                        ));
                        assert(tail0[0] == (c, tail0[0].1));
                    }
                }
                if to_remove == next_len {
                    let ghost mid = *self;
                    proof {
                        reveal(AttributedRope::wf);
                        reveal(AttributedRope::wf_order);
                        reveal(AttributedRope::wf_spans);
                        reveal(AttributedRope::wf_leaf_slots);
                        assert(j < mid.hi_of(next.0 as int));
                        assert(mid.order@[j] == next.0 as int);
                        assert(mid.leaves()[j] == mid.leaf_data(next.0 as int));
                    }
                    proof {
                        assert(mid.live(idx) && mid.node(idx) is Leaf && mid.lo_of(idx) == k);
                        assert(idx != next.0 as int);
                    }
                    match self.next_leaf_to_the_right(next) {
                        Some(r) => {
                            proof {
                                assert(mid.lo_of(r.0 as int) == j + 1) by {
                                    reveal(AttributedRope::wf_spans);
                                    reveal(AttributedRope::wf_leaf_slots);
                                }
                                assert(mid.live(r.0 as int) && mid.node(r.0 as int) is Leaf);
                                lemma_flat_remove_empty(mid.leaves(), j);
                            }
                            self.remove_empty_leaf(next);
                            proof {
                                assert(self.live(idx));
                                assert(self.live(r.0 as int));
                                let ml = mid.leaves();
                                assert(ml.remove(j) =~= ml.take(j) + ml.skip(j + 1));
                                assert(self.leaves().take(k + 1) =~= pre_part);
                                assert(self.leaves().skip(k + 1) =~= tail0.skip(1));
                                assert(tail0.len() > 1);
                                assert(rem0 >= tail0[0].0.len());
                            }
                            next = r;
                        },
                        None => {
                            proof {
                                lemma_leaf_start_end(mid.leaves());
                                lemma_flat_split(mid.leaves(), j);
                                assert(mid.cells().len() == start + n);
                                assert(remaining == 0);
                                assert(mid.leaves().len() == k + 2);
                                assert(tail0.len() == 1);
                                assert(mid.leaves().skip(k + 1) =~= seq![(Seq::<Cell>::empty(), tail0[0].1)]);
                            }
                            break;
                        },
                    }
                } else {
                    proof {
                        assert(rem0 < tail0[0].0.len());
                    }
                    break;
                }
            }
        }
        let ghost mid4 = *self;
        proof {
            assert(mid4.leaves() =~= pre_part + goal) by {
                assert(mid4.leaves() =~= mid4.leaves().take(k + 1) + mid4.leaves().skip(k + 1));
            }
        }
        proof {
            assert(cs.skip(end as int) == cs.skip(end - remaining));
        }
        if self.nodes[leaf_node_idx.idx()].len() == 0 {
            proof {
                reveal(AttributedRope::wf);
                reveal(AttributedRope::wf_order);
                reveal(AttributedRope::wf_spans);
                assert(mid4.leaves()[k] == mid4.leaf_data(idx));
            }
            self.join_to_right(leaf_node_idx);
            proof {
                let ls = mid4.leaves();
                if k + 1 < ls.len() {
                    assert(ls[k].0 + ls[k + 1].0 =~= ls[k + 1].0);
                    assert(self.leaves() =~= ls.remove(k));
                    lemma_flat_remove_empty(ls, k);
                    assert(self.leaves() =~= pre.leaves().take(k) + goal);
                } else {
                    assert(goal.len() == 0);
                }
            }
        }
    }

    /// Replaces a range of cells. The new cells take the attribute of the
    /// leaf in which the edit takes place: at the boundary between two
    /// attribute runs, the run on the left.
    #[verifier::rlimit(80)]
    pub fn replace(&mut self, range: Range<usize>, new_cells: Vec<Cell>)
        requires
            old(self).wf(),
            old(self).cells().len() + new_cells@.len() <= usize::MAX,
        ensures
            final(self).wf(),
            ({
                let (s, e) = clamp_range(range, old(self).cells().len());
                let ls = old(self).leaves();
                &&& final(self).cells() == old(self).cells().take(s) + new_cells@ + old(self).cells().skip(e)
                &&& final(self).attrs() == old(self).attrs().take(s) + Seq::new(
                    new_cells@.len(),
                    |_i: int| ls[edit_leaf(ls, s)].1,
                ) + old(self).attrs().skip(e)
                &&& final(self).attrs().len() == final(self).cells().len()
                &&& s > 0 ==> ls[edit_leaf(ls, s)].1 == old(self).attrs()[s - 1]
                &&& final(self).leaves() == replace_leaves(ls, s, e, new_cells@)
            }),
    {
        let ghost pre = *old(self);
        let len = self.len();
        let start = if range.start <= len {
            range.start
        } else {
            len
        };
        let end = if range.end <= start {
            start
        } else if range.end <= len {
            range.end
        } else {
            len
        };
        let (leaf_offset, found) = self.find_leaf(start);
        let ghost k = pre.lo_of(found.0 as int);
        proof {
            reveal(AttributedRope::wf);
            reveal(AttributedRope::wf_order);
            reveal(AttributedRope::wf_spans);
            reveal(AttributedRope::wf_leaf_slots);
            assert(0 <= k < pre.hi_of(found.0 as int));
            lemma_edit_leaf_unique(pre.leaves(), start as int, k);
            assert(pre.leaves()[k] == pre.leaf_data(found.0 as int));
            lemma_flat_split(pre.leaves(), k);
            if start > 0 {
                let st = leaf_start(pre.leaves(), k) as int;
                lemma_flat_index(pre.leaves(), k, start - 1 - st);
            }
        }
        let mut leaf_node = found;
        let position_in_leaf = start - leaf_offset;
        if self.nodes[leaf_node.idx()].len() - position_in_leaf > SPLIT_LENGTH {
            leaf_node = self.split(leaf_node, position_in_leaf);
            proof {
                lemma_flat_divide(pre.leaves(), k, position_in_leaf as int);
                assert(self.leaves()[k] == self.leaf_data(leaf_node.0 as int)) by {
                    reveal(AttributedRope::wf);
                    reveal(AttributedRope::wf_order);
                    reveal(AttributedRope::wf_spans);
                    reveal(AttributedRope::wf_leaf_slots);
                }
                assert(self.leaves()[k] == (pre.leaves()[k].0.take(position_in_leaf as int), pre.leaves()[k].1));
                assert(self.lo_of(leaf_node.0 as int) == k);
                assert(pre.leaves()[k].0.take(position_in_leaf as int).len() == position_in_leaf);
            }
        }
        self.replace_leaf(start, end, leaf_offset, leaf_node, new_cells);
        proof {
            lemma_flat_lens(self.leaves());
        }
    }

    /// Reads the cells in a range of the rope (clamped to the rope).
    pub fn read_cells(&self, range: Range<usize>) -> (r: Vec<Cell>)
        requires
            self.wf(),
        ensures
            ({
                let (s, e) = clamp_range(range, self.cells().len());
                r@ == self.cells().subrange(s, e)
            }),
    {
        let len = self.len();
        let start = if range.start <= len {
            range.start
        } else {
            len
        };
        let end = if range.end <= start {
            start
        } else if range.end <= len {
            range.end
        } else {
            len
        };
        let (offset, leaf) = self.find_leaf(start);
        let mut result: Vec<Cell> = Vec::new();
        let mut cur = leaf;
        let mut pos: usize = start - offset;
        let mut remaining: usize = end - start;
        proof {
            reveal(AttributedRope::wf);
            reveal(AttributedRope::wf_order);
            reveal(AttributedRope::wf_spans);
            reveal(AttributedRope::wf_leaf_slots);
            let k = self.lo_of(leaf.0 as int);
            assert(self.leaves()[k] == self.leaf_data(leaf.0 as int));
            lemma_flat_split(self.leaves(), k);
        }
        loop
            invariant
                self.wf(),
                self.live(cur.0 as int),
                self.node(cur.0 as int) is Leaf,
                leaf_start(self.leaves(), self.lo_of(cur.0 as int)) + pos == start + result@.len(),
                pos <= self.leaf_data(cur.0 as int).0.len(),
                result@ == self.cells().subrange(start as int, start + result@.len()),
                result@.len() + remaining == end - start,
                end <= self.cells().len(),
            ensures
                result@ == self.cells().subrange(start as int, end as int),
            decreases remaining, self.order@.len() - self.lo_of(cur.0 as int),
        {
            if remaining == 0 {
                break;
            }
            let ghost k = self.lo_of(cur.0 as int);
            proof {
                reveal(AttributedRope::wf);
                reveal(AttributedRope::wf_order);
                reveal(AttributedRope::wf_spans);
                reveal(AttributedRope::wf_leaf_slots);
                assert(0 <= k < self.order@.len());
                assert(self.leaves()[k] == self.leaf_data(cur.0 as int));
                lemma_flat_split(self.leaves(), k);
            }
            match &self.nodes[cur.idx()] {
                RopeNode::Leaf(_, cells, _) => {
                    if pos < cells.len() {
                        let cell = cells[pos];
                        proof {
                            lemma_flat_index(self.leaves(), k, pos as int);
                        }
                        result.push(cell);
                        pos = pos + 1;
                        remaining = remaining - 1;
                        proof {
                            assert(result@ =~= self.cells().subrange(start as int, start + result@.len()));
                        }
                    } else {
                        match self.next_leaf_to_the_right(cur) {
                            Some(next) => {
                                proof {
                                    assert(self.lo_of(next.0 as int) == k + 1);
                                    assert(self.live(next.0 as int));
                                }
                                cur = next;
                                pos = 0;
                            },
                            None => {
                                proof {
                                    lemma_leaf_start_end(self.leaves());
                                    assert(false);
                                }
                                break;
                            },
                        }
                    }
                },
                _ => {
                    proof {
                        assert(false);
                    }
                    break;
                },
            }
        }
        result
    }

    /// The attribute at a position and the extent of its run: from the
    /// start of the leaf that holds the position, rightward over the leaves
    /// that carry an equal attribute. A position past the end reads the last
    /// cell.
    pub fn read_attributes(&self, pos: usize) -> (r: (&Attribute, Range<usize>))
        requires
            self.wf(),
            vstd::laws_eq::obeys_concrete_eq::<Attribute>(),
        ensures
            ({
                let ls = self.leaves();
                let len = self.cells().len();
                let p = if pos < len { pos as int } else { len - 1 };
                let k = edit_leaf(ls, p + 1);
                &&& 0 <= k < ls.len()
                &&& *r.0 == ls[k].1
                &&& r.1.start == leaf_start(ls, k)
                &&& r.1.end == leaf_start(ls, run_end(ls, k))
                &&& len == 0 ==> r.1.start == 0 && r.1.end == 0
                &&& len > 0 ==> {
                    &&& r.1.start <= p < r.1.end <= len
                    &&& *r.0 == self.attrs()[p]
                    &&& forall|q: int| r.1.start <= q < r.1.end ==> #[trigger] self.attrs()[q] == *r.0
                }
            }),
    {
        let len = self.len();
        let query = if len == 0 {
            0
        } else if pos < len {
            pos + 1
        } else {
            len
        };
        let (offset, leaf) = self.find_leaf(query);
        let ghost ls = self.leaves();
        let ghost k = self.lo_of(leaf.0 as int);
        proof {
            reveal(AttributedRope::wf);
            reveal(AttributedRope::wf_order);
            reveal(AttributedRope::wf_spans);
            reveal(AttributedRope::wf_leaf_slots);
            assert(0 <= k < self.order@.len());
            assert(ls[k] == self.leaf_data(leaf.0 as int));
            lemma_flat_split(ls, k);
            lemma_flat_lens(ls);
            lemma_edit_leaf_unique(ls, query as int, k);
            if len == 0 {
                lemma_leaf_start_mono(ls, 0, k);
                assert(ls.take(0) =~= Seq::<(Seq<Cell>, Attribute)>::empty());
            }
        }
        let attr = match &self.nodes[leaf.idx()] {
            RopeNode::Leaf(_, _, attr) => attr,
            _ => vstd::pervasive::unreached(),
        };
        let mut end = offset + self.nodes[leaf.idx()].len();
        let mut cur = leaf;
        proof {
            reveal(vstd::laws_eq::obeys_concrete_eq);
            assert forall|q: int| offset <= q < end implies #[trigger] self.attrs()[q] == *attr by {
                lemma_flat_index(ls, k, q - offset);
            }
            lemma_leaf_start_mono(ls, k + 1, ls.len() as int);
            lemma_leaf_start_end(ls);
            assert(ls.take(0) =~= Seq::<(Seq<Cell>, Attribute)>::empty());
        }
        loop
            invariant
                self.wf(),
                ls == self.leaves(),
                0 <= k < ls.len(),
                *attr == ls[k].1,
                self.live(cur.0 as int),
                self.node(cur.0 as int) is Leaf,
                k <= self.lo_of(cur.0 as int) < ls.len(),
                end == leaf_start(ls, self.lo_of(cur.0 as int) + 1),
                forall|m: int| k < m <= self.lo_of(cur.0 as int) ==> #[trigger] ls[m].1 == ls[k].1,
                len == self.cells().len(),
                forall|q: int| offset <= q < end ==> #[trigger] self.attrs()[q] == *attr,
                vstd::laws_eq::obeys_concrete_eq::<Attribute>(),
                leaf_start(ls, k + 1) <= end <= len,
            ensures
                end == leaf_start(ls, run_end(ls, k)),
                forall|q: int| offset <= q < end ==> #[trigger] self.attrs()[q] == *attr,
                leaf_start(ls, k + 1) <= end <= len,
            decreases ls.len() - self.lo_of(cur.0 as int),
        {
            let ghost j = self.lo_of(cur.0 as int);
            match self.next_leaf_to_the_right(cur) {
                None => {
                    proof {
                        reveal(AttributedRope::wf);
                        reveal(AttributedRope::wf_leaf_slots);
                        assert(j == ls.len() - 1);
                        lemma_run_end_at(ls, k, k + 1, ls.len() as int);
                    }
                    break;
                },
                Some(next) => {
                    proof {
                        reveal(AttributedRope::wf);
                        reveal(AttributedRope::wf_order);
                        reveal(AttributedRope::wf_spans);
                        reveal(AttributedRope::wf_leaf_slots);
                        assert(self.lo_of(next.0 as int) == j + 1);
                        assert(ls[j + 1] == self.leaf_data(next.0 as int));
                        lemma_flat_split(ls, j + 1);
                        lemma_flat_lens(ls);
                        reveal(vstd::laws_eq::obeys_concrete_eq);
                    }
                    let same = match &self.nodes[next.idx()] {
                        RopeNode::Leaf(_, _, next_attr) => next_attr.eq(attr),
                        _ => false,
                    };
                    if !same {
                        proof {
                            lemma_run_end_at(ls, k, k + 1, j + 1);
                        }
                        break;
                    }
                    let next_len = self.nodes[next.idx()].len();
                    proof {
                        assert forall|q: int| end <= q < end + next_len implies #[trigger] self.attrs()[q] == *attr by {
                            lemma_flat_index(ls, j + 1, q - end);
                        }
                        lemma_leaf_start_mono(ls, j + 2, ls.len() as int);
                        lemma_leaf_start_end(ls);
                        self.lemma_total_fits();
                    }
                    end = end + next_len;
                    cur = next;
                },
            }
        }
        (attr, offset..end)
    }

    /// Gives a leaf a new attribute.
    fn set_leaf_attr(&mut self, leaf_node_idx: RopeNodeIndex, attr: Attribute)
        requires
            old(self).wf(),
            old(self).live(leaf_node_idx.0 as int),
            old(self).node(leaf_node_idx.0 as int) is Leaf,
        ensures
            final(self).wf(),
            final(self).same_shape(*old(self)),
            final(self).leaves() == old(self).leaves().update(
                old(self).lo_of(leaf_node_idx.0 as int),
                (old(self).leaf_data(leaf_node_idx.0 as int).0, attr),
            ),
    {
        let ghost pre = *old(self);
        let ghost idx = leaf_node_idx.0 as int;
        let node = self.nodes[leaf_node_idx.idx()].take();
        match node {
            RopeNode::Leaf(parent, cells, _) => {
                self.nodes.set(leaf_node_idx.idx(), RopeNode::Leaf(parent, cells, attr));
                proof {
                    assert forall|i: int| #[trigger] self.node(i) == self.node(i) && 0 <= i < self.nodes@.len()
                        implies same_links(self.node(i), pre.node(i)) by {
                        if i != idx {
                            assert(self.node(i) == pre.node(i));
                        }
                    }
                    self.lemma_same_shape(pre);
                    reveal(AttributedRope::wf);
                    reveal(AttributedRope::wf_lengths);
                    reveal(AttributedRope::wf_order);
                    reveal(AttributedRope::wf_spans);
                    reveal(AttributedRope::wf_leaf_slots);
                    assert(self.node(idx).spec_len() == pre.node(idx).spec_len());
                    assert forall|i: int| self.live(i) implies #[trigger] self.length_ok_at(i) by {
                        assert(pre.length_ok_at(i));
                        if i != idx {
                            assert(self.node(i) == pre.node(i));
                            reveal(AttributedRope::wf_branches);
                            assert(pre.wf_branch_at(i));
                            match self.node(i) {
                                RopeNode::Branch(b) => {
                                    let l = b.left.0 as int;
                                    let r = b.right.0 as int;
                                    if l != idx {
                                        assert(self.node(l) == pre.node(l));
                                    }
                                    if r != idx {
                                        assert(self.node(r) == pre.node(r));
                                    }
                                },
                                _ => {},
                            }
                        }
                    }
                    let k = pre.lo_of(idx);
                    let expect = pre.leaves().update(k, (pre.leaf_data(idx).0, attr));
                    assert(self.leaves() =~= expect) by {
                        assert forall|j: int| 0 <= j < self.leaves().len() implies self.leaves()[j] == expect[j] by {
                            let i = pre.order@[j];
                            if j != k {
                                assert(pre.lo_of(i) == j);
                                assert(self.node(i) == pre.node(i));
                            }
                        }
                    }
                }
            },
            other => {
                proof {
                    assert(false);
                }
                self.nodes.set(leaf_node_idx.idx(), other);
            },
        }
    }

    /// Sets the attribute of a range of cells (clamped to the rope). Leaves
    /// are split where the range starts or ends inside them.
    #[verifier::rlimit(100)]
    pub fn set_attributes(&mut self, range: Range<usize>, new_attributes: Attribute)
        requires
            old(self).wf(),
            vstd::laws_eq::obeys_concrete_eq::<Attribute>(),
        ensures
            final(self).wf(),
            ({
                let (s, e) = clamp_range(range, old(self).cells().len());
                &&& final(self).cells() == old(self).cells()
                &&& final(self).attrs() == with_attr(old(self).attrs(), s, e, new_attributes)
                &&& final(self).attrs().len() == final(self).cells().len()
            }),
            final(self).leaves().len() <= old(self).leaves().len() + 2,
            ({
                let (s, e) = clamp_range(range, old(self).cells().len());
                final(self).leaves() == set_attr_leaves(old(self).leaves(), s, e, new_attributes)
            }),
    {
        let ghost pre = *old(self);
        let ghost cs = pre.cells();
        let ghost at = pre.attrs();
        let len = self.len();
        let s = if range.start <= len {
            range.start
        } else {
            len
        };
        let end = if range.end <= s {
            s
        } else if range.end <= len {
            range.end
        } else {
            len
        };
        let mut start = s;
        let (off0, leaf0) = self.find_leaf(start);
        let mut leaf_offset = off0;
        let mut leaf = leaf0;
        let ghost mut splits: int = 0;
        let ghost ls0 = pre.leaves();
        let ghost aa = new_attributes;
        let ghost mut j: int = pre.lo_of(leaf0.0 as int);
        let ghost mut piece: bool = false;
        let ghost mut pl: int = 0;
        proof {
            reveal(AttributedRope::wf);
            reveal(AttributedRope::wf_spans);
            assert(0 <= j < ls0.len());
            assert forall|i: int| 0 <= i < j implies #[trigger] attr_pieces(ls0[i], leaf_start(ls0, i) as int, s as int, end as int, aa)
                == seq![ls0[i]] by {
                lemma_flat_split(ls0, i);
                lemma_leaf_start_mono(ls0, i + 1, j);
            }
            lemma_set_attr_untouched(ls0, 0, j, s as int, end as int, aa);
            assert(ls0.take(0) =~= Seq::<(Seq<Cell>, Attribute)>::empty());
            assert(set_attr_leaves(ls0.take(0), s as int, end as int, aa) =~= Seq::<(Seq<Cell>, Attribute)>::empty());
            assert(ls0.subrange(0, j) =~= ls0.take(j));
            assert(ls0 =~= ls0.take(j) + ls0.skip(j));
            lemma_flat_lens(pre.leaves());
            assert(with_attr(at, s as int, s as int, new_attributes) =~= at);
        }
        loop
            invariant_except_break
                0 <= j < ls0.len(),
                ls0 == pre.leaves(),
                aa == new_attributes,
                !piece ==> self.leaves() == set_attr_leaves(ls0.take(j), s as int, end as int, aa) + ls0.skip(j),
                !piece ==> self.lo_of(leaf.0 as int) == set_attr_leaves(ls0.take(j), s as int, end as int, aa).len(),
                !piece ==> leaf_offset == leaf_start(ls0, j),
                !piece ==> start == leaf_offset || start == s,
                piece ==> self.leaves() == set_attr_leaves(ls0.take(j), s as int, end as int, aa) + seq![
                    (ls0[j].0.take(pl), ls0[j].1),
                    (ls0[j].0.skip(pl), ls0[j].1),
                ] + ls0.skip(j + 1),
                piece ==> self.lo_of(leaf.0 as int) == set_attr_leaves(ls0.take(j), s as int, end as int, aa).len() + 1,
                piece ==> 0 < pl < ls0[j].0.len() && ls0[j].1 != aa && start == s && start == leaf_offset && start < end
                    && leaf_offset == leaf_start(ls0, j) + pl,
            invariant
                self.wf(),
                s <= start <= end <= len,
                len == cs.len(),
                cs.len() == at.len(),
                self.cells() == cs,
                self.attrs() == with_attr(at, s as int, start as int, new_attributes),
                self.live(leaf.0 as int),
                self.node(leaf.0 as int) is Leaf,
                leaf_offset == leaf_start(self.leaves(), self.lo_of(leaf.0 as int)),
                leaf_offset <= start <= leaf_start(self.leaves(), self.lo_of(leaf.0 as int) + 1),
                vstd::laws_eq::obeys_concrete_eq::<Attribute>(),
                self.leaves().len() == pre.leaves().len() + splits,
                0 <= splits <= 2,
                splits <= 1 || start == end,
                start != leaf_offset ==> splits == 0 || start == end,
            ensures
                self.wf(),
                self.cells() == cs,
                self.attrs() == with_attr(at, s as int, end as int, new_attributes),
                self.leaves().len() <= pre.leaves().len() + 2,
                self.leaves() == set_attr_leaves(ls0, s as int, end as int, aa),
            decreases end - start, self.order@.len() - self.lo_of(leaf.0 as int), if start == leaf_offset {
                0int
            } else {
                1int
            },
        {
            if start >= end {
                proof {
                    assert(!piece);
                    assert(leaf_start(ls0, j) >= end || s >= end);
                    lemma_set_attr_rest(ls0, j, s as int, end as int, aa);
                }
                break;
            }
            let ghost before = *self;
            let ghost k = self.lo_of(leaf.0 as int);
            let ghost ls = self.leaves();
            proof {
                reveal(AttributedRope::wf);
                reveal(AttributedRope::wf_order);
                reveal(AttributedRope::wf_spans);
                reveal(AttributedRope::wf_leaf_slots);
                reveal(vstd::laws_eq::obeys_concrete_eq);
                assert(0 <= k < self.order@.len());
                assert(self.hi_of(leaf.0 as int) == k + 1);
                assert(ls[k] == self.leaf_data(leaf.0 as int));
                lemma_flat_split(ls, k);
                lemma_flat_lens(ls);
                lemma_leaf_start_mono(ls, k + 1, ls.len() as int);
                if k + 2 <= ls.len() {
                    lemma_leaf_start_mono(ls, k + 1, k + 2);
                }
                lemma_leaf_start_end(ls);
            }
            let ghost x = ls0[j];
            let ghost pp = set_attr_leaves(ls0.take(j), s as int, end as int, aa);
            let ghost st = leaf_start(ls0, j) as int;
            proof {
                lemma_flat_split(ls0, j);
                assert(ls0.skip(j) =~= seq![x] + ls0.skip(j + 1));
                if !piece {
                    assert(ls =~= pp + seq![x] + ls0.skip(j + 1));
                    assert(ls[k] == x);
                } else {
                    assert(ls[k] == (x.0.skip(pl), x.1));
                }
            }
            let leaf_len = self.nodes[leaf.idx()].len();
            let same = match &self.nodes[leaf.idx()] {
                RopeNode::Leaf(_, _, a) => a.eq(&new_attributes),
                _ => false,
            };
            if start >= leaf_offset + leaf_len {
                proof {
                    assert(!piece);
                    assert(attr_pieces(x, st, s as int, end as int, aa) == seq![x]);
                    lemma_set_attr_finish(ls0, j, s as int, end as int, aa, ls);
                }
                leaf_offset = leaf_offset + leaf_len;
                match self.next_leaf_to_the_right(leaf) {
                    Some(next) => {
                        proof {
                            j = j + 1;
                        }
                        leaf = next;
                    },
                    None => {
                        proof {
                            assert(false);
                        }
                        break;
                    },
                }
            } else if same {
                proof {
                    assert(!piece);
                    assert(x.1 == aa);
                    assert(attr_pieces(x, st, s as int, end as int, aa) == seq![x]);
                    lemma_set_attr_finish(ls0, j, s as int, end as int, aa, ls);
                    j = j + 1;
                    assert forall|q: int| start <= q < leaf_offset + leaf_len implies #[trigger] at[q] == new_attributes by {
                        lemma_flat_index(ls, k, q - leaf_offset);
                    }
                    let stop = if leaf_offset + leaf_len < end { leaf_offset + leaf_len } else { end as int };
                    assert(self.attrs() =~= with_attr(at, s as int, stop, new_attributes));
                }
                start = if leaf_offset + leaf_len < end {
                    leaf_offset + leaf_len
                } else {
                    end
                };
                leaf_offset = leaf_offset + leaf_len;
                if start < end {
                    match self.next_leaf_to_the_right(leaf) {
                        Some(next) => {
                            leaf = next;
                        },
                        None => {
                            proof {
                                assert(false);
                            }
                            break;
                        },
                    }
                } else {
                    leaf_offset = leaf_offset - leaf_len;
                    proof {
                        lemma_set_attr_rest(ls0, j, s as int, end as int, aa);
                    }
                    break;
                }
            } else if start != leaf_offset {
                let split_pos = start - leaf_offset;
                let left = self.split(leaf, split_pos);
                proof {
                    lemma_flat_divide(ls, k, split_pos as int);
                    splits = splits + 1;
                }
                match self.next_leaf_to_the_right(left) {
                    Some(next) => {
                        proof {
                            reveal(AttributedRope::wf);
                            reveal(AttributedRope::wf_spans);
                            reveal(AttributedRope::wf_leaf_slots);
                            assert(self.hi_of(left.0 as int) == k + 1);
                        }
                        leaf = next;
                    },
                    None => {
                        proof {
                            assert(false);
                        }
                        break;
                    },
                }
                proof {
                    assert(!piece);
                    pl = split_pos as int;
                    piece = true;
                    assert(self.leaves() =~= pp + seq![(x.0.take(pl), x.1), (x.0.skip(pl), x.1)] + ls0.skip(j + 1));
                }
                leaf_offset = start;
            } else if end < leaf_offset + leaf_len {
                let split_pos = end - leaf_offset;
                let left = self.split(leaf, split_pos);
                let ghost mid = *self;
                proof {
                    lemma_flat_divide(ls, k, split_pos as int);
                    splits = splits + 1;
                    assert(mid.leaves()[k] == mid.leaf_data(left.0 as int)) by {
                        reveal(AttributedRope::wf);
                        reveal(AttributedRope::wf_order);
                        reveal(AttributedRope::wf_spans);
                        reveal(AttributedRope::wf_leaf_slots);
                    }
                    lemma_flat_set_attr(mid.leaves(), k, new_attributes);
                }
                self.set_leaf_attr(left, new_attributes);
                proof {
                    assert(self.attrs() =~= with_attr(at, s as int, end as int, new_attributes));
                    let h = split_pos as int;
                    if !piece {
                        assert(attr_pieces(x, st, s as int, end as int, aa) =~= seq![(x.0.subrange(0, h), aa), (
                            x.0.skip(h),
                            x.1,
                        )]);
                        assert(self.leaves() =~= pp + attr_pieces(x, st, s as int, end as int, aa) + ls0.skip(j + 1));
                    } else {
                        let y = x.0.skip(pl);
                        assert(y.take(h) =~= x.0.subrange(pl, pl + h));
                        assert(y.skip(h) =~= x.0.skip(pl + h));
                        assert(attr_pieces(x, st, s as int, end as int, aa) =~= seq![(x.0.take(pl), x.1), (
                            x.0.subrange(pl, pl + h),
                            aa,
                        ), (x.0.skip(pl + h), x.1)]);
                        assert(self.leaves() =~= pp + attr_pieces(x, st, s as int, end as int, aa) + ls0.skip(j + 1));
                    }
                    lemma_set_attr_finish(ls0, j, s as int, end as int, aa, self.leaves());
                    lemma_set_attr_rest(ls0, j + 1, s as int, end as int, aa);
                }
                start = end;
                leaf = left;
                break;
            } else {
                proof {
                    lemma_flat_set_attr(ls, k, new_attributes);
                }
                self.set_leaf_attr(leaf, new_attributes);
                proof {
                    assert(self.attrs() =~= with_attr(at, s as int, leaf_offset + leaf_len, new_attributes));
                    assert(self.lo_of(leaf.0 as int) == k);
                    assert(leaf_start(self.leaves(), k + 1) == leaf_offset + leaf_len);
                    if !piece {
                        assert(attr_pieces(x, st, s as int, end as int, aa) =~= seq![(x.0.subrange(0, x.0.len() as int), aa)]);
                        assert(x.0.subrange(0, x.0.len() as int) =~= x.0);
                        assert(self.leaves() =~= pp + attr_pieces(x, st, s as int, end as int, aa) + ls0.skip(j + 1));
                    } else {
                        assert(x.0.skip(pl) =~= x.0.subrange(pl, x.0.len() as int));
                        assert(attr_pieces(x, st, s as int, end as int, aa) =~= seq![(x.0.take(pl), x.1), (
                            x.0.subrange(pl, x.0.len() as int),
                            aa,
                        )]);
                        assert(self.leaves() =~= pp + attr_pieces(x, st, s as int, end as int, aa) + ls0.skip(j + 1));
                    }
                    lemma_set_attr_finish(ls0, j, s as int, end as int, aa, self.leaves());
                    j = j + 1;
                    piece = false;
                }
                start = leaf_offset + leaf_len;
                if start < end {
                    leaf_offset = leaf_offset + leaf_len;
                    proof {
                        self.lemma_same_shape(before);
                        reveal(AttributedRope::wf);
                        reveal(AttributedRope::wf_spans);
                        reveal(AttributedRope::wf_leaf_slots);
                        assert(self.hi_of(leaf.0 as int) == k + 1);
                    }
                    match self.next_leaf_to_the_right(leaf) {
                        Some(next) => {
                            proof {
                                lemma_leaf_start_mono(self.leaves(), k + 1, k + 2);
                            }
                            leaf = next;
                        },
                        None => {
                            proof {
                                lemma_leaf_start_end(self.leaves());
                                assert(false);
                            }
                            break;
                        },
                    }
                } else {
                    proof {
                        lemma_set_attr_rest(ls0, j, s as int, end as int, aa);
                    }
                    break;
                }
            }
        }
    }

    /// Inserts an empty leaf at `split_index` within a leaf, to hold cells
    /// with an attribute of their own. Returns the empty leaf, which takes
    /// the attribute of the leaf it was made from.
    fn insert_blank_node(&mut self, leaf_node_idx: RopeNodeIndex, split_index: usize) -> (r: RopeNodeIndex)
        requires
            old(self).wf(),
            old(self).live(leaf_node_idx.0 as int),
            old(self).node(leaf_node_idx.0 as int) is Leaf,
            split_index <= old(self).leaf_data(leaf_node_idx.0 as int).0.len(),
        ensures
            final(self).wf(),
            final(self).cells() == old(self).cells(),
            final(self).attrs() == old(self).attrs(),
            final(self).live(r.0 as int),
            final(self).node(r.0 as int) is Leaf,
            final(self).leaf_data(r.0 as int) == (Seq::<Cell>::empty(), old(self).leaf_data(leaf_node_idx.0 as int).1),
            leaf_start(final(self).leaves(), final(self).lo_of(r.0 as int)) == leaf_start(
                old(self).leaves(),
                old(self).lo_of(leaf_node_idx.0 as int),
            ) + split_index,
            ({
                let bl = blank_leaves(
                    old(self).leaves(),
                    old(self).lo_of(leaf_node_idx.0 as int),
                    split_index as int,
                    old(self).leaf_data(leaf_node_idx.0 as int).1,
                );
                &&& final(self).leaves() == bl.0
                &&& final(self).lo_of(r.0 as int) == bl.1
            }),
    {
        let ghost pre = *old(self);
        let ghost k = pre.lo_of(leaf_node_idx.0 as int);
        let ghost c = pre.leaf_data(leaf_node_idx.0 as int).0;
        let ghost a = pre.leaf_data(leaf_node_idx.0 as int).1;
        proof {
            reveal(AttributedRope::wf);
            reveal(AttributedRope::wf_order);
            reveal(AttributedRope::wf_spans);
            reveal(AttributedRope::wf_leaf_slots);
            assert(pre.leaves()[k] == pre.leaf_data(leaf_node_idx.0 as int));
            lemma_flat_divide(pre.leaves(), k, split_index as int);
        }
        if split_index == 0 {
            let left = self.split(leaf_node_idx, 0);
            proof {
                reveal(AttributedRope::wf);
                reveal(AttributedRope::wf_order);
                reveal(AttributedRope::wf_spans);
                reveal(AttributedRope::wf_leaf_slots);
                assert(self.leaves()[k] == self.leaf_data(left.0 as int));
                assert(c.take(0) =~= Seq::<Cell>::empty());
                assert(c.skip(0) =~= c);
            }
            left
        } else {
            let len = self.nodes[leaf_node_idx.idx()].len();
            let left = self.split(leaf_node_idx, split_index);
            let ghost mid = *self;
            proof {
                reveal(AttributedRope::wf);
                reveal(AttributedRope::wf_spans);
                reveal(AttributedRope::wf_leaf_slots);
                assert(self.hi_of(left.0 as int) == k + 1);
            }
            let right = match self.next_leaf_to_the_right(left) {
                Some(r) => r,
                None => {
                    proof {
                        assert(false);
                    }
                    return left;
                },
            };
            proof {
                reveal(AttributedRope::wf);
                reveal(AttributedRope::wf_order);
                reveal(AttributedRope::wf_spans);
                reveal(AttributedRope::wf_leaf_slots);
                assert(self.lo_of(right.0 as int) == k + 1);
                assert(self.leaves()[k + 1] == self.leaf_data(right.0 as int));
                assert(self.leaves()[k + 1] == (c.skip(split_index as int), a));
            }
            if split_index >= len {
                proof {
                    assert(c.skip(split_index as int) =~= Seq::<Cell>::empty());
                    assert(c.take(split_index as int) =~= c);
                }
                right
            } else {
                let blank = self.split(right, 0);
                proof {
                    lemma_flat_divide(mid.leaves(), k + 1, 0);
                    reveal(AttributedRope::wf);
                    reveal(AttributedRope::wf_order);
                    reveal(AttributedRope::wf_spans);
                    reveal(AttributedRope::wf_leaf_slots);
                    assert(self.leaves()[k + 1] == self.leaf_data(blank.0 as int));
                    assert(c.skip(split_index as int).take(0) =~= Seq::<Cell>::empty());
                    assert(c.skip(split_index as int).skip(0) =~= c.skip(split_index as int));
                    let ml = mid.leaves();
                    assert(ml =~= pre.leaves().take(k) + seq![(c.take(split_index as int), a), (
                        c.skip(split_index as int),
                        a,
                    )] + pre.leaves().skip(k + 1));
                    assert(self.leaves() =~= pre.leaves().take(k) + seq![
                        (c.take(split_index as int), a),
                        (Seq::<Cell>::empty(), a),
                        (c.skip(split_index as int), a),
                    ] + pre.leaves().skip(k + 1));
                }
                blank
            }
        }
    }

    /// Replaces a range of cells (clamped to the rope) and gives the new
    /// cells the attribute `new_attributes`.
    #[verifier::rlimit(100)]
    pub fn replace_attributes(&mut self, range: Range<usize>, new_cells: Vec<Cell>, new_attributes: Attribute)
        requires
            old(self).wf(),
            vstd::laws_eq::obeys_concrete_eq::<Attribute>(),
            old(self).cells().len() + new_cells@.len() <= usize::MAX,
        ensures
            final(self).wf(),
            ({
                let (s, e) = clamp_range(range, old(self).cells().len());
                &&& final(self).cells() == old(self).cells().take(s) + new_cells@ + old(self).cells().skip(e)
                &&& final(self).attrs() == old(self).attrs().take(s) + Seq::new(
                    new_cells@.len(),
                    |_i: int| new_attributes,
                ) + old(self).attrs().skip(e)
                &&& final(self).attrs().len() == final(self).cells().len()
                &&& final(self).leaves() == replace_attr_leaves(old(self).leaves(), s, e, new_cells@, new_attributes)
            }),
    {
        let ghost pre = *old(self);
        let len = self.len();
        let start = if range.start <= len {
            range.start
        } else {
            len
        };
        let end = if range.end <= start {
            start
        } else if range.end <= len {
            range.end
        } else {
            len
        };
        let (leaf_offset, leaf) = self.find_leaf(start);
        let ghost ls = pre.leaves();
        let ghost k = pre.lo_of(leaf.0 as int);
        proof {
            reveal(AttributedRope::wf);
            reveal(AttributedRope::wf_order);
            reveal(AttributedRope::wf_spans);
            reveal(AttributedRope::wf_leaf_slots);
            reveal(vstd::laws_eq::obeys_concrete_eq);
            assert(0 <= k < pre.hi_of(leaf.0 as int));
            lemma_edit_leaf_unique(ls, start as int, k);
            assert(ls[k] == pre.leaf_data(leaf.0 as int));
            lemma_flat_split(ls, k);
            lemma_flat_lens(ls);
        }
        let leaf_len = self.nodes[leaf.idx()].len();
        let same = match &self.nodes[leaf.idx()] {
            RopeNode::Leaf(_, _, a) => a.eq(&new_attributes),
            _ => false,
        };
        if same {
            self.replace(start..end, new_cells);
        } else if leaf_offset == start && leaf_len < end - start {
            self.set_leaf_attr(leaf, new_attributes);
            let ghost mid = *self;
            proof {
                lemma_flat_set_attr(ls, k, new_attributes);
                let ls2 = mid.leaves();
                lemma_edit_leaf_unique(ls2, start as int, k);
                let at = pre.attrs();
                let at2 = mid.attrs();
                assert(at2.take(start as int) =~= at.take(start as int));
                assert(at2.skip(end as int) =~= at.skip(end as int));
            }
            self.replace(start..end, new_cells);
        } else {
            let blank = self.insert_blank_node(leaf, start - leaf_offset);
            let ghost mid = *self;
            proof {
                reveal(AttributedRope::wf);
                reveal(AttributedRope::wf_order);
                reveal(AttributedRope::wf_spans);
                reveal(AttributedRope::wf_leaf_slots);
                let kb = mid.lo_of(blank.0 as int);
                assert(mid.leaves()[kb] == mid.leaf_data(blank.0 as int));
                lemma_flat_set_attr(mid.leaves(), kb, new_attributes);
                lemma_flat_split(mid.leaves(), kb);
            }
            self.set_leaf_attr(blank, new_attributes);
            proof {
                let kb = mid.lo_of(blank.0 as int);
                self.lemma_same_shape(mid);
                assert(self.attrs() =~= mid.attrs());
                assert(self.leaf_data(blank.0 as int).1 == new_attributes) by {
                    reveal(AttributedRope::wf);
                    reveal(AttributedRope::wf_order);
                    reveal(AttributedRope::wf_spans);
                    reveal(AttributedRope::wf_leaf_slots);
                    assert(self.leaves()[kb] == self.leaf_data(blank.0 as int));
                }
                lemma_flat_split(self.leaves(), kb);
            }
            proof {
                let kb = mid.lo_of(blank.0 as int);
                let bl = blank_leaves(ls, k, start - leaf_offset, ls[k].1);
                assert(self.leaves() =~= bl.0.update(kb, (Seq::<Cell>::empty(), new_attributes)));
                assert(bl.0.update(kb, (Seq::<Cell>::empty(), new_attributes)) =~= blank_leaves(
                    ls,
                    k,
                    start - leaf_offset,
                    new_attributes,
                ).0);
                assert(self.lo_of(blank.0 as int) == kb);
                assert(self.leaf_data(blank.0 as int).0.len() == 0);
            }
            self.replace_leaf(start, end, start, blank, new_cells);
        }
        proof {
            lemma_flat_lens(self.leaves());
        }
    }

    /// Performs an editing action on the rope.
    pub fn edit(&mut self, action: RopeAction<Cell, Attribute>)
        requires
            old(self).wf(),
            vstd::laws_eq::obeys_concrete_eq::<Attribute>(),
            old(self).cells().len() + action.added() <= usize::MAX,
        ensures
            final(self).wf(),
            old(self).edit_done(*final(self), action),
    {
        match action {
            RopeAction::Replace(range, new_cells) => {
                self.replace(range, new_cells);
            },
            RopeAction::SetAttributes(range, new_attributes) => {
                self.set_attributes(range, new_attributes);
            },
            RopeAction::ReplaceAttributes(range, new_cells, new_attributes) => {
                self.replace_attributes(range, new_cells, new_attributes);
            },
        }
    }

    /// Splits the leaf in which an edit at `pos` would take place, at `pos`.
    /// The cells and their attributes are unchanged.
    pub fn split_at(&mut self, pos: usize)
        requires
            old(self).wf(),
        ensures
            final(self).wf(),
            final(self).cells() == old(self).cells(),
            final(self).attrs() == old(self).attrs(),
            ({
                let ls = old(self).leaves();
                let p = if pos <= old(self).cells().len() { pos as int } else { old(self).cells().len() as int };
                let k = edit_leaf(ls, p);
                let t = p - leaf_start(ls, k);
                final(self).leaves() == ls.take(k) + seq![(ls[k].0.take(t), ls[k].1), (ls[k].0.skip(t), ls[k].1)]
                    + ls.skip(k + 1)
            }),
    {
        let len = self.len();
        let pos = if pos <= len {
            pos
        } else {
            len
        };
        let (offset, leaf) = self.find_leaf(pos);
        proof {
            reveal(AttributedRope::wf);
            reveal(AttributedRope::wf_order);
            reveal(AttributedRope::wf_spans);
            reveal(AttributedRope::wf_leaf_slots);
            let k = self.lo_of(leaf.0 as int);
            assert(0 <= k < self.hi_of(leaf.0 as int));
            assert(self.leaves()[k] == self.leaf_data(leaf.0 as int));
            lemma_flat_split(self.leaves(), k);
            lemma_flat_divide(self.leaves(), k, pos - offset);
            lemma_edit_leaf_unique(self.leaves(), pos as int, k);
        }
        self.split(leaf, pos - offset);
    }

    /// Joins the leaf in which an edit at `pos` would take place to the leaf
    /// on its right. The cells are unchanged.
    pub fn join_at(&mut self, pos: usize)
        requires
            old(self).wf(),
        ensures
            final(self).wf(),
            final(self).cells() == old(self).cells(),
            ({
                let ls = old(self).leaves();
                let p = if pos <= old(self).cells().len() { pos as int } else { old(self).cells().len() as int };
                let k = edit_leaf(ls, p);
                &&& k + 1 < ls.len() ==> final(self).leaves() == ls.take(k) + seq![
                    (ls[k].0 + ls[k + 1].0, ls[k + 1].1),
                ] + ls.skip(k + 2)
                &&& k + 1 >= ls.len() ==> final(self).leaves() == ls
            }),
    {
        let len = self.len();
        let pos = if pos <= len {
            pos
        } else {
            len
        };
        let (_offset, leaf) = self.find_leaf(pos);
        proof {
            reveal(AttributedRope::wf);
            reveal(AttributedRope::wf_spans);
            let k = self.lo_of(leaf.0 as int);
            assert(0 <= k < self.hi_of(leaf.0 as int));
            lemma_edit_leaf_unique(self.leaves(), pos as int, k);
        }
        let ghost ls = self.leaves();
        let ghost k = self.lo_of(leaf.0 as int);
        proof {
            reveal(AttributedRope::wf);
            reveal(AttributedRope::wf_spans);
        }
        self.join_to_right(leaf);
        proof {
            if k + 1 < ls.len() {
                let ls2 = ls.take(k) + seq![(ls[k].0 + ls[k + 1].0, ls[k + 1].1)] + ls.skip(k + 2);
                lemma_flat_split(ls, k);
                lemma_flat_split(ls, k + 1);
                lemma_flat_split(ls2, k);
                assert(ls2.take(k) =~= ls.take(k));
                assert(ls2.skip(k + 1) =~= ls.skip(k + 2));
                assert(ls.take(k + 1).len() == k + 1);
                assert(flat_cells(ls2) =~= flat_cells(ls));
            }
        }
    }
}

impl<Cell, Attribute> AttributedRope<Cell, Attribute> {
    /// After a split: the tree is well-formed again, and the leaf at `k` has
    /// become two leaves.
    /// How the state after a split relates to the state before it.
    #[verifier::opaque]
    spec fn split_step(&self, pre: Self, idx: int, l: int, rr: int, k: int, t: int) -> bool {
        &&& pre.wf()
        &&& pre.live(idx)
        &&& pre.node(idx) is Leaf
        &&& k == pre.lo_of(idx)
        &&& 0 <= t <= pre.leaf_data(idx).0.len()
        &&& l != rr
        &&& l != idx
        &&& rr != idx
        &&& !pre.live(l)
        &&& !pre.live(rr)
        &&& self.slot_ok(l)
        &&& self.slot_ok(rr)
        &&& forall|i: int| #[trigger] self.slot_ok(i) && i != l && i != rr ==> pre.slot_ok(i)
        &&& forall|i: int| #[trigger] pre.slot_ok(i) ==> self.slot_ok(i)
        &&& forall|i: int|
                    pre.slot_ok(i) && i != idx && i != l && i != rr ==> #[trigger] self.node(i)
                        == pre.node(i)
        &&& self.node(idx) == RopeNode::<Cell, Attribute>::Branch(
                    RopeBranch {
                        left: RopeNodeIndex(l as usize),
                        right: RopeNodeIndex(rr as usize),
                        length: pre.leaf_data(idx).0.len() as usize,
                        parent: pre.node(idx).parent_of(),
                    },
                )
        &&& self.node(l) is Leaf
        &&& self.node(rr) is Leaf
        &&& self.leaf_data(l) == (pre.leaf_data(idx).0.take(t), pre.leaf_data(idx).1)
        &&& self.leaf_data(rr) == (pre.leaf_data(idx).0.skip(t), pre.leaf_data(idx).1)
        &&& self.node(l).parent_of() == Some(RopeNodeIndex(idx as usize))
        &&& self.node(rr).parent_of() == Some(RopeNodeIndex(idx as usize))
        &&& self.root_node_idx == pre.root_node_idx
        &&& self.order@ == pre.order@.take(k) + seq![l, rr] + pre.order@.skip(k + 1)
        &&& self.lo_of(l) == k
        &&& self.hi_of(l) == k + 1
        &&& self.lo_of(rr) == k + 1
        &&& self.hi_of(rr) == k + 2
        &&& forall|i: int| i != l && i != rr ==> #[trigger] self.lo_of(i) == shifted(pre.lo_of(i), k)
        &&& forall|i: int| i != l && i != rr ==> #[trigger] self.hi_of(i) == shifted(pre.hi_of(i), k)
        &&& forall|j: int|
                    #![trigger self.free_nodes@[j]]
                    0 <= j < self.free_nodes@.len() ==> pre.free_nodes@.contains(self.free_nodes@[j])
                        && self.free_nodes@[j] != l && self.free_nodes@[j] != rr
        &&& forall|x: usize|
                    pre.free_nodes@.contains(x) && x != l && x != rr ==> #[trigger] self.free_nodes@.contains(x)
        &&& self.free_nodes@.no_duplicates()
    }

    proof fn lemma_split_root(&self, pre: Self, idx: int, l: int, rr: int, k: int, t: int)
        requires
            self.split_step(pre, idx, l, rr, k, t),
        ensures
            self.wf_root(),
    {
        reveal(AttributedRope::wf);
        reveal(AttributedRope::split_step);
        assert(self.nodes.len() == self.nodes@.len());
        assert(pre.nodes.len() == pre.nodes@.len());
        reveal(AttributedRope::wf_root);
        reveal(AttributedRope::wf_spans);
        reveal(AttributedRope::wf_leaf_slots);
        reveal(AttributedRope::wf);
        let n = pre.order@.len();
        assert(self.order@.len() == n + 1);
        assert(pre.wf_spans());
        assert(pre.lo_of(idx) < pre.hi_of(idx));
        assert(pre.hi_of(idx) == k + 1) by {
            assert(pre.wf_leaf_slots());
        }
        // live slots of the new state
        assert forall|i: int| #[trigger] self.live(i) && i != l && i != rr implies pre.live(i) by {
            if i != idx {
                assert(self.node(i) == pre.node(i));
            }
        }
        // order
        assert forall|j: int| 0 <= j < self.order@.len() implies {
            &&& (j < k ==> self.order@[j] == pre.order@[j])
            &&& (j == k ==> self.order@[j] == l)
            &&& (j == k + 1 ==> self.order@[j] == rr)
            &&& (j > k + 1 ==> self.order@[j] == pre.order@[j - 1])
        } by {}
        assert(self.wf_root()) by {
            let root = self.root();
            if root == idx {
                assert(pre.lo_of(root) == 0);
            } else {
                assert(root != l && root != rr);
                assert(self.node(root) == pre.node(root));
            }
        }
    }

    proof fn lemma_split_spans(&self, pre: Self, idx: int, l: int, rr: int, k: int, t: int)
        requires
            self.split_step(pre, idx, l, rr, k, t),
        ensures
            self.wf_spans(),
    {
        reveal(AttributedRope::wf);
        reveal(AttributedRope::split_step);
        assert(self.nodes.len() == self.nodes@.len());
        assert(pre.nodes.len() == pre.nodes@.len());
        reveal(AttributedRope::wf_spans);
        reveal(AttributedRope::wf_leaf_slots);
        reveal(AttributedRope::wf);
        let n = pre.order@.len();
        assert(self.order@.len() == n + 1);
        assert(pre.wf_spans());
        assert(pre.lo_of(idx) < pre.hi_of(idx));
        assert(pre.hi_of(idx) == k + 1) by {
            assert(pre.wf_leaf_slots());
        }
        // live slots of the new state
        assert forall|i: int| #[trigger] self.live(i) && i != l && i != rr implies pre.live(i) by {
            if i != idx {
                assert(self.node(i) == pre.node(i));
            }
        }
        // order
        assert forall|j: int| 0 <= j < self.order@.len() implies {
            &&& (j < k ==> self.order@[j] == pre.order@[j])
            &&& (j == k ==> self.order@[j] == l)
            &&& (j == k + 1 ==> self.order@[j] == rr)
            &&& (j > k + 1 ==> self.order@[j] == pre.order@[j - 1])
        } by {}
        assert(self.wf_spans()) by {
            assert forall|i: int| self.live(i) implies 0 <= self.lo_of(i) < self.hi_of(i) <= self.order@.len() by {
                if i != l && i != rr {
                    assert(pre.live(i));
                    assert(pre.lo_of(i) < pre.hi_of(i) <= n);
                }
            }
        }
    }

    proof fn lemma_split_order(&self, pre: Self, idx: int, l: int, rr: int, k: int, t: int)
        requires
            self.split_step(pre, idx, l, rr, k, t),
        ensures
            self.wf_order(),
    {
        reveal(AttributedRope::wf);
        reveal(AttributedRope::split_step);
        assert(self.nodes.len() == self.nodes@.len());
        assert(pre.nodes.len() == pre.nodes@.len());
        reveal(AttributedRope::wf_spans);
        reveal(AttributedRope::wf_leaf_slots);
        reveal(AttributedRope::wf_order);
        reveal(AttributedRope::wf);
        let n = pre.order@.len();
        assert(self.order@.len() == n + 1);
        assert(pre.wf_spans());
        assert(pre.lo_of(idx) < pre.hi_of(idx));
        assert(pre.hi_of(idx) == k + 1) by {
            assert(pre.wf_leaf_slots());
        }
        // live slots of the new state
        assert forall|i: int| #[trigger] self.live(i) && i != l && i != rr implies pre.live(i) by {
            if i != idx {
                assert(self.node(i) == pre.node(i));
            }
        }
        // order
        assert forall|j: int| 0 <= j < self.order@.len() implies {
            &&& (j < k ==> self.order@[j] == pre.order@[j])
            &&& (j == k ==> self.order@[j] == l)
            &&& (j == k + 1 ==> self.order@[j] == rr)
            &&& (j > k + 1 ==> self.order@[j] == pre.order@[j - 1])
        } by {}
        assert(self.wf_order()) by {
            assert forall|j: int| 0 <= j < self.order@.len() implies self.slot_ok(#[trigger] self.order@[j])
                && self.node(self.order@[j]) is Leaf && self.lo_of(self.order@[j]) == j by {
                if j < k {
                    let i = pre.order@[j];
                    assert(pre.wf_order());
                    assert(pre.lo_of(i) == j);
                    assert(i != idx);
                    assert(pre.live(i));
                    assert(self.node(i) == pre.node(i));
                } else if j > k + 1 {
                    let i = pre.order@[j - 1];
                    assert(pre.wf_order());
                    assert(pre.lo_of(i) == j - 1);
                    assert(i != idx);
                    assert(pre.live(i));
                    assert(self.node(i) == pre.node(i));
                }
            }
        }
    }

    proof fn lemma_split_leaf_slots(&self, pre: Self, idx: int, l: int, rr: int, k: int, t: int)
        requires
            self.split_step(pre, idx, l, rr, k, t),
        ensures
            self.wf_leaf_slots(),
    {
        reveal(AttributedRope::wf);
        reveal(AttributedRope::split_step);
        assert(self.nodes.len() == self.nodes@.len());
        assert(pre.nodes.len() == pre.nodes@.len());
        reveal(AttributedRope::wf_spans);
        reveal(AttributedRope::wf_leaf_slots);
        reveal(AttributedRope::wf);
        let n = pre.order@.len();
        assert(self.order@.len() == n + 1);
        assert(pre.wf_spans());
        assert(pre.lo_of(idx) < pre.hi_of(idx));
        assert(pre.hi_of(idx) == k + 1) by {
            assert(pre.wf_leaf_slots());
        }
        // live slots of the new state
        assert forall|i: int| #[trigger] self.live(i) && i != l && i != rr implies pre.live(i) by {
            if i != idx {
                assert(self.node(i) == pre.node(i));
            }
        }
        // order
        assert forall|j: int| 0 <= j < self.order@.len() implies {
            &&& (j < k ==> self.order@[j] == pre.order@[j])
            &&& (j == k ==> self.order@[j] == l)
            &&& (j == k + 1 ==> self.order@[j] == rr)
            &&& (j > k + 1 ==> self.order@[j] == pre.order@[j - 1])
        } by {}
        assert(self.wf_leaf_slots()) by {
            assert forall|i: int| self.live(i) && #[trigger] self.node(i) is Leaf implies self.hi_of(i)
                == self.lo_of(i) + 1 && self.order@[self.lo_of(i)] == i by {
                if i != l && i != rr {
                    assert(pre.live(i));
                    assert(i != idx);
                    assert(self.node(i) == pre.node(i));
                    assert(pre.wf_leaf_slots());
                    assert(pre.node(i) is Leaf);
                    let j = pre.lo_of(i);
                    assert(pre.order@[j] == i);
                    assert(j != k);
                }
            }
        }
    }

    proof fn lemma_split_branches(&self, pre: Self, idx: int, l: int, rr: int, k: int, t: int)
        requires
            self.split_step(pre, idx, l, rr, k, t),
        ensures
            self.wf_branches(),
    {
        reveal(AttributedRope::wf);
        reveal(AttributedRope::split_step);
        assert(self.nodes.len() == self.nodes@.len());
        assert(pre.nodes.len() == pre.nodes@.len());
        reveal(AttributedRope::wf_spans);
        reveal(AttributedRope::wf_leaf_slots);
        reveal(AttributedRope::wf_branches);
        reveal(AttributedRope::wf);
        let n = pre.order@.len();
        assert(self.order@.len() == n + 1);
        assert(pre.wf_spans());
        assert(pre.lo_of(idx) < pre.hi_of(idx));
        assert(pre.hi_of(idx) == k + 1) by {
            assert(pre.wf_leaf_slots());
        }
        // live slots of the new state
        assert forall|i: int| #[trigger] self.live(i) && i != l && i != rr implies pre.live(i) by {
            if i != idx {
                assert(self.node(i) == pre.node(i));
            }
        }
        // order
        assert forall|j: int| 0 <= j < self.order@.len() implies {
            &&& (j < k ==> self.order@[j] == pre.order@[j])
            &&& (j == k ==> self.order@[j] == l)
            &&& (j == k + 1 ==> self.order@[j] == rr)
            &&& (j > k + 1 ==> self.order@[j] == pre.order@[j - 1])
        } by {}
        assert(self.wf_branches()) by {
            assert forall|i: int| self.live(i) implies #[trigger] self.wf_branch_at(i) by {
                if i == idx {
                    assert(self.lo_of(idx) == k);
                    assert(self.hi_of(idx) == k + 2);
                    assert(self.live(l));
                    assert(self.live(rr));
                } else if i != l && i != rr {
                    assert(pre.live(i));
                    assert(self.node(i) == pre.node(i));
                    assert(pre.wf_branch_at(i));
                    match pre.node(i) {
                        RopeNode::Branch(b) => {
                            let bl = b.left.0 as int;
                            let br = b.right.0 as int;
                            assert(pre.live(bl) && pre.live(br));
                            assert(bl != l && bl != rr && br != l && br != rr);
                            if bl != idx {
                                assert(self.node(bl) == pre.node(bl));
                            }
                            if br != idx {
                                assert(self.node(br) == pre.node(br));
                            }
                        },
                        _ => {},
                    }
                }
            }
        }
    }

    proof fn lemma_split_lengths(&self, pre: Self, idx: int, l: int, rr: int, k: int, t: int)
        requires
            self.split_step(pre, idx, l, rr, k, t),
        ensures
            self.wf_lengths(),
    {
        reveal(AttributedRope::wf);
        reveal(AttributedRope::split_step);
        assert(self.nodes.len() == self.nodes@.len());
        match pre.node(idx) {
            RopeNode::Leaf(_, cells, _) => {
                assert(cells.len() == cells@.len());
            },
            _ => {},
        }
        assert(pre.nodes.len() == pre.nodes@.len());
        reveal(AttributedRope::wf_spans);
        reveal(AttributedRope::wf_leaf_slots);
        reveal(AttributedRope::wf_branches);
        reveal(AttributedRope::wf_lengths);
        reveal(AttributedRope::wf);
        let n = pre.order@.len();
        assert(self.order@.len() == n + 1);
        assert(pre.wf_spans());
        assert(pre.lo_of(idx) < pre.hi_of(idx));
        assert(pre.hi_of(idx) == k + 1) by {
            assert(pre.wf_leaf_slots());
        }
        // live slots of the new state
        assert forall|i: int| #[trigger] self.live(i) && i != l && i != rr implies pre.live(i) by {
            if i != idx {
                assert(self.node(i) == pre.node(i));
            }
        }
        // order
        assert forall|j: int| 0 <= j < self.order@.len() implies {
            &&& (j < k ==> self.order@[j] == pre.order@[j])
            &&& (j == k ==> self.order@[j] == l)
            &&& (j == k + 1 ==> self.order@[j] == rr)
            &&& (j > k + 1 ==> self.order@[j] == pre.order@[j - 1])
        } by {}
        assert(self.wf_lengths()) by {
            assert forall|i: int| self.live(i) implies #[trigger] self.length_ok_at(i) by {
                if i != l && i != rr && i != idx {
                    assert(pre.live(i));
                    assert(self.node(i) == pre.node(i));
                    assert(pre.wf_branch_at(i));
                    assert(pre.length_ok_at(i));
                    match pre.node(i) {
                        RopeNode::Branch(b) => {
                            let bl = b.left.0 as int;
                            let br = b.right.0 as int;
                            assert(pre.live(bl) && pre.live(br));
                            assert(bl != l && bl != rr && br != l && br != rr);
                            if bl != idx {
                                assert(self.node(bl) == pre.node(bl));
                            }
                            if br != idx {
                                assert(self.node(br) == pre.node(br));
                            }
                        },
                        _ => {},
                    }
                } else if i == idx {
                    let c = pre.leaf_data(idx).0;
                    assert(c.take(t).len() + c.skip(t).len() == c.len());
                }
            }
        }
    }

    proof fn lemma_split_parents(&self, pre: Self, idx: int, l: int, rr: int, k: int, t: int)
        requires
            self.split_step(pre, idx, l, rr, k, t),
        ensures
            self.wf_parents(),
    {
        reveal(AttributedRope::wf);
        reveal(AttributedRope::split_step);
        assert(self.nodes.len() == self.nodes@.len());
        assert(pre.nodes.len() == pre.nodes@.len());
        reveal(AttributedRope::wf_root);
        reveal(AttributedRope::wf_spans);
        reveal(AttributedRope::wf_leaf_slots);
        reveal(AttributedRope::wf_parents);
        reveal(AttributedRope::wf);
        let n = pre.order@.len();
        assert(self.order@.len() == n + 1);
        assert(pre.wf_spans());
        assert(pre.lo_of(idx) < pre.hi_of(idx));
        assert(pre.hi_of(idx) == k + 1) by {
            assert(pre.wf_leaf_slots());
        }
        // live slots of the new state
        assert forall|i: int| #[trigger] self.live(i) && i != l && i != rr implies pre.live(i) by {
            if i != idx {
                assert(self.node(i) == pre.node(i));
            }
        }
        // order
        assert forall|j: int| 0 <= j < self.order@.len() implies {
            &&& (j < k ==> self.order@[j] == pre.order@[j])
            &&& (j == k ==> self.order@[j] == l)
            &&& (j == k + 1 ==> self.order@[j] == rr)
            &&& (j > k + 1 ==> self.order@[j] == pre.order@[j - 1])
        } by {}
        assert(self.wf_parents()) by {
            assert forall|i: int| self.live(i) implies #[trigger] self.parent_ok_at(i) by {
                assert(pre.live(pre.root()));
                if i == l || i == rr {
                    assert(i != self.root());
                    assert(self.node(idx) is Branch);
                    assert(self.slot_ok(idx));
                } else {
                    assert(pre.live(i));
                    if i != idx {
                        assert(self.node(i) == pre.node(i));
                    }
                    assert(pre.parent_ok_at(i));
                    if i != self.root() {
                        let p = pre.node(i).parent_of().unwrap().0 as int;
                        assert(pre.slot_ok(p));
                        assert(pre.node(p) is Branch);
                        assert(p != idx);
                        assert(pre.live(p));
                        assert(p != l && p != rr);
                        assert(self.node(p) == pre.node(p));
                    }
                }
            }
        }
    }

    proof fn lemma_split_free(&self, pre: Self, idx: int, l: int, rr: int, k: int, t: int)
        requires
            self.split_step(pre, idx, l, rr, k, t),
        ensures
            self.wf_free(),
    {
        reveal(AttributedRope::wf);
        reveal(AttributedRope::split_step);
        assert(self.nodes.len() == self.nodes@.len());
        assert(pre.nodes.len() == pre.nodes@.len());
        reveal(AttributedRope::wf_spans);
        reveal(AttributedRope::wf_leaf_slots);
        reveal(AttributedRope::wf_free);
        reveal(AttributedRope::wf);
        let n = pre.order@.len();
        assert(self.order@.len() == n + 1);
        assert(pre.wf_spans());
        assert(pre.lo_of(idx) < pre.hi_of(idx));
        assert(pre.hi_of(idx) == k + 1) by {
            assert(pre.wf_leaf_slots());
        }
        // live slots of the new state
        assert forall|i: int| #[trigger] self.live(i) && i != l && i != rr implies pre.live(i) by {
            if i != idx {
                assert(self.node(i) == pre.node(i));
            }
        }
        // order
        assert forall|j: int| 0 <= j < self.order@.len() implies {
            &&& (j < k ==> self.order@[j] == pre.order@[j])
            &&& (j == k ==> self.order@[j] == l)
            &&& (j == k + 1 ==> self.order@[j] == rr)
            &&& (j > k + 1 ==> self.order@[j] == pre.order@[j - 1])
        } by {}
        assert(self.wf_free()) by {
            assert forall|j: int| 0 <= j < self.free_nodes@.len() implies self.slot_ok(
                #[trigger] self.free_nodes@[j] as int,
            ) && self.node(self.free_nodes@[j] as int) is Empty by {
                let x = self.free_nodes@[j];
                assert(pre.free_nodes@.contains(x));
                let jj = choose|jj: int| 0 <= jj < pre.free_nodes@.len() && pre.free_nodes@[jj] == x;
                assert(pre.slot_ok(x as int));
                assert(pre.node(x as int) is Empty);
                assert(x as int != idx);
                assert(self.node(x as int) == pre.node(x as int));
            }
            assert forall|i: int| self.slot_ok(i) && #[trigger] self.node(i) is Empty implies self.free_nodes@.contains(
                i as usize,
            ) by {
                assert(i != l && i != rr && i != idx);
                assert(pre.slot_ok(i));
                assert((i as usize) as int == i);
                assert(self.node(i) == pre.node(i));
                assert(pre.free_nodes@.contains(i as usize));
            }
        }
    }

    proof fn lemma_split_leaves(&self, pre: Self, idx: int, l: int, rr: int, k: int, t: int)
        requires
            self.split_step(pre, idx, l, rr, k, t),
        ensures
            self.leaves() == pre.leaves().take(k) + seq![
                (pre.leaf_data(idx).0.take(t), pre.leaf_data(idx).1),
                (pre.leaf_data(idx).0.skip(t), pre.leaf_data(idx).1),
            ] + pre.leaves().skip(k + 1),
    {
        reveal(AttributedRope::wf);
        reveal(AttributedRope::split_step);
        assert(self.nodes.len() == self.nodes@.len());
        assert(pre.nodes.len() == pre.nodes@.len());
        reveal(AttributedRope::wf_spans);
        reveal(AttributedRope::wf_leaf_slots);
        reveal(AttributedRope::wf_order);
        let c = pre.leaf_data(idx).0;
        let a = pre.leaf_data(idx).1;
        let expect = pre.leaves().take(k) + seq![(c.take(t), a), (c.skip(t), a)] + pre.leaves().skip(k + 1);
        assert(self.leaves() =~= expect) by {
            assert forall|j: int| 0 <= j < self.leaves().len() implies self.leaves()[j] == expect[j] by {
                assert(pre.wf_order());
                if j < k {
                    let i = pre.order@[j];
                    assert(pre.lo_of(i) == j);
                    assert(i != idx);
                    assert(pre.live(i));
                    assert(self.node(i) == pre.node(i));
                } else if j > k + 1 {
                    let i = pre.order@[j - 1];
                    assert(pre.lo_of(i) == j - 1);
                    assert(i != idx);
                    assert(pre.live(i));
                    assert(self.node(i) == pre.node(i));
                }
            }
        }
    }

    proof fn lemma_split_wf(&self, pre: Self, idx: int, l: int, rr: int, k: int, t: int)
        requires
            self.split_step(pre, idx, l, rr, k, t),
        ensures
            self.wf(),
            self.leaves() == pre.leaves().take(k) + seq![
                (pre.leaf_data(idx).0.take(t), pre.leaf_data(idx).1),
                (pre.leaf_data(idx).0.skip(t), pre.leaf_data(idx).1),
            ] + pre.leaves().skip(k + 1),
    {
        reveal(AttributedRope::wf);
        self.lemma_split_root(pre, idx, l, rr, k, t);
        self.lemma_split_spans(pre, idx, l, rr, k, t);
        self.lemma_split_order(pre, idx, l, rr, k, t);
        self.lemma_split_leaf_slots(pre, idx, l, rr, k, t);
        self.lemma_split_branches(pre, idx, l, rr, k, t);
        self.lemma_split_lengths(pre, idx, l, rr, k, t);
        self.lemma_split_parents(pre, idx, l, rr, k, t);
        self.lemma_split_free(pre, idx, l, rr, k, t);
        self.lemma_split_leaves(pre, idx, l, rr, k, t);
    }
}

impl<Cell, Attribute> AttributedRope<Cell, Attribute> {
    /// The length recorded at the root, which `len` reports.
    pub closed spec fn recorded_len(&self) -> nat {
        self.node(self.root()).spec_len()
    }

    /// Every branch records the sum of the lengths of its two children.
    pub closed spec fn branch_lengths_ok(&self) -> bool {
        forall|i: int| #[trigger] self.live(i) ==> self.length_ok_at(i)
    }

    /// Every node of the tree but the root names as its parent a branch
    /// that has it as a child, and the root has no parent.
    pub closed spec fn parent_links_ok(&self) -> bool {
        &&& self.node(self.root()).parent_of() is None
        &&& forall|i: int| #[trigger] self.live(i) ==> self.parent_ok_at(i)
    }

    /// In a well-formed rope, the length recorded at the root is the number
    /// of cells in all the leaves, and every branch records the sum of the
    /// lengths of its children.
    pub proof fn lemma_lengths_agree(&self)
        requires
            self.wf(),
        ensures
            self.recorded_len() == self.cells().len(),
            self.branch_lengths_ok(),
    {
        self.lemma_root_len();
        reveal(AttributedRope::wf);
        reveal(AttributedRope::wf_lengths);
    }

    /// In a well-formed rope, every node but the root has as its parent a
    /// branch that lists it as a child.
    pub proof fn lemma_parent_links(&self)
        requires
            self.wf(),
        ensures
            self.parent_links_ok(),
    {
        reveal(AttributedRope::wf);
        reveal(AttributedRope::wf_parents);
        reveal(AttributedRope::wf_root);
    }
}

/// Two nodes of the same kind with the same links; their cells, lengths and
/// attributes may differ.
pub open spec fn same_links<Cell, Attribute>(
    a: RopeNode<Cell, Attribute>,
    b: RopeNode<Cell, Attribute>,
) -> bool {
    match (a, b) {
        (RopeNode::Empty, RopeNode::Empty) => true,
        (RopeNode::Leaf(p, _, _), RopeNode::Leaf(q, _, _)) => p == q,
        (RopeNode::Branch(x), RopeNode::Branch(y)) => x.left == y.left && x.right == y.right
            && x.parent == y.parent,
        _ => false,
    }
}

impl<Cell, Attribute> AttributedRope<Cell, Attribute> {
    /// The two arenas hold trees of the same shape.
    pub(crate) open spec fn same_shape(&self, other: Self) -> bool {
        &&& self.nodes@.len() == other.nodes@.len()
        &&& self.root_node_idx == other.root_node_idx
        &&& self.free_nodes@ == other.free_nodes@
        &&& self.order@ == other.order@
        &&& self.lo@ == other.lo@
        &&& self.hi@ == other.hi@
        &&& forall|i: int| #[trigger] self.node(i) == self.node(i) && 0 <= i < self.nodes@.len()
            ==> same_links(self.node(i), other.node(i))
    }

    /// A tree of the same shape as a well-formed one is well-formed but for
    /// the lengths its branches record.
    pub(crate) proof fn lemma_same_shape(&self, pre: Self)
        requires
            pre.wf(),
            self.same_shape(pre),
        ensures
            self.wf_root(),
            self.wf_spans(),
            self.wf_leaf_slots(),
            self.wf_order(),
            self.wf_branches(),
            self.wf_parents(),
            self.wf_free(),
            forall|i: int| #[trigger] self.live(i) <==> pre.live(i),
            forall|i: int| self.slot_ok(i) ==> (#[trigger] self.node(i) is Leaf <==> pre.node(i) is Leaf),
            forall|i: int| self.slot_ok(i) ==> #[trigger] self.node(i).parent_of() == pre.node(i).parent_of(),
    {
        reveal(AttributedRope::wf);
        reveal(AttributedRope::wf_root);
        reveal(AttributedRope::wf_spans);
        reveal(AttributedRope::wf_leaf_slots);
        reveal(AttributedRope::wf_order);
        reveal(AttributedRope::wf_branches);
        reveal(AttributedRope::wf_parents);
        reveal(AttributedRope::wf_free);
        assert forall|i: int| #[trigger] self.live(i) <==> pre.live(i) by {
            if 0 <= i < self.nodes@.len() {
                assert(same_links(self.node(i), pre.node(i)));
            }
        }
        assert forall|i: int| self.slot_ok(i) implies (#[trigger] self.node(i) is Leaf <==> pre.node(i) is Leaf) by {
            assert(same_links(self.node(i), pre.node(i)));
        }
        assert forall|i: int| self.slot_ok(i) implies #[trigger] self.node(i).parent_of() == pre.node(i).parent_of() by {
            assert(same_links(self.node(i), pre.node(i)));
        }
        assert forall|i: int| self.live(i) implies #[trigger] self.wf_branch_at(i) by {
            assert(same_links(self.node(i), pre.node(i)));
            assert(pre.wf_branch_at(i));
            match pre.node(i) {
                RopeNode::Branch(b) => {
                    assert(same_links(self.node(b.left.0 as int), pre.node(b.left.0 as int)));
                    assert(same_links(self.node(b.right.0 as int), pre.node(b.right.0 as int)));
                },
                _ => {},
            }
        }
        assert forall|i: int| self.live(i) implies #[trigger] self.parent_ok_at(i) by {
            assert(same_links(self.node(i), pre.node(i)));
            assert(pre.parent_ok_at(i));
            if i != self.root() {
                let p = pre.node(i).parent_of().unwrap().0 as int;
                assert(same_links(self.node(p), pre.node(p)));
            }
        }
        assert forall|i: int| self.live(i) && #[trigger] self.node(i) is Leaf implies self.hi_of(i)
            == self.lo_of(i) + 1 && self.order@[self.lo_of(i)] == i by {
            assert(same_links(self.node(i), pre.node(i)));
        }
        assert forall|k: int| 0 <= k < self.order@.len() implies self.slot_ok(#[trigger] self.order@[k])
            && self.node(self.order@[k]) is Leaf && self.lo_of(self.order@[k]) == k by {
            assert(same_links(self.node(pre.order@[k]), pre.node(pre.order@[k])));
        }
        assert forall|j: int| 0 <= j < self.free_nodes@.len() implies self.slot_ok(
            #[trigger] self.free_nodes@[j] as int,
        ) && self.node(self.free_nodes@[j] as int) is Empty by {
            assert(same_links(self.node(pre.free_nodes@[j] as int), pre.node(pre.free_nodes@[j] as int)));
        }
        assert forall|i: int| self.slot_ok(i) && #[trigger] self.node(i) is Empty implies self.free_nodes@.contains(
            i as usize,
        ) by {
            assert(same_links(self.node(i), pre.node(i)));
        }
        assert(same_links(self.node(self.root()), pre.node(self.root())));
    }

    /// Once the length of the branch at `pp` is brought up to date, only its
    /// parent may record a stale length.
    proof fn lemma_length_step(&self, prev: Self, pre: Self, pp: int)
        requires
            pre.wf(),
            prev.same_shape(pre),
            self.same_shape(pre),
            self.slot_ok(pp),
            forall|i: int| self.slot_ok(i) && i != pp ==> #[trigger] self.node(i) == prev.node(i),
            self.length_ok_at(pp),
            forall|i: int| prev.live(i) && i != pp ==> #[trigger] prev.length_ok_at(i),
        ensures
            forall|i: int|
                self.live(i) && (self.node(pp).parent_of() is None || i != self.node(pp).parent_of().unwrap().0)
                    ==> #[trigger] self.length_ok_at(i),
    {
        reveal(AttributedRope::wf);
        reveal(AttributedRope::wf_branches);
        assert(self.nodes.len() == self.nodes@.len());
        self.lemma_same_shape(pre);
        assert forall|i: int|
            self.live(i) && (self.node(pp).parent_of() is None || i != self.node(pp).parent_of().unwrap().0)
                implies #[trigger] self.length_ok_at(i) by {
            if i != pp {
                assert(self.node(i) == prev.node(i));
                assert(prev.length_ok_at(i));
                match self.node(i) {
                    RopeNode::Branch(b) => {
                        assert(same_links(self.node(i), pre.node(i)));
                        assert(pre.wf_branch_at(i));
                        if b.left.0 as int == pp || b.right.0 as int == pp {
                            assert(pre.node(pp).parent_of() == Some(RopeNodeIndex(i as usize)));
                            assert(same_links(self.node(pp), pre.node(pp)));
                        }
                    },
                    _ => {},
                }
            }
        }
    }

    /// What a well-formed rope says of one of its leaves: where it stands in
    /// the leaf order, and that its cells are the leaf's entry there.
    pub(crate) proof fn lemma_leaf_facts(&self, i: int)
        requires
            self.wf(),
            self.live(i),
            self.node(i) is Leaf,
        ensures
            0 <= self.lo_of(i) < self.leaves().len(),
            self.leaves().len() == self.order@.len(),
            self.hi_of(i) == self.lo_of(i) + 1,
            self.leaves()[self.lo_of(i)] == self.leaf_data(i),
            leaf_start(self.leaves(), self.lo_of(i) + 1) == leaf_start(self.leaves(), self.lo_of(i))
                + self.leaf_data(i).0.len(),
            leaf_start(self.leaves(), self.lo_of(i) + 1) <= self.cells().len(),
    {
        reveal(AttributedRope::wf);
        reveal(AttributedRope::wf_spans);
        reveal(AttributedRope::wf_leaf_slots);
        reveal(AttributedRope::wf_order);
        lemma_flat_split(self.leaves(), self.lo_of(i));
        lemma_leaf_start_mono(self.leaves(), self.lo_of(i) + 1, self.leaves().len() as int);
        lemma_leaf_start_end(self.leaves());
    }

    /// The length of the rope fits in a `usize`.
    pub(crate) proof fn lemma_total_fits(&self)
        requires
            self.wf(),
        ensures
            self.cells().len() <= usize::MAX,
    {
        self.lemma_root_len();
        reveal(AttributedRope::wf);
        reveal(AttributedRope::wf_root);
        match self.node(self.root()) {
            RopeNode::Leaf(_, c, _) => {
                assert(c.len() == c@.len());
            },
            _ => {},
        }
    }

    /// The number of cells under a node is at most the length of the rope.
    pub(crate) proof fn lemma_len_le_total(&self, i: int)
        requires
            self.wf(),
            self.live(i),
        ensures
            self.node(i).spec_len() <= self.cells().len(),
    {
        reveal(AttributedRope::wf);
        reveal(AttributedRope::wf_spans);
        self.lemma_span_len(i);
        lemma_leaf_start_mono(self.leaves(), 0, self.lo_of(i));
        lemma_leaf_start_mono(self.leaves(), self.hi_of(i), self.order@.len() as int);
        lemma_leaf_start_end(self.leaves());
    }
}

/// Having the same shape is transitive.
proof fn lemma_same_shape_trans<Cell, Attribute>(
    a: AttributedRope<Cell, Attribute>,
    b: AttributedRope<Cell, Attribute>,
    c: AttributedRope<Cell, Attribute>,
)
    requires
        a.same_shape(b),
        b.same_shape(c),
    ensures
        a.same_shape(c),
{
    assert forall|i: int| #[trigger] a.node(i) == a.node(i) && 0 <= i < a.nodes@.len() implies same_links(
        a.node(i),
        c.node(i),
    ) by {
        assert(same_links(a.node(i), b.node(i)));
        assert(b.node(i) == b.node(i));
        assert(same_links(b.node(i), c.node(i)));
    }
}

/// Removing an empty leaf from a tree of the same shape as `before` lays
/// out the arena as removing it from `before` would.
proof fn lemma_join_layout_shape<Cell, Attribute>(
    before: AttributedRope<Cell, Attribute>,
    before2: AttributedRope<Cell, Attribute>,
    after: AttributedRope<Cell, Attribute>,
    idx: int,
)
    requires
        before.wf(),
        before.live(idx),
        idx != before.root(),
        before2.same_shape(before),
        join_layout(before2, after, idx),
    ensures
        join_layout(before, after, idx),
{
    reveal(AttributedRope::wf);
    reveal(AttributedRope::wf_parents);
    assert(before.parent_ok_at(idx));
    assert(same_links(before2.node(idx), before.node(idx)));
    let p = before.node(idx).parent_of().unwrap().0 as int;
    assert(same_links(before2.node(p), before.node(p)));
}

/// What removing the empty leaf `idx` does to the arena: the leaf and its
/// parent branch are freed, in that order, and the leaf's sibling takes the
/// parent's place under the grandparent (or becomes the root).
pub(crate) open spec fn join_layout<Cell, Attribute>(
    before: AttributedRope<Cell, Attribute>,
    after: AttributedRope<Cell, Attribute>,
    idx: int,
) -> bool {
    let p = before.node(idx).parent_of().unwrap().0 as int;
    let pb = before.node(p)->Branch_0;
    let sib = if pb.left.0 == idx { pb.right } else { pb.left };
    &&& before.node(idx).parent_of() is Some
    &&& before.node(p) is Branch
    &&& after.node(idx) is Empty
    &&& after.node(p) is Empty
    &&& after.free_nodes@ == before.free_nodes@.push(idx as usize).push(p as usize)
    &&& after.node(sib.0 as int).parent_of() == pb.parent
    &&& match pb.parent {
        Some(g) => {
            let gb = after.node(g.0 as int)->Branch_0;
            after.node(g.0 as int) is Branch && (gb.left == sib || gb.right == sib)
        },
        None => after.root_node_idx == sib,
    }
}

/// A position in the leaf order after the leaf at `k` was removed.
pub open spec fn unshifted(x: int, k: int) -> int {
    if x > k {
        x - 1
    } else {
        x
    }
}

/// A node with its parent link replaced.
pub open spec fn with_parent<Cell, Attribute>(
    n: RopeNode<Cell, Attribute>,
    parent: Option<RopeNodeIndex>,
) -> RopeNode<Cell, Attribute> {
    match n {
        RopeNode::Leaf(_, c, a) => RopeNode::Leaf(parent, c, a),
        RopeNode::Branch(b) => RopeNode::Branch(RopeBranch { parent: parent, ..b }),
        RopeNode::Empty => RopeNode::Empty,
    }
}

impl<Cell, Attribute> AttributedRope<Cell, Attribute> {
    /// How the state after removing the empty leaf `idx`, whose parent `p`
    /// is replaced by the leaf's sibling `rem`, relates to the state before.
    #[verifier::opaque]
    spec fn join_step(&self, pre: Self, idx: int, p: int, rem: int, k: int) -> bool {
        let pb = pre.node(p)->Branch_0;
        &&& pre.wf()
        &&& pre.live(idx)
        &&& pre.node(idx) is Leaf
        &&& pre.leaf_data(idx).0.len() == 0
        &&& k == pre.lo_of(idx)
        &&& k + 1 < pre.order@.len()
        &&& pre.node(idx).parent_of() == Some(RopeNodeIndex(p as usize))
        &&& pre.slot_ok(p)
        &&& pre.node(p) is Branch
        &&& ((pb.left.0 == idx && pb.right.0 == rem) || (pb.right.0 == idx && pb.left.0 == rem))
        &&& self.nodes@.len() == pre.nodes@.len()
        &&& self.node(idx) is Empty
        &&& self.node(p) is Empty
        &&& self.node(rem) == with_parent(pre.node(rem), pb.parent)
        &&& match pb.parent {
            Some(g) => {
                let gb = pre.node(g.0 as int)->Branch_0;
                &&& pre.node(g.0 as int) is Branch
                &&& self.root_node_idx == pre.root_node_idx
                &&& self.node(g.0 as int) == RopeNode::<Cell, Attribute>::Branch(
                    if gb.left.0 == p {
                        RopeBranch { left: RopeNodeIndex(rem as usize), ..gb }
                    } else {
                        RopeBranch { right: RopeNodeIndex(rem as usize), ..gb }
                    },
                )
                &&& forall|i: int|
                    0 <= i < self.nodes@.len() && i != idx && i != p && i != rem && i != g.0 ==> #[trigger] self.node(i)
                        == pre.node(i)
            },
            None => {
                &&& self.root_node_idx == RopeNodeIndex(rem as usize)
                &&& forall|i: int|
                    0 <= i < self.nodes@.len() && i != idx && i != p && i != rem ==> #[trigger] self.node(i)
                        == pre.node(i)
            },
        }
        &&& self.free_nodes@ == pre.free_nodes@.push(idx as usize).push(p as usize)
        &&& self.order@ == pre.order@.remove(k)
        &&& forall|i: int| #[trigger] self.lo_of(i) == unshifted(pre.lo_of(i), k)
        &&& forall|i: int| #[trigger] self.hi_of(i) == unshifted(pre.hi_of(i), k)
    }
}

impl<Cell, Attribute> AttributedRope<Cell, Attribute> {
    /// What the state before a join says of the nodes it touches.
    proof fn lemma_join_facts(&self, pre: Self, idx: int, p: int, rem: int, k: int)
        requires
            self.join_step(pre, idx, p, rem, k),
        ensures
            ({
                let pb = pre.node(p)->Branch_0;
                &&& pre.wf()
                &&& pre.live(p)
                &&& pre.live(rem)
                &&& pre.live(idx)
                &&& p != idx && rem != idx && rem != p
                &&& idx != pre.root()
                &&& pre.lo_of(idx) == k
                &&& 0 <= k && k + 1 < pre.order@.len()
                &&& pre.hi_of(idx) == k + 1
                &&& pre.lo_of(rem) < pre.hi_of(rem)
                &&& pre.lo_of(p) <= k < pre.hi_of(p)
                &&& (pb.left.0 == idx ==> pre.lo_of(p) == k && pre.lo_of(rem) == k + 1 && pre.hi_of(rem)
                    == pre.hi_of(p))
                &&& (pb.right.0 == idx ==> pre.hi_of(p) == k + 1 && pre.lo_of(rem) == pre.lo_of(p)
                    && pre.hi_of(rem) == k)
                &&& pre.node(rem).parent_of() == Some(RopeNodeIndex(p as usize))
                &&& pre.node(p).parent_of() == pb.parent
                &&& match pb.parent {
                    Some(g) => {
                        let gb = pre.node(g.0 as int)->Branch_0;
                        &&& pre.live(g.0 as int)
                        &&& g.0 != idx && g.0 != p && g.0 != rem
                        &&& pre.wf_branch_at(g.0 as int)
                        &&& (gb.left.0 == p || gb.right.0 == p)
                        &&& p != pre.root()
                    },
                    None => p == pre.root(),
                }
                &&& self.nodes.len() == self.nodes@.len()
                &&& pre.nodes.len() == pre.nodes@.len()
            }),
    {
        reveal(AttributedRope::join_step);
        reveal(AttributedRope::wf);
        reveal(AttributedRope::wf_root);
        reveal(AttributedRope::wf_spans);
        reveal(AttributedRope::wf_leaf_slots);
        reveal(AttributedRope::wf_branches);
        reveal(AttributedRope::wf_parents);
        assert(self.nodes.len() == self.nodes@.len());
        assert(pre.nodes.len() == pre.nodes@.len());
        let pb = pre.node(p)->Branch_0;
        assert(pre.wf_branch_at(p));
        assert(pre.hi_of(pre.root()) == pre.order@.len());
        assert(pre.parent_ok_at(p));
        match pb.parent {
            Some(g) => {
                assert(pre.wf_branch_at(g.0 as int));
            },
            None => {},
        }
    }
}

impl<Cell, Attribute> AttributedRope<Cell, Attribute> {
    /// Nodes that a join does not touch keep their value.
    proof fn lemma_join_frame(&self, pre: Self, idx: int, p: int, rem: int, k: int)
        requires
            self.join_step(pre, idx, p, rem, k),
        ensures
            forall|i: int|
                0 <= i < self.nodes@.len() && i != idx && i != p && i != rem && (pre.node(p)->Branch_0.parent is None
                    || i != pre.node(p)->Branch_0.parent.unwrap().0) ==> #[trigger] self.node(i) == pre.node(i),
    {
        reveal(AttributedRope::join_step);
    }

    /// A node other than the removed leaf whose span holds its position spans
    /// at least two leaves.
    proof fn lemma_span_two(&self, idx: int, k: int, i: int)
        requires
            self.wf(),
            self.live(idx),
            self.node(idx) is Leaf,
            self.lo_of(idx) == k,
            self.live(i),
            i != idx,
            self.lo_of(i) <= k < self.hi_of(i),
        ensures
            self.hi_of(i) - self.lo_of(i) >= 2,
            self.node(i) is Branch,
    {
        reveal(AttributedRope::wf);
        reveal(AttributedRope::wf_spans);
        reveal(AttributedRope::wf_leaf_slots);
        reveal(AttributedRope::wf_branches);
        if self.node(i) is Leaf {
            assert(self.order@[k] == idx);
            assert(self.order@[self.lo_of(i)] == i);
        } else {
            assert(self.wf_branch_at(i));
        }
    }

    proof fn lemma_join_root(&self, pre: Self, idx: int, p: int, rem: int, k: int)
        requires
            self.join_step(pre, idx, p, rem, k),
        ensures
            self.wf_root(),
    {
        self.lemma_join_facts(pre, idx, p, rem, k);
        self.lemma_join_frame(pre, idx, p, rem, k);
        reveal(AttributedRope::join_step);
        reveal(AttributedRope::wf);
        reveal(AttributedRope::wf_root);
        reveal(AttributedRope::wf_spans);
        let pb = pre.node(p)->Branch_0;
        assert(pre.lo_of(pre.root()) == 0 && pre.hi_of(pre.root()) == pre.order@.len());
        match pb.parent {
            Some(g) => {
                let r = pre.root();
                assert(r != idx && r != p);
                if r == rem {
                    assert(pre.node(r).parent_of() is None);
                }
            },
            None => {
                assert(pb.left.0 == idx);
            },
        }
    }

    proof fn lemma_join_spans(&self, pre: Self, idx: int, p: int, rem: int, k: int)
        requires
            self.join_step(pre, idx, p, rem, k),
        ensures
            self.wf_spans(),
    {
        self.lemma_join_facts(pre, idx, p, rem, k);
        self.lemma_join_frame(pre, idx, p, rem, k);
        reveal(AttributedRope::join_step);
        reveal(AttributedRope::wf);
        reveal(AttributedRope::wf_spans);
        let pb = pre.node(p)->Branch_0;
        assert forall|i: int| self.live(i) implies 0 <= self.lo_of(i) < self.hi_of(i) <= self.order@.len() by {
            assert(i != idx && i != p);
            assert(pre.live(i));
            assert(pre.lo_of(i) < pre.hi_of(i) <= pre.order@.len());
            if i != rem && pre.lo_of(i) <= k < pre.hi_of(i) {
                pre.lemma_span_two(idx, k, i);
            }
        }
    }

    proof fn lemma_join_leaf_slots(&self, pre: Self, idx: int, p: int, rem: int, k: int)
        requires
            self.join_step(pre, idx, p, rem, k),
        ensures
            self.wf_leaf_slots(),
    {
        self.lemma_join_facts(pre, idx, p, rem, k);
        self.lemma_join_frame(pre, idx, p, rem, k);
        reveal(AttributedRope::join_step);
        reveal(AttributedRope::wf);
        reveal(AttributedRope::wf_spans);
        reveal(AttributedRope::wf_leaf_slots);
        let pb = pre.node(p)->Branch_0;
        assert forall|i: int| self.live(i) && #[trigger] self.node(i) is Leaf implies self.hi_of(i)
            == self.lo_of(i) + 1 && self.order@[self.lo_of(i)] == i by {
            assert(i != idx && i != p);
            assert(pre.live(i));
            assert(pre.node(i) is Leaf);
            let j = pre.lo_of(i);
            assert(pre.order@[j] == i);
            assert(j != k);
        }
    }

    proof fn lemma_join_order(&self, pre: Self, idx: int, p: int, rem: int, k: int)
        requires
            self.join_step(pre, idx, p, rem, k),
        ensures
            self.wf_order(),
    {
        self.lemma_join_facts(pre, idx, p, rem, k);
        self.lemma_join_frame(pre, idx, p, rem, k);
        reveal(AttributedRope::join_step);
        reveal(AttributedRope::wf);
        reveal(AttributedRope::wf_order);
        reveal(AttributedRope::wf_leaf_slots);
        let pb = pre.node(p)->Branch_0;
        assert forall|j: int| 0 <= j < self.order@.len() implies self.slot_ok(#[trigger] self.order@[j])
            && self.node(self.order@[j]) is Leaf && self.lo_of(self.order@[j]) == j by {
            let jj = if j < k { j } else { j + 1 };
            let n = pre.order@.len() as int;
            assert(pre.order@.remove(k) =~= pre.order@.subrange(0, k) + pre.order@.subrange(k + 1, n));
            assert(self.order@.len() == n - 1);
            let i = pre.order@[jj];
            assert(self.order@[j] == i);
            assert(pre.lo_of(i) == jj);
            assert(i != idx);
            assert(pre.node(i) is Leaf);
            assert(i != p);
        }
    }

    proof fn lemma_join_branches(&self, pre: Self, idx: int, p: int, rem: int, k: int)
        requires
            self.join_step(pre, idx, p, rem, k),
        ensures
            self.wf_branches(),
    {
        self.lemma_join_facts(pre, idx, p, rem, k);
        self.lemma_join_frame(pre, idx, p, rem, k);
        reveal(AttributedRope::join_step);
        reveal(AttributedRope::wf);
        reveal(AttributedRope::wf_spans);
        reveal(AttributedRope::wf_branches);
        reveal(AttributedRope::wf_parents);
        let pb = pre.node(p)->Branch_0;
        assert forall|i: int| self.live(i) implies #[trigger] self.wf_branch_at(i) by {
            assert(i != idx && i != p);
            assert(pre.live(i));
            assert(pre.wf_branch_at(i));
            match pre.node(i) {
                RopeNode::Branch(b) => {
                    let l = b.left.0 as int;
                    let r = b.right.0 as int;
                    assert(pre.lo_of(l) < pre.hi_of(l) && pre.lo_of(r) < pre.hi_of(r));
                    if pb.parent is Some && i == pb.parent.unwrap().0 {
                        let o = if l == p { r } else { l };
                        assert(o != idx && o != p && o != rem && o != i);
                        assert(self.node(o) == pre.node(o));
                    } else {
                        assert(l != p && r != p);
                        if i == rem {
                            assert(l != idx && r != idx);
                        }
                        assert(l != rem && r != rem);
                        if l == idx || r == idx {
                            assert(pre.node(idx).parent_of() == Some(RopeNodeIndex(i as usize)));
                        }
                        assert(l != idx && r != idx);
                        if pb.parent is Some {
                            let g = pb.parent.unwrap().0 as int;
                            if l == g || r == g {
                                assert(self.node(g).parent_of() == pre.node(g).parent_of());
                            }
                        }
                    }
                },
                _ => {},
            }
        }
    }

    proof fn lemma_join_lengths(&self, pre: Self, idx: int, p: int, rem: int, k: int)
        requires
            self.join_step(pre, idx, p, rem, k),
        ensures
            self.wf_lengths(),
    {
        self.lemma_join_facts(pre, idx, p, rem, k);
        self.lemma_join_frame(pre, idx, p, rem, k);
        reveal(AttributedRope::join_step);
        reveal(AttributedRope::wf);
        reveal(AttributedRope::wf_branches);
        reveal(AttributedRope::wf_lengths);
        reveal(AttributedRope::wf_spans);
        let pb = pre.node(p)->Branch_0;
        assert(pre.length_ok_at(p));
        assert forall|i: int| self.live(i) implies #[trigger] self.length_ok_at(i) by {
            assert(i != idx && i != p);
            assert(pre.live(i));
            assert(pre.wf_branch_at(i));
            assert(pre.length_ok_at(i));
            match pre.node(i) {
                RopeNode::Branch(b) => {
                    let l = b.left.0 as int;
                    let r = b.right.0 as int;
                    assert(pre.lo_of(l) < pre.hi_of(l) && pre.lo_of(r) < pre.hi_of(r));
                    if pb.parent is Some && i == pb.parent.unwrap().0 {
                        let o = if l == p { r } else { l };
                        assert(o != idx && o != p && o != rem && o != i);
                        assert(self.node(o) == pre.node(o));
                    } else {
                        assert(l != p && r != p);
                        assert(l != rem && r != rem);
                        if l == idx || r == idx {
                            assert(pre.node(idx).parent_of() == Some(RopeNodeIndex(i as usize)));
                        }
                        if i == rem {
                            assert(l != idx && r != idx);
                        }
                    }
                },
                _ => {},
            }
        }
    }

    proof fn lemma_join_parents(&self, pre: Self, idx: int, p: int, rem: int, k: int)
        requires
            self.join_step(pre, idx, p, rem, k),
        ensures
            self.wf_parents(),
    {
        self.lemma_join_facts(pre, idx, p, rem, k);
        self.lemma_join_frame(pre, idx, p, rem, k);
        self.lemma_join_root(pre, idx, p, rem, k);
        reveal(AttributedRope::join_step);
        reveal(AttributedRope::wf);
        reveal(AttributedRope::wf_root);
        reveal(AttributedRope::wf_spans);
        reveal(AttributedRope::wf_branches);
        reveal(AttributedRope::wf_parents);
        let pb = pre.node(p)->Branch_0;
        assert forall|i: int| self.live(i) implies #[trigger] self.parent_ok_at(i) by {
            assert(i != idx && i != p);
            assert(pre.live(i));
            assert(pre.parent_ok_at(i));
            if i != self.root() && i != rem {
                assert(i != pre.root()) by {
                    if pb.parent is None {
                        assert(pre.root() == p);
                    }
                }
                let q = pre.node(i).parent_of().unwrap().0 as int;
                assert(self.node(i).parent_of() == pre.node(i).parent_of());
                assert(q != idx);
                if q == p {
                    let qb = pre.node(q)->Branch_0;
                    assert(i == idx || i == rem);
                }
                assert(q != p);
                if q == rem {
                    assert(self.node(rem) is Branch);
                } else if pb.parent is Some && q == pb.parent.unwrap().0 {
                    assert(i != p);
                } else {
                    assert(self.node(q) == pre.node(q));
                }
            }
        }
    }

    proof fn lemma_join_free(&self, pre: Self, idx: int, p: int, rem: int, k: int)
        requires
            self.join_step(pre, idx, p, rem, k),
        ensures
            self.wf_free(),
    {
        self.lemma_join_facts(pre, idx, p, rem, k);
        self.lemma_join_frame(pre, idx, p, rem, k);
        reveal(AttributedRope::join_step);
        reveal(AttributedRope::wf);
        reveal(AttributedRope::wf_free);
        let pb = pre.node(p)->Branch_0;
        let f = pre.free_nodes@;
        assert(!f.contains(idx as usize)) by {
            if f.contains(idx as usize) {
                let j = choose|j: int| 0 <= j < f.len() && f[j] == idx as usize;
            }
        }
        assert(!f.contains(p as usize)) by {
            if f.contains(p as usize) {
                let j = choose|j: int| 0 <= j < f.len() && f[j] == p as usize;
            }
        }
        assert forall|j: int| 0 <= j < self.free_nodes@.len() implies self.slot_ok(
            #[trigger] self.free_nodes@[j] as int,
        ) && self.node(self.free_nodes@[j] as int) is Empty by {
            if j < f.len() {
                assert(self.free_nodes@[j] == f[j]);
                let x = f[j] as int;
                assert(pre.node(x) is Empty);
                assert(x != rem);
                assert(pb.parent is None || x != pb.parent.unwrap().0);
            }
        }
        assert forall|i: int| self.slot_ok(i) && #[trigger] self.node(i) is Empty implies self.free_nodes@.contains(
            i as usize,
        ) by {
            if i == idx {
                assert(self.free_nodes@[f.len() as int] == idx as usize);
            } else if i == p {
                assert(self.free_nodes@[f.len() as int + 1] == p as usize);
            } else {
                assert(i != rem);
                assert(pb.parent is None || i != pb.parent.unwrap().0);
                assert(pre.node(i) is Empty);
                assert(f.contains(i as usize));
                let j = choose|j: int| 0 <= j < f.len() && f[j] == i as usize;
                assert(self.free_nodes@[j] == i as usize);
            }
        }
        assert(self.free_nodes@.no_duplicates()) by {
            assert forall|a: int, b: int| 0 <= a < b < self.free_nodes@.len() implies self.free_nodes@[a]
                != self.free_nodes@[b] by {
                if b == f.len() as int + 1 && a < f.len() {
                    assert(f[a] == self.free_nodes@[a]);
                } else if b == f.len() {
                    assert(f[a] == self.free_nodes@[a]);
                }
            }
        }
    }

    proof fn lemma_join_leaves(&self, pre: Self, idx: int, p: int, rem: int, k: int)
        requires
            self.join_step(pre, idx, p, rem, k),
        ensures
            self.leaves() == pre.leaves().remove(k),
    {
        self.lemma_join_facts(pre, idx, p, rem, k);
        self.lemma_join_frame(pre, idx, p, rem, k);
        reveal(AttributedRope::join_step);
        reveal(AttributedRope::wf);
        reveal(AttributedRope::wf_order);
        let pb = pre.node(p)->Branch_0;
        let expect = pre.leaves().remove(k);
        assert(self.leaves() =~= expect) by {
            assert forall|j: int| 0 <= j < self.leaves().len() implies self.leaves()[j] == expect[j] by {
                let jj = if j < k { j } else { j + 1 };
                let n = pre.order@.len() as int;
                assert(pre.order@.remove(k) =~= pre.order@.subrange(0, k) + pre.order@.subrange(k + 1, n));
                assert(pre.leaves().remove(k) =~= pre.leaves().subrange(0, k) + pre.leaves().subrange(k + 1, n));
                assert(self.order@.len() == n - 1);
                let i = pre.order@[jj];
                assert(self.order@[j] == i);
                assert(pre.lo_of(i) == jj);
                assert(i != idx);
                assert(pre.node(i) is Leaf);
                assert(i != p);
                assert(pb.parent is None || i != pb.parent.unwrap().0);
            }
        }
    }

    proof fn lemma_join_wf(&self, pre: Self, idx: int, p: int, rem: int, k: int)
        requires
            self.join_step(pre, idx, p, rem, k),
        ensures
            self.wf(),
            self.leaves() == pre.leaves().remove(k),
    {
        reveal(AttributedRope::wf);
        self.lemma_join_root(pre, idx, p, rem, k);
        self.lemma_join_spans(pre, idx, p, rem, k);
        self.lemma_join_leaf_slots(pre, idx, p, rem, k);
        self.lemma_join_order(pre, idx, p, rem, k);
        self.lemma_join_branches(pre, idx, p, rem, k);
        self.lemma_join_lengths(pre, idx, p, rem, k);
        self.lemma_join_parents(pre, idx, p, rem, k);
        self.lemma_join_free(pre, idx, p, rem, k);
        self.lemma_join_leaves(pre, idx, p, rem, k);
    }
}

/// A position in the leaf order after one leaf at `k` became two.
pub open spec fn shifted(x: int, k: int) -> int {
    if x > k {
        x + 1
    } else {
        x
    }
}

} // verus!
