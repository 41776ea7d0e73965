use vstd::prelude::*;

use crate::attributed_rope::{clamp_range, AttributedRope};
use crate::leaf_seq::leaf_start;
use crate::node::{RopeNode, RopeNodeIndex};

use std::ops::Range;

verus! {

/// Reads the cells of a range of a rope one at a time, moving from leaf to
/// leaf.
pub struct AttributedRopeIterator<'a, Cell, Attribute> {
    /// The rope being read.
    rope: &'a AttributedRope<Cell, Attribute>,
    /// The leaf being read.
    node_idx: RopeNodeIndex,
    /// The position in that leaf of the next cell.
    node_offset: usize,
    /// The number of cells left to read.
    remaining_cells: usize,
    /// The position in the rope of the next cell.
    pos: Ghost<int>,
}

impl<'a, Cell: Copy, Attribute: Copy + PartialEq + Default> AttributedRopeIterator<'a, Cell, Attribute> {
    /// The rope being read.
    pub closed spec fn source(&self) -> AttributedRope<Cell, Attribute> {
        *self.rope
    }

    /// The position in the rope of the next cell.
    pub closed spec fn position(&self) -> int {
        self.pos@
    }

    /// The number of cells left to read.
    pub closed spec fn remaining(&self) -> int {
        self.remaining_cells as int
    }

    /// The number of leaves from the current one to the end.
    pub closed spec fn leaves_ahead(&self) -> int {
        (*self.rope).leaves().len() - (*self.rope).lo_of(self.node_idx.0 as int)
    }

    /// The cursor stands at a cell of a well-formed rope.
    pub closed spec fn iter_ok(&self) -> bool {
        let rope = *self.rope;
        let i = self.node_idx.0 as int;
        &&& rope.wf()
        &&& rope.live(i)
        &&& rope.node(i) is Leaf
        &&& leaf_start(rope.leaves(), rope.lo_of(i)) + self.node_offset == self.pos@
        &&& self.node_offset <= rope.leaf_data(i).0.len()
        &&& self.pos@ + self.remaining_cells <= rope.cells().len()
    }

    /// The next cell, if any is left to read.
    pub fn next(&mut self) -> (r: Option<Cell>)
        requires
            old(self).iter_ok(),
        ensures
            final(self).iter_ok(),
            final(self).source() == old(self).source(),
            old(self).remaining() == 0 ==> r is None && final(self).remaining() == 0,
            old(self).remaining() > 0 ==> r == Some(old(self).source().cells()[old(self).position()])
                && final(self).position() == old(self).position() + 1 && final(self).remaining() == old(
                self).remaining() - 1,
        decreases old(self).leaves_ahead(),
    {
        if self.remaining_cells == 0 {
            return None;
        }
        let rope = self.rope;
        let ghost k = rope.lo_of(self.node_idx.0 as int);
        proof {
            rope.lemma_leaf_facts(self.node_idx.0 as int);
        }
        match &rope.nodes[self.node_idx.idx()] {
            RopeNode::Leaf(_, cells, _) => {
                if self.node_offset < cells.len() {
                    let cell = cells[self.node_offset];
                    proof {
                        crate::leaf_seq::lemma_flat_index(rope.leaves(), k, self.node_offset as int);
                        assert(cells@ == rope.leaf_data(self.node_idx.0 as int).0);
                        assert(cell == rope.cells()[self.pos@]);
                    }
                    self.node_offset = self.node_offset + 1;
                    self.remaining_cells = self.remaining_cells - 1;
                    self.pos = Ghost(self.pos@ + 1);
                    Some(cell)
                } else {
                    match rope.next_leaf_to_the_right(self.node_idx) {
                        Some(next) => {
                            proof {
                                rope.lemma_leaf_facts(next.0 as int);
                            }
                            self.node_idx = next;
                            self.node_offset = 0;
                            self.next()
                        },
                        None => {
                            proof {
                                crate::leaf_seq::lemma_leaf_start_end(rope.leaves());
                                assert(k + 1 == rope.leaves().len());
                                assert(self.pos@ == rope.cells().len());
                                assert(false);
                            }
                            None
                        },
                    }
                }
            },
            _ => {
                proof {
                    assert(false);
                }
                None
            },
        }
    }
}

impl<Cell: Copy, Attribute: Copy + PartialEq + Default> AttributedRope<Cell, Attribute> {
    /// A cursor over the cells of a range (clamped to the rope).
    pub fn iter_cells(&self, range: Range<usize>) -> (r: AttributedRopeIterator<'_, Cell, Attribute>)
        requires
            self.wf(),
        ensures
            r.iter_ok(),
            r.source() == *self,
            r.position() == clamp_range(range, self.cells().len()).0,
            r.remaining() == clamp_range(range, self.cells().len()).1 - clamp_range(range, self.cells().len()).0,
    {
        let len = self.len();
        let start = if range.start <= len {
            range.start
        } else {
            len
        };
        let end = if range.end <= start {
            start
        } else if range.end <= len {
            range.end
        } else {
            len
        };
        let (offset, leaf) = self.find_leaf(start);
        proof {
            self.lemma_leaf_facts(leaf.0 as int);
        }
        AttributedRopeIterator {
            rope: self,
            node_idx: leaf,
            node_offset: start - offset,
            remaining_cells: end - start,
            pos: Ghost(start as int),
        }
    }
}

} // verus!
