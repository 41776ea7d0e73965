use vstd::prelude::*;

verus! {

/// A stable handle on a slot of the node arena.
#[derive(Clone, Copy, Debug, PartialEq, Eq, Structural)]
pub struct RopeNodeIndex(pub usize);

impl RopeNodeIndex {
    /// The position of the slot in the arena.
    pub fn idx(self) -> (r: usize)
        ensures
            r == self.0,
    {
        self.0
    }
}

/// An inner node: two children and the number of cells below it.
#[derive(Clone, Copy, Debug, PartialEq, Eq, Structural)]
pub struct RopeBranch {
    /// The first part of the sequence.
    pub left: RopeNodeIndex,
    /// The second part of the sequence.
    pub right: RopeNodeIndex,
    /// The total number of cells under this branch.
    pub length: usize,
    /// The parent of this branch, or `None` for the root.
    pub parent: Option<RopeNodeIndex>,
}

/// A slot of the node arena.
#[derive(Debug)]
pub enum RopeNode<Cell, Attribute> {
    /// A free slot.
    Empty,
    /// A run of cells sharing one attribute, with its parent.
    Leaf(Option<RopeNodeIndex>, Vec<Cell>, Attribute),
    /// A branch of the tree.
    Branch(RopeBranch),
}

impl<Cell, Attribute> RopeNode<Cell, Attribute> {
    /// The number of cells that this node and its descendants hold, as
    /// recorded in the node itself.
    pub open spec fn spec_len(&self) -> nat {
        match self {
            RopeNode::Empty => 0,
            RopeNode::Leaf(_, cells, _) => cells@.len(),
            RopeNode::Branch(b) => b.length as nat,
        }
    }

    /// The parent recorded in the node.
    pub open spec fn parent_of(&self) -> Option<RopeNodeIndex> {
        match self {
            RopeNode::Empty => None,
            RopeNode::Leaf(p, _, _) => *p,
            RopeNode::Branch(b) => b.parent,
        }
    }

    /// Takes the value out of this node, leaving it empty.
    pub fn take(&mut self) -> (r: RopeNode<Cell, Attribute>)
        ensures
            r == *old(self),
            *final(self) is Empty,
    {
        let mut r = RopeNode::Empty;
        std::mem::swap(self, &mut r);
        r
    }

    /// The number of cells under this node.
    pub fn len(&self) -> (r: usize)
        ensures
            r == self.spec_len(),
    {
        match self {
            RopeNode::Empty => 0,
            RopeNode::Leaf(_, cells, _) => cells.len(),
            RopeNode::Branch(branch) => branch.length,
        }
    }

    /// The parent of this node.
    pub fn parent(&self) -> (r: Option<RopeNodeIndex>)
        ensures
            r == self.parent_of(),
    {
        match self {
            RopeNode::Empty => None,
            RopeNode::Leaf(parent, _, _) => *parent,
            RopeNode::Branch(branch) => branch.parent,
        }
    }
}

} // verus!
