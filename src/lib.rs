//! An attributed rope: a position-indexed tree of cells with attribute runs,
//! a change tracker that batches edits for later replay, and an adaptor that
//! joins the edit streams of two halves into one.

pub mod rope_action;
pub mod node;
pub mod leaf_seq;
pub mod attributed_rope;
pub mod pending_change;
pub mod pull_rope;
pub mod concat_rope;
pub mod rope_extensions;
pub mod push_rope;
pub mod rope_traits;
pub mod rope_iterator;

pub use crate::attributed_rope::AttributedRope;
pub use crate::concat_rope::RopeConcatenator;
pub use crate::node::{RopeBranch, RopeNode, RopeNodeIndex};
pub use crate::pending_change::RopePendingChange;
pub use crate::pull_rope::PullRope;
pub use crate::push_rope::{PushAfterRope, PushBeforeRope};
pub use crate::rope_action::RopeAction;
pub use crate::rope_extensions::Utf8Rope;
pub use crate::rope_iterator::AttributedRopeIterator;
pub use crate::rope_traits::{Rope, RopeMut};

