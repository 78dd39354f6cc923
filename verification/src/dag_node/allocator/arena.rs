//! An arena: a block of node slots of fixed size.
use crate::dag_node::node::{DagNode, DagNodePtr, NodeState};
use crate::dag_node::ARENA_SIZE;
use vstd::prelude::*;

verus! {

/// A block of `ARENA_SIZE` node slots. Arenas are never freed.
pub struct Arena {
    pub(crate) first_node: DagNodePtr,
    pub(crate) data: Vec<DagNode>,
}

impl Arena {
    /// The position of the arena's first slot.
    pub open(crate) spec fn spec_first_node(&self) -> DagNodePtr {
        self.first_node
    }

    /// The nodes in the arena's slots, in order.
    pub open(crate) spec fn nodes(&self) -> Seq<NodeState> {
        Seq::new(self.data@.len(), |slot: int| self.data@[slot]@)
    }

    /// The arena has exactly `ARENA_SIZE` slots.
    pub open spec fn wf(&self) -> bool {
        self.nodes().len() == ARENA_SIZE
    }

    /// A new arena whose first slot has the position `first_node`. Every slot holds a
    /// node without flags, symbol or children.
    pub fn allocate_new_arena(first_node: DagNodePtr) -> (arena: Arena)
        ensures
            arena.wf(),
            arena.spec_first_node() == first_node,
            forall|slot: int| 0 <= slot < ARENA_SIZE ==> arena.nodes()[slot] == NodeState::fresh(),
    {
        let mut data: Vec<DagNode> = Vec::new();
        let mut slot: usize = 0;
        while slot < ARENA_SIZE
            invariant
                slot <= ARENA_SIZE,
                data@.len() == slot,
                forall|i: int| 0 <= i < slot ==> (#[trigger] data@[i])@ == NodeState::fresh(),
            decreases ARENA_SIZE - slot,
        {
            data.push(DagNode::default());
            slot += 1;
        }
        Arena { first_node, data }
    }

    /// The position of the arena's first slot.
    pub fn first_node(&self) -> (first: DagNodePtr)
        ensures
            first == self.spec_first_node(),
    {
        self.first_node
    }
}

} // verus!
