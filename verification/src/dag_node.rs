//! The node of a term graph and the allocators that manage its memory.
//!
//! Every node has the same size, which is what lets an arena hand slots out again
//! without a free list. A node that has more than one child keeps them in a buffer
//! placed by the storage allocator.
use vstd::prelude::*;

pub mod allocator;
pub mod flags;
pub mod node;
pub mod root_container;

pub use crate::dag_node::allocator::arena::Arena;
pub use crate::dag_node::allocator::bucket::Bucket;
pub use crate::dag_node::allocator::node_allocator::Allocator;
pub use crate::dag_node::allocator::storage_allocator::StorageAllocator;
pub use crate::dag_node::node::{DagNode, DagNodeArgument, DagNodePtr};
pub use crate::dag_node::root_container::{RootContainer, RootList};

verus! {

/// Number of node slots in an arena.
pub const ARENA_SIZE: usize = 5460;

/// Slots held back at the end of the last arena. Reaching them asks for a collection.
pub const RESERVE_SIZE: usize = 256;

/// A bucket made for an outsized request has this many times the request's size.
pub const BUCKET_MULTIPLIER: usize = 8;

/// Size in bytes of a bucket made for an ordinary request, header included.
pub const MIN_BUCKET_SIZE: usize = 256 * 1024 - 8;

/// Bytes of bucket storage that may be handed out before the first collection is asked for.
pub const INITIAL_TARGET: usize = 220 * 1024;

/// After a collection the target is at least this many times the storage in use.
pub const TARGET_MULTIPLIER: usize = 8;

/// What a node stands for in the engine. The collector does not look at it.
#[derive(Copy, Clone, Debug, PartialEq, Eq, Structural, Hash)]
pub enum DagNodeKind {
    Free,
    ACU,
    AU,
    CUI,
    Variable,
    NA,
    Data,
}

impl Default for DagNodeKind {
    fn default() -> (kind: DagNodeKind)
        ensures
            kind == DagNodeKind::Free,
    {
        DagNodeKind::Free
    }
}

} // verus!
