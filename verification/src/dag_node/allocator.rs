//! The two allocators behind the node store.
//!
//! The node allocator owns the arenas and finds free slots with a cursor that sweeps
//! lazily: the marks that the last collection left are cleared as the cursor passes.
//! The storage allocator owns the buckets in which child buffers are placed. During the
//! mark phase every live buffer is copied into buckets that were empty, and the buckets
//! it came from are emptied afterwards.
use vstd::prelude::*;

pub mod arena;
pub mod bucket;
pub mod collection;
pub mod graph;
pub mod marking;
pub mod node_allocator;
pub mod node_vector;
pub mod search;
pub mod storage_allocator;
pub mod theorems;

verus! {

} // verus!
