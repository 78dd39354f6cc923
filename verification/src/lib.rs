//! A garbage-collected store for the nodes of a term graph.
//!
//! Terms are nodes of a directed acyclic graph. Two allocators cooperate under one
//! collection cycle: a node allocator hands out fixed-size node slots from arenas and
//! reclaims them with a lazy mark-and-sweep, and a storage allocator places the
//! variable-size child buffers of nodes in buckets and compacts them by copying during
//! the mark phase. A root registry anchors what is alive.
//!
//! Nothing here is process-global: the allocator and the root registry are values that
//! the caller owns and threads through the calls.
use vstd::prelude::*;

pub mod abstractions;
pub mod dag_node;
pub mod symbol;
pub mod util;

verus! {

} // verus!
