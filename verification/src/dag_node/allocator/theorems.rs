//! What holds of the allocators, whatever the graph and the roots.
//!
//! Each theorem is stated over the states before and after a call, as the contract of
//! that call relates them.
use crate::dag_node::allocator::collection::{arenas_wanted, collected, survived};
use crate::dag_node::allocator::graph::{graph_of, live_set, marked_set};
use crate::dag_node::allocator::marking::{lemma_marked_from_keeps, marks};
use crate::dag_node::allocator::node_allocator::{arena_of, AllocatorState, MAX_ARENAS};
use crate::dag_node::allocator::node_vector::buffer_bytes;
use crate::dag_node::node::{DagNodePtr, NodeState};
use crate::dag_node::ARENA_SIZE;
use vstd::prelude::*;

verus! {

/// The nodes that `roots` keep alive when a collection begins in the state `before`:
/// what they reach once the sweep that begins the collection has tidied the nodes.
pub open spec fn kept_alive(before: AllocatorState, roots: Seq<DagNodePtr>) -> Set<int> {
    live_set(graph_of(before.after_sweep().nodes), roots)
}

/// The arenas are whole: the allocator has `ARENA_SIZE` slots for each of its arenas.
pub proof fn lemma_arenas_are_whole(state: AllocatorState)
    requires
        state.wf(),
    ensures
        state.nodes.len() == state.arena_count() * ARENA_SIZE,
        state.arena_count() <= MAX_ARENAS,
{
}

/// Marking a node twice is marking it once: the second call changes nothing, so the
/// same nodes are marked and the same number of nodes is counted.
pub proof fn lemma_mark_twice(
    before: AllocatorState,
    once: AllocatorState,
    twice: AllocatorState,
    node: DagNodePtr,
)
    requires
        marks(before, once, node),
        marks(once, twice, node),
    ensures
        twice == once,
        marked_set(twice.nodes) == marked_set(once.nodes),
        twice.active_node_count - before.active_node_count == once.active_node_count
            - before.active_node_count,
{
    lemma_marked_from_keeps(before, once, seq![node]);
    assert(seq![node][0] == node);
}

/// Between two calls the marks lie in the window of the lazy sweep: a node that has a
/// mark lies at or behind the cursor and not behind the last active node, and the
/// cursor has not left the arena of the last active node.
pub proof fn lemma_marks_lie_in_window(state: AllocatorState, i: int)
    requires
        state.wf(),
        0 <= i < state.nodes.len(),
        state.nodes[i].marked(),
    ensures
        state.next_node <= i,
        state.last_active_node.is_some(),
        i <= state.last_active_node.unwrap(),
        !state.current_arena_past_active_arena,
{
}

/// A node before the cursor has no mark, and no node has one when the mark phase of a
/// collection begins.
pub proof fn lemma_no_marks_outside_window(state: AllocatorState, i: int)
    requires
        state.wf(),
        0 <= i < state.nodes.len(),
    ensures
        i < state.next_node ==> !state.nodes[i].marked(),
        !state.after_sweep().nodes[i].marked(),
{
    state.lemma_after_sweep();
}

/// After a collection every node that the roots keep alive is there as it was when the
/// mark phase began: it has its symbol, its kind and its children. It has its mark,
/// which the lazy sweep clears when the cursor passes it.
pub proof fn lemma_roots_keep_nodes(
    before: AllocatorState,
    after: AllocatorState,
    roots: Seq<DagNodePtr>,
    i: int,
)
    requires
        before.wf(),
        collected(before, after, roots),
        kept_alive(before, roots).contains(i),
    ensures
        0 <= i < before.nodes.len(),
        after.nodes[i].symbol == before.after_sweep().nodes[i].symbol,
        after.nodes[i].kind == before.after_sweep().nodes[i].kind,
        after.nodes[i].children() == before.after_sweep().nodes[i].children(),
        after.nodes[i].marked(),
{
    let swept = before.after_sweep();
    let graph = graph_of(swept.nodes);
    let r = choose|r: int|
        0 <= r < roots.len() && crate::dag_node::allocator::graph::reachable(
            graph,
            #[trigger] roots[r] as int,
            i,
        );
    let path = choose|path: Seq<int>| #[trigger]
        crate::dag_node::allocator::graph::is_path(graph, path) && path.first() == roots[r] as int
            && path.last() == i;
    assert(0 <= path[path.len() - 1] < graph.len());
    assert(survived(swept, after, kept_alive(before, roots), i));
}

/// After a collection a node that the roots keep alive is not the next to be handed
/// out.
pub proof fn lemma_live_node_is_not_handed_out(
    before: AllocatorState,
    after: AllocatorState,
    roots: Seq<DagNodePtr>,
)
    requires
        before.wf(),
        collected(before, after, roots),
        after.wf(),
    ensures
        !kept_alive(before, roots).contains(after.allocation_target()),
{
    let target = after.allocation_target();
    after.lemma_first_unmarked(after.next_node as int);
    if kept_alive(before, roots).contains(target) {
        lemma_roots_keep_nodes(before, after, roots, target);
    }
}

/// After a collection the buffer of every node that the roots keep alive lies in a
/// bucket in use, in the part of it that has been handed out, and not in an unused
/// bucket. The unused buckets are the buckets that were in use before.
pub proof fn lemma_live_buffers_in_use(
    before: AllocatorState,
    after: AllocatorState,
    roots: Seq<DagNodePtr>,
    i: int,
)
    requires
        before.wf(),
        collected(before, after, roots),
        after.wf(),
        kept_alive(before, roots).contains(i),
        after.nodes[i].args is Many,
    ensures
        after.storage.holds(after.nodes[i].place(), buffer_bytes(after.nodes[i].capacity())),
        after.storage.in_use.contains(after.nodes[i].place().bucket),
        !after.storage.unused.contains(after.nodes[i].place().bucket),
        after.storage.unused == before.storage.in_use,
{
    lemma_roots_keep_nodes(before, after, roots, i);
    assert(survived(before.after_sweep(), after, kept_alive(before, roots), i));
    let bucket = after.nodes[i].place().bucket;
    let storage = after.storage;
    if storage.unused.contains(bucket) {
        let k = choose|k: int| 0 <= k < storage.in_use.len() && storage.in_use[k] == bucket;
        let u = choose|u: int| 0 <= u < storage.unused.len() && storage.unused[u] == bucket;
        assert(storage.listed()[k] == bucket);
        assert(storage.listed()[storage.in_use.len() + u] == bucket);
    }
}

/// After a collection there are at least as many arenas as the nodes that are alive
/// ask for, unless they ask for more than an allocator can have.
pub proof fn lemma_capacity_grows(
    before: AllocatorState,
    after: AllocatorState,
    roots: Seq<DagNodePtr>,
)
    requires
        before.wf(),
        collected(before, after, roots),
        arenas_wanted(after.active_node_count as int) <= MAX_ARENAS,
    ensures
        after.arena_count() >= arenas_wanted(after.active_node_count as int),
        after.arena_count() >= before.arena_count(),
        after.nodes.len() >= arenas_wanted(after.active_node_count as int) * ARENA_SIZE,
{
    before.lemma_after_sweep();
    assert(after.nodes.len() >= after.arena_count() * ARENA_SIZE) by {
        assert(after.arena_count() == arena_of(after.nodes.len() as int));
    }
}

/// After a collection the count of active nodes is the number of nodes that the roots
/// keep alive, and those are the marked nodes.
pub proof fn lemma_count_is_live(
    before: AllocatorState,
    after: AllocatorState,
    roots: Seq<DagNodePtr>,
)
    requires
        before.wf(),
        collected(before, after, roots),
    ensures
        kept_alive(before, roots).finite(),
        after.active_node_count == kept_alive(before, roots).len(),
        marked_set(after.nodes) == kept_alive(before, roots),
{
    let swept = before.after_sweep();
    let live = kept_alive(before, roots);
    before.lemma_after_sweep();
    assert forall|i: int| marked_set(after.nodes).contains(i) <==> live.contains(i) by {
        if 0 <= i < before.nodes.len() {
            assert(survived(swept, after, live, i));
            assert(!swept.nodes[i].marked());
        } else if before.nodes.len() <= i < after.nodes.len() {
            assert(after.nodes[i] == NodeState::fresh());
        }
        if live.contains(i) {
            lemma_roots_keep_nodes(before, after, roots, i);
        }
    }
    assert(marked_set(after.nodes) =~= live);
}

} // verus!
