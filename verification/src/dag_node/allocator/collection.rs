//! What a collection does, as a relation between the state before and the state after.
//!
//! A collection finishes the lazy sweep, marks what the roots reach, copying every
//! buffer that is alive into buckets that were empty, empties the buckets that were in
//! use before, and adds arenas until there is room for the nodes that are alive times a
//! slop factor. Then the cursor starts again at the first slot.
use crate::dag_node::allocator::graph::{
    edge, graph_of, lemma_closed_set_holds_reachable, lemma_marked_set_finite, live_set, marked_set,
    reachable,
};
use crate::dag_node::allocator::marking::{
    after_mark_all, children_marked, lemma_marked_from_keeps, marked_from, newly_marked,
    node_kept,
};
use crate::dag_node::allocator::node_allocator::{
    AllocatorState, BIG_MODEL_SLOP, LOWER_BOUND, MAX_ARENAS, SMALL_MODEL_SLOP, UPPER_BOUND,
};
use crate::dag_node::allocator::node_vector::buffer_bytes;
use crate::dag_node::node::{DagNodePtr, NodeState};
use crate::dag_node::{ARENA_SIZE, RESERVE_SIZE};
use vstd::prelude::*;

verus! {

/// The least whole number that is not below `x / d`.
pub open spec fn ceil_div(x: int, d: int) -> int {
    (x + d - 1) / d
}

/// The number of arenas that `live` active nodes ask for: enough for `live` times the
/// slop factor, rounded up to whole arenas.
///
/// The slop factor is `SMALL_MODEL_SLOP` below `LOWER_BOUND` active nodes and
/// `BIG_MODEL_SLOP` from `UPPER_BOUND` on. Between the two it falls in a straight line:
/// it is `BIG_MODEL_SLOP + (UPPER_BOUND - live) * (SMALL_MODEL_SLOP - BIG_MODEL_SLOP) /
/// (UPPER_BOUND - LOWER_BOUND)`, which is taken here as one fraction so that nothing is
/// rounded before the end.
pub open spec fn arenas_wanted(live: int) -> int {
    if live >= UPPER_BOUND {
        ceil_div(live * BIG_MODEL_SLOP, ARENA_SIZE as int)
    } else if live < LOWER_BOUND {
        ceil_div(live * SMALL_MODEL_SLOP, ARENA_SIZE as int)
    } else {
        ceil_div(
            live * (BIG_MODEL_SLOP * (UPPER_BOUND - LOWER_BOUND) + (UPPER_BOUND - live) * (
            SMALL_MODEL_SLOP - BIG_MODEL_SLOP)),
            (UPPER_BOUND - LOWER_BOUND) * ARENA_SIZE,
        )
    }
}

/// The number of arenas after a collection that began with `arenas` of them and found
/// `live` nodes alive: as many as the nodes ask for, but no fewer than before and, if
/// more are needed, no more than an allocator can have.
pub open spec fn arenas_after(arenas: int, live: int) -> int {
    let wanted = if arenas_wanted(live) > MAX_ARENAS {
        MAX_ARENAS as int
    } else {
        arenas_wanted(live)
    };
    if wanted > arenas {
        wanted
    } else {
        arenas
    }
}

/// The count of collections after one more: it stays at the largest `u64`.
pub open spec fn counted_collection(count: u64) -> u64 {
    if count == u64::MAX {
        count
    } else {
        (count + 1) as u64
    }
}

/// Whether the node at `i` is in `after` what a collection makes of the node in `swept`:
/// the same node if it is not alive; else that node with a mark and with its buffer, if
/// it has one, at a new place in the buckets in use.
pub open spec fn survived(
    swept: AllocatorState,
    after: AllocatorState,
    live: Set<int>,
    i: int,
) -> bool {
    if live.contains(i) {
        &&& after.nodes[i] == swept.nodes[i].with_mark().relocated(after.nodes[i].place())
        &&& after.nodes[i].args is Many ==> after.storage.holds(
            after.nodes[i].place(),
            buffer_bytes(after.nodes[i].capacity()),
        )
    } else {
        after.nodes[i] == swept.nodes[i]
    }
}

/// Whether `after` is the state that a collection with the registered nodes `roots`
/// makes of `before`.
pub open spec fn collected(
    before: AllocatorState,
    after: AllocatorState,
    roots: Seq<DagNodePtr>,
) -> bool {
    let swept = before.after_sweep();
    let live = live_set(graph_of(swept.nodes), roots);
    let count = before.nodes.len() as int;
    &&& after.nodes.len() >= count
    &&& forall|i: int| 0 <= i < count ==> #[trigger] survived(swept, after, live, i)
    &&& forall|i: int| count <= i < after.nodes.len() ==> (#[trigger] after.nodes[i]) == NodeState::fresh()
    &&& live.finite()
    &&& after.active_node_count == live.len()
    &&& after.arena_count() == arenas_after(before.arena_count(), live.len() as int)
    &&& after.current_arena == 0
    &&& after.next_node == 0
    &&& after.end_pointer == if after.arena_count() > 1 {
        ARENA_SIZE as int
    } else {
        ARENA_SIZE - RESERVE_SIZE
    }
    &&& !after.current_arena_past_active_arena
    &&& !after.need_to_collect_garbage
    &&& after.gc_count == counted_collection(before.gc_count)
    &&& (after.last_active_node == swept.last_active_node || (after.last_active_node matches Some(
        last,
    ) && live.contains(last as int)))
    &&& after.storage.unused == before.storage.in_use
    &&& after.storage.condemned == Seq::<usize>::empty()
    &&& forall|id: usize| #[trigger]
        before.storage.unused.contains(id) ==> after.storage.in_use.contains(id)
    &&& after.storage.old_storage_in_use == before.storage.storage_in_use
    &&& after.storage.target >= before.storage.target
    &&& !after.storage.need_to_collect_garbage
}

/// The state when the mark phase of a collection begins: the sweep has tidied the nodes,
/// nothing is counted yet, and the buckets that were unused are the ones in use.
pub open spec fn prepared_to_mark(before: AllocatorState) -> AllocatorState {
    AllocatorState {
        active_node_count: 0,
        storage: before.storage.after_prepare_to_mark(),
        ..before.after_sweep()
    }
}

/// The state after a collection with the registered nodes `roots`.
///
/// The sweep tidies the nodes from the cursor up to the last active node. Then the
/// marking goes from root to root, depth first, and counts the nodes that it marks
/// from 0. The buckets that were in use before are emptied. Arenas are added until
/// there are as many as the nodes that are alive ask for, and the cursor starts
/// again at the first slot, with a reserve if there is one arena only.
pub open spec fn after_collect(before: AllocatorState, roots: Seq<DagNodePtr>) -> AllocatorState {
    let prepared = prepared_to_mark(before);
    let marked = after_mark_all(prepared, roots, 0, prepared.nodes.len());
    let arenas = arenas_after(before.arena_count(), marked.active_node_count as int);
    AllocatorState {
        nodes: marked.nodes + Seq::new(
            (arenas * ARENA_SIZE - marked.nodes.len()) as nat,
            |i: int| NodeState::fresh(),
        ),
        current_arena: 0,
        next_node: 0,
        end_pointer: if arenas > 1 {
            ARENA_SIZE
        } else {
            (ARENA_SIZE - RESERVE_SIZE) as usize
        },
        current_arena_past_active_arena: false,
        need_to_collect_garbage: false,
        gc_count: counted_collection(before.gc_count),
        storage: marked.storage.after_sweep_garbage(),
        ..marked
    }
}

/// Where marking from the roots began without any mark, the marked nodes are the nodes
/// that the roots keep alive.
pub proof fn lemma_marked_is_live(
    before: AllocatorState,
    after: AllocatorState,
    roots: Seq<DagNodePtr>,
)
    requires
        before.nodes.len() <= usize::MAX,
        before.no_marks_between(0, before.nodes.len() as int),
        marked_from(before, after, roots),
    ensures
        marked_set(after.nodes) == live_set(graph_of(before.nodes), roots),
        forall|i: int|
            0 <= i < before.nodes.len() ==> (#[trigger] after.nodes[i]).marked() == live_set(
                graph_of(before.nodes),
                roots,
            ).contains(i),
        live_set(graph_of(before.nodes), roots).finite(),
        after.active_node_count == before.active_node_count + live_set(
            graph_of(before.nodes),
            roots,
        ).len(),
{
    let graph = graph_of(before.nodes);
    let live = live_set(graph, roots);
    let marked = marked_set(after.nodes);
    lemma_marked_from_keeps(before, after, roots);
    lemma_marked_set_finite(after.nodes);
    lemma_marked_set_finite(before.nodes);
    assert(marked_set(before.nodes) =~= Set::<int>::empty());
    reveal(marked_from);
    assert forall|a: int, b: int| marked.contains(a) && #[trigger] edge(graph, a, b) implies marked.contains(
        b,
    ) by {
        assert(newly_marked(before, after, a));
        assert(children_marked(after, a));
        assert(graph_of(after.nodes)[a] == graph[a]);
        let c = choose|c: int| 0 <= c < graph[a].len() && graph[a][c] == b as usize;
        assert(after.nodes[a].children()[c] == b as usize);
        assert(after.nodes[after.nodes[a].children()[c] as int].marked());
    }
    assert forall|i: int| live.contains(i) implies marked.contains(i) by {
        let r = choose|r: int| 0 <= r < roots.len() && reachable(graph, #[trigger] roots[r] as int, i);
        let path = choose|path: Seq<int>| #[trigger]
            crate::dag_node::allocator::graph::is_path(graph, path) && path.first() == roots[r] as int
                && path.last() == i;
        assert(0 <= path[0] < graph.len());
        assert(after.nodes[roots[r] as int].marked());
        lemma_closed_set_holds_reachable(graph, marked, roots[r] as int, i);
    }
    assert forall|i: int| marked.contains(i) implies live.contains(i) by {
        assert(newly_marked(before, after, i));
    }
    assert(marked =~= live);
}

/// Whether `nodes` is `base` with slots that have never been used behind it.
pub open spec fn grown_from(base: Seq<NodeState>, nodes: Seq<NodeState>) -> bool {
    &&& nodes.len() >= base.len()
    &&& forall|i: int| 0 <= i < base.len() ==> (#[trigger] nodes[i]) == base[i]
    &&& forall|i: int| base.len() <= i < nodes.len() ==> (#[trigger] nodes[i]) == NodeState::fresh()
}

/// The steps of a collection, taken one after the other, make a collection.
pub proof fn lemma_collected(
    before: AllocatorState,
    prepared: AllocatorState,
    marked: AllocatorState,
    after: AllocatorState,
    roots: Seq<DagNodePtr>,
)
    requires
        before.wf(),
        before.nodes.len() > 0,
        prepared == (AllocatorState {
            active_node_count: 0,
            storage: before.storage.after_prepare_to_mark(),
            ..before.after_sweep()
        }),
        marked_from(prepared, marked, roots),
        marked == after_mark_all(prepared, roots, 0, prepared.nodes.len()),
        marked.marking_wf(),
        grown_from(marked.nodes, after.nodes),
        after.nodes.len() % (ARENA_SIZE as nat) == 0,
        after.arena_count() == arenas_after(
            before.arena_count(),
            marked.active_node_count as int,
        ),
        after == (AllocatorState {
            nodes: after.nodes,
            current_arena: 0,
            next_node: 0,
            end_pointer: if after.arena_count() > 1 {
                ARENA_SIZE
            } else {
                (ARENA_SIZE - RESERVE_SIZE) as usize
            },
            current_arena_past_active_arena: false,
            need_to_collect_garbage: false,
            gc_count: counted_collection(before.gc_count),
            storage: marked.storage.after_sweep_garbage(),
            ..marked
        }),
        after.storage.wf(),
    ensures
        collected(before, after, roots),
        after == after_collect(before, roots),
        after.wf(),
{
    let swept = before.after_sweep();
    assert(prepared == prepared_to_mark(before));
    assert(after.nodes.len() == after.arena_count() * ARENA_SIZE);
    assert(after.nodes =~= after_collect(before, roots).nodes);
    let graph = graph_of(swept.nodes);
    let live = live_set(graph, roots);
    before.lemma_after_sweep();
    lemma_marked_from_keeps(prepared, marked, roots);
    lemma_marked_is_live(prepared, marked, roots);
    let stored = prepared.storage;
    assert(stored.in_use =~= before.storage.unused);
    assert(marked.storage.unused =~= Seq::<usize>::empty());
    assert(after.storage.unused =~= before.storage.in_use);
    reveal(marked_from);
    assert forall|i: int| 0 <= i < before.nodes.len() implies #[trigger] survived(
        swept,
        after,
        live,
        i,
    ) by {
        assert(node_kept(prepared, marked, i));
        assert(after.nodes[i] == marked.nodes[i]);
        assert(marked.nodes[i].marked() == live.contains(i));
        if live.contains(i) {
            assert(newly_marked(prepared, marked, i));
            if marked.nodes[i].args is Many {
                marked.storage.lemma_sweep_keeps_holds(
                    marked.nodes[i].place(),
                    buffer_bytes(marked.nodes[i].capacity()),
                );
            }
        }
    }
    assert forall|id: usize| #[trigger] before.storage.unused.contains(id) implies after.storage.in_use.contains(
        id,
    ) by {
        assert(stored.in_use.contains(id));
    }
    if after.last_active_node != swept.last_active_node {
        let last = after.last_active_node.unwrap() as int;
        assert(newly_marked(prepared, marked, last));
    }
    assert forall|i: int| 0 <= i < after.nodes.len() implies (#[trigger] after.nodes[i]).wf() by {
        if i < marked.nodes.len() {
            assert(marked.nodes[i].wf());
        }
    }
    assert forall|i: int|
        0 <= i < after.nodes.len() && (#[trigger] after.nodes[i]).marked() implies after.last_active_node.is_some()
        && i <= after.last_active_node.unwrap() by {
        assert(i < marked.nodes.len());
        assert(marked.nodes[i].marked());
    }
}

} // verus!
