//! What the mark phase does, as a relation between the state before and the state after.
//!
//! Marking from some nodes marks them and whatever they reach through unmarked nodes. A
//! node that gets its mark is counted, and its buffer is copied to a new place in the
//! buckets in use. Nothing else changes: the graph is the same before and after.
use crate::dag_node::allocator::graph::{
    edge, graph_of, lemma_mark_one, lemma_marked_set_finite, lemma_marked_set_grows,
    lemma_reachable_self, lemma_reachable_through_child, marked_set, reachable, reachable_from,
};
use crate::dag_node::allocator::node_allocator::{counted_up, AllocatorState};
use crate::dag_node::allocator::node_vector::buffer_bytes;
use crate::dag_node::node::DagNodePtr;
use vstd::prelude::*;

verus! {

/// Whether the node at `i` is marked in `after` and was not in `before`.
pub open spec fn newly_marked(before: AllocatorState, after: AllocatorState, i: int) -> bool {
    &&& 0 <= i < before.nodes.len()
    &&& i < after.nodes.len()
    &&& after.nodes[i].marked()
    &&& !before.nodes[i].marked()
}

/// Whether every child of the node at `i` that is a position in the arenas is marked.
pub open spec fn children_marked(state: AllocatorState, i: int) -> bool {
    forall|c: int|
        0 <= c < state.nodes[i].children().len() && (#[trigger] state.nodes[i].children()[c])
            < state.nodes.len() ==> state.nodes[state.nodes[i].children()[c] as int].marked()
}

/// Whether the node at `i` is in `after` what marking makes of it: the node that it was,
/// if it did not get its mark now; else that node with its mark and with its buffer, if
/// it has one, at a place that the storage allocator has handed out.
pub open spec fn node_kept(before: AllocatorState, after: AllocatorState, i: int) -> bool {
    if newly_marked(before, after, i) {
        &&& after.nodes[i] == before.nodes[i].with_mark().relocated(after.nodes[i].place())
        &&& after.nodes[i].args is Many ==> after.storage.holds(
            after.nodes[i].place(),
            buffer_bytes(after.nodes[i].capacity()),
        )
    } else {
        after.nodes[i] == before.nodes[i]
    }
}

/// Whether `after` is the state that marking from `starts` makes of `before`.
///
/// The graph is the same. Every one of `starts` that is a position in the arenas is
/// marked. A node that got its mark is reached from one of `starts`, all its children
/// are marked, and its buffer lies where the storage allocator placed it. The count of
/// active nodes has grown by the number of nodes that got their mark. The last active
/// node has not moved back, and where it has moved up it is a node that got its mark.
/// The storage allocator has handed out storage and done nothing else.
#[verifier::opaque]
pub open spec fn marked_from(
    before: AllocatorState,
    after: AllocatorState,
    starts: Seq<DagNodePtr>,
) -> bool {
    let graph = graph_of(before.nodes);
    &&& after.nodes.len() == before.nodes.len()
    &&& graph_of(after.nodes) == graph
    &&& after.current_arena == before.current_arena
    &&& after.next_node == before.next_node
    &&& after.end_pointer == before.end_pointer
    &&& after.current_arena_past_active_arena == before.current_arena_past_active_arena
    &&& after.need_to_collect_garbage == before.need_to_collect_garbage
    &&& after.gc_count == before.gc_count
    &&& forall|i: int| 0 <= i < before.nodes.len() ==> #[trigger] node_kept(before, after, i)
    &&& forall|k: int|
        0 <= k < starts.len() && (#[trigger] starts[k]) < before.nodes.len()
            ==> after.nodes[starts[k] as int].marked()
    &&& forall|i: int| #[trigger]
        newly_marked(before, after, i) ==> reachable_from(graph, starts, i) && children_marked(
            after,
            i,
        )
    &&& after.active_node_count == before.active_node_count + marked_set(after.nodes).len()
        - marked_set(before.nodes).len()
    &&& (after.last_active_node == before.last_active_node || (after.last_active_node matches Some(
        last,
    ) && newly_marked(before, after, last as int)))
    &&& (before.last_active_node matches Some(last) ==> after.last_active_node.is_some() && last
        <= after.last_active_node.unwrap())
    &&& before.storage.extended_by(after.storage)
}

/// What a call of `mark` on `node` makes of `before`: it marks from `node`, and it
/// changes nothing where `node` is marked or no position in the arenas.
pub open spec fn marks(before: AllocatorState, after: AllocatorState, node: DagNodePtr) -> bool {
    &&& marked_from(before, after, seq![node])
    &&& (node >= before.nodes.len() || before.nodes[node as int].marked()) ==> after == before
}

/// Whether the count of active nodes can grow by the number of unmarked nodes.
pub open spec fn count_has_room(state: AllocatorState) -> bool {
    state.active_node_count + state.nodes.len() - marked_set(state.nodes).len() <= usize::MAX
}

/// Marking from no node at all changes nothing.
pub proof fn lemma_marked_from_nothing(state: AllocatorState)
    ensures
        marked_from(state, state, Seq::<DagNodePtr>::empty()),
{
    reveal(marked_from);
    assert forall|i: int| 0 <= i < state.nodes.len() implies #[trigger] node_kept(
        state,
        state,
        i,
    ) by {}
    state.storage.lemma_extended_by_itself();
}

/// Marking from a node that is marked, or that is no position in the arenas, changes
/// nothing.
pub proof fn lemma_marked_from_done(state: AllocatorState, node: DagNodePtr)
    requires
        node >= state.nodes.len() || state.nodes[node as int].marked(),
    ensures
        marked_from(state, state, seq![node]),
{
    reveal(marked_from);
    assert forall|i: int| 0 <= i < state.nodes.len() implies #[trigger] node_kept(
        state,
        state,
        i,
    ) by {}
    state.storage.lemma_extended_by_itself();
}

/// What marking keeps.
pub proof fn lemma_marked_from_keeps(
    before: AllocatorState,
    after: AllocatorState,
    starts: Seq<DagNodePtr>,
)
    requires
        marked_from(before, after, starts),
    ensures
        after.nodes.len() == before.nodes.len(),
        graph_of(after.nodes) == graph_of(before.nodes),
        after.current_arena == before.current_arena,
        after.next_node == before.next_node,
        after.end_pointer == before.end_pointer,
        after.current_arena_past_active_arena == before.current_arena_past_active_arena,
        after.need_to_collect_garbage == before.need_to_collect_garbage,
        after.gc_count == before.gc_count,
        before.storage.extended_by(after.storage),
        marked_set(before.nodes).subset_of(marked_set(after.nodes)),
        marked_set(before.nodes).len() <= marked_set(after.nodes).len() <= before.nodes.len(),
        after.active_node_count == before.active_node_count + marked_set(after.nodes).len()
            - marked_set(before.nodes).len(),
        count_has_room(before) ==> count_has_room(after),
        forall|k: int|
            0 <= k < starts.len() && (#[trigger] starts[k]) < before.nodes.len()
                ==> after.nodes[starts[k] as int].marked(),
{
    reveal(marked_from);
    assert forall|i: int| 0 <= i < before.nodes.len() && (#[trigger] before.nodes[i]).marked()
        implies after.nodes[i].marked() by {
        assert(node_kept(before, after, i));
    }
    lemma_marked_set_grows(before.nodes, after.nodes);
    lemma_marked_set_finite(after.nodes);
}

/// Marking from some nodes and then from one more is marking from all of them.
pub proof fn lemma_marked_from_one_more(
    before: AllocatorState,
    middle: AllocatorState,
    after: AllocatorState,
    starts: Seq<DagNodePtr>,
    next: DagNodePtr,
)
    requires
        marked_from(before, middle, starts),
        marked_from(middle, after, seq![next]),
    ensures
        marked_from(before, after, starts.push(next)),
{
    lemma_marked_from_keeps(before, middle, starts);
    lemma_marked_from_keeps(middle, after, seq![next]);
    reveal(marked_from);
    let graph = graph_of(before.nodes);
    let all = starts.push(next);
    before.storage.lemma_extended_twice(middle.storage, after.storage);
    assert forall|i: int| 0 <= i < before.nodes.len() implies #[trigger] node_kept(
        before,
        after,
        i,
    ) by {
        assert(node_kept(before, middle, i));
        assert(node_kept(middle, after, i));
        if newly_marked(before, middle, i) {
            if middle.nodes[i].args is Many {
                middle.storage.lemma_extension_holds(
                    after.storage,
                    middle.nodes[i].place(),
                    buffer_bytes(middle.nodes[i].capacity()),
                );
            }
        }
    }
    assert forall|k: int|
        0 <= k < all.len() && (#[trigger] all[k]) < before.nodes.len()
        implies after.nodes[all[k] as int].marked() by {
        if k < starts.len() {
            assert(all[k] == starts[k]);
            assert(middle.nodes[starts[k] as int].marked());
            assert(node_kept(middle, after, starts[k] as int));
        } else {
            assert(seq![next][0] == next);
        }
    }
    assert forall|i: int| #[trigger] newly_marked(before, after, i) implies reachable_from(
        graph,
        all,
        i,
    ) && children_marked(after, i) by {
        assert(node_kept(before, middle, i));
        assert(node_kept(middle, after, i));
        if newly_marked(before, middle, i) {
            let r = choose|r: int|
                0 <= r < starts.len() && reachable(graph, #[trigger] starts[r] as int, i);
            assert(all[r] == starts[r]);
            assert(children_marked(middle, i));
            assert(after.nodes[i] == middle.nodes[i]);
            assert forall|c: int|
                0 <= c < after.nodes[i].children().len() && (
                #[trigger] after.nodes[i].children()[c]) < after.nodes.len()
                implies after.nodes[after.nodes[i].children()[c] as int].marked() by {
                let child = middle.nodes[i].children()[c] as int;
                assert(middle.nodes[child].marked());
                assert(node_kept(middle, after, child));
            }
        } else {
            assert(newly_marked(middle, after, i));
            assert(reachable(graph, seq![next][0] as int, i));
            assert(all[starts.len() as int] == next);
        }
    }
    if after.last_active_node != before.last_active_node {
        if after.last_active_node == middle.last_active_node {
            let last = middle.last_active_node.unwrap() as int;
            assert(node_kept(middle, after, last));
        } else {
            let last = after.last_active_node.unwrap() as int;
            assert(node_kept(before, middle, last));
        }
    }
}

/// Marking a node is marking it, counting it and moving its buffer, and then marking
/// from its children.
pub proof fn lemma_marked_from_node(
    before: AllocatorState,
    middle: AllocatorState,
    after: AllocatorState,
    node: DagNodePtr,
)
    requires
        node < before.nodes.len(),
        !before.nodes[node as int].marked(),
        count_has_room(before),
        middle.nodes == before.nodes.update(
            node as int,
            before.nodes[node as int].with_mark().relocated(middle.nodes[node as int].place()),
        ),
        middle.nodes[node as int].args is Many ==> middle.storage.holds(
            middle.nodes[node as int].place(),
            buffer_bytes(middle.nodes[node as int].capacity()),
        ),
        middle.current_arena == before.current_arena,
        middle.next_node == before.next_node,
        middle.end_pointer == before.end_pointer,
        middle.current_arena_past_active_arena == before.current_arena_past_active_arena,
        middle.need_to_collect_garbage == before.need_to_collect_garbage,
        middle.gc_count == before.gc_count,
        middle.active_node_count == before.active_node_count + 1,
        middle.last_active_node == before.last_active_node || middle.last_active_node == Some(
            node,
        ),
        before.last_active_node matches Some(last) ==> middle.last_active_node.is_some() && last
            <= middle.last_active_node.unwrap(),
        before.storage.extended_by(middle.storage),
        marked_from(middle, after, before.nodes[node as int].children()),
    ensures
        marked_from(before, after, seq![node]),
{
    let p = node as int;
    let graph = graph_of(before.nodes);
    let kids = before.nodes[p].children();
    lemma_marked_from_keeps(middle, after, kids);
    reveal(marked_from);
    assert(middle.nodes[p].children() == kids);
    assert(graph_of(middle.nodes) =~= graph);
    lemma_mark_one(before.nodes, middle.nodes, p);
    before.storage.lemma_extended_twice(middle.storage, after.storage);
    lemma_reachable_self(graph, p);
    assert(seq![node][0] == node);
    assert forall|i: int| 0 <= i < before.nodes.len() implies #[trigger] node_kept(
        before,
        after,
        i,
    ) by {
        assert(node_kept(middle, after, i));
        if i == p {
            if middle.nodes[p].args is Many {
                middle.storage.lemma_extension_holds(
                    after.storage,
                    middle.nodes[p].place(),
                    buffer_bytes(middle.nodes[p].capacity()),
                );
            }
        }
    }
    assert(node_kept(middle, after, p));
    assert forall|i: int| #[trigger] newly_marked(before, after, i) implies reachable_from(
        graph,
        seq![node],
        i,
    ) && children_marked(after, i) by {
        assert(node_kept(middle, after, i));
        if i == p {
            assert(reachable(graph, seq![node][0] as int, p));
            assert forall|c: int|
                0 <= c < after.nodes[p].children().len() && (
                #[trigger] after.nodes[p].children()[c]) < after.nodes.len()
                implies after.nodes[after.nodes[p].children()[c] as int].marked() by {
                assert(graph_of(after.nodes)[p] == graph[p]);
                assert(after.nodes[p].children() == kids);
                assert(kids[c] < middle.nodes.len());
            }
        } else {
            assert(newly_marked(middle, after, i));
            let r = choose|r: int|
                0 <= r < kids.len() && reachable(graph, #[trigger] kids[r] as int, i);
            let child = kids[r] as int;
            assert(graph[p] == kids);
            assert(0 <= child < graph.len()) by {
                let path = choose|path: Seq<int>| #[trigger]
                    crate::dag_node::allocator::graph::is_path(graph, path) && path.first()
                        == child && path.last() == i;
                assert(0 <= path[0] < graph.len());
            }
            assert(edge(graph, p, child));
            lemma_reachable_through_child(graph, p, child, i);
            assert(reachable(graph, seq![node][0] as int, i));
        }
    }
    if after.last_active_node != before.last_active_node {
        if after.last_active_node == middle.last_active_node {
            assert(node_kept(middle, after, p));
        } else {
            let last = after.last_active_node.unwrap() as int;
            assert(node_kept(middle, after, last));
        }
    }
}

/// The last active node once the node at `node` has a mark: `node` if it lies behind
/// the one before.
pub open spec fn raised(last_active_node: Option<usize>, node: usize) -> Option<usize> {
    match last_active_node {
        Some(last) => if last < node {
            Some(node)
        } else {
            Some(last)
        },
        None => Some(node),
    }
}

/// The state after the unmarked node at `node` got its mark: the node is counted, the
/// last active node is at or behind it, and the node's buffer, if it has one, lies at
/// the place that the storage allocator has handed out for it.
pub open spec fn mark_step(state: AllocatorState, node: int) -> AllocatorState {
    let bytes = buffer_bytes(state.nodes[node].capacity()) as usize;
    AllocatorState {
        nodes: state.nodes.update(
            node,
            state.nodes[node].with_mark().relocated(state.storage.placement(bytes)),
        ),
        active_node_count: counted_up(state.active_node_count),
        last_active_node: raised(state.last_active_node, node as usize),
        storage: if state.nodes[node].args is Many {
            state.storage.after_allocate(bytes)
        } else {
            state.storage
        },
        ..state
    }
}

/// The state after marking from the node at `node`, depth first, as far as `fuel` levels
/// down: a node that is marked, or a reference that is no position in the arenas, is
/// left alone; else the node gets its mark, and then the marking goes on from each of
/// its children in order.
pub open spec fn after_mark(state: AllocatorState, node: DagNodePtr, fuel: nat) -> AllocatorState
    decreases fuel, 0nat,
{
    if node >= state.nodes.len() || state.nodes[node as int].marked() || fuel == 0 {
        state
    } else {
        after_mark_all(
            mark_step(state, node as int),
            state.nodes[node as int].children(),
            0,
            (fuel - 1) as nat,
        )
    }
}

/// The state after marking from each of `starts` in order, from the one at `from` on.
pub open spec fn after_mark_all(
    state: AllocatorState,
    starts: Seq<DagNodePtr>,
    from: int,
    fuel: nat,
) -> AllocatorState
    decreases fuel, 1 + starts.len() - from,
{
    if from < 0 || from >= starts.len() {
        state
    } else {
        after_mark_all(after_mark(state, starts[from], fuel), starts, from + 1, fuel)
    }
}

/// The number of nodes without a mark.
pub open spec fn unmarked_count(state: AllocatorState) -> int {
    state.nodes.len() - marked_set(state.nodes).len()
}

/// Giving a node its mark leaves one node less without a mark.
pub proof fn lemma_mark_step_counts(state: AllocatorState, node: int)
    requires
        0 <= node < state.nodes.len(),
        !state.nodes[node].marked(),
    ensures
        mark_step(state, node).nodes.len() == state.nodes.len(),
        unmarked_count(mark_step(state, node)) == unmarked_count(state) - 1,
        unmarked_count(state) >= 1,
{
    lemma_mark_one(state.nodes, mark_step(state, node).nodes, node);
    crate::dag_node::allocator::graph::lemma_unmarked_node_counts(state.nodes, node);
}

/// With enough fuel to reach every node without a mark, marking from a node does the
/// same whatever the fuel, and leaves no more nodes without a mark.
pub proof fn lemma_after_mark_fuel(state: AllocatorState, node: DagNodePtr, fuel: nat, other: nat)
    requires
        fuel >= unmarked_count(state),
        other >= unmarked_count(state),
    ensures
        after_mark(state, node, fuel) == after_mark(state, node, other),
        after_mark(state, node, fuel).nodes.len() == state.nodes.len(),
        unmarked_count(after_mark(state, node, fuel)) <= unmarked_count(state),
    decreases fuel, 0nat,
{
    if node < state.nodes.len() && !state.nodes[node as int].marked() {
        lemma_mark_step_counts(state, node as int);
        lemma_after_mark_all_fuel(
            mark_step(state, node as int),
            state.nodes[node as int].children(),
            0,
            (fuel - 1) as nat,
            (other - 1) as nat,
        );
    }
}

/// With enough fuel to reach every node without a mark, marking from some nodes does
/// the same whatever the fuel, and leaves no more nodes without a mark.
pub proof fn lemma_after_mark_all_fuel(
    state: AllocatorState,
    starts: Seq<DagNodePtr>,
    from: int,
    fuel: nat,
    other: nat,
)
    requires
        fuel >= unmarked_count(state),
        other >= unmarked_count(state),
    ensures
        after_mark_all(state, starts, from, fuel) == after_mark_all(state, starts, from, other),
        after_mark_all(state, starts, from, fuel).nodes.len() == state.nodes.len(),
        unmarked_count(after_mark_all(state, starts, from, fuel)) <= unmarked_count(state),
    decreases fuel, 1 + starts.len() - from,
{
    if 0 <= from < starts.len() {
        lemma_after_mark_fuel(state, starts[from], fuel, other);
        lemma_after_mark_all_fuel(
            after_mark(state, starts[from], fuel),
            starts,
            from + 1,
            fuel,
            other,
        );
    }
}

} // verus!
