//! The search for a free slot, step by step.
//!
//! When the cursor of the node allocator reaches its end pointer, the search goes on in
//! the reserve of the last arena, in the next arena, or in a new arena. This module says
//! what the state of the allocator is between these steps and proves that each step
//! leads to the state that follows a request for a node.
use crate::dag_node::allocator::node_allocator::{
    arena_end, arena_of, fresh_arena, unmarked_between, AllocatorState, MAX_ARENAS,
};
use crate::dag_node::{ARENA_SIZE, RESERVE_SIZE};
use vstd::prelude::*;

verus! {

/// The state `now` is one that a search which began in the state `before` passes through
/// when it has come as far as the end pointer of `now` without finding a free slot.
#[verifier::opaque]
pub open spec fn searching(before: AllocatorState, now: AllocatorState) -> bool {
    let start = before.next_node as int;
    let target = before.allocation_target();
    &&& before.wf()
    &&& start <= before.end_pointer <= now.end_pointer <= target <= before.nodes.len()
    &&& now.nodes == unmarked_between(before.nodes, start, now.end_pointer as int)
    &&& now.active_node_count == before.active_node_count
    &&& now.last_active_node == before.last_active_node
    &&& now.gc_count == before.gc_count
    &&& now.storage == before.storage
    &&& before.nodes.len() == 0 ==> now.current_arena == 0 && now.end_pointer == 0
    &&& before.nodes.len() > 0 ==> {
        &&& before.current_arena <= now.current_arena
        &&& arena_end(now.current_arena as int) <= before.nodes.len()
        &&& now.current_arena * ARENA_SIZE <= now.end_pointer
        &&& (now.end_pointer == arena_end(now.current_arena as int) || (now.end_pointer
            == arena_end(now.current_arena as int) - RESERVE_SIZE && arena_end(
            now.current_arena as int,
        ) == before.nodes.len()))
    }
    &&& now.need_to_collect_garbage == before.need_gc_at(now.end_pointer - 1)
    &&& now.current_arena_past_active_arena == before.past_active_at(now.current_arena as int)
}

/// The state `now` is one that a search which began in the state `before` passes through
/// when it is about to look at the positions from `from` up to the end pointer of `now`.
#[verifier::opaque]
pub open spec fn in_window(before: AllocatorState, now: AllocatorState, from: int) -> bool {
    let start = before.next_node as int;
    let target = before.allocation_target();
    &&& before.wf()
    &&& before.nodes.len() > 0
    &&& start <= before.end_pointer <= from <= now.end_pointer <= before.nodes.len()
    &&& from <= target <= before.nodes.len()
    &&& now.nodes == unmarked_between(before.nodes, start, from)
    &&& now.active_node_count == before.active_node_count
    &&& now.last_active_node == before.last_active_node
    &&& now.gc_count == before.gc_count
    &&& now.storage == before.storage
    &&& before.current_arena <= now.current_arena
    &&& now.current_arena * ARENA_SIZE <= from
    &&& now.end_pointer <= arena_end(now.current_arena as int) <= before.nodes.len()
    &&& (now.end_pointer == arena_end(now.current_arena as int) || (now.end_pointer == arena_end(
        now.current_arena as int,
    ) - RESERVE_SIZE && arena_end(now.current_arena as int) == before.nodes.len()))
    &&& now.current_arena_past_active_arena == before.past_active_at(now.current_arena as int)
    &&& from < now.end_pointer ==> now.end_pointer == before.end_pointer_at(from)
        && now.need_to_collect_garbage == before.need_gc_at(from)
    &&& now.need_to_collect_garbage == before.need_gc_at(now.end_pointer - 1)
}

/// The state `after` is the one that follows `before` when a slot was handed out, but for
/// the cursor and the count, which the caller has yet to set.
pub open spec fn handed_out(before: AllocatorState, after: AllocatorState) -> bool {
    after == (AllocatorState {
        next_node: after.next_node,
        active_node_count: before.active_node_count,
        ..before.after_allocate()
    })
}

/// A search that has run through the window of `before` is searching.
pub proof fn lemma_search_entry(before: AllocatorState, now: AllocatorState)
    requires
        before.wf(),
        before.allocation_target() >= before.end_pointer,
        now == (AllocatorState {
            nodes: unmarked_between(
                before.nodes,
                before.next_node as int,
                before.end_pointer as int,
            ),
            ..before
        }),
    ensures
        searching(before, now),
{
    reveal(searching);
    before.lemma_first_unmarked(before.next_node as int);
}

/// A search adds no arena before it ends.
pub proof fn lemma_search_len(before: AllocatorState, now: AllocatorState)
    requires
        searching(before, now),
    ensures
        now.nodes.len() == before.nodes.len(),
        now.end_pointer <= before.nodes.len(),
{
    reveal(searching);
}

/// What is known of the arenas while searching among at least one.
pub proof fn lemma_search_bounds(before: AllocatorState, now: AllocatorState)
    requires
        searching(before, now),
        before.nodes.len() > 0,
    ensures
        now.nodes.len() == before.nodes.len(),
        before.nodes.len() <= MAX_ARENAS * ARENA_SIZE,
        (now.current_arena + 1) * ARENA_SIZE <= before.nodes.len(),
        now.current_arena * ARENA_SIZE <= now.end_pointer <= (now.current_arena + 1) * ARENA_SIZE,
        before.arena_count() * ARENA_SIZE == before.nodes.len(),
        now.last_active_node == before.last_active_node,
{
    reveal(searching);
}

/// The first arena of all: its first slot is handed out.
pub proof fn lemma_first_arena(before: AllocatorState, now: AllocatorState, after: AllocatorState)
    requires
        searching(before, now),
        before.nodes.len() == 0,
        after == (AllocatorState {
            nodes: now.nodes + fresh_arena(),
            current_arena: 0,
            end_pointer: (ARENA_SIZE - RESERVE_SIZE) as usize,
            ..now
        }),
    ensures
        before.can_allocate(),
        before.allocation_target() == 0,
        handed_out(before, after),
{
    reveal(searching);
    assert(unmarked_between(before.nodes, 0, 0) =~= before.nodes);
    assert(after.nodes =~= before.after_allocate().nodes);
}

/// The search enters the reserve of the last arena.
pub proof fn lemma_enter_reserve(before: AllocatorState, now: AllocatorState, after: AllocatorState)
    requires
        searching(before, now),
        before.nodes.len() > 0,
        arena_end(now.current_arena as int) == before.nodes.len(),
        now.end_pointer != arena_end(now.current_arena as int),
        after == (AllocatorState {
            need_to_collect_garbage: true,
            next_node: now.end_pointer,
            end_pointer: arena_end(now.current_arena as int) as usize,
            ..now
        }),
    ensures
        in_window(before, after, now.end_pointer as int),
        after.end_pointer > now.end_pointer,
{
    reveal(searching);
    reveal(in_window);
}

/// No slot is free and there is no room for an arena.
pub proof fn lemma_no_room(before: AllocatorState, now: AllocatorState, after: AllocatorState)
    requires
        searching(before, now),
        before.nodes.len() > 0,
        arena_end(now.current_arena as int) == before.nodes.len(),
        now.end_pointer == arena_end(now.current_arena as int),
        before.arena_count() >= MAX_ARENAS,
        after == (AllocatorState {
            need_to_collect_garbage: true,
            next_node: now.end_pointer,
            ..now
        }),
    ensures
        !before.can_allocate(),
        after == before.after_allocate(),
{
    reveal(searching);
}

/// No slot is free: the first slot of a new arena is handed out.
pub proof fn lemma_new_arena(before: AllocatorState, now: AllocatorState, after: AllocatorState)
    requires
        searching(before, now),
        before.nodes.len() > 0,
        arena_end(now.current_arena as int) == before.nodes.len(),
        now.end_pointer == arena_end(now.current_arena as int),
        before.arena_count() < MAX_ARENAS,
        after == (AllocatorState {
            nodes: now.nodes + fresh_arena(),
            need_to_collect_garbage: true,
            current_arena_past_active_arena: now.current_arena_past_active_arena || (
            now.last_active_node.is_some() && arena_of(now.last_active_node.unwrap() as int)
                == now.current_arena),
            current_arena: (now.current_arena + 1) as usize,
            end_pointer: (arena_end(now.current_arena as int) + ARENA_SIZE) as usize,
            ..now
        }),
    ensures
        before.can_allocate(),
        before.allocation_target() == arena_end(now.current_arena as int),
        handed_out(before, after),
{
    reveal(searching);
    assert(after.nodes =~= before.after_allocate().nodes);
}

/// The search enters the next arena.
pub proof fn lemma_enter_next_arena(before: AllocatorState, now: AllocatorState, after: AllocatorState)
    requires
        searching(before, now),
        before.nodes.len() > 0,
        arena_end(now.current_arena as int) < before.nodes.len(),
        after == (AllocatorState {
            current_arena_past_active_arena: now.current_arena_past_active_arena || (
            now.last_active_node.is_some() && arena_of(now.last_active_node.unwrap() as int)
                == now.current_arena),
            current_arena: (now.current_arena + 1) as usize,
            next_node: arena_end(now.current_arena as int) as usize,
            end_pointer: if arena_end(now.current_arena + 1) == before.nodes.len() {
                (arena_end(now.current_arena + 1) - RESERVE_SIZE) as usize
            } else {
                arena_end(now.current_arena + 1) as usize
            },
            ..now
        }),
    ensures
        in_window(before, after, arena_end(now.current_arena as int)),
        after.end_pointer > now.end_pointer,
        after.end_pointer <= before.nodes.len(),
{
    reveal(searching);
    reveal(in_window);
}

/// In a window the search is for the position that the request gets.
pub proof fn lemma_window_target(before: AllocatorState, now: AllocatorState, from: int)
    requires
        in_window(before, now, from),
    ensures
        now.first_unmarked(from) == before.allocation_target(),
        now.nodes.len() == before.nodes.len(),
        from <= now.end_pointer <= before.nodes.len(),
{
    reveal(in_window);
    let start = before.next_node as int;
    before.lemma_first_unmarked(start);
    before.lemma_first_unmarked_skip(start, from);
    lemma_first_unmarked_agrees(before, now, from);
}

/// The search found a free slot in its window.
pub proof fn lemma_window_found(
    before: AllocatorState,
    now: AllocatorState,
    after: AllocatorState,
    from: int,
)
    requires
        in_window(before, now, from),
        before.allocation_target() < now.end_pointer,
        after == (AllocatorState {
            nodes: unmarked_between(now.nodes, from, before.allocation_target()).update(
                before.allocation_target(),
                now.nodes[before.allocation_target()].destructed(),
            ),
            ..now
        }),
    ensures
        before.can_allocate(),
        handed_out(before, after),
{
    reveal(in_window);
    let target = before.allocation_target();
    assert(after.nodes =~= before.after_allocate().nodes);
    assert(arena_of(target) == now.current_arena);
    lemma_window_fields(before, now, from, target);
}

/// Within a window it does not matter for the end pointer and the request for a
/// collection which slot is handed out.
pub proof fn lemma_window_fields(before: AllocatorState, now: AllocatorState, from: int, q: int)
    requires
        in_window(before, now, from),
        from <= q < now.end_pointer,
    ensures
        now.end_pointer == before.end_pointer_at(q),
        now.need_to_collect_garbage == before.need_gc_at(q),
        arena_of(q) == now.current_arena,
{
    reveal(in_window);
    assert(arena_of(q) == now.current_arena);
    assert(arena_of(from) == now.current_arena);
}

/// The search found no free slot in its window.
pub proof fn lemma_window_exhausted(
    before: AllocatorState,
    now: AllocatorState,
    after: AllocatorState,
    from: int,
)
    requires
        in_window(before, now, from),
        before.allocation_target() >= now.end_pointer,
        after == (AllocatorState {
            nodes: unmarked_between(now.nodes, from, now.end_pointer as int),
            ..now
        }),
    ensures
        searching(before, after),
{
    reveal(searching);
    reveal(in_window);
    assert(after.nodes =~= unmarked_between(
        before.nodes,
        before.next_node as int,
        now.end_pointer as int,
    ));
}

/// The search for an unmarked node finds the same position in two rows that agree, from
/// `from` on, on which nodes are marked.
pub proof fn lemma_first_unmarked_agrees(one: AllocatorState, other: AllocatorState, from: int)
    requires
        one.nodes.len() == other.nodes.len(),
        0 <= from <= one.nodes.len(),
        forall|i: int|
            from <= i < one.nodes.len() ==> (#[trigger] other.nodes[i]).marked()
                == one.nodes[i].marked(),
    ensures
        one.first_unmarked(from) == other.first_unmarked(from),
    decreases one.nodes.len() - from,
{
    if from < one.nodes.len() {
        assert(other.nodes[from].marked() == one.nodes[from].marked());
        if one.nodes[from].marked() {
            lemma_first_unmarked_agrees(one, other, from + 1);
        }
    }
}

} // verus!
