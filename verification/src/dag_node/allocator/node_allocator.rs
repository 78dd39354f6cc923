//! The node allocator: it hands out node slots and drives the collection cycle.
//!
//! The slots of all arenas are numbered in one row, arena after arena. A cursor walks
//! that row. Whatever lies before the cursor has been handed out or passed since the
//! last collection; the marks that the last collection left lie between the cursor and
//! the last active node, and the cursor clears them as it passes. A slot without a mark
//! is free.
//!
//! The last arena keeps a reserve of slots at its end. When the cursor reaches the
//! reserve, the allocator asks for a collection, and goes on into the reserve, and then
//! into new arenas, until the caller allows the collection.
use crate::dag_node::allocator::arena::Arena;
use crate::dag_node::allocator::collection::{
    after_collect, arenas_wanted, collected, counted_collection, grown_from, lemma_collected,
    lemma_marked_is_live,
};
use crate::dag_node::allocator::graph::{
    lemma_mark_one, lemma_marked_set_finite, lemma_unmarked_node_counts, marked_set,
};
use crate::dag_node::allocator::marking::{
    after_mark, after_mark_all, count_has_room, lemma_after_mark_fuel, lemma_mark_step_counts,
    lemma_marked_from_done, lemma_marked_from_keeps, lemma_marked_from_node,
    lemma_marked_from_nothing, lemma_marked_from_one_more, mark_step, marked_from, marks,
    unmarked_count,
};
use crate::dag_node::allocator::node_vector::{buffer_bytes, NodeVectorMutRef};
use crate::dag_node::allocator::search::{
    handed_out, lemma_enter_next_arena, lemma_enter_reserve, lemma_first_arena, lemma_new_arena,
    lemma_no_room, lemma_search_bounds, lemma_search_entry, lemma_search_len,
    lemma_window_exhausted, lemma_window_found, lemma_window_target, searching,
};
use crate::dag_node::allocator::bucket::{whole_words, StoragePtr};
use crate::dag_node::allocator::storage_allocator::{
    StorageAllocator, StorageState, MAX_STORAGE_REQUEST,
};
use crate::dag_node::flags::{DagNodeFlag, DagNodeFlags};
use crate::dag_node::node::{DagNode, DagNodeArgument, DagNodePtr, NodeState};
use crate::dag_node::root_container::{mark_roots, RootList};
use crate::dag_node::{ARENA_SIZE, RESERVE_SIZE};
use vstd::prelude::*;

verus! {

/// The slop factor for a small population of nodes.
pub const SMALL_MODEL_SLOP: usize = 8;

/// The slop factor for a big population of nodes.
pub const BIG_MODEL_SLOP: usize = 2;

/// Below this many active nodes the population is small.
pub const LOWER_BOUND: usize = 4 * 1024 * 1024;

/// From this many active nodes on the population is big.
pub const UPPER_BOUND: usize = 32 * 1024 * 1024;

/// The most arenas that an allocator can have: their slots can still be counted in 32
/// bits.
pub const MAX_ARENAS: usize = 786_624;

/// What a node allocator holds, as mathematical values.
pub ghost struct AllocatorState {
    /// The nodes in the slots of all arenas, in one row.
    pub nodes: Seq<NodeState>,
    /// The number of the arena that the cursor is in.
    pub current_arena: usize,
    /// The cursor: the position at which the search for a free slot goes on.
    pub next_node: usize,
    /// The position at which the search leaves the current arena or enters its reserve.
    pub end_pointer: usize,
    /// The last position that can hold a mark, if any can.
    pub last_active_node: Option<usize>,
    /// Whether the cursor has left the arena of the last active node.
    pub current_arena_past_active_arena: bool,
    /// Whether the arenas ask for a collection.
    pub need_to_collect_garbage: bool,
    /// The count of active nodes.
    pub active_node_count: usize,
    /// The number of collections so far.
    pub gc_count: u64,
    /// The storage allocator.
    pub storage: StorageState,
}

/// The position behind the last slot of the arena with the given number.
pub open spec fn arena_end(arena: int) -> int {
    (arena + 1) * ARENA_SIZE
}

/// The number of the arena that holds the given position.
pub open spec fn arena_of(position: int) -> int {
    position / (ARENA_SIZE as int)
}

/// The count after one more node: it starts again at 0 behind the largest `usize`.
pub open spec fn counted_up(count: usize) -> usize {
    if count == usize::MAX {
        0
    } else {
        (count + 1) as usize
    }
}

/// `nodes` with the marks cleared at the positions from `from` up to, not including, `to`.
pub open spec fn unmarked_between(nodes: Seq<NodeState>, from: int, to: int) -> Seq<NodeState> {
    Seq::new(
        nodes.len(),
        |i: int|
            if from <= i < to {
                nodes[i].unmarked()
            } else {
                nodes[i]
            },
    )
}

/// `nodes` after the positions from `from` up to, not including, `to` were tidied: a
/// marked node there has lost its mark, and any other node there has given up its buffer
/// and lost all its flags.
pub open spec fn tidied_between(nodes: Seq<NodeState>, from: int, to: int) -> Seq<NodeState> {
    Seq::new(
        nodes.len(),
        |i: int|
            if from <= i < to {
                if nodes[i].marked() {
                    nodes[i].unmarked()
                } else {
                    nodes[i].tidied()
                }
            } else {
                nodes[i]
            },
    )
}

/// A row of `ARENA_SIZE` slots that have never been used.
pub open spec fn fresh_arena() -> Seq<NodeState> {
    Seq::new(ARENA_SIZE as nat, |i: int| NodeState::fresh())
}

impl AllocatorState {
    /// The number of arenas.
    pub open spec fn arena_count(self) -> int {
        arena_of(self.nodes.len() as int)
    }

    /// Whether no node at a position from `from` up to, not including, `to` has a mark.
    pub open spec fn no_marks_between(self, from: int, to: int) -> bool {
        forall|i: int| from <= i < to && 0 <= i < self.nodes.len() ==> !(#[trigger] self.nodes[i]).marked()
    }

    /// The arenas are whole and not too many, every node's buffer holds no more than it
    /// has room for, the storage allocator is well formed, and the last active node is
    /// a position in the arenas.
    pub open spec fn shape_wf(self) -> bool {
        &&& self.nodes.len() % (ARENA_SIZE as nat) == 0
        &&& self.nodes.len() <= MAX_ARENAS * ARENA_SIZE
        &&& forall|i: int| 0 <= i < self.nodes.len() ==> (#[trigger] self.nodes[i]).wf()
        &&& self.storage.wf()
        &&& (self.last_active_node matches Some(last) ==> last < self.nodes.len())
    }

    /// The cursor lies in its arena, not behind the end pointer, and the end pointer is
    /// the end of that arena or, in the last arena only, the start of its reserve.
    pub open spec fn cursor_wf(self) -> bool {
        if self.nodes.len() == 0 {
            self.current_arena == 0 && self.next_node == 0 && self.end_pointer == 0
        } else {
            let end = arena_end(self.current_arena as int);
            &&& end <= self.nodes.len()
            &&& self.current_arena * ARENA_SIZE <= self.next_node <= self.end_pointer <= end
            &&& (self.end_pointer == end || (self.end_pointer == end - RESERVE_SIZE && end
                == self.nodes.len()))
        }
    }

    /// No node before the cursor has a mark, and none behind the last active node. Once
    /// the cursor has left the arena of the last active node, no node has one.
    pub open spec fn marks_wf(self) -> bool {
        &&& self.no_marks_between(0, self.next_node as int)
        &&& match self.last_active_node {
            Some(last) => if self.current_arena_past_active_arena {
                self.no_marks_between(0, self.nodes.len() as int)
            } else {
                self.no_marks_between(last + 1, self.nodes.len() as int)
            },
            None => self.no_marks_between(0, self.nodes.len() as int),
        }
    }

    /// The state is one that the allocator can be in between two calls: no bucket is
    /// condemned, and the shape, the cursor and the marks are as they should be.
    pub open spec fn wf(self) -> bool {
        &&& self.shape_wf()
        &&& self.cursor_wf()
        &&& self.marks_wf()
        &&& self.storage.condemned.len() == 0
    }

    /// The state is one that the allocator can be in during a mark phase: marks may lie
    /// anywhere up to the last active node.
    pub open spec fn marking_wf(self) -> bool {
        &&& self.shape_wf()
        &&& forall|i: int|
            0 <= i < self.nodes.len() && (#[trigger] self.nodes[i]).marked()
                ==> self.last_active_node.is_some() && i <= self.last_active_node.unwrap()
    }

    /// The first position from `from` on that does not hold a marked node. It is the
    /// position behind the last slot if every node from `from` on is marked.
    pub open spec fn first_unmarked(self, from: int) -> int
        decreases self.nodes.len() - from,
    {
        if from < 0 || from >= self.nodes.len() {
            from
        } else if !self.nodes[from].marked() {
            from
        } else {
            self.first_unmarked(from + 1)
        }
    }

    /// The position that the next request for a node gets: the first from the cursor on
    /// that holds no marked node. It lies behind the last slot if there is none.
    pub open spec fn allocation_target(self) -> int {
        self.first_unmarked(self.next_node as int)
    }

    /// Whether the next request for a node can be granted: there is a free slot from the
    /// cursor on, or room for one more arena.
    pub open spec fn can_allocate(self) -> bool {
        self.allocation_target() < self.nodes.len() || self.arena_count() < MAX_ARENAS
    }

    /// The position from which on a slot is handed out only together with a request
    /// for a collection: where the search enters the reserve of the last arena.
    pub open spec fn collection_threshold(self) -> int {
        if arena_end(self.current_arena as int) == self.nodes.len() {
            self.end_pointer as int
        } else {
            self.nodes.len() - RESERVE_SIZE
        }
    }

    /// Whether a collection is asked for once the slot at `p` has been handed out.
    pub open spec fn need_gc_at(self, p: int) -> bool {
        self.need_to_collect_garbage || (self.nodes.len() > 0 && p >= self.collection_threshold())
    }

    /// Whether the cursor has left the arena of the last active node once it stands in
    /// the arena with the number `arena`.
    pub open spec fn past_active_at(self, arena: int) -> bool {
        self.current_arena_past_active_arena || (self.nodes.len() > 0
            && self.last_active_node.is_some() && self.current_arena <= arena_of(
            self.last_active_node.unwrap() as int,
        ) < arena)
    }

    /// The end pointer once the slot at `p` has been handed out: the end of the arena of
    /// `p`, or the start of its reserve if that arena is the last and the search has
    /// not entered the reserve. An arena that is added when all others are full has no
    /// reserve; the very first arena has one.
    pub open spec fn end_pointer_at(self, p: int) -> int {
        let end = arena_end(arena_of(p));
        if p >= self.nodes.len() {
            if self.nodes.len() == 0 {
                end - RESERVE_SIZE
            } else {
                end
            }
        } else if arena_of(p) == self.current_arena {
            if p < self.end_pointer {
                self.end_pointer as int
            } else {
                end
            }
        } else if end == self.nodes.len() && p < end - RESERVE_SIZE {
            end - RESERVE_SIZE
        } else {
            end
        }
    }

    /// The state after a request for a node.
    ///
    /// The marks from the cursor up to the slot handed out are cleared, and the node in
    /// that slot has given up its buffer. Where no slot is free a new arena is added and
    /// its first slot handed out. Where there is no room for one either, nothing is
    /// handed out and the cursor stands at the end of the last arena.
    pub open spec fn after_allocate(self) -> AllocatorState {
        let p = self.allocation_target();
        let swept = unmarked_between(self.nodes, self.next_node as int, p);
        if p < self.nodes.len() {
            AllocatorState {
                nodes: swept.update(p, swept[p].destructed()),
                current_arena: arena_of(p) as usize,
                next_node: (p + 1) as usize,
                end_pointer: self.end_pointer_at(p) as usize,
                current_arena_past_active_arena: self.past_active_at(arena_of(p)),
                need_to_collect_garbage: self.need_gc_at(p),
                active_node_count: counted_up(self.active_node_count),
                ..self
            }
        } else if self.arena_count() < MAX_ARENAS {
            AllocatorState {
                nodes: swept + fresh_arena(),
                current_arena: arena_of(p) as usize,
                next_node: (p + 1) as usize,
                end_pointer: self.end_pointer_at(p) as usize,
                current_arena_past_active_arena: self.past_active_at(arena_of(p)),
                need_to_collect_garbage: self.need_gc_at(p),
                active_node_count: counted_up(self.active_node_count),
                ..self
            }
        } else {
            AllocatorState {
                nodes: swept,
                current_arena: (self.arena_count() - 1) as usize,
                next_node: self.nodes.len() as usize,
                end_pointer: self.nodes.len() as usize,
                current_arena_past_active_arena: self.past_active_at(self.arena_count() - 1),
                need_to_collect_garbage: true,
                ..self
            }
        }
    }

    /// The position up to which, not including it, a collection has to tidy the nodes
    /// from the cursor on: the one behind the last active node, or the cursor itself
    /// where the lazy sweep has come further than that.
    pub open spec fn sweep_limit(self) -> int {
        match self.last_active_node {
            Some(last) => if self.current_arena_past_active_arena || last + 1 < self.next_node {
                self.next_node as int
            } else {
                last + 1
            },
            None => self.next_node as int,
        }
    }

    /// The last position from `from` up to, not including, `to` that holds a marked node.
    pub open spec fn last_marked_between(self, from: int, to: int) -> Option<int>
        decreases to - from,
    {
        if to <= from {
            None
        } else if 0 <= to - 1 < self.nodes.len() && self.nodes[to - 1].marked() {
            Some(to - 1)
        } else {
            self.last_marked_between(from, to - 1)
        }
    }

    /// The last active node that a sweep finds. It is the last marked node that the
    /// sweep passes, or the node before the cursor if it passes none. There is none
    /// where the sweep passes no marked node and the cursor is at the first slot.
    pub open spec fn swept_last_active(self, from: int, to: int) -> Option<usize> {
        match self.last_marked_between(from, to) {
            Some(last) => Some(last as usize),
            None => if self.next_node > 0 {
                Some((self.next_node - 1) as usize)
            } else {
                None
            },
        }
    }

    /// The state after the sweep that begins a collection. It finishes what the lazy
    /// sweep has left: from the cursor up to the last active node, a marked node loses
    /// its mark, and any other node gives up its buffer and loses all its flags.
    pub open spec fn after_sweep(self) -> AllocatorState {
        let from = self.next_node as int;
        let to = self.sweep_limit();
        AllocatorState {
            nodes: tidied_between(self.nodes, from, to),
            last_active_node: self.swept_last_active(from, to),
            ..self
        }
    }

    /// After the sweep that begins a collection no node is marked, and the allocator is
    /// in a state in which it can be during a mark phase.
    pub proof fn lemma_after_sweep(self)
        requires
            self.wf(),
        ensures
            self.after_sweep().marking_wf(),
            self.after_sweep().no_marks_between(0, self.nodes.len() as int),
            self.after_sweep().nodes.len() == self.nodes.len(),
    {
        let after = self.after_sweep();
        let from = self.next_node as int;
        let to = self.sweep_limit();
        self.lemma_last_marked_between(from, to);
        assert forall|i: int| 0 <= i < after.nodes.len() implies (#[trigger] after.nodes[i]).wf()
            && !after.nodes[i].marked() by {
            assert(self.nodes[i].wf());
            if !(from <= i < to) {
                assert(!self.nodes[i].marked());
            }
        }
    }

    /// The last marked position between two positions lies between them.
    pub proof fn lemma_last_marked_between(self, from: int, to: int)
        ensures
            self.last_marked_between(from, to) matches Some(last) ==> from <= last < to && 0
                <= last < self.nodes.len(),
        decreases to - from,
    {
        if to > from {
            self.lemma_last_marked_between(from, to - 1);
        }
    }

    /// The first unmarked position from `from` on lies between `from` and the end of
    /// the row, every node before it from `from` on is marked, and the node at it is
    /// not.
    pub proof fn lemma_first_unmarked(self, from: int)
        requires
            0 <= from <= self.nodes.len(),
        ensures
            from <= self.first_unmarked(from) <= self.nodes.len(),
            forall|i: int| from <= i < self.first_unmarked(from) ==> (#[trigger] self.nodes[i]).marked(),
            self.first_unmarked(from) < self.nodes.len() ==> !self.nodes[self.first_unmarked(
                from,
            )].marked(),
        decreases self.nodes.len() - from,
    {
        if from < self.nodes.len() && self.nodes[from].marked() {
            self.lemma_first_unmarked(from + 1);
        }
    }

    /// The search goes on behind marked nodes: where every node from `from` up to `to`
    /// is marked, the first unmarked position from `from` on is the first from `to` on.
    pub proof fn lemma_first_unmarked_skip(self, from: int, to: int)
        requires
            0 <= from <= to <= self.nodes.len(),
            forall|i: int| from <= i < to ==> (#[trigger] self.nodes[i]).marked(),
        ensures
            self.first_unmarked(from) == self.first_unmarked(to),
        decreases to - from,
    {
        if from < to {
            assert(self.nodes[from].marked());
            self.lemma_first_unmarked_skip(from + 1, to);
        }
    }

    /// A request for a node takes no arena away and is no collection.
    pub proof fn lemma_after_allocate_keeps(self)
        requires
            self.wf(),
        ensures
            self.after_allocate().nodes.len() >= self.nodes.len(),
            self.after_allocate().gc_count == self.gc_count,
            self.after_allocate().storage == self.storage,
            self.can_allocate() ==> self.allocation_target() < self.after_allocate().nodes.len(),
    {
        self.lemma_first_unmarked(self.next_node as int);
    }

    /// A request for a node leaves the allocator in a state in which it can be between
    /// two calls.
    pub proof fn lemma_after_allocate_wf(self)
        requires
            self.wf(),
        ensures
            self.after_allocate().wf(),
    {
        let p = self.allocation_target();
        let after = self.after_allocate();
        let size = ARENA_SIZE as int;
        self.lemma_first_unmarked(self.next_node as int);
        assert forall|i: int| 0 <= i < after.nodes.len() implies (#[trigger] after.nodes[i]).wf() by {
            if i < self.nodes.len() {
                assert(self.nodes[i].wf());
            }
        }
        assert forall|i: int| 0 <= i < after.next_node && 0 <= i < after.nodes.len() implies !(
        #[trigger] after.nodes[i]).marked() by {
            if i < self.next_node {
                assert(!self.nodes[i].marked());
            }
        }
        if after.current_arena_past_active_arena || self.last_active_node.is_none() {
            assert forall|i: int| 0 <= i < after.nodes.len() implies !(
            #[trigger] after.nodes[i]).marked() by {
                if i < self.nodes.len() {
                    if i >= after.next_node {
                        if !self.current_arena_past_active_arena && self.last_active_node.is_some() {
                            let last = self.last_active_node.unwrap() as int;
                            assert(arena_of(last) < arena_of(after.next_node - 1) || arena_of(last)
                                < after.current_arena);
                            assert(last < i);
                        }
                        assert(!self.nodes[i].marked());
                    }
                }
            }
        } else {
            let last = self.last_active_node.unwrap() as int;
            assert forall|i: int| last + 1 <= i < after.nodes.len() implies !(
            #[trigger] after.nodes[i]).marked() by {
                if i < self.nodes.len() {
                    assert(!self.nodes[i].marked());
                }
            }
        }
    }
}

/// The node allocator.
pub struct Allocator {
    show_gc: bool,
    early_quit: u64,
    arenas: Vec<Arena>,
    current_arena_past_active_arena: bool,
    need_to_collect_garbage: bool,
    current_arena: usize,
    next_node: usize,
    end_pointer: usize,
    last_active_node: Option<usize>,
    active_node_count: usize,
    gc_count: u64,
    storage: StorageAllocator,
}

/// The nodes in the slots of `arenas`, in one row.
pub closed spec fn flatten(arenas: Seq<Arena>) -> Seq<NodeState> {
    Seq::new(
        (arenas.len() * ARENA_SIZE) as nat,
        |i: int| arenas[i / (ARENA_SIZE as int)].data@[i % (ARENA_SIZE as int)]@,
    )
}

/// Every arena has its `ARENA_SIZE` slots and knows the position of its first.
pub closed spec fn arenas_ok(arenas: Seq<Arena>) -> bool {
    &&& arenas.len() <= MAX_ARENAS
    &&& forall|a: int|
        0 <= a < arenas.len() ==> (#[trigger] arenas[a]).data@.len() == ARENA_SIZE && arenas[a].first_node
            == a * ARENA_SIZE
}

/// Changing one node changes the row at that node's position and nowhere else.
proof fn lemma_flatten_update(before: Seq<Arena>, after: Seq<Arena>, p: int)
    requires
        arenas_ok(before),
        after.len() == before.len(),
        0 <= p < before.len() * ARENA_SIZE,
        forall|a: int| 0 <= a < before.len() && a != arena_of(p) ==> after[a] == before[a],
        after[arena_of(p)].data@.len() == ARENA_SIZE,
        after[arena_of(p)].first_node == before[arena_of(p)].first_node,
        forall|s: int|
            0 <= s < ARENA_SIZE && s != p % (ARENA_SIZE as int) ==> after[arena_of(p)].data@[s]
                == before[arena_of(p)].data@[s],
    ensures
        arenas_ok(after),
        flatten(after) == flatten(before).update(
            p,
            after[arena_of(p)].data@[p % (ARENA_SIZE as int)]@,
        ),
{
    let size = ARENA_SIZE as int;
    assert forall|a: int| 0 <= a < after.len() implies (#[trigger] after[a]).data@.len()
        == ARENA_SIZE && after[a].first_node == a * ARENA_SIZE by {
        if a != arena_of(p) {
            assert(after[a] == before[a]);
        }
        assert(before[a].data@.len() == ARENA_SIZE);
    }
    let expected = flatten(before).update(p, after[arena_of(p)].data@[p % size]@);
    assert forall|i: int| 0 <= i < flatten(after).len() implies flatten(after)[i] == expected[i] by {
        if i != p {
            if i / size != p / size {
                assert(after[i / size] == before[i / size]);
            } else {
                assert(i % size != p % size);
            }
        }
    }
    assert(flatten(after) =~= expected);
}

/// A new arena adds its slots at the end of the row.
proof fn lemma_flatten_push(before: Seq<Arena>, arena: Arena)
    requires
        arenas_ok(before),
        before.len() < MAX_ARENAS,
        arena.data@.len() == ARENA_SIZE,
        arena.first_node == before.len() * ARENA_SIZE,
    ensures
        arenas_ok(before.push(arena)),
        flatten(before.push(arena)) == flatten(before) + arena.nodes(),
{
    let size = ARENA_SIZE as int;
    let after = before.push(arena);
    assert forall|a: int| 0 <= a < after.len() implies (#[trigger] after[a]).data@.len()
        == ARENA_SIZE && after[a].first_node == a * ARENA_SIZE by {
        if a < before.len() {
            assert(after[a] == before[a]);
        }
    }
    let expected = flatten(before) + arena.nodes();
    assert forall|i: int| 0 <= i < flatten(after).len() implies flatten(after)[i] == expected[i] by {
        if i < before.len() * size {
            assert(i / size < before.len());
            assert(after[i / size] == before[i / size]);
        } else {
            assert(i / size == before.len());
            assert(i % size == i - before.len() * size);
        }
    }
    assert(flatten(after) =~= expected);
}

impl View for Allocator {
    type V = AllocatorState;

    closed spec fn view(&self) -> AllocatorState {
        AllocatorState {
            nodes: flatten(self.arenas@),
            current_arena: self.current_arena,
            next_node: self.next_node,
            end_pointer: self.end_pointer,
            last_active_node: self.last_active_node,
            current_arena_past_active_arena: self.current_arena_past_active_arena,
            need_to_collect_garbage: self.need_to_collect_garbage,
            active_node_count: self.active_node_count,
            gc_count: self.gc_count,
            storage: self.storage@,
        }
    }
}

impl Allocator {
    /// Whether the allocator reports its collections.
    pub closed spec fn spec_show_gc(&self) -> bool {
        self.show_gc
    }

    /// The number of collections after which the caller is to stop; 0 for never.
    pub closed spec fn spec_early_quit(&self) -> u64 {
        self.early_quit
    }

    /// The allocator's own storage allocator.
    pub closed spec fn spec_storage(&self) -> StorageAllocator {
        self.storage
    }

    /// The arenas are laid out as the allocator expects them.
    pub closed spec fn inv(&self) -> bool {
        arenas_ok(self.arenas@)
    }

    /// The allocator is in a state in which it can be between two calls.
    pub open spec fn wf(&self) -> bool {
        &&& self.inv()
        &&& self@.wf()
    }

    /// The allocator is in a state in which it can be during a mark phase.
    pub open spec fn marking_wf(&self) -> bool {
        &&& self.inv()
        &&& self@.marking_wf()
    }

    /// An allocator without arenas and without buckets.
    pub fn new() -> (allocator: Allocator)
        ensures
            allocator.wf(),
            allocator@.nodes.len() == 0,
            allocator@.last_active_node.is_none(),
            !allocator@.current_arena_past_active_arena,
            !allocator@.need_to_collect_garbage,
            allocator@.active_node_count == 0,
            allocator@.gc_count == 0,
            allocator@.storage == StorageAllocator::new_state(),
            allocator.spec_show_gc(),
            allocator.spec_early_quit() == 0,
    {
        let allocator = Allocator {
            show_gc: true,
            early_quit: 0,
            arenas: Vec::new(),
            current_arena_past_active_arena: false,
            need_to_collect_garbage: false,
            current_arena: 0,
            next_node: 0,
            end_pointer: 0,
            last_active_node: None,
            active_node_count: 0,
            gc_count: 0,
            storage: StorageAllocator::new(),
        };
        proof {
            assert(allocator@.nodes.len() == 0);
        }
        allocator
    }

    /// Whether the allocator reports its collections.
    pub fn show_gc(&self) -> (show: bool)
        ensures
            show == self.spec_show_gc(),
    {
        self.show_gc
    }

    /// The number of collections after which the caller is to stop; 0 for never.
    pub fn early_quit(&self) -> (count: u64)
        ensures
            count == self.spec_early_quit(),
    {
        self.early_quit
    }

    /// Sets whether the allocator reports its collections.
    pub fn set_show_gc(&mut self, show: bool)
        ensures
            final(self).spec_show_gc() == show,
            final(self).spec_early_quit() == old(self).spec_early_quit(),
            final(self)@ == old(self)@,
            final(self).inv() == old(self).inv(),
    {
        self.show_gc = show;
    }

    /// Sets the number of collections after which the caller is to stop; 0 for never.
    pub fn set_early_quit(&mut self, count: u64)
        ensures
            final(self).spec_early_quit() == count,
            final(self).spec_show_gc() == old(self).spec_show_gc(),
            final(self)@ == old(self)@,
            final(self).inv() == old(self).inv(),
    {
        self.early_quit = count;
    }

    /// The number of collections so far.
    pub fn gc_count(&self) -> (count: u64)
        ensures
            count == self@.gc_count,
    {
        self.gc_count
    }

    /// The number of arenas.
    pub fn nr_arenas(&self) -> (count: usize)
        requires
            self.inv(),
        ensures
            count == self@.arena_count(),
            count * ARENA_SIZE == self@.nodes.len(),
    {
        self.arenas.len()
    }

    /// Whether `node` is a position in the arenas.
    pub fn contains(&self, node: DagNodePtr) -> (found: bool)
        requires
            self.inv(),
        ensures
            found == (node < self@.nodes.len()),
    {
        node / ARENA_SIZE < self.arenas.len()
    }

    /// The node at the position `node`, if that is a position in the arenas.
    pub fn node(&self, node: DagNodePtr) -> (found: Option<&DagNode>)
        requires
            self.inv(),
        ensures
            node < self@.nodes.len() ==> found.is_some() && found.unwrap()@ == self@.nodes[node as int],
            node >= self@.nodes.len() ==> found.is_none(),
    {
        if node / ARENA_SIZE < self.arenas.len() {
            Some(&self.arenas[node / ARENA_SIZE].data[node % ARENA_SIZE])
        } else {
            None
        }
    }

    /// Whether the arenas or the buckets ask for a collection.
    pub fn want_to_collect_garbage(&self) -> (wanted: bool)
        ensures
            wanted == (self@.need_to_collect_garbage || self@.storage.need_to_collect_garbage),
    {
        self.need_to_collect_garbage || self.storage.want_to_collect_garbage()
    }

    /// Clears the mark of the node at `p`.
    fn clear_mark(&mut self, p: usize)
        requires
            old(self).inv(),
            p < old(self)@.nodes.len(),
        ensures
            final(self).inv(),
            final(self)@ == (AllocatorState {
                nodes: old(self)@.nodes.update(p as int, old(self)@.nodes[p as int].unmarked()),
                ..old(self)@
            }),
            final(self).spec_show_gc() == old(self).spec_show_gc(),
            final(self).spec_early_quit() == old(self).spec_early_quit(),
    {
        let ghost before = self.arenas@;
        self.arenas[p / ARENA_SIZE].data[p % ARENA_SIZE].flags.remove(DagNodeFlag::Marked);
        proof {
            lemma_flatten_update(before, self.arenas@, p as int);
        }
    }

    /// Sets the mark of the node at `p`.
    fn set_mark(&mut self, p: usize)
        requires
            old(self).inv(),
            p < old(self)@.nodes.len(),
        ensures
            final(self).inv(),
            final(self)@ == (AllocatorState {
                nodes: old(self)@.nodes.update(p as int, old(self)@.nodes[p as int].with_mark()),
                ..old(self)@
            }),
            final(self).spec_show_gc() == old(self).spec_show_gc(),
            final(self).spec_early_quit() == old(self).spec_early_quit(),
    {
        let ghost before = self.arenas@;
        self.arenas[p / ARENA_SIZE].data[p % ARENA_SIZE].flags.insert(DagNodeFlag::Marked);
        proof {
            lemma_flatten_update(before, self.arenas@, p as int);
        }
    }

    /// Makes the node at `p` give up its buffer, if it has one.
    fn destruct_node(&mut self, p: usize)
        requires
            old(self).inv(),
            p < old(self)@.nodes.len(),
        ensures
            final(self).inv(),
            final(self)@ == (AllocatorState {
                nodes: old(self)@.nodes.update(p as int, old(self)@.nodes[p as int].destructed()),
                ..old(self)@
            }),
            final(self).spec_show_gc() == old(self).spec_show_gc(),
            final(self).spec_early_quit() == old(self).spec_early_quit(),
    {
        let ghost before = self.arenas@;
        self.arenas[p / ARENA_SIZE].data[p % ARENA_SIZE].destruct();
        proof {
            lemma_flatten_update(before, self.arenas@, p as int);
        }
    }

    /// Tidies the node at `p`: it gives up its buffer, if it has one, and loses its flags.
    fn tidy_node(&mut self, p: usize)
        requires
            old(self).inv(),
            p < old(self)@.nodes.len(),
        ensures
            final(self).inv(),
            final(self)@ == (AllocatorState {
                nodes: old(self)@.nodes.update(p as int, old(self)@.nodes[p as int].tidied()),
                ..old(self)@
            }),
            final(self).spec_show_gc() == old(self).spec_show_gc(),
            final(self).spec_early_quit() == old(self).spec_early_quit(),
    {
        let ghost before = self.arenas@;
        self.arenas[p / ARENA_SIZE].data[p % ARENA_SIZE].destruct();
        self.arenas[p / ARENA_SIZE].data[p % ARENA_SIZE].flags = DagNodeFlags::empty();
        proof {
            lemma_flatten_update(before, self.arenas@, p as int);
        }
    }

    /// Whether the node at `p` has a mark.
    fn marked_at(&self, p: usize) -> (marked: bool)
        requires
            self.inv(),
            p < self@.nodes.len(),
        ensures
            marked == self@.nodes[p as int].marked(),
    {
        self.arenas[p / ARENA_SIZE].data[p % ARENA_SIZE].is_marked()
    }

    /// Adds an arena behind the last one, if there is room for one more.
    fn allocate_new_arena(&mut self) -> (added: bool)
        requires
            old(self).inv(),
        ensures
            final(self).inv(),
            added == (old(self)@.arena_count() < MAX_ARENAS),
            added ==> final(self)@ == (AllocatorState {
                nodes: old(self)@.nodes + fresh_arena(),
                ..old(self)@
            }),
            !added ==> final(self)@ == old(self)@,
            final(self).spec_show_gc() == old(self).spec_show_gc(),
            final(self).spec_early_quit() == old(self).spec_early_quit(),
    {
        if self.arenas.len() >= MAX_ARENAS {
            return false;
        }
        let arena = Arena::allocate_new_arena(self.arenas.len() * ARENA_SIZE);
        proof {
            lemma_flatten_push(self.arenas@, arena);
            assert(arena.nodes() =~= fresh_arena());
        }
        self.arenas.push(arena);
        true
    }
}

impl Allocator {
    /// Searches the positions from `from` up to, not including, `to` for a free slot,
    /// clearing the mark of every node that it passes. The node in the slot found gives
    /// up its buffer, if it has one.
    fn lazy_sweep(&mut self, from: usize, to: usize) -> (found: Option<usize>)
        requires
            old(self).inv(),
            from <= to <= old(self)@.nodes.len(),
        ensures
            final(self).inv(),
            final(self).spec_show_gc() == old(self).spec_show_gc(),
            final(self).spec_early_quit() == old(self).spec_early_quit(),
            old(self)@.first_unmarked(from as int) < to ==> found == Some(
                old(self)@.first_unmarked(from as int) as usize,
            ) && final(self)@ == (AllocatorState {
                nodes: unmarked_between(
                    old(self)@.nodes,
                    from as int,
                    old(self)@.first_unmarked(from as int),
                ).update(
                    old(self)@.first_unmarked(from as int),
                    old(self)@.nodes[old(self)@.first_unmarked(from as int)].destructed(),
                ),
                ..old(self)@
            }),
            old(self)@.first_unmarked(from as int) >= to ==> found.is_none() && final(self)@ == (
            AllocatorState {
                nodes: unmarked_between(old(self)@.nodes, from as int, to as int),
                ..old(self)@
            }),
    {
        let ghost before = self@;
        let mut cursor = from;
        proof {
            assert(unmarked_between(before.nodes, from as int, from as int) =~= before.nodes);
        }
        while cursor < to
            invariant
                from <= cursor <= to <= before.nodes.len(),
                self.inv(),
                self.spec_show_gc() == old(self).spec_show_gc(),
                self.spec_early_quit() == old(self).spec_early_quit(),
                before == old(self)@,
                forall|i: int| from <= i < cursor ==> (#[trigger] before.nodes[i]).marked(),
                self@ == (AllocatorState {
                    nodes: unmarked_between(before.nodes, from as int, cursor as int),
                    ..before
                }),
            decreases to - cursor,
        {
            proof {
                before.lemma_first_unmarked_skip(from as int, cursor as int);
            }
            if !self.marked_at(cursor) {
                // Not marked: the slot is free once its node has given up its buffer.
                self.destruct_node(cursor);
                return Some(cursor);
            }
            self.clear_mark(cursor);
            proof {
                assert(self@.nodes =~= unmarked_between(before.nodes, from as int, cursor + 1));
            }
            cursor += 1;
        }
        proof {
            before.lemma_first_unmarked_skip(from as int, to as int);
            before.lemma_first_unmarked(to as int);
        }
        None
    }

    /// The number of the arena of the last active node, if there is one.
    fn last_active_arena(&self) -> (arena: Option<usize>)
        ensures
            arena == match self@.last_active_node {
                Some(last) => Some(arena_of(last as int) as usize),
                None => None,
            },
    {
        match self.last_active_node {
            Some(last) => Some(last / ARENA_SIZE),
            None => None,
        }
    }

    /// Hands out a node slot.
    ///
    /// The slot is the first from the cursor on that holds no marked node; the marks of
    /// the nodes before it are cleared on the way. The node in it is not made new: it
    /// has given up its buffer and is otherwise what it was. Reaching the reserve of the
    /// last arena asks for a collection, and so does adding an arena to any but an empty
    /// allocator. Nothing is handed out when no slot is free and the allocator has all
    /// the arenas that it can have.
    pub fn allocate_dag_node(&mut self) -> (node: Option<DagNodePtr>)
        requires
            old(self).wf(),
        ensures
            final(self).wf(),
            final(self)@ == old(self)@.after_allocate(),
            final(self)@.nodes.len() >= old(self)@.nodes.len(),
            node matches Some(p) ==> p < final(self)@.nodes.len(),
            old(self)@.can_allocate() ==> node == Some(old(self)@.allocation_target() as usize),
            !old(self)@.can_allocate() ==> node.is_none(),
            final(self).spec_show_gc() == old(self).spec_show_gc(),
            final(self).spec_early_quit() == old(self).spec_early_quit(),
    {
        let ghost before = self@;
        proof {
            before.lemma_after_allocate_wf();
            before.lemma_after_allocate_keeps();
            before.lemma_first_unmarked(before.next_node as int);
        }
        let from = self.next_node;
        let to = self.end_pointer;
        let found = match self.lazy_sweep(from, to) {
            Some(node) => Some(node),
            None => self.slow_new_dag_node(Ghost(before)),
        };
        match found {
            Some(node) => {
                self.next_node = node + 1;
                increment_active_node_count(self);
                Some(node)
            },
            None => None,
        }
    }

    /// Hands out a node slot when the search has reached the end pointer: goes on in
    /// the reserve, in the next arena or in a new arena.
    fn slow_new_dag_node(&mut self, Ghost(before): Ghost<AllocatorState>) -> (found: Option<
        usize,
    >)
        requires
            before.wf(),
            old(self).inv(),
            before.allocation_target() >= before.end_pointer,
            old(self)@ == (AllocatorState {
                nodes: unmarked_between(
                    before.nodes,
                    before.next_node as int,
                    before.end_pointer as int,
                ),
                ..before
            }),
        ensures
            final(self).inv(),
            final(self).spec_show_gc() == old(self).spec_show_gc(),
            final(self).spec_early_quit() == old(self).spec_early_quit(),
            before.can_allocate() ==> found == Some(before.allocation_target() as usize)
                && handed_out(before, final(self)@),
            !before.can_allocate() ==> found.is_none() && final(self)@ == before.after_allocate(),
    {
        proof {
            lemma_search_entry(before, self@);
        }
        loop
            invariant
                self.inv(),
                self.spec_show_gc() == old(self).spec_show_gc(),
                self.spec_early_quit() == old(self).spec_early_quit(),
                searching(before, self@),
            decreases before.nodes.len() + ARENA_SIZE - self.end_pointer,
        {
            let ghost now = self@;
            proof {
                lemma_search_len(before, now);
            }
            if self.arenas.len() == 0 {
                // Allocate the first arena. The last arena in the row is given a reserve.
                let added = self.allocate_new_arena();
                self.current_arena = 0;
                self.end_pointer = ARENA_SIZE - RESERVE_SIZE;
                proof {
                    lemma_first_arena(before, now, self@);
                }
                return Some(0);
            }
            proof {
                lemma_search_bounds(before, now);
            }
            let end_node = (self.current_arena + 1) * ARENA_SIZE;
            let from: usize;
            if self.current_arena + 1 == self.arenas.len() {
                self.need_to_collect_garbage = true;
                if self.end_pointer != end_node {
                    // Use up the reserve.
                    from = self.end_pointer;
                    self.next_node = self.end_pointer;
                    self.end_pointer = end_node;
                    proof {
                        lemma_enter_reserve(before, now, self@);
                    }
                } else {
                    // Allocate a new arena.
                    if self.arenas.len() >= MAX_ARENAS {
                        self.next_node = self.end_pointer;
                        proof {
                            lemma_no_room(before, now, self@);
                        }
                        return None;
                    }
                    if self.last_active_arena() == Some(self.current_arena) {
                        self.current_arena_past_active_arena = true;
                    }
                    let added = self.allocate_new_arena();
                    self.current_arena = self.current_arena + 1;
                    self.end_pointer = end_node + ARENA_SIZE;
                    proof {
                        lemma_new_arena(before, now, self@);
                    }
                    return Some(end_node);
                }
            } else {
                // Use the next arena.
                if self.last_active_arena() == Some(self.current_arena) {
                    self.current_arena_past_active_arena = true;
                }
                self.current_arena = self.current_arena + 1;
                from = end_node;
                self.next_node = end_node;
                if self.current_arena + 1 == self.arenas.len() {
                    // The last arena in the row is given a reserve.
                    self.end_pointer = end_node + (ARENA_SIZE - RESERVE_SIZE);
                } else {
                    self.end_pointer = end_node + ARENA_SIZE;
                }
                proof {
                    lemma_enter_next_arena(before, now, self@);
                }
            }
            // Now sweep lazily to find a free slot in the new window.
            let ghost window = self@;
            let to = self.end_pointer;
            proof {
                lemma_window_target(before, window, from as int);
            }
            match self.lazy_sweep(from, to) {
                Some(node) => {
                    proof {
                        lemma_window_found(before, window, self@, from as int);
                    }
                    return Some(node);
                },
                None => {
                    proof {
                        lemma_window_exhausted(before, window, self@, from as int);
                    }
                },
            }
        }
    }
}

impl Allocator {
    /// Finishes the lazy sweep: clears the marks and tidies the unmarked nodes from the
    /// cursor up to the last active node, and finds the new last active node.
    fn sweep_arenas(&mut self)
        requires
            old(self).wf(),
        ensures
            final(self).inv(),
            final(self)@ == old(self)@.after_sweep(),
            final(self).spec_show_gc() == old(self).spec_show_gc(),
            final(self).spec_early_quit() == old(self).spec_early_quit(),
    {
        let ghost before = self@;
        let from = self.next_node;
        let mut new_last_active_node = if self.next_node > 0 {
            Some(self.next_node - 1)
        } else {
            None
        };
        proof {
            assert(tidied_between(before.nodes, from as int, from as int) =~= before.nodes);
        }
        let mut d = from;
        if !self.current_arena_past_active_arena {
            if let Some(last) = self.last_active_node {
                // Tidy the nodes from the cursor up to and including the last active node.
                while d <= last
                    invariant
                        self.inv(),
                        self.spec_show_gc() == old(self).spec_show_gc(),
                        self.spec_early_quit() == old(self).spec_early_quit(),
                        before == old(self)@,
                        from == before.next_node,
                        from <= d,
                        last < before.nodes.len(),
                        d == from || d <= last + 1,
                        self@ == (AllocatorState {
                            nodes: tidied_between(before.nodes, from as int, d as int),
                            ..before
                        }),
                        new_last_active_node == before.swept_last_active(from as int, d as int),
                    decreases last + 1 - d,
                {
                    if self.marked_at(d) {
                        new_last_active_node = Some(d);
                        self.clear_mark(d);
                    } else {
                        self.tidy_node(d);
                    }
                    proof {
                        assert(self@.nodes =~= tidied_between(before.nodes, from as int, d + 1));
                    }
                    d += 1;
                }
            }
        }
        self.last_active_node = new_last_active_node;
    }
}

impl Allocator {
    /// Copies the buffer of the node at `p`, if it has one, to a new place in bucket
    /// storage, makes the node hold the copy, and returns what the node held.
    fn relocate(&mut self, p: usize) -> (old_args: DagNodeArgument)
        requires
            old(self).inv(),
            old(self)@.shape_wf(),
            p < old(self)@.nodes.len(),
        ensures
            final(self).inv(),
            final(self)@.shape_wf(),
            final(self).spec_show_gc() == old(self).spec_show_gc(),
            final(self).spec_early_quit() == old(self).spec_early_quit(),
            final(self)@ == (AllocatorState {
                nodes: old(self)@.nodes.update(
                    p as int,
                    old(self)@.nodes[p as int].relocated(final(self)@.nodes[p as int].place()),
                ),
                storage: final(self)@.storage,
                ..old(self)@
            }),
            final(self)@.nodes[p as int].args is Many ==> final(self)@.storage.holds(
                final(self)@.nodes[p as int].place(),
                buffer_bytes(final(self)@.nodes[p as int].capacity()),
            ),
            old(self)@.storage.extended_by(final(self)@.storage),
            old_args@ == old(self)@.nodes[p as int].args,
            final(self)@.nodes[p as int] == old(self)@.nodes[p as int].relocated(
                old(self)@.storage.placement(
                    buffer_bytes(old(self)@.nodes[p as int].capacity()) as usize,
                ),
            ),
            final(self)@.storage == if old(self)@.nodes[p as int].args is Many {
                old(self)@.storage.after_allocate(
                    buffer_bytes(old(self)@.nodes[p as int].capacity()) as usize,
                )
            } else {
                old(self)@.storage
            },
    {
        let ghost before = self@;
        let ghost before_arenas = self.arenas@;
        let arena = p / ARENA_SIZE;
        let slot = p % ARENA_SIZE;
        proof {
            assert(before.nodes[p as int].wf());
            before.storage.lemma_extended_by_itself();
        }
        let copy: Option<NodeVectorMutRef> = match &self.arenas[arena].data[slot].args {
            DagNodeArgument::Many(vector) => {
                proof {
                    before.storage.lemma_allocate_extends(
                        buffer_bytes(vector.spec_capacity()) as usize,
                    );
                }
                Some(vector.shallow_copy(&mut self.storage))
            },
            _ => None,
        };
        let old_args = match copy {
            Some(vector) => {
                let mut args = DagNodeArgument::Many(vector);
                std::mem::swap(&mut self.arenas[arena].data[slot].args, &mut args);
                proof {
                    lemma_flatten_update(before_arenas, self.arenas@, p as int);
                }
                args
            },
            None => match &self.arenas[arena].data[slot].args {
                DagNodeArgument::Single(child) => DagNodeArgument::Single(*child),
                _ => DagNodeArgument::Childless,
            },
        };
        proof {
            assert(self@.nodes =~= before.nodes.update(
                p as int,
                before.nodes[p as int].relocated(self@.nodes[p as int].place()),
            ));
            assert forall|i: int| 0 <= i < self@.nodes.len() implies (#[trigger] self@.nodes[i]).wf() by {
                assert(before.nodes[i].wf());
            }
        }
        old_args
    }

    /// Marks the node at `node` and whatever it reaches through unmarked nodes.
    ///
    /// A node that is marked already is left alone, and so is a reference that is no
    /// position in the arenas. Else the node gets its mark and is counted, its buffer, if
    /// it has one, is copied to a new place in the buckets in use, and then its children
    /// are marked in order.
    pub(crate) fn mark(&mut self, node: DagNodePtr)
        requires
            old(self).marking_wf(),
            count_has_room(old(self)@),
        ensures
            final(self).marking_wf(),
            count_has_room(final(self)@),
            marks(old(self)@, final(self)@, node),
            final(self)@ == after_mark(old(self)@, node, old(self)@.nodes.len()),
            final(self).spec_show_gc() == old(self).spec_show_gc(),
            final(self).spec_early_quit() == old(self).spec_early_quit(),
        decreases old(self)@.nodes.len() - marked_set(old(self)@.nodes).len(),
    {
        let ghost before = self@;
        let ghost fuel = before.nodes.len();
        if !self.contains(node) {
            proof {
                lemma_marked_from_done(before, node);
            }
            return;
        }
        if self.marked_at(node) {
            proof {
                lemma_marked_from_done(before, node);
            }
            return;
        }
        proof {
            lemma_unmarked_node_counts(before.nodes, node as int);
            lemma_marked_set_finite(before.nodes);
        }
        increment_active_node_count(self);
        self.set_mark(node);
        let raise = match self.last_active_node {
            Some(last) => last < node,
            None => true,
        };
        if raise {
            self.last_active_node = Some(node);
        }
        proof {
            assert forall|i: int| 0 <= i < self@.nodes.len() implies (#[trigger] self@.nodes[i]).wf() by {
                assert(before.nodes[i].wf());
            }
        }
        let old_args = self.relocate(node);
        let ghost middle = self@;
        proof {
            assert(middle.nodes =~= before.nodes.update(
                node as int,
                before.nodes[node as int].with_mark().relocated(middle.nodes[node as int].place()),
            ));
            lemma_mark_one(before.nodes, middle.nodes, node as int);
            assert(middle == mark_step(before, node as int));
            lemma_mark_step_counts(before, node as int);
            assert forall|i: int|
                0 <= i < middle.nodes.len() && (#[trigger] middle.nodes[i]).marked()
                implies middle.last_active_node.is_some()
                && i <= middle.last_active_node.unwrap() by {
                if i != node {
                    assert(before.nodes[i].marked());
                }
            }
            lemma_marked_from_nothing(middle);
        }
        match old_args {
            DagNodeArgument::Childless => {
                proof {
                    let kids = before.nodes[node as int].children();
                    assert(kids.len() == 0);
                    assert(self@ == after_mark_all(middle, kids, 0, (fuel - 1) as nat));
                }
            },
            DagNodeArgument::Single(child) => {
                self.mark(child);
                proof {
                    let kids = before.nodes[node as int].children();
                    assert(kids =~= seq![child]);
                    lemma_after_mark_fuel(middle, child, fuel, (fuel - 1) as nat);
                    let below = (fuel - 1) as nat;
                    assert(after_mark_all(middle, kids, 0, below) == after_mark_all(
                        after_mark(middle, kids[0], below),
                        kids,
                        1,
                        below,
                    ));
                    assert(after_mark_all(after_mark(middle, kids[0], below), kids, 1, below)
                        == after_mark(middle, kids[0], below));
                    assert(self@ == after_mark_all(middle, kids, 0, below));
                }
            },
            DagNodeArgument::Many(vector) => {
                let entries = vector.iter();
                let ghost kids = before.nodes[node as int].children();
                let mut i: usize = 0;
                proof {
                    assert(kids.take(0) =~= Seq::<DagNodePtr>::empty());
                }
                while i < entries.len()
                    invariant
                        i <= entries@.len(),
                        entries@ == kids,
                        self.marking_wf(),
                        count_has_room(self@),
                        self.spec_show_gc() == old(self).spec_show_gc(),
                        self.spec_early_quit() == old(self).spec_early_quit(),
                        marked_from(middle, self@, kids.take(i as int)),
                        before == old(self)@,
                        middle.nodes.len() == before.nodes.len(),
                        marked_set(middle.nodes).len() == marked_set(before.nodes).len() + 1,
                        fuel == before.nodes.len(),
                        fuel >= 1,
                        self@.nodes.len() == fuel,
                        unmarked_count(self@) <= fuel - 1,
                        after_mark_all(middle, kids, 0, (fuel - 1) as nat) == after_mark_all(
                            self@,
                            kids,
                            i as int,
                            (fuel - 1) as nat,
                        ),
                    decreases entries@.len() - i,
                {
                    let ghost now = self@;
                    proof {
                        lemma_marked_from_keeps(middle, now, kids.take(i as int));
                        lemma_after_mark_fuel(now, entries[i as int], fuel, (fuel - 1) as nat);
                    }
                    self.mark(entries[i]);
                    proof {
                        lemma_marked_from_one_more(
                            middle,
                            now,
                            self@,
                            kids.take(i as int),
                            entries[i as int],
                        );
                        assert(kids.take(i + 1) =~= kids.take(i as int).push(kids[i as int]));
                    }
                    i += 1;
                }
                proof {
                    assert(kids.take(kids.len() as int) =~= kids);
                    assert(self@ == after_mark_all(middle, kids, 0, (fuel - 1) as nat));
                }
            },
        }
        proof {
            lemma_marked_from_node(before, middle, self@, node);
            assert(self@ == after_mark_all(
                mark_step(before, node as int),
                before.nodes[node as int].children(),
                0,
                (fuel - 1) as nat,
            ));
        }
    }
}

/// What a collection found, for whoever reports it.
#[derive(Copy, Clone, Debug, PartialEq, Eq, Structural, Hash)]
pub struct CollectionReport {
    /// The number of this collection, counted from 1.
    pub gc_count: u64,
    /// The number of arenas when the mark phase ended.
    pub nr_arenas: usize,
    /// The number of node slots in those arenas.
    pub node_count: usize,
    /// The count of active nodes before the collection.
    pub old_active_node_count: usize,
    /// The count of active nodes after it: the nodes that are alive.
    pub active_node_count: usize,
    /// The number of buckets.
    pub bucket_count: usize,
    /// Bytes in the zones of all buckets.
    pub bucket_storage: usize,
    /// Bytes of bucket storage handed out before the collection.
    pub old_storage_in_use: usize,
    /// Bytes of bucket storage handed out after it.
    pub storage_in_use: usize,
}

impl CollectionReport {
    /// The nodes that the collection got rid of: the active nodes before it that are
    /// not alive. It is 0 where more nodes are alive than were counted before.
    pub fn collected_nodes(&self) -> (count: usize)
        ensures
            count == if self.old_active_node_count >= self.active_node_count {
                self.old_active_node_count - self.active_node_count
            } else {
                0
            },
    {
        if self.old_active_node_count >= self.active_node_count {
            self.old_active_node_count - self.active_node_count
        } else {
            0
        }
    }

    /// The bytes of bucket storage that the collection got rid of. It is 0 where more is
    /// in use than before.
    pub fn collected_storage(&self) -> (bytes: usize)
        ensures
            bytes == if self.old_storage_in_use >= self.storage_in_use {
                self.old_storage_in_use - self.storage_in_use
            } else {
                0
            },
    {
        if self.old_storage_in_use >= self.storage_in_use {
            self.old_storage_in_use - self.storage_in_use
        } else {
            0
        }
    }
}

/// The number of arenas that `live` active nodes ask for.
pub fn arenas_wanted_for(live: usize) -> (wanted: usize)
    requires
        live <= MAX_ARENAS * ARENA_SIZE,
    ensures
        wanted == arenas_wanted(live as int),
        wanted <= 2 * MAX_ARENAS + 1,
{
    let size: u64 = 5460;
    let nodes: u64 = live as u64;
    let wanted: u64 = if live >= UPPER_BOUND {
        (nodes * 2 + (size - 1)) / size
    } else if live < LOWER_BOUND {
        (nodes * 8 + (size - 1)) / size
    } else {
        let span: u64 = 29360128;
        let upper: u64 = 33554432;
        let slope: u64 = 2 * span + (upper - nodes) * 6;
        assert(nodes * slope <= 33554432 * 234881024) by (nonlinear_arith)
            requires
                nodes <= 33554432,
                slope <= 234881024,
        ;
        let scale: u64 = span * size;
        assert(nodes * slope == live * (BIG_MODEL_SLOP * (UPPER_BOUND - LOWER_BOUND) + (UPPER_BOUND
            - live) * (SMALL_MODEL_SLOP - BIG_MODEL_SLOP))) by (nonlinear_arith)
            requires
                nodes == live,
                slope == BIG_MODEL_SLOP * (UPPER_BOUND - LOWER_BOUND) + (UPPER_BOUND - live) * (
                SMALL_MODEL_SLOP - BIG_MODEL_SLOP),
        ;
        (nodes * slope + (scale - 1)) / scale
    };
    wanted as usize
}

impl Allocator {
    /// Collects garbage if a collection is asked for, and reports what it found.
    ///
    /// This is the safe point: the caller holds no reference into a buffer, because the
    /// buffers of the nodes that are alive move. Nothing happens where no collection is
    /// asked for, or where the allocator has no arena yet.
    pub fn ok_to_collect_garbage(&mut self, roots: &RootList) -> (report: Option<CollectionReport>)
        requires
            old(self).wf(),
            roots.wf(),
        ensures
            final(self).wf(),
            final(self).spec_show_gc() == old(self).spec_show_gc(),
            final(self).spec_early_quit() == old(self).spec_early_quit(),
            report.is_some() <==> (old(self)@.need_to_collect_garbage
                || old(self)@.storage.need_to_collect_garbage) && old(self)@.nodes.len() > 0,
            report.is_none() ==> final(self)@ == old(self)@,
            report matches Some(found) ==> final(self)@ == after_collect(old(self)@, roots@)
                && collected(old(self)@, final(self)@, roots@) && reports(
                found,
                old(self)@,
                final(self)@,
            ),
    {
        if self.want_to_collect_garbage() {
            self.collect_garbage(roots)
        } else {
            None
        }
    }

    /// Collects garbage, and reports what it found. Nothing happens where the
    /// allocator has no arena yet.
    pub fn collect_garbage(&mut self, roots: &RootList) -> (report: Option<CollectionReport>)
        requires
            old(self).wf(),
            roots.wf(),
        ensures
            final(self).wf(),
            final(self).spec_show_gc() == old(self).spec_show_gc(),
            final(self).spec_early_quit() == old(self).spec_early_quit(),
            report.is_some() <==> old(self)@.nodes.len() > 0,
            report.is_none() ==> final(self)@ == old(self)@,
            report matches Some(found) ==> final(self)@ == after_collect(old(self)@, roots@)
                && collected(old(self)@, final(self)@, roots@) && reports(
                found,
                old(self)@,
                final(self)@,
            ),
    {
        let ghost before = self@;
        if self.arenas.len() == 0 {
            return None;
        }
        // Finish the lazy sweep.
        self.sweep_arenas();
        proof {
            before.lemma_after_sweep();
        }
        // Mark phase: the count is taken anew, and what is alive is copied into the
        // buckets that were unused.
        let old_active_node_count = self.active_node_count;
        self.active_node_count = 0;
        let old_storage_in_use = self.storage.storage_in_use();
        self.storage._prepare_to_mark();
        let ghost prepared = self@;
        proof {
            lemma_marked_set_finite(prepared.nodes);
        }
        mark_roots(roots, self);
        let ghost marked = self@;
        proof {
            lemma_marked_from_keeps(prepared, marked, roots@);
            lemma_marked_set_finite(marked.nodes);
            lemma_marked_is_live(prepared, marked, roots@);
        }
        // Empty the buckets that were in use before.
        self.storage._sweep_garbage();
        let active_node_count = self.active_node_count;
        let nr_arenas = self.arenas.len();
        if self.gc_count < u64::MAX {
            self.gc_count = self.gc_count + 1;
        }
        let report = CollectionReport {
            gc_count: self.gc_count,
            nr_arenas,
            node_count: nr_arenas * ARENA_SIZE,
            old_active_node_count,
            active_node_count,
            bucket_count: self.storage.bucket_count(),
            bucket_storage: self.storage.total_bytes_allocated(),
            old_storage_in_use,
            storage_in_use: self.storage.storage_in_use(),
        };
        // Add arenas until there is room for the nodes that are alive times the slop
        // factor.
        let wanted = arenas_wanted_for(active_node_count);
        while self.arenas.len() < wanted && self.arenas.len() < MAX_ARENAS
            invariant
                self.inv(),
                self.spec_show_gc() == old(self).spec_show_gc(),
                self.spec_early_quit() == old(self).spec_early_quit(),
                grown_from(marked.nodes, self@.nodes),
                self@.nodes.len() == self.arenas@.len() * ARENA_SIZE,
                self.arenas@.len() >= nr_arenas,
                nr_arenas * ARENA_SIZE == marked.nodes.len(),
                self.arenas@.len() <= nr_arenas || (self.arenas@.len() <= wanted
                    && self.arenas@.len() <= MAX_ARENAS),
                self@ == (AllocatorState {
                    nodes: self@.nodes,
                    gc_count: counted_collection(before.gc_count),
                    storage: marked.storage.after_sweep_garbage(),
                    ..marked
                }),
            decreases MAX_ARENAS - self.arenas@.len(),
        {
            let ghost fewer = self@.nodes;
            let ghost arenas_before = self.arenas@.len();
            let added = self.allocate_new_arena();
            proof {
                assert(fresh_arena().len() == ARENA_SIZE);
                assert(self@.nodes.len() == fewer.len() + ARENA_SIZE);
                assert(self@.nodes.len() == self.arenas@.len() * ARENA_SIZE);
                assert(self.arenas@.len() == arenas_before + 1);
                assert forall|i: int| 0 <= i < marked.nodes.len() implies (
                #[trigger] self@.nodes[i]) == marked.nodes[i] by {
                    assert(fewer[i] == marked.nodes[i]);
                }
                assert forall|i: int| marked.nodes.len() <= i < self@.nodes.len() implies (
                #[trigger] self@.nodes[i]) == NodeState::fresh() by {
                    if i < fewer.len() {
                        assert(fewer[i] == NodeState::fresh());
                    }
                }
            }
        }
        // Start again at the first slot. The last arena in the row is given a reserve.
        self.current_arena_past_active_arena = false;
        self.current_arena = 0;
        self.next_node = 0;
        if self.arenas.len() > 1 {
            self.end_pointer = ARENA_SIZE;
        } else {
            self.end_pointer = ARENA_SIZE - RESERVE_SIZE;
        }
        self.need_to_collect_garbage = false;
        proof {
            lemma_collected(before, prepared, marked, self@, roots@);
        }
        Some(report)
    }
}

/// Whether `report` says what a collection that made `after` of `before` found.
pub open spec fn reports(report: CollectionReport, before: AllocatorState, after: AllocatorState) -> bool {
    &&& report.gc_count == after.gc_count
    &&& report.nr_arenas == before.arena_count()
    &&& report.node_count == before.nodes.len()
    &&& report.old_active_node_count == before.active_node_count
    &&& report.active_node_count == after.active_node_count
    &&& report.bucket_count == after.storage.buckets.len()
    &&& report.bucket_storage == after.storage.total_bytes_allocated
    &&& report.old_storage_in_use == before.storage.storage_in_use
    &&& report.storage_in_use == after.storage.storage_in_use
}

/// The variables of a node allocator, for whoever prints them.
#[derive(Copy, Clone, Debug, PartialEq, Eq, Structural, Hash)]
pub struct MemoryVariables {
    pub nr_arenas: usize,
    pub nr_nodes_in_use: usize,
    pub current_arena_past_active_arena: bool,
    pub need_to_collect_garbage: bool,
    pub current_arena: usize,
    pub next_node: usize,
    pub end_pointer: usize,
    pub last_active_arena: Option<usize>,
    pub last_active_node: Option<usize>,
}

impl Allocator {
    /// Hands out `bytes_needed` bytes of bucket storage and says where they lie.
    pub fn allocate_storage(&mut self, bytes_needed: usize) -> (place: StoragePtr)
        requires
            old(self).wf(),
            whole_words(bytes_needed),
            bytes_needed <= MAX_STORAGE_REQUEST,
        ensures
            final(self).wf(),
            final(self)@ == (AllocatorState {
                storage: old(self)@.storage.after_allocate(bytes_needed),
                ..old(self)@
            }),
            place == old(self)@.storage.placement(bytes_needed),
            final(self)@.storage.holds(place, bytes_needed as int),
            place.offset % 8 == 0,
            final(self).spec_show_gc() == old(self).spec_show_gc(),
            final(self).spec_early_quit() == old(self).spec_early_quit(),
    {
        proof {
            self@.storage.lemma_allocate_extends(bytes_needed);
        }
        self.storage.allocate_storage(bytes_needed)
    }

    /// Puts `node` into the slot at `p`.
    pub fn put_node(&mut self, p: DagNodePtr, node: DagNode)
        requires
            old(self).wf(),
            p < old(self)@.nodes.len(),
            node@.wf(),
            !node@.marked(),
        ensures
            final(self).wf(),
            final(self)@ == (AllocatorState {
                nodes: old(self)@.nodes.update(p as int, node@),
                ..old(self)@
            }),
            final(self).spec_show_gc() == old(self).spec_show_gc(),
            final(self).spec_early_quit() == old(self).spec_early_quit(),
    {
        let ghost before = self@;
        let ghost before_arenas = self.arenas@;
        self.arenas[p / ARENA_SIZE].data[p % ARENA_SIZE] = node;
        proof {
            lemma_flatten_update(before_arenas, self.arenas@, p as int);
            assert forall|i: int| 0 <= i < self@.nodes.len() implies (#[trigger] self@.nodes[i]).wf() by {
                if i != p {
                    assert(before.nodes[i].wf());
                }
            }
            lemma_unmarked_update_wf(before, self@, p as int);
        }
    }

    /// Gives the node at `parent` one more child.
    ///
    /// A node without children holds the child itself. A node with one child gets a
    /// buffer for the two. A node with a buffer puts the child at its end, and fails,
    /// unchanged, if the buffer is full.
    pub fn insert_child(&mut self, parent: DagNodePtr, new_child: DagNodePtr) -> (inserted: Result<
        (),
        String,
    >)
        requires
            old(self).wf(),
            parent < old(self)@.nodes.len(),
        ensures
            final(self).wf(),
            final(self).spec_show_gc() == old(self).spec_show_gc(),
            final(self).spec_early_quit() == old(self).spec_early_quit(),
            final(self)@ == (AllocatorState {
                nodes: old(self)@.nodes.update(
                    parent as int,
                    old(self)@.nodes[parent as int].with_child(
                        new_child,
                        old(self)@.storage.placement(buffer_bytes(2) as usize),
                    ),
                ),
                storage: if old(self)@.nodes[parent as int].args is Single {
                    old(self)@.storage.after_allocate(buffer_bytes(2) as usize)
                } else {
                    old(self)@.storage
                },
                ..old(self)@
            }),
            inserted.is_err() <==> old(self)@.nodes[parent as int].args is Many
                && old(self)@.nodes[parent as int].children().len()
                >= old(self)@.nodes[parent as int].capacity(),
    {
        let ghost before = self@;
        let ghost before_arenas = self.arenas@;
        proof {
            assert(before.nodes[parent as int].wf());
            before.storage.lemma_allocate_extends(buffer_bytes(2) as usize);
        }
        let inserted = self.arenas[parent / ARENA_SIZE].data[parent % ARENA_SIZE].insert_child(
            &mut self.storage,
            new_child,
        );
        proof {
            lemma_flatten_update(before_arenas, self.arenas@, parent as int);
            assert forall|i: int| 0 <= i < self@.nodes.len() implies (#[trigger] self@.nodes[i]).wf() by {
                if i != parent {
                    assert(before.nodes[i].wf());
                }
            }
            lemma_unmarked_update_wf(before, self@, parent as int);
        }
        inserted
    }

    /// Sets the kind of the node at `p`.
    pub fn set_kind(&mut self, p: DagNodePtr, kind: crate::dag_node::DagNodeKind)
        requires
            old(self).wf(),
            p < old(self)@.nodes.len(),
        ensures
            final(self).wf(),
            final(self)@ == (AllocatorState {
                nodes: old(self)@.nodes.update(
                    p as int,
                    NodeState { kind, ..old(self)@.nodes[p as int] },
                ),
                ..old(self)@
            }),
            final(self).spec_show_gc() == old(self).spec_show_gc(),
            final(self).spec_early_quit() == old(self).spec_early_quit(),
    {
        let ghost before = self@;
        let ghost before_arenas = self.arenas@;
        self.arenas[p / ARENA_SIZE].data[p % ARENA_SIZE].kind = kind;
        proof {
            lemma_flatten_update(before_arenas, self.arenas@, p as int);
            assert forall|i: int| 0 <= i < self@.nodes.len() implies (#[trigger] self@.nodes[i]).wf() by {
                assert(before.nodes[i].wf());
            }
            lemma_unmarked_update_wf(before, self@, p as int);
        }
    }

    /// Sets or clears a flag of the node at `p`. The mark is the collector's own and
    /// cannot be set or cleared this way.
    pub fn set_flag(&mut self, p: DagNodePtr, flag: DagNodeFlag, value: bool)
        requires
            old(self).wf(),
            p < old(self)@.nodes.len(),
            flag != DagNodeFlag::Marked,
        ensures
            final(self).wf(),
            final(self)@ == (AllocatorState {
                nodes: old(self)@.nodes.update(
                    p as int,
                    NodeState {
                        flags: if value {
                            old(self)@.nodes[p as int].flags.insert(flag)
                        } else {
                            old(self)@.nodes[p as int].flags.remove(flag)
                        },
                        ..old(self)@.nodes[p as int]
                    },
                ),
                ..old(self)@
            }),
            final(self).spec_show_gc() == old(self).spec_show_gc(),
            final(self).spec_early_quit() == old(self).spec_early_quit(),
    {
        let ghost before = self@;
        let ghost before_arenas = self.arenas@;
        if value {
            self.arenas[p / ARENA_SIZE].data[p % ARENA_SIZE].flags.insert(flag);
        } else {
            self.arenas[p / ARENA_SIZE].data[p % ARENA_SIZE].flags.remove(flag);
        }
        proof {
            lemma_flatten_update(before_arenas, self.arenas@, p as int);
            assert forall|i: int| 0 <= i < self@.nodes.len() implies (#[trigger] self@.nodes[i]).wf() by {
                assert(before.nodes[i].wf());
            }
            lemma_unmarked_update_wf(before, self@, p as int);
        }
    }

    /// The first position from `from` up to, not including, `to` that holds a marked
    /// node, if there is one.
    fn first_marked_between(&self, from: usize, to: usize) -> (found: Option<DagNodePtr>)
        requires
            self.inv(),
            from <= to <= self@.nodes.len(),
        ensures
            found matches Some(p) ==> from <= p < to && self@.nodes[p as int].marked()
                && self@.no_marks_between(from as int, p as int),
            found.is_none() ==> self@.no_marks_between(from as int, to as int),
    {
        let mut d = from;
        while d < to
            invariant
                self.inv(),
                from <= d <= to <= self@.nodes.len(),
                self@.no_marks_between(from as int, d as int),
            decreases to - d,
        {
            if self.marked_at(d) {
                return Some(d);
            }
            d += 1;
        }
        None
    }

    /// Looks for a marked node before the cursor, where none should be, and returns
    /// the first. It finds none in an allocator that is in a state in which it can be
    /// between two calls.
    pub fn check_invariant(&self) -> (found: Option<DagNodePtr>)
        requires
            self.inv(),
        ensures
            found matches Some(p) ==> p < self@.next_node && p < self@.nodes.len()
                && self@.nodes[p as int].marked() && self@.no_marks_between(0, p as int),
            found.is_none() <==> self@.no_marks_between(0, self@.next_node as int),
            self@.wf() ==> found.is_none(),
    {
        let count = self.arenas.len() * ARENA_SIZE;
        let to = if self.next_node <= count {
            self.next_node
        } else {
            count
        };
        self.first_marked_between(0, to)
    }

    /// Looks for a marked node in all arenas and returns the first.
    pub fn check_arenas(&self) -> (found: Option<DagNodePtr>)
        requires
            self.inv(),
        ensures
            found matches Some(p) ==> p < self@.nodes.len() && self@.nodes[p as int].marked()
                && self@.no_marks_between(0, p as int),
            found.is_none() ==> self@.no_marks_between(0, self@.nodes.len() as int),
    {
        let count = self.arenas.len() * ARENA_SIZE;
        self.first_marked_between(0, count)
    }

    /// The variables of the allocator.
    pub fn dump_memory_variables(&self) -> (variables: MemoryVariables)
        requires
            self.inv(),
        ensures
            variables == (MemoryVariables {
                nr_arenas: self@.arena_count() as usize,
                nr_nodes_in_use: self@.active_node_count,
                current_arena_past_active_arena: self@.current_arena_past_active_arena,
                need_to_collect_garbage: self@.need_to_collect_garbage,
                current_arena: self@.current_arena,
                next_node: self@.next_node,
                end_pointer: self@.end_pointer,
                last_active_arena: match self@.last_active_node {
                    Some(last) => Some(arena_of(last as int) as usize),
                    None => None,
                },
                last_active_node: self@.last_active_node,
            }),
    {
        MemoryVariables {
            nr_arenas: self.arenas.len(),
            nr_nodes_in_use: self.active_node_count,
            current_arena_past_active_arena: self.current_arena_past_active_arena,
            need_to_collect_garbage: self.need_to_collect_garbage,
            current_arena: self.current_arena,
            next_node: self.next_node,
            end_pointer: self.end_pointer,
            last_active_arena: self.last_active_arena(),
            last_active_node: self.last_active_node,
        }
    }
}

/// Changing a node without giving it a mark keeps the state well formed.
proof fn lemma_unmarked_update_wf(before: AllocatorState, after: AllocatorState, p: int)
    requires
        before.wf(),
        0 <= p < before.nodes.len(),
        after.nodes.len() == before.nodes.len(),
        forall|i: int| 0 <= i < before.nodes.len() && i != p ==> (#[trigger] after.nodes[i]) == before.nodes[i],
        after.nodes[p].marked() ==> before.nodes[p].marked(),
        forall|i: int| 0 <= i < after.nodes.len() ==> (#[trigger] after.nodes[i]).wf(),
        after.storage.wf(),
        after.storage.condemned.len() == 0,
        after == (AllocatorState { nodes: after.nodes, storage: after.storage, ..before }),
    ensures
        after.wf(),
{
    assert forall|i: int|
        0 <= i < after.nodes.len() && (#[trigger] after.nodes[i]).marked()
        implies before.nodes[i].marked() by {}
}

/// The allocator's own storage allocator, for as long as the caller holds on to it.
pub fn acquire_storage_allocator(allocator: &mut Allocator) -> (storage: &mut StorageAllocator)
    ensures
        *storage == old(allocator).spec_storage(),
        storage@ == old(allocator)@.storage,
        final(allocator)@ == (AllocatorState { storage: final(storage)@, ..old(allocator)@ }),
        final(allocator).spec_storage() == *final(storage),
        final(allocator).inv() == old(allocator).inv(),
        final(allocator).spec_show_gc() == old(allocator).spec_show_gc(),
        final(allocator).spec_early_quit() == old(allocator).spec_early_quit(),
{
    &mut allocator.storage
}

/// Counts one more active node.
pub fn increment_active_node_count(allocator: &mut Allocator)
    ensures
        final(allocator)@ == (AllocatorState {
            active_node_count: counted_up(old(allocator)@.active_node_count),
            ..old(allocator)@
        }),
        final(allocator).inv() == old(allocator).inv(),
        final(allocator).spec_show_gc() == old(allocator).spec_show_gc(),
        final(allocator).spec_early_quit() == old(allocator).spec_early_quit(),
{
    allocator.active_node_count = if allocator.active_node_count == usize::MAX {
        0
    } else {
        allocator.active_node_count + 1
    };
}

/// The count of active nodes: those handed out since the last collection and those
/// that it found alive.
pub fn active_node_count(allocator: &Allocator) -> (count: usize)
    ensures
        count == allocator@.active_node_count,
{
    allocator.active_node_count
}

} // verus!
