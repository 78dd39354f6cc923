use dag_gc::dag_node::allocator::arena::Arena;
use dag_gc::dag_node::allocator::bucket::StoragePtr;
use dag_gc::dag_node::allocator::node_allocator::{
    acquire_storage_allocator, active_node_count, arenas_wanted_for, increment_active_node_count,
    Allocator, MemoryVariables, BIG_MODEL_SLOP, LOWER_BOUND, MAX_ARENAS, SMALL_MODEL_SLOP,
    UPPER_BOUND,
};
use dag_gc::dag_node::{DagNodeKind, ARENA_SIZE, RESERVE_SIZE};

#[test]
fn test_allocate_dag_node() {
    let mut allocator = Allocator::new();
    let node_ptr = allocator.allocate_dag_node();
    let node = match node_ptr {
        None => {
            panic!("allocate_dag_node returned None");
        }
        Some(node) => node,
    };

    allocator.set_kind(node, DagNodeKind::Free);
}

#[test]
fn the_parameters_of_the_node_allocator() {
    assert_eq!(ARENA_SIZE, 5460);
    assert_eq!(RESERVE_SIZE, 256);
    assert_eq!(SMALL_MODEL_SLOP, 8);
    assert_eq!(BIG_MODEL_SLOP, 2);
    assert_eq!(LOWER_BOUND, 4 * 1024 * 1024);
    assert_eq!(UPPER_BOUND, 32 * 1024 * 1024);
    assert!(MAX_ARENAS * ARENA_SIZE <= u32::MAX as usize);
    assert!((MAX_ARENAS + 1) * ARENA_SIZE > u32::MAX as usize);
}

#[test]
fn a_new_arena_has_empty_slots() {
    let arena = Arena::allocate_new_arena(5460);
    assert_eq!(arena.first_node(), 5460);
}

#[test]
fn a_new_allocator_has_no_arenas() {
    let allocator = Allocator::new();
    assert_eq!(allocator.nr_arenas(), 0);
    assert!(!allocator.want_to_collect_garbage());
    assert!(!allocator.contains(0));
    assert!(allocator.node(0).is_none());
    assert_eq!(active_node_count(&allocator), 0);
    assert!(allocator.show_gc());
    assert_eq!(allocator.early_quit(), 0);
    assert_eq!(
        allocator.dump_memory_variables(),
        MemoryVariables {
            nr_arenas: 0,
            nr_nodes_in_use: 0,
            current_arena_past_active_arena: false,
            need_to_collect_garbage: false,
            current_arena: 0,
            next_node: 0,
            end_pointer: 0,
            last_active_arena: None,
            last_active_node: None,
        }
    );
}

#[test]
fn slots_are_handed_out_in_order() {
    let mut allocator = Allocator::new();
    assert_eq!(allocator.allocate_dag_node(), Some(0));
    assert_eq!(allocator.nr_arenas(), 1);
    assert_eq!(allocator.allocate_dag_node(), Some(1));
    assert_eq!(allocator.allocate_dag_node(), Some(2));
    assert_eq!(active_node_count(&allocator), 3);
    assert!(allocator.contains(5459));
    assert!(!allocator.contains(5460));
    assert!(!allocator.want_to_collect_garbage());
    let variables = allocator.dump_memory_variables();
    assert_eq!(variables.next_node, 3);
    assert_eq!(variables.end_pointer, 5460 - 256);
    assert_eq!(variables.current_arena, 0);
    assert_eq!(variables.nr_nodes_in_use, 3);
}

#[test]
fn reaching_the_reserve_asks_for_a_collection() {
    let mut allocator = Allocator::new();
    for expected in 0..5204usize {
        assert_eq!(allocator.allocate_dag_node(), Some(expected));
    }
    assert!(!allocator.want_to_collect_garbage());
    assert_eq!(allocator.dump_memory_variables().end_pointer, 5204);
    // The first slot of the reserve.
    assert_eq!(allocator.allocate_dag_node(), Some(5204));
    assert!(allocator.want_to_collect_garbage());
    assert_eq!(allocator.dump_memory_variables().end_pointer, 5460);
    assert_eq!(allocator.nr_arenas(), 1);
    for expected in 5205..5460usize {
        assert_eq!(allocator.allocate_dag_node(), Some(expected));
    }
    assert_eq!(allocator.nr_arenas(), 1);
    // The reserve is used up: a new arena, which has no reserve.
    assert_eq!(allocator.allocate_dag_node(), Some(5460));
    assert_eq!(allocator.nr_arenas(), 2);
    let variables = allocator.dump_memory_variables();
    assert_eq!(variables.current_arena, 1);
    assert_eq!(variables.next_node, 5461);
    assert_eq!(variables.end_pointer, 2 * 5460);
    assert_eq!(variables.nr_nodes_in_use, 5461);
    assert!(variables.need_to_collect_garbage);
    assert!(!variables.current_arena_past_active_arena);
    assert_eq!(allocator.check_invariant(), None);
    assert_eq!(allocator.check_arenas(), None);
}

#[test]
fn the_count_of_active_nodes_counts_up() {
    let mut allocator = Allocator::new();
    increment_active_node_count(&mut allocator);
    increment_active_node_count(&mut allocator);
    assert_eq!(active_node_count(&allocator), 2);
    allocator.allocate_dag_node();
    assert_eq!(active_node_count(&allocator), 3);
}

#[test]
fn storage_is_handed_out_through_the_node_allocator() {
    let mut allocator = Allocator::new();
    assert_eq!(allocator.allocate_storage(64), StoragePtr { bucket: 0, offset: 0 });
    assert_eq!(allocator.allocate_storage(16), StoragePtr { bucket: 0, offset: 64 });
    let storage = acquire_storage_allocator(&mut allocator);
    assert_eq!(storage.storage_in_use(), 80);
    assert_eq!(storage.allocate_storage(8), StoragePtr { bucket: 0, offset: 80 });
    assert_eq!(allocator.allocate_storage(8), StoragePtr { bucket: 0, offset: 88 });
    assert!(!allocator.want_to_collect_garbage());
    allocator.allocate_storage(225280);
    assert!(allocator.want_to_collect_garbage());
}

#[test]
fn few_nodes_ask_for_eight_times_their_room() {
    assert_eq!(arenas_wanted_for(0), 0);
    assert_eq!(arenas_wanted_for(1), 1);
    assert_eq!(arenas_wanted_for(682), 1);
    assert_eq!(arenas_wanted_for(683), 2);
    assert_eq!(arenas_wanted_for(5460), 8);
    assert_eq!(arenas_wanted_for(5461), 9);
    assert_eq!(arenas_wanted_for(100_000), 147);
    assert_eq!(arenas_wanted_for(4 * 1024 * 1024 - 1), 6146);
}

#[test]
fn many_nodes_ask_for_twice_their_room() {
    assert_eq!(arenas_wanted_for(32 * 1024 * 1024), 12292);
    assert_eq!(arenas_wanted_for(40_000_000), 14653);
}

#[test]
fn in_between_the_slop_falls_in_a_straight_line() {
    // At the lower bound the factor is still 8.
    assert_eq!(arenas_wanted_for(4 * 1024 * 1024), 6146);
    // Half way it is 5.
    assert_eq!(arenas_wanted_for(18 * 1024 * 1024), 17285);
    // Just below the upper bound it is just above 2.
    assert_eq!(arenas_wanted_for(32 * 1024 * 1024 - 1), 12292);
}

#[test]
fn the_settings_can_be_changed() {
    let mut allocator = Allocator::new();
    allocator.set_show_gc(false);
    allocator.set_early_quit(3);
    assert!(!allocator.show_gc());
    assert_eq!(allocator.early_quit(), 3);
    assert_eq!(allocator.gc_count(), 0);
    assert_eq!(allocator.allocate_dag_node(), Some(0));
    allocator.set_show_gc(true);
    assert!(allocator.show_gc());
    assert_eq!(allocator.early_quit(), 3);
}
