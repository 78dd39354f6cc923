use dag_gc::abstractions::intern;
use dag_gc::dag_node::allocator::node_allocator::{active_node_count, Allocator};
use dag_gc::dag_node::node::{DagNode, DagNodePtr};
use dag_gc::dag_node::root_container::{mark_roots, RootContainer, RootList};
use dag_gc::dag_node::{DagNodeKind, MIN_BUCKET_SIZE};
use dag_gc::symbol::{Symbol, SymbolPtr};
use dag_gc::util::build_random_tree;
use rand::Rng;

fn symbol(name: &str, arity: u8) -> SymbolPtr {
    Box::leak(Box::new(Symbol::new(intern(name), arity)))
}

fn symbols_up_to(arity: u8) -> &'static [Symbol] {
    let symbols: Vec<Symbol> = (0..=arity)
        .map(|x| Symbol::new(intern(format!("symbol({})", x).as_str()), x))
        .collect();
    symbols.leak()
}

/// Builds a full binary tree of the given height and returns its root and the number
/// of its nodes.
fn binary_tree(allocator: &mut Allocator, height: usize) -> (DagNodePtr, usize) {
    if height == 0 {
        return (DagNode::new(allocator, symbol("leaf", 0)).unwrap(), 1);
    }
    let root = DagNode::new(allocator, symbol("fork", 2)).unwrap();
    let (left, left_count) = binary_tree(allocator, height - 1);
    let (right, right_count) = binary_tree(allocator, height - 1);
    allocator.insert_child(root, left).unwrap();
    allocator.insert_child(root, right).unwrap();
    (root, 1 + left_count + right_count)
}

#[test]
fn collecting_without_arenas_does_nothing() {
    let mut allocator = Allocator::new();
    let roots = RootList::new();
    assert_eq!(allocator.ok_to_collect_garbage(&roots), None);
    assert_eq!(allocator.collect_garbage(&roots), None);
    assert_eq!(allocator.nr_arenas(), 0);
    assert_eq!(active_node_count(&allocator), 0);
}

#[test]
fn collecting_when_none_is_asked_for_does_nothing() {
    let mut allocator = Allocator::new();
    let roots = RootList::new();
    DagNode::new(&mut allocator, symbol("a", 0)).unwrap();
    assert!(!allocator.want_to_collect_garbage());
    assert_eq!(allocator.ok_to_collect_garbage(&roots), None);
    assert_eq!(active_node_count(&allocator), 1);
    assert_eq!(allocator.dump_memory_variables().next_node, 1);
}

#[test]
fn collecting_without_roots_keeps_nothing() {
    let mut allocator = Allocator::new();
    let roots = RootList::new();
    let fork = DagNode::new(&mut allocator, symbol("fork", 2)).unwrap();
    let place = allocator.node(fork).unwrap().buffer_place().unwrap();
    assert_eq!(place.bucket, 0);
    let report = allocator.collect_garbage(&roots).unwrap();
    assert_eq!(report.gc_count, 1);
    assert_eq!(report.nr_arenas, 1);
    assert_eq!(report.node_count, 5460);
    assert_eq!(report.old_active_node_count, 1);
    assert_eq!(report.active_node_count, 0);
    assert_eq!(report.collected_nodes(), 1);
    assert_eq!(report.bucket_count, 1);
    assert_eq!(report.old_storage_in_use, 6 * size_of::<usize>());
    assert_eq!(report.storage_in_use, 0);
    assert_eq!(report.collected_storage(), 6 * size_of::<usize>());
    // No arena is freed, nothing is alive, and every bucket is unused.
    assert_eq!(allocator.nr_arenas(), 1);
    assert_eq!(active_node_count(&allocator), 0);
    assert!(!allocator.want_to_collect_garbage());
    assert_eq!(allocator.check_arenas(), None);
    let storage = dag_gc::dag_node::allocator::node_allocator::acquire_storage_allocator(&mut allocator);
    assert!(storage.is_unused(0));
    assert!(!storage.is_in_use(0));
    assert_eq!(storage.bucket(0).unwrap().next_free, 0);
}

#[test]
fn a_second_collection_without_roots_reports_nothing_alive_and_nothing_collected() {
    let mut allocator = Allocator::new();
    let roots = RootList::new();
    allocator.allocate_dag_node().unwrap();
    allocator.collect_garbage(&roots).unwrap();
    let report = allocator.collect_garbage(&roots).unwrap();
    assert_eq!(report.gc_count, 2);
    assert_eq!(report.old_active_node_count, 0);
    assert_eq!(report.active_node_count, 0);
    assert_eq!(report.collected_nodes(), 0);
    assert_eq!(allocator.nr_arenas(), 1);
}

#[test]
fn a_chain_survives() {
    let mut allocator = Allocator::new();
    let mut roots = RootList::new();
    let unary = symbol("f", 1);
    let r = DagNode::new(&mut allocator, unary).unwrap();
    let a = DagNode::new(&mut allocator, unary).unwrap();
    let b = DagNode::new(&mut allocator, unary).unwrap();
    let c = DagNode::new(&mut allocator, unary).unwrap();
    allocator.insert_child(r, a).unwrap();
    allocator.insert_child(a, b).unwrap();
    allocator.insert_child(b, c).unwrap();
    let _root = RootContainer::new(&mut roots, Some(r));
    let report = allocator.collect_garbage(&roots).unwrap();
    assert_eq!(report.active_node_count, 4);
    assert_eq!(report.collected_nodes(), 0);
    assert_eq!(active_node_count(&allocator), 4);
    assert_eq!(allocator.node(r).unwrap().iter_children(), vec![a]);
    assert_eq!(allocator.node(a).unwrap().iter_children(), vec![b]);
    assert_eq!(allocator.node(b).unwrap().iter_children(), vec![c]);
    assert_eq!(allocator.node(c).unwrap().iter_children(), Vec::<usize>::new());
    for node in [r, a, b, c] {
        let read = allocator.node(node).unwrap();
        assert_eq!(read.symbol().unwrap().text(), "f");
        assert!(!read.needs_destruction());
        assert_eq!(read.buffer_place(), None);
        assert!(read.is_marked());
    }
    // No buffer was ever needed.
    assert_eq!(report.bucket_count, 0);
    // The slots of the chain are passed over; the next slot handed out is a free one.
    assert_eq!(allocator.allocate_dag_node(), Some(4));
    assert_eq!(allocator.check_invariant(), None);
    for node in [r, a, b, c] {
        assert!(!allocator.node(node).unwrap().is_marked());
    }
    assert_eq!(active_node_count(&allocator), 5);
}

#[test]
fn a_binary_tree_survives_and_its_buffers_move() {
    let mut allocator = Allocator::new();
    let mut roots = RootList::new();
    let (root, count) = binary_tree(&mut allocator, 6);
    assert_eq!(count, 127);
    let before = allocator.node(root).unwrap().buffer_place().unwrap();
    let children = allocator.node(root).unwrap().iter_children();
    let _handle = RootContainer::new(&mut roots, Some(root));
    let report = allocator.collect_garbage(&roots).unwrap();
    assert_eq!(report.active_node_count, 127);
    assert_eq!(report.old_active_node_count, 127);
    assert_eq!(active_node_count(&allocator), 127);
    let after = allocator.node(root).unwrap().buffer_place().unwrap();
    assert_ne!(after.bucket, before.bucket);
    assert_ne!(after, before);
    // The root is the first node whose buffer is copied.
    assert_eq!(after.offset, 0);
    assert_eq!(allocator.node(root).unwrap().iter_children(), children);
    // 63 nodes have a buffer for two children: four words of header and two entries.
    assert_eq!(report.storage_in_use, 63 * 6 * size_of::<usize>());
    assert_eq!(report.old_storage_in_use, 63 * 6 * size_of::<usize>());
    let storage = dag_gc::dag_node::allocator::node_allocator::acquire_storage_allocator(&mut allocator);
    assert!(storage.is_in_use(after.bucket));
    assert!(!storage.is_unused(after.bucket));
    assert!(storage.is_unused(before.bucket));
    assert_eq!(storage.bucket(before.bucket).unwrap().next_free, 0);
}

#[test]
fn every_live_buffer_lies_in_a_bucket_in_use() {
    let mut allocator = Allocator::new();
    let mut roots = RootList::new();
    let (root, count) = binary_tree(&mut allocator, 4);
    let _handle = RootContainer::new(&mut roots, Some(root));
    allocator.collect_garbage(&roots).unwrap();
    allocator.collect_garbage(&roots).unwrap();
    let places: Vec<_> = (0..count)
        .filter_map(|node| allocator.node(node).unwrap().buffer_place())
        .collect();
    assert_eq!(places.len(), 15);
    let storage = dag_gc::dag_node::allocator::node_allocator::acquire_storage_allocator(&mut allocator);
    for place in places {
        assert!(storage.is_in_use(place.bucket));
        assert!(!storage.is_unused(place.bucket));
        assert_eq!(place.offset % 8, 0);
        assert!(place.offset + 6 * size_of::<usize>() <= storage.bucket(place.bucket).unwrap().next_free);
    }
}

#[test]
fn what_no_root_holds_is_collected() {
    let mut allocator = Allocator::new();
    let mut roots = RootList::new();
    let unary = symbol("f", 1);
    let r1 = DagNode::new(&mut allocator, unary).unwrap();
    let a = DagNode::new(&mut allocator, symbol("g", 2)).unwrap();
    let a1 = DagNode::new(&mut allocator, symbol("a", 0)).unwrap();
    let a2 = DagNode::new(&mut allocator, symbol("a", 0)).unwrap();
    allocator.insert_child(r1, a).unwrap();
    allocator.insert_child(a, a1).unwrap();
    allocator.insert_child(a, a2).unwrap();
    let first = RootContainer::new(&mut roots, Some(r1));
    // Drop the first root and hold something unrelated.
    first.unlink(&mut roots);
    let r2 = DagNode::new(&mut allocator, unary).unwrap();
    let b = DagNode::new(&mut allocator, symbol("b", 0)).unwrap();
    allocator.insert_child(r2, b).unwrap();
    let _second = RootContainer::new(&mut roots, Some(r2));
    let report = allocator.collect_garbage(&roots).unwrap();
    assert_eq!(report.old_active_node_count, 6);
    assert_eq!(report.active_node_count, 2);
    assert_eq!(report.collected_nodes(), 4);
    assert!(allocator.node(r2).unwrap().is_marked());
    assert!(allocator.node(b).unwrap().is_marked());
    for dead in [r1, a, a1, a2] {
        assert!(!allocator.node(dead).unwrap().is_marked());
    }
    // The slots of what was collected are handed out again, in order.
    assert_eq!(allocator.allocate_dag_node(), Some(r1));
    assert_eq!(allocator.allocate_dag_node(), Some(a));
    assert!(!allocator.node(a).unwrap().needs_destruction());
    assert_eq!(allocator.allocate_dag_node(), Some(a1));
    assert_eq!(allocator.allocate_dag_node(), Some(a2));
    // The two that are alive are passed over.
    assert_eq!(allocator.allocate_dag_node(), Some(6));
    assert_eq!(allocator.node(r2).unwrap().iter_children(), vec![b]);
    assert!(!allocator.node(r2).unwrap().is_marked());
}

#[test]
fn a_shared_node_is_counted_once() {
    let mut allocator = Allocator::new();
    let mut roots = RootList::new();
    let shared = DagNode::new(&mut allocator, symbol("a", 0)).unwrap();
    let left = DagNode::with_args(&mut allocator, symbol("f", 1), &vec![shared], DagNodeKind::Free).unwrap();
    let right = DagNode::with_args(&mut allocator, symbol("f", 1), &vec![shared], DagNodeKind::Free).unwrap();
    let top = DagNode::with_args(&mut allocator, symbol("g", 2), &vec![left, right], DagNodeKind::Free).unwrap();
    let _one = RootContainer::new(&mut roots, Some(top));
    let _other = RootContainer::new(&mut roots, Some(left));
    let report = allocator.collect_garbage(&roots).unwrap();
    assert_eq!(report.active_node_count, 4);
}

#[test]
fn a_cycle_is_marked_once() {
    let mut allocator = Allocator::new();
    let mut roots = RootList::new();
    let unary = symbol("f", 1);
    let a = DagNode::new(&mut allocator, unary).unwrap();
    let b = DagNode::new(&mut allocator, unary).unwrap();
    allocator.insert_child(a, b).unwrap();
    allocator.insert_child(b, a).unwrap();
    let _root = RootContainer::new(&mut roots, Some(a));
    let report = allocator.collect_garbage(&roots).unwrap();
    assert_eq!(report.active_node_count, 2);
}

#[test]
fn a_child_that_is_no_node_is_passed_over() {
    let mut allocator = Allocator::new();
    let mut roots = RootList::new();
    let a = DagNode::with_args(&mut allocator, symbol("g", 2), &vec![1_000_000, 1], DagNodeKind::Free).unwrap();
    let _root = RootContainer::new(&mut roots, Some(a));
    let _stray = RootContainer::new(&mut roots, Some(2_000_000));
    let report = allocator.collect_garbage(&roots).unwrap();
    // The node and the free slot that it names as its child.
    assert_eq!(report.active_node_count, 2);
}

#[test]
fn marking_twice_is_marking_once() {
    let mut allocator = Allocator::new();
    let (root, count) = binary_tree(&mut allocator, 3);
    assert_eq!(count, 15);
    assert_eq!(active_node_count(&allocator), 15);
    DagNode::mark(&mut allocator, root);
    assert_eq!(active_node_count(&allocator), 30);
    let marked: Vec<bool> = (0..20usize).map(|node| allocator.node(node).unwrap().is_marked()).collect();
    let place = allocator.node(root).unwrap().buffer_place();
    DagNode::mark(&mut allocator, root);
    assert_eq!(active_node_count(&allocator), 30);
    let again: Vec<bool> = (0..20usize).map(|node| allocator.node(node).unwrap().is_marked()).collect();
    assert_eq!(marked, again);
    assert_eq!(marked.iter().filter(|&&m| m).count(), 15);
    assert_eq!(allocator.node(root).unwrap().buffer_place(), place);
    assert_eq!(allocator.check_arenas(), Some(0));
    // The marks lie before the cursor, where the lazy sweep has been already.
    assert_eq!(allocator.check_invariant(), Some(0));
}

#[test]
fn marking_the_roots_marks_what_they_reach() {
    let mut allocator = Allocator::new();
    let mut roots = RootList::new();
    let (one, _) = binary_tree(&mut allocator, 1);
    let (other, _) = binary_tree(&mut allocator, 2);
    let (_unheld, _) = binary_tree(&mut allocator, 1);
    let first = RootContainer::new(&mut roots, Some(one));
    let _second = RootContainer::new(&mut roots, Some(other));
    let counted = active_node_count(&allocator);
    assert_eq!(counted, 13);
    first.mark(&roots, &mut allocator);
    assert_eq!(active_node_count(&allocator), 16);
    mark_roots(&roots, &mut allocator);
    assert_eq!(active_node_count(&allocator), 23);
    let marked = (0..13usize).filter(|&node| allocator.node(node).unwrap().is_marked()).count();
    assert_eq!(marked, 10);
}

#[test]
fn a_collection_adds_arenas_for_what_is_alive() {
    let mut allocator = Allocator::new();
    let mut roots = RootList::new();
    let root = DagNode::new(&mut allocator, symbol("f", 1)).unwrap();
    let _handle = RootContainer::new(&mut roots, Some(root));
    // A chain of 2000 nodes.
    let mut last = root;
    for _ in 1..2000usize {
        let next = DagNode::new(&mut allocator, symbol("f", 1)).unwrap();
        allocator.insert_child(last, next).unwrap();
        last = next;
    }
    assert_eq!(allocator.nr_arenas(), 1);
    let report = allocator.collect_garbage(&roots).unwrap();
    assert_eq!(report.active_node_count, 2000);
    assert_eq!(report.nr_arenas, 1);
    // Eight times 2000 nodes are 16000 nodes, which take three arenas.
    assert_eq!(allocator.nr_arenas(), 3);
    let variables = allocator.dump_memory_variables();
    assert_eq!(variables.current_arena, 0);
    assert_eq!(variables.next_node, 0);
    // The first arena is no longer the last: it has no reserve.
    assert_eq!(variables.end_pointer, 5460);
    assert_eq!(variables.last_active_node, Some(1999));
    assert_eq!(variables.last_active_arena, Some(0));
    assert!(!variables.need_to_collect_garbage);
    // A second collection finds the same and adds nothing.
    let again = allocator.collect_garbage(&roots).unwrap();
    assert_eq!(again.active_node_count, 2000);
    assert_eq!(allocator.nr_arenas(), 3);
}

#[test]
fn the_cursor_leaves_the_arena_of_the_last_active_node() {
    let mut allocator = Allocator::new();
    let mut roots = RootList::new();
    let root = DagNode::new(&mut allocator, symbol("a", 0)).unwrap();
    let _handle = RootContainer::new(&mut roots, Some(root));
    for _ in 0..700usize {
        allocator.allocate_dag_node().unwrap();
    }
    allocator.collect_garbage(&roots).unwrap();
    // One node is alive: one arena is enough, and it keeps its reserve.
    assert_eq!(allocator.nr_arenas(), 1);
    assert_eq!(allocator.dump_memory_variables().last_active_node, Some(700));
    for _ in 0..5459usize {
        allocator.allocate_dag_node().unwrap();
    }
    assert!(allocator.want_to_collect_garbage());
    assert!(!allocator.dump_memory_variables().current_arena_past_active_arena);
    assert_eq!(allocator.allocate_dag_node(), Some(5460));
    assert!(allocator.dump_memory_variables().current_arena_past_active_arena);
    let report = allocator.ok_to_collect_garbage(&roots).unwrap();
    assert_eq!(report.gc_count, 2);
    // The root lost its mark to the lazy sweep and then nothing else reached it.
    assert_eq!(report.active_node_count, 1);
    assert_eq!(report.old_active_node_count, 1 + 5460);
    assert_eq!(allocator.dump_memory_variables().last_active_node, Some(5460));
}

#[test]
fn an_outsized_buffer_gets_a_bucket_of_its_own() {
    let mut allocator = Allocator::new();
    let children: Vec<DagNodePtr> = vec![0; 40_000];
    let request = (4 + 40_000) * size_of::<usize>();
    assert!(request > MIN_BUCKET_SIZE);
    let small = DagNode::new(&mut allocator, symbol("g", 2)).unwrap();
    let large = DagNode::with_args(&mut allocator, symbol("h", 2), &children, DagNodeKind::Free).unwrap();
    let place = allocator.node(large).unwrap().buffer_place().unwrap();
    assert_ne!(place.bucket, allocator.node(small).unwrap().buffer_place().unwrap().bucket);
    assert_eq!(place.offset, 0);
    assert_eq!(allocator.node(large).unwrap().len(), 40_000);
    let next = DagNode::new(&mut allocator, symbol("g", 2)).unwrap();
    let follows = allocator.node(next).unwrap().buffer_place().unwrap();
    assert_eq!(follows.bucket, place.bucket);
    assert_eq!(follows.offset, request);
    let storage = dag_gc::dag_node::allocator::node_allocator::acquire_storage_allocator(&mut allocator);
    let bucket = storage.bucket(place.bucket).unwrap();
    assert_eq!(bucket.nr_bytes, 8 * request - 32);
    assert!(bucket.nr_bytes + 32 >= 8 * request);
}

#[test]
fn a_random_tree_is_built() {
    let mut allocator = Allocator::new();
    let symbols = symbols_up_to(4);
    let root = DagNode::new(&mut allocator, &symbols[3]).unwrap();
    build_random_tree(&mut allocator, symbols, root, 2, 4, 2);
    let count = active_node_count(&allocator);
    // Three children with two to four children each, which have leaves.
    assert!(count >= 1 + 3 + 3 * 2);
    assert!(count <= 1 + 3 + 3 * 4);
    assert_eq!(allocator.node(root).unwrap().len(), 3);
    for child in allocator.node(root).unwrap().iter_children() {
        let node = allocator.node(child).unwrap();
        assert!(node.arity() >= 2 && node.arity() <= 4);
        assert_eq!(node.len(), node.arity() as usize);
        for leaf in node.iter_children() {
            assert_eq!(allocator.node(leaf).unwrap().arity(), 0);
            assert_eq!(allocator.node(leaf).unwrap().len(), 0);
        }
    }
}

#[test]
fn the_widths_of_a_random_tree_vary() {
    let mut allocator = Allocator::new();
    let symbols = symbols_up_to(200);
    let root = DagNode::new(&mut allocator, &symbols[200]).unwrap();
    build_random_tree(&mut allocator, symbols, root, 2, 7, 0);
    let children = allocator.node(root).unwrap().iter_children();
    assert_eq!(children.len(), 200);
    let arities: Vec<u8> = children.iter().map(|&child| allocator.node(child).unwrap().arity()).collect();
    assert!(arities.iter().all(|&arity| arity <= 7));
    assert!(arities.iter().any(|&arity| arity != arities[0]));
    assert!(arities.iter().any(|&arity| arity > 0));
    assert!(arities.iter().any(|&arity| arity < 7));
}

#[test]
fn a_random_tree_of_height_zero_is_its_root() {
    let mut allocator = Allocator::new();
    let symbols = symbols_up_to(7);
    let root = DagNode::new(&mut allocator, &symbols[5]).unwrap();
    build_random_tree(&mut allocator, symbols, root, 0, 7, 0);
    assert_eq!(active_node_count(&allocator), 1);
    assert_eq!(allocator.node(root).unwrap().len(), 0);
}

#[test]
fn widths_are_put_in_order() {
    let mut allocator = Allocator::new();
    let symbols = symbols_up_to(7);
    let root = DagNode::new(&mut allocator, &symbols[2]).unwrap();
    build_random_tree(&mut allocator, symbols, root, 2, 1, 5);
    for child in allocator.node(root).unwrap().iter_children() {
        assert_eq!(allocator.node(child).unwrap().arity(), 1);
    }
}

#[test]
fn a_large_random_tree_survives() {
    let mut allocator = Allocator::new();
    let mut roots = RootList::new();
    let symbols = symbols_up_to(7);
    let mut rng = rand::thread_rng();
    let root = DagNode::new(&mut allocator, &symbols[7]).unwrap();
    let _handle = RootContainer::new(&mut roots, Some(root));
    // Breadth first: every node gets as many children as its arity says, until there
    // are 100 000 nodes.
    let mut count: usize = 1;
    let mut queue = std::collections::VecDeque::new();
    queue.push_back(root);
    while count < 100_000 {
        let parent = queue.pop_front().unwrap();
        let arity = allocator.node(parent).unwrap().arity() as usize;
        for _ in 0..arity {
            if count == 100_000 {
                break;
            }
            let width: usize = if queue.len() < 8 { 7 } else { rng.gen_range(0..=7) };
            let child = DagNode::new(&mut allocator, &symbols[width]).unwrap();
            allocator.insert_child(parent, child).unwrap();
            queue.push_back(child);
            count += 1;
        }
    }
    assert_eq!(active_node_count(&allocator), 100_000);
    assert!(allocator.want_to_collect_garbage());
    let arenas = allocator.nr_arenas();
    let report = allocator.ok_to_collect_garbage(&roots).unwrap();
    assert_eq!(report.active_node_count, 100_000);
    assert_eq!(report.collected_nodes(), 0);
    assert_eq!(report.nr_arenas, arenas);
    assert_eq!(active_node_count(&allocator), 100_000);
    assert_eq!(allocator.nr_arenas(), 147);
    // No collection is asked for now.
    assert_eq!(allocator.ok_to_collect_garbage(&roots), None);
    // One that runs all the same finds the same nodes alive and adds no arena.
    let again = allocator.collect_garbage(&roots).unwrap();
    assert_eq!(again.active_node_count, 100_000);
    assert_eq!(again.old_active_node_count, 100_000);
    assert_eq!(allocator.nr_arenas(), 147);
    assert_eq!(active_node_count(&allocator), 100_000);
}
