use dag_gc::abstractions::intern;
use dag_gc::dag_node::allocator::node_allocator::Allocator;
use dag_gc::dag_node::allocator::node_vector::NodeVector;
use dag_gc::dag_node::allocator::storage_allocator::StorageAllocator;
use dag_gc::dag_node::flags::{DagNodeFlag, DagNodeFlags};
use dag_gc::dag_node::node::{DagNode, DagNodeArgument};
use dag_gc::dag_node::DagNodeKind;
use dag_gc::symbol::{Symbol, SymbolPtr};

fn symbol(name: &str, arity: u8) -> SymbolPtr {
    Box::leak(Box::new(Symbol::new(intern(name), arity)))
}

#[test]
fn size_of_dag_node() {
    println!("size of SymbolPtr: {}", size_of::<SymbolPtr>());
    println!("size of DagNodeArgument: {}", size_of::<DagNodeArgument>());
    println!("size of DagNodeKind: {}", size_of::<DagNodeKind>());
    println!("size of DagNodeFlags: {}", size_of::<DagNodeFlags>());
    println!("size of DagNode: {}", size_of::<DagNode>());
    assert_eq!(size_of::<DagNode>(), 4 * size_of::<usize>());
}

#[test]
fn the_default_node_is_empty() {
    let node = DagNode::default();
    assert!(node.symbol().is_none());
    assert_eq!(node.arity(), 0);
    assert_eq!(node.len(), 0);
    assert_eq!(node.kind, DagNodeKind::Free);
    assert!(node.flags.is_empty());
    assert!(!node.is_marked());
    assert!(!node.needs_destruction());
    assert!(node.simple_reuse());
    assert_eq!(node.iter_children(), Vec::<usize>::new());
    assert_eq!(node.buffer_place(), None);
}

#[test]
fn a_node_vector_holds_up_to_its_capacity() {
    let mut storage = StorageAllocator::new();
    let mut vector = NodeVector::with_capacity(&mut storage, 3);
    assert_eq!(vector.capacity(), 3);
    assert_eq!(vector.len(), 0);
    assert!(vector.is_empty());
    assert_eq!(vector.place().bucket, 0);
    assert_eq!(vector.place().offset, 0);
    // Four words of header and three entries.
    assert_eq!(storage.storage_in_use(), 7 * size_of::<usize>());
    assert_eq!(vector.push(11), Ok(()));
    assert_eq!(vector.push(12), Ok(()));
    assert_eq!(vector.push(13), Ok(()));
    assert_eq!(vector.push(14), Err(()));
    assert_eq!(vector.len(), 3);
    assert_eq!(vector.iter(), &[11, 12, 13]);
    assert_eq!(vector.index(1), 12);
    vector.iter_mut(1, 99);
    assert_eq!(vector.iter(), &[11, 99, 13]);
    assert_eq!(vector.pop(), Some(13));
    assert_eq!(vector.pop(), Some(99));
    assert_eq!(vector.pop(), Some(11));
    assert_eq!(vector.pop(), None);
    assert!(vector.is_empty());
    assert_eq!(vector.capacity(), 3);
}

#[test]
fn a_node_vector_from_a_slice_is_full() {
    let mut storage = StorageAllocator::new();
    let mut vector = NodeVector::from_slice(&mut storage, &[4, 5]);
    assert_eq!(vector.capacity(), 2);
    assert_eq!(vector.iter(), &[4, 5]);
    assert_eq!(vector.push(6), Err(()));
    let empty = NodeVector::from_slice(&mut storage, &[]);
    assert_eq!(empty.capacity(), 0);
    assert!(empty.is_empty());
}

#[test]
fn a_copy_has_a_place_of_its_own() {
    let mut storage = StorageAllocator::new();
    let mut vector = NodeVector::with_capacity(&mut storage, 4);
    vector.push(1).unwrap();
    vector.push(2).unwrap();
    let copy = vector.shallow_copy(&mut storage);
    assert_eq!(copy.iter(), &[1, 2]);
    assert_eq!(copy.capacity(), 4);
    assert_ne!(copy.place(), vector.place());
    assert_eq!(copy.place().offset, 8 * size_of::<usize>());
}

#[test]
fn a_copy_with_another_capacity() {
    let mut storage = StorageAllocator::new();
    let vector = NodeVector::from_slice(&mut storage, &[1, 2, 3]);
    let wider = vector.copy_with_capacity(&mut storage, 5);
    assert_eq!(wider.capacity(), 5);
    assert_eq!(wider.iter(), &[1, 2, 3]);
    let narrower = vector.copy_with_capacity(&mut storage, 2);
    assert_eq!(narrower.capacity(), 2);
    assert_eq!(narrower.iter(), &[1, 2]);
    let same = vector.copy_with_capacity(&mut storage, 3);
    assert_eq!(same.capacity(), 3);
    assert_eq!(same.iter(), &[1, 2, 3]);
}

#[test]
fn children_are_inserted_one_by_one() {
    let mut storage = StorageAllocator::new();
    let mut node = DagNode::default();
    assert_eq!(node.insert_child(&mut storage, 7), Ok(()));
    assert_eq!(node.iter_children(), vec![7]);
    assert!(!node.needs_destruction());
    assert_eq!(storage.storage_in_use(), 0);
    assert_eq!(node.insert_child(&mut storage, 8), Ok(()));
    assert_eq!(node.iter_children(), vec![7, 8]);
    assert!(node.needs_destruction());
    assert!(!node.simple_reuse());
    assert_eq!(node.len(), 2);
    assert_eq!(storage.storage_in_use(), 6 * size_of::<usize>());
    // The buffer for two is full.
    let failed = node.insert_child(&mut storage, 9);
    assert!(failed.is_err());
    assert_eq!(failed, Err(String::from("the node's buffer is full")));
    assert_eq!(node.iter_children(), vec![7, 8]);
}

#[test]
fn a_destructed_node_has_no_buffer() {
    let mut storage = StorageAllocator::new();
    let mut node = DagNode::default();
    node.insert_child(&mut storage, 1).unwrap();
    node.destruct();
    assert_eq!(node.iter_children(), vec![1]);
    node.insert_child(&mut storage, 2).unwrap();
    assert!(node.needs_destruction());
    node.destruct();
    assert!(!node.needs_destruction());
    assert_eq!(node.len(), 0);
    assert!(node.simple_reuse());
}

#[test]
fn a_marked_node_is_not_reused() {
    let mut node = DagNode::default();
    node.flags.insert(DagNodeFlag::Marked);
    assert!(node.is_marked());
    assert!(!node.simple_reuse());
}

#[test]
fn a_new_node_has_room_for_its_arity() {
    let mut allocator = Allocator::new();
    let leaf = DagNode::new(&mut allocator, symbol("a", 0)).unwrap();
    let unary = DagNode::with_kind(&mut allocator, symbol("f", 1), DagNodeKind::NA).unwrap();
    let ternary = DagNode::with_kind(&mut allocator, symbol("g", 3), DagNodeKind::ACU).unwrap();
    assert_eq!((leaf, unary, ternary), (0, 1, 2));
    let node = allocator.node(leaf).unwrap();
    assert_eq!(node.kind, DagNodeKind::Free);
    assert_eq!(node.arity(), 0);
    assert_eq!(node.symbol().unwrap().text(), "a");
    assert!(!node.needs_destruction());
    let node = allocator.node(unary).unwrap();
    assert_eq!(node.kind, DagNodeKind::NA);
    assert!(!node.needs_destruction());
    let node = allocator.node(ternary).unwrap();
    assert_eq!(node.kind, DagNodeKind::ACU);
    assert_eq!(node.arity(), 3);
    assert!(node.needs_destruction());
    assert_eq!(node.len(), 0);
    assert!(node.flags.is_empty());
    assert_eq!(allocator.insert_child(ternary, leaf), Ok(()));
    assert_eq!(allocator.insert_child(ternary, unary), Ok(()));
    assert_eq!(allocator.insert_child(ternary, leaf), Ok(()));
    assert!(allocator.insert_child(ternary, leaf).is_err());
    assert_eq!(allocator.node(ternary).unwrap().iter_children(), vec![0, 1, 0]);
}

#[test]
fn a_node_made_with_children() {
    let mut allocator = Allocator::new();
    let none = DagNode::with_args(&mut allocator, symbol("a", 0), &vec![], DagNodeKind::Data).unwrap();
    let one = DagNode::with_args(&mut allocator, symbol("f", 1), &vec![none], DagNodeKind::Data).unwrap();
    let two = DagNode::with_args(&mut allocator, symbol("g", 2), &vec![none, one], DagNodeKind::AU).unwrap();
    let more = DagNode::with_args(&mut allocator, symbol("h", 1), &vec![none, one, two], DagNodeKind::CUI).unwrap();
    let room = DagNode::with_args(&mut allocator, symbol("k", 4), &vec![two], DagNodeKind::Variable).unwrap();
    assert_eq!(allocator.node(none).unwrap().iter_children(), Vec::<usize>::new());
    assert!(!allocator.node(none).unwrap().needs_destruction());
    assert_eq!(allocator.node(one).unwrap().iter_children(), vec![none]);
    assert!(!allocator.node(one).unwrap().needs_destruction());
    assert_eq!(allocator.node(two).unwrap().iter_children(), vec![none, one]);
    assert!(allocator.node(two).unwrap().needs_destruction());
    assert_eq!(allocator.node(more).unwrap().iter_children(), vec![none, one, two]);
    assert!(allocator.insert_child(more, none).is_err());
    assert_eq!(allocator.node(room).unwrap().iter_children(), vec![two]);
    assert_eq!(allocator.insert_child(room, one), Ok(()));
    assert_eq!(allocator.insert_child(room, one), Ok(()));
    assert_eq!(allocator.insert_child(room, one), Ok(()));
    assert!(allocator.insert_child(room, one).is_err());
    assert_eq!(allocator.node(room).unwrap().kind, DagNodeKind::Variable);
}

#[test]
fn kind_and_flags_can_be_set() {
    let mut allocator = Allocator::new();
    let node = DagNode::new(&mut allocator, symbol("a", 0)).unwrap();
    allocator.set_kind(node, DagNodeKind::CUI);
    allocator.set_flag(node, DagNodeFlag::Reduced, true);
    allocator.set_flag(node, DagNodeFlag::HashValid, true);
    allocator.set_flag(node, DagNodeFlag::Reduced, false);
    let read = allocator.node(node).unwrap();
    assert_eq!(read.kind, DagNodeKind::CUI);
    assert!(read.flags.contains(DagNodeFlag::HashValid));
    assert!(!read.flags.contains(DagNodeFlag::Reduced));
    assert!(!read.is_marked());
}
