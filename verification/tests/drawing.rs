use dag_gc::abstractions::intern;
use dag_gc::dag_node::allocator::node_allocator::Allocator;
use dag_gc::dag_node::node::DagNode;
use dag_gc::dag_node::DagNodeKind;
use dag_gc::symbol::{Symbol, SymbolPtr};
use dag_gc::util::{child_arity, print_tree};

fn symbol(name: &str, arity: u8) -> SymbolPtr {
    Box::leak(Box::new(Symbol::new(intern(name), arity)))
}

#[test]
fn a_leaf_is_one_line() {
    let mut allocator = Allocator::new();
    let leaf = DagNode::new(&mut allocator, symbol("a", 0)).unwrap();
    assert_eq!(print_tree(&allocator, leaf, String::new(), true, 5), vec!["node<a>"]);
    assert_eq!(print_tree(&allocator, leaf, String::new(), false, 5), vec!["node<a>"]);
    assert_eq!(print_tree(&allocator, leaf, String::from("  "), true, 5), vec!["  ╰──node<a>"]);
    assert_eq!(print_tree(&allocator, leaf, String::from("  "), false, 5), vec!["  ├──node<a>"]);
}

#[test]
fn a_slot_without_a_symbol_has_no_name() {
    let mut allocator = Allocator::new();
    let slot = allocator.allocate_dag_node().unwrap();
    assert_eq!(print_tree(&allocator, slot, String::new(), true, 0), vec!["node<>"]);
}

#[test]
fn a_tree_is_drawn_with_branches() {
    let mut allocator = Allocator::new();
    let a = DagNode::new(&mut allocator, symbol("a", 0)).unwrap();
    let b = DagNode::new(&mut allocator, symbol("b", 0)).unwrap();
    let c = DagNode::new(&mut allocator, symbol("c", 0)).unwrap();
    let g = DagNode::with_args(&mut allocator, symbol("g", 2), &vec![a, b], DagNodeKind::Free).unwrap();
    let f = DagNode::with_args(&mut allocator, symbol("f", 2), &vec![g, c], DagNodeKind::Free).unwrap();
    assert_eq!(
        print_tree(&allocator, f, String::new(), true, 10),
        vec![
            "node<f>",
            "    ├──node<g>",
            "    │   ├──node<a>",
            "    │   ╰──node<b>",
            "    ╰──node<c>",
        ]
    );
    assert_eq!(
        print_tree(&allocator, f, String::new(), false, 10),
        vec![
            "node<f>",
            " ├──node<g>",
            " │   ├──node<a>",
            " │   ╰──node<b>",
            " ╰──node<c>",
        ]
    );
}

#[test]
fn a_drawing_stops_at_its_depth() {
    let mut allocator = Allocator::new();
    let a = DagNode::new(&mut allocator, symbol("a", 0)).unwrap();
    let g = DagNode::with_args(&mut allocator, symbol("g", 1), &vec![a], DagNodeKind::Free).unwrap();
    let f = DagNode::with_args(&mut allocator, symbol("f", 1), &vec![g], DagNodeKind::Free).unwrap();
    assert_eq!(print_tree(&allocator, f, String::new(), true, 0), vec!["node<f>"]);
    assert_eq!(print_tree(&allocator, f, String::new(), true, 1), vec!["node<f>", "    ╰──node<g>"]);
    assert_eq!(
        print_tree(&allocator, f, String::new(), true, 2),
        vec!["node<f>", "    ╰──node<g>", "        ╰──node<a>"]
    );
}

#[test]
fn a_cycle_is_drawn_down_to_the_depth() {
    let mut allocator = Allocator::new();
    let a = DagNode::new(&mut allocator, symbol("a", 1)).unwrap();
    allocator.insert_child(a, a).unwrap();
    let lines = print_tree(&allocator, a, String::new(), true, 3);
    assert_eq!(lines.len(), 4);
    assert_eq!(lines[3], "            ╰──node<a>");
}

#[test]
fn a_child_that_is_no_node_is_not_drawn() {
    let mut allocator = Allocator::new();
    let f = DagNode::with_args(&mut allocator, symbol("f", 2), &vec![9_000_000, 0], DagNodeKind::Free).unwrap();
    assert_eq!(
        print_tree(&allocator, f, String::new(), true, 1),
        vec!["node<f>", "    ╰──node<f>"]
    );
}

#[test]
fn children_at_the_last_level_are_leaves() {
    assert_eq!(child_arity(1, 5), 0);
    assert_eq!(child_arity(2, 5), 5);
    assert_eq!(child_arity(7, 0), 0);
}
