use dag_gc::dag_node::root_container::{RootContainer, RootList};

#[test]
fn a_new_registry_is_empty() {
    let roots = RootList::new();
    assert_eq!(roots.len(), 0);
    assert_eq!(roots.nodes(), Vec::<usize>::new());
}

#[test]
fn roots_are_registered_at_the_head() {
    let mut roots = RootList::new();
    let first = RootContainer::new(&mut roots, Some(10));
    let second = RootContainer::new(&mut roots, Some(20));
    let third = RootContainer::new(&mut roots, Some(30));
    assert_eq!(first.slot(), 0);
    assert_eq!(second.slot(), 1);
    assert_eq!(third.slot(), 2);
    assert_eq!(roots.len(), 3);
    assert_eq!(roots.nodes(), vec![30, 20, 10]);
}

#[test]
fn a_handle_without_a_node_is_inert() {
    let mut roots = RootList::new();
    let inert = RootContainer::new(&mut roots, None);
    assert_eq!(roots.len(), 0);
    inert.link(&mut roots);
    assert_eq!(roots.len(), 0);
    inert.unlink(&mut roots);
    assert_eq!(roots.len(), 0);
    let live = RootContainer::new(&mut roots, Some(7));
    assert_eq!(live.slot(), 1);
    assert_eq!(roots.nodes(), vec![7]);
}

#[test]
fn unlinking_relinks_the_neighbours() {
    let mut roots = RootList::new();
    let a = RootContainer::new(&mut roots, Some(1));
    let b = RootContainer::new(&mut roots, Some(2));
    let c = RootContainer::new(&mut roots, Some(3));
    let d = RootContainer::new(&mut roots, Some(4));
    // Out of the middle.
    b.unlink(&mut roots);
    assert_eq!(roots.nodes(), vec![4, 3, 1]);
    // The head.
    d.unlink(&mut roots);
    assert_eq!(roots.nodes(), vec![3, 1]);
    // The tail.
    a.unlink(&mut roots);
    assert_eq!(roots.nodes(), vec![3]);
    // The last one.
    c.unlink(&mut roots);
    assert_eq!(roots.nodes(), Vec::<usize>::new());
    assert_eq!(roots.len(), 0);
}

#[test]
fn unlinking_twice_is_unlinking_once() {
    let mut roots = RootList::new();
    let a = RootContainer::new(&mut roots, Some(1));
    let b = RootContainer::new(&mut roots, Some(2));
    a.unlink(&mut roots);
    a.unlink(&mut roots);
    assert_eq!(roots.nodes(), vec![2]);
    b.link(&mut roots);
    assert_eq!(roots.nodes(), vec![2]);
}

#[test]
fn a_handle_can_be_linked_again() {
    let mut roots = RootList::new();
    let a = RootContainer::new(&mut roots, Some(1));
    let b = RootContainer::new(&mut roots, Some(2));
    a.unlink(&mut roots);
    a.link(&mut roots);
    assert_eq!(roots.nodes(), vec![1, 2]);
    b.unlink(&mut roots);
    b.link(&mut roots);
    assert_eq!(roots.nodes(), vec![2, 1]);
    assert_eq!(roots.len(), 2);
}

#[test]
fn the_same_node_can_be_registered_twice() {
    let mut roots = RootList::new();
    let a = RootContainer::new(&mut roots, Some(5));
    let _b = RootContainer::new(&mut roots, Some(5));
    assert_eq!(roots.nodes(), vec![5, 5]);
    a.unlink(&mut roots);
    assert_eq!(roots.nodes(), vec![5]);
}
