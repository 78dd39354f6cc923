use dag_gc::dag_node::flags::{DagNodeFlag, DagNodeFlags};
use dag_gc::dag_node::DagNodeKind;

#[test]
fn flags_take_the_bits_of_a_byte_in_order() {
    assert_eq!(DagNodeFlag::Marked.bit(), 0x01);
    assert_eq!(DagNodeFlag::NeedsDestruction.bit(), 0x02);
    assert_eq!(DagNodeFlag::Reduced.bit(), 0x04);
    assert_eq!(DagNodeFlag::Copied.bit(), 0x08);
    assert_eq!(DagNodeFlag::Unrewritable.bit(), 0x10);
    assert_eq!(DagNodeFlag::Unstackable.bit(), 0x20);
    assert_eq!(DagNodeFlag::GroundFlag.bit(), 0x40);
    assert_eq!(DagNodeFlag::HashValid.bit(), 0x80);
}

#[test]
fn the_variant_equation_flag_shares_a_bit() {
    assert_eq!(DagNodeFlag::IrreducibleByVariantEquations, DagNodeFlag::Unrewritable);
}

#[test]
fn empty_flags_hold_nothing() {
    let flags = DagNodeFlags::empty();
    assert!(flags.is_empty());
    assert!(!flags.contains(DagNodeFlag::Marked));
    assert!(!flags.contains(DagNodeFlag::HashValid));
    assert_eq!(flags, DagNodeFlags::default());
}

#[test]
fn insert_and_remove_change_one_flag() {
    let mut flags = DagNodeFlags::empty();
    flags.insert(DagNodeFlag::Marked);
    flags.insert(DagNodeFlag::Copied);
    assert!(flags.contains(DagNodeFlag::Marked));
    assert!(flags.contains(DagNodeFlag::Copied));
    assert!(!flags.contains(DagNodeFlag::Reduced));
    assert!(!flags.is_empty());
    flags.remove(DagNodeFlag::Marked);
    assert!(!flags.contains(DagNodeFlag::Marked));
    assert!(flags.contains(DagNodeFlag::Copied));
    flags.remove(DagNodeFlag::Marked);
    assert!(flags.contains(DagNodeFlag::Copied));
    flags.remove(DagNodeFlag::Copied);
    assert!(flags.is_empty());
}

#[test]
fn inserting_twice_is_inserting_once() {
    let mut once = DagNodeFlags::empty();
    once.insert(DagNodeFlag::GroundFlag);
    let mut twice = once;
    twice.insert(DagNodeFlag::GroundFlag);
    assert_eq!(once, twice);
}

#[test]
fn rewriting_flags_are_four() {
    let flags = DagNodeFlags::rewriting_flags();
    assert!(flags.contains(DagNodeFlag::Reduced));
    assert!(flags.contains(DagNodeFlag::Unrewritable));
    assert!(flags.contains(DagNodeFlag::Unstackable));
    assert!(flags.contains(DagNodeFlag::GroundFlag));
    assert!(!flags.contains(DagNodeFlag::Marked));
    assert!(!flags.contains(DagNodeFlag::NeedsDestruction));
    assert!(!flags.contains(DagNodeFlag::Copied));
    assert!(!flags.contains(DagNodeFlag::HashValid));
}

#[test]
fn the_default_kind_is_free() {
    assert_eq!(DagNodeKind::default(), DagNodeKind::Free);
}
