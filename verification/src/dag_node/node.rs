//! The node of a term graph.
//!
//! A node refers to its symbol and to its children. It has no child, one child that it
//! holds itself, or a buffer of children in bucket storage. Nodes live in the arenas of
//! the node allocator and are referred to by their position there.
use crate::dag_node::allocator::bucket::StoragePtr;
use crate::dag_node::allocator::marking::{after_mark, count_has_room, marks};
use crate::dag_node::allocator::node_allocator::{
    acquire_storage_allocator, Allocator, AllocatorState,
};
use crate::dag_node::allocator::node_vector::{
    buffer_bytes, NodeVector, NodeVectorMutRef, MAX_NODE_VECTOR_CAPACITY,
};
use crate::dag_node::allocator::storage_allocator::StorageAllocator;
use crate::dag_node::flags::{DagNodeFlag, DagNodeFlags};
use crate::dag_node::DagNodeKind;
use crate::symbol::{Symbol, SymbolPtr};
use vstd::prelude::*;

verus! {

/// A reference to a node: its position in the arenas, counted from the first slot of
/// the first arena.
pub type DagNodePtr = usize;

/// The children of a node.
pub enum DagNodeArgument {
    Childless,
    Single(DagNodePtr),
    Many(NodeVectorMutRef),
}

/// The children of a node, as mathematical values.
pub ghost enum ArgumentState {
    Childless,
    Single(DagNodePtr),
    Many { children: Seq<DagNodePtr>, capacity: usize, place: StoragePtr },
}

/// A node, as mathematical values.
pub ghost struct NodeState {
    pub symbol: Option<Symbol>,
    pub args: ArgumentState,
    pub kind: DagNodeKind,
    pub flags: Set<DagNodeFlag>,
}

impl NodeState {
    /// The node's children, in order.
    pub open spec fn children(self) -> Seq<DagNodePtr> {
        match self.args {
            ArgumentState::Childless => Seq::empty(),
            ArgumentState::Single(child) => seq![child],
            ArgumentState::Many { children, .. } => children,
        }
    }

    /// Whether the node was reached in the current mark phase.
    pub open spec fn marked(self) -> bool {
        self.flags.contains(DagNodeFlag::Marked)
    }

    /// Whether the node owns a buffer.
    pub open spec fn needs_destruction(self) -> bool {
        self.args is Many
    }

    /// Where the node's buffer lies. It is bucket 0, offset 0, for a node without a buffer.
    pub open spec fn place(self) -> StoragePtr {
        match self.args {
            ArgumentState::Many { place, .. } => place,
            _ => StoragePtr { bucket: 0, offset: 0 },
        }
    }

    /// The number of children that the node's buffer has room for; 0 for a node without
    /// a buffer.
    pub open spec fn capacity(self) -> usize {
        match self.args {
            ArgumentState::Many { capacity, .. } => capacity,
            _ => 0,
        }
    }

    /// A buffer, if the node has one, holds no more than it has room for.
    pub open spec fn wf(self) -> bool {
        self.args matches ArgumentState::Many { children, capacity, .. } ==> children.len()
            <= capacity <= MAX_NODE_VECTOR_CAPACITY
    }

    /// The node in a slot that has never been used.
    pub open spec fn fresh() -> NodeState {
        NodeState {
            symbol: None,
            args: ArgumentState::Childless,
            kind: DagNodeKind::Free,
            flags: Set::empty(),
        }
    }

    /// The node without its mark.
    pub open spec fn unmarked(self) -> NodeState {
        NodeState { flags: self.flags.remove(DagNodeFlag::Marked), ..self }
    }

    /// The node with its mark.
    pub open spec fn with_mark(self) -> NodeState {
        NodeState { flags: self.flags.insert(DagNodeFlag::Marked), ..self }
    }

    /// The node after it gave up its buffer, if it had one.
    pub open spec fn destructed(self) -> NodeState {
        if self.args is Many {
            NodeState { args: ArgumentState::Childless, ..self }
        } else {
            self
        }
    }

    /// The node after a sweep tidied it: it has no buffer and no flags.
    pub open spec fn tidied(self) -> NodeState {
        NodeState { flags: Set::empty(), ..self.destructed() }
    }

    /// The node with its buffer at `place`, if it has one.
    pub open spec fn relocated(self, place: StoragePtr) -> NodeState {
        match self.args {
            ArgumentState::Many { children, capacity, .. } => NodeState {
                args: ArgumentState::Many { children, capacity, place },
                ..self
            },
            _ => self,
        }
    }

    /// The node after `child` was given to it: its only child if it had none, kept in a
    /// buffer for two that lies at `place` if it had one, and put at the end of its
    /// buffer if it has one with room.
    pub open spec fn with_child(self, child: DagNodePtr, place: StoragePtr) -> NodeState {
        match self.args {
            ArgumentState::Childless => NodeState { args: ArgumentState::Single(child), ..self },
            ArgumentState::Single(first) => NodeState {
                args: ArgumentState::Many { children: seq![first, child], capacity: 2, place },
                ..self
            },
            ArgumentState::Many { children, capacity, place: at } => if children.len() < capacity {
                NodeState {
                    args: ArgumentState::Many { children: children.push(child), capacity, place: at },
                    ..self
                }
            } else {
                self
            },
        }
    }
}

impl View for DagNodeArgument {
    type V = ArgumentState;

    open spec fn view(&self) -> ArgumentState {
        match self {
            DagNodeArgument::Childless => ArgumentState::Childless,
            DagNodeArgument::Single(child) => ArgumentState::Single(*child),
            DagNodeArgument::Many(vector) => ArgumentState::Many {
                children: vector@,
                capacity: vector.spec_capacity(),
                place: vector.spec_place(),
            },
        }
    }
}

/// A node of the graph.
pub struct DagNode {
    pub symbol: Option<SymbolPtr>,
    pub args: DagNodeArgument,
    pub kind: DagNodeKind,
    pub flags: DagNodeFlags,
}

impl View for DagNode {
    type V = NodeState;

    open spec fn view(&self) -> NodeState {
        NodeState {
            symbol: match self.symbol {
                Some(symbol) => Some(*symbol),
                None => None,
            },
            args: self.args@,
            kind: self.kind,
            flags: self.flags@,
        }
    }
}

impl Default for DagNode {
    fn default() -> (node: DagNode)
        ensures
            node@ == NodeState::fresh(),
    {
        DagNode {
            symbol: None,
            args: DagNodeArgument::Childless,
            kind: DagNodeKind::Free,
            flags: DagNodeFlags::empty(),
        }
    }
}

/// The state that follows `allocated` when the node `made` was put into the slot at `p`
/// and, if the node has a buffer, the storage allocator handed out the bytes for it.
pub open spec fn with_new_node(allocated: AllocatorState, p: int, made: NodeState) -> AllocatorState {
    AllocatorState {
        nodes: allocated.nodes.update(p, made),
        storage: if made.args is Many {
            allocated.storage.after_allocate(buffer_bytes(made.capacity()) as usize)
        } else {
            allocated.storage
        },
        ..allocated
    }
}

/// The children of a new node with the symbol `symbol` and the children `children`: a
/// buffer with room for as many children as the symbol's arity, and for all of
/// `children`, if either is more than one; else the one child, or none.
pub open spec fn new_args(symbol: Symbol, children: Seq<DagNodePtr>, place: StoragePtr) -> ArgumentState {
    if symbol.arity > 1 || children.len() > 1 {
        ArgumentState::Many {
            children,
            capacity: if symbol.arity as int > children.len() {
                symbol.arity as usize
            } else {
                children.len() as usize
            },
            place,
        }
    } else if children.len() == 1 {
        ArgumentState::Single(children[0])
    } else {
        ArgumentState::Childless
    }
}

/// The new node with the symbol `symbol`, the kind `kind` and the children `children`,
/// made when the storage allocator is in the state `storage`.
pub open spec fn new_node(
    symbol: Symbol,
    kind: DagNodeKind,
    children: Seq<DagNodePtr>,
    storage: crate::dag_node::allocator::storage_allocator::StorageState,
) -> NodeState {
    let capacity = if symbol.arity as int > children.len() {
        symbol.arity as usize
    } else {
        children.len() as usize
    };
    NodeState {
        symbol: Some(symbol),
        args: new_args(symbol, children, storage.placement(buffer_bytes(capacity) as usize)),
        kind,
        flags: Set::empty(),
    }
}

impl DagNode {
    /// A new node with the symbol `symbol` and the kind `DagNodeKind::Free`.
    pub fn new(allocator: &mut Allocator, symbol: SymbolPtr) -> (node: Option<DagNodePtr>)
        requires
            old(allocator).wf(),
        ensures
            final(allocator).wf(),
            final(allocator)@.nodes.len() >= old(allocator)@.nodes.len(),
            final(allocator)@.gc_count == old(allocator)@.gc_count,
            node matches Some(p) ==> p < final(allocator)@.nodes.len(),
            old(allocator)@.can_allocate() ==> node == Some(
                old(allocator)@.allocation_target() as usize,
            ) && final(allocator)@ == with_new_node(
                old(allocator)@.after_allocate(),
                old(allocator)@.allocation_target(),
                new_node(
                    *symbol,
                    DagNodeKind::Free,
                    Seq::empty(),
                    old(allocator)@.after_allocate().storage,
                ),
            ),
            !old(allocator)@.can_allocate() ==> node.is_none()
                && final(allocator)@ == old(allocator)@.after_allocate(),
    {
        DagNode::with_kind(allocator, symbol, DagNodeKind::Free)
    }

    /// A new node with the symbol `symbol` and the kind `kind`, in a slot that the node
    /// allocator hands out. A node whose symbol has an arity above one gets an empty
    /// buffer with room for as many children.
    pub fn with_kind(allocator: &mut Allocator, symbol: SymbolPtr, kind: DagNodeKind) -> (node:
        Option<DagNodePtr>)
        requires
            old(allocator).wf(),
        ensures
            final(allocator).wf(),
            final(allocator)@.nodes.len() >= old(allocator)@.nodes.len(),
            final(allocator)@.gc_count == old(allocator)@.gc_count,
            node matches Some(p) ==> p < final(allocator)@.nodes.len(),
            old(allocator)@.can_allocate() ==> node == Some(
                old(allocator)@.allocation_target() as usize,
            ) && final(allocator)@ == with_new_node(
                old(allocator)@.after_allocate(),
                old(allocator)@.allocation_target(),
                new_node(*symbol, kind, Seq::empty(), old(allocator)@.after_allocate().storage),
            ),
            !old(allocator)@.can_allocate() ==> node.is_none()
                && final(allocator)@ == old(allocator)@.after_allocate(),
    {
        let args: Vec<DagNodePtr> = Vec::new();
        DagNode::with_args(allocator, symbol, &args, kind)
    }

    /// A new node with the symbol `symbol`, the children `args` and the kind `kind`, in
    /// a slot that the node allocator hands out.
    pub fn with_args(
        allocator: &mut Allocator,
        symbol: SymbolPtr,
        args: &Vec<DagNodePtr>,
        kind: DagNodeKind,
    ) -> (node: Option<DagNodePtr>)
        requires
            old(allocator).wf(),
            args@.len() <= MAX_NODE_VECTOR_CAPACITY,
        ensures
            final(allocator).wf(),
            final(allocator)@.nodes.len() >= old(allocator)@.nodes.len(),
            final(allocator)@.gc_count == old(allocator)@.gc_count,
            node matches Some(p) ==> p < final(allocator)@.nodes.len(),
            old(allocator)@.can_allocate() ==> node == Some(
                old(allocator)@.allocation_target() as usize,
            ) && final(allocator)@ == with_new_node(
                old(allocator)@.after_allocate(),
                old(allocator)@.allocation_target(),
                new_node(*symbol, kind, args@, old(allocator)@.after_allocate().storage),
            ),
            !old(allocator)@.can_allocate() ==> node.is_none()
                && final(allocator)@ == old(allocator)@.after_allocate(),
    {
        let ghost before = allocator@;
        proof {
            before.lemma_after_allocate_keeps();
        }
        let node = match allocator.allocate_dag_node() {
            Some(node) => node,
            None => {
                return None;
            },
        };
        let ghost allocated = allocator@;
        proof {
            before.lemma_after_allocate_wf();
            before.lemma_first_unmarked(before.next_node as int);
            assert(allocated.next_node == node + 1);
            assert(node < allocated.nodes.len());
        }
        let arity = symbol.arity as usize;
        let node_args = if arity > 1 || args.len() > 1 {
            let capacity = if arity > args.len() {
                arity
            } else {
                args.len()
            };
            proof {
                allocated.storage.lemma_allocate_extends(buffer_bytes(capacity) as usize);
            }
            let storage = acquire_storage_allocator(allocator);
            let mut vector = NodeVector::with_capacity(storage, capacity);
            let mut i: usize = 0;
            while i < args.len()
                invariant
                    i <= args@.len(),
                    args@.len() <= capacity,
                    vector@ == args@.take(i as int),
                    vector.spec_capacity() == capacity,
                    vector.spec_place() == allocated.storage.placement(
                        buffer_bytes(capacity) as usize,
                    ),
                    vector.wf(),
                decreases args@.len() - i,
            {
                let pushed = vector.push(args[i]);
                proof {
                    assert(args@.take(i + 1) =~= args@.take(i as int).push(args@[i as int]));
                }
                i += 1;
            }
            proof {
                assert(args@.take(args@.len() as int) =~= args@);
            }
            DagNodeArgument::Many(vector)
        } else if args.len() == 1 {
            DagNodeArgument::Single(args[0])
        } else {
            DagNodeArgument::Childless
        };
        let made = DagNode {
            symbol: Some(symbol),
            args: node_args,
            kind,
            flags: DagNodeFlags::empty(),
        };
        proof {
            assert(made@ == new_node(*symbol, kind, args@, allocated.storage));
        }
        allocator.put_node(node, made);
        Some(node)
    }

    /// Marks the node at `node` and whatever it reaches through unmarked nodes.
    ///
    /// A node that is marked already is left alone, so that a second call changes
    /// nothing, and so is a reference that is no position in the arenas. Else the node
    /// gets its mark and is counted, its buffer, if it has one, is copied to a new place
    /// in the buckets in use, and then its children are marked in order.
    pub fn mark(allocator: &mut Allocator, node: DagNodePtr)
        requires
            old(allocator).marking_wf(),
            count_has_room(old(allocator)@),
        ensures
            final(allocator).marking_wf(),
            count_has_room(final(allocator)@),
            marks(old(allocator)@, final(allocator)@, node),
            final(allocator)@ == after_mark(old(allocator)@, node, old(allocator)@.nodes.len()),
    {
        allocator.mark(node);
    }

    /// The node's symbol, if it has been given one.
    pub fn symbol(&self) -> (symbol: Option<&Symbol>)
        ensures
            symbol matches Some(s) ==> self@.symbol == Some(*s),
            symbol.is_none() ==> self@.symbol.is_none(),
    {
        match self.symbol {
            Some(symbol) => Some(symbol),
            None => None,
        }
    }

    /// The arity of the node's symbol; 0 for a node without a symbol.
    pub fn arity(&self) -> (arity: u8)
        ensures
            arity == match self@.symbol {
                Some(symbol) => symbol.arity,
                None => 0,
            },
    {
        match self.symbol {
            Some(symbol) => symbol.arity,
            None => 0,
        }
    }

    /// The number of children.
    pub fn len(&self) -> (length: usize)
        ensures
            length == self@.children().len(),
    {
        match &self.args {
            DagNodeArgument::Childless => 0,
            DagNodeArgument::Single(_) => 1,
            DagNodeArgument::Many(vector) => vector.len(),
        }
    }

    /// The children, in order.
    pub fn iter_children(&self) -> (children: Vec<DagNodePtr>)
        ensures
            children@ == self@.children(),
    {
        let mut children: Vec<DagNodePtr> = Vec::new();
        match &self.args {
            DagNodeArgument::Childless => {},
            DagNodeArgument::Single(child) => {
                children.push(*child);
            },
            DagNodeArgument::Many(vector) => {
                let entries = vector.iter();
                let mut i: usize = 0;
                while i < entries.len()
                    invariant
                        i <= entries@.len(),
                        children@ == entries@.take(i as int),
                    decreases entries@.len() - i,
                {
                    children.push(entries[i]);
                    proof {
                        assert(entries@.take(i + 1) =~= entries@.take(i as int).push(
                            entries@[i as int],
                        ));
                    }
                    i += 1;
                }
                proof {
                    assert(entries@.take(entries@.len() as int) =~= entries@);
                }
            },
        }
        proof {
            assert(children@ =~= self@.children());
        }
        children
    }

    /// Where the node's buffer lies, if it has one.
    pub fn buffer_place(&self) -> (place: Option<StoragePtr>)
        ensures
            place == match self@.args {
                ArgumentState::Many { place, .. } => Some(place),
                _ => None,
            },
    {
        match &self.args {
            DagNodeArgument::Many(vector) => Some(vector.place()),
            _ => None,
        }
    }

    /// Gives the node one more child.
    ///
    /// A node without children holds the child itself. A node with one child gets a
    /// buffer for the two. A node with a buffer puts the child at its end, and fails,
    /// unchanged, if the buffer is full.
    pub fn insert_child(&mut self, storage: &mut StorageAllocator, new_child: DagNodePtr) -> (inserted:
        Result<(), String>)
        requires
            old(storage).wf(),
        ensures
            final(storage).wf(),
            final(storage).spec_show_gc() == old(storage).spec_show_gc(),
            final(storage).spec_early_quit() == old(storage).spec_early_quit(),
            final(self)@ == old(self)@.with_child(
                new_child,
                old(storage)@.placement(buffer_bytes(2) as usize),
            ),
            inserted.is_err() <==> (old(self)@.args matches ArgumentState::Many {
                children,
                capacity,
                ..
            } && children.len() >= capacity),
            old(self)@.args is Single ==> final(storage)@ == old(storage)@.after_allocate(
                buffer_bytes(2) as usize,
            ) && final(storage)@.holds(
                old(storage)@.placement(buffer_bytes(2) as usize),
                buffer_bytes(2),
            ),
            !(old(self)@.args is Single) ==> final(storage)@ == old(storage)@,
            old(self)@.wf() ==> final(self)@.wf(),
    {
        match &mut self.args {
            DagNodeArgument::Childless => {
                self.args = DagNodeArgument::Single(new_child);
                Ok(())
            },
            DagNodeArgument::Single(first_child) => {
                let pair: [DagNodePtr; 2] = [*first_child, new_child];
                let vector = NodeVector::from_slice(storage, pair.as_slice());
                proof {
                    assert(vector@ =~= seq![*first_child, new_child]);
                }
                self.args = DagNodeArgument::Many(vector);
                Ok(())
            },
            DagNodeArgument::Many(vector) => {
                match vector.push(new_child) {
                    Ok(()) => Ok(()),
                    Err(()) => Err(String::from_str("the node's buffer is full")),
                }
            },
        }
    }

    /// Whether the node was reached in the current mark phase.
    pub fn is_marked(&self) -> (marked: bool)
        ensures
            marked == self@.marked(),
    {
        self.flags.contains(DagNodeFlag::Marked)
    }

    /// Whether the node owns a buffer, which it has to give up before its slot is used
    /// again.
    pub fn needs_destruction(&self) -> (needed: bool)
        ensures
            needed == self@.needs_destruction(),
    {
        match self.args {
            DagNodeArgument::Childless | DagNodeArgument::Single(_) => false,
            DagNodeArgument::Many(_) => true,
        }
    }

    /// Whether the node's slot can be used again as it is.
    pub fn simple_reuse(&self) -> (reusable: bool)
        ensures
            reusable == (!self@.marked() && !self@.needs_destruction()),
    {
        !self.flags.contains(DagNodeFlag::Marked) && !self.needs_destruction()
    }

    /// Gives up the node's buffer, if it has one.
    pub fn destruct(&mut self)
        ensures
            final(self)@ == old(self)@.destructed(),
    {
        if self.needs_destruction() {
            self.args = DagNodeArgument::Childless;
        }
    }
}

} // verus!
