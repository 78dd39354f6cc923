//! The buffer in which a node with more than one child keeps its children.
//!
//! A buffer has a fixed capacity and a place in bucket storage, which the storage
//! allocator gave it. Copying a buffer gives the copy a place of its own: that is how
//! the collector moves what is alive.
use crate::dag_node::allocator::bucket::{machine_word, whole_words, word_size, StoragePtr};
use crate::dag_node::allocator::storage_allocator::{StorageAllocator, MAX_STORAGE_REQUEST};
use crate::dag_node::node::DagNodePtr;
use vstd::prelude::*;

verus! {

/// Machine words that a buffer takes besides its entries.
pub const NODE_VECTOR_HEADER_WORDS: usize = 4;

/// The largest capacity that a buffer can have.
pub const MAX_NODE_VECTOR_CAPACITY: usize = usize::MAX / 256;

/// The bytes of bucket storage that a buffer of the given capacity takes.
pub open spec fn buffer_bytes(capacity: usize) -> int {
    (NODE_VECTOR_HEADER_WORDS + capacity) * word_size()
}

/// An owned buffer of children.
pub type NodeVectorMutRef = Box<NodeVector>;

/// A buffer of node references with a fixed capacity.
pub struct NodeVector {
    capacity: usize,
    data: Vec<DagNodePtr>,
    place: StoragePtr,
}

impl View for NodeVector {
    type V = Seq<DagNodePtr>;

    /// The entries, in order.
    closed spec fn view(&self) -> Seq<DagNodePtr> {
        self.data@
    }
}

/// The bytes to ask the storage allocator for, for a buffer of the given capacity.
fn bytes_for(capacity: usize) -> (bytes: usize)
    requires
        capacity <= MAX_NODE_VECTOR_CAPACITY,
    ensures
        bytes == buffer_bytes(capacity),
        whole_words(bytes),
        bytes <= MAX_STORAGE_REQUEST,
{
    let word = machine_word();
    let words = NODE_VECTOR_HEADER_WORDS + capacity;
    assert(words * word == buffer_bytes(capacity)) by {
        assert(word as int == word_size());
    }
    assert((words * word) as int % (word as int) == 0) by {
        if word == 4 {
            assert((words * 4) % 4 == 0);
        } else {
            assert((words * 8) % 8 == 0);
        }
    }
    assert(words * word <= MAX_STORAGE_REQUEST) by {
        if word == 4 {
            assert(words * 4 <= MAX_STORAGE_REQUEST);
        } else {
            assert(words * 8 <= MAX_STORAGE_REQUEST);
        }
    }
    words * word
}

impl NodeVector {
    /// The number of entries that the buffer has room for.
    pub closed spec fn spec_capacity(&self) -> usize {
        self.capacity
    }

    /// Where the buffer lies in bucket storage.
    pub closed spec fn spec_place(&self) -> StoragePtr {
        self.place
    }

    /// The buffer holds no more than it has room for, and its capacity is one that a
    /// buffer can have.
    pub open spec fn wf(&self) -> bool {
        &&& self@.len() <= self.spec_capacity()
        &&& self.spec_capacity() <= MAX_NODE_VECTOR_CAPACITY
    }

    /// An empty buffer with room for `capacity` entries, placed by `storage`.
    pub fn with_capacity(storage: &mut StorageAllocator, capacity: usize) -> (vector:
        NodeVectorMutRef)
        requires
            old(storage).wf(),
            capacity <= MAX_NODE_VECTOR_CAPACITY,
        ensures
            vector@ == Seq::<DagNodePtr>::empty(),
            vector.spec_capacity() == capacity,
            vector.wf(),
            final(storage).wf(),
            final(storage)@ == old(storage)@.after_allocate(buffer_bytes(capacity) as usize),
            vector.spec_place() == old(storage)@.placement(buffer_bytes(capacity) as usize),
            final(storage)@.holds(vector.spec_place(), buffer_bytes(capacity)),
            final(storage).spec_show_gc() == old(storage).spec_show_gc(),
            final(storage).spec_early_quit() == old(storage).spec_early_quit(),
    {
        let needed_memory = bytes_for(capacity);
        let place = storage.allocate_storage(needed_memory);
        Box::new(NodeVector { capacity, data: Vec::new(), place })
    }

    /// A buffer that holds the entries of `slice` and has room for no more.
    pub fn from_slice(storage: &mut StorageAllocator, slice: &[DagNodePtr]) -> (vector:
        NodeVectorMutRef)
        requires
            old(storage).wf(),
            slice@.len() <= MAX_NODE_VECTOR_CAPACITY,
        ensures
            vector@ == slice@,
            vector.spec_capacity() == slice@.len(),
            vector.wf(),
            final(storage).wf(),
            final(storage)@ == old(storage)@.after_allocate(
                buffer_bytes(slice@.len() as usize) as usize,
            ),
            vector.spec_place() == old(storage)@.placement(
                buffer_bytes(slice@.len() as usize) as usize,
            ),
            final(storage)@.holds(vector.spec_place(), buffer_bytes(slice@.len() as usize)),
            final(storage).spec_show_gc() == old(storage).spec_show_gc(),
            final(storage).spec_early_quit() == old(storage).spec_early_quit(),
    {
        let capacity = slice.len();
        let mut vector = NodeVector::with_capacity(storage, capacity);
        let mut i: usize = 0;
        while i < capacity
            invariant
                i <= capacity,
                capacity == slice@.len(),
                vector@ == slice@.take(i as int),
                vector.spec_capacity() == capacity,
                vector.spec_place() == old(storage)@.placement(buffer_bytes(capacity) as usize),
                capacity <= MAX_NODE_VECTOR_CAPACITY,
            decreases capacity - i,
        {
            vector.data.push(slice[i]);
            proof {
                assert(slice@.take(i + 1) =~= slice@.take(i as int).push(slice@[i as int]));
            }
            i += 1;
        }
        proof {
            assert(slice@.take(capacity as int) =~= slice@);
        }
        vector
    }

    /// A copy with the same entries and the same capacity, at a place of its own.
    pub fn shallow_copy(&self, storage: &mut StorageAllocator) -> (vector: NodeVectorMutRef)
        requires
            self.wf(),
            old(storage).wf(),
        ensures
            vector@ == self@,
            vector.spec_capacity() == self.spec_capacity(),
            vector.wf(),
            final(storage).wf(),
            final(storage)@ == old(storage)@.after_allocate(
                buffer_bytes(self.spec_capacity()) as usize,
            ),
            vector.spec_place() == old(storage)@.placement(
                buffer_bytes(self.spec_capacity()) as usize,
            ),
            final(storage)@.holds(vector.spec_place(), buffer_bytes(self.spec_capacity())),
            final(storage).spec_show_gc() == old(storage).spec_show_gc(),
            final(storage).spec_early_quit() == old(storage).spec_early_quit(),
    {
        let vector = self.copy_with_capacity(storage, self.capacity);
        proof {
            assert(self@.take(self@.len() as int) =~= self@);
        }
        vector
    }

    /// A copy with room for `new_capacity` entries, at a place of its own. Entries
    /// that the copy has no room for are left out.
    pub fn copy_with_capacity(&self, storage: &mut StorageAllocator, new_capacity: usize) -> (vector:
        NodeVectorMutRef)
        requires
            self.wf(),
            old(storage).wf(),
            new_capacity <= MAX_NODE_VECTOR_CAPACITY,
        ensures
            self@.len() <= new_capacity ==> vector@ == self@,
            self@.len() > new_capacity ==> vector@ == self@.take(new_capacity as int),
            vector.spec_capacity() == new_capacity,
            vector.wf(),
            final(storage).wf(),
            final(storage)@ == old(storage)@.after_allocate(buffer_bytes(new_capacity) as usize),
            vector.spec_place() == old(storage)@.placement(buffer_bytes(new_capacity) as usize),
            final(storage)@.holds(vector.spec_place(), buffer_bytes(new_capacity)),
            final(storage).spec_show_gc() == old(storage).spec_show_gc(),
            final(storage).spec_early_quit() == old(storage).spec_early_quit(),
    {
        let mut vector = NodeVector::with_capacity(storage, new_capacity);
        let kept = if self.data.len() <= new_capacity {
            self.data.len()
        } else {
            new_capacity
        };
        let mut i: usize = 0;
        while i < kept
            invariant
                i <= kept,
                kept <= self@.len(),
                kept <= new_capacity,
                vector@ == self@.take(i as int),
                vector.spec_capacity() == new_capacity,
                vector.spec_place() == old(storage)@.placement(
                    buffer_bytes(new_capacity) as usize,
                ),
                new_capacity <= MAX_NODE_VECTOR_CAPACITY,
            decreases kept - i,
        {
            vector.data.push(self.data[i]);
            proof {
                assert(self@.take(i + 1) =~= self@.take(i as int).push(self@[i as int]));
            }
            i += 1;
        }
        proof {
            assert(self@.take(self@.len() as int) =~= self@);
        }
        vector
    }

    /// The entries, in order.
    pub fn iter(&self) -> (entries: &[DagNodePtr])
        ensures
            entries@ == self@,
    {
        self.data.as_slice()
    }

    /// Replaces the entry at `index`.
    pub fn iter_mut(&mut self, index: usize, node: DagNodePtr)
        requires
            index < old(self)@.len(),
        ensures
            final(self)@ == old(self)@.update(index as int, node),
            final(self).spec_capacity() == old(self).spec_capacity(),
            final(self).spec_place() == old(self).spec_place(),
    {
        self.data.set(index, node);
    }

    /// The number of entries.
    pub fn len(&self) -> (length: usize)
        ensures
            length == self@.len(),
    {
        self.data.len()
    }

    /// The number of entries that the buffer has room for.
    pub fn capacity(&self) -> (capacity: usize)
        ensures
            capacity == self.spec_capacity(),
    {
        self.capacity
    }

    /// Where the buffer lies in bucket storage.
    pub fn place(&self) -> (place: StoragePtr)
        ensures
            place == self.spec_place(),
    {
        self.place
    }

    /// Whether the buffer has no entries.
    pub fn is_empty(&self) -> (empty: bool)
        ensures
            empty == (self@.len() == 0),
    {
        self.len() == 0
    }

    /// The entry at `index`.
    pub fn index(&self, index: usize) -> (node: DagNodePtr)
        requires
            index < self@.len(),
        ensures
            node == self@[index as int],
    {
        self.data[index]
    }

    /// Puts `node` behind the last entry if there is room for it, and fails if there is
    /// none.
    pub fn push(&mut self, node: DagNodePtr) -> (pushed: Result<(), ()>)
        ensures
            final(self).spec_capacity() == old(self).spec_capacity(),
            final(self).spec_place() == old(self).spec_place(),
            old(self)@.len() < old(self).spec_capacity() ==> pushed.is_ok() && final(self)@ == old(self)@.push(node),
            old(self)@.len() >= old(self).spec_capacity() ==> pushed.is_err() && final(self)@
                == old(self)@,
            old(self).wf() ==> final(self).wf(),
    {
        if self.data.len() >= self.capacity {
            return Err(());
        }
        self.data.push(node);
        Ok(())
    }

    /// Takes the last entry out, if there is one.
    pub fn pop(&mut self) -> (node: Option<DagNodePtr>)
        ensures
            final(self).spec_capacity() == old(self).spec_capacity(),
            final(self).spec_place() == old(self).spec_place(),
            old(self)@.len() > 0 ==> node == Some(old(self)@.last()) && final(self)@ == old(self)@.drop_last(),
            old(self)@.len() == 0 ==> node.is_none() && final(self)@ == old(self)@,
            old(self).wf() ==> final(self).wf(),
    {
        self.data.pop()
    }
}

} // verus!
