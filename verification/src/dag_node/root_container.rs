//! The root registry: the nodes that are held from outside the graph.
//!
//! Whoever holds a node across a collection registers it as a root. The registry is a
//! doubly-linked list, so that a root is registered at the head and unregistered by
//! relinking its neighbours, both in constant time. The links are cell numbers: the
//! cells live in the registry and a handle names one of them.
//!
//! A handle does not unregister itself when it is dropped, because it does not own the
//! registry: whoever drops it calls `unlink` first.
use crate::dag_node::allocator::marking::{
    after_mark, after_mark_all, count_has_room, lemma_marked_from_nothing,
    lemma_marked_from_one_more, marked_from,
};
use crate::dag_node::allocator::node_allocator::Allocator;
use crate::dag_node::node::DagNodePtr;
use vstd::prelude::*;

verus! {

/// One cell of the registry.
struct RootLink {
    next: Option<usize>,
    prev: Option<usize>,
    node: Option<DagNodePtr>,
    linked: bool,
}

/// The registry of roots.
pub struct RootList {
    cells: Vec<RootLink>,
    head: Option<usize>,
    order: Ghost<Seq<usize>>,
}

/// A handle to a cell of the registry. A handle without a node is inert: it is never
/// linked.
#[derive(Copy, Clone, Debug, PartialEq, Eq, Structural, Hash)]
pub struct RootContainer {
    slot: usize,
}

impl View for RootList {
    type V = Seq<DagNodePtr>;

    /// The registered nodes, from the head of the list on.
    closed spec fn view(&self) -> Seq<DagNodePtr> {
        Seq::new(self.order@.len(), |k: int| self.cells@[self.order@[k] as int].node.unwrap())
    }
}

/// Whether the cell at position `k` of `order` is one of `cells`, holds a node, is linked,
/// and has the cells before and behind it in `order` as its neighbours.
spec fn cell_linked(cells: Seq<RootLink>, order: Seq<usize>, k: int) -> bool {
    &&& order[k] < cells.len()
    &&& cells[order[k] as int].linked
    &&& cells[order[k] as int].node.is_some()
    &&& cells[order[k] as int].next == link_to(order, k + 1)
    &&& cells[order[k] as int].prev == link_to(order, k - 1)
}

/// The link to the cell at position `k` of `order`, if there is such a position.
spec fn link_to(order: Seq<usize>, k: int) -> Option<usize> {
    if 0 <= k < order.len() {
        Some(order[k])
    } else {
        None
    }
}

impl RootList {
    /// The numbers of the linked cells, from the head of the list on.
    pub closed spec fn spec_order(&self) -> Seq<usize> {
        self.order@
    }

    /// The number of cells.
    pub closed spec fn spec_len(&self) -> nat {
        self.cells@.len()
    }

    /// The node that the cell with the number `slot` holds.
    pub closed spec fn node_of(&self, slot: usize) -> Option<DagNodePtr> {
        self.cells@[slot as int].node
    }

    /// Whether the cell with the number `slot` is in the list.
    pub open spec fn is_linked(&self, slot: usize) -> bool {
        self.spec_order().contains(slot)
    }

    /// The links of the cells agree with the order of the list.
    pub closed spec fn inv(&self) -> bool {
        let order = self.order@;
        &&& order.no_duplicates()
        &&& forall|k: int| 0 <= k < order.len() ==> #[trigger] cell_linked(self.cells@, order, k)
        &&& forall|i: int|
            0 <= i < self.cells@.len() && (#[trigger] self.cells@[i]).linked ==> order.contains(
                i as usize,
            )
        &&& self.head == link_to(order, 0)
    }

    /// The registry is well formed: its links agree with the order of the list, the
    /// list names every cell at most once, and what it names are cells that hold nodes,
    /// the registered ones.
    pub open spec fn wf(&self) -> bool {
        &&& self.inv()
        &&& self.spec_order().no_duplicates()
        &&& self@.len() == self.spec_order().len()
        &&& forall|k: int|
            0 <= k < self.spec_order().len() ==> (#[trigger] self.spec_order()[k]) < self.spec_len()
                && self.node_of(self.spec_order()[k]) == Some(self@[k])
    }

    /// A registry without roots.
    pub fn new() -> (roots: RootList)
        ensures
            roots.wf(),
            roots@ == Seq::<DagNodePtr>::empty(),
            roots.spec_order() == Seq::<usize>::empty(),
            roots.spec_len() == 0,
    {
        let roots = RootList { cells: Vec::new(), head: None, order: Ghost(Seq::empty()) };
        proof {
            assert(roots@ =~= Seq::<DagNodePtr>::empty());
        }
        roots
    }

    /// The number of registered roots.
    pub fn len(&self) -> (count: usize)
        requires
            self.wf(),
        ensures
            count == self@.len(),
    {
        let mut count: usize = 0;
        let mut cursor = self.head;
        let ghost mut k: int = 0;
        proof {
            self.lemma_order_bounded();
        }
        while cursor.is_some()
            invariant
                self.inv(),
                0 <= k <= self.order@.len(),
                self.order@.len() <= usize::MAX,
                cursor == link_to(self.order@, k),
                count == k,
            decreases self.order@.len() - k,
        {
            let slot = cursor.unwrap();
            proof {
                assert(cell_linked(self.cells@, self.order@, k));
            }
            cursor = self.cells[slot].next;
            count += 1;
            proof {
                k = k + 1;
            }
        }
        count
    }

    /// The registered nodes, from the head of the list on.
    pub fn nodes(&self) -> (nodes: Vec<DagNodePtr>)
        requires
            self.wf(),
        ensures
            nodes@ == self@,
    {
        let mut nodes: Vec<DagNodePtr> = Vec::new();
        let mut cursor = self.head;
        let ghost mut k: int = 0;
        while cursor.is_some()
            invariant
                self.inv(),
                0 <= k <= self.order@.len(),
                cursor == link_to(self.order@, k),
                nodes@ == self@.take(k),
            decreases self.order@.len() - k,
        {
            let slot = cursor.unwrap();
            proof {
                assert(cell_linked(self.cells@, self.order@, k));
            }
            nodes.push(self.cells[slot].node.unwrap());
            cursor = self.cells[slot].next;
            proof {
                assert(self@.take(k + 1) =~= self@.take(k).push(self@[k]));
                k = k + 1;
            }
        }
        proof {
            assert(self@.take(self@.len() as int) =~= self@);
        }
        nodes
    }

    /// There are no more linked cells than cells.
    proof fn lemma_order_bounded(&self)
        requires
            self.inv(),
        ensures
            self.order@.len() <= self.cells@.len(),
            self.order@.len() <= usize::MAX,
    {
        let order = self.order@;
        let slots = order.to_set();
        let count = self.cells.len();
        let all = Set::new(|i: usize| i < count as nat);
        order.unique_seq_to_set();
        assert(slots.subset_of(all)) by {
            assert forall|i: usize| slots.contains(i) implies all.contains(i) by {
                let k = choose|k: int| 0 <= k < order.len() && order[k] == i;
                assert(cell_linked(self.cells@, order, k));
            }
        }
        lemma_usize_below_finite(count as nat);
        vstd::set_lib::lemma_len_subset(slots, all);
    }
}

/// There are `n` values of `usize` below `n`.
proof fn lemma_usize_below_finite(n: nat)
    requires
        n <= usize::MAX + 1,
    ensures
        Set::new(|i: usize| i < n).finite(),
        Set::new(|i: usize| i < n).len() == n,
    decreases n,
{
    let below = Set::new(|i: usize| i < n);
    if n == 0 {
        assert(below =~= Set::<usize>::empty());
    } else {
        let fewer = Set::new(|i: usize| i < (n - 1) as nat);
        lemma_usize_below_finite((n - 1) as nat);
        assert(below =~= fewer.insert((n - 1) as usize));
    }
}

impl RootContainer {
    /// The number of the handle's cell.
    pub closed spec fn spec_slot(&self) -> usize {
        self.slot
    }

    /// The number of the handle's cell.
    pub fn slot(&self) -> (slot: usize)
        ensures
            slot == self.spec_slot(),
    {
        self.slot
    }

    /// Makes a cell for `node` and, if there is a node, links it at the head of the
    /// list.
    pub fn new(roots: &mut RootList, node: Option<DagNodePtr>) -> (handle: RootContainer)
        requires
            old(roots).wf(),
        ensures
            final(roots).wf(),
            handle.spec_slot() == old(roots).spec_len(),
            final(roots).spec_len() == old(roots).spec_len() + 1,
            final(roots).node_of(handle.spec_slot()) == node,
            forall|slot: usize|
                slot < old(roots).spec_len() ==> final(roots).node_of(slot) == old(roots).node_of(
                    slot,
                ),
            node matches Some(n) ==> final(roots)@ == seq![n] + old(roots)@
                && final(roots).spec_order() == seq![handle.spec_slot()] + old(roots).spec_order(),
            node.is_none() ==> final(roots)@ == old(roots)@
                && final(roots).spec_order() == old(roots).spec_order(),
            final(roots).is_linked(handle.spec_slot()) == node.is_some(),
    {
        let slot = roots.cells.len();
        let ghost before = *roots;
        roots.cells.push(RootLink { next: None, prev: None, node, linked: false });
        let handle = RootContainer { slot };
        proof {
            assert forall|k: int| 0 <= k < roots.order@.len() implies #[trigger] cell_linked(
                roots.cells@,
                roots.order@,
                k,
            ) by {
                assert(cell_linked(before.cells@, before.order@, k));
            }
            assert forall|i: int|
                0 <= i < roots.cells@.len() && (
                #[trigger] roots.cells@[i]).linked implies roots.order@.contains(i as usize) by {
                assert(before.cells@[i].linked);
            }
            assert(roots.inv());
            assert forall|k: int| 0 <= k < roots.order@.len() implies roots@[k] == before@[k] by {
                assert(cell_linked(before.cells@, before.order@, k));
            }
            assert(roots@ =~= before@);
            assert forall|k: int| 0 <= k < roots.spec_order().len() implies (
            #[trigger] roots.spec_order()[k]) < roots.spec_len() && roots.node_of(
                roots.spec_order()[k],
            ) == Some(roots@[k]) by {
                assert(cell_linked(roots.cells@, roots.order@, k));
            }
            if roots.order@.contains(slot) {
                let k = choose|k: int| 0 <= k < roots.order@.len() && roots.order@[k] == slot;
                assert(cell_linked(before.cells@, before.order@, k));
            }
        }
        if node.is_some() {
            handle.link(roots);
        }
        handle
    }

    /// Marks what the handle's node reaches.
    pub fn mark(&self, roots: &RootList, allocator: &mut Allocator)
        requires
            roots.wf(),
            self.spec_slot() < roots.spec_len(),
            old(allocator).marking_wf(),
            count_has_room(old(allocator)@),
        ensures
            final(allocator).marking_wf(),
            count_has_room(final(allocator)@),
            final(allocator).spec_show_gc() == old(allocator).spec_show_gc(),
            final(allocator).spec_early_quit() == old(allocator).spec_early_quit(),
            roots.node_of(self.spec_slot()) matches Some(node) ==> marked_from(
                old(allocator)@,
                final(allocator)@,
                seq![node],
            ),
            roots.node_of(self.spec_slot()).is_none() ==> final(allocator)@ == old(allocator)@,
            roots.node_of(self.spec_slot()) matches Some(node) ==> final(allocator)@ == after_mark(
                old(allocator)@,
                node,
                old(allocator)@.nodes.len(),
            ),
    {
        if let Some(node) = roots.cells[self.slot].node {
            allocator.mark(node);
        }
    }

    /// Puts the handle's cell at the head of the list, unless it is in the list or holds
    /// no node.
    pub fn link(&self, roots: &mut RootList)
        requires
            old(roots).wf(),
            self.spec_slot() < old(roots).spec_len(),
        ensures
            final(roots).wf(),
            final(roots).spec_len() == old(roots).spec_len(),
            forall|slot: usize|
                slot < old(roots).spec_len() ==> final(roots).node_of(slot) == old(roots).node_of(
                    slot,
                ),
            old(roots).is_linked(self.spec_slot()) || old(roots).node_of(self.spec_slot()).is_none()
                ==> final(roots).spec_order() == old(roots).spec_order()
                && final(roots)@ == old(roots)@,
            !old(roots).is_linked(self.spec_slot()) && old(roots).node_of(self.spec_slot()).is_some()
                ==> final(roots).spec_order() == seq![self.spec_slot()] + old(roots).spec_order()
                && final(roots)@ == seq![old(roots).node_of(self.spec_slot()).unwrap()]
                + old(roots)@,
            final(roots).is_linked(self.spec_slot()) == (old(roots).is_linked(self.spec_slot())
                || old(roots).node_of(self.spec_slot()).is_some()),
    {
        let slot = self.slot;
        let ghost before = *roots;
        if roots.cells[slot].linked || roots.cells[slot].node.is_none() {
            proof {
                if roots.cells@[slot as int].linked {
                    assert(roots.order@.contains(slot));
                } else {
                    if roots.order@.contains(slot) {
                        let k = choose|k: int| 0 <= k < roots.order@.len() && roots.order@[k] == slot;
                        assert(cell_linked(roots.cells@, roots.order@, k));
                    }
                }
            }
            return;
        }
        proof {
            if before.order@.contains(slot) {
                let k = choose|k: int| 0 <= k < before.order@.len() && before.order@[k] == slot;
                assert(cell_linked(before.cells@, before.order@, k));
            }
        }
        let old_head = roots.head;
        roots.cells[slot].prev = None;
        roots.cells[slot].next = old_head;
        roots.cells[slot].linked = true;
        if let Some(next) = old_head {
            proof {
                assert(cell_linked(before.cells@, before.order@, 0));
            }
            roots.cells[next].prev = Some(slot);
        }
        roots.head = Some(slot);
        proof {
            roots.order@ = seq![slot] + before.order@;
        }
        proof {
            assert(roots.cells@.len() == roots.cells.len());
            lemma_linked(before.cells@, before.order@, roots.cells@, roots.order@, slot);
            assert(roots.inv());
            let order = roots.order@;
            assert(order[0] == slot);
            let older = before.order@;
            assert forall|k: int| 0 <= k < order.len() implies roots@[k] == (seq![
                before.cells@[slot as int].node.unwrap(),
            ] + before@)[k] by {
                if k > 0 {
                    assert(order[k] == older[k - 1]);
                    assert(cell_linked(before.cells@, older, k - 1));
                }
            }
            assert(roots@ =~= seq![before.cells@[slot as int].node.unwrap()] + before@);
            assert forall|k: int| 0 <= k < roots.spec_order().len() implies (
            #[trigger] roots.spec_order()[k]) < roots.spec_len() && roots.node_of(
                roots.spec_order()[k],
            ) == Some(roots@[k]) by {
                assert(cell_linked(roots.cells@, order, k));
            }
            assert forall|other: usize| other < before.spec_len() implies roots.node_of(other)
                == before.node_of(other) by {}
        }
    }

    /// Takes the handle's cell out of the list, if it is in it.
    pub fn unlink(&self, roots: &mut RootList)
        requires
            old(roots).wf(),
            self.spec_slot() < old(roots).spec_len(),
        ensures
            final(roots).wf(),
            final(roots).spec_len() == old(roots).spec_len(),
            forall|slot: usize|
                slot < old(roots).spec_len() ==> final(roots).node_of(slot) == old(roots).node_of(
                    slot,
                ),
            !old(roots).is_linked(self.spec_slot()) ==> final(roots).spec_order()
                == old(roots).spec_order() && final(roots)@ == old(roots)@,
            old(roots).is_linked(self.spec_slot()) ==> final(roots).spec_order()
                == old(roots).spec_order().remove(
                old(roots).spec_order().index_of(self.spec_slot()),
            ) && final(roots)@ == old(roots)@.remove(
                old(roots).spec_order().index_of(self.spec_slot()),
            ),
            !final(roots).is_linked(self.spec_slot()),
            old(roots).is_linked(self.spec_slot()) ==> final(roots)@.len() == old(roots)@.len() - 1,
    {
        let slot = self.slot;
        let ghost before = *roots;
        if !roots.cells[slot].linked {
            proof {
                if roots.order@.contains(slot) {
                    let k = choose|k: int| 0 <= k < roots.order@.len() && roots.order@[k] == slot;
                    assert(cell_linked(roots.cells@, roots.order@, k));
                }
            }
            return;
        }
        let ghost older = before.order@;
        let ghost at = older.index_of(slot);
        proof {
            assert(older.contains(slot));
            assert(0 <= at < older.len() && older[at] == slot);
            assert(cell_linked(before.cells@, older, at));
        }
        let next = roots.cells[slot].next;
        let prev = roots.cells[slot].prev;
        if let Some(n) = next {
            proof {
                assert(cell_linked(before.cells@, older, at + 1));
            }
            roots.cells[n].prev = prev;
        }
        if let Some(p) = prev {
            proof {
                assert(cell_linked(before.cells@, older, at - 1));
            }
            roots.cells[p].next = next;
        } else {
            roots.head = next;
        }
        roots.cells[slot].next = None;
        roots.cells[slot].prev = None;
        roots.cells[slot].linked = false;
        proof {
            roots.order@ = older.remove(at);
        }
        proof {
            assert(roots.cells@.len() == roots.cells.len());
            lemma_unlinked(before.cells@, older, roots.cells@, roots.order@, at);
            let order = roots.order@;
            assert(roots.head == link_to(order, 0)) by {
                if at == 0 {
                    if older.len() > 1 {
                        assert(order[0] == older[1]);
                    }
                } else {
                    assert(order[0] == older[0]);
                }
            }
            assert(roots.inv());
            assert forall|k: int| 0 <= k < order.len() implies roots@[k] == before@.remove(at)[k] by {
                let ok = if k < at {
                    k
                } else {
                    k + 1
                };
                assert(order[k] == older[ok]);
                assert(cell_linked(before.cells@, older, ok));
                assert(older[ok] != older[at]);
                assert(cell_linked(roots.cells@, order, k));
            }
            assert(roots@ =~= before@.remove(at));
            assert forall|k: int| 0 <= k < roots.spec_order().len() implies (
            #[trigger] roots.spec_order()[k]) < roots.spec_len() && roots.node_of(
                roots.spec_order()[k],
            ) == Some(roots@[k]) by {
                assert(cell_linked(roots.cells@, order, k));
            }
            assert(!order.contains(slot)) by {
                if order.contains(slot) {
                    let k = choose|k: int| 0 <= k < order.len() && order[k] == slot;
                    let ok = if k < at {
                        k
                    } else {
                        k + 1
                    };
                    assert(order[k] == older[ok]);
                }
            }
        }
    }
}

/// Linking the cell `slot` at the head keeps the links in agreement with the order.
proof fn lemma_linked(
    cells: Seq<RootLink>,
    older: Seq<usize>,
    linked: Seq<RootLink>,
    order: Seq<usize>,
    slot: usize,
)
    requires
        older.no_duplicates(),
        forall|k: int| 0 <= k < older.len() ==> #[trigger] cell_linked(cells, older, k),
        forall|i: int| 0 <= i < cells.len() && (#[trigger] cells[i]).linked ==> older.contains(i as usize),
        cells.len() <= usize::MAX,
        slot < cells.len(),
        !older.contains(slot),
        cells[slot as int].node.is_some(),
        order == seq![slot] + older,
        linked.len() == cells.len(),
        linked[slot as int] == (RootLink {
            next: link_to(older, 0),
            prev: None,
            node: cells[slot as int].node,
            linked: true,
        }),
        forall|i: int|
            0 <= i < cells.len() && i != slot && Some(i as usize) != link_to(older, 0) ==> linked[i]
                == cells[i],
        older.len() > 0 ==> linked[older[0] as int] == (RootLink {
            prev: Some(slot),
            ..cells[older[0] as int]
        }),
    ensures
        order.no_duplicates(),
        forall|k: int| 0 <= k < order.len() ==> #[trigger] cell_linked(linked, order, k),
        forall|i: int| 0 <= i < linked.len() && (#[trigger] linked[i]).linked ==> order.contains(i as usize),
{
    assert(order.len() == older.len() + 1);
    assert(order[0] == slot);
    assert forall|i: int, j: int|
        0 <= i < order.len() && 0 <= j < order.len() && i != j implies order[i] != order[j] by {
        if i > 0 {
            assert(order[i] == older[i - 1]);
        }
        if j > 0 {
            assert(order[j] == older[j - 1]);
        }
    }
    assert forall|k: int| 0 <= k < order.len() implies #[trigger] cell_linked(linked, order, k) by {
        if k > 0 {
            assert(order[k] == older[k - 1]);
            assert(cell_linked(cells, older, k - 1));
            assert(cell_linked(cells, older, 0));
            assert(older[k - 1] != slot);
            if k + 1 < order.len() {
                assert(order[k + 1] == older[k]);
            }
            if k > 1 {
                assert(order[k - 1] == older[k - 2]);
                assert(older[k - 1] != older[0]);
            }
        } else {
            if older.len() > 0 {
                assert(order[1] == older[0]);
            }
        }
    }
    assert forall|i: int| 0 <= i < linked.len() && (#[trigger] linked[i]).linked implies order.contains(
        i as usize,
    ) by {
        if i == slot {
            assert(order[0] == slot);
        } else {
            if older.len() > 0 {
                assert(cell_linked(cells, older, 0));
                if i == older[0] as int {
                    assert(linked[i].linked == cells[i].linked);
                } else {
                    assert(Some(i as usize) != link_to(older, 0));
                    assert(linked[i] == cells[i]);
                }
            } else {
                assert(linked[i] == cells[i]);
            }
            assert(cells[i].linked);
            let k = choose|k: int| 0 <= k < older.len() && older[k] == i as usize;
            assert(order[k + 1] == i as usize);
        }
    }
}

/// Taking the cell at position `at` out of the list keeps the links in agreement with
/// the order.
proof fn lemma_unlinked(
    cells: Seq<RootLink>,
    older: Seq<usize>,
    unlinked: Seq<RootLink>,
    order: Seq<usize>,
    at: int,
)
    requires
        older.no_duplicates(),
        forall|k: int| 0 <= k < older.len() ==> #[trigger] cell_linked(cells, older, k),
        forall|i: int| 0 <= i < cells.len() && (#[trigger] cells[i]).linked ==> older.contains(i as usize),
        cells.len() <= usize::MAX,
        0 <= at < older.len(),
        order == older.remove(at),
        unlinked.len() == cells.len(),
        unlinked[older[at] as int] == (RootLink {
            next: None,
            prev: None,
            node: cells[older[at] as int].node,
            linked: false,
        }),
        forall|i: int|
            0 <= i < cells.len() && i != older[at] && Some(i as usize) != link_to(older, at - 1)
                && Some(i as usize) != link_to(older, at + 1) ==> unlinked[i] == cells[i],
        at > 0 ==> unlinked[older[at - 1] as int] == (RootLink {
            next: link_to(older, at + 1),
            ..cells[older[at - 1] as int]
        }),
        at + 1 < older.len() ==> unlinked[older[at + 1] as int] == (RootLink {
            prev: link_to(older, at - 1),
            ..cells[older[at + 1] as int]
        }),
    ensures
        order.no_duplicates(),
        forall|k: int| 0 <= k < order.len() ==> #[trigger] cell_linked(unlinked, order, k),
        forall|i: int|
            0 <= i < unlinked.len() && (#[trigger] unlinked[i]).linked ==> order.contains(i as usize),
{
    assert(order.len() == older.len() - 1);
    assert(cell_linked(cells, older, at));
    if at > 0 {
        assert(cell_linked(cells, older, at - 1));
    }
    if at + 1 < older.len() {
        assert(cell_linked(cells, older, at + 1));
    }
    assert forall|i: int, j: int|
        0 <= i < order.len() && 0 <= j < order.len() && i != j implies order[i] != order[j] by {
        let oi = if i < at {
            i
        } else {
            i + 1
        };
        let oj = if j < at {
            j
        } else {
            j + 1
        };
        assert(order[i] == older[oi]);
        assert(order[j] == older[oj]);
    }
    assert forall|k: int| 0 <= k < order.len() implies #[trigger] cell_linked(unlinked, order, k) by {
        let ok = if k < at {
            k
        } else {
            k + 1
        };
        assert(order[k] == older[ok]);
        assert(cell_linked(cells, older, ok));
        assert(older[ok] != older[at]);
        if k + 1 < order.len() {
            assert(order[k + 1] == older[if k + 1 < at {
                k + 1
            } else {
                k + 2
            }]);
        }
        if k > 0 {
            assert(order[k - 1] == older[if k - 1 < at {
                k - 1
            } else {
                k
            }]);
        }
        if at > 0 && ok != at - 1 {
            assert(older[ok] != older[at - 1]);
        }
        if at + 1 < older.len() && ok != at + 1 {
            assert(older[ok] != older[at + 1]);
        }
    }
    assert forall|i: int| 0 <= i < unlinked.len() && (#[trigger] unlinked[i]).linked implies order.contains(
        i as usize,
    ) by {
        assert(i != older[at]);
        if at > 0 && i == older[at - 1] as int {
            assert(unlinked[i].linked == cells[i].linked);
        } else if at + 1 < older.len() && i == older[at + 1] as int {
            assert(unlinked[i].linked == cells[i].linked);
        } else {
            assert(Some(i as usize) != link_to(older, at - 1));
            assert(Some(i as usize) != link_to(older, at + 1));
            assert(unlinked[i] == cells[i]);
        }
        assert(cells[i].linked);
        let k = choose|k: int| 0 <= k < older.len() && older[k] == i as usize;
        assert(k != at);
        if k < at {
            assert(order[k] == i as usize);
        } else {
            assert(order[k - 1] == older[k]);
        }
    }
}

/// Marks whatever the registered roots reach, root after root from the head of the
/// list.
pub fn mark_roots(roots: &RootList, allocator: &mut Allocator)
    requires
        roots.wf(),
        old(allocator).marking_wf(),
        count_has_room(old(allocator)@),
    ensures
        final(allocator).marking_wf(),
        count_has_room(final(allocator)@),
        marked_from(old(allocator)@, final(allocator)@, roots@),
        final(allocator)@ == after_mark_all(
            old(allocator)@,
            roots@,
            0,
            old(allocator)@.nodes.len(),
        ),
        final(allocator).spec_show_gc() == old(allocator).spec_show_gc(),
        final(allocator).spec_early_quit() == old(allocator).spec_early_quit(),
{
    let ghost before = allocator@;
    let ghost fuel = before.nodes.len();
    let mut cursor = roots.head;
    let ghost mut k: int = 0;
    proof {
        lemma_marked_from_nothing(before);
        assert(roots@.take(0) =~= Seq::<DagNodePtr>::empty());
    }
    while cursor.is_some()
        invariant
            roots.inv(),
            0 <= k <= roots.order@.len(),
            cursor == link_to(roots.order@, k),
            allocator.marking_wf(),
            count_has_room(allocator@),
            marked_from(before, allocator@, roots@.take(k)),
            roots@.len() == roots.order@.len(),
            allocator@.nodes.len() == fuel,
            after_mark_all(before, roots@, 0, fuel) == after_mark_all(allocator@, roots@, k, fuel),
            allocator.spec_show_gc() == old(allocator).spec_show_gc(),
            allocator.spec_early_quit() == old(allocator).spec_early_quit(),
        decreases roots.order@.len() - k,
    {
        let slot = cursor.unwrap();
        proof {
            assert(cell_linked(roots.cells@, roots.order@, k));
        }
        let node = roots.cells[slot].node.unwrap();
        let ghost now = allocator@;
        proof {
            assert(roots@[k] == node);
        }
        allocator.mark(node);
        proof {
            crate::dag_node::allocator::marking::lemma_marked_from_keeps(now, allocator@, seq![node]);
            lemma_marked_from_one_more(before, now, allocator@, roots@.take(k), node);
            assert(roots@.take(k + 1) =~= roots@.take(k).push(roots@[k]));
            k = k + 1;
        }
        cursor = roots.cells[slot].next;
    }
    proof {
        assert(roots@.take(roots@.len() as int) =~= roots@);
    }
}

} // verus!
