//! The graph that the nodes form, and what it means to reach a node.
//!
//! The collector keeps what can be reached from the roots. This module says what that
//! is, over the row of nodes as mathematical values, and proves the facts about it that
//! the mark phase rests on.
use crate::dag_node::node::{DagNodePtr, NodeState};
use vstd::prelude::*;

verus! {

/// For every position, the children of the node there.
pub open spec fn graph_of(nodes: Seq<NodeState>) -> Seq<Seq<DagNodePtr>> {
    Seq::new(nodes.len(), |i: int| nodes[i].children())
}

/// Whether the node at `from` has the node at `to` as a child.
pub open spec fn edge(graph: Seq<Seq<DagNodePtr>>, from: int, to: int) -> bool {
    &&& 0 <= from < graph.len()
    &&& 0 <= to < graph.len()
    &&& graph[from].contains(to as usize)
}

/// Whether `path` leads from node to child, over positions of the graph.
pub open spec fn is_path(graph: Seq<Seq<DagNodePtr>>, path: Seq<int>) -> bool {
    &&& path.len() > 0
    &&& forall|k: int| 0 <= k < path.len() ==> 0 <= #[trigger] path[k] < graph.len()
    &&& forall|k: int| 0 <= k < path.len() - 1 ==> edge(graph, #[trigger] path[k], path[k + 1])
}

/// Whether the node at `to` is the node at `from` or one of its descendants.
pub open spec fn reachable(graph: Seq<Seq<DagNodePtr>>, from: int, to: int) -> bool {
    exists|path: Seq<int>| #[trigger] is_path(graph, path) && path.first() == from && path.last() == to
}

/// Whether the node at `to` is one of `roots` or a descendant of one.
pub open spec fn reachable_from(graph: Seq<Seq<DagNodePtr>>, roots: Seq<DagNodePtr>, to: int) -> bool {
    exists|r: int| 0 <= r < roots.len() && reachable(graph, #[trigger] roots[r] as int, to)
}

/// The positions of the nodes that `roots` keep alive.
pub open spec fn live_set(graph: Seq<Seq<DagNodePtr>>, roots: Seq<DagNodePtr>) -> Set<int> {
    Set::new(|i: int| reachable_from(graph, roots, i))
}

/// The positions of the marked nodes.
pub open spec fn marked_set(nodes: Seq<NodeState>) -> Set<int> {
    Set::new(|i: int| 0 <= i < nodes.len() && nodes[i].marked())
}

/// There are finitely many marked nodes, and no more than there are nodes.
pub proof fn lemma_marked_set_finite(nodes: Seq<NodeState>)
    ensures
        marked_set(nodes).finite(),
        marked_set(nodes).len() <= nodes.len(),
{
    let all = vstd::set_lib::set_int_range(0, nodes.len() as int);
    vstd::set_lib::lemma_int_range(0, nodes.len() as int);
    assert(marked_set(nodes).subset_of(all));
    vstd::set_lib::lemma_len_subset(marked_set(nodes), all);
}

/// While a node is unmarked, fewer nodes are marked than there are nodes.
pub proof fn lemma_unmarked_node_counts(nodes: Seq<NodeState>, p: int)
    requires
        0 <= p < nodes.len(),
        !nodes[p].marked(),
    ensures
        marked_set(nodes).len() < nodes.len(),
{
    let all = vstd::set_lib::set_int_range(0, nodes.len() as int);
    vstd::set_lib::lemma_int_range(0, nodes.len() as int);
    let rest = all.remove(p);
    assert(marked_set(nodes).subset_of(rest));
    vstd::set_lib::lemma_len_subset(marked_set(nodes), rest);
}

/// Marking one unmarked node adds its position to the marked ones.
pub proof fn lemma_mark_one(before: Seq<NodeState>, after: Seq<NodeState>, p: int)
    requires
        0 <= p < before.len(),
        after.len() == before.len(),
        !before[p].marked(),
        after[p].marked(),
        forall|i: int| 0 <= i < before.len() && i != p ==> (#[trigger] after[i]).marked() == before[i].marked(),
    ensures
        marked_set(after) == marked_set(before).insert(p),
        marked_set(after).len() == marked_set(before).len() + 1,
{
    lemma_marked_set_finite(before);
    assert(marked_set(after) =~= marked_set(before).insert(p));
}

/// Where marks are only added, no fewer nodes are marked afterwards.
pub proof fn lemma_marked_set_grows(before: Seq<NodeState>, after: Seq<NodeState>)
    requires
        after.len() == before.len(),
        forall|i: int| 0 <= i < before.len() && (#[trigger] before[i]).marked() ==> after[i].marked(),
    ensures
        marked_set(before).subset_of(marked_set(after)),
        marked_set(before).len() <= marked_set(after).len(),
{
    lemma_marked_set_finite(after);
    assert(marked_set(before).subset_of(marked_set(after)));
    vstd::set_lib::lemma_len_subset(marked_set(before), marked_set(after));
}

/// Every node reaches itself.
pub proof fn lemma_reachable_self(graph: Seq<Seq<DagNodePtr>>, p: int)
    requires
        0 <= p < graph.len(),
    ensures
        reachable(graph, p, p),
{
    let path = seq![p];
    assert(is_path(graph, path));
    assert(path.first() == p && path.last() == p);
}

/// What a child reaches, its parent reaches.
pub proof fn lemma_reachable_through_child(
    graph: Seq<Seq<DagNodePtr>>,
    parent: int,
    child: int,
    to: int,
)
    requires
        edge(graph, parent, child),
        reachable(graph, child, to),
    ensures
        reachable(graph, parent, to),
{
    let tail = choose|path: Seq<int>| #[trigger]
        is_path(graph, path) && path.first() == child && path.last() == to;
    let path = seq![parent] + tail;
    assert forall|k: int| 0 <= k < path.len() implies 0 <= #[trigger] path[k] < graph.len() by {
        if k > 0 {
            assert(path[k] == tail[k - 1]);
        }
    }
    assert forall|k: int| 0 <= k < path.len() - 1 implies edge(
        graph,
        #[trigger] path[k],
        path[k + 1],
    ) by {
        if k > 0 {
            assert(path[k] == tail[k - 1]);
            assert(path[k + 1] == tail[k]);
        } else {
            assert(path[1] == tail[0]);
        }
    }
    assert(is_path(graph, path));
    assert(path.first() == parent);
    assert(path.last() == tail.last());
}

/// A set of nodes that holds the children of each of its nodes holds whatever one of
/// its nodes reaches.
pub proof fn lemma_closed_set_holds_reachable(
    graph: Seq<Seq<DagNodePtr>>,
    closed: Set<int>,
    from: int,
    to: int,
)
    requires
        closed.contains(from),
        forall|a: int, b: int| closed.contains(a) && #[trigger] edge(graph, a, b) ==> closed.contains(b),
        reachable(graph, from, to),
    ensures
        closed.contains(to),
{
    let path = choose|path: Seq<int>| #[trigger]
        is_path(graph, path) && path.first() == from && path.last() == to;
    lemma_path_stays_in_closed_set(graph, closed, path, path.len() - 1);
}

/// A path that starts in a set of nodes that holds the children of each of its nodes
/// stays in it.
proof fn lemma_path_stays_in_closed_set(
    graph: Seq<Seq<DagNodePtr>>,
    closed: Set<int>,
    path: Seq<int>,
    k: int,
)
    requires
        is_path(graph, path),
        closed.contains(path.first()),
        forall|a: int, b: int| closed.contains(a) && #[trigger] edge(graph, a, b) ==> closed.contains(b),
        0 <= k < path.len(),
    ensures
        closed.contains(path[k]),
    decreases k,
{
    if k > 0 {
        lemma_path_stays_in_closed_set(graph, closed, path, k - 1);
        assert(edge(graph, path[k - 1], path[k]));
    }
}

} // verus!
