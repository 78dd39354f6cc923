//! Helpers for trying the allocators out: building random trees and drawing trees.
use crate::abstractions::interned_text;
use crate::dag_node::allocator::node_allocator::{Allocator, AllocatorState};
use crate::dag_node::allocator::node_vector::buffer_bytes;
use crate::dag_node::node::{new_node, with_new_node, DagNode, DagNodePtr, NodeState};
use crate::dag_node::DagNodeKind;
use crate::symbol::Symbol;
use rand::Rng;
use vstd::prelude::*;

verus! {

/// A number from `min_width` up to and including `max_width`, chosen at random.
///
/// Calls `rand::Rng::gen_range` on the generator of the current thread with the
/// inclusive range from `min_width` to `max_width`. The contract claims only that the
/// number lies in that range, which is what the function documents; it leaves out the
/// empty range, on which the function panics.
#[verifier::external_body]
fn random_width(min_width: usize, max_width: usize) -> (width: usize)
    requires
        min_width <= max_width,
    ensures
        min_width <= width <= max_width,
{
    rand::thread_rng().gen_range(min_width..=max_width)
}

/// The arity of a child at the given height that drew `width`: a child at height 1 is
/// a leaf, whatever it drew.
pub open spec fn child_arity_at(max_height: usize, width: usize) -> usize {
    if max_height == 1 {
        0
    } else {
        width
    }
}

/// The arity of a child at the given height that drew `width`.
pub fn child_arity(max_height: usize, width: usize) -> (arity: usize)
    ensures
        arity == child_arity_at(max_height, width),
{
    if max_height == 1 {
        0
    } else {
        width
    }
}

/// What was drawn while a tree was built: for one child, the width that it drew, and
/// what was drawn for each of its own children.
pub ghost struct Drawn {
    pub width: usize,
    pub below: Seq<Drawn>,
}

/// The lesser of the two widths.
pub open spec fn narrow_width(max_width: usize, min_width: usize) -> usize {
    if max_width < min_width {
        max_width
    } else {
        min_width
    }
}

/// The greater of `max_width` and the lesser of the two widths.
pub open spec fn wide_width(max_width: usize, min_width: usize) -> usize {
    if max_width < narrow_width(max_width, min_width) {
        narrow_width(max_width, min_width)
    } else {
        max_width
    }
}

/// Whether every width in `records`, down to `depth` levels below them, lies from
/// `narrow` up to `wide`.
pub open spec fn drawn_within(records: Seq<Drawn>, narrow: usize, wide: usize, depth: nat) -> bool
    decreases depth,
{
    forall|j: int|
        0 <= j < records.len() ==> narrow <= (#[trigger] records[j]).width <= wide && if depth
            > 0 {
            drawn_within(records[j].below, narrow, wide, (depth - 1) as nat)
        } else {
            true
        }
}

/// The arity of the symbol of the node at `node`; 0 for a node without a symbol.
pub open spec fn arity_at(state: AllocatorState, node: int) -> nat {
    match state.nodes[node].symbol {
        Some(symbol) => symbol.arity as nat,
        None => 0,
    }
}

/// The state after a new node with the symbol `symbol`, of the kind `Free` and without
/// children, was made in the slot that the node allocator hands out.
pub open spec fn with_child_made(state: AllocatorState, symbol: Symbol) -> AllocatorState {
    with_new_node(
        state.after_allocate(),
        state.allocation_target(),
        new_node(symbol, DagNodeKind::Free, Seq::empty(), state.after_allocate().storage),
    )
}

/// The state after the node at `parent` was given the child `child`, or was left as it
/// is because its buffer is full.
pub open spec fn with_child_inserted(
    state: AllocatorState,
    parent: int,
    child: DagNodePtr,
) -> AllocatorState {
    AllocatorState {
        nodes: state.nodes.update(
            parent,
            state.nodes[parent].with_child(child, state.storage.placement(buffer_bytes(2) as usize)),
        ),
        storage: if state.nodes[parent].args is Single {
            state.storage.after_allocate(buffer_bytes(2) as usize)
        } else {
            state.storage
        },
        ..state
    }
}

/// The state after a tree was built below the node at `parent`, no higher than
/// `max_height`, when `records` is what was drawn for the children of that node.
///
/// The node gets as many children as the arity of its symbol says, one after the
/// other. Nothing is built at height 0.
pub open spec fn tree_built(
    state: AllocatorState,
    symbols: Seq<Symbol>,
    parent: DagNodePtr,
    max_height: usize,
    records: Seq<Drawn>,
) -> AllocatorState
    decreases max_height, 2nat, 0nat,
{
    if max_height == 0 {
        state
    } else {
        children_built(state, symbols, parent, max_height, records, arity_at(state, parent as int)).0
    }
}

/// The state after the first `count` children of the node at `parent` were built, and
/// whether the building has stopped because the node allocator could hand out no node.
/// Once it has stopped, no further child is built.
pub open spec fn children_built(
    state: AllocatorState,
    symbols: Seq<Symbol>,
    parent: DagNodePtr,
    max_height: usize,
    records: Seq<Drawn>,
    count: nat,
) -> (AllocatorState, bool)
    decreases max_height, 1nat, count,
{
    if count == 0 {
        (state, false)
    } else {
        let before = children_built(state, symbols, parent, max_height, records, (count - 1) as nat);
        if before.1 {
            before
        } else {
            child_built(before.0, symbols, parent, max_height, records[count - 1])
        }
    }
}

/// The state after one child of the node at `parent` was built, and whether the
/// building has stopped.
///
/// The child is a new node whose symbol has the arity that the child drew, or the
/// arity 0 at height 1. It is given to the node at `parent`, and then the tree below
/// it is built, one level lower. Where the node allocator can hand out no node, the
/// building stops after the request for one.
pub open spec fn child_built(
    state: AllocatorState,
    symbols: Seq<Symbol>,
    parent: DagNodePtr,
    max_height: usize,
    record: Drawn,
) -> (AllocatorState, bool)
    decreases max_height, 0nat, 0nat,
{
    if !state.can_allocate() || max_height == 0 {
        (state.after_allocate(), true)
    } else {
        let symbol = symbols[child_arity_at(max_height, record.width) as int];
        let child = state.allocation_target() as usize;
        let inserted = with_child_inserted(with_child_made(state, symbol), parent as int, child);
        (tree_built(inserted, symbols, child, (max_height - 1) as usize, record.below), false)
    }
}

/// What was drawn for later children does not matter for the children built before
/// them.
pub proof fn lemma_children_built_prefix(
    state: AllocatorState,
    symbols: Seq<Symbol>,
    parent: DagNodePtr,
    max_height: usize,
    records: Seq<Drawn>,
    others: Seq<Drawn>,
    count: nat,
)
    requires
        forall|j: int| 0 <= j < count ==> records[j] == others[j],
    ensures
        children_built(state, symbols, parent, max_height, records, count) == children_built(
            state,
            symbols,
            parent,
            max_height,
            others,
            count,
        ),
    decreases count,
{
    if count > 0 {
        lemma_children_built_prefix(
            state,
            symbols,
            parent,
            max_height,
            records,
            others,
            (count - 1) as nat,
        );
    }
}

/// Once the building has stopped, no further child changes anything.
pub proof fn lemma_children_built_stopped(
    state: AllocatorState,
    symbols: Seq<Symbol>,
    parent: DagNodePtr,
    max_height: usize,
    records: Seq<Drawn>,
    from: nat,
    to: nat,
)
    requires
        from <= to,
        children_built(state, symbols, parent, max_height, records, from).1,
    ensures
        children_built(state, symbols, parent, max_height, records, to) == children_built(
            state,
            symbols,
            parent,
            max_height,
            records,
            from,
        ),
    decreases to,
{
    if from < to {
        lemma_children_built_stopped(
            state,
            symbols,
            parent,
            max_height,
            records,
            from,
            (to - 1) as nat,
        );
    }
}

/// Builds a random tree below the node at `parent`, no higher than `max_height`.
///
/// The node gets as many children as its symbol's arity says, each with a symbol whose
/// arity is drawn from `min_width` up to `max_width`, or with the symbol of arity 0 at
/// the last level; `symbols` holds a symbol for every arity. The tree below each child
/// is built in the same way. Building stops where the node allocator can hand out no
/// node.
///
/// Which tree is built depends on what is drawn. For what was drawn, whatever it was,
/// the allocator is in the state that `tree_built` gives.
///
/// No collection may run while the tree is built: nothing holds its nodes yet.
pub fn build_random_tree(
    allocator: &mut Allocator,
    symbols: &'static [Symbol],
    parent: DagNodePtr,
    max_height: usize,
    max_width: usize,
    min_width: usize,
)
    requires
        old(allocator).wf(),
        parent < old(allocator)@.nodes.len(),
        max_width < symbols@.len(),
        min_width < symbols@.len(),
    ensures
        final(allocator).wf(),
        final(allocator)@.nodes.len() >= old(allocator)@.nodes.len(),
        final(allocator)@.gc_count == old(allocator)@.gc_count,
        max_height == 0 ==> final(allocator)@ == old(allocator)@,
        exists|records: Seq<Drawn>| #[trigger]
            drawn_within(
                records,
                narrow_width(max_width, min_width),
                wide_width(max_width, min_width),
                max_height as nat,
            ) && final(allocator)@ == tree_built(
                old(allocator)@,
                symbols@,
                parent,
                max_height,
                records,
            ),
    decreases max_height,
{
    let ghost before = allocator@;
    let ghost mut done: Seq<Drawn> = Seq::empty();
    if max_height == 0 {
        proof {
            assert(drawn_within(
                done,
                narrow_width(max_width, min_width),
                wide_width(max_width, min_width),
                0,
            ));
        }
        return;
    }
    // Put the widths in order.
    let narrow = if max_width < min_width {
        max_width
    } else {
        min_width
    };
    let wide = if max_width < narrow {
        narrow
    } else {
        max_width
    };
    let parent_arity = match allocator.node(parent) {
        Some(node) => node.arity() as usize,
        None => 0,
    };
    let mut i: usize = 0;
    while i < parent_arity
        invariant
            allocator.wf(),
            allocator@.nodes.len() >= old(allocator)@.nodes.len(),
            allocator@.gc_count == old(allocator)@.gc_count,
            parent < allocator@.nodes.len(),
            narrow == narrow_width(max_width, min_width),
            wide == wide_width(max_width, min_width),
            narrow <= wide < symbols@.len(),
            max_width < symbols@.len(),
            min_width < symbols@.len(),
            max_height > 0,
            before == old(allocator)@,
            i <= parent_arity,
            parent_arity == arity_at(before, parent as int),
            done.len() == i,
            drawn_within(done, narrow, wide, max_height as nat),
            children_built(before, symbols@, parent, max_height, done, i as nat) == (
                allocator@,
                false,
            ),
        decreases parent_arity - i,
    {
        let ghost now = allocator@;
        let width = random_width(narrow, wide);
        let arity = child_arity(max_height, width);
        let child_symbol = &symbols[arity];
        proof {
            now.lemma_after_allocate_keeps();
        }
        let child = match DagNode::new(allocator, child_symbol) {
            Some(child) => child,
            None => {
                proof {
                    // The building stops here, whatever would have been drawn later.
                    assert(!now.can_allocate());
                    assert(allocator@ == now.after_allocate());
                    assert(((i + 1) as nat - 1) as nat == i as nat);
                    assert(child_built(now, symbols@, parent, max_height, done[(i + 1) as nat - 1])
                        == (now.after_allocate(), true));
                    assert(children_built(
                        before,
                        symbols@,
                        parent,
                        max_height,
                        done,
                        (i + 1) as nat,
                    ) == (allocator@, true));
                    lemma_children_built_stopped(
                        before,
                        symbols@,
                        parent,
                        max_height,
                        done,
                        (i + 1) as nat,
                        parent_arity as nat,
                    );
                }
                return;
            },
        };
        proof {
            assert(allocator@ == with_child_made(now, symbols@[arity as int]));
        }
        let inserted = allocator.insert_child(parent, child);
        let ghost linked = allocator@;
        proof {
            assert(linked == with_child_inserted(
                with_child_made(now, symbols@[arity as int]),
                parent as int,
                child,
            ));
        }
        build_random_tree(allocator, symbols, child, max_height - 1, max_width, min_width);
        proof {
            let below = choose|records: Seq<Drawn>| #[trigger]
                drawn_within(records, narrow, wide, (max_height - 1) as nat) && allocator@
                    == tree_built(linked, symbols@, child, (max_height - 1) as usize, records);
            let record = Drawn { width, below };
            let longer = done.push(record);
            lemma_children_built_prefix(
                before,
                symbols@,
                parent,
                max_height,
                longer,
                done,
                i as nat,
            );
            assert(longer[i as int] == record);
            assert(((i + 1) as nat - 1) as nat == i as nat);
            assert(children_built(before, symbols@, parent, max_height, longer, i as nat) == (
                now,
                false,
            ));
            assert(now.can_allocate());
            assert(child == now.allocation_target() as usize);
            assert(arity == child_arity_at(max_height, record.width));
            assert(child_built(now, symbols@, parent, max_height, longer[(i + 1) as nat - 1]) == (
                tree_built(linked, symbols@, child, (max_height - 1) as usize, below),
                false,
            ));
            assert(children_built(
                before,
                symbols@,
                parent,
                max_height,
                longer,
                (i + 1) as nat,
            ) == (allocator@, false));
            assert forall|j: int| 0 <= j < longer.len() implies narrow <= (
            #[trigger] longer[j]).width <= wide && drawn_within(
                longer[j].below,
                narrow,
                wide,
                (max_height - 1) as nat,
            ) by {
                if j < i {
                    assert(longer[j] == done[j]);
                }
            }
            done = longer;
        }
        i += 1;
    }
}

/// `first` followed by `second`.
///
/// Calls `String::push_str` on a copy of `first`, which appends `second` to it. The
/// contract claims that the result is the one text followed by the other.
#[verifier::external_body]
fn joined(first: &str, second: &str) -> (text: String)
    ensures
        text@ == first@ + second@,
{
    let mut text = String::from(first);
    text.push_str(second);
    text
}

/// What stands between the prefix and the node in a line of a drawing: nothing for the
/// node at the top, which has no prefix, and else a branch, which bends at the last
/// child.
pub open spec fn connector(prefix: Seq<char>, is_tail: bool) -> Seq<char> {
    if prefix.len() == 0 {
        Seq::empty()
    } else if is_tail {
        "╰──"@
    } else {
        "├──"@
    }
}

/// The prefix for the lines of the children of a node that is drawn with the prefix
/// `prefix`.
pub open spec fn child_prefix(prefix: Seq<char>, is_tail: bool) -> Seq<char> {
    if is_tail {
        prefix + "    "@
    } else if prefix.len() == 0 {
        " "@
    } else {
        prefix + "│   "@
    }
}

/// How a node is written: its symbol's name in `node<` and `>`.
pub open spec fn node_text(node: NodeState) -> Seq<char> {
    "node<"@ + match node.symbol {
        Some(symbol) => interned_text(symbol.name),
        None => Seq::empty(),
    } + ">"@
}

/// The lines of the drawing of the tree below the node at `node`, down to `depth`
/// levels below it.
pub open spec fn tree_lines(
    nodes: Seq<NodeState>,
    node: int,
    prefix: Seq<char>,
    is_tail: bool,
    depth: nat,
) -> Seq<Seq<char>>
    decreases depth, 0nat,
{
    let line = prefix + connector(prefix, is_tail) + node_text(nodes[node]);
    if depth == 0 {
        seq![line]
    } else {
        seq![line] + children_lines(
            nodes,
            nodes[node].children(),
            0,
            child_prefix(prefix, is_tail),
            (depth - 1) as nat,
        )
    }
}

/// The lines of the drawings of the trees below the children from the one at `from` on.
/// A child that is no position in the arenas has no line.
pub open spec fn children_lines(
    nodes: Seq<NodeState>,
    children: Seq<DagNodePtr>,
    from: int,
    prefix: Seq<char>,
    depth: nat,
) -> Seq<Seq<char>>
    decreases depth, 1 + children.len() - from,
{
    if from < 0 || from >= children.len() {
        Seq::empty()
    } else {
        let first = if children[from] < nodes.len() {
            tree_lines(nodes, children[from] as int, prefix, from == children.len() - 1, depth)
        } else {
            Seq::empty()
        };
        first + children_lines(nodes, children, from + 1, prefix, depth)
    }
}

/// The texts of `lines`.
pub open spec fn texts(lines: Seq<String>) -> Seq<Seq<char>> {
    Seq::new(lines.len(), |i: int| lines[i]@)
}

/// Draws the tree below the node at `node`, one line for each node, down to
/// `max_depth` levels below it, and returns the lines.
///
/// The line of a node is `prefix`, a branch unless the prefix is empty, and the node.
/// The lines of its children follow, each with a longer prefix. The branch of the last
/// child bends.
pub fn print_tree(
    allocator: &Allocator,
    node: DagNodePtr,
    prefix: String,
    is_tail: bool,
    max_depth: usize,
) -> (lines: Vec<String>)
    requires
        allocator.inv(),
        node < allocator@.nodes.len(),
    ensures
        texts(lines@) == tree_lines(allocator@.nodes, node as int, prefix@, is_tail, max_depth as nat),
    decreases max_depth,
{
    let is_head = prefix.as_str().is_empty();
    let read = allocator.node(node).unwrap();
    // Draw the node itself.
    let branch = if is_head {
        ""
    } else if is_tail {
        "╰──"
    } else {
        "├──"
    };
    let name = match read.symbol() {
        Some(symbol) => symbol.text(),
        None => String::new(),
    };
    let written = joined(joined("node<", name.as_str()).as_str(), ">");
    let line = joined(joined(prefix.as_str(), branch).as_str(), written.as_str());
    proof {
        assert(prefix@.len() == 0 ==> ""@ =~= Seq::<char>::empty()) by {
            reveal_strlit("");
        }
        assert(line@ =~= prefix@ + connector(prefix@, is_tail) + node_text(allocator@.nodes[node as int])) by {
            reveal_strlit("");
        }
    }
    let mut lines: Vec<String> = Vec::new();
    lines.push(line);
    proof {
        assert(texts(lines@) =~= seq![line@]);
    }
    if max_depth == 0 {
        return lines;
    }
    // The prefix for the children.
    let new_prefix = if is_tail {
        joined(prefix.as_str(), "    ")
    } else if is_head {
        joined("", " ")
    } else {
        joined(prefix.as_str(), "│   ")
    };
    proof {
        assert(new_prefix@ =~= child_prefix(prefix@, is_tail)) by {
            reveal_strlit("");
        }
    }
    // Draw each child.
    let children = read.iter_children();
    let ghost kids = allocator@.nodes[node as int].children();
    let ghost below = (max_depth - 1) as nat;
    let mut drawn: Vec<String> = Vec::new();
    let mut i: usize = children.len();
    proof {
        assert(texts(drawn@) =~= children_lines(allocator@.nodes, kids, i as int, new_prefix@, below));
    }
    while i > 0
        invariant
            allocator.inv(),
            i <= children@.len(),
            children@ == kids,
            below == max_depth - 1,
            max_depth > 0,
            texts(drawn@) == children_lines(allocator@.nodes, kids, i as int, new_prefix@, below),
        decreases i,
    {
        i -= 1;
        let child = children[i];
        let mut first = if allocator.contains(child) {
            print_tree(allocator, child, new_prefix.clone(), i == children.len() - 1, max_depth - 1)
        } else {
            Vec::new()
        };
        proof {
            let rest = drawn@;
            assert(texts(first@ + rest) =~= texts(first@) + texts(rest));
        }
        first.append(&mut drawn);
        drawn = first;
    }
    proof {
        let head = lines@;
        assert(texts(head + drawn@) =~= texts(head) + texts(drawn@));
    }
    lines.append(&mut drawn);
    lines
}

} // verus!
