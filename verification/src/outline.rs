//! Flattening a tree into the lines of an outline.
//!
//! A folded node, or one without children, is shown as a single `Whole`
//! line. Any other node is shown as a `Start` line, the lines of its
//! children one level deeper, and an `End` line.

use crate::fold::FoldSet;
use crate::nesting::{
    lemma_flatten_node_nested, lemma_flatten_node_within, nodes_within, well_nested,
};
use crate::tree::{well_formed, NodeView, ParseTree};
use vstd::prelude::*;

verus! {

/// Which of the three shapes a display line has.
#[derive(Clone, Copy, Debug, PartialEq, Eq, Structural)]
pub enum LineKind {
    Start,
    End,
    Whole,
}

/// One line of the outline: the node it stands for, how deep it is
/// indented, and its shape.
#[derive(Clone, Copy, Debug, PartialEq, Eq, Structural)]
pub struct Line {
    pub node: usize,
    pub indent: usize,
    pub kind: LineKind,
}

/// The line of shape `kind` for `node` at depth `indent`.
pub open spec fn line(node: int, indent: int, kind: LineKind) -> Line {
    Line { node: node as usize, indent: indent as usize, kind }
}

/// The lines of the subtree of `node`, shown at depth `indent`.
pub open spec fn flatten_node(
    nodes: Seq<NodeView>,
    folded: Set<usize>,
    node: int,
    indent: int,
) -> Seq<Line>
    decreases nodes[node].size, 0int,
{
    let size = nodes[node].size as int;
    if folded.contains(node as usize) || size <= 1 {
        seq![line(node, indent, LineKind::Whole)]
    } else {
        seq![line(node, indent, LineKind::Start)] + flatten_children(
            nodes,
            folded,
            node + 1,
            node + size,
            indent + 1,
        ) + seq![line(node, indent, LineKind::End)]
    }
}

/// The lines of the sibling subtrees that fill the index range
/// `[from, to)`, in order, each shown at depth `indent`.
pub open spec fn flatten_children(
    nodes: Seq<NodeView>,
    folded: Set<usize>,
    from: int,
    to: int,
    indent: int,
) -> Seq<Line>
    decreases to - from, 1int,
{
    let size = nodes[from].size as int;
    if from >= to || size < 1 || from + size > to {
        Seq::empty()
    } else {
        flatten_node(nodes, folded, from, indent) + flatten_children(
            nodes,
            folded,
            from + size,
            to,
            indent,
        )
    }
}

/// Two fold states agree on every node in the index range `[from, to)`.
pub open spec fn agree(a: Set<usize>, b: Set<usize>, from: int, to: int) -> bool {
    forall|j: usize| from <= j < to ==> a.contains(j) == b.contains(j)
}

/// The outline of a subtree is a function of the tree and of the fold state
/// of the subtree's nodes, and of nothing else: fold states that agree on
/// these nodes give the same lines.
pub proof fn lemma_flatten_node_deterministic(
    nodes: Seq<NodeView>,
    a: Set<usize>,
    b: Set<usize>,
    node: int,
    indent: int,
)
    requires
        0 <= node,
        node + nodes[node].size <= usize::MAX + 1,
        agree(a, b, node, node + nodes[node].size),
    ensures
        flatten_node(nodes, a, node, indent) == flatten_node(nodes, b, node, indent),
    decreases nodes[node].size, 0int,
{
    let size = nodes[node].size as int;
    if size >= 1 {
        assert(a.contains(node as usize) == b.contains(node as usize));
        if !(a.contains(node as usize) || size <= 1) {
            lemma_flatten_children_deterministic(nodes, a, b, node + 1, node + size, indent + 1);
        }
    }
}

/// The outline of a run of sibling subtrees is a function of the tree and
/// of the fold state of the nodes in the run, and of nothing else.
pub proof fn lemma_flatten_children_deterministic(
    nodes: Seq<NodeView>,
    a: Set<usize>,
    b: Set<usize>,
    from: int,
    to: int,
    indent: int,
)
    requires
        0 <= from,
        to <= usize::MAX + 1,
        agree(a, b, from, to),
    ensures
        flatten_children(nodes, a, from, to, indent) == flatten_children(
            nodes,
            b,
            from,
            to,
            indent,
        ),
    decreases to - from, 1int,
{
    let size = nodes[from].size as int;
    if from >= to || size < 1 || from + size > to {
    } else {
        lemma_flatten_node_deterministic(nodes, a, b, from, indent);
        lemma_flatten_children_deterministic(nodes, a, b, from + size, to, indent);
    }
}

/// The same tree under the same fold state has the same outline.
pub proof fn lemma_flatten_deterministic(
    nodes: Seq<NodeView>,
    folded: Set<usize>,
    other_nodes: Seq<NodeView>,
    other_folded: Set<usize>,
    node: int,
    indent: int,
)
    requires
        nodes == other_nodes,
        folded == other_folded,
    ensures
        flatten_node(nodes, folded, node, indent) == flatten_node(
            other_nodes,
            other_folded,
            node,
            indent,
        ),
{
}

/// A node that has been opened and is waiting for its `End` line.
struct Frame {
    node: usize,
    end: usize,
    indent: usize,
}

/// The lines still to come when the scan stands at index `at` with the
/// nodes of `stack` open, innermost last.
spec fn pending(
    nodes: Seq<NodeView>,
    folded: Set<usize>,
    stack: Seq<Frame>,
    at: int,
    to: int,
    base: int,
) -> Seq<Line>
    decreases stack.len(),
{
    if stack.len() == 0 {
        flatten_children(nodes, folded, at, to, base)
    } else {
        let top = stack.last();
        flatten_children(nodes, folded, at, top.end as int, base + stack.len()) + seq![
            line(top.node as int, base + stack.len() - 1, LineKind::End),
        ] + pending(nodes, folded, stack.drop_last(), top.end as int, to, base)
    }
}

/// The open nodes are nested in each other, innermost last, all inside
/// `[first, to)`, and the scan position `at` lies in the innermost.
spec fn frames_ok(
    nodes: Seq<NodeView>,
    stack: Seq<Frame>,
    first: int,
    at: int,
    to: int,
    base: int,
) -> bool {
    &&& forall|k: int|
        0 <= k < stack.len() ==> {
            let f = #[trigger] stack[k];
            &&& first <= f.node < nodes.len()
            &&& f.end == f.node + nodes[f.node as int].size
            &&& f.end <= to
            &&& f.indent == base + k
            &&& f.node >= first + k
        }
    &&& forall|k: int|
        1 <= k < stack.len() ==> (#[trigger] stack[k - 1]).node < stack[k].node && stack[k].end
            <= stack[k - 1].end
    &&& stack.len() > 0 ==> stack.last().node < at <= stack.last().end
}

/// Where the subtrees that the scan is walking through end: at the end of
/// the innermost open node, or of the whole range when none is open.
spec fn limit_of(stack: Seq<Frame>, to: int) -> int {
    if stack.len() > 0 {
        stack.last().end as int
    } else {
        to
    }
}

/// Closing the innermost open node yields its `End` line.
proof fn lemma_close(
    nodes: Seq<NodeView>,
    folded: Set<usize>,
    stack: Seq<Frame>,
    at: int,
    to: int,
    base: int,
)
    requires
        stack.len() > 0,
        stack.last().end == at,
    ensures
        pending(nodes, folded, stack, at, to, base) == seq![
            line(stack.last().node as int, base + stack.len() - 1, LineKind::End),
        ] + pending(nodes, folded, stack.drop_last(), at, to, base),
{
    assert(flatten_children(nodes, folded, at, at, base + stack.len()) =~= Seq::empty());
    assert(pending(nodes, folded, stack, at, to, base) =~= seq![
        line(stack.last().node as int, base + stack.len() - 1, LineKind::End),
    ] + pending(nodes, folded, stack.drop_last(), at, to, base));
}

/// What is pending splits into the subtree at the scan position and what
/// follows that subtree.
proof fn lemma_split(
    nodes: Seq<NodeView>,
    folded: Set<usize>,
    stack: Seq<Frame>,
    at: int,
    to: int,
    base: int,
)
    requires
        at < limit_of(stack, to),
        1 <= nodes[at].size,
        at + nodes[at].size <= limit_of(stack, to),
    ensures
        pending(nodes, folded, stack, at, to, base) == flatten_node(
            nodes,
            folded,
            at,
            base + stack.len(),
        ) + pending(nodes, folded, stack, at + nodes[at].size, to, base),
{
    let size = nodes[at].size as int;
    let depth = base + stack.len();
    let limit = limit_of(stack, to);
    assert(flatten_children(nodes, folded, at, limit, depth) == flatten_node(
        nodes,
        folded,
        at,
        depth,
    ) + flatten_children(nodes, folded, at + size, limit, depth));
    if stack.len() > 0 {
        let tail = seq![line(stack.last().node as int, depth - 1, LineKind::End)] + pending(
            nodes,
            folded,
            stack.drop_last(),
            limit,
            to,
            base,
        );
        assert(pending(nodes, folded, stack, at, to, base) =~= flatten_children(
            nodes,
            folded,
            at,
            limit,
            depth,
        ) + tail);
        assert(pending(nodes, folded, stack, at + size, to, base) =~= flatten_children(
            nodes,
            folded,
            at + size,
            limit,
            depth,
        ) + tail);
        assert((flatten_node(nodes, folded, at, depth) + flatten_children(
            nodes,
            folded,
            at + size,
            limit,
            depth,
        )) + tail =~= flatten_node(nodes, folded, at, depth) + (flatten_children(
            nodes,
            folded,
            at + size,
            limit,
            depth,
        ) + tail));
    }
}

/// Opening the node at the scan position yields its `Start` line.
proof fn lemma_open(
    nodes: Seq<NodeView>,
    folded: Set<usize>,
    stack: Seq<Frame>,
    at: int,
    to: int,
    base: int,
    frame: Frame,
)
    requires
        at < limit_of(stack, to),
        1 < nodes[at].size,
        at + nodes[at].size <= limit_of(stack, to),
        !folded.contains(at as usize),
        frame.node == at,
        frame.end == at + nodes[at].size,
    ensures
        pending(nodes, folded, stack, at, to, base) == seq![
            line(at, base + stack.len(), LineKind::Start),
        ] + pending(nodes, folded, stack.push(frame), at + 1, to, base),
{
    let size = nodes[at].size as int;
    let depth = base + stack.len();
    lemma_split(nodes, folded, stack, at, to, base);
    let after = pending(nodes, folded, stack, at + size, to, base);
    let inner = flatten_children(nodes, folded, at + 1, at + size, depth + 1);
    let opened = stack.push(frame);
    assert(opened.drop_last() =~= stack);
    assert(opened.last() == frame);
    assert(pending(nodes, folded, opened, at + 1, to, base) =~= inner + seq![
        line(at, depth, LineKind::End),
    ] + after);
    assert(flatten_node(nodes, folded, at, depth) =~= seq![line(at, depth, LineKind::Start)]
        + inner + seq![line(at, depth, LineKind::End)]);
    assert(pending(nodes, folded, stack, at, to, base) =~= seq![line(at, depth, LineKind::Start)]
        + (inner + seq![line(at, depth, LineKind::End)] + after));
}

/// The lines of the subtree of `node`, shown at depth `indent`, under the
/// fold state `folded`.
pub fn flatten(tree: &ParseTree, node: usize, indent: usize, folded: &FoldSet) -> (lines: Vec<Line>)
    requires
        node < tree@.len(),
        indent + tree@[node as int].size <= usize::MAX,
    ensures
        lines@ == flatten_node(tree@, folded@, node as int, indent as int),
        lines@.len() >= 1,
        well_nested(lines@),
        nodes_within(lines@, node as int, node + tree@[node as int].size),
{
    let ghost nodes = tree@;
    let ghost marks = folded@;
    let total = tree.len();
    let to = node + tree.subtree_len(node);
    let mut out: Vec<Line> = Vec::new();
    let mut stack: Vec<Frame> = Vec::new();
    let mut at = node;
    proof {
        assert(flatten_children(nodes, marks, to as int, to as int, indent as int) =~= Seq::empty());
        assert(flatten_children(nodes, marks, node as int, to as int, indent as int)
            =~= flatten_node(nodes, marks, node as int, indent as int));
    }
    while at < to || stack.len() > 0
        invariant
            nodes == tree@,
            marks == folded@,
            well_formed(nodes),
            node < nodes.len(),
            to == node + nodes[node as int].size,
            indent + (to - node) <= usize::MAX,
            node <= at <= to,
            frames_ok(nodes, stack@, node as int, at as int, to as int, indent as int),
            out@ + pending(nodes, marks, stack@, at as int, to as int, indent as int)
                == flatten_node(nodes, marks, node as int, indent as int),
        decreases 2 * (to - at) + stack.len(),
    {
        let depth = stack.len();
        let ghost before = stack@;
        let ghost done = out@;
        let ghost todo = pending(nodes, marks, before, at as int, to as int, indent as int);
        if depth > 0 && stack[depth - 1].end == at {
            let top = stack.pop().unwrap();
            let item = Line { node: top.node, indent: top.indent, kind: LineKind::End };
            out.push(item);
            proof {
                assert(stack@ =~= before.drop_last());
                lemma_close(nodes, marks, before, at as int, to as int, indent as int);
                let next = pending(nodes, marks, stack@, at as int, to as int, indent as int);
                assert(item == line(top.node as int, indent + depth - 1, LineKind::End));
                assert(done.push(item) + next =~= done + (seq![item] + next));
            }
        } else {
            let size = tree.subtree_len(at);
            proof {
                assert(at < limit_of(before, to as int));
                assert(at + size <= limit_of(before, to as int));
            }
            if size == 1 || folded.contains(at) {
                let item = Line { node: at, indent: indent + depth, kind: LineKind::Whole };
                out.push(item);
                proof {
                    lemma_split(nodes, marks, before, at as int, to as int, indent as int);
                    let next = pending(nodes, marks, before, at + size, to as int, indent as int);
                    assert(flatten_node(nodes, marks, at as int, indent + depth) =~= seq![item]);
                    assert(done.push(item) + next =~= done + (seq![item] + next));
                }
                at = at + size;
            } else {
                let item = Line { node: at, indent: indent + depth, kind: LineKind::Start };
                let frame = Frame { node: at, end: at + size, indent: indent + depth };
                out.push(item);
                stack.push(frame);
                proof {
                    lemma_open(nodes, marks, before, at as int, to as int, indent as int, frame);
                    let next = pending(nodes, marks, stack@, at + 1, to as int, indent as int);
                    assert(done.push(item) + next =~= done + (seq![item] + next));
                }
                at = at + 1;
            }
        }
    }
    proof {
        assert(pending(nodes, marks, stack@, at as int, to as int, indent as int) =~= Seq::empty());
        assert(out@ =~= out@ + Seq::<Line>::empty());
        lemma_flatten_node_nested(nodes, marks, node as int, indent as int);
        lemma_flatten_node_within(nodes, marks, node as int, indent as int);
    }
    out
}

} // verus!
