//! Which nodes an outline shows, and how often: a node that is not hidden
//! below a folded node has either one `Whole` line or one `Start` and one
//! `End` line, and a hidden node has no line at all.

use crate::nesting::{lemma_flatten_children_within, lemma_flatten_node_within, nodes_within};
use crate::outline::{flatten_children, flatten_node, line, Line, LineKind};
use crate::tree::{well_formed, NodeView};
use vstd::prelude::*;

verus! {

/// The lines of shape `kind` that stand for `node`.
pub open spec fn stands_for(node: int, kind: LineKind) -> spec_fn(Line) -> bool {
    |l: Line| l.node == node && l.kind == kind
}

/// How many lines of shape `kind` stand for `node`.
pub open spec fn count(lines: Seq<Line>, node: int, kind: LineKind) -> nat {
    lines.filter(stands_for(node, kind)).len()
}

/// `a` lies above `n` in the tree.
pub open spec fn is_ancestor(nodes: Seq<NodeView>, a: int, n: int) -> bool {
    a < n < a + nodes[a].size
}

/// No node from `root` on that lies above `n` is folded.
pub open spec fn shown(nodes: Seq<NodeView>, folded: Set<usize>, root: int, n: int) -> bool {
    forall|a: int|
        root <= a && #[trigger] is_ancestor(nodes, a, n) ==> !folded.contains(a as usize)
}

/// `n` has one `Whole` line if it is folded or has no children, and one
/// `Start` and one `End` line if not, and no other line.
pub open spec fn once(lines: Seq<Line>, nodes: Seq<NodeView>, folded: Set<usize>, n: int) -> bool {
    if folded.contains(n as usize) || nodes[n].size <= 1 {
        &&& count(lines, n, LineKind::Whole) == 1
        &&& count(lines, n, LineKind::Start) == 0
        &&& count(lines, n, LineKind::End) == 0
    } else {
        &&& count(lines, n, LineKind::Whole) == 0
        &&& count(lines, n, LineKind::Start) == 1
        &&& count(lines, n, LineKind::End) == 1
    }
}

/// `n` has no line.
pub open spec fn never(lines: Seq<Line>, n: int) -> bool {
    &&& count(lines, n, LineKind::Whole) == 0
    &&& count(lines, n, LineKind::Start) == 0
    &&& count(lines, n, LineKind::End) == 0
}

/// `n` has the lines it is due: its one line or pair of lines if it is
/// shown, none if it is hidden.
pub open spec fn due(
    lines: Seq<Line>,
    nodes: Seq<NodeView>,
    folded: Set<usize>,
    root: int,
    n: int,
) -> bool {
    if shown(nodes, folded, root, n) {
        once(lines, nodes, folded, n)
    } else {
        never(lines, n)
    }
}

/// The counts of two outlines add up when one is put behind the other.
proof fn lemma_count_add(x: Seq<Line>, y: Seq<Line>, n: int)
    ensures
        count(x + y, n, LineKind::Whole) == count(x, n, LineKind::Whole) + count(
            y,
            n,
            LineKind::Whole,
        ),
        count(x + y, n, LineKind::Start) == count(x, n, LineKind::Start) + count(
            y,
            n,
            LineKind::Start,
        ),
        count(x + y, n, LineKind::End) == count(x, n, LineKind::End) + count(y, n, LineKind::End),
{
    Seq::filter_distributes_over_add(x, y, stands_for(n, LineKind::Whole));
    Seq::filter_distributes_over_add(x, y, stands_for(n, LineKind::Start));
    Seq::filter_distributes_over_add(x, y, stands_for(n, LineKind::End));
}

/// An outline of one line counts that line and nothing else.
proof fn lemma_count_one(l: Line, n: int, kind: LineKind)
    ensures
        count(seq![l], n, kind) == if l.node == n && l.kind == kind {
            1nat
        } else {
            0nat
        },
{
    let keep = stands_for(n, kind);
    let none = Seq::<Line>::empty();
    reveal(Seq::filter);
    assert(none.filter(keep) =~= none);
    none.lemma_filter_push(l, keep);
    assert(none.push(l) =~= seq![l]);
}

/// An outline that speaks of the nodes in `[from, to)` only has no line
/// for a node outside that range.
proof fn lemma_count_outside(lines: Seq<Line>, from: int, to: int, n: int)
    requires
        nodes_within(lines, from, to),
        n < from || to <= n,
    ensures
        never(lines, n),
{
    lemma_none(lines, from, to, n, LineKind::Whole);
    lemma_none(lines, from, to, n, LineKind::Start);
    lemma_none(lines, from, to, n, LineKind::End);
}

/// An outline that speaks of the nodes in `[from, to)` only has no line of
/// any shape for a node outside that range.
proof fn lemma_none(lines: Seq<Line>, from: int, to: int, n: int, kind: LineKind)
    requires
        nodes_within(lines, from, to),
        n < from || to <= n,
    ensures
        count(lines, n, kind) == 0,
{
    let keep = stands_for(n, kind);
    let kept = lines.filter(keep);
    if kept.len() > 0 {
        lines.lemma_filter_pred(keep, 0);
        assert(kept.contains(kept[0]));
        lines.lemma_filter_contains_rev(keep, kept[0]);
        let j = choose|j: int| 0 <= j < lines.len() && lines[j] == kept[0];
        assert(from <= lines[j].node < to);
    }
}

/// The outline of a subtree gives every node of the subtree the lines it
/// is due.
pub proof fn lemma_flatten_node_covers(
    nodes: Seq<NodeView>,
    folded: Set<usize>,
    node: int,
    indent: int,
    n: int,
)
    requires
        well_formed(nodes),
        0 <= node < nodes.len(),
        node <= n < node + nodes[node].size,
    ensures
        due(flatten_node(nodes, folded, node, indent), nodes, folded, node, n),
    decreases nodes[node].size, 0int,
{
    let size = nodes[node].size as int;
    let all = flatten_node(nodes, folded, node, indent);
    let whole = line(node, indent, LineKind::Whole);
    let start = line(node, indent, LineKind::Start);
    let end = line(node, indent, LineKind::End);
    if folded.contains(node as usize) || size <= 1 {
        lemma_count_one(whole, n, LineKind::Whole);
        lemma_count_one(whole, n, LineKind::Start);
        lemma_count_one(whole, n, LineKind::End);
        if n > node {
            assert(is_ancestor(nodes, node, n));
        }
    } else {
        let inner = flatten_children(nodes, folded, node + 1, node + size, indent + 1);
        lemma_flatten_children_within(nodes, folded, node + 1, node + size, indent + 1);
        lemma_count_add(seq![start], inner, n);
        lemma_count_add(seq![start] + inner, seq![end], n);
        lemma_count_one(start, n, LineKind::Whole);
        lemma_count_one(start, n, LineKind::Start);
        lemma_count_one(start, n, LineKind::End);
        lemma_count_one(end, n, LineKind::Whole);
        lemma_count_one(end, n, LineKind::Start);
        lemma_count_one(end, n, LineKind::End);
        if n == node {
            lemma_count_outside(inner, node + 1, node + size, n);
        } else {
            lemma_flatten_children_covers(nodes, folded, node + 1, node + size, indent + 1, n);
            assert(shown(nodes, folded, node, n) == shown(nodes, folded, node + 1, n)) by {
                if shown(nodes, folded, node + 1, n) {
                    assert forall|a: int| node <= a && #[trigger] is_ancestor(
                        nodes,
                        a,
                        n,
                    ) implies !folded.contains(a as usize) by {}
                }
            }
        }
    }
}

/// The outline of a run of sibling subtrees gives every node of the run the
/// lines it is due.
pub proof fn lemma_flatten_children_covers(
    nodes: Seq<NodeView>,
    folded: Set<usize>,
    from: int,
    to: int,
    indent: int,
    n: int,
)
    requires
        well_formed(nodes),
        0 < from <= n < to <= nodes.len(),
        forall|j: int| from <= j < to ==> j + (#[trigger] nodes[j]).size <= to,
    ensures
        due(flatten_children(nodes, folded, from, to, indent), nodes, folded, from, n),
    decreases to - from, 1int,
{
    let size = nodes[from].size as int;
    assert(from + nodes[from].size <= to);
    let head = flatten_node(nodes, folded, from, indent);
    let tail = flatten_children(nodes, folded, from + size, to, indent);
    lemma_count_add(head, tail, n);
    lemma_flatten_node_within(nodes, folded, from, indent);
    lemma_flatten_children_within(nodes, folded, from + size, to, indent);
    if n < from + size {
        lemma_flatten_node_covers(nodes, folded, from, indent, n);
        lemma_count_outside(tail, from + size, to, n);
    } else {
        lemma_count_outside(head, from, from + size, n);
        lemma_flatten_children_covers(nodes, folded, from + size, to, indent, n);
        assert(shown(nodes, folded, from, n) == shown(nodes, folded, from + size, n)) by {
            if shown(nodes, folded, from + size, n) {
                assert forall|a: int| from <= a && #[trigger] is_ancestor(
                    nodes,
                    a,
                    n,
                ) implies !folded.contains(a as usize) by {
                    if a < from + size {
                        assert(a + nodes[a].size <= from + size);
                    }
                }
            }
        }
    }
}

/// The outline of a tree gives every node the lines it is due: one
/// `Whole` line, or one `Start` and one `End` line, if no node above it is
/// folded, and no line if one is.
pub proof fn lemma_every_node_once(nodes: Seq<NodeView>, folded: Set<usize>, n: int)
    requires
        well_formed(nodes),
        0 <= n < nodes.len(),
    ensures
        due(flatten_node(nodes, folded, 0, 0), nodes, folded, 0, n),
{
    lemma_flatten_node_covers(nodes, folded, 0, 0, n);
}

} // verus!
