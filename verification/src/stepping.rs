//! Stepping along the tree, resolved on the visible lines: to the parent,
//! into the children, and to the next sibling.
//!
//! Each step is defined on the lines alone, by their indentation, so it
//! always lands on a line that is there. On the outline of a whole tree
//! the steps agree with the tree: the parent step lands on the `Start`
//! line of the parent, the step into the children on the first line of the
//! first child, and the step to the next sibling on the first line of the
//! next sibling.

use crate::nesting::{
    at_least, lemma_flatten_children_nested, lemma_flatten_children_within,
    lemma_flatten_node_nested,
};
use crate::outline::{flatten_children, flatten_node, line, Line, LineKind};
use crate::tree::{well_formed, NodeView};
use crate::visibility::is_ancestor;
use vstd::prelude::*;

verus! {

/// The last index below `below` of a line that is indented less than
/// `indent`, or -1 when there is none.
pub open spec fn last_shallower(lines: Seq<Line>, indent: usize, below: int) -> int
    decreases below,
{
    if below <= 0 {
        -1
    } else if lines[below - 1].indent < indent {
        below - 1
    } else {
        last_shallower(lines, indent, below - 1)
    }
}

/// Where a step to the parent goes: to the nearest visible line above the
/// cursor that is indented less. The cursor stays where there is none.
pub open spec fn parent_target(lines: Seq<Line>, cursor: int) -> int {
    let found = last_shallower(lines, lines[cursor].indent, cursor);
    if found >= 0 {
        found
    } else {
        cursor
    }
}

/// Where a step into the children goes: to the next visible line, if that
/// is indented more. The cursor stays where it is not.
pub open spec fn child_target(lines: Seq<Line>, cursor: int) -> int {
    if cursor + 1 < lines.len() && lines[cursor + 1].indent > lines[cursor].indent {
        cursor + 1
    } else {
        cursor
    }
}

/// The first index from `from` on of a line that is indented less than
/// `indent`, or is indented as much and is no `End` line; the length of
/// `lines` when there is none.
pub open spec fn next_not_deeper(lines: Seq<Line>, indent: usize, from: int) -> int
    decreases lines.len() - from,
{
    if from >= lines.len() {
        lines.len() as int
    } else if lines[from].indent < indent || (lines[from].indent == indent && lines[from].kind
        != LineKind::End) {
        from
    } else {
        next_not_deeper(lines, indent, from + 1)
    }
}

/// Where a step to the next sibling goes: to the first visible line below
/// the cursor that is indented as much and is no `End` line. The cursor
/// stays where a line that is indented less comes first, or no such line
/// comes at all.
pub open spec fn sibling_target(lines: Seq<Line>, cursor: int) -> int {
    let found = next_not_deeper(lines, lines[cursor].indent, cursor + 1);
    if found < lines.len() && lines[found].indent == lines[cursor].indent {
        found
    } else {
        cursor
    }
}

/// `last_shallower` finds the nearest line above that is indented less: it
/// lies below `below`, it is indented less, and no line between it and
/// `below` is.
pub proof fn lemma_last_shallower_bounds(lines: Seq<Line>, indent: usize, below: int)
    requires
        0 <= below <= lines.len(),
    ensures
        -1 <= last_shallower(lines, indent, below) < below,
        last_shallower(lines, indent, below) >= 0 ==> lines[last_shallower(
            lines,
            indent,
            below,
        )].indent < indent,
        forall|k: int|
            last_shallower(lines, indent, below) < k < below ==> lines[k].indent >= indent,
    decreases below,
{
    if below > 0 && lines[below - 1].indent >= indent {
        lemma_last_shallower_bounds(lines, indent, below - 1);
    }
}

/// `next_not_deeper` finds the first line from `from` on that is not
/// deeper and no `End` line at the same depth: it lies between `from` and
/// the length, and every line between `from` and it is deeper or an `End`
/// line at the same depth.
pub proof fn lemma_next_not_deeper_bounds(lines: Seq<Line>, indent: usize, from: int)
    requires
        0 <= from <= lines.len(),
    ensures
        from <= next_not_deeper(lines, indent, from) <= lines.len(),
        forall|k: int|
            from <= k < next_not_deeper(lines, indent, from) ==> lines[k].indent > indent || (
            lines[k].indent == indent && lines[k].kind == LineKind::End),
    decreases lines.len() - from,
{
    if from < lines.len() && !(lines[from].indent < indent || (lines[from].indent == indent
        && lines[from].kind != LineKind::End)) {
        lemma_next_not_deeper_bounds(lines, indent, from + 1);
    }
}

/// Where a step to the parent goes.
pub fn find_parent(lines: &Vec<Line>, cursor: usize) -> (r: usize)
    requires
        cursor < lines@.len(),
    ensures
        r == parent_target(lines@, cursor as int),
{
    let indent = lines[cursor].indent;
    let mut below = cursor;
    while below > 0
        invariant
            below <= cursor < lines@.len(),
            indent == lines@[cursor as int].indent,
            last_shallower(lines@, indent, cursor as int) == last_shallower(
                lines@,
                indent,
                below as int,
            ),
        decreases below,
    {
        if lines[below - 1].indent < indent {
            return below - 1;
        }
        below = below - 1;
    }
    cursor
}

/// Where a step into the children goes.
pub fn find_child(lines: &Vec<Line>, cursor: usize) -> (r: usize)
    requires
        cursor < lines@.len(),
    ensures
        r == child_target(lines@, cursor as int),
{
    if cursor < lines.len() - 1 && lines[cursor + 1].indent > lines[cursor].indent {
        cursor + 1
    } else {
        cursor
    }
}

/// Where a step to the next sibling goes.
pub fn find_sibling(lines: &Vec<Line>, cursor: usize) -> (r: usize)
    requires
        cursor < lines@.len(),
    ensures
        r == sibling_target(lines@, cursor as int),
{
    let indent = lines[cursor].indent;
    let total = lines.len();
    let mut at = cursor + 1;
    while at < total
        invariant
            cursor < at <= total,
            total == lines@.len(),
            indent == lines@[cursor as int].indent,
            next_not_deeper(lines@, indent, cursor + 1) == next_not_deeper(
                lines@,
                indent,
                at as int,
            ),
        decreases total - at,
    {
        let here = lines[at];
        if here.indent < indent {
            return cursor;
        }
        if here.indent == indent && here.kind != LineKind::End {
            return at;
        }
        at = at + 1;
    }
    cursor
}

/// What the search for a shallower line finds from the line at index `c`
/// of an outline that lies at depth `base` or deeper: nothing from a line
/// at depth `base`, and from a deeper line the `Start` line, one less
/// deep, of a node above the line's node.
pub open spec fn parent_found(nodes: Seq<NodeView>, lines: Seq<Line>, base: int, c: int) -> bool {
    let indent = lines[c].indent;
    let found = last_shallower(lines, indent, c);
    &&& indent >= base
    &&& indent == base ==> found == -1
    &&& indent > base ==> {
        &&& 0 <= found < c
        &&& lines[found].kind == LineKind::Start
        &&& lines[found].indent + 1 == indent
        &&& is_ancestor(nodes, lines[found].node as int, lines[c].node as int)
    }
}

/// From every line of the outline the search for a shallower line finds
/// what `parent_found` says.
pub open spec fn enclosed(nodes: Seq<NodeView>, lines: Seq<Line>, base: int) -> bool {
    forall|c: int| 0 <= c < lines.len() ==> #[trigger] parent_found(nodes, lines, base, c)
}

/// The search for a shallower line looks at the lines above only.
proof fn lemma_shallower_prefix(x: Seq<Line>, y: Seq<Line>, indent: usize, below: int)
    requires
        0 <= below <= x.len(),
    ensures
        last_shallower(x + y, indent, below) == last_shallower(x, indent, below),
    decreases below,
{
    if below > 0 {
        assert((x + y)[below - 1] == x[below - 1]);
        lemma_shallower_prefix(x, y, indent, below - 1);
    }
}

/// The search for a shallower line in the second of two outlines put
/// together goes on in the first when it finds nothing in the second.
proof fn lemma_shallower_suffix(x: Seq<Line>, y: Seq<Line>, indent: usize, below: int)
    requires
        0 <= below <= y.len(),
    ensures
        last_shallower(x + y, indent, x.len() + below) == if last_shallower(y, indent, below)
            >= 0 {
            x.len() + last_shallower(y, indent, below)
        } else {
            last_shallower(x, indent, x.len() as int)
        },
    decreases below,
{
    if below > 0 {
        assert((x + y)[x.len() + below - 1] == y[below - 1]);
        lemma_shallower_suffix(x, y, indent, below - 1);
    } else {
        lemma_shallower_prefix(x, y, indent, x.len() as int);
    }
}

/// The search for a shallower line finds nothing where no line is
/// shallower.
proof fn lemma_shallower_none(x: Seq<Line>, indent: usize, below: int)
    requires
        at_least(x, indent as int),
        0 <= below <= x.len(),
    ensures
        last_shallower(x, indent, below) == -1,
    decreases below,
{
    if below > 0 {
        lemma_shallower_none(x, indent, below - 1);
    }
}

/// In the outline of a subtree the search for a shallower line finds the
/// `Start` line of the parent.
pub proof fn lemma_flatten_node_enclosed(
    nodes: Seq<NodeView>,
    folded: Set<usize>,
    node: int,
    indent: int,
)
    requires
        well_formed(nodes),
        0 <= node < nodes.len(),
        0 <= indent,
        indent + nodes[node].size <= usize::MAX,
    ensures
        enclosed(nodes, flatten_node(nodes, folded, node, indent), indent),
    decreases nodes[node].size, 0int,
{
    let size = nodes[node].size as int;
    let all = flatten_node(nodes, folded, node, indent);
    lemma_flatten_node_nested(nodes, folded, node, indent);
    if folded.contains(node as usize) || size <= 1 {
        assert(all =~= seq![line(node, indent, LineKind::Whole)]);
        assert forall|c: int| 0 <= c < all.len() implies #[trigger] parent_found(
            nodes,
            all,
            indent,
            c,
        ) by {
            lemma_shallower_none(all, indent as usize, c);
        }
    } else {
        let open = seq![line(node, indent, LineKind::Start)];
        let inner = flatten_children(nodes, folded, node + 1, node + size, indent + 1);
        let close = seq![line(node, indent, LineKind::End)];
        lemma_flatten_children_enclosed(nodes, folded, node + 1, node + size, indent + 1);
        lemma_flatten_children_nested(nodes, folded, node + 1, node + size, indent + 1);
        lemma_flatten_children_within(nodes, folded, node + 1, node + size, indent + 1);
        assert(all == (open + inner) + close);
        assert forall|c: int| 0 <= c < all.len() implies #[trigger] parent_found(
            nodes,
            all,
            indent,
            c,
        ) by {
            if c == 0 || c == all.len() - 1 {
                assert(all[0] == open[0]);
                assert(all[all.len() - 1] == close[0]);
                lemma_shallower_none(all, indent as usize, c);
            } else {
                let k = c - 1;
                let depth = inner[k].indent;
                assert(all[c] == inner[k]);
                assert(parent_found(nodes, inner, indent + 1, k));
                lemma_shallower_prefix(open + inner, close, depth, c);
                lemma_shallower_suffix(open, inner, depth, k);
                let within = last_shallower(inner, depth, k);
                if within >= 0 {
                    assert(all[1 + within] == inner[within]);
                } else {
                    assert(all[0] == open[0]);
                    assert(open[0].indent < depth);
                }
            }
        }
    }
}

/// In the outline of a run of sibling subtrees the search for a shallower
/// line finds the `Start` line of the parent, if that is in the run.
pub proof fn lemma_flatten_children_enclosed(
    nodes: Seq<NodeView>,
    folded: Set<usize>,
    from: int,
    to: int,
    indent: int,
)
    requires
        well_formed(nodes),
        0 <= from,
        to <= nodes.len(),
        0 <= indent,
        indent + (to - from) <= usize::MAX,
    ensures
        enclosed(nodes, flatten_children(nodes, folded, from, to, indent), indent),
    decreases to - from, 1int,
{
    let size = nodes[from].size as int;
    if from >= to || size < 1 || from + size > to {
    } else {
        let head = flatten_node(nodes, folded, from, indent);
        let tail = flatten_children(nodes, folded, from + size, to, indent);
        let all = head + tail;
        lemma_flatten_node_enclosed(nodes, folded, from, indent);
        lemma_flatten_children_enclosed(nodes, folded, from + size, to, indent);
        lemma_flatten_node_nested(nodes, folded, from, indent);
        assert forall|c: int| 0 <= c < all.len() implies #[trigger] parent_found(
            nodes,
            all,
            indent,
            c,
        ) by {
            if c < head.len() {
                let depth = head[c].indent;
                assert(all[c] == head[c]);
                assert(parent_found(nodes, head, indent, c));
                lemma_shallower_prefix(head, tail, depth, c);
                let within = last_shallower(head, depth, c);
                if within >= 0 {
                    assert(all[within] == head[within]);
                }
            } else {
                let k = c - head.len();
                let depth = tail[k].indent;
                assert(all[c] == tail[k]);
                assert(parent_found(nodes, tail, indent, k));
                lemma_shallower_suffix(head, tail, depth, k);
                let within = last_shallower(tail, depth, k);
                if within >= 0 {
                    assert(all[head.len() + within] == tail[within]);
                } else {
                    lemma_shallower_none(head, depth, head.len() as int);
                }
            }
        }
    }
}

/// On the outline of a whole tree the parent step agrees with the tree:
/// from a line of the root the cursor stays, and from any other line it
/// goes to the `Start` line, one less deep, of a node above the line's
/// node, which is the node's parent.
pub proof fn lemma_parent_step(nodes: Seq<NodeView>, folded: Set<usize>, cursor: int)
    requires
        well_formed(nodes),
        0 <= cursor < flatten_node(nodes, folded, 0, 0).len(),
    ensures
        ({
            let lines = flatten_node(nodes, folded, 0, 0);
            let target = parent_target(lines, cursor);
            if lines[cursor].indent == 0 {
                target == cursor
            } else {
                &&& 0 <= target < cursor
                &&& lines[target].kind == LineKind::Start
                &&& lines[target].indent + 1 == lines[cursor].indent
                &&& is_ancestor(nodes, lines[target].node as int, lines[cursor].node as int)
            }
        }),
{
    let lines = flatten_node(nodes, folded, 0, 0);
    lemma_flatten_node_enclosed(nodes, folded, 0, 0);
    assert(parent_found(nodes, lines, 0, cursor));
}

/// What follows the line at index `c` in an outline: the first line of the
/// first child, one deeper, behind a `Start` line, and no deeper line
/// behind any other.
pub open spec fn next_fits(lines: Seq<Line>, c: int) -> bool {
    if lines[c].kind == LineKind::Start {
        &&& c + 1 < lines.len()
        &&& lines[c + 1].node == lines[c].node + 1
        &&& lines[c + 1].indent == lines[c].indent + 1
        &&& lines[c + 1].kind != LineKind::End
    } else {
        c + 1 < lines.len() ==> lines[c + 1].indent <= lines[c].indent
    }
}

/// Every line of the outline is followed as `next_fits` says.
pub open spec fn stepwise(lines: Seq<Line>) -> bool {
    forall|c: int| 0 <= c < lines.len() ==> #[trigger] next_fits(lines, c)
}

/// The outline begins with a line that opens `node` at depth `indent` and
/// ends with a line at depth `indent` that opens nothing.
pub open spec fn bounded(lines: Seq<Line>, node: int, indent: int) -> bool {
    &&& lines.len() >= 1
    &&& lines.first().node == node
    &&& lines.first().indent == indent
    &&& lines.first().kind != LineKind::End
    &&& lines.last().indent == indent
    &&& lines.last().kind != LineKind::Start
}

/// Two outlines that are stepwise, put together, are stepwise when the
/// first ends with a line that opens nothing and the second begins no
/// deeper than the first ends.
proof fn lemma_stepwise_concat(x: Seq<Line>, y: Seq<Line>)
    requires
        stepwise(x),
        stepwise(y),
        x.len() >= 1,
        x.last().kind != LineKind::Start,
        y.len() >= 1 ==> y.first().indent <= x.last().indent,
    ensures
        stepwise(x + y),
{
    let z = x + y;
    assert forall|c: int| 0 <= c < z.len() implies #[trigger] next_fits(z, c) by {
        if c < x.len() {
            assert(z[c] == x[c]);
            assert(next_fits(x, c));
            if c + 1 < x.len() {
                assert(z[c + 1] == x[c + 1]);
            } else if c + 1 < z.len() {
                assert(z[c + 1] == y[0]);
            }
        } else {
            let k = c - x.len();
            assert(z[c] == y[k]);
            assert(next_fits(y, k));
            if c + 1 < z.len() {
                assert(z[c + 1] == y[k + 1]);
            }
        }
    }
}

/// The outline of a subtree is stepwise.
pub proof fn lemma_flatten_node_stepwise(
    nodes: Seq<NodeView>,
    folded: Set<usize>,
    node: int,
    indent: int,
)
    requires
        well_formed(nodes),
        0 <= node < nodes.len(),
        0 <= indent,
        indent + nodes[node].size <= usize::MAX,
    ensures
        stepwise(flatten_node(nodes, folded, node, indent)),
        bounded(flatten_node(nodes, folded, node, indent), node, indent),
    decreases nodes[node].size, 0int,
{
    let size = nodes[node].size as int;
    let all = flatten_node(nodes, folded, node, indent);
    if folded.contains(node as usize) || size <= 1 {
        assert(all =~= seq![line(node, indent, LineKind::Whole)]);
    } else {
        let open = seq![line(node, indent, LineKind::Start)];
        let inner = flatten_children(nodes, folded, node + 1, node + size, indent + 1);
        let close = seq![line(node, indent, LineKind::End)];
        lemma_flatten_children_stepwise(nodes, folded, node + 1, node + size, indent + 1);
        assert(all == (open + inner) + close);
        let front = open + inner;
        assert(front[0] == open[0]);
        assert(front[1] == inner[0]);
        assert(front.last() == inner.last());
        assert forall|c: int| 0 <= c < front.len() implies #[trigger] next_fits(front, c) by {
            if c > 0 {
                let k = c - 1;
                assert(front[c] == inner[k]);
                assert(next_fits(inner, k));
                if c + 1 < front.len() {
                    assert(front[c + 1] == inner[k + 1]);
                }
            }
        }
        assert(stepwise(close));
        lemma_stepwise_concat(front, close);
        assert(all[0] == open[0]);
        assert(all.last() == close[0]);
    }
}

/// The outline of a run of sibling subtrees that fills its range is
/// stepwise.
pub proof fn lemma_flatten_children_stepwise(
    nodes: Seq<NodeView>,
    folded: Set<usize>,
    from: int,
    to: int,
    indent: int,
)
    requires
        well_formed(nodes),
        0 < from < to <= nodes.len(),
        forall|j: int| from <= j < to ==> j + (#[trigger] nodes[j]).size <= to,
        0 <= indent,
        indent + (to - from) <= usize::MAX,
    ensures
        stepwise(flatten_children(nodes, folded, from, to, indent)),
        bounded(flatten_children(nodes, folded, from, to, indent), from, indent),
    decreases to - from, 1int,
{
    let size = nodes[from].size as int;
    assert(from + nodes[from].size <= to);
    let head = flatten_node(nodes, folded, from, indent);
    let tail = flatten_children(nodes, folded, from + size, to, indent);
    let all = head + tail;
    lemma_flatten_node_stepwise(nodes, folded, from, indent);
    assert(all[0] == head[0]);
    if from + size < to {
        lemma_flatten_children_stepwise(nodes, folded, from + size, to, indent);
        lemma_stepwise_concat(head, tail);
        assert(all.last() == tail.last());
    } else {
        assert(tail =~= Seq::empty());
        assert(all =~= head);
    }
}

/// On the outline of a whole tree the step into the children agrees with
/// the tree: from a `Start` line the cursor goes to the next line, which
/// begins the first child one level deeper, and from any other line it
/// stays.
pub proof fn lemma_child_step(nodes: Seq<NodeView>, folded: Set<usize>, cursor: int)
    requires
        well_formed(nodes),
        0 <= cursor < flatten_node(nodes, folded, 0, 0).len(),
    ensures
        ({
            let lines = flatten_node(nodes, folded, 0, 0);
            let target = child_target(lines, cursor);
            if lines[cursor].kind == LineKind::Start {
                &&& target == cursor + 1 < lines.len()
                &&& lines[target].node == lines[cursor].node + 1
                &&& lines[target].indent == lines[cursor].indent + 1
                &&& lines[target].kind != LineKind::End
            } else {
                target == cursor
            }
        }),
{
    let lines = flatten_node(nodes, folded, 0, 0);
    lemma_flatten_node_stepwise(nodes, folded, 0, 0);
    assert(next_fits(lines, cursor));
}

/// What the search for the next line that is not deeper finds from the
/// line at index `c`: the end of the outline, a shallower line, or the
/// first line of the node that follows the subtree of the line's node, at
/// the same depth.
pub open spec fn sibling_found(nodes: Seq<NodeView>, lines: Seq<Line>, c: int) -> bool {
    let indent = lines[c].indent;
    let found = next_not_deeper(lines, indent, c + 1);
    ||| found == lines.len()
    ||| (c < found < lines.len() && lines[found].indent < indent)
    ||| (c < found < lines.len() && lines[found].indent == indent && lines[found].kind
        != LineKind::End && lines[found].node == lines[c].node + nodes[lines[c].node as int].size)
}

/// From every line of the outline the search for the next line that is
/// not deeper finds what `sibling_found` says.
pub open spec fn skipping(nodes: Seq<NodeView>, lines: Seq<Line>) -> bool {
    forall|c: int| 0 <= c < lines.len() ==> #[trigger] sibling_found(nodes, lines, c)
}

/// Every line at depth `indent` stands for `node`.
pub open spec fn top_is(lines: Seq<Line>, node: int, indent: int) -> bool {
    forall|c: int| 0 <= c < lines.len() && (#[trigger] lines[c]).indent == indent ==> lines[c].node
        == node
}

/// The search for the next line that is not deeper, begun in the second
/// of two outlines put together, stays in the second.
proof fn lemma_deeper_suffix(x: Seq<Line>, y: Seq<Line>, indent: usize, from: int)
    requires
        0 <= from <= y.len(),
    ensures
        next_not_deeper(x + y, indent, x.len() + from) == x.len() + next_not_deeper(
            y,
            indent,
            from,
        ),
    decreases y.len() - from,
{
    if from < y.len() {
        assert((x + y)[x.len() + from] == y[from]);
        lemma_deeper_suffix(x, y, indent, from + 1);
    }
}

/// The search for the next line that is not deeper, begun in the first of
/// two outlines put together, goes on in the second when it finds nothing
/// in the first.
proof fn lemma_deeper_prefix(x: Seq<Line>, y: Seq<Line>, indent: usize, from: int)
    requires
        0 <= from <= x.len(),
    ensures
        next_not_deeper(x + y, indent, from) == if next_not_deeper(x, indent, from) < x.len() {
            next_not_deeper(x, indent, from)
        } else {
            x.len() + next_not_deeper(y, indent, 0)
        },
    decreases x.len() - from,
{
    if from < x.len() {
        assert((x + y)[from] == x[from]);
        lemma_deeper_prefix(x, y, indent, from + 1);
    } else {
        lemma_deeper_suffix(x, y, indent, 0);
    }
}

/// The search for the next line that is not deeper passes over lines that
/// are deeper.
proof fn lemma_deeper_pass(x: Seq<Line>, indent: usize, from: int)
    requires
        0 <= from <= x.len(),
        at_least(x, indent + 1),
    ensures
        next_not_deeper(x, indent, from) == x.len(),
    decreases x.len() - from,
{
    if from < x.len() {
        lemma_deeper_pass(x, indent, from + 1);
    }
}

/// In the outline of a subtree the search for the next line that is not
/// deeper finds the first line of the next sibling.
pub proof fn lemma_flatten_node_skipping(
    nodes: Seq<NodeView>,
    folded: Set<usize>,
    node: int,
    indent: int,
)
    requires
        well_formed(nodes),
        0 <= node < nodes.len(),
        0 <= indent,
        indent + nodes[node].size <= usize::MAX,
    ensures
        skipping(nodes, flatten_node(nodes, folded, node, indent)),
        top_is(flatten_node(nodes, folded, node, indent), node, indent),
    decreases nodes[node].size, 0int,
{
    let size = nodes[node].size as int;
    let all = flatten_node(nodes, folded, node, indent);
    let depth = indent as usize;
    if folded.contains(node as usize) || size <= 1 {
        assert(all =~= seq![line(node, indent, LineKind::Whole)]);
        assert(next_not_deeper(all, depth, 1) == 1);
        assert(sibling_found(nodes, all, 0));
    } else {
        let open = seq![line(node, indent, LineKind::Start)];
        let inner = flatten_children(nodes, folded, node + 1, node + size, indent + 1);
        let close = seq![line(node, indent, LineKind::End)];
        let front = open + inner;
        lemma_flatten_children_skipping(nodes, folded, node + 1, node + size, indent + 1);
        lemma_flatten_children_nested(nodes, folded, node + 1, node + size, indent + 1);
        assert(all == front + close);
        assert(all[0] == open[0]);
        assert(all[all.len() - 1] == close[0]);
        assert(next_not_deeper(close, depth, 0) == 1) by {
            assert(next_not_deeper(close, depth, 1) == 1);
        }
        lemma_deeper_pass(inner, depth, 0);
        lemma_deeper_suffix(open, inner, depth, 0);
        lemma_deeper_prefix(front, close, depth, 1);
        assert(next_not_deeper(all, depth, 1) == all.len());
        assert(next_not_deeper(all, depth, all.len() as int) == all.len());
        assert forall|c: int| 0 <= c < all.len() implies #[trigger] sibling_found(
            nodes,
            all,
            c,
        ) by {
            if 0 < c < all.len() - 1 {
                let k = c - 1;
                let at = inner[k].indent;
                assert(all[c] == inner[k]);
                assert(sibling_found(nodes, inner, k));
                lemma_deeper_suffix(open, inner, at, k + 1);
                lemma_deeper_prefix(front, close, at, c + 1);
                let within = next_not_deeper(inner, at, k + 1);
                if within < inner.len() {
                    assert(all[1 + within] == inner[within]);
                } else {
                    assert(next_not_deeper(close, at, 0) == 0);
                }
            }
        }
        assert forall|c: int| 0 <= c < all.len() && (#[trigger] all[c]).indent
            == indent implies all[c].node == node by {
            if 0 < c < all.len() - 1 {
                assert(all[c] == inner[c - 1]);
            }
        }
    }
}

/// In the outline of a run of sibling subtrees that fills its range the
/// search for the next line that is not deeper finds the first line of the
/// next sibling.
pub proof fn lemma_flatten_children_skipping(
    nodes: Seq<NodeView>,
    folded: Set<usize>,
    from: int,
    to: int,
    indent: int,
)
    requires
        well_formed(nodes),
        0 < from < to <= nodes.len(),
        forall|j: int| from <= j < to ==> j + (#[trigger] nodes[j]).size <= to,
        0 <= indent,
        indent + (to - from) <= usize::MAX,
    ensures
        skipping(nodes, flatten_children(nodes, folded, from, to, indent)),
    decreases to - from, 1int,
{
    let size = nodes[from].size as int;
    assert(from + nodes[from].size <= to);
    let head = flatten_node(nodes, folded, from, indent);
    let tail = flatten_children(nodes, folded, from + size, to, indent);
    let all = head + tail;
    lemma_flatten_node_skipping(nodes, folded, from, indent);
    lemma_flatten_node_nested(nodes, folded, from, indent);
    if from + size < to {
        lemma_flatten_children_skipping(nodes, folded, from + size, to, indent);
        lemma_flatten_children_stepwise(nodes, folded, from + size, to, indent);
        assert forall|c: int| 0 <= c < all.len() implies #[trigger] sibling_found(
            nodes,
            all,
            c,
        ) by {
            if c < head.len() {
                let at = head[c].indent;
                assert(all[c] == head[c]);
                assert(sibling_found(nodes, head, c));
                lemma_deeper_prefix(head, tail, at, c + 1);
                let within = next_not_deeper(head, at, c + 1);
                if within < head.len() {
                    assert(all[within] == head[within]);
                } else {
                    assert(all[head.len() as int] == tail[0]);
                    assert(next_not_deeper(tail, at, 0) == 0);
                }
            } else {
                let k = c - head.len();
                let at = tail[k].indent;
                assert(all[c] == tail[k]);
                assert(sibling_found(nodes, tail, k));
                lemma_deeper_suffix(head, tail, at, k + 1);
                let within = next_not_deeper(tail, at, k + 1);
                if within < tail.len() {
                    assert(all[head.len() + within] == tail[within]);
                }
            }
        }
    } else {
        assert(tail =~= Seq::empty());
        assert(all =~= head);
    }
}

/// On the outline of a whole tree the step to the next sibling agrees with
/// the tree: the cursor stays, or it goes down to a line that begins, at
/// the same depth, the node that follows the subtree of the cursor's node,
/// which is its next sibling.
pub proof fn lemma_sibling_step(nodes: Seq<NodeView>, folded: Set<usize>, cursor: int)
    requires
        well_formed(nodes),
        0 <= cursor < flatten_node(nodes, folded, 0, 0).len(),
    ensures
        ({
            let lines = flatten_node(nodes, folded, 0, 0);
            let target = sibling_target(lines, cursor);
            ||| target == cursor
            ||| {
                &&& cursor < target < lines.len()
                &&& lines[target].indent == lines[cursor].indent
                &&& lines[target].kind != LineKind::End
                &&& lines[target].node == lines[cursor].node + nodes[lines[cursor].node as int].size
            }
        }),
{
    let lines = flatten_node(nodes, folded, 0, 0);
    lemma_flatten_node_skipping(nodes, folded, 0, 0);
    assert(sibling_found(nodes, lines, cursor));
}

} // verus!
