//! Well-nestedness of an outline: `Start` and `End` lines pair up like
//! matched brackets and never cross.

use crate::outline::{flatten_children, flatten_node, line, Line, LineKind};
use crate::tree::{well_formed, NodeView};
use vstd::prelude::*;

verus! {

/// The `Start` line at index `a` and the `End` line at index `b` belong
/// together: `b` comes later, both stand for the same node at the same
/// depth, and every line between them lies deeper.
pub open spec fn matched(lines: Seq<Line>, a: int, b: int) -> bool {
    &&& 0 <= a < b < lines.len()
    &&& lines[a].kind == LineKind::Start
    &&& lines[b].kind == LineKind::End
    &&& lines[b].node == lines[a].node
    &&& lines[b].indent == lines[a].indent
    &&& forall|k: int| a < k < b ==> (#[trigger] lines[k]).indent > lines[a].indent
}

/// The line at index `a` is a `Start` line that has its `End` line.
pub open spec fn has_end(lines: Seq<Line>, a: int) -> bool {
    exists|b: int| matched(lines, a, b)
}

/// The line at index `b` is an `End` line that has its `Start` line.
pub open spec fn has_start(lines: Seq<Line>, b: int) -> bool {
    exists|a: int| matched(lines, a, b)
}

/// Every `Start` line has its `End` line and every `End` line its `Start`
/// line.
pub open spec fn well_nested(lines: Seq<Line>) -> bool {
    &&& forall|a: int|
        0 <= a < lines.len() && lines[a].kind == LineKind::Start ==> #[trigger] has_end(lines, a)
    &&& forall|b: int|
        0 <= b < lines.len() && lines[b].kind == LineKind::End ==> #[trigger] has_start(lines, b)
}

/// No line of `lines` is indented less than `depth`.
pub open spec fn at_least(lines: Seq<Line>, depth: int) -> bool {
    forall|k: int| 0 <= k < lines.len() ==> (#[trigger] lines[k]).indent >= depth
}

/// A pair that is matched in `x` is matched in `x + y`.
proof fn lemma_matched_left(x: Seq<Line>, y: Seq<Line>, a: int, b: int)
    requires
        matched(x, a, b),
    ensures
        matched(x + y, a, b),
{
    let z = x + y;
    assert(z[a] == x[a]);
    assert(z[b] == x[b]);
    assert forall|k: int| a < k < b implies (#[trigger] z[k]).indent > z[a].indent by {
        assert(z[k] == x[k]);
    }
}

/// A pair that is matched in `y` is matched, shifted, in `x + y`.
proof fn lemma_matched_right(x: Seq<Line>, y: Seq<Line>, a: int, b: int)
    requires
        matched(y, a, b),
    ensures
        matched(x + y, a + x.len(), b + x.len()),
{
    let z = x + y;
    let n = x.len() as int;
    assert(z[a + n] == y[a]);
    assert(z[b + n] == y[b]);
    assert forall|k: int| a + n < k < b + n implies (#[trigger] z[k]).indent > z[a + n].indent by {
        assert(z[k] == y[k - n]);
    }
}

/// Two well-nested outlines, one after the other, are well nested.
pub proof fn lemma_well_nested_concat(x: Seq<Line>, y: Seq<Line>)
    requires
        well_nested(x),
        well_nested(y),
    ensures
        well_nested(x + y),
{
    let z = x + y;
    let n = x.len() as int;
    assert forall|a: int| 0 <= a < z.len() && z[a].kind == LineKind::Start implies #[trigger] has_end(
        z,
        a,
    ) by {
        if a < n {
            assert(z[a] == x[a]);
            assert(has_end(x, a));
            let b = choose|b: int| matched(x, a, b);
            lemma_matched_left(x, y, a, b);
        } else {
            assert(z[a] == y[a - n]);
            let inner = a - n;
            assert(has_end(y, inner));
            let b = choose|b: int| matched(y, inner, b);
            lemma_matched_right(x, y, inner, b);
            assert(matched(z, a, b + n));
        }
    }
    assert forall|b: int| 0 <= b < z.len() && z[b].kind == LineKind::End implies #[trigger] has_start(
        z,
        b,
    ) by {
        if b < n {
            assert(z[b] == x[b]);
            assert(has_start(x, b));
            let a = choose|a: int| matched(x, a, b);
            lemma_matched_left(x, y, a, b);
        } else {
            assert(z[b] == y[b - n]);
            let inner = b - n;
            assert(has_start(y, inner));
            let a = choose|a: int| matched(y, a, inner);
            lemma_matched_right(x, y, a, inner);
            assert(matched(z, a + n, b));
        }
    }
}

/// A well-nested outline stays well nested when it is put between the
/// `Start` and `End` lines of a node that lies less deep than all of it.
pub proof fn lemma_well_nested_wrap(inner: Seq<Line>, node: usize, indent: usize)
    requires
        well_nested(inner),
        at_least(inner, indent + 1),
    ensures
        well_nested(
            seq![Line { node, indent, kind: LineKind::Start }] + inner + seq![
                Line { node, indent, kind: LineKind::End },
            ],
        ),
{
    let open = seq![Line { node, indent, kind: LineKind::Start }];
    let close = seq![Line { node, indent, kind: LineKind::End }];
    let z = open + inner + close;
    let last = z.len() - 1;
    assert(z[0] == open[0]);
    assert(z[last] == close[0]);
    assert forall|k: int| 0 < k < last implies (#[trigger] z[k]).indent > indent by {
        assert(z[k] == inner[k - 1]);
    }
    assert(matched(z, 0, last));
    assert forall|a: int| 0 <= a < z.len() && z[a].kind == LineKind::Start implies #[trigger] has_end(
        z,
        a,
    ) by {
        if 0 < a {
            assert(z[a] == inner[a - 1]);
            let within = a - 1;
            assert(has_end(inner, within));
            let b = choose|b: int| matched(inner, within, b);
            lemma_matched_right(open, inner, within, b);
            lemma_matched_left(open + inner, close, a, b + 1);
        }
    }
    assert forall|b: int| 0 <= b < z.len() && z[b].kind == LineKind::End implies #[trigger] has_start(
        z,
        b,
    ) by {
        if b < last {
            assert(z[b] == inner[b - 1]);
            let within = b - 1;
            assert(has_start(inner, within));
            let a = choose|a: int| matched(inner, a, within);
            lemma_matched_right(open, inner, a, within);
            lemma_matched_left(open + inner, close, a + 1, b);
        }
    }
}

/// The outline of a subtree is well nested, lies at depth `indent` or
/// deeper, and begins and ends with a line of the subtree's root at depth
/// `indent`.
pub proof fn lemma_flatten_node_nested(
    nodes: Seq<NodeView>,
    folded: Set<usize>,
    node: int,
    indent: int,
)
    requires
        well_formed(nodes),
        0 <= node < nodes.len(),
        0 <= indent,
        indent + nodes[node].size <= usize::MAX,
    ensures
        well_nested(flatten_node(nodes, folded, node, indent)),
        at_least(flatten_node(nodes, folded, node, indent), indent),
        flatten_node(nodes, folded, node, indent).len() >= 1,
        flatten_node(nodes, folded, node, indent).first().node == node,
        flatten_node(nodes, folded, node, indent).first().indent == indent,
        flatten_node(nodes, folded, node, indent).last().node == node,
        flatten_node(nodes, folded, node, indent).last().indent == indent,
    decreases nodes[node].size, 0int,
{
    let size = nodes[node].size as int;
    let all = flatten_node(nodes, folded, node, indent);
    if folded.contains(node as usize) || size <= 1 {
        assert(all =~= seq![line(node, indent, LineKind::Whole)]);
    } else {
        let inner = flatten_children(nodes, folded, node + 1, node + size, indent + 1);
        lemma_flatten_children_nested(nodes, folded, node + 1, node + size, indent + 1);
        lemma_well_nested_wrap(inner, node as usize, indent as usize);
        let open = seq![line(node, indent, LineKind::Start)];
        let close = seq![line(node, indent, LineKind::End)];
        assert(all == open + inner + close);
        assert(all[0] == open[0]);
        assert(all[all.len() - 1] == close[0]);
        assert forall|k: int| 0 <= k < all.len() implies (#[trigger] all[k]).indent >= indent by {
            if 0 < k < all.len() - 1 {
                assert(all[k] == inner[k - 1]);
            }
        }
    }
}

/// The outline of a run of sibling subtrees is well nested and lies at
/// depth `indent` or deeper.
pub proof fn lemma_flatten_children_nested(
    nodes: Seq<NodeView>,
    folded: Set<usize>,
    from: int,
    to: int,
    indent: int,
)
    requires
        well_formed(nodes),
        0 <= from,
        to <= nodes.len(),
        0 <= indent,
        indent + (to - from) <= usize::MAX,
    ensures
        well_nested(flatten_children(nodes, folded, from, to, indent)),
        at_least(flatten_children(nodes, folded, from, to, indent), indent),
    decreases to - from, 1int,
{
    let size = nodes[from].size as int;
    if from >= to || size < 1 || from + size > to {
    } else {
        let head = flatten_node(nodes, folded, from, indent);
        let tail = flatten_children(nodes, folded, from + size, to, indent);
        lemma_flatten_node_nested(nodes, folded, from, indent);
        lemma_flatten_children_nested(nodes, folded, from + size, to, indent);
        lemma_well_nested_concat(head, tail);
        let all = head + tail;
        assert forall|k: int| 0 <= k < all.len() implies (#[trigger] all[k]).indent >= indent by {
            if k < head.len() {
                assert(all[k] == head[k]);
            } else {
                assert(all[k] == tail[k - head.len()]);
            }
        }
    }
}

/// Every line of `lines` stands for a node in the index range `[from, to)`.
pub open spec fn nodes_within(lines: Seq<Line>, from: int, to: int) -> bool {
    forall|k: int| 0 <= k < lines.len() ==> from <= (#[trigger] lines[k]).node < to
}

/// The outline of a subtree speaks of the nodes of that subtree only.
pub proof fn lemma_flatten_node_within(
    nodes: Seq<NodeView>,
    folded: Set<usize>,
    node: int,
    indent: int,
)
    requires
        0 <= node,
        1 <= nodes[node].size,
        node + nodes[node].size <= usize::MAX,
    ensures
        nodes_within(flatten_node(nodes, folded, node, indent), node, node + nodes[node].size),
    decreases nodes[node].size, 0int,
{
    let size = nodes[node].size as int;
    let all = flatten_node(nodes, folded, node, indent);
    if folded.contains(node as usize) || size <= 1 {
    } else {
        let inner = flatten_children(nodes, folded, node + 1, node + size, indent + 1);
        lemma_flatten_children_within(nodes, folded, node + 1, node + size, indent + 1);
        assert forall|k: int| 0 <= k < all.len() implies node <= (#[trigger] all[k]).node < node
            + size by {
            if 0 < k < all.len() - 1 {
                assert(all[k] == inner[k - 1]);
            }
        }
    }
}

/// The outline of a run of sibling subtrees speaks of the nodes of that run
/// only.
pub proof fn lemma_flatten_children_within(
    nodes: Seq<NodeView>,
    folded: Set<usize>,
    from: int,
    to: int,
    indent: int,
)
    requires
        0 <= from,
        to <= usize::MAX,
    ensures
        nodes_within(flatten_children(nodes, folded, from, to, indent), from, to),
    decreases to - from, 1int,
{
    let size = nodes[from].size as int;
    if from >= to || size < 1 || from + size > to {
    } else {
        let head = flatten_node(nodes, folded, from, indent);
        let tail = flatten_children(nodes, folded, from + size, to, indent);
        lemma_flatten_node_within(nodes, folded, from, indent);
        lemma_flatten_children_within(nodes, folded, from + size, to, indent);
        let all = head + tail;
        assert forall|k: int| 0 <= k < all.len() implies from <= (#[trigger] all[k]).node < to by {
            if k < head.len() {
                assert(all[k] == head[k]);
            } else {
                assert(all[k] == tail[k - head.len()]);
            }
        }
    }
}

/// How many of the first `i` lines pass `keep`.
pub open spec fn kept_before(lines: Seq<Line>, keep: spec_fn(Line) -> bool, i: int) -> int {
    lines.take(i).filter(keep).len() as int
}

/// `keep` treats the lines of one node alike.
pub open spec fn by_node(keep: spec_fn(Line) -> bool) -> bool {
    forall|x: Line, y: Line| x.node == y.node ==> #[trigger] keep(x) == #[trigger] keep(y)
}

/// A line that passes the filter stands in the filtered list behind the
/// lines that pass before it.
proof fn lemma_kept_at(lines: Seq<Line>, keep: spec_fn(Line) -> bool, i: int)
    requires
        0 <= i < lines.len(),
        keep(lines[i]),
    ensures
        0 <= kept_before(lines, keep, i) < lines.filter(keep).len(),
        lines.filter(keep)[kept_before(lines, keep, i)] == lines[i],
        kept_before(lines, keep, i + 1) == kept_before(lines, keep, i) + 1,
{
    let head = lines.take(i);
    let upto = lines.take(i + 1);
    let rest = lines.skip(i + 1);
    assert(head.push(lines[i]) =~= upto);
    head.lemma_filter_push(lines[i], keep);
    assert(upto + rest =~= lines);
    Seq::filter_distributes_over_add(upto, rest, keep);
    assert(lines.filter(keep)[head.filter(keep).len() as int] == upto.filter(keep)[head.filter(
        keep,
    ).len() as int]);
}

/// The count of lines that pass grows with the index, and grows strictly
/// past a line that passes.
proof fn lemma_kept_monotone(lines: Seq<Line>, keep: spec_fn(Line) -> bool, i: int, j: int)
    requires
        0 <= i <= j <= lines.len(),
    ensures
        kept_before(lines, keep, i) <= kept_before(lines, keep, j),
        i < j && keep(lines[i]) ==> kept_before(lines, keep, i) < kept_before(lines, keep, j),
{
    let head = lines.take(i);
    let more = lines.subrange(i, j);
    assert(head + more =~= lines.take(j));
    Seq::filter_distributes_over_add(head, more, keep);
    if i < j && keep(lines[i]) {
        lemma_kept_at(lines, keep, i);
        let upto = lines.take(i + 1);
        let tail = lines.subrange(i + 1, j);
        assert(upto + tail =~= lines.take(j));
        Seq::filter_distributes_over_add(upto, tail, keep);
    }
}

/// Every line of the filtered list is a line of the list that passes the
/// filter; this gives its index there.
proof fn lemma_origin(lines: Seq<Line>, keep: spec_fn(Line) -> bool, k: int) -> (i: int)
    requires
        0 <= k < lines.filter(keep).len(),
    ensures
        0 <= i < lines.len(),
        keep(lines[i]),
        kept_before(lines, keep, i) == k,
        lines.filter(keep)[k] == lines[i],
    decreases lines.len(),
{
    reveal(Seq::filter);
    let front = lines.drop_last();
    let last = lines.len() - 1;
    assert(lines.take(last) =~= front);
    if keep(lines.last()) && k == front.filter(keep).len() {
        lemma_kept_at(lines, keep, last);
        last
    } else {
        let i = lemma_origin(front, keep, k);
        assert(lines.take(i) =~= front.take(i));
        assert(lines[i] == front[i]);
        lemma_kept_at(lines, keep, i);
        i
    }
}

/// A filter that treats the lines of one node alike keeps an outline well
/// nested.
pub proof fn lemma_filter_well_nested(lines: Seq<Line>, keep: spec_fn(Line) -> bool)
    requires
        well_nested(lines),
        by_node(keep),
    ensures
        well_nested(lines.filter(keep)),
{
    let kept = lines.filter(keep);
    assert forall|a: int| 0 <= a < kept.len() && kept[a].kind
        == LineKind::Start implies #[trigger] has_end(kept, a) by {
        let from = lemma_origin(lines, keep, a);
        assert(has_end(lines, from));
        let to = choose|b: int| matched(lines, from, b);
        assert(keep(lines[to]) == keep(lines[from]));
        lemma_kept_at(lines, keep, to);
        lemma_kept_monotone(lines, keep, from, to);
        let b = kept_before(lines, keep, to);
        lemma_between(lines, keep, from, to, a, b);
        assert(matched(kept, a, b));
    }
    assert forall|b: int| 0 <= b < kept.len() && kept[b].kind
        == LineKind::End implies #[trigger] has_start(kept, b) by {
        let to = lemma_origin(lines, keep, b);
        assert(has_start(lines, to));
        let from = choose|a: int| matched(lines, a, to);
        assert(keep(lines[from]) == keep(lines[to]));
        lemma_kept_at(lines, keep, from);
        lemma_kept_monotone(lines, keep, from, to);
        let a = kept_before(lines, keep, from);
        lemma_between(lines, keep, from, to, a, b);
        assert(matched(kept, a, b));
    }
}

/// The lines that the filter leaves between a matched pair lie deeper than
/// the pair.
proof fn lemma_between(
    lines: Seq<Line>,
    keep: spec_fn(Line) -> bool,
    from: int,
    to: int,
    a: int,
    b: int,
)
    requires
        matched(lines, from, to),
        keep(lines[from]),
        keep(lines[to]),
        a == kept_before(lines, keep, from),
        b == kept_before(lines, keep, to),
    ensures
        forall|k: int| a < k < b ==> (#[trigger] lines.filter(keep)[k]).indent > lines[from].indent,
{
    let kept = lines.filter(keep);
    lemma_kept_at(lines, keep, to);
    assert forall|k: int| a < k < b implies (#[trigger] kept[k]).indent > lines[from].indent by {
        let i = lemma_origin(lines, keep, k);
        if i <= from {
            lemma_kept_monotone(lines, keep, i, from);
        }
        if i >= to {
            lemma_kept_monotone(lines, keep, to, i);
        }
    }
}

} // verus!
