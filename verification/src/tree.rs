//! The parse tree that the navigator browses.
//!
//! A tree is stored as a flat arena in document order (a node comes before
//! its children, and the children follow each other left to right). Each
//! node records how many nodes its subtree holds, itself included, so the
//! subtree of the node at index `i` is exactly the index range
//! `[i, i + size)`. A node's identity is its index in the arena.

use vstd::prelude::*;

verus! {

/// A position in the source text: zero-based row and column.
#[derive(Clone, Copy, Debug, PartialEq, Eq, Structural)]
pub struct Point {
    pub row: usize,
    pub column: usize,
}

/// The stretch of source text that a node covers: the half-open byte range
/// `[start_byte, end_byte)` and the positions of its two ends.
#[derive(Clone, Copy, Debug, PartialEq, Eq, Structural)]
pub struct Span {
    pub start_byte: usize,
    pub end_byte: usize,
    pub start_point: Point,
    pub end_point: Point,
}

/// One node as it is stored in the arena.
#[derive(Debug)]
struct Entry {
    kind: String,
    span: Span,
    size: usize,
}

/// What a node is, mathematically: its kind label, the text it covers and
/// the number of nodes in its subtree (itself included).
pub ghost struct NodeView {
    pub kind: Seq<char>,
    pub span: Span,
    pub size: nat,
}

impl View for Entry {
    type V = NodeView;

    closed spec fn view(&self) -> NodeView {
        NodeView { kind: self.kind@, span: self.span, size: self.size as nat }
    }
}

/// An immutable parse tree.
#[derive(Debug)]
pub struct ParseTree {
    nodes: Vec<Entry>,
}

/// The arena `nodes` describes one tree: it is not empty, the first node is
/// the root and spans the whole arena, every subtree lies inside the arena,
/// and two subtrees are either nested or disjoint.
pub open spec fn well_formed(nodes: Seq<NodeView>) -> bool {
    &&& 0 < nodes.len() <= usize::MAX
    &&& nodes[0].size == nodes.len()
    &&& forall|i: int|
        0 <= i < nodes.len() ==> 1 <= (#[trigger] nodes[i]).size && i + nodes[i].size
            <= nodes.len()
    &&& forall|i: int, j: int|
        0 <= i < j < nodes.len() && j < i + (#[trigger] nodes[i]).size ==> j + (
        #[trigger] nodes[j]).size <= i + nodes[i].size
}

/// From index `from` on, every subtree of `nodes` lies inside the arena and
/// two subtrees are either nested or disjoint.
spec fn forest(nodes: Seq<NodeView>, from: int) -> bool {
    &&& forall|i: int|
        from <= i < nodes.len() ==> 1 <= (#[trigger] nodes[i]).size && i + nodes[i].size
            <= nodes.len()
    &&& forall|i: int, j: int|
        from <= i < j < nodes.len() && j < i + (#[trigger] nodes[i]).size ==> j + (
        #[trigger] nodes[j]).size <= i + nodes[i].size
}

/// The nodes below `node`: its children, their children, and so on.
pub open spec fn descendants(nodes: Seq<NodeView>, node: int) -> Set<usize> {
    Set::new(|j: usize| node < j < node + nodes[node].size)
}

/// The nodes of the sibling subtrees that fill the index range
/// `[from, to)`: for each subtree the nodes below its root, then the root.
pub open spec fn below_then_self(nodes: Seq<NodeView>, from: int, to: int) -> Seq<usize>
    decreases to - from,
{
    let size = nodes[from].size as int;
    if from >= to || size < 1 || from + size > to {
        Seq::empty()
    } else {
        below_then_self(nodes, from + 1, from + size) + seq![from as usize] + below_then_self(
            nodes,
            from + size,
            to,
        )
    }
}

/// A node whose subtree is being listed and that waits for its own turn.
struct Open {
    node: usize,
    end: usize,
}

/// Where the subtrees that the listing is walking through end: at the end
/// of the innermost open node, or of the whole range when none is open.
spec fn limit_of(stack: Seq<Open>, to: int) -> int {
    if stack.len() > 0 {
        stack.last().end as int
    } else {
        to
    }
}

/// What is still to be listed when the listing stands at index `at` with
/// the nodes of `stack` open, innermost last.
spec fn waiting(nodes: Seq<NodeView>, stack: Seq<Open>, at: int, to: int) -> Seq<usize>
    decreases stack.len(),
{
    if stack.len() == 0 {
        below_then_self(nodes, at, to)
    } else {
        let top = stack.last();
        below_then_self(nodes, at, top.end as int) + seq![top.node] + waiting(
            nodes,
            stack.drop_last(),
            top.end as int,
            to,
        )
    }
}

/// The open nodes are nested in each other, innermost last, all below
/// `above` and inside the range that ends at `to`, and the listing stands
/// in the innermost.
spec fn opened(nodes: Seq<NodeView>, stack: Seq<Open>, above: int, at: int, to: int) -> bool {
    &&& forall|k: int|
        0 <= k < stack.len() ==> {
            let f = #[trigger] stack[k];
            &&& above < f.node < nodes.len()
            &&& f.end == f.node + nodes[f.node as int].size
            &&& f.end <= to
        }
    &&& forall|k: int|
        1 <= k < stack.len() ==> (#[trigger] stack[k - 1]).node < stack[k].node && stack[k].end
            <= stack[k - 1].end
    &&& stack.len() > 0 ==> stack.last().node < at <= stack.last().end
}

/// What is still to be listed splits into the subtree at the listing's
/// position and what follows that subtree.
proof fn lemma_waiting_split(nodes: Seq<NodeView>, stack: Seq<Open>, at: int, to: int)
    requires
        at < limit_of(stack, to),
        1 <= nodes[at].size,
        at + nodes[at].size <= limit_of(stack, to),
    ensures
        waiting(nodes, stack, at, to) == below_then_self(nodes, at + 1, at + nodes[at].size)
            + seq![at as usize] + waiting(nodes, stack, at + nodes[at].size, to),
{
    let size = nodes[at].size as int;
    let limit = limit_of(stack, to);
    let head = below_then_self(nodes, at + 1, at + size) + seq![at as usize];
    assert(below_then_self(nodes, at, limit) == head + below_then_self(nodes, at + size, limit));
    if stack.len() > 0 {
        let tail = seq![stack.last().node] + waiting(nodes, stack.drop_last(), limit, to);
        assert(waiting(nodes, stack, at, to) =~= below_then_self(nodes, at, limit) + tail);
        assert(waiting(nodes, stack, at + size, to) =~= below_then_self(nodes, at + size, limit)
            + tail);
        assert((head + below_then_self(nodes, at + size, limit)) + tail =~= head + (
        below_then_self(nodes, at + size, limit) + tail));
    }
}

/// The listing of a range that sibling subtrees fill holds the nodes of
/// the range and no others.
pub proof fn lemma_below_holds(nodes: Seq<NodeView>, from: int, to: int, j: int)
    requires
        well_formed(nodes),
        0 <= from <= to <= nodes.len(),
        forall|k: int| from <= k < to ==> k + (#[trigger] nodes[k]).size <= to,
        0 <= j <= usize::MAX,
    ensures
        below_then_self(nodes, from, to).contains(j as usize) <==> from <= j < to,
    decreases to - from,
{
    let all = below_then_self(nodes, from, to);
    if from < to {
        let size = nodes[from].size as int;
        assert(from + nodes[from].size <= to);
        let below = below_then_self(nodes, from + 1, from + size);
        let own = seq![from as usize];
        let rest = below_then_self(nodes, from + size, to);
        lemma_below_holds(nodes, from + 1, from + size, j);
        lemma_below_holds(nodes, from + size, to, j);
        assert(all == below + own + rest);
        if all.contains(j as usize) {
            let i = choose|i: int| 0 <= i < all.len() && all[i] == j as usize;
            if i < below.len() {
                assert(below[i] == j as usize);
            } else if i == below.len() {
                assert(own[0] == j as usize);
            } else {
                assert(rest[i - below.len() - 1] == j as usize);
            }
        }
        if below.contains(j as usize) {
            let i = choose|i: int| 0 <= i < below.len() && below[i] == j as usize;
            assert(all[i] == j as usize);
        }
        if j == from {
            assert(all[below.len() as int] == j as usize);
        }
        if rest.contains(j as usize) {
            let i = choose|i: int| 0 <= i < rest.len() && rest[i] == j as usize;
            assert(all[below.len() + 1 + i] == j as usize);
        }
    }
}

/// The roots of the sibling subtrees that fill the index range
/// `[from, to)`, in order.
pub open spec fn children_in(nodes: Seq<NodeView>, from: int, to: int) -> Seq<usize>
    decreases to - from,
{
    let size = nodes[from].size as int;
    if from >= to || size < 1 || from + size > to {
        Seq::empty()
    } else {
        seq![from as usize] + children_in(nodes, from + size, to)
    }
}

/// The children of `node`, in order.
pub open spec fn children(nodes: Seq<NodeView>, node: int) -> Seq<usize> {
    children_in(nodes, node + 1, node + nodes[node].size)
}

/// The span from the start of one span to the end of another.
pub open spec fn span_ranges_spec(start: Span, end: Span) -> Span {
    Span {
        start_byte: start.start_byte,
        end_byte: end.end_byte,
        start_point: start.start_point,
        end_point: end.end_point,
    }
}

/// Goes from `node` down along first children to the first node whose
/// children cover less text than the node itself, and gives the span from
/// the start of its first child to the end of its last. There is none when
/// the descent ends at a node without children.
pub open spec fn smaller_child_range(nodes: Seq<NodeView>, node: int) -> Option<Span>
    decreases nodes[node].size,
{
    let kids = children(nodes, node);
    if nodes[node].size <= 1 || kids.len() == 0 {
        None
    } else {
        let own = nodes[node].span;
        let first = nodes[kids.first() as int].span;
        let last = nodes[kids.last() as int].span;
        if first.start_byte > own.start_byte || last.end_byte < own.end_byte {
            Some(span_ranges_spec(first, last))
        } else if nodes[node + 1].size < nodes[node].size {
            smaller_child_range(nodes, node + 1)
        } else {
            None
        }
    }
}

/// The span from the start of one span to the end of another.
pub fn span_ranges(start: Span, end: Span) -> (r: Span)
    ensures
        r == span_ranges_spec(start, end),
{
    Span {
        start_byte: start.start_byte,
        end_byte: end.end_byte,
        start_point: start.start_point,
        end_point: end.end_point,
    }
}

/// The arenas of `trees`, one after the other.
pub open spec fn concat_trees(trees: Seq<ParseTree>) -> Seq<NodeView>
    decreases trees.len(),
{
    if trees.len() == 0 {
        Seq::empty()
    } else {
        concat_trees(trees.drop_last()) + trees.last()@
    }
}

/// Every one of `parts` is there.
pub open spec fn all_there(parts: Seq<Option<ParseTree>>) -> bool {
    forall|i: int| 0 <= i < parts.len() ==> (#[trigger] parts[i]) is Some
}

/// The trees that `parts` hold, in order.
pub open spec fn taken(parts: Seq<Option<ParseTree>>) -> Seq<ParseTree> {
    parts.map_values(|part: Option<ParseTree>| part->0)
}

/// No node of the sibling subtrees that fill the index range `[from, to)`
/// has children at `depth` levels below the roots of these subtrees.
pub open spec fn no_deeper(nodes: Seq<NodeView>, from: int, to: int, depth: int) -> bool
    decreases to - from,
{
    let size = nodes[from].size as int;
    if from >= to || size < 1 || from + size > to {
        true
    } else {
        &&& size == 1 || (depth > 0 && no_deeper(nodes, from + 1, from + size, depth - 1))
        &&& no_deeper(nodes, from + size, to, depth)
    }
}

/// The tree is no higher than `depth`: no node with children lies `depth`
/// levels below the root.
pub open spec fn no_higher(nodes: Seq<NodeView>, depth: int) -> bool {
    no_deeper(nodes, 0, nodes.len() as int, depth)
}

/// The arena has a root that spans all of it.
pub open spec fn rooted(nodes: Seq<NodeView>) -> bool {
    nodes.len() >= 1 && nodes[0].size == nodes.len()
}

/// Arenas put one after the other.
pub open spec fn flat(blocks: Seq<Seq<NodeView>>) -> Seq<NodeView>
    decreases blocks.len(),
{
    if blocks.len() == 0 {
        Seq::empty()
    } else {
        flat(blocks.drop_last()) + blocks.last()
    }
}

/// The arenas of `trees`.
pub open spec fn views_of(trees: Seq<ParseTree>) -> Seq<Seq<NodeView>> {
    trees.map_values(|tree: ParseTree| tree@)
}

/// The arenas of trees, one after the other, are their arenas put one
/// after the other.
pub proof fn lemma_concat_is_flat(trees: Seq<ParseTree>)
    ensures
        concat_trees(trees) == flat(views_of(trees)),
    decreases trees.len(),
{
    if trees.len() > 0 {
        lemma_concat_is_flat(trees.drop_last());
        assert(views_of(trees).drop_last() =~= views_of(trees.drop_last()));
        assert(views_of(trees).last() == trees.last()@);
    }
}

/// The first `k` of some arenas, put one after the other, are the
/// beginning of all of them put one after the other.
pub proof fn lemma_flat_prefix(blocks: Seq<Seq<NodeView>>, k: int)
    requires
        0 <= k <= blocks.len(),
    ensures
        flat(blocks.take(k)).len() <= flat(blocks).len(),
        flat(blocks).subrange(0, flat(blocks.take(k)).len() as int) == flat(blocks.take(k)),
    decreases blocks.len() - k,
{
    if k == blocks.len() {
        assert(blocks.take(k) =~= blocks);
        assert(flat(blocks).subrange(0, flat(blocks).len() as int) =~= flat(blocks));
    } else {
        lemma_flat_prefix(blocks, k + 1);
        assert(blocks.take(k + 1).drop_last() =~= blocks.take(k));
        assert(blocks.take(k + 1).last() == blocks[k]);
        let longer = flat(blocks.take(k + 1));
        let shorter = flat(blocks.take(k));
        assert(longer == shorter + blocks[k]);
        assert(flat(blocks).subrange(0, shorter.len() as int) =~= flat(blocks).subrange(
            0,
            longer.len() as int,
        ).subrange(0, shorter.len() as int));
        assert(longer.subrange(0, shorter.len() as int) =~= shorter);
    }
}

/// Where in arenas put one after the other the arena at index `k` stands.
pub proof fn lemma_flat_block(blocks: Seq<Seq<NodeView>>, k: int)
    requires
        0 <= k < blocks.len(),
    ensures
        flat(blocks.take(k + 1)) == flat(blocks.take(k)) + blocks[k],
        flat(blocks.take(k)).len() + blocks[k].len() <= flat(blocks).len(),
        forall|i: int|
            0 <= i < blocks[k].len() ==> flat(blocks)[flat(blocks.take(k)).len() + i]
                == #[trigger] blocks[k][i],
{
    lemma_flat_prefix(blocks, k + 1);
    assert(blocks.take(k + 1).drop_last() =~= blocks.take(k));
    assert(blocks.take(k + 1).last() == blocks[k]);
    let longer = flat(blocks.take(k + 1));
    let shorter = flat(blocks.take(k));
    assert(longer == shorter + blocks[k]);
    assert forall|i: int| 0 <= i < blocks[k].len() implies flat(blocks)[shorter.len() + i]
        == #[trigger] blocks[k][i] by {
        assert(flat(blocks).subrange(0, longer.len() as int)[shorter.len() + i] == longer[
            shorter.len() + i
        ]);
    }
}

/// In a tree that is no higher than `depth + 1`, the subtrees of the
/// root's first `k` children, each with a root that spans it, are followed
/// by subtrees that go no deeper than `depth`.
proof fn lemma_walk_blocks(
    all: Seq<NodeView>,
    blocks: Seq<Seq<NodeView>>,
    k: int,
    depth: int,
)
    requires
        all.len() == 1 + flat(blocks).len(),
        all.subrange(1, all.len() as int) == flat(blocks),
        0 <= k <= blocks.len(),
        forall|i: int| 0 <= i < k ==> rooted(#[trigger] blocks[i]),
        no_deeper(all, 1, all.len() as int, depth),
    ensures
        no_deeper(all, 1 + flat(blocks.take(k)).len() as int, all.len() as int, depth),
    decreases k,
{
    if k == 0 {
        assert(blocks.take(0) =~= Seq::empty());
    } else {
        lemma_walk_blocks(all, blocks, k - 1, depth);
        lemma_flat_block(blocks, k - 1);
        let at = 1 + flat(blocks.take(k - 1)).len() as int;
        assert(rooted(blocks[k - 1]));
        assert(all[at] == flat(blocks)[at - 1]);
        assert(flat(blocks)[at - 1 + 0] == blocks[k - 1][0]);
    }
}

/// A tree with a child whose subtree is higher than `depth - 1` is higher
/// than `depth`.
pub proof fn lemma_deep_block(root: NodeView, blocks: Seq<Seq<NodeView>>, j: int, depth: int)
    requires
        root.size == 1 + flat(blocks).len(),
        0 <= j < blocks.len(),
        forall|i: int| 0 <= i <= j ==> rooted(#[trigger] blocks[i]),
        !no_higher(blocks[j], depth - 1),
    ensures
        !no_higher(seq![root] + flat(blocks), depth),
{
    let all = seq![root] + flat(blocks);
    let block = blocks[j];
    lemma_flat_block(blocks, j);
    assert(all[0] == root);
    assert(all.subrange(1, all.len() as int) =~= flat(blocks));
    if no_higher(all, depth) {
        assert(rooted(block));
        assert(depth > 0 && no_deeper(all, 1, all.len() as int, depth - 1));
        lemma_walk_blocks(all, blocks, j, depth - 1);
        let at = 1 + flat(blocks.take(j)).len() as int;
        assert(all[at] == flat(blocks)[at - 1]);
        assert(flat(blocks)[at - 1 + 0] == block[0]);
        assert forall|i: int| 0 <= i < block.len() implies all[at + i] == #[trigger] block[i] by {
            assert(all[at + i] == flat(blocks)[at - 1 + i]);
        }
        lemma_no_deeper_shift(all, block, at, 1, block.len() as int, depth - 2);
        assert(no_deeper(block, block.len() as int, block.len() as int, depth - 1));
        assert(no_higher(block, depth - 1));
    }
}

/// The arenas of some trees begin with the arena of the first.
pub proof fn lemma_concat_first(trees: Seq<ParseTree>)
    requires
        trees.len() > 0,
    ensures
        concat_trees(trees) == trees[0]@ + concat_trees(trees.drop_first()),
    decreases trees.len(),
{
    if trees.len() == 1 {
        assert(trees.drop_last() =~= Seq::empty());
        assert(trees.drop_first() =~= Seq::empty());
        assert(concat_trees(trees) =~= trees[0]@ + concat_trees(trees.drop_first()));
    } else {
        let front = trees.drop_last();
        let rest = trees.drop_first();
        lemma_concat_first(front);
        assert(rest.drop_last() =~= front.drop_first());
        assert(rest.last() == trees.last());
        assert(concat_trees(trees) =~= trees[0]@ + concat_trees(rest));
    }
}

/// How deep a range of subtrees goes does not depend on where in an arena
/// the range stands.
pub proof fn lemma_no_deeper_shift(
    whole: Seq<NodeView>,
    part: Seq<NodeView>,
    offset: int,
    from: int,
    to: int,
    depth: int,
)
    requires
        0 <= offset,
        offset + part.len() <= whole.len(),
        forall|i: int| 0 <= i < part.len() ==> whole[offset + i] == #[trigger] part[i],
        0 <= from <= to <= part.len(),
    ensures
        no_deeper(whole, offset + from, offset + to, depth) == no_deeper(part, from, to, depth),
    decreases to - from,
{
    if from < to {
        assert(whole[offset + from] == part[from]);
        let size = part[from].size as int;
        if size >= 1 && from + size <= to {
            lemma_no_deeper_shift(whole, part, offset, from + 1, from + size, depth - 1);
            lemma_no_deeper_shift(whole, part, offset, from + size, to, depth);
        }
    }
}

/// Trees that are no higher than `depth`, put one after the other, go no
/// deeper than `depth`.
pub proof fn lemma_forest_height(trees: Seq<ParseTree>, depth: int)
    requires
        forall|k: int|
            0 <= k < trees.len() ==> well_formed((#[trigger] trees[k])@) && no_higher(
                trees[k]@,
                depth,
            ),
    ensures
        no_deeper(concat_trees(trees), 0, concat_trees(trees).len() as int, depth),
    decreases trees.len(),
{
    let all = concat_trees(trees);
    if trees.len() > 0 {
        let first = trees[0]@;
        let rest = concat_trees(trees.drop_first());
        lemma_concat_first(trees);
        assert forall|k: int| 0 <= k < trees.drop_first().len() implies well_formed(
            (#[trigger] trees.drop_first()[k])@,
        ) && no_higher(trees.drop_first()[k]@, depth) by {
            assert(trees.drop_first()[k] == trees[k + 1]);
        }
        lemma_forest_height(trees.drop_first(), depth);
        assert(all == first + rest);
        assert(all[0] == first[0]);
        lemma_no_deeper_shift(all, first, 0, 1, first.len() as int, depth - 1);
        lemma_no_deeper_shift(all, rest, first.len() as int, 0, rest.len() as int, depth);
        assert(no_deeper(first, first.len() as int, first.len() as int, depth));
    }
}

/// A branch over trees that are no higher than `depth - 1` is no higher
/// than `depth`.
pub proof fn lemma_branch_height(root: NodeView, children: Seq<ParseTree>, depth: int)
    requires
        root.size == 1 + concat_trees(children).len(),
        children.len() > 0 ==> depth > 0,
        forall|k: int|
            0 <= k < children.len() ==> well_formed((#[trigger] children[k])@) && no_higher(
                children[k]@,
                depth - 1,
            ),
    ensures
        no_higher(seq![root] + concat_trees(children), depth),
{
    let below = concat_trees(children);
    let all = seq![root] + below;
    assert(all[0] == root);
    assert(no_deeper(all, all.len() as int, all.len() as int, depth));
    if children.len() > 0 {
        lemma_forest_height(children, depth - 1);
        lemma_no_deeper_shift(all, below, 1, 0, below.len() as int, depth - 1);
    } else {
        assert(below =~= Seq::empty());
    }
}

/// What the stored nodes are, each taken by its view.
spec fn views(nodes: Seq<Entry>) -> Seq<NodeView> {
    nodes.map_values(|n: Entry| n@)
}

impl View for ParseTree {
    type V = Seq<NodeView>;

    closed spec fn view(&self) -> Seq<NodeView> {
        views(self.nodes@)
    }
}

/// A forest stays one when a whole tree is put behind it.
proof fn lemma_forest_append(a: Seq<NodeView>, b: Seq<NodeView>, from: int)
    requires
        0 <= from <= a.len(),
        forest(a, from),
        well_formed(b),
    ensures
        forest(a + b, from),
{
    let c = a + b;
    assert forall|i: int| from <= i < c.len() implies 1 <= (#[trigger] c[i]).size && i + c[i].size
        <= c.len() by {
        if i < a.len() {
            assert(c[i] == a[i]);
        } else {
            assert(c[i] == b[i - a.len()]);
        }
    }
    assert forall|i: int, j: int|
        from <= i < j < c.len() && j < i + (#[trigger] c[i]).size implies j + (#[trigger] c[j]).size
            <= i + c[i].size by {
        if i < a.len() {
            assert(c[i] == a[i]);
            assert(c[j] == a[j]);
        } else {
            assert(c[i] == b[i - a.len()]);
            assert(c[j] == b[j - a.len()]);
        }
    }
}

impl ParseTree {
    #[verifier::type_invariant]
    spec fn inv(self) -> bool {
        well_formed(self@)
    }

    /// A tree of one node without children.
    pub fn leaf(kind: String, span: Span) -> (r: ParseTree)
        ensures
            r@ == seq![NodeView { kind: kind@, span, size: 1 }],
    {
        let mut nodes: Vec<Entry> = Vec::new();
        nodes.push(Entry { kind, span, size: 1 });
        let r = ParseTree { nodes };
        assert(r@ =~= seq![NodeView { kind: kind@, span, size: 1 }]);
        r
    }

    /// A tree whose root has the given trees, in order, as the subtrees of
    /// its children.
    pub fn branch(kind: String, span: Span, children: Vec<ParseTree>) -> (r: ParseTree)
        ensures
            r@ == seq![
                NodeView { kind: kind@, span, size: 1 + concat_trees(children@).len() },
            ] + concat_trees(children@),
    {
        let ghost root_kind = kind@;
        let mut nodes: Vec<Entry> = Vec::new();
        nodes.push(Entry { kind, span, size: 1 });
        for child in it: children
            invariant
                nodes@.len() >= 1,
                nodes@[0]@ == (NodeView { kind: root_kind, span, size: 1 }),
                it.seq() == children@,
                views(nodes@).subrange(1, nodes@.len() as int) == concat_trees(
                    children@.take(it.index() as int),
                ),
                forest(views(nodes@), 1),
        {
            proof {
                use_type_invariant(&child);
            }
            let ghost before = views(nodes@);
            let ghost taken = children@.take(it.index() + 1);
            let ParseTree { nodes: mut part } = child;
            nodes.append(&mut part);
            proof {
                assert(views(nodes@) =~= before + child@);
                lemma_forest_append(before, child@, 1);
                assert(taken.drop_last() =~= children@.take(it.index() as int));
                assert(taken.last() == child);
                assert(views(nodes@).subrange(1, nodes@.len() as int) =~= before.subrange(
                    1,
                    before.len() as int,
                ) + child@);
            }
        }
        let ghost before = views(nodes@);
        let n = nodes.len();
        nodes[0].size = n;
        proof {
            assert(children@.take(children@.len() as int) =~= children@);
            let after = views(nodes@);
            assert(after.len() == before.len());
            assert(forall|i: int| 1 <= i < after.len() ==> after[i] == before[i]);
            assert(after =~= seq![NodeView { kind: root_kind, span, size: n as nat }]
                + concat_trees(children@));
            assert(well_formed(after));
        }
        ParseTree { nodes }
    }

    /// A tree whose root has the given parts, in order, as the subtrees of
    /// its children. There is such a tree only if every part is there.
    pub fn join(kind: String, span: Span, parts: Vec<Option<ParseTree>>) -> (r: Option<ParseTree>)
        ensures
            r is Some <==> all_there(parts@),
            r matches Some(tree) ==> tree@ == seq![
                NodeView { kind: kind@, span, size: 1 + concat_trees(taken(parts@)).len() },
            ] + concat_trees(taken(parts@)),
            r matches Some(tree) ==> well_formed(tree@),
    {
        let mut children: Vec<ParseTree> = Vec::new();
        for part in it: parts
            invariant
                it.seq() == parts@,
                all_there(parts@.take(it.index() as int)),
                children@ == taken(parts@.take(it.index() as int)),
        {
            let ghost before = parts@.take(it.index() as int);
            let ghost upto = parts@.take(it.index() + 1);
            proof {
                assert(upto =~= before.push(part));
            }
            match part {
                Some(tree) => {
                    children.push(tree);
                    proof {
                        assert(taken(upto) =~= taken(before).push(tree));
                        assert forall|i: int| 0 <= i < upto.len() implies (#[trigger] upto[i])
                            is Some by {
                            if i < before.len() {
                                assert(upto[i] == before[i]);
                            }
                        }
                    }
                },
                None => {
                    proof {
                        assert(parts@[it.index() as int] is None);
                    }
                    return None;
                },
            }
        }
        proof {
            assert(parts@.take(parts@.len() as int) =~= parts@);
        }
        let tree = ParseTree::branch(kind, span, children);
        proof {
            use_type_invariant(&tree);
        }
        Some(tree)
    }

    /// The number of nodes in the tree.
    pub fn len(&self) -> (n: usize)
        ensures
            n == self@.len(),
            well_formed(self@),
    {
        proof {
            use_type_invariant(self);
        }
        self.nodes.len()
    }

    /// The kind label of a node.
    pub fn kind(&self, node: usize) -> (r: &str)
        requires
            node < self@.len(),
        ensures
            r@ == self@[node as int].kind,
    {
        self.nodes[node].kind.as_str()
    }

    /// The stretch of source text that a node covers.
    pub fn span(&self, node: usize) -> (r: Span)
        requires
            node < self@.len(),
        ensures
            r == self@[node as int].span,
    {
        self.nodes[node].span
    }

    /// The number of nodes in the subtree of a node, itself included.
    pub fn subtree_len(&self, node: usize) -> (n: usize)
        requires
            node < self@.len(),
        ensures
            n == self@[node as int].size,
            1 <= n,
            node + n <= self@.len() <= usize::MAX,
    {
        proof {
            use_type_invariant(self);
        }
        self.nodes[node].size
    }

    /// The children of a node, in order.
    pub fn children(&self, node: usize) -> (r: Vec<usize>)
        requires
            node < self@.len(),
        ensures
            r@ == children(self@, node as int),
            r@.len() == 0 <==> self@[node as int].size == 1,
            forall|k: int| 0 <= k < r@.len() ==> node < #[trigger] r@[k] < self@.len(),
            r@.len() > 0 ==> r@[0] == node + 1,
    {
        proof {
            use_type_invariant(self);
        }
        let end = node + self.subtree_len(node);
        let mut out: Vec<usize> = Vec::new();
        let mut at = node + 1;
        while at < end
            invariant
                well_formed(self@),
                node < self@.len(),
                node < at <= end,
                end == node + self@[node as int].size,
                out@ + children_in(self@, at as int, end as int) == children(self@, node as int),
                forall|k: int| 0 <= k < out@.len() ==> node < #[trigger] out@[k] < self@.len(),
                out@.len() > 0 ==> out@[0] == node + 1,
                out@.len() == 0 ==> at == node + 1,
            decreases end - at,
        {
            let size = self.subtree_len(at);
            proof {
                assert(at + size <= end);
                assert(out@.push(at) + children_in(self@, at + size, end as int) =~= out@ + (
                seq![at] + children_in(self@, at + size, end as int)));
            }
            out.push(at);
            at = at + size;
        }
        proof {
            assert(out@ + children_in(self@, at as int, end as int) =~= out@);
        }
        out
    }

    /// Goes from `node` down along first children to the first node whose
    /// children cover less text than the node itself, and gives the span
    /// from the start of its first child to the end of its last.
    pub fn get_smaller_child_range(&self, node: usize) -> (r: Option<Span>)
        requires
            node < self@.len(),
        ensures
            r == smaller_child_range(self@, node as int),
    {
        proof {
            use_type_invariant(self);
        }
        let mut at = node;
        loop
            invariant
                well_formed(self@),
                at < self@.len(),
                smaller_child_range(self@, at as int) == smaller_child_range(self@, node as int),
            decreases self@[at as int].size,
        {
            let kids = self.children(at);
            if kids.len() == 0 {
                return None;
            }
            let own = self.span(at);
            let first = self.span(kids[0]);
            let last = self.span(kids[kids.len() - 1]);
            if first.start_byte > own.start_byte || last.end_byte < own.end_byte {
                return Some(span_ranges(first, last));
            }
            at = kids[0];
        }
    }

    /// The nodes below a node: for each child from left to right, the
    /// nodes below the child and then the child.
    pub fn descendants(&self, node: usize) -> (r: Vec<usize>)
        requires
            node < self@.len(),
        ensures
            r@ == below_then_self(self@, node + 1, node + self@[node as int].size),
            forall|j: usize| r@.contains(j) <==> descendants(self@, node as int).contains(j),
    {
        proof {
            use_type_invariant(self);
        }
        let ghost nodes = self@;
        let from = node + 1;
        let to = node + self.subtree_len(node);
        let mut out: Vec<usize> = Vec::new();
        let mut stack: Vec<Open> = Vec::new();
        let mut at = from;
        while at < to || stack.len() > 0
            invariant
                nodes == self@,
                well_formed(nodes),
                node < nodes.len(),
                from == node + 1,
                to == node + nodes[node as int].size,
                from <= at <= to,
                opened(nodes, stack@, node as int, at as int, to as int),
                out@ + waiting(nodes, stack@, at as int, to as int) == below_then_self(
                    nodes,
                    from as int,
                    to as int,
                ),
            decreases 2 * (to - at) + stack.len(),
        {
            let depth = stack.len();
            let ghost before = stack@;
            let ghost done = out@;
            if depth > 0 && stack[depth - 1].end == at {
                let top = stack.pop().unwrap();
                out.push(top.node);
                proof {
                    assert(stack@ =~= before.drop_last());
                    assert(below_then_self(nodes, at as int, at as int) =~= Seq::empty());
                    let next = waiting(nodes, stack@, at as int, to as int);
                    assert(waiting(nodes, before, at as int, to as int) =~= seq![top.node] + next);
                    assert(done.push(top.node) + next =~= done + (seq![top.node] + next));
                }
            } else {
                let size = self.subtree_len(at);
                let ghost limit = limit_of(before, to as int);
                proof {
                    assert(at < limit);
                    assert(at + size <= limit);
                }
                if size == 1 {
                    out.push(at);
                    proof {
                        assert(below_then_self(nodes, at + 1, at + 1) =~= Seq::empty());
                        lemma_waiting_split(nodes, before, at as int, to as int);
                        let next = waiting(nodes, before, at + 1, to as int);
                        assert(done.push(at) + next =~= done + (seq![at] + next));
                    }
                    at = at + 1;
                } else {
                    let frame = Open { node: at, end: at + size };
                    stack.push(frame);
                    proof {
                        lemma_waiting_split(nodes, before, at as int, to as int);
                        assert(stack@.drop_last() =~= before);
                        assert(stack@.last() == frame);
                        assert(waiting(nodes, stack@, at + 1, to as int) =~= below_then_self(
                            nodes,
                            at + 1,
                            at + size,
                        ) + seq![at] + waiting(nodes, before, at + size, to as int));
                    }
                    at = at + 1;
                }
            }
        }
        proof {
            assert(below_then_self(nodes, to as int, to as int) =~= Seq::empty());
            assert(out@ =~= out@ + Seq::<usize>::empty());
            assert forall|j: usize| out@.contains(j) <==> descendants(nodes, node as int).contains(
                j,
            ) by {
                lemma_below_holds(nodes, from as int, to as int, j as int);
            }
        }
        out
    }
}

} // verus!
