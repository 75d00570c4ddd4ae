//! The fold state: which nodes are shown collapsed.

use crate::outline::flatten_node;
use crate::tree::{descendants, NodeView, ParseTree};
use std::collections::HashSet;
use vstd::prelude::*;

verus! {

broadcast use vstd::std_specs::hash::group_hash_axioms;

/// The set of nodes that are currently folded.
#[derive(Debug)]
pub struct FoldSet {
    ids: HashSet<usize>,
}

impl View for FoldSet {
    type V = Set<usize>;

    closed spec fn view(&self) -> Set<usize> {
        self.ids@
    }
}

/// The fold state after a fold at `node`: a node that is not folded
/// becomes folded; at a node that is folded already, every node below it
/// becomes folded too.
pub open spec fn fold_spec(folded: Set<usize>, nodes: Seq<NodeView>, node: usize) -> Set<usize> {
    if folded.contains(node) {
        folded.union(descendants(nodes, node as int))
    } else {
        folded.insert(node)
    }
}

/// The fold state after an unfold at `node`: a folded node becomes
/// unfolded, the nodes below it keeping their state; at a node that is
/// unfolded already, every node below it becomes unfolded too.
pub open spec fn unfold_spec(folded: Set<usize>, nodes: Seq<NodeView>, node: usize) -> Set<usize> {
    if folded.contains(node) {
        folded.remove(node)
    } else {
        folded.difference(descendants(nodes, node as int))
    }
}

/// The fold state after a toggle at `node`: fold it if it is not folded,
/// else unfold it.
pub open spec fn toggle_spec(folded: Set<usize>, node: usize) -> Set<usize> {
    if folded.contains(node) {
        folded.remove(node)
    } else {
        folded.insert(node)
    }
}

/// Every node of the tree.
pub open spec fn all_nodes(nodes: Seq<NodeView>) -> Set<usize> {
    Set::new(|j: usize| j < nodes.len())
}

impl FoldSet {
    /// The fold state in which no node is folded.
    pub fn new() -> (r: FoldSet)
        ensures
            r@ == Set::<usize>::empty(),
    {
        FoldSet { ids: HashSet::new() }
    }

    /// The fold state in which every node of the tree is folded.
    pub fn all_folded(tree: &ParseTree) -> (r: FoldSet)
        ensures
            r@ == all_nodes(tree@),
    {
        let mut ids: HashSet<usize> = HashSet::new();
        let total = tree.len();
        let mut at: usize = 0;
        while at < total
            invariant
                at <= total,
                total == tree@.len(),
                ids@ == Set::new(|j: usize| j < at),
            decreases total - at,
        {
            ids.insert(at);
            at = at + 1;
            assert(ids@ =~= Set::new(|j: usize| j < at));
        }
        FoldSet { ids }
    }

    /// Whether a node is folded.
    pub fn contains(&self, node: usize) -> (r: bool)
        ensures
            r == self@.contains(node),
    {
        self.ids.contains(&node)
    }

    /// Folds at a node, cascading to the nodes below it when the node is
    /// folded already.
    pub fn fold(&mut self, tree: &ParseTree, node: usize)
        requires
            node < tree@.len(),
        ensures
            final(self)@ == fold_spec(old(self)@, tree@, node),
    {
        if self.ids.contains(&node) {
            let below = tree.descendants(node);
            let ghost before = self.ids@;
            let mut k: usize = 0;
            while k < below.len()
                invariant
                    k <= below.len(),
                    self.ids@ == before.union(below@.take(k as int).to_set()),
                decreases below.len() - k,
            {
                self.ids.insert(below[k]);
                k = k + 1;
                proof {
                    lemma_take_to_set(below@, k as int);
                    assert(self.ids@ =~= before.union(below@.take(k as int).to_set()));
                }
            }
            proof {
                assert(below@.take(k as int) =~= below@);
                assert(below@.to_set() =~= descendants(tree@, node as int));
                assert(self.ids@ =~= fold_spec(before, tree@, node));
            }
        } else {
            self.ids.insert(node);
        }
    }

    /// Unfolds at a node, cascading to the nodes below it when the node is
    /// unfolded already.
    pub fn unfold(&mut self, tree: &ParseTree, node: usize)
        requires
            node < tree@.len(),
        ensures
            final(self)@ == unfold_spec(old(self)@, tree@, node),
    {
        if self.ids.contains(&node) {
            self.ids.remove(&node);
        } else {
            let below = tree.descendants(node);
            let ghost before = self.ids@;
            let mut k: usize = 0;
            while k < below.len()
                invariant
                    k <= below.len(),
                    self.ids@ == before.difference(below@.take(k as int).to_set()),
                decreases below.len() - k,
            {
                self.ids.remove(&below[k]);
                k = k + 1;
                proof {
                    lemma_take_to_set(below@, k as int);
                    assert(self.ids@ =~= before.difference(below@.take(k as int).to_set()));
                }
            }
            proof {
                assert(below@.take(k as int) =~= below@);
                assert(below@.to_set() =~= descendants(tree@, node as int));
                assert(self.ids@ =~= unfold_spec(before, tree@, node));
            }
        }
    }

    /// Folds a node that is not folded and unfolds one that is.
    pub fn toggle(&mut self, node: usize)
        ensures
            final(self)@ == toggle_spec(old(self)@, node),
    {
        if self.ids.contains(&node) {
            self.ids.remove(&node);
        } else {
            self.ids.insert(node);
        }
    }
}

/// The set of the first `k` items is the set of the first `k - 1` items
/// and the item after them.
proof fn lemma_take_to_set(s: Seq<usize>, k: int)
    requires
        0 < k <= s.len(),
    ensures
        s.take(k).to_set() == s.take(k - 1).to_set().insert(s[k - 1]),
{
    let a = s.take(k);
    let b = s.take(k - 1);
    assert forall|x: usize| a.to_set().contains(x) <==> b.to_set().insert(s[k - 1]).contains(
        x,
    ) by {
        if a.contains(x) {
            let i = choose|i: int| 0 <= i < a.len() && a[i] == x;
            if i < k - 1 {
                assert(b[i] == x);
            }
        }
        if b.contains(x) {
            let i = choose|i: int| 0 <= i < b.len() && b[i] == x;
            assert(a[i] == x);
        }
        if x == s[k - 1] {
            assert(a[k - 1] == x);
        }
    }
    assert(a.to_set() =~= b.to_set().insert(s[k - 1]));
}

/// Folding a node that is not folded and then unfolding it restores the
/// fold state, and with it every outline.
pub proof fn lemma_fold_then_unfold(folded: Set<usize>, nodes: Seq<NodeView>, node: usize)
    requires
        !folded.contains(node),
    ensures
        unfold_spec(fold_spec(folded, nodes, node), nodes, node) == folded,
        forall|from: int, indent: int|
            flatten_node(
                nodes,
                unfold_spec(fold_spec(folded, nodes, node), nodes, node),
                from,
                indent,
            ) == #[trigger] flatten_node(nodes, folded, from, indent),
{
    assert(unfold_spec(fold_spec(folded, nodes, node), nodes, node) =~= folded);
}

/// Folding twice at a node leaves the node and every node below it folded,
/// and changes the state of no other node.
pub proof fn lemma_fold_twice(folded: Set<usize>, nodes: Seq<NodeView>, node: usize)
    ensures
        fold_spec(fold_spec(folded, nodes, node), nodes, node) == folded.insert(node).union(
            descendants(nodes, node as int),
        ),
        fold_spec(fold_spec(folded, nodes, node), nodes, node).contains(node),
        forall|j: usize|
            descendants(nodes, node as int).contains(j) ==> fold_spec(
                fold_spec(folded, nodes, node),
                nodes,
                node,
            ).contains(j),
{
    assert(fold_spec(fold_spec(folded, nodes, node), nodes, node) =~= folded.insert(node).union(
        descendants(nodes, node as int),
    ));
}

/// Unfolding twice at a node that is not folded leaves every node below it
/// unfolded, and changes the state of no other node.
pub proof fn lemma_unfold_twice(folded: Set<usize>, nodes: Seq<NodeView>, node: usize)
    requires
        !folded.contains(node),
    ensures
        unfold_spec(unfold_spec(folded, nodes, node), nodes, node) == folded.difference(
            descendants(nodes, node as int),
        ),
        forall|j: usize|
            descendants(nodes, node as int).contains(j) ==> !unfold_spec(
                unfold_spec(folded, nodes, node),
                nodes,
                node,
            ).contains(j),
{
    assert(unfold_spec(unfold_spec(folded, nodes, node), nodes, node) =~= folded.difference(
        descendants(nodes, node as int),
    ));
}

} // verus!
