//! Scenes that are trees: no node has two parents, nor one parent twice.
//! There every node is visited once, and before each node below it.

use crate::handle::Handle;
use crate::node::NodeView;
use crate::order::{
    acyclic, distinct_children, lemma_ancestors_first, lemma_reach_steps, lemma_visits_distinct,
    lemma_visits_shape, reach, visits,
};
use vstd::prelude::*;

verus! {

/// No handle is listed as a child more than once, be it by two nodes or by
/// one node twice.
pub open spec fn single_parent<T, M>(nodes: Map<Handle, NodeView<T, M>>) -> bool {
    forall|p: Handle, i: int, q: Handle, j: int|
        #![trigger nodes[p].children[i], nodes[q].children[j]]
        nodes.contains_key(p) && 0 <= i < nodes[p].children.len() && nodes.contains_key(q) && 0
            <= j < nodes[q].children.len() && nodes[p].children[i] == nodes[q].children[j] ==> p
            == q && i == j
}

/// No node lists `root` as a child.
pub open spec fn is_root<T, M>(nodes: Map<Handle, NodeView<T, M>>, root: Handle) -> bool {
    forall|p: Handle, i: int|
        #![trigger nodes[p].children[i]]
        nodes.contains_key(p) && 0 <= i < nodes[p].children.len() ==> nodes[p].children[i]
            != root
}

/// The nodes form a tree below `root`, apart from nodes that cannot be
/// reached from it: there is no cycle, no node has two parents or one
/// parent twice, and `root` has no parent.
pub open spec fn is_tree<T, M>(nodes: Map<Handle, NodeView<T, M>>, root: Handle) -> bool {
    acyclic(nodes) && single_parent(nodes) && is_root(nodes, root)
}

/// The visits of a traversal that starts at `root`, each as the path from
/// `root` to the visited node.
pub open spec fn visits_from<T, M>(
    nodes: Map<Handle, NodeView<T, M>>,
    root: Handle,
) -> Seq<Seq<Handle>> {
    visits(nodes, seq![root], Seq::empty())
}

/// Each step of a visit's path leads from a node to one of its children:
/// the handle at position `k` is listed as a child by the node at position
/// `k - 1`.
pub proof fn lemma_visits_linked<T, M>(
    nodes: Map<Handle, NodeView<T, M>>,
    entries: Seq<Handle>,
    path: Seq<Handle>,
    j: int,
    k: int,
)
    requires
        acyclic(nodes),
        0 <= j < visits(nodes, entries, path).len(),
        path.len() < k < visits(nodes, entries, path)[j].len(),
    ensures
        nodes.contains_key(visits(nodes, entries, path)[j][k - 1]),
        nodes[visits(nodes, entries, path)[j][k - 1]].children.contains(
            visits(nodes, entries, path)[j][k],
        ),
    decreases reach(nodes, entries), entries.len(),
{
    let out = visits(nodes, entries, path);
    let h = entries.last();
    let rest = entries.drop_last();
    let later = visits(nodes, rest, path);
    lemma_reach_steps(nodes, entries);
    if nodes.contains_key(h) {
        let here = path.push(h);
        let below = visits(nodes, nodes[h].children, here);
        assert(out == seq![here] + below + later);
        if j == 0 {
            assert(out[j] == here);
        } else if j <= below.len() {
            let visit = below[j - 1];
            assert(out[j] == visit);
            lemma_visits_shape(nodes, nodes[h].children, here, j - 1);
            if k == here.len() {
                assert(visit.take(here.len() as int)[k - 1] == visit[k - 1]);
                assert(here[k - 1] == h);
            } else {
                lemma_visits_linked(nodes, nodes[h].children, here, j - 1, k);
            }
        } else {
            let at = j - 1 - below.len();
            assert(out[j] == later[at]);
            lemma_visits_linked(nodes, rest, path, at, k);
        }
    } else {
        assert(out == later);
        lemma_visits_linked(nodes, rest, path, j, k);
    }
}

/// In a tree, two visits of the same node are visits by the same path.
proof fn lemma_same_node_same_path<T, M>(
    nodes: Map<Handle, NodeView<T, M>>,
    root: Handle,
    i: int,
    j: int,
)
    requires
        is_tree(nodes, root),
        0 <= i < visits_from(nodes, root).len(),
        0 <= j < visits_from(nodes, root).len(),
        visits_from(nodes, root)[i].last() == visits_from(nodes, root)[j].last(),
    ensures
        visits_from(nodes, root)[i] == visits_from(nodes, root)[j],
    decreases visits_from(nodes, root)[i].len(),
{
    let out = visits_from(nodes, root);
    let empty = Seq::<Handle>::empty();
    let v = out[i];
    let w = out[j];
    lemma_visits_shape(nodes, seq![root], empty, i);
    lemma_visits_shape(nodes, seq![root], empty, j);
    assert(v[0] == root);
    assert(w[0] == root);
    if v.len() == 1 {
        if w.len() > 1 {
            lemma_visits_linked(nodes, seq![root], empty, j, w.len() - 1);
            let p = w[w.len() - 2];
            let at = choose|at: int| 0 <= at < nodes[p].children.len() && nodes[p].children[at]
                == w[w.len() - 1];
            assert(false);
        }
        assert(v =~= w);
    } else {
        lemma_visits_linked(nodes, seq![root], empty, i, v.len() - 1);
        let p = v[v.len() - 2];
        let at = choose|at: int| 0 <= at < nodes[p].children.len() && nodes[p].children[at]
            == v[v.len() - 1];
        assert(nodes[p].children[at] != root);
        assert(w.len() > 1);
        lemma_visits_linked(nodes, seq![root], empty, j, w.len() - 1);
        let q = w[w.len() - 2];
        let bt = choose|bt: int| 0 <= bt < nodes[q].children.len() && nodes[q].children[bt]
            == w[w.len() - 1];
        assert(nodes[p].children[at] == nodes[q].children[bt]);
        assert(p == q);
        lemma_ancestors_first(nodes, seq![root], empty, i, v.len() - 1);
        lemma_ancestors_first(nodes, seq![root], empty, j, w.len() - 1);
        let i0 = choose|i0: int| 0 <= i0 < i && #[trigger] out[i0] == v.take(v.len() - 1);
        let j0 = choose|j0: int| 0 <= j0 < j && #[trigger] out[j0] == w.take(w.len() - 1);
        assert(out[i0].last() == p);
        assert(out[j0].last() == q);
        lemma_same_node_same_path(nodes, root, i0, j0);
        assert(v =~= v.take(v.len() - 1).push(v.last()));
        assert(w =~= w.take(w.len() - 1).push(w.last()));
    }
}

/// In a tree no node is visited twice.
pub proof fn lemma_tree_nodes_visited_once<T, M>(
    nodes: Map<Handle, NodeView<T, M>>,
    root: Handle,
    i: int,
    j: int,
)
    requires
        is_tree(nodes, root),
        0 <= i < visits_from(nodes, root).len(),
        0 <= j < visits_from(nodes, root).len(),
        visits_from(nodes, root)[i].last() == visits_from(nodes, root)[j].last(),
    ensures
        i == j,
{
    lemma_single_parent_distinct_children(nodes);
    lemma_visits_distinct(nodes, seq![root], Seq::empty());
    lemma_same_node_same_path(nodes, root, i, j);
}

/// Where no handle is listed twice at all, no node lists one twice.
pub proof fn lemma_single_parent_distinct_children<T, M>(nodes: Map<Handle, NodeView<T, M>>)
    requires
        single_parent(nodes),
    ensures
        distinct_children(nodes),
{
    assert forall|h: Handle| nodes.contains_key(h) implies #[trigger] nodes[h].children.no_duplicates() by {
        let children = nodes[h].children;
        assert forall|a: int, b: int| 0 <= a < children.len() && 0 <= b < children.len() && a
            != b implies children[a] != children[b] by {
            if nodes[h].children[a] == nodes[h].children[b] {
                assert(a == b);
            }
        }
    }
}

/// Pre-order in a tree: a node is visited at a smaller index than every
/// node below it. If the node visited at index `i` lies on the way to the
/// node visited at index `j`, without being that node, then `i < j`.
pub proof fn lemma_tree_preorder<T, M>(
    nodes: Map<Handle, NodeView<T, M>>,
    root: Handle,
    i: int,
    j: int,
    k: int,
)
    requires
        is_tree(nodes, root),
        0 <= i < visits_from(nodes, root).len(),
        0 <= j < visits_from(nodes, root).len(),
        0 <= k < visits_from(nodes, root)[j].len() - 1,
        visits_from(nodes, root)[j][k] == visits_from(nodes, root)[i].last(),
    ensures
        i < j,
{
    let out = visits_from(nodes, root);
    lemma_ancestors_first(nodes, seq![root], Seq::empty(), j, k + 1);
    let a = choose|a: int| 0 <= a < j && #[trigger] out[a] == out[j].take(k + 1);
    assert(out[a].last() == out[j][k]);
    lemma_tree_nodes_visited_once(nodes, root, a, i);
}

} // verus!
