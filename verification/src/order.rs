//! The order in which a traversal visits the nodes of a scene, as a
//! mathematical function of the scene, and what holds of that order.
//!
//! A visit is written as the path that leads to it: the handles from the
//! node where the traversal starts down to the visited node. A node that
//! several parents share, or that one parent lists twice, is visited once
//! for every path that leads to it.
//!
//! The order is defined for scenes without a cycle. Nothing here detects a
//! cycle; a traversal that meets one goes round it without end.

use crate::handle::Handle;
use crate::node::NodeView;
use vstd::prelude::*;

verus! {

/// `rank` gives every node a number larger than that of each of its
/// children. Children that do not resolve are not looked at.
pub open spec fn is_ranking<T, M>(
    nodes: Map<Handle, NodeView<T, M>>,
    rank: spec_fn(Handle) -> nat,
) -> bool {
    forall|h: Handle, i: int|
        #![trigger nodes[h].children[i]]
        nodes.contains_key(h) && 0 <= i < nodes[h].children.len() && nodes.contains_key(
            nodes[h].children[i],
        ) ==> rank(nodes[h].children[i]) < rank(h)
}

/// No node is its own descendant: the nodes can be ranked.
pub open spec fn acyclic<T, M>(nodes: Map<Handle, NodeView<T, M>>) -> bool {
    exists|rank: spec_fn(Handle) -> nat| is_ranking(nodes, rank)
}

/// Nodes without children cannot form a cycle.
pub proof fn lemma_childless_is_acyclic<T, M>(nodes: Map<Handle, NodeView<T, M>>)
    requires
        forall|h: Handle| nodes.contains_key(h) ==> (#[trigger] nodes[h]).children.len() == 0,
    ensures
        acyclic(nodes),
{
    let rank = |h: Handle| 0nat;
    assert(is_ranking(nodes, rank));
}

/// Nodes that join without children, and changes that leave the children
/// of a node as they were, close no cycle.
pub proof fn lemma_same_children_is_acyclic<T, M>(
    before: Map<Handle, NodeView<T, M>>,
    after: Map<Handle, NodeView<T, M>>,
)
    requires
        acyclic(before),
        forall|h: Handle| #[trigger]
            after.contains_key(h) ==> if before.contains_key(h) {
                after[h].children == before[h].children
            } else {
                after[h].children.len() == 0
            },
    ensures
        acyclic(after),
{
    let rank = choose|rank: spec_fn(Handle) -> nat| is_ranking(before, rank);
    let raised = |h: Handle| if before.contains_key(h) { rank(h) + 1 } else { 0nat };
    assert forall|h: Handle, i: int|
        #![trigger after[h].children[i]]
        after.contains_key(h) && 0 <= i < after[h].children.len() && after.contains_key(
            after[h].children[i],
        ) implies raised(after[h].children[i]) < raised(h) by {
        assert(after.contains_key(h));
        let c = after[h].children[i];
        assert(c == before[h].children[i]);
    }
    assert(is_ranking(after, raised));
}

/// Making a childless node the child of another node closes no cycle.
pub proof fn lemma_leaf_child_is_acyclic<T, M>(
    before: Map<Handle, NodeView<T, M>>,
    parent: Handle,
    child: Handle,
)
    requires
        acyclic(before),
        before.contains_key(parent),
        parent != child,
        before.contains_key(child) ==> before[child].children.len() == 0,
    ensures
        acyclic(
            before.insert(
                parent,
                NodeView { children: before[parent].children.push(child), ..before[parent] },
            ),
        ),
{
    let after = before.insert(
        parent,
        NodeView { children: before[parent].children.push(child), ..before[parent] },
    );
    let rank = choose|rank: spec_fn(Handle) -> nat| is_ranking(before, rank);
    let raised = |h: Handle| if h == child { 0nat } else { rank(h) + 1 };
    assert forall|h: Handle, i: int|
        #![trigger after[h].children[i]]
        after.contains_key(h) && 0 <= i < after[h].children.len() && after.contains_key(
            after[h].children[i],
        ) implies raised(after[h].children[i]) < raised(h) by {
        let c = after[h].children[i];
        if c != child {
            if h == parent {
                assert(c == before[parent].children[i]);
            } else {
                assert(c == before[h].children[i]);
            }
            assert(before.contains_key(c));
        }
    }
    assert(is_ranking(after, raised));
}

/// One ranking of the nodes, if there is any.
pub closed spec fn rank_of<T, M>(nodes: Map<Handle, NodeView<T, M>>, h: Handle) -> nat {
    (choose|rank: spec_fn(Handle) -> nat| is_ranking(nodes, rank))(h)
}

/// A number above the rank of every handle in `entries` that resolves.
pub closed spec fn reach<T, M>(nodes: Map<Handle, NodeView<T, M>>, entries: Seq<Handle>) -> nat
    decreases entries.len(),
{
    if entries.len() == 0 {
        0
    } else {
        let below = reach(nodes, entries.drop_last());
        let h = entries.last();
        if nodes.contains_key(h) && rank_of(nodes, h) >= below {
            rank_of(nodes, h) + 1
        } else {
            below
        }
    }
}

proof fn lemma_reach_bound<T, M>(nodes: Map<Handle, NodeView<T, M>>, entries: Seq<Handle>, bound: nat)
    requires
        forall|i: int|
            0 <= i < entries.len() && nodes.contains_key(#[trigger] entries[i]) ==> rank_of(
                nodes,
                entries[i],
            ) < bound,
    ensures
        reach(nodes, entries) <= bound,
    decreases entries.len(),
{
    if entries.len() > 0 {
        assert forall|i: int|
            0 <= i < entries.drop_last().len() && nodes.contains_key(
                #[trigger] entries.drop_last()[i],
            ) implies rank_of(nodes, entries.drop_last()[i]) < bound by {
            assert(entries.drop_last()[i] == entries[i]);
        }
        lemma_reach_bound(nodes, entries.drop_last(), bound);
        assert(entries.last() == entries[entries.len() - 1]);
    }
}

/// The visits that a stack of entries gives rise to, in the order in which
/// they are made. `entries` is read as a stack: its last handle is taken
/// first. Taking a handle that resolves visits that node, at the end of
/// `path`, and then, before anything else, everything below it: its
/// children are the next stack. A handle that does not resolve is passed
/// over.
pub open spec fn visits<T, M>(
    nodes: Map<Handle, NodeView<T, M>>,
    entries: Seq<Handle>,
    path: Seq<Handle>,
) -> Seq<Seq<Handle>>
    decreases reach(nodes, entries), entries.len(),
    when acyclic(nodes)
    via visits_decreases::<T, M>
{
    if entries.len() == 0 {
        Seq::empty()
    } else {
        let h = entries.last();
        let later = visits(nodes, entries.drop_last(), path);
        if nodes.contains_key(h) {
            seq![path.push(h)] + visits(nodes, nodes[h].children, path.push(h)) + later
        } else {
            later
        }
    }
}

/// Going on with the rest of a stack does not raise the reach, and going
/// down into the children of its top node lowers it.
pub proof fn lemma_reach_steps<T, M>(nodes: Map<Handle, NodeView<T, M>>, entries: Seq<Handle>)
    requires
        acyclic(nodes),
        entries.len() > 0,
    ensures
        reach(nodes, entries.drop_last()) <= reach(nodes, entries),
        nodes.contains_key(entries.last()) ==> reach(nodes, nodes[entries.last()].children)
            < reach(nodes, entries),
{
    let h = entries.last();
    if nodes.contains_key(h) {
        let rank = choose|rank: spec_fn(Handle) -> nat| is_ranking(nodes, rank);
        let children = nodes[h].children;
        assert forall|i: int|
            0 <= i < children.len() && nodes.contains_key(
                #[trigger] children[i],
            ) implies rank_of(nodes, children[i]) < rank_of(nodes, h) by {
            assert(rank(nodes[h].children[i]) < rank(h));
        }
        lemma_reach_bound(nodes, children, rank_of(nodes, h));
    }
}

#[via_fn]
proof fn visits_decreases<T, M>(
    nodes: Map<Handle, NodeView<T, M>>,
    entries: Seq<Handle>,
    path: Seq<Handle>,
) {
    if entries.len() > 0 {
        lemma_reach_steps(nodes, entries);
    }
}

/// Taking one more handle first puts its visits in front: the visits for a
/// stack are those for its top handle alone, followed by those for the rest
/// of the stack.
pub proof fn lemma_visits_push<T, M>(
    nodes: Map<Handle, NodeView<T, M>>,
    entries: Seq<Handle>,
    top: Handle,
    path: Seq<Handle>,
)
    requires
        acyclic(nodes),
    ensures
        visits(nodes, entries.push(top), path) == visits(nodes, seq![top], path) + visits(
            nodes,
            entries,
            path,
        ),
{
    let empty = Seq::<Handle>::empty();
    assert(entries.push(top).drop_last() =~= entries);
    assert(seq![top].drop_last() =~= empty);
    assert(visits(nodes, empty, path) =~= Seq::<Seq<Handle>>::empty());
    if nodes.contains_key(top) {
        let below = visits(nodes, nodes[top].children, path.push(top));
        assert(visits(nodes, seq![top], path) =~= seq![path.push(top)] + below);
        assert(visits(nodes, entries.push(top), path) =~= seq![path.push(top)] + below + visits(
            nodes,
            entries,
            path,
        ));
    } else {
        assert(visits(nodes, seq![top], path) =~= Seq::<Seq<Handle>>::empty());
        assert(visits(nodes, entries.push(top), path) =~= visits(nodes, entries, path));
    }
}

/// The visits for a single handle: nothing if it does not resolve, else the
/// node itself and then everything below it.
pub proof fn lemma_visits_single<T, M>(
    nodes: Map<Handle, NodeView<T, M>>,
    h: Handle,
    path: Seq<Handle>,
)
    requires
        acyclic(nodes),
    ensures
        visits(nodes, seq![h], path) == (if nodes.contains_key(h) {
            seq![path.push(h)] + visits(nodes, nodes[h].children, path.push(h))
        } else {
            Seq::empty()
        }),
{
    let empty = Seq::<Handle>::empty();
    assert(seq![h].drop_last() =~= empty);
    assert(visits(nodes, empty, path) =~= Seq::<Seq<Handle>>::empty());
    if nodes.contains_key(h) {
        assert(visits(nodes, seq![h], path) =~= seq![path.push(h)] + visits(
            nodes,
            nodes[h].children,
            path.push(h),
        ));
    }
}

/// `short` is `long` cut off before its end: the visit at `short` is an
/// ancestor of the visit at `long`.
pub open spec fn is_ancestor(short: Seq<Handle>, long: Seq<Handle>) -> bool {
    short.len() < long.len() && long.take(short.len() as int) == short
}

/// Every visit lies below `path`, begins there with a handle of the stack,
/// and leads through nodes that resolve.
pub proof fn lemma_visits_shape<T, M>(
    nodes: Map<Handle, NodeView<T, M>>,
    entries: Seq<Handle>,
    path: Seq<Handle>,
    j: int,
)
    requires
        acyclic(nodes),
        0 <= j < visits(nodes, entries, path).len(),
    ensures
        is_ancestor(path, visits(nodes, entries, path)[j]),
        entries.contains(visits(nodes, entries, path)[j][path.len() as int]),
        forall|k: int|
            path.len() <= k < visits(nodes, entries, path)[j].len() ==> nodes.contains_key(
                #[trigger] visits(nodes, entries, path)[j][k],
            ),
    decreases reach(nodes, entries), entries.len(),
{
    let out = visits(nodes, entries, path);
    let h = entries.last();
    let rest = entries.drop_last();
    let later = visits(nodes, rest, path);
    lemma_reach_steps(nodes, entries);
    let depth = path.len() as int;
    if nodes.contains_key(h) {
        let here = path.push(h);
        let below = visits(nodes, nodes[h].children, here);
        assert(out == seq![here] + below + later);
        if j == 0 {
            assert(out[j] == here);
            assert(here.take(depth) =~= path);
            assert(entries[entries.len() - 1] == h);
        } else if j <= below.len() {
            assert(out[j] == below[j - 1]);
            lemma_visits_shape(nodes, nodes[h].children, here, j - 1);
            let visit = below[j - 1];
            assert(here.len() == depth + 1);
            assert(visit.take(depth + 1) == here);
            assert(here.take(depth) =~= path);
            assert(visit.take(depth) =~= visit.take(depth + 1).take(depth));
            assert(visit.take(depth + 1)[depth] == visit[depth]);
            assert(here[depth] == h);
            assert(entries[entries.len() - 1] == h);
        } else {
            let at = j - 1 - below.len();
            assert(out[j] == later[at]);
            lemma_visits_shape(nodes, rest, path, at);
            let first = later[at][depth];
            let i = choose|i: int| 0 <= i < rest.len() && rest[i] == first;
            assert(entries[i] == first);
        }
    } else {
        assert(out == later);
        lemma_visits_shape(nodes, rest, path, j);
        let first = later[j][depth];
        let i = choose|i: int| 0 <= i < rest.len() && rest[i] == first;
        assert(entries[i] == first);
    }
}

/// Pre-order: every visit comes after the visits of all its ancestors.
/// Whatever lies on the way from `path` down to the node of visit `j` was
/// itself visited, by that very way, at some earlier index.
pub proof fn lemma_ancestors_first<T, M>(
    nodes: Map<Handle, NodeView<T, M>>,
    entries: Seq<Handle>,
    path: Seq<Handle>,
    j: int,
    k: int,
)
    requires
        acyclic(nodes),
        0 <= j < visits(nodes, entries, path).len(),
        path.len() < k < visits(nodes, entries, path)[j].len(),
    ensures
        exists|i: int|
            0 <= i < j && #[trigger] visits(nodes, entries, path)[i] == visits(
                nodes,
                entries,
                path,
            )[j].take(k),
    decreases reach(nodes, entries), entries.len(),
{
    let out = visits(nodes, entries, path);
    let h = entries.last();
    let rest = entries.drop_last();
    let later = visits(nodes, rest, path);
    lemma_reach_steps(nodes, entries);
    if nodes.contains_key(h) {
        let here = path.push(h);
        let below = visits(nodes, nodes[h].children, here);
        assert(out == seq![here] + below + later);
        if j == 0 {
            assert(out[j] == here);
        } else if j <= below.len() {
            assert(out[j] == below[j - 1]);
            lemma_visits_shape(nodes, nodes[h].children, here, j - 1);
            if k == here.len() {
                assert(out[0] == here);
                assert(out[0] == out[j].take(k));
            } else {
                lemma_ancestors_first(nodes, nodes[h].children, here, j - 1, k);
                let i = choose|i: int| 0 <= i < j - 1 && #[trigger] below[i] == below[j - 1].take(k);
                assert(out[i + 1] == below[i]);
                assert(out[i + 1] == out[j].take(k));
            }
        } else {
            let shift = 1 + below.len();
            assert(out[j] == later[j - shift]);
            lemma_ancestors_first(nodes, rest, path, j - shift, k);
            let i = choose|i: int|
                0 <= i < j - shift && #[trigger] later[i] == later[j - shift].take(k);
            assert(out[i + shift] == later[i]);
            assert(out[i + shift] == out[j].take(k));
        }
    } else {
        assert(out == later);
        lemma_ancestors_first(nodes, rest, path, j, k);
    }
}

/// Where no visit is made twice, an ancestor's index is smaller than the
/// index of each of its descendants.
pub proof fn lemma_ancestor_index_is_smaller<T, M>(
    nodes: Map<Handle, NodeView<T, M>>,
    entries: Seq<Handle>,
    path: Seq<Handle>,
    i: int,
    j: int,
)
    requires
        acyclic(nodes),
        visits(nodes, entries, path).no_duplicates(),
        0 <= i < visits(nodes, entries, path).len(),
        0 <= j < visits(nodes, entries, path).len(),
        is_ancestor(visits(nodes, entries, path)[i], visits(nodes, entries, path)[j]),
    ensures
        i < j,
{
    let out = visits(nodes, entries, path);
    lemma_visits_shape(nodes, entries, path, i);
    lemma_ancestors_first(nodes, entries, path, j, out[i].len() as int);
}

/// No node lists the same child twice.
pub open spec fn distinct_children<T, M>(nodes: Map<Handle, NodeView<T, M>>) -> bool {
    forall|h: Handle| nodes.contains_key(h) ==> #[trigger] nodes[h].children.no_duplicates()
}

/// Where no node lists a child twice, and the stack holds no handle twice,
/// no visit is made twice.
pub proof fn lemma_visits_distinct<T, M>(
    nodes: Map<Handle, NodeView<T, M>>,
    entries: Seq<Handle>,
    path: Seq<Handle>,
)
    requires
        acyclic(nodes),
        distinct_children(nodes),
        entries.no_duplicates(),
    ensures
        visits(nodes, entries, path).no_duplicates(),
    decreases reach(nodes, entries), entries.len(),
{
    let out = visits(nodes, entries, path);
    if entries.len() > 0 {
        let h = entries.last();
        let rest = entries.drop_last();
        let later = visits(nodes, rest, path);
        let depth = path.len() as int;
        lemma_reach_steps(nodes, entries);
        lemma_visits_distinct(nodes, rest, path);
        assert forall|b: int| 0 <= b < later.len() implies (#[trigger] later[b]).len() > depth
            && later[b][depth] != h by {
            lemma_visits_shape(nodes, rest, path, b);
            let first = later[b][depth];
            let i = choose|i: int| 0 <= i < rest.len() && rest[i] == first;
            assert(entries[i] == first);
            assert(entries[entries.len() - 1] == h);
        }
        if nodes.contains_key(h) {
            let here = path.push(h);
            let below = visits(nodes, nodes[h].children, here);
            lemma_visits_distinct(nodes, nodes[h].children, here);
            assert(out == seq![here] + below + later);
            assert forall|a: int| 0 <= a < below.len() implies (#[trigger] below[a]).len() > depth
                + 1 && below[a][depth] == h by {
                lemma_visits_shape(nodes, nodes[h].children, here, a);
                assert(below[a].take(depth + 1)[depth] == below[a][depth]);
            }
            assert forall|a: int, b: int| 0 <= a < b < out.len() implies out[a] != out[b] by {
                let shift = 1 + below.len();
                if a == 0 {
                    assert(out[a] == here);
                    if b < shift {
                        assert(out[b] == below[b - 1]);
                    } else {
                        assert(out[b] == later[b - shift]);
                    }
                } else if a < shift {
                    assert(out[a] == below[a - 1]);
                    if b < shift {
                        assert(out[b] == below[b - 1]);
                    } else {
                        assert(out[b] == later[b - shift]);
                    }
                } else {
                    assert(out[a] == later[a - shift]);
                    assert(out[b] == later[b - shift]);
                }
            }
        } else {
            assert(out == later);
        }
    }
}

/// Pre-order by paths: where no node lists a child twice, the index of a
/// visit is smaller than the index of each of the visits below it.
pub proof fn lemma_preorder_of_paths<T, M>(
    nodes: Map<Handle, NodeView<T, M>>,
    root: Handle,
    i: int,
    j: int,
)
    requires
        acyclic(nodes),
        distinct_children(nodes),
        0 <= i < visits(nodes, seq![root], Seq::empty()).len(),
        0 <= j < visits(nodes, seq![root], Seq::empty()).len(),
        is_ancestor(
            visits(nodes, seq![root], Seq::empty())[i],
            visits(nodes, seq![root], Seq::empty())[j],
        ),
    ensures
        i < j,
{
    lemma_visits_distinct(nodes, seq![root], Seq::empty());
    lemma_ancestor_index_is_smaller(nodes, seq![root], Seq::empty(), i, j);
}

/// Sibling order: the children of a node are visited newest first. Of
/// three children added in the order `first`, `second`, `third`, the third
/// is visited with everything below it, then the second, then the first.
pub proof fn lemma_siblings_newest_first<T, M>(
    nodes: Map<Handle, NodeView<T, M>>,
    first: Handle,
    second: Handle,
    third: Handle,
    path: Seq<Handle>,
)
    requires
        acyclic(nodes),
    ensures
        visits(nodes, seq![first, second, third], path) == visits(nodes, seq![third], path)
            + visits(nodes, seq![second], path) + visits(nodes, seq![first], path),
{
    assert(seq![first, second, third] =~= seq![first, second].push(third));
    assert(seq![first, second] =~= seq![first].push(second));
    lemma_visits_push(nodes, seq![first, second], third, path);
    lemma_visits_push(nodes, seq![first], second, path);
    assert(visits(nodes, seq![first, second, third], path) =~= visits(nodes, seq![third], path)
        + visits(nodes, seq![second], path) + visits(nodes, seq![first], path));
}

} // verus!
