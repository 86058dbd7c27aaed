//! The traversal: a lazy walk over a scene that hands out every node
//! before the nodes below it, each with its accumulated transform.

use crate::handle::Handle;
use crate::node::{node_views, Node, NodeView};
use crate::order::{acyclic, lemma_visits_push, lemma_visits_single, visits};
use crate::pool::Pool;
use crate::transform::{
    is_chain, is_composition, lemma_chain_drop_last, lemma_chain_push, Transform,
};
use crate::world::{is_world, locals};
use vstd::prelude::*;

verus! {

/// One piece of work that a traversal still has to do.
#[derive(Debug)]
pub enum TraversalAction {
    /// Hand out the node at this handle and schedule its children.
    Entry(Handle),
    /// Make the accumulated transform of the node at this handle the one
    /// in effect: its children come next.
    Descend(Handle),
    /// Go back to the transform that was in effect before the last
    /// `Descend`: the children of a node are done.
    Ascend,
}

/// The actions, read from the last to the first, never go back further
/// than they went down, starting `depth` levels down, and go down only
/// into nodes that resolve.
pub open spec fn balanced(live: Set<Handle>, actions: Seq<TraversalAction>, depth: nat) -> bool
    decreases actions.len(),
{
    if actions.len() == 0 {
        true
    } else {
        match actions.last() {
            TraversalAction::Entry(_) => balanced(live, actions.drop_last(), depth),
            TraversalAction::Descend(h) => live.contains(h) && balanced(
                live,
                actions.drop_last(),
                depth + 1,
            ),
            TraversalAction::Ascend => depth >= 1 && balanced(
                live,
                actions.drop_last(),
                (depth - 1) as nat,
            ),
        }
    }
}

/// The visits that are still to come when `actions` are left to do, read
/// from the last to the first, and `path` leads to the node whose children
/// are being visited.
pub open spec fn pending_of<T, M>(
    nodes: Map<Handle, NodeView<T, M>>,
    actions: Seq<TraversalAction>,
    path: Seq<Handle>,
) -> Seq<Seq<Handle>>
    decreases actions.len(),
{
    if actions.len() == 0 {
        Seq::empty()
    } else {
        match actions.last() {
            TraversalAction::Entry(h) => visits(nodes, seq![h], path) + pending_of(
                nodes,
                actions.drop_last(),
                path,
            ),
            TraversalAction::Descend(h) => pending_of(nodes, actions.drop_last(), path.push(h)),
            TraversalAction::Ascend => pending_of(nodes, actions.drop_last(), path.drop_last()),
        }
    }
}

/// `action` is an entry for a node that resolves: doing it hands out that
/// node.
pub open spec fn hands_out(live: Set<Handle>, action: TraversalAction) -> bool {
    match action {
        TraversalAction::Entry(h) => live.contains(h),
        _ => false,
    }
}

/// Some action that is left to do hands out a node.
pub open spec fn has_entry(live: Set<Handle>, actions: Seq<TraversalAction>) -> bool {
    exists|k: int| 0 <= k < actions.len() && hands_out(live, #[trigger] actions[k])
}

/// The entries for `children`, oldest first.
pub open spec fn entries_for(children: Seq<Handle>) -> Seq<TraversalAction> {
    Seq::new(children.len(), |i: int| TraversalAction::Entry(children[i]))
}

/// The work to do once `children` are scheduled below the node at `index`,
/// on top of `actions`: go down into `index`, take every child, the newest
/// first, and come back up.
pub open spec fn scheduled(
    actions: Seq<TraversalAction>,
    index: Handle,
    children: Seq<Handle>,
) -> Seq<TraversalAction> {
    actions.push(TraversalAction::Ascend) + entries_for(children) + seq![
        TraversalAction::Descend(index),
    ]
}

/// What one call of `next` comes to, from the work that is left and the
/// path descended into: the handle of the node that is handed out, if any,
/// and the work and the path that are left afterwards. Actions are taken,
/// the last one first, until an entry resolves; the children of that node,
/// if it has any, are scheduled in its place.
pub open spec fn after_next<T, M>(
    nodes: Map<Handle, NodeView<T, M>>,
    actions: Seq<TraversalAction>,
    path: Seq<Handle>,
) -> (Option<Handle>, Seq<TraversalAction>, Seq<Handle>)
    decreases actions.len(),
{
    if actions.len() == 0 {
        (None, actions, path)
    } else {
        let rest = actions.drop_last();
        match actions.last() {
            TraversalAction::Entry(h) => if !nodes.contains_key(h) {
                after_next(nodes, rest, path)
            } else if nodes[h].children.len() > 0 {
                (Some(h), scheduled(rest, h, nodes[h].children), path)
            } else {
                (Some(h), rest, path)
            },
            TraversalAction::Descend(h) => after_next(nodes, rest, path.push(h)),
            TraversalAction::Ascend => after_next(nodes, rest, path.drop_last()),
        }
    }
}

/// Entries on top of other work are visited before that work is done.
pub proof fn lemma_pending_entries<T, M>(
    nodes: Map<Handle, NodeView<T, M>>,
    actions: Seq<TraversalAction>,
    children: Seq<Handle>,
    path: Seq<Handle>,
)
    requires
        acyclic(nodes),
    ensures
        pending_of(nodes, actions + entries_for(children), path) == visits(nodes, children, path)
            + pending_of(nodes, actions, path),
    decreases children.len(),
{
    if children.len() == 0 {
        assert(actions + entries_for(children) =~= actions);
        assert(visits(nodes, children, path) =~= Seq::<Seq<Handle>>::empty());
        assert(visits(nodes, children, path) + pending_of(nodes, actions, path) =~= pending_of(
            nodes,
            actions,
            path,
        ));
    } else {
        let fewer = children.drop_last();
        let top = children.last();
        let all = actions + entries_for(children);
        assert(all.last() == TraversalAction::Entry(top));
        assert(all.drop_last() =~= actions + entries_for(fewer));
        lemma_pending_entries(nodes, actions, fewer, path);
        assert(children =~= fewer.push(top));
        lemma_visits_push(nodes, fewer, top, path);
        assert(pending_of(nodes, all, path) =~= visits(nodes, children, path) + pending_of(
            nodes,
            actions,
            path,
        ));
    }
}

/// Once children are scheduled below a node they are visited, the newest
/// child first, below that node and before the work that was there.
pub proof fn lemma_pending_scheduled<T, M>(
    nodes: Map<Handle, NodeView<T, M>>,
    actions: Seq<TraversalAction>,
    index: Handle,
    children: Seq<Handle>,
    path: Seq<Handle>,
)
    requires
        acyclic(nodes),
    ensures
        pending_of(nodes, scheduled(actions, index, children), path) == visits(
            nodes,
            children,
            path.push(index),
        ) + pending_of(nodes, actions, path),
{
    let under = actions.push(TraversalAction::Ascend);
    let all = under + entries_for(children) + seq![TraversalAction::Descend(index)];
    assert(all.last() == TraversalAction::Descend(index));
    assert(all.drop_last() =~= under + entries_for(children));
    lemma_pending_entries(nodes, under, children, path.push(index));
    assert(under.drop_last() =~= actions);
    assert(path.push(index).drop_last() =~= path);
}

/// Walks a scene in pre-order, one node for each call of `next`.
pub struct Traversal<'a, T, M> {
    /// The accumulated transforms of the nodes that were descended into,
    /// below the identity.
    transforms: Vec<M>,
    /// The work still to do; the last action is done first.
    action_stream: Vec<TraversalAction>,
    /// The pool of nodes to walk.
    pool: &'a Pool<Node<T, M>>,
    /// The nodes that were descended into and not yet left.
    path: Ghost<Seq<Handle>>,
}

impl<'a, T, M: Transform> Traversal<'a, T, M> {
    /// The nodes that this traversal walks over.
    pub closed spec fn nodes(&self) -> Map<Handle, NodeView<T, M>> {
        node_views(self.pool@)
    }

    /// The work still to do; the last action is done first.
    pub closed spec fn actions(&self) -> Seq<TraversalAction> {
        self.action_stream@
    }

    /// The nodes that were descended into and not yet left, outermost
    /// first.
    pub closed spec fn path(&self) -> Seq<Handle> {
        self.path@
    }

    /// The transforms that the traversal holds: the identity and, above
    /// it, the accumulated transform of each node that was descended into.
    pub closed spec fn transforms(&self) -> Seq<M> {
        self.transforms@
    }

    /// A traversal holds a transform for each node that it has descended
    /// into and not yet left, and for no other node: none is kept, or
    /// worked out ahead, for a node that is still to be visited.
    pub proof fn lemma_transforms_follow_path(&self)
        requires
            self.wf(),
        ensures
            is_chain(locals(self.nodes(), self.path()), self.transforms()),
            self.transforms().len() == self.path().len() + 1,
    {
    }

    /// The visits still to come, in order, each as the path that leads to
    /// the visited node.
    pub open spec fn pending(&self) -> Seq<Seq<Handle>> {
        pending_of(self.nodes(), self.actions(), self.path())
    }

    /// The traversal's internal invariant. Every constructor establishes it
    /// and every method preserves it.
    pub closed spec fn wf(&self) -> bool {
        &&& self.pool.wf()
        &&& balanced(self.nodes().dom(), self.actions(), self.path().len())
        &&& forall|k: int| 0 <= k < self.path().len() ==> self.nodes().contains_key(self.path()[k])
        &&& is_chain(locals(self.nodes(), self.path()), self.transforms@)
    }

    /// A traversal of the nodes of `pool` that starts at `root`: the visits
    /// to come are `root`, if it resolves, and everything below it.
    pub fn new(pool: &'a Pool<Node<T, M>>, root: Handle) -> (traversal: Self)
        requires
            pool.wf(),
        ensures
            traversal.wf(),
            traversal.nodes() == node_views(pool@),
            traversal.path() == Seq::<Handle>::empty(),
            traversal.actions() == seq![TraversalAction::Entry(root)],
            acyclic(node_views(pool@)) ==> traversal.pending() == visits(
                node_views(pool@),
                seq![root],
                Seq::empty(),
            ),
    {
        let mut transforms = Vec::new();
        transforms.push(M::identity());
        let mut action_stream = Vec::new();
        action_stream.push(TraversalAction::Entry(root));
        let traversal = Traversal { transforms, action_stream, pool, path: Ghost(Seq::empty()) };
        proof {
            assert(traversal.actions() =~= seq![TraversalAction::Entry(root)]);
            assert(traversal.actions().drop_last() =~= Seq::empty());
            assert(balanced(traversal.nodes().dom(), traversal.actions().drop_last(), 0));
            assert(balanced(traversal.nodes().dom(), traversal.actions(), 0));
            assert(locals(traversal.nodes(), traversal.path()).len() == 0);
            assert(is_chain(locals(traversal.nodes(), traversal.path()), traversal.transforms@));
            assert(pending_of(traversal.nodes(), traversal.actions().drop_last(), traversal.path())
                =~= Seq::<Seq<Handle>>::empty());
            assert(traversal.pending() =~= visits(traversal.nodes(), seq![root], Seq::empty()));
        }
        traversal
    }

    /// Schedules `children` below the node at `index`: after this call the
    /// traversal first descends into `index`, then takes every handle of
    /// `children`, the last one first, and then ascends again. Only the
    /// work to do changes, and nothing at all if `index` does not resolve.
    pub fn add_children(&mut self, index: Handle, children: &Vec<Handle>)
        requires
            old(self).wf(),
        ensures
            final(self).wf(),
            final(self).nodes() == old(self).nodes(),
            final(self).path() == old(self).path(),
            final(self).transforms() == old(self).transforms(),
            final(self).actions() == (if old(self).nodes().contains_key(index) {
                scheduled(old(self).actions(), index, children@)
            } else {
                old(self).actions()
            }),
    {
        if self.pool.get(index).is_some() {
            self.schedule(index, children);
        }
    }

    /// Schedules `children` below the node at `index`, which resolves.
    fn schedule(&mut self, index: Handle, children: &Vec<Handle>)
        requires
            old(self).wf(),
            old(self).nodes().contains_key(index),
        ensures
            final(self).wf(),
            final(self).nodes() == old(self).nodes(),
            final(self).path() == old(self).path(),
            final(self).transforms() == old(self).transforms(),
            final(self).actions() == scheduled(old(self).actions(), index, children@),
    {
        self.action_stream.push(TraversalAction::Ascend);
        let ghost base = self.action_stream@;
        let ghost live = self.nodes().dom();
        let ghost depth = (self.path@.len() + 1) as nat;
        proof {
            assert(base.drop_last() =~= old(self).action_stream@);
            assert(balanced(live, base, depth));
            assert(base + entries_for(children@.take(0)) =~= base);
        }
        let mut i: usize = 0;
        while i < children.len()
            invariant
                0 <= i <= children.len(),
                self.action_stream@ == base + entries_for(children@.take(i as int)),
                self.transforms == old(self).transforms,
                self.pool == old(self).pool,
                self.path == old(self).path,
                balanced(live, self.action_stream@, depth),
            decreases children.len() - i,
        {
            let child = children[i];
            self.action_stream.push(TraversalAction::Entry(child));
            proof {
                let before = base + entries_for(children@.take(i as int));
                assert(self.action_stream@.drop_last() =~= before);
                assert(self.action_stream@ =~= base + entries_for(
                    children@.take(i as int + 1),
                ));
            }
            i += 1;
        }
        proof {
            assert(children@.take(i as int) =~= children@);
        }
        let ghost entered = self.action_stream@;
        self.action_stream.push(TraversalAction::Descend(index));
        proof {
            assert(self.action_stream@.drop_last() =~= entered);
            assert(self.action_stream@ =~= scheduled(old(self).actions(), index, children@));
        }
    }

    /// Hands out the next node: its handle, its payload and its world
    /// transform, which is the transform in effect for its parent composed
    /// with the node's own. Returns `None` once nothing is left to visit,
    /// and from then on.
    ///
    /// Work that hands out nothing is done on the way: handles that do not
    /// resolve are passed over, and the transform in effect is changed on
    /// going down into a node and on coming back up. The children of the
    /// node that is handed out are scheduled, and nothing is done beyond
    /// that.
    pub fn next(&mut self) -> (item: Option<(Handle, &'a T, M)>)
        requires
            old(self).wf(),
        ensures
            final(self).wf(),
            final(self).nodes() == old(self).nodes(),
            item.is_some() <==> has_entry(old(self).nodes().dom(), old(self).actions()),
            after_next(old(self).nodes(), old(self).actions(), old(self).path()) == (
                match item {
                    Some(handed) => Some(handed.0),
                    None => None,
                },
                final(self).actions(),
                final(self).path(),
            ),
            match item {
                Some((handle, data, world)) => {
                    let visit = final(self).path().push(handle);
                    &&& old(self).nodes().contains_key(handle)
                    &&& *data == old(self).nodes()[handle].data
                    &&& is_composition(
                        final(self).transforms().last(),
                        old(self).nodes()[handle].transform,
                        world,
                    )
                    &&& is_world(old(self).nodes(), visit, world)
                    &&& acyclic(old(self).nodes()) ==> old(self).pending() == seq![visit]
                        + final(self).pending()
                },
                None => {
                    &&& final(self).actions().len() == 0
                    &&& acyclic(old(self).nodes()) ==> old(self).pending().len() == 0
                },
            },
    {
        let pool: &'a Pool<Node<T, M>> = self.pool;
        let ghost nodes = self.nodes();
        loop
            invariant
                self.wf(),
                self.pool == pool,
                self.nodes() == nodes,
                nodes == old(self).nodes(),
                has_entry(nodes.dom(), self.actions()) <==> has_entry(
                    nodes.dom(),
                    old(self).actions(),
                ),
                after_next(nodes, self.actions(), self.path()) == after_next(
                    nodes,
                    old(self).actions(),
                    old(self).path(),
                ),
                acyclic(nodes) ==> pending_of(nodes, self.actions(), self.path()) == old(
                    self,
                ).pending(),
            decreases self.action_stream.len(),
        {
            let ghost before = self.action_stream@;
            let ghost path = self.path@;
            let action = self.action_stream.pop();
            proof {
                if action.is_some() {
                    assert(before.drop_last() =~= self.action_stream@);
                    assert(before.last() == action.unwrap());
                    assert(before[before.len() - 1] == action.unwrap());
                    if !hands_out(nodes.dom(), action.unwrap()) {
                        if has_entry(nodes.dom(), before) {
                            let k = choose|k: int|
                                0 <= k < before.len() && hands_out(
                                    nodes.dom(),
                                    #[trigger] before[k],
                                );
                            assert(self.action_stream@[k] == before[k]);
                        }
                        if has_entry(nodes.dom(), self.action_stream@) {
                            let k = choose|k: int|
                                0 <= k < self.action_stream@.len() && hands_out(
                                    nodes.dom(),
                                    #[trigger] self.action_stream@[k],
                                );
                            assert(self.action_stream@[k] == before[k]);
                        }
                    }
                }
            }
            match action {
                None => {
                    return None;
                },
                Some(TraversalAction::Entry(index)) => {
                    match pool.get(index) {
                        Some(node) => {
                            let top = &self.transforms[self.transforms.len() - 1];
                            let world = top.compose(&node.transform);
                            proof {
                                let visit = path.push(index);
                                assert(node@ == nodes[index]);
                                assert(locals(nodes, visit) =~= locals(nodes, path).push(
                                    nodes[index].transform,
                                ));
                                lemma_chain_push(
                                    locals(nodes, path),
                                    self.transforms@,
                                    nodes[index].transform,
                                    world,
                                );
                                assert(is_chain(
                                    locals(nodes, visit),
                                    self.transforms@.push(world),
                                ));
                                assert(self.transforms@.push(world).last() == world);
                                if acyclic(nodes) {
                                    lemma_visits_single(nodes, index, path);
                                    lemma_pending_scheduled(
                                        nodes,
                                        self.action_stream@,
                                        index,
                                        nodes[index].children,
                                        path,
                                    );
                                }
                            }
                            if node.children.len() > 0 {
                                self.schedule(index, &node.children);
                            } else {
                                proof {
                                    if acyclic(nodes) {
                                        assert(visits(nodes, nodes[index].children, path.push(index))
                                            =~= Seq::<Seq<Handle>>::empty());
                                    }
                                }
                            }
                            proof {
                                if acyclic(nodes) {
                                    assert(old(self).pending() =~= seq![path.push(index)]
                                        + self.pending());
                                }
                            }
                            return Some((index, &node.data, world));
                        },
                        None => {
                            proof {
                                if acyclic(nodes) {
                                    lemma_visits_single(nodes, index, path);
                                    assert(pending_of(nodes, before, path) =~= pending_of(
                                        nodes,
                                        self.action_stream@,
                                        path,
                                    ));
                                }
                            }
                        },
                    }
                },
                Some(TraversalAction::Descend(index)) => {
                    match pool.get(index) {
                        Some(node) => {
                            let top = &self.transforms[self.transforms.len() - 1];
                            let entered = top.compose(&node.transform);
                            proof {
                                assert(node@ == nodes[index]);
                                assert(locals(nodes, path.push(index)) =~= locals(nodes, path).push(
                                    nodes[index].transform,
                                ));
                                lemma_chain_push(
                                    locals(nodes, path),
                                    self.transforms@,
                                    nodes[index].transform,
                                    entered,
                                );
                            }
                            self.transforms.push(entered);
                            self.path = Ghost(path.push(index));
                        },
                        None => {},
                    }
                },
                Some(TraversalAction::Ascend) => {
                    proof {
                        lemma_chain_drop_last(locals(nodes, path), self.transforms@);
                        assert(locals(nodes, path.drop_last()) =~= locals(nodes, path).drop_last());
                    }
                    self.transforms.pop();
                    self.path = Ghost(path.drop_last());
                },
            }
        }
    }
}

} // verus!
