//! The scene: a pool of nodes and the handle of the node at the root.

use crate::handle::Handle;
use crate::node::{lemma_node_views_insert, node_views, Node, NodeView};
use crate::order::{
    acyclic, lemma_childless_is_acyclic, lemma_leaf_child_is_acyclic,
    lemma_same_children_is_acyclic, visits,
};
use crate::pool::Pool;
use crate::transform::{is_chain, is_identity, is_translated, lemma_chain_push, Transform};
use crate::traversal::{Traversal, TraversalAction};
use crate::world::{is_world, locals};
use vstd::prelude::*;

verus! {

/// A graph of nodes with a transform at each node. The scene owns every
/// node; a node names its children by handle.
pub struct Scene<T, M> {
    pool: Pool<Node<T, M>>,
    root: Handle,
}

impl<T, M: Transform> Scene<T, M> {
    /// The scene's internal invariant: the pool is in order and the root
    /// handle resolves. Every constructor establishes it and every method
    /// preserves it.
    pub closed spec fn wf(&self) -> bool {
        self.pool.wf() && self.pool@.contains_key(self.root)
    }

    /// The scene as a map from the handles that resolve to the nodes they
    /// resolve to.
    pub closed spec fn view(&self) -> Map<Handle, NodeView<T, M>> {
        node_views(self.pool@)
    }

    /// The handle of the root node.
    pub closed spec fn root(&self) -> Handle {
        self.root
    }

    /// The root handle always resolves.
    pub proof fn lemma_root_resolves(&self)
        requires
            self.wf(),
        ensures
            self@.contains_key(self.root()),
    {
    }

    /// A scene that holds one node, the root, which carries `root`, has no
    /// children and is not transformed.
    pub fn new(root: T) -> (scene: Self)
        ensures
            scene.wf(),
            scene@.dom() == Set::<Handle>::empty().insert(scene.root()),
            scene@[scene.root()].data == root,
            scene@[scene.root()].children == Seq::<Handle>::empty(),
            is_identity(scene@[scene.root()].transform),
            acyclic(scene@),
    {
        let mut pool = Pool::new();
        let root = pool.insert(Node::new(root));
        let scene = Scene { pool, root };
        proof {
            assert(scene@.dom() =~= Set::<Handle>::empty().insert(scene.root()));
            lemma_childless_is_acyclic(scene@);
        }
        scene
    }

    /// Adds a node that carries `data`, has no children and is not
    /// transformed, and returns its handle, which did not resolve before.
    /// The node is not attached to any parent; no other node changes.
    pub fn create_node(&mut self, data: T) -> (handle: Handle)
        requires
            old(self).wf(),
        ensures
            final(self).wf(),
            final(self).root() == old(self).root(),
            !old(self)@.contains_key(handle),
            final(self)@ == old(self)@.insert(handle, final(self)@[handle]),
            final(self)@[handle].data == data,
            final(self)@[handle].children == Seq::<Handle>::empty(),
            is_identity(final(self)@[handle].transform),
            acyclic(old(self)@) ==> acyclic(final(self)@),
    {
        let node = Node::new(data);
        let handle = self.pool.insert(node);
        proof {
            lemma_node_views_insert(old(self).pool@, handle, node);
            if acyclic(old(self)@) {
                lemma_same_children_is_acyclic(old(self)@, self@);
            }
        }
        handle
    }

    /// The handle of the root node. It always resolves.
    pub fn get_root(&self) -> (handle: Handle)
        ensures
            handle == self.root(),
            self.wf() ==> self@.contains_key(handle),
    {
        self.root
    }

    /// Moves the node at `id` by `translation`: its transform is composed,
    /// on its right, with the translation built from `translation`. Nothing
    /// else changes, and nothing at all if `id` does not resolve.
    pub fn translate(&mut self, id: Handle, translation: M::Vector)
        requires
            old(self).wf(),
        ensures
            final(self).wf(),
            final(self).root() == old(self).root(),
            !old(self)@.contains_key(id) ==> final(self)@ == old(self)@,
            old(self)@.contains_key(id) ==> final(self)@ == old(self)@.insert(
                id,
                NodeView { transform: final(self)@[id].transform, ..old(self)@[id] },
            ),
            old(self)@.contains_key(id) ==> is_translated(
                old(self)@[id].transform,
                translation,
                final(self)@[id].transform,
            ),
            acyclic(old(self)@) ==> acyclic(final(self)@),
    {
        if let Some(node) = self.pool.get_mut(id) {
            node.translate(translation);
            proof {
                lemma_node_views_insert(old(self).pool@, id, *node);
            }
        }
        proof {
            if acyclic(old(self)@) {
                lemma_same_children_is_acyclic(old(self)@, self@);
            }
        }
    }

    /// Appends `child` to the children of the node at `parent`. Nothing else
    /// changes, and nothing at all if `parent` does not resolve. Whether
    /// `child` resolves is not looked at.
    pub fn add_child(&mut self, parent: Handle, child: Handle)
        requires
            old(self).wf(),
        ensures
            final(self).wf(),
            final(self).root() == old(self).root(),
            !old(self)@.contains_key(parent) ==> final(self)@ == old(self)@,
            old(self)@.contains_key(parent) ==> final(self)@ == old(self)@.insert(
                parent,
                NodeView {
                    children: old(self)@[parent].children.push(child),
                    ..old(self)@[parent]
                },
            ),
            acyclic(old(self)@) && parent != child && (old(self)@.contains_key(child) ==> old(
                self,
            )@[child].children.len() == 0) ==> acyclic(final(self)@),
    {
        if let Some(node) = self.pool.get_mut(parent) {
            node.add_child(child);
            proof {
                lemma_node_views_insert(old(self).pool@, parent, *node);
            }
        }
        proof {
            if acyclic(old(self)@) && parent != child && (old(self)@.contains_key(child) ==> old(
                self,
            )@[child].children.len() == 0) && old(self)@.contains_key(parent) {
                lemma_leaf_child_is_acyclic(old(self)@, parent, child);
            }
        }
    }

    /// The node at `id`, or `None` if `id` does not resolve.
    pub fn get(&self, id: Handle) -> (found: Option<&Node<T, M>>)
        requires
            self.wf(),
        ensures
            match found {
                Some(node) => self@.contains_key(id) && node@ == self@[id],
                None => !self@.contains_key(id),
            },
    {
        self.pool.get(id)
    }

    /// Exclusive access to the node at `id`, or `None` if `id` does not
    /// resolve. Whatever the caller writes through the reference becomes
    /// the node at `id`; nothing else changes.
    pub fn get_mut(&mut self, id: Handle) -> (found: Option<&mut Node<T, M>>)
        requires
            old(self).wf(),
        ensures
            final(self).wf(),
            final(self).root() == old(self).root(),
            match found {
                Some(node) => {
                    &&& old(self)@.contains_key(id)
                    &&& node@ == old(self)@[id]
                    &&& final(self)@ == old(self)@.insert(id, final(node)@)
                },
                None => !old(self)@.contains_key(id) && final(self)@ == old(self)@,
            },
    {
        proof {
            assert forall|node: Node<T, M>| #[trigger]
                node_views(self.pool@.insert(id, node)) == node_views(self.pool@).insert(
                    id,
                    node@,
                ) by {
                lemma_node_views_insert(self.pool@, id, node);
            }
        }
        self.pool.get_mut(id)
    }

    /// The transform accumulated along `path`: the identity composed with
    /// the local transform of every node that `path` names, first to last.
    /// Returns `None` if a handle of `path` does not resolve. Whether each
    /// node of `path` is a child of the one before it is not looked at.
    pub fn get_transform(&self, path: &Vec<Handle>) -> (found: Option<M>)
        requires
            self.wf(),
        ensures
            found.is_some() <==> forall|k: int|
                0 <= k < path@.len() ==> self@.contains_key(#[trigger] path@[k]),
            match found {
                Some(world) => is_world(self@, path@, world),
                None => true,
            },
    {
        let mut world = M::identity();
        let ghost mut partials = seq![world];
        let mut i: usize = 0;
        proof {
            assert(locals(self@, path@.take(0)).len() == 0);
        }
        while i < path.len()
            invariant
                self.wf(),
                0 <= i <= path.len(),
                forall|k: int| 0 <= k < i ==> self@.contains_key(#[trigger] path@[k]),
                is_chain(locals(self@, path@.take(i as int)), partials),
                partials.last() == world,
            decreases path.len() - i,
        {
            match self.pool.get(path[i]) {
                Some(node) => {
                    let next = world.compose(&node.transform);
                    proof {
                        let covered = path@.take(i as int);
                        lemma_chain_push(locals(self@, covered), partials, node.transform, next);
                        assert(locals(self@, path@.take(i as int + 1)) =~= locals(
                            self@,
                            covered,
                        ).push(node.transform));
                        partials = partials.push(next);
                    }
                    world = next;
                },
                None => {
                    return None;
                },
            }
            i += 1;
        }
        proof {
            assert(path@.take(i as int) =~= path@);
        }
        Some(world)
    }

    /// A fresh traversal of the scene, starting at the root: the visits to
    /// come are the root and everything below it.
    pub fn traverse(&self) -> (traversal: Traversal<'_, T, M>)
        requires
            self.wf(),
        ensures
            traversal.wf(),
            traversal.nodes() == self@,
            traversal.path() == Seq::<Handle>::empty(),
            traversal.actions() == seq![TraversalAction::Entry(self.root())],
            acyclic(self@) ==> traversal.pending() == visits(
                self@,
                seq![self.root()],
                Seq::empty(),
            ),
    {
        Traversal::new(&self.pool, self.root)
    }
}

} // verus!
