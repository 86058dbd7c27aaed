//! One vertex of the scene graph.

use crate::handle::Handle;
use crate::transform::{is_identity, is_translated, is_translation, Transform};
use vstd::prelude::*;

verus! {

/// What a node may carry: a model of the caller's choosing, or nothing. A
/// node that carries nothing still has a transform and may have children.
pub enum NodeEntry<T> {
    /// A model is located at this node.
    Model(T),
    /// This node has no renderable content.
    Empty,
}

/// A node of the scene graph: the caller's payload, the handles of the
/// node's children in the order they were added, and the node's transform
/// relative to its parent.
#[derive(Debug, Clone)]
pub struct Node<T, M> {
    /// The value stored at this node.
    pub data: T,
    /// The children of this node, oldest first.
    pub children: Vec<Handle>,
    /// The transform of this node in its parent's frame.
    pub transform: M,
}

/// A node as contracts see it, with the list of children as a sequence.
pub ghost struct NodeView<T, M> {
    pub data: T,
    pub children: Seq<Handle>,
    pub transform: M,
}

impl<T, M> View for Node<T, M> {
    type V = NodeView<T, M>;

    open spec fn view(&self) -> NodeView<T, M> {
        NodeView { data: self.data, children: self.children@, transform: self.transform }
    }
}

/// The views of the nodes that a pool holds, handle by handle.
pub open spec fn node_views<T, M>(nodes: Map<Handle, Node<T, M>>) -> Map<Handle, NodeView<T, M>> {
    Map::new(|h: Handle| nodes.contains_key(h), |h: Handle| nodes[h]@)
}

/// Replacing or adding one node changes the view of that node alone.
pub proof fn lemma_node_views_insert<T, M>(
    nodes: Map<Handle, Node<T, M>>,
    handle: Handle,
    node: Node<T, M>,
)
    ensures
        node_views(nodes.insert(handle, node)) == node_views(nodes).insert(handle, node@),
{
    assert(node_views(nodes.insert(handle, node)) =~= node_views(nodes).insert(handle, node@));
}

impl<T, M: Transform> Node<T, M> {
    /// A node that carries `data`, has no children and is not transformed.
    pub fn new(data: T) -> (node: Self)
        ensures
            node@.data == data,
            node@.children == Seq::<Handle>::empty(),
            is_identity(node@.transform),
    {
        Node { data, children: Vec::new(), transform: M::identity() }
    }

    /// Appends `child` to the list of children.
    pub fn add_child(&mut self, child: Handle)
        ensures
            final(self)@ == (NodeView {
                children: old(self)@.children.push(child),
                ..old(self)@
            }),
    {
        self.children.push(child);
    }

    /// Moves the node by `translation`: the node's transform is composed,
    /// on its right, with the translation built from `translation`.
    pub fn translate(&mut self, translation: M::Vector)
        ensures
            final(self)@.data == old(self)@.data,
            final(self)@.children == old(self)@.children,
            is_translated(old(self)@.transform, translation, final(self)@.transform),
    {
        let delta = M::from_translation(translation);
        assert(is_translation(translation, delta));
        self.transform = self.transform.compose(&delta);
    }
}

impl<T, M: Transform> Node<NodeEntry<T>, M> {
    /// A node without content: it carries `NodeEntry::Empty`, has no
    /// children and is not transformed.
    pub fn empty() -> (node: Self)
        ensures
            node@.data == NodeEntry::<T>::Empty,
            node@.children == Seq::<Handle>::empty(),
            is_identity(node@.transform),
    {
        Node::new(NodeEntry::Empty)
    }
}

} // verus!
