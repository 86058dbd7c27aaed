//! World transforms: what a node's accumulated transform is, in terms of
//! the local transforms along the way to it.

use crate::handle::Handle;
use crate::node::NodeView;
use crate::transform::{
    determined_by, is_chain, is_composition, is_identity, is_product, lemma_product_is_fold,
    Transform,
};
use vstd::prelude::*;

verus! {

/// The local transforms of the nodes along `path`, first to last.
pub open spec fn locals<T, M>(nodes: Map<Handle, NodeView<T, M>>, path: Seq<Handle>) -> Seq<M> {
    Seq::new(path.len(), |k: int| nodes[path[k]].transform)
}

/// `world` is a transform that the node at the end of `path` may be handed
/// out with: the identity composed with the local transform of every node
/// along `path`, from the first node down to the last.
pub open spec fn is_world<T, M: Transform>(
    nodes: Map<Handle, NodeView<T, M>>,
    path: Seq<Handle>,
    world: M,
) -> bool {
    is_product(locals(nodes, path), world)
}

/// Identity composition: where every node along the way is not
/// transformed, the world transform is the identity. This holds of every
/// transform type whose identity is one value `unit`, and for which `unit`
/// composed with itself gives `unit`.
pub proof fn lemma_identity_composition<T, M: Transform>(
    nodes: Map<Handle, NodeView<T, M>>,
    path: Seq<Handle>,
    world: M,
    unit: M,
)
    requires
        forall|out: M| #[trigger] is_identity(out) ==> out == unit,
        forall|out: M| #[trigger] is_composition(unit, unit, out) ==> out == unit,
        forall|k: int| 0 <= k < path.len() ==> (#[trigger] nodes[path[k]]).transform == unit,
        is_world(nodes, path, world),
    ensures
        world == unit,
{
    let factors = locals(nodes, path);
    let partials = choose|partials: Seq<M>| #[trigger]
        is_chain(factors, partials) && partials.last() == world;
    assert forall|i: int| 0 <= i < partials.len() implies partials[i] == unit by {
        lemma_chain_of_units(factors, partials, unit, i);
    }
}

/// In a chain whose factors are all `unit`, every value is `unit`.
proof fn lemma_chain_of_units<M: Transform>(factors: Seq<M>, partials: Seq<M>, unit: M, i: int)
    requires
        forall|out: M| #[trigger] is_identity(out) ==> out == unit,
        forall|out: M| #[trigger] is_composition(unit, unit, out) ==> out == unit,
        forall|k: int| 0 <= k < factors.len() ==> #[trigger] factors[k] == unit,
        is_chain(factors, partials),
        0 <= i < partials.len(),
    ensures
        partials[i] == unit,
    decreases i,
{
    if i > 0 {
        lemma_chain_of_units(factors, partials, unit, i - 1);
        assert(factors[i - 1] == unit);
        assert(is_composition(partials[i - 1], factors[i - 1], partials[i - 1 + 1]));
    }
}

/// For a transform type whose results are determined by its arguments, the
/// world transform is the left fold of the local transforms along the way,
/// starting from the identity: `(((unit * l0) * l1) * ...) * ln`.
pub proof fn lemma_world_is_fold<T, M: Transform>(
    nodes: Map<Handle, NodeView<T, M>>,
    path: Seq<Handle>,
    world: M,
    unit: M,
    op: spec_fn(M, M) -> M,
)
    requires
        determined_by(unit, op),
        is_world(nodes, path, world),
    ensures
        world == locals(nodes, path).fold_left(unit, op),
{
    lemma_product_is_fold(unit, op, locals(nodes, path), world);
}

/// Depth composition: for a chain `root`, `a`, `b`, `c`, each the parent of
/// the next, the world transform of `c` is the local transforms of the
/// four composed from the root down to the leaf, the identity first.
pub proof fn lemma_depth_composition<T, M: Transform>(
    nodes: Map<Handle, NodeView<T, M>>,
    root: Handle,
    a: Handle,
    b: Handle,
    c: Handle,
    world: M,
    unit: M,
    op: spec_fn(M, M) -> M,
)
    requires
        determined_by(unit, op),
        is_world(nodes, seq![root, a, b, c], world),
    ensures
        world == op(
            op(op(op(unit, nodes[root].transform), nodes[a].transform), nodes[b].transform),
            nodes[c].transform,
        ),
{
    let path = seq![root, a, b, c];
    let factors = locals(nodes, path);
    let partials = choose|partials: Seq<M>| #[trigger]
        is_chain(factors, partials) && partials.last() == world;
    assert(factors[0] == nodes[root].transform);
    assert(factors[1] == nodes[a].transform);
    assert(factors[2] == nodes[b].transform);
    assert(factors[3] == nodes[c].transform);
    assert(is_composition(partials[0], factors[0], partials[1]));
    assert(is_composition(partials[1], factors[1], partials[2]));
    assert(is_composition(partials[2], factors[2], partials[3]));
    assert(is_composition(partials[3], factors[3], partials[4]));
}

} // verus!
