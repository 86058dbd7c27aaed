//! What the scene graph asks of a transform: an identity, a composition and
//! a way to build a translation. The graph never looks inside a transform;
//! it only composes them, parent first.

use vstd::prelude::*;

verus! {

/// A transform of a coordinate frame, such as a 4x4 matrix.
///
/// The methods carry no contract of their own. What the library proves is
/// stated over whatever an implementation promises of its results, through
/// [`is_identity`], [`is_composition`] and [`is_translation`].
pub trait Transform: Sized {
    /// What a translation is built from, such as a vector of three
    /// components.
    type Vector;

    /// The transform that changes nothing.
    fn identity() -> Self;

    /// `self` followed on its right by `rhs`: the transform `rhs`, read in
    /// the frame that `self` establishes.
    fn compose(&self, rhs: &Self) -> Self;

    /// The transform that moves everything by `translation`.
    fn from_translation(translation: Self::Vector) -> Self;
}

/// `out` is a value that `M::identity()` may return.
pub open spec fn is_identity<M: Transform>(out: M) -> bool {
    call_ensures(M::identity, (), out)
}

/// `out` is a value that `lhs.compose(&rhs)` may return.
pub open spec fn is_composition<M: Transform>(lhs: M, rhs: M, out: M) -> bool {
    call_ensures(M::compose, (&lhs, &rhs), out)
}

/// `out` is a value that `M::from_translation(translation)` may return.
pub open spec fn is_translation<M: Transform>(translation: M::Vector, out: M) -> bool {
    call_ensures(M::from_translation, (translation,), out)
}

/// `after` is a value that `before` may become when it is moved by
/// `translation`: `before` composed, on its right, with the translation
/// built from `translation`.
pub open spec fn is_translated<M: Transform>(before: M, translation: M::Vector, after: M) -> bool {
    exists|delta: M|
        (#[trigger] is_translation(translation, delta)) && is_composition(before, delta, after)
}

/// `partials` are the values met while composing the identity with each of
/// `factors` in turn, first to last: `partials[0]` is an identity, and each
/// later one is its predecessor composed with the next factor.
pub open spec fn is_chain<M: Transform>(factors: Seq<M>, partials: Seq<M>) -> bool {
    &&& partials.len() == factors.len() + 1
    &&& is_identity(partials[0])
    &&& forall|i: int|
        0 <= i < factors.len() ==> is_composition(
            partials[i],
            #[trigger] factors[i],
            partials[i + 1],
        )
}

/// `out` is a value that composing the identity with each of `factors` in
/// turn, first to last, may give: `((identity * f0) * f1) * ...`.
pub open spec fn is_product<M: Transform>(factors: Seq<M>, out: M) -> bool {
    exists|partials: Seq<M>| #[trigger] is_chain(factors, partials) && partials.last() == out
}

/// `unit` and `op` describe an implementation whose results are determined
/// by its arguments: `identity` only ever returns `unit`, and `compose` only
/// ever returns what `op` gives.
pub open spec fn determined_by<M: Transform>(unit: M, op: spec_fn(M, M) -> M) -> bool {
    &&& forall|out: M| #[trigger] is_identity(out) ==> out == unit
    &&& forall|lhs: M, rhs: M, out: M| #[trigger]
        is_composition(lhs, rhs, out) ==> out == op(lhs, rhs)
}

/// A chain stays a chain when its last factor and its last value are taken
/// away.
pub proof fn lemma_chain_drop_last<M: Transform>(factors: Seq<M>, partials: Seq<M>)
    requires
        is_chain(factors, partials),
        factors.len() > 0,
    ensures
        is_chain(factors.drop_last(), partials.drop_last()),
        is_composition(partials[factors.len() - 1], factors.last(), partials.last()),
{
    let shorter = factors.drop_last();
    assert forall|i: int| 0 <= i < shorter.len() implies is_composition(
        partials.drop_last()[i],
        #[trigger] shorter[i],
        partials.drop_last()[i + 1],
    ) by {
        assert(shorter[i] == factors[i]);
    }
    assert(factors.last() == factors[factors.len() - 1]);
}

/// A chain extends on the right by one more factor and the value that
/// composing with it gives.
pub proof fn lemma_chain_push<M: Transform>(factors: Seq<M>, partials: Seq<M>, last: M, out: M)
    requires
        is_chain(factors, partials),
        is_composition(partials.last(), last, out),
    ensures
        is_chain(factors.push(last), partials.push(out)),
{
    let longer = factors.push(last);
    assert forall|i: int| 0 <= i < longer.len() implies is_composition(
        partials.push(out)[i],
        #[trigger] longer[i],
        partials.push(out)[i + 1],
    ) by {
        if i < factors.len() {
            assert(longer[i] == factors[i]);
        }
    }
}

/// For an implementation whose results are determined by its arguments, a
/// product is the left fold of its factors, starting from the identity.
pub proof fn lemma_product_is_fold<M: Transform>(
    unit: M,
    op: spec_fn(M, M) -> M,
    factors: Seq<M>,
    out: M,
)
    requires
        determined_by(unit, op),
        is_product(factors, out),
    ensures
        out == factors.fold_left(unit, op),
    decreases factors.len(),
{
    let partials = choose|partials: Seq<M>| #[trigger]
        is_chain(factors, partials) && partials.last() == out;
    if factors.len() > 0 {
        lemma_chain_drop_last(factors, partials);
        let before = partials.drop_last().last();
        lemma_product_is_fold(unit, op, factors.drop_last(), before);
    }
}

} // verus!
