//! Extensional equality of pure sets. Its definition stays inside this
//! module; elsewhere it is used through the lemmas below.
use crate::model::{elems, PureSet};
use vstd::prelude::*;

verus! {

/// Extensional equality: every element of each side equals some element of
/// the other side.
pub closed spec fn ext_eq(x: PureSet, y: PureSet) -> bool
    decreases x, 0int,
{
    all_matched(elems(x), elems(y)) && all_matched_by(elems(x), elems(y))
}

/// Every element of `xs` equals some element of `ys`.
pub closed spec fn all_matched(xs: Seq<PureSet>, ys: Seq<PureSet>) -> bool
    decreases xs, 1int,
{
    forall|i: int| #![trigger xs[i]] 0 <= i < xs.len() ==> matched(xs[i], ys)
}

/// Every element of `ys` equals some element of `xs`.
pub closed spec fn all_matched_by(xs: Seq<PureSet>, ys: Seq<PureSet>) -> bool
    decreases xs, 3int,
{
    forall|j: int| #![trigger ys[j]] 0 <= j < ys.len() ==> matched_by(xs, ys[j])
}

/// Whether `x` equals some element of `ys`.
pub closed spec fn matched(x: PureSet, ys: Seq<PureSet>) -> bool
    decreases x, 2int,
{
    exists|j: int| #![trigger ys[j]] 0 <= j < ys.len() && ext_eq(x, ys[j])
}

/// Whether some element of `xs` equals `y`.
pub closed spec fn matched_by(xs: Seq<PureSet>, y: PureSet) -> bool
    decreases xs, 2int,
{
    exists|i: int| #![trigger xs[i]] 0 <= i < xs.len() && ext_eq(xs[i], y)
}

pub proof fn lemma_matched_intro(x: PureSet, ys: Seq<PureSet>, j: int)
    requires
        0 <= j < ys.len(),
        ext_eq(x, ys[j]),
    ensures
        matched(x, ys),
{
}

pub proof fn lemma_matched_by_intro(xs: Seq<PureSet>, y: PureSet, i: int)
    requires
        0 <= i < xs.len(),
        ext_eq(xs[i], y),
    ensures
        matched_by(xs, y),
{
}

pub proof fn lemma_matched_elim(x: PureSet, ys: Seq<PureSet>) -> (j: int)
    requires
        matched(x, ys),
    ensures
        0 <= j < ys.len(),
        ext_eq(x, ys[j]),
{
    choose|j: int| #![trigger ys[j]] 0 <= j < ys.len() && ext_eq(x, ys[j])
}

pub proof fn lemma_matched_by_elim(xs: Seq<PureSet>, y: PureSet) -> (i: int)
    requires
        matched_by(xs, y),
    ensures
        0 <= i < xs.len(),
        ext_eq(xs[i], y),
{
    choose|i: int| #![trigger xs[i]] 0 <= i < xs.len() && ext_eq(xs[i], y)
}

pub proof fn lemma_ext_eq_nodes(xs: Seq<PureSet>, ys: Seq<PureSet>)
    ensures
        ext_eq(PureSet::Node(xs), PureSet::Node(ys)) == (all_matched(xs, ys) && all_matched_by(
            xs,
            ys,
        )),
{
    assert(elems(PureSet::Node(xs)) == xs);
    assert(elems(PureSet::Node(ys)) == ys);
}

/// Every pure set equals itself.
pub proof fn lemma_ext_eq_refl(x: PureSet)
    ensures
        ext_eq(x, x),
    decreases x,
{
    let xs = elems(x);
    assert forall|i: int| #![trigger xs[i]] 0 <= i < xs.len() implies matched(xs[i], xs) by {
        lemma_ext_eq_refl(xs[i]);
        lemma_matched_intro(xs[i], xs, i);
    }
    assert forall|j: int| #![trigger xs[j]] 0 <= j < xs.len() implies matched_by(xs, xs[j]) by {
        lemma_ext_eq_refl(xs[j]);
        lemma_matched_by_intro(xs, xs[j], j);
    }
    assert(all_matched(xs, xs));
    assert(all_matched_by(xs, xs));
}

pub proof fn lemma_ext_eq_unfold(x: PureSet, y: PureSet)
    ensures
        ext_eq(x, y) == (all_matched(elems(x), elems(y)) && all_matched_by(elems(x), elems(y))),
{
}

pub proof fn lemma_all_matched(xs: Seq<PureSet>, ys: Seq<PureSet>)
    ensures
        all_matched(xs, ys) == (forall|i: int| #![trigger xs[i]] 0 <= i < xs.len() ==> matched(xs[i], ys)),
{
}

pub proof fn lemma_all_matched_by(xs: Seq<PureSet>, ys: Seq<PureSet>)
    ensures
        all_matched_by(xs, ys) == (forall|j: int|
            #![trigger ys[j]]
            0 <= j < ys.len() ==> matched_by(xs, ys[j])),
{
}

} // verus!
