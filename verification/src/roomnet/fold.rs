//! Folding the payloads of nodes into a view.
use vstd::prelude::*;
use super::dag::DagView;
use super::projection::Projection;
use crate::autobase::NodeId;

verus! {

/// What a view stands for after the payloads of `nodes`, one after the other, whether
/// they are taken or refused.
pub open spec fn replay<P: Projection>(m: P::Model, nodes: Seq<NodeId>, d: DagView) -> P::Model
    decreases nodes.len(),
{
    if nodes.len() == 0 {
        m
    } else {
        P::applied(
            replay::<P>(m, nodes.drop_last(), d),
            nodes.last(),
            d.payload(nodes.last()),
        )
    }
}

/// The place of the first of `nodes` whose payload is refused.
pub open spec fn first_refused<P: Projection>(m: P::Model, nodes: Seq<NodeId>, d: DagView) -> Option<
    nat,
>
    decreases nodes.len(),
{
    if nodes.len() == 0 {
        None
    } else {
        let less = nodes.drop_last();
        match first_refused::<P>(m, less, d) {
            Some(i) => Some(i),
            None => if P::accepts(replay::<P>(m, less, d), nodes.last(), d.payload(nodes.last())) {
                None
            } else {
                Some(less.len())
            },
        }
    }
}

/// The first refusal among some nodes is the first among more.
pub proof fn lemma_first_refused<P: Projection>(m: P::Model, nodes: Seq<NodeId>, d: DagView, k: int)
    requires
        0 <= k <= nodes.len(),
        first_refused::<P>(m, nodes.take(k), d) is Some,
    ensures
        first_refused::<P>(m, nodes, d) == first_refused::<P>(m, nodes.take(k), d),
    decreases nodes.len(),
{
    if k == nodes.len() {
        assert(nodes.take(k) =~= nodes);
    } else {
        assert(nodes.drop_last().take(k) =~= nodes.take(k));
        lemma_first_refused::<P>(m, nodes.drop_last(), d, k);
    }
}

/// A first refusal is within the nodes.
pub proof fn lemma_refused_within<P: Projection>(m: P::Model, nodes: Seq<NodeId>, d: DagView)
    ensures
        first_refused::<P>(m, nodes, d) matches Some(i) ==> i < nodes.len(),
    decreases nodes.len(),
{
    if nodes.len() > 0 {
        lemma_refused_within::<P>(m, nodes.drop_last(), d);
    }
}

/// Folding in two goes is folding in one.
pub proof fn law_replay<P: Projection>(m: P::Model, a: Seq<NodeId>, b: Seq<NodeId>, d: DagView)
    ensures
        replay::<P>(m, a + b, d) == replay::<P>(replay::<P>(m, a, d), b, d),
    decreases b.len(),
{
    if b.len() == 0 {
        assert(a + b =~= a);
    } else {
        assert((a + b).drop_last() =~= a + b.drop_last());
        law_replay::<P>(m, a, b.drop_last(), d);
    }
}

} // verus!
