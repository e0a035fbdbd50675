//! Folding operations into a view.
use vstd::prelude::*;
use crate::autobase::NodeId;

verus! {

/// A view that is folded from operations, one after the other in their order.
///
/// It is a function of the operations and their order alone, so replicas that have the
/// same operations in the same order have the same view.
pub trait Projection {
    /// The view.
    type State;

    /// Why an operation is refused.
    type Error;

    /// What a view stands for.
    type Model;

    /// The projection's invariant.
    open spec fn wf(&self) -> bool {
        true
    }

    /// What the view stands for.
    open spec fn model(&self) -> Self::Model {
        arbitrary()
    }

    /// Whether a view is one that the projection can start from.
    open spec fn sound(state: &Self::State) -> bool {
        true
    }

    /// What a view stands for.
    open spec fn meaning(state: &Self::State) -> Self::Model {
        arbitrary()
    }

    /// What a view stands for after an operation, taken or refused.
    open spec fn applied(m: Self::Model, node: NodeId, payload: Seq<u8>) -> Self::Model {
        arbitrary()
    }

    /// Whether an operation is taken.
    open spec fn accepts(m: Self::Model, node: NodeId, payload: Seq<u8>) -> bool {
        arbitrary()
    }

    /// Apply one operation. `payload` is the operation, `node` where it stands.
    fn apply(&mut self, node: NodeId, payload: &[u8]) -> (r: Result<(), Self::Error>)
        requires
            old(self).wf(),
        ensures
            final(self).wf(),
            final(self).model() == Self::applied(old(self).model(), node, payload@),
            (r is Ok) == Self::accepts(old(self).model(), node, payload@),
    ;

    /// The view.
    fn snapshot(&self) -> (s: &Self::State)
        requires
            self.wf(),
        ensures
            Self::sound(s),
            Self::meaning(s) == self.model(),
    ;

    /// Go back to an earlier view.
    fn reset_to(&mut self, checkpoint: &Self::State)
        requires
            Self::sound(checkpoint),
        ensures
            final(self).wf(),
            final(self).model() == Self::meaning(checkpoint),
    ;
}

} // verus!
