//! A multi-writer causal linearizer.
//!
//! Nodes of many writers form a growing causal DAG; [`Linearizer`] turns it into one
//! deterministic order and reports which prefix of that order a majority of the
//! indexers has confirmed. Votes and quorums are read from the shape of the DAG alone.
use vstd::prelude::*;
use graph::{causal, delivered, Deps};
use ids::sorted_keys;

pub mod basics;
pub mod consensus;
pub mod finality;
pub mod graph;
pub mod ids;
pub mod laws;
pub mod linearizer;
pub mod progress;
pub mod quorum;
pub mod views;
pub mod votes;

pub use consensus::Confirm;
pub use ids::{NodeId, WriterKey};
pub use linearizer::{AddError, Clock};

verus! {

/// A growing causal DAG of nodes from many writers, linearizable on demand.
///
/// Nodes are kept in the order they were delivered, each with the positions of the
/// nodes it depends on, which all come before it.
pub struct Linearizer {
    ids: Vec<NodeId>,
    deps: Vec<Vec<usize>>,
    indexers: Option<Vec<WriterKey>>,
}

/// The ids at `positions`.
pub open spec fn at_positions(ids: Seq<NodeId>, positions: Seq<usize>) -> Set<NodeId> {
    Set::new(|d: NodeId| exists|j: int| 0 <= j < positions.len() && ids[#[trigger] positions[j] as int] == d)
}

/// The flagged nodes.
pub open spec fn flagged(ids: Seq<NodeId>, flags: Seq<bool>) -> Set<NodeId> {
    Set::new(|n: NodeId| exists|p: int| 0 <= p < ids.len() && flags[p] && #[trigger] ids[p] == n)
}

impl Linearizer {
    /// Each delivered node with its direct dependencies.
    pub closed spec fn graph(&self) -> Deps {
        Map::new(
            |n: NodeId| self.ids@.contains(n),
            |n: NodeId| at_positions(self.ids@, self.deps@[self.ids@.index_of(n)]@),
        )
    }

    /// The indexers in ascending key order, or `None` when quorum is disabled.
    pub closed spec fn voters(&self) -> Option<Seq<WriterKey>> {
        match self.indexers {
            Some(v) => Some(v@),
            None => None,
        }
    }

    /// The nodes in the order they were delivered.
    pub closed spec fn arrivals(&self) -> Seq<NodeId> {
        self.ids@
    }

    /// Dependencies point back, ids are unique, logs have no gaps, voters are sorted.
    pub closed spec fn wf(&self) -> bool {
        &&& self.deps@.len() == self.ids@.len()
        &&& forall|p: int, j: int|
            0 <= p < self.deps@.len() && 0 <= j < self.deps@[p]@.len()
                ==> #[trigger] self.deps@[p]@[j] < p
        &&& delivered(self.graph(), self.ids@)
        &&& self.indexers matches Some(v) ==> sorted_keys(v@)
    }

    /// What a well-formed linearizer keeps: its arrivals deliver its graph.
    pub proof fn lemma_wf(&self)
        requires
            self.wf(),
        ensures
            delivered(self.graph(), self.arrivals()),
            causal(self.graph()),
            self.arrivals().len() <= u64::MAX,
            self.arrivals().len() <= usize::MAX,
            self.graph().dom().finite(),
            self.graph().dom().len() == self.arrivals().len(),
            self.voters() matches Some(v) ==> sorted_keys(v),
    {
        self.ids@.unique_seq_to_set();
        assert(self.ids.len() <= usize::MAX);
    }

    /// The node at a position, and its dependencies.
    proof fn lemma_at(&self, p: int)
        requires
            self.wf(),
            0 <= p < self.ids@.len(),
        ensures
            self.graph().contains_key(self.ids@[p]),
            self.graph()[self.ids@[p]] == at_positions(self.ids@, self.deps@[p]@),
    {
        assert(self.ids@.contains(self.ids@[p]));
        let q = self.ids@.index_of(self.ids@[p]);
        assert(self.ids@[q] == self.ids@[p]);
        assert(q == p);
    }
}

} // verus!
