//! What a write that fails leaves of a tree.
use vstd::prelude::*;
use super::shape::{extends, lemma_listing_same};
use super::{room, Hyperbee};
use crate::storage::Store;

verus! {

impl<S: Store> Hyperbee<S> {
    /// Whether this tree's log is `was`'s with more blocks, every block being a node that
    /// may stand; and `used` blocks of at most `size` bytes were added at most.
    #[verifier::opaque]
    pub open spec fn moved(&self, was: &Self, used: nat, size: nat) -> bool {
        &&& self.sound()
        &&& extends(
            was.nodes(),
            was.log().tree.length,
            self.nodes(),
            self.log().tree.length,
        )
        &&& was.log().tree.length < self.log().tree.length <= was.log().tree.length + used
        &&& forall|n: nat| #[trigger]
            room(self.log(), n, size) || !room(was.log(), n + used, size)
    }

    /// Whether a write that failed has left the past alone: the log has lost no block, and
    /// where its store is intact still, every block is a node that may stand, and those that
    /// were there are the same.
    #[verifier::opaque]
    pub open spec fn stalled(&self, was: &Self) -> bool {
        &&& self.log_sound()
        &&& was.log().tree.length <= self.log().tree.length
        &&& self.log_wf() ==> self.sound() && extends(
            was.nodes(),
            was.log().tree.length,
            self.nodes(),
            self.log().tree.length,
        )
    }
}

/// A tree in order has left its past alone.
pub broadcast proof fn lemma_stalled_self<S: Store>(b: Hyperbee<S>)
    requires
        #[trigger] b.sound(),
    ensures
        b.stalled(&b),
{
    reveal(Hyperbee::stalled);
    reveal(extends);
    b.lemma_log_sound();
}

/// A write has left its past alone.
pub broadcast proof fn lemma_stalled_moved<S: Store>(
    now: Hyperbee<S>,
    was: Hyperbee<S>,
    used: nat,
    size: nat,
)
    requires
        #[trigger] now.moved(&was, used, size),
    ensures
        now.stalled(&was),
{
    reveal(Hyperbee::stalled);
    reveal(Hyperbee::moved);
    now.lemma_log_sound();
}

/// A write that fails after others leaves alone what was before them.
pub broadcast proof fn lemma_stalled_after<S: Store>(
    now: Hyperbee<S>,
    mid: Hyperbee<S>,
    was: Hyperbee<S>,
    used: nat,
    size: nat,
)
    requires
        #[trigger] now.stalled(&mid),
        #[trigger] mid.moved(&was, used, size),
    ensures
        now.stalled(&was),
{
    reveal(Hyperbee::stalled);
    reveal(Hyperbee::moved);
    reveal(extends);
    if now.log_wf() {
        let f = was.nodes();
        let g = mid.nodes();
        let h = now.nodes();
        assert forall|s: u64| s < was.log().tree.length implies #[trigger] h[s] == f[s] by {
            assert(g[s] == f[s]);
        }
    }
}

pub broadcast group group_stalled {
    lemma_stalled_self,
    lemma_stalled_moved,
    lemma_stalled_after,
}

/// What a write that fails leaves: where the store is intact still, what the tree held as of
/// every version before reads as it did.
pub proof fn law_stalled<S: Store>(now: Hyperbee<S>, was: Hyperbee<S>, v: u64)
    requires
        was.sound(),
        now.stalled(&was),
        now.log_wf(),
        v <= was.log().tree.length,
    ensures
        now.sound(),
        now.pairs_at(v) == was.pairs_at(v),
{
    reveal(Hyperbee::stalled);
    reveal(extends);
    let f = was.nodes();
    let g = now.nodes();
    if v > 0 {
        assert forall|s: u64| s <= v - 1 implies #[trigger] g[s] == f[s] by {}
        lemma_listing_same(f, g, (v - 1) as u64);
    }
}

} // verus!
