//! An ordered key/value B-tree over a log.
//!
//! Keys are kept in bytewise order in a B-tree whose nodes are blocks of an append-only
//! [`Hypercore`]. The tree is copy-on-write: a write never changes a block, it rewrites
//! the path from leaf to root as new blocks, and the new root is the latest block.
use vstd::prelude::*;
use crate::hypercore::laws::held;
use crate::hypercore::writer::stored_blocks;
use crate::hypercore::{Hypercore, Log};
use crate::merkle::laws::bytes_before;
use crate::merkle::MAX_BLOCKS;
use crate::storage::Store;

pub mod bounds;
pub mod btree;
pub mod forms;
pub mod laws;
pub mod mend;
pub mod node;
pub mod order;
pub mod range;
pub mod remove;
pub mod shape;
pub mod stalled;
pub mod sub;

pub use node::{Node, NodeCodec};
pub use range::{Checkout, Range};
pub use shape::{MAX_CHILDREN, MIN_KEYS};
pub use sub::Sub;

use crate::bytemap::Pairs;
use node::{bulk, larger, parsed_node};
use shape::{grown, height, listing, Forest};

verus! {

/// What a tree's operations fail with: what its log's fail with.
pub type Error<S> = crate::hypercore::Error<<S as Store>::Error>;

/// An ordered key/value store: a copy-on-write B-tree over a log.
pub struct Hyperbee<S> {
    core: Hypercore<Node, NodeCodec, S>,
}

/// The blocks of a log that has all of them.
pub open spec fn all_blocks(log: Log) -> Seq<Seq<u8>> {
    stored_blocks(log.contents, log.tree.length as nat)
}

/// Whether a log has all its blocks, and each is a node.
#[verifier::opaque]
pub open spec fn all_nodes(log: Log) -> bool {
    &&& held(log, all_blocks(log))
    &&& forall|s: u64|
        s < log.tree.length ==> #[trigger] log.has(s) && parsed_node(log.contents[s]) is Ok
}

/// The nodes of a log.
pub open spec fn forest(log: Log) -> Forest {
    Map::new(|s: u64| s < log.tree.length, |s: u64| parsed_node(log.contents[s])->Ok_0)
}

/// Whether a log has room for `n` more blocks of at most `size` bytes.
#[verifier::opaque]
pub open spec fn room(log: Log, n: nat, size: nat) -> bool {
    &&& log.tree.length + n < MAX_BLOCKS
    &&& bytes_before(all_blocks(log), log.tree.length as nat) + n * size <= u64::MAX
}

/// Whether a store keeps values of up to `n` bytes whole.
pub open spec fn fits_upto<S: Store>(n: nat) -> bool {
    forall|k: nat| k <= n ==> #[trigger] S::fits(k)
}

impl<S: Store> Hyperbee<S> {
    /// The log below the tree.
    pub closed spec fn log(&self) -> Log {
        self.core@
    }

    /// Whether the log is one, and its store holds what was left in it.
    pub closed spec fn log_wf(&self) -> bool {
        self.core.wf() && self.core.intact()
    }

    /// Whether the log is one, whatever its store holds.
    pub closed spec fn log_sound(&self) -> bool {
        self.core.wf()
    }

    /// A log whose store holds what was left in it is one.
    pub proof fn lemma_log_sound(&self)
        ensures
            self.log_wf() ==> self.log_sound(),
    {
    }

    /// The nodes of the tree, old and new.
    pub open spec fn nodes(&self) -> Forest {
        forest(self.log())
    }

    /// Whether every block is a node that may stand where it stands.
    pub open spec fn sound(&self) -> bool {
        &&& self.log_wf()
        &&& all_nodes(self.log())
        &&& grown(self.nodes(), self.log().tree.length)
    }

    /// The tree's invariant: every block is a node that may stand there, and the root is
    /// a leaf or holds a key.
    pub open spec fn wf(&self) -> bool {
        &&& self.sound()
        &&& self.log().tree.length > 0 ==> {
            let root = self.nodes()[(self.log().tree.length - 1) as u64];
            root.is_leaf() || root.entries.len() > 0
        }
    }

    /// What the tree held as of a version, in key order.
    pub open spec fn pairs_at(&self, version: u64) -> Pairs {
        let v = if version < self.log().tree.length {
            version
        } else {
            self.log().tree.length
        };
        if v == 0 {
            Seq::empty()
        } else {
            listing(self.nodes(), (v - 1) as u64)
        }
    }

    /// What the tree holds, in key order.
    pub open spec fn pairs(&self) -> Pairs {
        self.pairs_at(self.log().tree.length)
    }

    /// How many levels the tree has below its root.
    pub open spec fn levels(&self) -> nat {
        if self.log().tree.length == 0 {
            0
        } else {
            height(self.nodes(), (self.log().tree.length - 1) as u64)
        }
    }

    /// What a node takes at most once a pair of `extra` bytes was written: it has no more
    /// than so many entries, none larger than that pair or the largest there is.
    pub open spec fn span(&self, extra: nat) -> nat {
        larger(bulk(self.pairs()), (8 * (extra + 20)) as nat) + 140
    }

    /// Whether 64-bit indices and sizes, and the store, have room for a write that adds a
    /// pair of `extra` bytes: three nodes a level.
    pub open spec fn spare(&self, extra: nat) -> bool {
        let size = self.span(extra);
        room(self.log(), 3 * (self.levels() + 2), size) && fits_upto::<S>(size)
    }
}

} // verus!
