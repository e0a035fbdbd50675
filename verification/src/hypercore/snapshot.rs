//! Read-only, point-in-time copies of a log.
use std::collections::BTreeMap;
use std::marker::PhantomData;
use vstd::prelude::*;
use super::{copy_head, Error, Hypercore, Log, SignedHead};
use crate::codec::Codec;
use crate::merkle::{MerkleTree, Proof, Tree, MAX_BLOCKS};
use crate::storage::{Contents, Store};

verus! {

broadcast use vstd::std_specs::btree::group_btree_axioms;

/// A read-only, point-in-time copy of a log: its present blocks, tree and signed head.
/// It owns all of them, so nothing that happens to the log afterwards shows in it.
pub struct Snapshot<T, C> {
    length: u64,
    fork: u64,
    head: Option<SignedHead>,
    tree: MerkleTree,
    blocks: BTreeMap<u64, Vec<u8>>,
    codec: C,
    _t: PhantomData<T>,
}

/// What a [`Snapshot`] holds.
#[verifier::ext_equal]
pub ghost struct Snap {
    pub length: u64,
    pub fork: u64,
    pub head: Option<SignedHead>,
    pub tree: Tree,
    pub blocks: Contents,
}

/// The snapshot of a log: length, fork, head and tree, and the blocks that can be read.
pub open spec fn snap_of(log: Log) -> Snap {
    Snap {
        length: log.tree.length,
        fork: log.fork,
        head: log.head,
        tree: log.tree,
        blocks: log.contents.restrict(Set::new(|i: u64| log.has(i))),
    }
}

impl<T, C> View for Snapshot<T, C> {
    type V = Snap;

    closed spec fn view(&self) -> Snap {
        Snap {
            length: self.length,
            fork: self.fork,
            head: self.head,
            tree: self.tree@,
            blocks: self.blocks@.map_values(|b: Vec<u8>| b@),
        }
    }
}

impl<T, C: Codec<T> + Clone, S: Store> Hypercore<T, C, S> {
    /// Capture a read-only [`Snapshot`] of the log at its current length. A block that is
    /// absent cannot be captured: the snapshot reads `None` for it, as the log does.
    pub fn snapshot(&self) -> (r: Result<Snapshot<T, C>, Error<S::Error>>)
        requires
            self.wf(),
        ensures
            match r {
                Ok(s) => {
                    &&& s@ == (Snap { blocks: s@.blocks, ..snap_of(self@) })
                    &&& forall|i: u64| #[trigger] s@.blocks.contains_key(i) ==> self@.has(i)
                    &&& self.intact() ==> s@ == snap_of(self@)
                    &&& cloned(self.codec(), s.codec())
                },
                Err(e) => e is Storage && !S::sure() && exists|i: u64| #[trigger] self@.has(i),
            },
    {
        let length: u64 = self.tree.len();
        let mut blocks: BTreeMap<u64, Vec<u8>> = BTreeMap::new();
        let mut i: u64 = 0;
        proof {
            assert(blocks@.map_values(|b: Vec<u8>| b@) =~= self@.contents.restrict(
                Set::new(|k: u64| k < 0 && self@.has(k)),
            ));
        }
        while i < length
            invariant
                i <= length,
                length == self@.tree.length,
                self.wf(),
                forall|k: u64| #[trigger] blocks@.contains_key(k) ==> self@.has(k),
                self.intact() ==> blocks@.map_values(|b: Vec<u8>| b@) == self@.contents.restrict(
                    Set::new(|k: u64| k < i && self@.has(k)),
                ),
            decreases length - i,
        {
            let ghost before = blocks@.map_values(|b: Vec<u8>| b@);
            assert(self@.has(i) == self.presence.bit(i));
            if self.presence.get(i) {
                match self.store.get(i) {
                    Ok(Some(b)) => {
                        blocks.insert(i, b);
                        assert(blocks@.map_values(|b: Vec<u8>| b@) =~= before.insert(i, b@));
                    },
                    Ok(None) => {},
                    Err(e) => return Err(Error::Storage(e)),
                }
            }
            assert(self@.present.contains(i) == self.presence.bit(i));
            i = i + 1;
            proof {
                if self.intact() {
                    assert(blocks@.map_values(|b: Vec<u8>| b@) =~= self@.contents.restrict(
                        Set::new(|k: u64| k < i && self@.has(k)),
                    ));
                }
            }
        }
        let s: Snapshot<T, C> = Snapshot {
            length,
            fork: self.fork,
            head: copy_head(&self.head),
            tree: self.tree.clone(),
            blocks,
            codec: self.codec.clone(),
            _t: PhantomData,
        };
        proof {
            if self.intact() {
                assert(s@.blocks =~= snap_of(self@).blocks);
            }
        }
        Ok(s)
    }
}

impl<T, C: Codec<T>> Snapshot<T, C> {
    /// How values are encoded.
    pub closed spec fn codec(&self) -> C {
        self.codec
    }

    /// The snapshotted length, fixed for the life of the snapshot.
    pub fn length(&self) -> (n: u64)
        ensures
            n == self@.length,
    {
        self.length
    }

    /// Whether the log was empty.
    pub fn is_empty(&self) -> (b: bool)
        ensures
            b == (self@.length == 0),
    {
        self.length == 0
    }

    /// The fork counter at snapshot time.
    pub fn fork(&self) -> (n: u64)
        ensures
            n == self@.fork,
    {
        self.fork
    }

    /// The signed head at snapshot time.
    pub fn head(&self) -> (h: Option<&SignedHead>)
        ensures
            match h {
                Some(h) => self@.head == Some(*h),
                None => self@.head is None,
            },
    {
        match &self.head {
            Some(h) => Some(h),
            None => None,
        }
    }

    /// The Merkle root hash of the snapshotted blocks.
    pub fn root_hash(&self) -> (h: crate::merkle::Hash)
        requires
            self@.tree.length < MAX_BLOCKS,
            self@.tree.has_roots(self@.tree.length as nat),
        ensures
            h == self@.tree.root_hash(),
    {
        self.tree.root_hash()
    }

    /// The encoded bytes of block `index` as captured; `None` past the length, or for a
    /// block that was absent.
    pub fn block(&self, index: u64) -> (r: Option<&[u8]>)
        ensures
            match r {
                Some(b) => index < self@.length && self@.blocks.contains_key(index) && b@
                    == self@.blocks[index],
                None => index >= self@.length || !self@.blocks.contains_key(index),
            },
    {
        if index >= self.length {
            return None;
        }
        match self.blocks.get(&index) {
            Some(b) => Some(b.as_slice()),
            None => None,
        }
    }

    /// Decode the value at `index`; `None` past the length, or for a block that was
    /// absent.
    pub fn get(&self, index: u64) -> (r: Result<Option<T>, crate::codec::Error>)
        ensures
            ({
                let there = index < self@.length && self@.blocks.contains_key(index);
                match r {
                    Ok(Some(v)) => there && self.codec().refusal(self@.blocks[index]) is None
                        && self.codec().decodes(self@.blocks[index], &v),
                    Ok(None) => !there,
                    Err(e) => there && self.codec().refusal(self@.blocks[index]) == Some(e),
                }
            }),
    {
        match self.block(index) {
            Some(b) => match self.codec.decode(b) {
                Ok(v) => Ok(Some(v)),
                Err(e) => Err(e),
            },
            None => Ok(None),
        }
    }

    /// A Merkle inclusion proof for `index` against the captured head, good even after
    /// the log has forked away.
    pub fn inclusion_proof(&self, index: u64) -> (r: Option<Proof>)
        requires
            self@.tree.length < MAX_BLOCKS,
            index < self@.tree.length ==> self@.tree.has_roots(self@.tree.length as nat)
                && self@.tree.path(2 * index as nat) is Some && self@.tree.nodes.contains_key(
                (2 * index) as u64,
            ),
        ensures
            match r {
                Some(p) => index < self@.tree.length && p.block == index && p.leaf_size
                    == self@.tree.nodes[(2 * index) as u64].size && Some(p.siblings@)
                    == self@.tree.path(2 * index as nat) && p.roots@ == self@.tree.roots_at(
                    self@.tree.length as nat,
                ),
                None => index >= self@.tree.length,
            },
    {
        self.tree.inclusion_proof(index)
    }

    /// How much of this snapshot the live log still has: the length of the longest prefix
    /// on which the two trees agree.
    pub fn signed_length<S: Store>(&self, core: &Hypercore<T, C, S>) -> (n: u64)
        requires
            core.wf(),
        ensures
            n == self@.tree.ancestor(core@.tree),
            n <= self@.tree.length,
            n <= core@.tree.length,
    {
        self.tree.lowest_common_ancestor(&core.tree)
    }
}

} // verus!
