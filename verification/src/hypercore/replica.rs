//! The reader's side of a log.
use std::marker::PhantomData;
use vstd::prelude::*;
use super::restore::{
    fitting, lemma_all, lemma_end_from, lemma_next, lemma_stored_end, stored_end, stored_from,
};
use super::{block_accepted, empty_tree, extended, verify_block, Error, SignedHead};
use crate::bytes::same_32;
use crate::codec::Codec;
use crate::identity::PublicKey;
use crate::merkle::growth::{lemma_append_roots, lemma_no_roots, lemma_truncate_roots};
use crate::merkle::laws::{bytes_before, holds, law_empty};
use crate::merkle::{MerkleTree, Node, Proof, Tree, UpgradeProof, MAX_BLOCKS};
use crate::storage::{Contents, Store};

verus! {

/// A verify-only replica of a log. It holds no secret key; it accepts blocks accompanied
/// by a proof against a signed head, verifies each, and rebuilds an identical log, never
/// trusting the sender.
pub struct Replica<T, C, S> {
    public: PublicKey,
    codec: C,
    store: S,
    tree: MerkleTree,
    head: Option<SignedHead>,
    _t: PhantomData<T>,
}

/// What a borrowed option holds.
pub open spec fn given<A>(o: Option<&A>) -> Option<A> {
    match o {
        Some(a) => Some(*a),
        None => None,
    }
}

/// What a [`Replica`] holds.
#[verifier::ext_equal]
pub ghost struct Mirror {
    pub public: PublicKey,
    pub tree: Tree,
    pub contents: Contents,
    pub head: Option<SignedHead>,
}

impl Mirror {
    /// What every replica keeps: a tree that has its roots.
    pub open spec fn proper(self) -> bool {
        &&& self.tree.keyed()
        &&& self.tree.length < MAX_BLOCKS
        &&& self.tree.has_roots(self.tree.length as nat)
        &&& !self.tree.nodes.contains_key(u64::MAX)
    }

    /// Whether the block is the next one, is the signed log's, and has room.
    pub open spec fn takes(self, head: SignedHead, index: u64, data: Seq<u8>, p: Proof) -> bool {
        index == self.tree.length && block_accepted(self.public, head, index, data, p)
            && self.tree.can_append(data)
    }

    /// The replica with one more block of the log that `head` is of; once it has the
    /// whole log, `head` is what it has verified.
    pub open spec fn with_block(self, head: SignedHead, data: Seq<u8>) -> Mirror {
        let tree = self.tree.appended(data);
        Mirror {
            tree,
            contents: self.contents.insert(self.tree.length, data),
            head: if tree.length == head.length && tree.root_hash() == head.root {
                Some(head)
            } else {
                self.head
            },
            ..self
        }
    }

    /// Whether `head` is a signed append-only extension of what this replica holds.
    pub open spec fn upgrades(self, head: SignedHead, p: UpgradeProof) -> bool {
        &&& p.old_len == self.tree.length
        &&& p.new_len == head.length
        &&& head.length > self.tree.length
        &&& head.signed_by(self.public)
        &&& p.accepts(self.tree.roots_at(self.tree.length as nat), head.root)
    }

    /// Whether `head` is a signed rewrite, at a higher fork, that keeps the first
    /// `ancestors` blocks.
    pub open spec fn reorgs(self, head: SignedHead, ancestors: u64, p: Option<UpgradeProof>) -> bool {
        &&& self.head matches Some(h) && head.fork > h.fork
        &&& head.signed_by(self.public)
        &&& ancestors <= self.tree.length
        &&& ancestors <= head.length
        &&& self.tree.has_roots(ancestors as nat)
        &&& if ancestors == head.length {
            self.tree.prefix_hash(ancestors) == Some(head.root)
        } else if ancestors == 0 {
            true
        } else {
            p matches Some(p) && p.old_len == ancestors && p.new_len == head.length && p.accepts(
                self.tree.roots_at(ancestors as nat),
                head.root,
            )
        }
    }

    /// The replica rewound to the shared prefix of a rewrite. If that is all there is to
    /// it, `head` is verified; else the rest is still to be fetched.
    pub open spec fn reorganized(self, head: SignedHead, ancestors: u64) -> Mirror {
        let tree = self.tree.truncated(ancestors);
        Mirror {
            tree,
            head: if tree.length == head.length && tree.root_hash() == head.root {
                Some(head)
            } else {
                None
            },
            ..self
        }
    }
}

impl<T, C, S: Store> View for Replica<T, C, S> {
    type V = Mirror;

    closed spec fn view(&self) -> Mirror {
        Mirror {
            public: self.public,
            tree: self.tree@,
            contents: self.store.contents(),
            head: self.head,
        }
    }
}

impl<T, C, S: Store> Replica<T, C, S> {
    /// How values are encoded.
    pub closed spec fn codec(&self) -> C {
        self.codec
    }

    /// Whether the store is one.
    pub closed spec fn sound(&self) -> bool {
        self.store.wf()
    }

    /// Whether the store holds what was left in it.
    pub closed spec fn intact(&self) -> bool {
        self.store.intact()
    }

    /// The replica's invariant.
    pub open spec fn wf(&self) -> bool {
        self.sound() && self@.proper()
    }
}

impl<T, C: Codec<T>, S: Store> Replica<T, C, S> {
    /// An empty replica of the log that `public` signs.
    pub fn new(public: PublicKey, codec: C, store: S) -> (r: Self)
        requires
            store.wf(),
        ensures
            r.wf(),
            r.intact() == store.intact(),
            r.codec() == codec,
            r@ == (Mirror { public, tree: empty_tree(), contents: store.contents(), head: None }),
    {
        let r: Replica<T, C, S> = Replica {
            public,
            codec,
            store,
            tree: MerkleTree::new(),
            head: None,
            _t: PhantomData,
        };
        proof {
            lemma_no_roots(r@.tree);
            assert(r@.tree.nodes =~= Map::<u64, Node>::empty());
        }
        r
    }

    /// How many blocks the replica has.
    pub fn len(&self) -> (n: u64)
        ensures
            n == self@.tree.length,
    {
        self.tree.len()
    }

    /// Whether the replica has no blocks.
    pub fn is_empty(&self) -> (b: bool)
        ensures
            b == (self@.tree.length == 0),
    {
        self.tree.is_empty()
    }

    /// The Merkle root hash of the blocks so far.
    pub fn root_hash(&self) -> (h: crate::merkle::Hash)
        requires
            self.wf(),
        ensures
            h == self@.tree.root_hash(),
    {
        self.tree.root_hash()
    }

    /// The signed head that is fully replicated, if any.
    pub fn verified_head(&self) -> (h: Option<&SignedHead>)
        ensures
            match h {
                Some(h) => self@.head == Some(*h),
                None => self@.head is None,
            },
    {
        match &self.head {
            Some(h) => Some(h),
            None => None,
        }
    }

    /// Verify the next block against `head`, then append it. Returns whether it was
    /// accepted; a rejected block is not stored.
    pub fn add_block(
        &mut self,
        head: &SignedHead,
        index: u64,
        enc: &[u8],
        proof: &Proof,
    ) -> (r: Result<bool, Error<S::Error>>)
        requires
            old(self).wf(),
        ensures
            final(self).codec() == old(self).codec(),
            match r {
                Ok(true) => {
                    &&& old(self)@.takes(*head, index, enc@, *proof)
                    &&& final(self).wf()
                    &&& final(self)@ == (Mirror {
                        contents: final(self)@.contents,
                        ..old(self)@.with_block(*head, enc@)
                    })
                    &&& old(self).intact() ==> {
                        &&& final(self).intact()
                        &&& final(self)@.contents == old(self)@.contents.insert(
                            index,
                            final(self)@.contents[index],
                        )
                        &&& S::fits(enc@.len()) ==> final(self)@ == old(self)@.with_block(
                            *head,
                            enc@,
                        )
                    }
                },
                Ok(false) => !old(self)@.takes(*head, index, enc@, *proof) && *final(self) == *old(
                    self,
                ),
                Err(e) => {
                    &&& e is Storage
                    &&& !S::sure()
                    &&& old(self)@.takes(*head, index, enc@, *proof)
                    &&& final(self).wf()
                    &&& final(self)@ == (Mirror {
                        contents: final(self)@.contents,
                        ..old(self)@
                    })
                    &&& old(self).intact() && final(self).intact() ==> final(self)@ == old(self)@
                },
            },
    {
        if index != self.tree.len() {
            return Ok(false);
        }
        if !verify_block(&self.public, head, index, enc, proof) || !self.tree.has_room(enc) {
            return Ok(false);
        }
        match self.store.put(index, enc) {
            Ok(()) => {},
            Err(e) => return Err(Error::Storage(e)),
        }
        proof {
            lemma_append_roots(self.tree@, enc@);
        }
        self.tree.append(enc);
        if self.tree.len() == head.length && same_32(&self.tree.root_hash(), &head.root) {
            self.head = Some(head.clone());
        }
        proof {
            assert(self@ =~= Mirror {
                contents: self@.contents,
                ..old(self)@.with_block(*head, enc@)
            });
        }
        Ok(true)
    }

    /// Whether `new_head` is a genuine append-only extension of what this replica holds: to
    /// be asked before a longer head's blocks are fetched. An inclusion proof only
    /// ties a block to the head it came with; this ties the longer head to the roots that
    /// are already trusted.
    pub fn verify_upgrade(&self, new_head: &SignedHead, proof: &UpgradeProof) -> (ok: bool)
        requires
            self.wf(),
        ensures
            ok == self@.upgrades(*new_head, *proof),
    {
        if !(proof.old_len == self.tree.len() && proof.new_len == new_head.length
            && new_head.length > self.tree.len() && new_head.is_signed_by(&self.public)) {
            return false;
        }
        let roots: Vec<Node> = self.tree.roots();
        proof.verify(roots.as_slice(), &new_head.root)
    }

    /// Whether `new_head` is a legitimate rewrite that this replica should follow: a
    /// signed head at a strictly higher fork that shares this replica's first `ancestors`
    /// blocks and extends them.
    ///
    /// An over-claimed `ancestors` names a prefix that the new history does not have, and
    /// fails; an under-claimed one is a genuine shorter prefix and only costs fetching.
    pub fn verify_reorg(
        &self,
        new_head: &SignedHead,
        ancestors: u64,
        upgrade: Option<&UpgradeProof>,
    ) -> (ok: bool)
        requires
            self.wf(),
        ensures
            ok == self@.reorgs(
                *new_head,
                ancestors,
                given(upgrade),
            ),
    {
        match &self.head {
            Some(h) => {
                if new_head.fork <= h.fork {
                    return false;
                }
            },
            None => return false,
        }
        if !new_head.is_signed_by(&self.public) {
            return false;
        }
        if ancestors > self.tree.len() || ancestors > new_head.length {
            return false;
        }
        let anchor: Vec<Node> = match self.tree.prefix_roots(ancestors) {
            Some(r) => r,
            None => return false,
        };
        if ancestors == new_head.length {
            match self.tree.prefix_root_hash(ancestors) {
                Some(h) => same_32(&h, &new_head.root),
                None => false,
            }
        } else if ancestors == 0 {
            true
        } else {
            match upgrade {
                Some(p) => p.old_len == ancestors && p.new_len == new_head.length && p.verify(
                    anchor.as_slice(),
                    &new_head.root,
                ),
                None => false,
            }
        }
    }

    /// Follow a rewrite: verify it, then drop the divergent suffix. Returns `false`, and
    /// leaves the replica untouched, if verification fails. On success, fetch the rest
    /// with [`add_block`](Self::add_block).
    pub fn reorg(
        &mut self,
        new_head: &SignedHead,
        ancestors: u64,
        upgrade: Option<&UpgradeProof>,
    ) -> (ok: bool)
        requires
            old(self).wf(),
        ensures
            final(self).wf(),
            final(self).intact() == old(self).intact(),
            final(self).codec() == old(self).codec(),
            ok == old(self)@.reorgs(
                *new_head,
                ancestors,
                given(upgrade),
            ),
            if ok {
                final(self)@ == old(self)@.reorganized(*new_head, ancestors)
            } else {
                *final(self) == *old(self)
            },
    {
        if !self.verify_reorg(new_head, ancestors, upgrade) {
            return false;
        }
        proof {
            lemma_truncate_roots(self.tree@, ancestors);
        }
        let changed: bool = self.tree.truncate(ancestors);
        if self.tree.len() == new_head.length && same_32(&self.tree.root_hash(), &new_head.root) {
            self.head = Some(new_head.clone());
        } else {
            self.head = None;
        }
        assert(self@ =~= old(self)@.reorganized(*new_head, ancestors));
        true
    }

    /// What a read of block `index` gives.
    pub open spec fn read(&self, index: u64, r: Result<Option<T>, Error<S::Error>>) -> bool {
        let there = self@.contents.contains_key(index);
        match r {
            Ok(None) => index >= self@.tree.length,
            Ok(Some(v)) => index < self@.tree.length && (self.intact() ==> there
                && self.codec().refusal(self@.contents[index]) is None && self.codec().decodes(
                self@.contents[index],
                &v,
            )),
            Err(Error::Corrupt) => index < self@.tree.length && (self.intact() ==> !there),
            Err(Error::Codec(e)) => index < self@.tree.length && (self.intact() ==> there
                && self.codec().refusal(self@.contents[index]) == Some(e)),
            Err(e) => e is Storage && index < self@.tree.length && !S::sure(),
        }
    }

    /// Decode the value at `index`, or `None` past the length.
    pub fn get(&self, index: u64) -> (r: Result<Option<T>, Error<S::Error>>)
        requires
            self.wf(),
        ensures
            self.read(index, r),
    {
        if index >= self.tree.len() {
            return Ok(None);
        }
        match self.store.get(index) {
            Ok(Some(b)) => match self.codec.decode(b.as_slice()) {
                Ok(v) => Ok(Some(v)),
                Err(e) => Err(Error::Codec(e)),
            },
            Ok(None) => Err(Error::Corrupt),
            Err(e) => Err(Error::Storage(e)),
        }
    }
}

impl<T, C: Codec<T>, S: Store> Replica<T, C, S> {
    /// Take up the blocks that the store of a new replica holds without a gap. They were
    /// verified when they came; the head that they belong to has to come again.
    pub fn restore(&mut self) -> (r: Result<(), Error<S::Error>>)
        requires
            old(self).wf(),
            old(self).intact(),
            old(self)@.tree == empty_tree(),
        ensures
            final(self).codec() == old(self).codec(),
            ({
                let blocks = stored_from(old(self)@.contents, 0);
                match r {
                    Ok(()) => {
                        &&& final(self).wf()
                        &&& final(self).intact()
                        &&& fitting(blocks)
                        &&& final(self)@ == (Mirror {
                            tree: extended(old(self)@.tree, blocks),
                            ..old(self)@
                        })
                        &&& holds(final(self)@.tree, blocks)
                    },
                    Err(Error::Corrupt) => !fitting(blocks),
                    Err(e) => e is Storage && !S::sure(),
                }
            }),
    {
        let ghost m = self@;
        let ghost c = m.contents;
        let ghost n = stored_end(c, 0);
        let ghost blocks = stored_from(c, 0);
        let mut total: u64 = 0;
        proof {
            lemma_stored_end(c, 0);
            law_empty();
            assert(blocks.take(0) =~= Seq::<Seq<u8>>::empty());
        }
        loop
            invariant_except_break
                self.codec() == old(self).codec(),
                m == old(self)@,
                m.tree == empty_tree(),
                c == m.contents,
                n == stored_end(c, 0),
                n <= u64::MAX + 1,
                blocks == stored_from(c, 0),
                self.sound(),
                self.intact(),
                self@.tree.length <= n,
                holds(self@.tree, blocks.take(self@.tree.length as int)),
                total == bytes_before(blocks, self@.tree.length as nat),
                self@ == (Mirror {
                    tree: extended(m.tree, blocks.take(self@.tree.length as int)),
                    ..m
                }),
            ensures
                self.codec() == old(self).codec(),
                self.sound(),
                self.intact(),
                holds(self@.tree, blocks),
                self@ == (Mirror { tree: extended(m.tree, blocks), ..m }),
            decreases n - self@.tree.length,
        {
            let i: u64 = self.tree.len();
            proof {
                lemma_end_from(c, 0, i as nat);
                assert(blocks.len() == n);
            }
            let data: Vec<u8> = match self.store.get(i) {
                Ok(Some(b)) => b,
                Ok(None) => {
                    assert(blocks.take(i as int) =~= blocks);
                    break ;
                },
                Err(e) => return Err(Error::Storage(e)),
            };
            proof {
                lemma_stored_end(c, i as nat);
                assert(blocks[i as int] == data@);
                lemma_next(self@.tree, blocks, i as int);
            }
            match total.checked_add(data.len() as u64) {
                Some(t) => {
                    total = t;
                },
                None => return Err(Error::Corrupt),
            }
            if i + 1 >= MAX_BLOCKS {
                return Err(Error::Corrupt);
            }
            self.tree.append(data.as_slice());
            assert(self@ =~= Mirror { tree: extended(m.tree, blocks.take(i + 1)), ..m });
        }
        proof {
            lemma_all(self@.tree, blocks);
        }
        Ok(())
    }
}

} // verus!
