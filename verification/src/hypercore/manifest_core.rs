//! A log whose authority is a quorum of signers.
//!
//! Where a [`Hypercore`](crate::hypercore::Hypercore) signs each head with one author
//! key, a [`ManifestCore`] is governed by a [`Manifest`]: the log's key is the manifest's
//! hash, so who may sign cannot change without changing the identity; a head is
//! authorized only by at least the quorum of distinct valid signatures; and a
//! [`ManifestReplica`], holding only the public manifest, verifies blocks against it.
use std::marker::PhantomData;
use vstd::prelude::*;
use super::{empty_tree, Error};
use crate::bytes::same_32;
use crate::codec::Codec;
use crate::identity::manifest::Policy;
use crate::identity::{ed25519_public, Manifest, PartialSig, SecretKey};
use crate::merkle::growth::{lemma_append_roots, lemma_no_roots};
use crate::merkle::{MerkleTree, Node, Proof, Tree, MAX_BLOCKS};
use crate::storage::{Contents, Store};

verus! {

/// A head with the partial signatures collected over it.
#[derive(Debug, PartialEq, Eq)]
pub struct ManifestHead {
    pub length: u64,
    pub root: crate::merkle::Hash,
    pub sigs: Vec<PartialSig>,
}

/// What a [`ManifestHead`] says.
#[verifier::ext_equal]
pub ghost struct Sealed {
    pub length: u64,
    pub root: crate::merkle::Hash,
    pub sigs: Seq<PartialSig>,
}

impl View for ManifestHead {
    type V = Sealed;

    open spec fn view(&self) -> Sealed {
        Sealed { length: self.length, root: self.root, sigs: self.sigs@ }
    }
}

impl Clone for ManifestHead {
    fn clone(&self) -> (r: Self)
        ensures
            r@ == self@,
    {
        let mut sigs: Vec<PartialSig> = Vec::new();
        let mut i: usize = 0;
        while i < self.sigs.len()
            invariant
                i <= self.sigs.len(),
                sigs@ == self.sigs@.take(i as int),
            decreases self.sigs.len() - i,
        {
            sigs.push(self.sigs[i]);
            i = i + 1;
            assert(sigs@ =~= self.sigs@.take(i as int));
        }
        assert(sigs@ =~= self.sigs@);
        ManifestHead { length: self.length, root: self.root, sigs }
    }
}

impl Sealed {
    /// Whether the policy authorizes the head.
    pub open spec fn ratified(self, policy: Policy) -> bool {
        policy.accepts(self.length, self.root, self.sigs)
    }
}

/// `sigs` with `p` in its place by signer, unless that signer is already there.
pub open spec fn placed(sigs: Seq<PartialSig>, p: PartialSig) -> Seq<PartialSig>
    decreases sigs.len(),
{
    if sigs.len() == 0 {
        seq![p]
    } else if sigs[0].signer < p.signer {
        seq![sigs[0]] + placed(sigs.skip(1), p)
    } else if sigs[0].signer == p.signer {
        sigs
    } else {
        seq![p] + sigs
    }
}

/// What the keys of `seeds` that are declared signers contribute to a head, in signer
/// order.
pub open spec fn collected(
    policy: Policy,
    seeds: Seq<[u8; 32]>,
    length: u64,
    root: [u8; 32],
) -> Seq<PartialSig>
    decreases seeds.len(),
{
    if seeds.len() == 0 {
        Seq::empty()
    } else {
        let less = collected(policy, seeds.drop_last(), length, root);
        match policy.partial(seeds.last(), length, root) {
            Some(p) => placed(less, p),
            None => less,
        }
    }
}

/// What a [`ManifestCore`] is.
#[verifier::ext_equal]
pub ghost struct Ruled {
    pub policy: Policy,
    pub seeds: Seq<[u8; 32]>,
    pub tree: Tree,
    pub contents: Contents,
    pub head: Option<Sealed>,
}

impl Ruled {
    /// What every such log keeps: a tree that has its roots, and a head whose signatures
    /// are valid and of distinct signers.
    pub open spec fn proper(self) -> bool {
        &&& self.tree.keyed()
        &&& self.tree.length < MAX_BLOCKS
        &&& self.tree.has_roots(self.tree.length as nat)
        &&& !self.tree.nodes.contains_key(u64::MAX)
        &&& self.head matches Some(h) ==> honest(self.policy, h)
    }

    /// The head that the local signers make over the tree as it is.
    pub open spec fn seal(self) -> Sealed {
        Sealed {
            length: self.tree.length,
            root: self.tree.root_hash(),
            sigs: collected(self.policy, self.seeds, self.tree.length, self.tree.root_hash()),
        }
    }

    /// The log after an append.
    pub open spec fn appended(self, data: Seq<u8>) -> Ruled {
        let grown = Ruled {
            tree: self.tree.appended(data),
            contents: self.contents.insert(self.tree.length, data),
            ..self
        };
        Ruled { head: Some(grown.seal()), ..grown }
    }

    /// Whether the head is the tree's, and the quorum authorized it.
    pub open spec fn verified(self) -> bool {
        match self.head {
            None => self.tree.length == 0,
            Some(h) => h.length == self.tree.length && h.root == self.tree.root_hash()
                && h.ratified(self.policy),
        }
    }
}

/// Whether every signature of a head is valid, and each of another signer, in order.
pub open spec fn honest(policy: Policy, h: Sealed) -> bool {
    &&& forall|i: int|
        0 <= i < h.sigs.len() ==> policy.signed(h.length, h.root, #[trigger] h.sigs[i])
    &&& in_signer_order(h.sigs)
}

/// Whether the signers go up strictly.
pub open spec fn in_signer_order(sigs: Seq<PartialSig>) -> bool {
    forall|i: int, j: int| 0 <= i < j < sigs.len() ==> sigs[i].signer < sigs[j].signer
}

/// Putting a signature in its place keeps the order and adds at most that one.
proof fn lemma_placed(sigs: Seq<PartialSig>, p: PartialSig)
    requires
        in_signer_order(sigs),
    ensures
        in_signer_order(placed(sigs, p)),
        forall|i: int|
            0 <= i < placed(sigs, p).len() ==> sigs.contains(#[trigger] placed(sigs, p)[i])
                || placed(sigs, p)[i] == p,
        placed(sigs, p).len() > 0,
        placed(sigs, p)[0].signer == p.signer || (sigs.len() > 0 && placed(sigs, p)[0] == sigs[0]),
    decreases sigs.len(),
{
    let out = placed(sigs, p);
    if sigs.len() > 0 {
        if sigs[0].signer < p.signer {
            let rest = sigs.skip(1);
            assert(in_signer_order(rest)) by {
                assert forall|i: int, j: int| 0 <= i < j < rest.len() implies rest[i].signer
                    < rest[j].signer by {
                    assert(sigs[i + 1].signer < sigs[j + 1].signer);
                }
            }
            lemma_placed(rest, p);
            let tail = placed(rest, p);
            assert forall|i: int| 0 <= i < out.len() implies sigs.contains(#[trigger] out[i])
                || out[i] == p by {
                if i == 0 {
                    assert(sigs.contains(sigs[0]));
                } else {
                    assert(out[i] == tail[i - 1]);
                    if rest.contains(tail[i - 1]) {
                        let k = choose|k: int| 0 <= k < rest.len() && rest[k] == tail[i - 1];
                        assert(sigs[k + 1] == out[i]);
                    }
                }
            }
            assert forall|i: int, j: int| 0 <= i < j < out.len() implies out[i].signer
                < out[j].signer by {
                assert(out[j] == tail[j - 1]);
                if i == 0 {
                    if j - 1 == 0 {
                        if tail[0].signer != p.signer {
                            assert(sigs[0].signer < sigs[1].signer);
                        }
                    } else {
                        assert(tail[0].signer < tail[j - 1].signer);
                        if tail[0].signer != p.signer {
                            assert(sigs[0].signer < sigs[1].signer);
                        }
                    }
                } else {
                    assert(out[i] == tail[i - 1]);
                }
            }
        } else if sigs[0].signer == p.signer {
            assert forall|i: int| 0 <= i < out.len() implies sigs.contains(#[trigger] out[i]) by {}
        } else {
            assert forall|i: int| 0 <= i < out.len() implies sigs.contains(#[trigger] out[i])
                || out[i] == p by {
                if i > 0 {
                    assert(out[i] == sigs[i - 1]);
                }
            }
            assert forall|i: int, j: int| 0 <= i < j < out.len() implies out[i].signer
                < out[j].signer by {
                assert(out[j] == sigs[j - 1]);
                if i > 0 {
                    assert(out[i] == sigs[i - 1]);
                } else if j > 1 {
                    assert(sigs[0].signer < sigs[j - 1].signer);
                }
            }
        }
    }
}

/// Put a signature in its place by signer, unless that signer is already there.
fn place(sigs: &mut Vec<PartialSig>, p: PartialSig)
    requires
        in_signer_order(old(sigs)@),
    ensures
        final(sigs)@ == placed(old(sigs)@, p),
{
    let ghost all = sigs@;
    let mut i: usize = 0;
    assert(all.skip(0) =~= all);
    assert(placed(all, p) =~= all.take(0) + placed(all.skip(0), p));
    while i < sigs.len() && sigs[i].signer < p.signer
        invariant
            i <= sigs.len(),
            sigs@ == all,
            placed(all, p) == all.take(i as int) + placed(all.skip(i as int), p),
        decreases sigs.len() - i,
    {
        proof {
            let rest = all.skip(i as int);
            assert(rest.skip(1) =~= all.skip(i + 1));
            assert(all.take(i as int) + (seq![rest[0]] + placed(rest.skip(1), p)) =~= all.take(
                i + 1,
            ) + placed(all.skip(i + 1), p));
        }
        i = i + 1;
    }
    if i < sigs.len() && sigs[i].signer == p.signer {
        assert(all.take(i as int) + all.skip(i as int) =~= all);
        return;
    }
    proof {
        assert(all.take(i as int) + (seq![p] + all.skip(i as int)) =~= all.insert(i as int, p));
        if i == all.len() {
            assert(all.skip(i as int) =~= Seq::<PartialSig>::empty());
            assert(seq![p] + all.skip(i as int) =~= seq![p]);
        }
    }
    sigs.insert(i, p);
}

/// A typed, append-only log whose authority is a [`Manifest`].
///
/// It holds whatever subset of the signers' secrets it can sign with; each append
/// collects a signature from every one of them that is a declared signer. A core holding
/// fewer than the quorum makes heads that it cannot ratify alone.
pub struct ManifestCore<T, C, S> {
    manifest: Manifest,
    signers: Vec<SecretKey>,
    codec: C,
    store: S,
    tree: MerkleTree,
    head: Option<ManifestHead>,
    _t: PhantomData<T>,
}

/// The seeds of secret keys.
pub open spec fn seeds_of(keys: Seq<SecretKey>) -> Seq<[u8; 32]> {
    keys.map_values(|k: SecretKey| k@)
}

/// What an optional head says.
pub open spec fn head_view(h: Option<ManifestHead>) -> Option<Sealed> {
    match h {
        Some(h) => Some(h@),
        None => None,
    }
}

impl<T, C, S: Store> View for ManifestCore<T, C, S> {
    type V = Ruled;

    closed spec fn view(&self) -> Ruled {
        Ruled {
            policy: self.manifest@,
            seeds: seeds_of(self.signers@),
            tree: self.tree@,
            contents: self.store.contents(),
            head: head_view(self.head),
        }
    }
}

impl<T, C, S: Store> ManifestCore<T, C, S> {
    /// How values are encoded.
    pub closed spec fn codec(&self) -> C {
        self.codec
    }

    /// Whether the store is one.
    pub closed spec fn sound(&self) -> bool {
        self.store.wf()
    }

    /// Whether the store holds what was left in it.
    pub closed spec fn intact(&self) -> bool {
        self.store.intact()
    }

    /// The log's invariant.
    pub open spec fn wf(&self) -> bool {
        self.sound() && self@.proper()
    }
}

impl<T, C: Codec<T>, S: Store> ManifestCore<T, C, S> {
    /// A fresh, empty log under `manifest`; `signers` are the local secret keys.
    pub fn new(manifest: Manifest, signers: Vec<SecretKey>, codec: C, store: S) -> (m: Self)
        requires
            store.wf(),
        ensures
            m.wf(),
            m.intact() == store.intact(),
            m.codec() == codec,
            m@ == (Ruled {
                policy: manifest@,
                seeds: seeds_of(signers@),
                tree: empty_tree(),
                contents: store.contents(),
                head: None,
            }),
    {
        let m: ManifestCore<T, C, S> = ManifestCore {
            manifest,
            signers,
            codec,
            store,
            tree: MerkleTree::new(),
            head: None,
            _t: PhantomData,
        };
        proof {
            lemma_no_roots(m@.tree);
            assert(m@.tree.nodes =~= Map::<u64, Node>::empty());
        }
        m
    }

    /// The log's identity: the manifest's hash.
    pub fn key(&self) -> (k: [u8; 32])
        ensures
            k == self@.policy.hash(),
    {
        self.manifest.hash()
    }

    /// The signing policy.
    pub fn manifest(&self) -> (m: &Manifest)
        ensures
            m@ == self@.policy,
    {
        &self.manifest
    }

    /// How many blocks the log has.
    pub fn len(&self) -> (n: u64)
        ensures
            n == self@.tree.length,
    {
        self.tree.len()
    }

    /// Whether the log has no blocks.
    pub fn is_empty(&self) -> (b: bool)
        ensures
            b == (self@.tree.length == 0),
    {
        self.tree.is_empty()
    }

    /// The signed head, once there is one.
    pub fn head(&self) -> (h: Option<&ManifestHead>)
        ensures
            match h {
                Some(h) => self@.head == Some(h@),
                None => self@.head is None,
            },
    {
        match &self.head {
            Some(h) => Some(h),
            None => None,
        }
    }

    /// Re-sign the current tree head with every local signer that is a declared one. The
    /// signatures are collected in signer order, so two cores with the same signers make
    /// identical heads.
    fn resign(&mut self)
        requires
            old(self).sound(),
            old(self)@.tree.length < MAX_BLOCKS,
            old(self)@.tree.has_roots(old(self)@.tree.length as nat),
        ensures
            final(self).sound(),
            final(self).intact() == old(self).intact(),
            final(self).codec() == old(self).codec(),
            final(self)@ == (Ruled { head: Some(old(self)@.seal()), ..old(self)@ }),
            honest(old(self)@.policy, old(self)@.seal()),
    {
        let length: u64 = self.tree.len();
        let root: [u8; 32] = self.tree.root_hash();
        let mut sigs: Vec<PartialSig> = Vec::new();
        let ghost seeds = self@.seeds;
        let ghost policy = self@.policy;
        let mut i: usize = 0;
        assert(seeds.take(0) =~= Seq::<[u8; 32]>::empty());
        while i < self.signers.len()
            invariant
                i <= self.signers.len(),
                *self == *old(self),
                seeds == seeds_of(self.signers@),
                policy == self.manifest@,
                sigs@ == collected(policy, seeds.take(i as int), length, root),
                in_signer_order(sigs@),
                forall|k: int|
                    0 <= k < sigs@.len() ==> policy.signed(length, root, #[trigger] sigs@[k]),
            decreases self.signers.len() - i,
        {
            proof {
                assert(seeds.take(i + 1).drop_last() =~= seeds.take(i as int));
                assert(seeds.take(i + 1).last() == self.signers@[i as int]@);
            }
            match self.manifest.sign(&self.signers[i], length, &root) {
                Some(p) => {
                    let ghost before = sigs@;
                    proof {
                        lemma_placed(sigs@, p);
                    }
                    place(&mut sigs, p);
                    assert forall|k: int| 0 <= k < sigs@.len() implies policy.signed(
                        length,
                        root,
                        #[trigger] sigs@[k],
                    ) by {
                        if before.contains(sigs@[k]) {
                            let j = choose|j: int| 0 <= j < before.len() && before[j] == sigs@[k];
                            assert(policy.signed(length, root, before[j]));
                        }
                    }
                },
                None => {},
            }
            i = i + 1;
        }
        assert(seeds.take(i as int) =~= seeds);
        self.head = Some(ManifestHead { length, root, sigs });
        assert(self@ =~= Ruled { head: Some(old(self)@.seal()), ..old(self)@ });
    }

    /// Append a value; returns its block index. The new head is signed by the local
    /// signers, and verifies only if they reach the quorum.
    pub fn append(&mut self, value: &T) -> (r: Result<u64, Error<S::Error>>)
        requires
            old(self).wf(),
            old(self)@.tree.can_append(old(self).codec().encoding(value)),
        ensures
            final(self).codec() == old(self).codec(),
            match r {
                Ok(i) => {
                    let data = old(self).codec().encoding(value);
                    &&& i == old(self)@.tree.length
                    &&& final(self).wf()
                    &&& final(self)@ == (Ruled {
                        contents: final(self)@.contents,
                        ..old(self)@.appended(data)
                    })
                    &&& old(self).intact() ==> {
                        &&& final(self).intact()
                        &&& final(self)@.contents == old(self)@.contents.insert(
                            i,
                            final(self)@.contents[i],
                        )
                        &&& S::fits(data.len()) ==> final(self)@ == old(self)@.appended(data)
                    }
                },
                Err(e) => {
                    &&& e is Storage
                    &&& !S::sure()
                    &&& final(self).wf()
                    &&& final(self)@ == (Ruled { contents: final(self)@.contents, ..old(self)@ })
                    &&& old(self).intact() && final(self).intact() ==> final(self)@ == old(self)@
                },
            },
    {
        let bytes: Vec<u8> = self.codec.encode(value);
        let index: u64 = self.tree.len();
        match self.store.put(index, bytes.as_slice()) {
            Ok(()) => {},
            Err(e) => return Err(Error::Storage(e)),
        }
        proof {
            lemma_append_roots(self.tree@, bytes@);
        }
        self.tree.append(bytes.as_slice());
        self.resign();
        assert(self@ =~= Ruled { contents: self@.contents, ..old(self)@.appended(bytes@) });
        Ok(index)
    }

    /// What a read of block `index` gives.
    pub open spec fn read(&self, index: u64, r: Result<Option<T>, Error<S::Error>>) -> bool {
        let there = self@.contents.contains_key(index);
        match r {
            Ok(None) => index >= self@.tree.length,
            Ok(Some(v)) => index < self@.tree.length && (self.intact() ==> there
                && self.codec().refusal(self@.contents[index]) is None && self.codec().decodes(
                self@.contents[index],
                &v,
            )),
            Err(Error::Corrupt) => index < self@.tree.length && (self.intact() ==> !there),
            Err(Error::Codec(e)) => index < self@.tree.length && (self.intact() ==> there
                && self.codec().refusal(self@.contents[index]) == Some(e)),
            Err(e) => e is Storage && index < self@.tree.length && !S::sure(),
        }
    }

    /// Decode the value at `index`, or `None` past the length.
    pub fn get(&self, index: u64) -> (r: Result<Option<T>, Error<S::Error>>)
        requires
            self.wf(),
        ensures
            self.read(index, r),
    {
        match self.block(index) {
            Ok(Some(b)) => match self.codec.decode(b.as_slice()) {
                Ok(v) => Ok(Some(v)),
                Err(e) => Err(Error::Codec(e)),
            },
            Ok(None) => Ok(None),
            Err(e) => Err(e),
        }
    }

    /// The encoded bytes of block `index`, or `None` past the length.
    pub fn block(&self, index: u64) -> (r: Result<Option<Vec<u8>>, Error<S::Error>>)
        requires
            self.wf(),
        ensures
            match r {
                Ok(None) => index >= self@.tree.length,
                Ok(Some(b)) => index < self@.tree.length && (self.intact()
                    ==> self@.contents.contains_key(index) && b@ == self@.contents[index]),
                Err(Error::Corrupt) => index < self@.tree.length && (self.intact()
                    ==> !self@.contents.contains_key(index)),
                Err(e) => e is Storage && index < self@.tree.length && !S::sure(),
            },
    {
        if index >= self.tree.len() {
            return Ok(None);
        }
        match self.store.get(index) {
            Ok(Some(b)) => Ok(Some(b)),
            Ok(None) => Err(Error::Corrupt),
            Err(e) => Err(Error::Storage(e)),
        }
    }

    /// A Merkle inclusion proof for `index`; with the head it can be verified on its own.
    pub fn inclusion_proof(&self, index: u64) -> (r: Option<Proof>)
        requires
            self.wf(),
            index < self@.tree.length ==> self@.tree.path(2 * index as nat) is Some
                && self@.tree.nodes.contains_key((2 * index) as u64),
        ensures
            match r {
                Some(p) => index < self@.tree.length && p.block == index && p.leaf_size
                    == self@.tree.nodes[(2 * index) as u64].size && Some(p.siblings@)
                    == self@.tree.path(2 * index as nat) && p.roots@ == self@.tree.roots_at(
                    self@.tree.length as nat,
                ),
                None => index >= self@.tree.length,
            },
    {
        self.tree.inclusion_proof(index)
    }

    /// Whether our own head is the tree's and the quorum authorized it.
    pub fn verify_head(&self) -> (ok: bool)
        requires
            self.wf(),
        ensures
            ok == self@.verified(),
    {
        match &self.head {
            None => self.tree.is_empty(),
            Some(h) => h.length == self.tree.len() && same_32(&h.root, &self.tree.root_hash())
                && self.manifest.verify(h.length, &h.root, h.sigs.as_slice()),
        }
    }
}

/// Whether `data` is the block at `index` of the log that `policy` authorized `head` for.
pub open spec fn ruled_block_accepted(
    policy: Policy,
    head: Sealed,
    index: u64,
    data: Seq<u8>,
    p: Proof,
) -> bool {
    head.ratified(policy) && p.block == index && p.accepts(data, head.root)
}

/// Verify, from a public manifest and a head alone, that `data` is the block at `index`
/// in the log that the manifest governs.
pub fn verify_manifest_block(
    manifest: &Manifest,
    head: &ManifestHead,
    index: u64,
    data: &[u8],
    proof: &Proof,
) -> (ok: bool)
    ensures
        ok == ruled_block_accepted(manifest@, head@, index, data@, *proof),
{
    manifest.verify(head.length, &head.root, head.sigs.as_slice()) && proof.block == index
        && proof.verify(data, &head.root)
}

/// A verify-only replica of a [`ManifestCore`]: it holds the public manifest alone.
pub struct ManifestReplica<T, C, S> {
    manifest: Manifest,
    codec: C,
    store: S,
    tree: MerkleTree,
    head: Option<ManifestHead>,
    _t: PhantomData<T>,
}

/// What a [`ManifestReplica`] holds.
#[verifier::ext_equal]
pub ghost struct RuledMirror {
    pub policy: Policy,
    pub tree: Tree,
    pub contents: Contents,
    pub head: Option<Sealed>,
}

impl RuledMirror {
    /// What every replica keeps: a tree that has its roots.
    pub open spec fn proper(self) -> bool {
        &&& self.tree.keyed()
        &&& self.tree.length < MAX_BLOCKS
        &&& self.tree.has_roots(self.tree.length as nat)
        &&& !self.tree.nodes.contains_key(u64::MAX)
    }

    /// Whether the block is the next one, is the authorized log's, and has room.
    pub open spec fn takes(self, head: Sealed, index: u64, data: Seq<u8>, p: Proof) -> bool {
        index == self.tree.length && ruled_block_accepted(self.policy, head, index, data, p)
            && self.tree.can_append(data)
    }

    /// The replica with one more block of the log that `head` is of; once it has the
    /// whole log, `head` is what it has verified.
    pub open spec fn with_block(self, head: Sealed, data: Seq<u8>) -> RuledMirror {
        let tree = self.tree.appended(data);
        RuledMirror {
            tree,
            contents: self.contents.insert(self.tree.length, data),
            head: if tree.length == head.length && tree.root_hash() == head.root {
                Some(head)
            } else {
                self.head
            },
            ..self
        }
    }
}

impl<T, C, S: Store> View for ManifestReplica<T, C, S> {
    type V = RuledMirror;

    closed spec fn view(&self) -> RuledMirror {
        RuledMirror {
            policy: self.manifest@,
            tree: self.tree@,
            contents: self.store.contents(),
            head: head_view(self.head),
        }
    }
}

impl<T, C, S: Store> ManifestReplica<T, C, S> {
    /// How values are encoded.
    pub closed spec fn codec(&self) -> C {
        self.codec
    }

    /// Whether the store is one.
    pub closed spec fn sound(&self) -> bool {
        self.store.wf()
    }

    /// Whether the store holds what was left in it.
    pub closed spec fn intact(&self) -> bool {
        self.store.intact()
    }

    /// The replica's invariant.
    pub open spec fn wf(&self) -> bool {
        self.sound() && self@.proper()
    }
}

impl<T, C: Codec<T>, S: Store> ManifestReplica<T, C, S> {
    /// An empty replica of the log under `manifest`.
    pub fn new(manifest: Manifest, codec: C, store: S) -> (r: Self)
        requires
            store.wf(),
        ensures
            r.wf(),
            r.intact() == store.intact(),
            r.codec() == codec,
            r@ == (RuledMirror {
                policy: manifest@,
                tree: empty_tree(),
                contents: store.contents(),
                head: None,
            }),
    {
        let r: ManifestReplica<T, C, S> = ManifestReplica {
            manifest,
            codec,
            store,
            tree: MerkleTree::new(),
            head: None,
            _t: PhantomData,
        };
        proof {
            lemma_no_roots(r@.tree);
            assert(r@.tree.nodes =~= Map::<u64, Node>::empty());
        }
        r
    }

    /// How many blocks the replica has.
    pub fn len(&self) -> (n: u64)
        ensures
            n == self@.tree.length,
    {
        self.tree.len()
    }

    /// Whether the replica has no blocks.
    pub fn is_empty(&self) -> (b: bool)
        ensures
            b == (self@.tree.length == 0),
    {
        self.tree.is_empty()
    }

    /// The Merkle root hash of the blocks so far.
    pub fn root_hash(&self) -> (h: crate::merkle::Hash)
        requires
            self.wf(),
        ensures
            h == self@.tree.root_hash(),
    {
        self.tree.root_hash()
    }

    /// The authorized head that is fully replicated, if any.
    pub fn verified_head(&self) -> (h: Option<&ManifestHead>)
        ensures
            match h {
                Some(h) => self@.head == Some(h@),
                None => self@.head is None,
            },
    {
        match &self.head {
            Some(h) => Some(h),
            None => None,
        }
    }

    /// Verify the next block against the authorized `head`, then append it. Returns
    /// whether it was accepted; a rejected block is not stored.
    pub fn add_block(
        &mut self,
        head: &ManifestHead,
        index: u64,
        enc: &[u8],
        proof: &Proof,
    ) -> (r: Result<bool, Error<S::Error>>)
        requires
            old(self).wf(),
        ensures
            final(self).codec() == old(self).codec(),
            match r {
                Ok(true) => {
                    &&& old(self)@.takes(head@, index, enc@, *proof)
                    &&& final(self).wf()
                    &&& final(self)@ == (RuledMirror {
                        contents: final(self)@.contents,
                        ..old(self)@.with_block(head@, enc@)
                    })
                    &&& old(self).intact() ==> {
                        &&& final(self).intact()
                        &&& final(self)@.contents == old(self)@.contents.insert(
                            index,
                            final(self)@.contents[index],
                        )
                        &&& S::fits(enc@.len()) ==> final(self)@ == old(self)@.with_block(
                            head@,
                            enc@,
                        )
                    }
                },
                Ok(false) => !old(self)@.takes(head@, index, enc@, *proof) && *final(self) == *old(
                    self,
                ),
                Err(e) => {
                    &&& e is Storage
                    &&& !S::sure()
                    &&& old(self)@.takes(head@, index, enc@, *proof)
                    &&& final(self).wf()
                    &&& final(self)@ == (RuledMirror {
                        contents: final(self)@.contents,
                        ..old(self)@
                    })
                    &&& old(self).intact() && final(self).intact() ==> final(self)@ == old(self)@
                },
            },
    {
        if index != self.tree.len() {
            return Ok(false);
        }
        if !verify_manifest_block(&self.manifest, head, index, enc, proof) || !self.tree.has_room(
            enc,
        ) {
            return Ok(false);
        }
        match self.store.put(index, enc) {
            Ok(()) => {},
            Err(e) => return Err(Error::Storage(e)),
        }
        proof {
            lemma_append_roots(self.tree@, enc@);
        }
        self.tree.append(enc);
        if self.tree.len() == head.length && same_32(&self.tree.root_hash(), &head.root) {
            self.head = Some(head.clone());
        }
        proof {
            assert(self@ =~= RuledMirror {
                contents: self@.contents,
                ..old(self)@.with_block(head@, enc@)
            });
        }
        Ok(true)
    }

    /// Decode the value at `index`, or `None` past the length.
    pub fn get(&self, index: u64) -> (r: Result<Option<T>, Error<S::Error>>)
        requires
            self.wf(),
        ensures
            ({
                let there = self@.contents.contains_key(index);
                match r {
                    Ok(None) => index >= self@.tree.length,
                    Ok(Some(v)) => index < self@.tree.length && (self.intact() ==> there
                        && self.codec().refusal(self@.contents[index]) is None
                        && self.codec().decodes(self@.contents[index], &v)),
                    Err(Error::Corrupt) => index < self@.tree.length && (self.intact() ==> !there),
                    Err(Error::Codec(e)) => index < self@.tree.length && (self.intact() ==> there
                        && self.codec().refusal(self@.contents[index]) == Some(e)),
                    Err(e) => e is Storage && index < self@.tree.length && !S::sure(),
                }
            }),
    {
        if index >= self.tree.len() {
            return Ok(None);
        }
        match self.store.get(index) {
            Ok(Some(b)) => match self.codec.decode(b.as_slice()) {
                Ok(v) => Ok(Some(v)),
                Err(e) => Err(Error::Codec(e)),
            },
            Ok(None) => Err(Error::Corrupt),
            Err(e) => Err(Error::Storage(e)),
        }
    }
}

/// The public keys of `seeds` that the policy declares.
pub open spec fn local_keys(policy: Policy, seeds: Seq<[u8; 32]>) -> Set<Seq<u8>> {
    Set::new(
        |k: Seq<u8>|
            {
                &&& exists|i: int|
                    0 <= i < policy.signers.len() && (#[trigger] policy.signers[i]).public_key@@ == k
                &&& exists|j: int| 0 <= j < seeds.len() && ed25519_public((#[trigger] seeds[j])@) == k
            },
    )
}

/// The place of a key is the first one that has it.
proof fn lemma_place_of(policy: Policy, seed: [u8; 32], i: int)
    requires
        0 <= i <= policy.signers.len(),
    ensures
        match policy.place_of(seed, i) {
            Some(k) => i <= k < policy.signers.len() && policy.signers[k].public_key@@
                == ed25519_public(seed@) && forall|j: int|
                i <= j < k ==> (#[trigger] policy.signers[j]).public_key@@ != ed25519_public(seed@),
            None => forall|j: int|
                i <= j < policy.signers.len() ==> (#[trigger] policy.signers[j]).public_key@@
                    != ed25519_public(seed@),
        },
    decreases policy.signers.len() - i,
{
    if i < policy.signers.len() && policy.signers[i].public_key@@ != ed25519_public(seed@) {
        lemma_place_of(policy, seed, i + 1);
    }
}

/// Putting a signature in its place keeps the others, and adds one unless its signer is
/// already there.
proof fn lemma_placed_count(sigs: Seq<PartialSig>, p: PartialSig)
    requires
        in_signer_order(sigs),
    ensures
        forall|i: int| 0 <= i < sigs.len() ==> placed(sigs, p).contains(#[trigger] sigs[i]),
        (exists|i: int| 0 <= i < sigs.len() && (#[trigger] sigs[i]).signer == p.signer) ==> placed(
            sigs,
            p,
        ) == sigs,
        !(exists|i: int| 0 <= i < sigs.len() && (#[trigger] sigs[i]).signer == p.signer) ==> {
            &&& placed(sigs, p).len() == sigs.len() + 1
            &&& placed(sigs, p).contains(p)
        },
    decreases sigs.len(),
{
    let out = placed(sigs, p);
    if sigs.len() == 0 {
        assert(out[0] == p);
    } else if sigs[0].signer < p.signer {
        let rest = sigs.skip(1);
        let tail = placed(rest, p);
        assert forall|i: int, j: int| 0 <= i < j < rest.len() implies rest[i].signer
            < rest[j].signer by {
            assert(sigs[i + 1].signer < sigs[j + 1].signer);
        }
        lemma_placed_count(rest, p);
        assert forall|i: int| 0 <= i < sigs.len() implies out.contains(#[trigger] sigs[i]) by {
            if i == 0 {
                assert(out[0] == sigs[0]);
            } else {
                assert(tail.contains(rest[i - 1]));
                let k = choose|k: int| 0 <= k < tail.len() && tail[k] == rest[i - 1];
                assert(out[k + 1] == sigs[i]);
            }
        }
        if exists|i: int| 0 <= i < sigs.len() && (#[trigger] sigs[i]).signer == p.signer {
            let i = choose|i: int| 0 <= i < sigs.len() && (#[trigger] sigs[i]).signer == p.signer;
            assert(rest[i - 1].signer == p.signer);
            assert(out =~= sigs);
        } else {
            assert forall|i: int| 0 <= i < rest.len() implies (#[trigger] rest[i]).signer
                != p.signer by {
                assert(rest[i] == sigs[i + 1]);
            }
            let k = choose|k: int| 0 <= k < tail.len() && tail[k] == p;
            assert(out[k + 1] == p);
        }
    } else if sigs[0].signer == p.signer {
        assert(out == sigs);
    } else {
        assert forall|i: int| 0 <= i < sigs.len() implies (#[trigger] sigs[i]).signer
            != p.signer by {
            if i > 0 {
                assert(sigs[0].signer < sigs[i].signer);
            }
        }
        assert forall|i: int| 0 <= i < sigs.len() implies out.contains(#[trigger] sigs[i]) by {
            assert(out[i + 1] == sigs[i]);
        }
        assert(out[0] == p);
    }
}

/// Whether a signature's place is the first of its key, which is among `keys`.
spec fn first_of(policy: Policy, keys: Set<Seq<u8>>, p: PartialSig) -> bool {
    let at = p.signer as int;
    &&& at < policy.signers.len()
    &&& keys.contains(policy.signers[at].public_key@@)
    &&& forall|j: int|
        0 <= j < at ==> (#[trigger] policy.signers[j]).public_key@@
            != policy.signers[at].public_key@@
}

/// Whether a key is that of a signature.
spec fn covers(policy: Policy, sigs: Seq<PartialSig>, key: Seq<u8>) -> bool {
    exists|i: int|
        0 <= i < sigs.len() && policy.signers[(#[trigger] sigs[i]).signer as int].public_key@@ == key
}

/// There is one signature for each local key that is declared.
proof fn lemma_collected(policy: Policy, seeds: Seq<[u8; 32]>, length: u64, root: [u8; 32])
    requires
        policy.signers.len() <= usize::MAX,
    ensures
        in_signer_order(collected(policy, seeds, length, root)),
        local_keys(policy, seeds).finite(),
        local_keys(policy, seeds).len() == collected(policy, seeds, length, root).len(),
        forall|i: int|
            0 <= i < collected(policy, seeds, length, root).len() ==> first_of(
                policy,
                local_keys(policy, seeds),
                #[trigger] collected(policy, seeds, length, root)[i],
            ),
        forall|k: Seq<u8>| #[trigger]
            local_keys(policy, seeds).contains(k) ==> covers(
                policy,
                collected(policy, seeds, length, root),
                k,
            ),
    decreases seeds.len(),
{
    let keys = local_keys(policy, seeds);
    let out = collected(policy, seeds, length, root);
    if seeds.len() == 0 {
        assert(keys =~= Set::<Seq<u8>>::empty());
    } else {
        let less = seeds.drop_last();
        let had = local_keys(policy, less);
        let sigs = collected(policy, less, length, root);
        let last = seeds.last();
        let key = ed25519_public(last@);
        lemma_collected(policy, less, length, root);
        lemma_place_of(policy, last, 0);
        assert forall|k: Seq<u8>| had.contains(k) implies #[trigger] keys.contains(k) by {
            let j = choose|j: int| 0 <= j < less.len() && ed25519_public((#[trigger] less[j])@) == k;
            assert(seeds[j] == less[j]);
        }
        assert forall|k: Seq<u8>| k != key && #[trigger] keys.contains(k) implies had.contains(
            k,
        ) by {
            let j = choose|j: int|
                0 <= j < seeds.len() && ed25519_public((#[trigger] seeds[j])@) == k;
            assert(less[j] == seeds[j]);
        }
        match policy.partial(last, length, root) {
            None => {
                assert(keys =~= had);
            },
            Some(p) => {
                let at = p.signer as int;
                assert(seeds[seeds.len() - 1] == last);
                assert(keys.contains(policy.signers[at].public_key@@));
                assert(keys =~= had.insert(key));
                lemma_placed(sigs, p);
                lemma_placed_count(sigs, p);
                if had.contains(key) {
                    let i = choose|i: int|
                        0 <= i < sigs.len() && policy.signers[(#[trigger] sigs[i]).signer as int].public_key@@
                            == key;
                    assert(first_of(policy, had, sigs[i]));
                    assert(sigs[i].signer == p.signer) by {
                        if sigs[i].signer < at {
                            assert(policy.signers[sigs[i].signer as int].public_key@@ != key);
                        } else if at < sigs[i].signer {
                            assert(policy.signers[at].public_key@@ != key);
                        }
                    }
                    assert(keys =~= had);
                } else {
                    assert forall|i: int| 0 <= i < sigs.len() implies (#[trigger] sigs[i]).signer
                        != p.signer by {
                        assert(first_of(policy, had, sigs[i]));
                    }
                }
                assert forall|i: int| 0 <= i < out.len() implies first_of(
                    policy,
                    keys,
                    #[trigger] out[i],
                ) by {
                    if sigs.contains(out[i]) {
                        let k = choose|k: int| 0 <= k < sigs.len() && sigs[k] == out[i];
                        assert(first_of(policy, had, sigs[k]));
                    }
                }
                assert forall|k: Seq<u8>| #[trigger] keys.contains(k) implies covers(
                    policy,
                    out,
                    k,
                ) by {
                    if had.contains(k) {
                        let i = choose|i: int|
                            0 <= i < sigs.len() && policy.signers[(#[trigger] sigs[i]).signer as int].public_key@@
                                == k;
                        assert(out.contains(sigs[i]));
                        let n = choose|n: int| 0 <= n < out.len() && out[n] == sigs[i];
                        assert(policy.signers[out[n].signer as int].public_key@@ == k);
                    } else {
                        let n = choose|n: int| 0 <= n < out.len() && out[n] == p;
                        assert(policy.signers[out[n].signer as int].public_key@@ == k);
                    }
                }
            },
        }
    }
}

/// A head of a core's own, over its tree, is verified past the prologue if and only if at
/// least the quorum of distinct declared keys sign here.
pub proof fn law_quorum_of_signers(log: Ruled)
    requires
        log.proper(),
        log.head == Some(log.seal()),
        log.policy.signers.len() <= usize::MAX,
        !log.policy.within_prologue(log.tree.length),
    ensures
        log.verified() <==> 0 < log.policy.quorum <= local_keys(log.policy, log.seeds).len(),
{
    let sigs = log.seal().sigs;
    lemma_collected(log.policy, log.seeds, log.tree.length, log.tree.root_hash());
    assert forall|i: int, j: int| 0 <= i < j < sigs.len() implies sigs[i].signer
        != sigs[j].signer by {
        assert(in_signer_order(sigs));
    }
}

} // verus!
