//! Typed, signed, append-only log.
//!
//! A single-writer log generic over a typed payload `T` (encoded via a [`Codec`]). Each
//! appended value is encoded to bytes, stored by index, and folded into a
//! [`MerkleTree`]; the writer then signs the new tree head with its key.
//!
//! That signed head and a per-block Merkle proof let any verifier, holding only the
//! author's public key, confirm that a block belongs to this log at a given index,
//! without trusting the sender. Ordering and verification never inspect `T`.
//!
//! [`Codec`]: crate::codec::Codec
use std::marker::PhantomData;
use vstd::prelude::*;
use crate::bytes::{le64, put_all, put_u64, same_32, same_bytes};
use crate::identity::{signature_by, PublicKey, SecretKey, Sig};
use crate::merkle::{MerkleTree, Proof, Tree, MAX_BLOCKS};
use crate::storage::bitfield::field_bytes;
use crate::storage::{Bitfield, Contents, Store};

pub mod writer;
pub mod effects;
pub mod forms;
pub mod heads;
pub mod laws;
pub mod manifest_core;
pub mod meta;
pub mod quorums;
pub mod replica;
pub mod restore;
pub mod snapshot;
pub mod stream;
pub mod user_data;

pub use manifest_core::{verify_manifest_block, ManifestCore, ManifestHead, ManifestReplica};
pub use replica::Replica;
pub use snapshot::Snapshot;
pub use stream::{ByteStream, ReadStream};

verus! {

/// Domain tag of the bytes that the author signs.
pub const HEAD_DOMAIN: u8 = 0xC0;

/// Reserved store keys. Block bytes occupy keys `0..length`; these live at the very top
/// of the key space, above every block index.
pub const KEY_META: u64 = 0xffff_ffff_ffff_ffff;

pub const KEY_TREE: u64 = 0xffff_ffff_ffff_fffe;

pub const KEY_PRESENCE: u64 = 0xffff_ffff_ffff_fffd;

pub const KEY_USERDATA: u64 = 0xffff_ffff_ffff_fffc;

/// The bytes that the author signs for a head.
pub open spec fn head_bytes(fork: u64, length: u64, root: [u8; 32]) -> Seq<u8> {
    seq![HEAD_DOMAIN] + (le64(fork) + (le64(length) + root@))
}

/// The bytes that the author signs for a head.
fn head_message(fork: u64, length: u64, root: &[u8; 32]) -> (m: Vec<u8>)
    ensures
        m@ == head_bytes(fork, length, *root),
{
    let mut m: Vec<u8> = Vec::new();
    m.push(HEAD_DOMAIN);
    put_u64(&mut m, fork);
    put_u64(&mut m, length);
    put_all(&mut m, root);
    assert(m@ =~= head_bytes(fork, length, *root));
    m
}

/// The author's signature over a tree head.
///
/// The signed message binds a `fork` counter alongside the length and root. The writer
/// bumps it whenever it deliberately rewinds and rewrites history; a reader follows the
/// highest fork. This tells a legitimate rewrite by the author apart from an
/// equivocation: two contradictory histories signed at the same fork.
#[derive(Debug, PartialEq, Eq)]
pub struct SignedHead {
    pub fork: u64,
    pub length: u64,
    pub root: crate::merkle::Hash,
    pub sig: Sig,
}

impl Clone for SignedHead {
    fn clone(&self) -> (r: Self)
        ensures
            r == *self,
    {
        SignedHead { fork: self.fork, length: self.length, root: self.root, sig: self.sig }
    }
}

impl SignedHead {
    /// What the signature is over.
    pub open spec fn message(self) -> Seq<u8> {
        head_bytes(self.fork, self.length, self.root)
    }

    /// Whether `public` signed this head.
    pub open spec fn signed_by(self, public: PublicKey) -> bool {
        public.accepts(self.message(), self.sig)
    }

    /// Whether `public` signed this head.
    fn is_signed_by(&self, public: &PublicKey) -> (ok: bool)
        ensures
            ok == self.signed_by(*public),
    {
        public.verify(head_message(self.fork, self.length, &self.root).as_slice(), &self.sig)
    }
}

/// Copy an optional head.
fn copy_head(head: &Option<SignedHead>) -> (r: Option<SignedHead>)
    ensures
        r == *head,
{
    match head {
        Some(h) => Some(h.clone()),
        None => None,
    }
}

/// The most recent truncation: the log shrank from `from` blocks to `to` blocks. The
/// next append or commit resets it.
#[derive(Clone, Copy, Debug, PartialEq, Eq)]
pub struct Truncation {
    pub from: u64,
    pub to: u64,
}

/// A commitment binding a log to a fixed prefix of another one: its first `length`
/// blocks must have Merkle root `hash`.
///
/// Mint one with [`Hypercore::prologue_at`], carry it on a new log made with
/// [`Hypercore::with_prologue`], then adopt the committed prefix with
/// [`Hypercore::copy_prologue`], which signs it under the new key. The commitment is
/// content-addressed: any holder of the same prefix can satisfy it.
#[derive(Clone, Copy, Debug, PartialEq, Eq)]
pub struct Prologue {
    /// Number of blocks the commitment fixes.
    pub length: u64,
    /// The Merkle root of those blocks.
    pub hash: crate::merkle::Hash,
}

/// Options for [`Hypercore::read_stream`]: a forward or reverse walk over the decoded
/// blocks in `[start, end)`.
#[derive(Clone, Copy, Debug)]
pub struct ReadStreamOptions {
    /// First block index to emit.
    pub start: u64,
    /// One past the last block index to emit; `None`, or one past the log, means the
    /// log's length.
    pub end: Option<u64>,
    /// Emit the range highest-index-first.
    pub reverse: bool,
    /// Keep tailing past `end`. A stream is a point-in-time view: this is ignored.
    pub live: bool,
}

impl Default for ReadStreamOptions {
    fn default() -> (o: Self)
        ensures
            o == (ReadStreamOptions { start: 0, end: None, reverse: false, live: false }),
    {
        ReadStreamOptions { start: 0, end: None, reverse: false, live: false }
    }
}

/// Options for [`Hypercore::byte_stream`]: whole encoded blocks that cover the byte
/// range `[byte_offset, byte_offset + byte_length)`.
#[derive(Clone, Copy, Debug)]
pub struct ByteStreamOptions {
    /// Where to start: at the block that this offset falls in.
    pub byte_offset: u64,
    /// How many bytes to cover; `None` means to the end.
    pub byte_length: Option<u64>,
}

impl Default for ByteStreamOptions {
    fn default() -> (o: Self)
        ensures
            o == (ByteStreamOptions { byte_offset: 0, byte_length: None }),
    {
        ByteStreamOptions { byte_offset: 0, byte_length: None }
    }
}

/// What a log's operations fail with, given what its store fails with.
#[derive(Debug, PartialEq, Eq)]
pub enum Error<SE> {
    Storage(SE),
    Codec(crate::codec::Error),
    /// A stored block was missing where the presence map says one is, or persisted
    /// metadata was malformed or failed its consistency and signature check.
    Corrupt,
    /// The store holds no persisted log.
    NotPersisted,
    /// The log carries no [`Prologue`] to satisfy.
    NoPrologue,
    /// The source does not back the [`Prologue`], or the log already holds blocks.
    PrologueMismatch,
}

/// A staged, atomic multi-block append.
///
/// Open one with [`Hypercore::batch`], stage values with [`Hypercore::stage`], then
/// apply them all at once with [`Hypercore::commit`], under a single signed head. A
/// batch records the log length it was opened against; if the log moves on before the
/// commit, the commit is rejected.
pub struct Batch<T> {
    base: u64,
    encoded: Vec<Vec<u8>>,
    _t: PhantomData<T>,
}

/// The bytes of blocks.
pub open spec fn block_views(blocks: Seq<Vec<u8>>) -> Seq<Seq<u8>> {
    blocks.map_values(|b: Vec<u8>| b@)
}

impl<T> Batch<T> {
    /// The log length that the batch was opened against.
    pub closed spec fn start(&self) -> u64 {
        self.base
    }

    /// The staged blocks.
    pub closed spec fn blocks(&self) -> Seq<Seq<u8>> {
        block_views(self.encoded@)
    }

    /// The log length this batch was opened against.
    pub fn base(&self) -> (n: u64)
        ensures
            n == self.start(),
    {
        self.base
    }

    /// Number of blocks staged so far.
    pub fn staged(&self) -> (n: usize)
        ensures
            n == self.blocks().len(),
    {
        self.encoded.len()
    }

    /// The length that the log would have after a commit.
    pub fn length(&self) -> (n: u64)
        requires
            self.start() + self.blocks().len() <= u64::MAX,
        ensures
            n == self.start() + self.blocks().len(),
    {
        self.base + self.encoded.len() as u64
    }

    /// Whether nothing is staged.
    pub fn is_empty(&self) -> (b: bool)
        ensures
            b == (self.blocks().len() == 0),
    {
        self.encoded.len() == 0
    }
}

/// A typed, signed, append-only log.
pub struct Hypercore<T, C, S> {
    author: SecretKey,
    public: PublicKey,
    codec: C,
    store: S,
    tree: MerkleTree,
    presence: Bitfield,
    head: Option<SignedHead>,
    fork: u64,
    last_truncation: Option<Truncation>,
    prologue: Option<Prologue>,
    _t: PhantomData<T>,
}

/// What a [`Hypercore`] is: the authenticated tree, what its store holds, and which
/// blocks are present in it. A block can be within the log's length yet absent.
#[verifier::ext_equal]
pub ghost struct Log {
    pub seed: [u8; 32],
    pub public: PublicKey,
    pub tree: Tree,
    pub contents: Contents,
    pub present: Set<u64>,
    pub head: Option<SignedHead>,
    pub fork: u64,
    pub truncation: Option<Truncation>,
    pub prologue: Option<Prologue>,
}

/// The tree of no blocks.
pub open spec fn empty_tree() -> Tree {
    Tree { nodes: Map::empty(), length: 0 }
}

/// `t` with one block after the other appended.
pub open spec fn extended(t: Tree, blocks: Seq<Seq<u8>>) -> Tree
    decreases blocks.len(),
{
    if blocks.len() == 0 {
        t
    } else {
        extended(t, blocks.drop_last()).appended(blocks.last())
    }
}

/// Whether one block after the other fits into 64-bit indices and sizes.
pub open spec fn can_extend(t: Tree, blocks: Seq<Seq<u8>>) -> bool
    decreases blocks.len(),
{
    blocks.len() > 0 ==> can_extend(t, blocks.drop_last()) && extended(
        t,
        blocks.drop_last(),
    ).can_append(blocks.last())
}

impl Log {
    /// What every reachable log keeps: a tree that has its roots, and a head that its
    /// author signed.
    pub open spec fn proper(self) -> bool {
        &&& self.tree.keyed()
        &&& self.tree.length < MAX_BLOCKS
        &&& self.tree.has_roots(self.tree.length as nat)
        &&& !self.tree.nodes.contains_key(u64::MAX)
        &&& self.head matches Some(h) ==> h.signed_by(self.public)
    }

    /// The author's head over the tree as it is.
    pub open spec fn seal(self) -> SignedHead {
        SignedHead {
            fork: self.fork,
            length: self.tree.length,
            root: self.tree.root_hash(),
            sig: signature_by(
                self.seed,
                head_bytes(self.fork, self.tree.length, self.tree.root_hash()),
            ),
        }
    }

    /// The log under a new head.
    pub open spec fn sealed(self) -> Log {
        Log { head: Some(self.seal()), ..self }
    }

    /// The log with one more block, not signed yet.
    pub open spec fn grown(self, data: Seq<u8>) -> Log {
        Log {
            tree: self.tree.appended(data),
            contents: self.contents.insert(self.tree.length, data),
            present: self.present.insert(self.tree.length),
            ..self
        }
    }

    /// The log with more blocks, not signed yet.
    pub open spec fn grown_by(self, blocks: Seq<Seq<u8>>) -> Log
        decreases blocks.len(),
    {
        if blocks.len() == 0 {
            self
        } else {
            self.grown_by(blocks.drop_last()).grown(blocks.last())
        }
    }

    /// The log after an append.
    pub open spec fn appended(self, data: Seq<u8>) -> Log {
        Log { truncation: None, ..self.grown(data) }.sealed()
    }

    /// The log after more blocks under one head.
    pub open spec fn committed(self, blocks: Seq<Seq<u8>>) -> Log {
        Log { truncation: None, ..self.grown_by(blocks) }.sealed()
    }

    /// Whether the log can be rewound to `n` blocks: it has more, and the committed
    /// prefix stays.
    pub open spec fn can_truncate(self, n: u64) -> bool {
        n < self.tree.length && (self.prologue matches Some(p) ==> n >= p.length)
    }

    /// The log rewound to `n` blocks, under the next fork.
    pub open spec fn truncated(self, n: u64) -> Log {
        Log {
            tree: self.tree.truncated(n),
            present: self.present.difference(
                Set::new(|i: u64| n <= i < self.tree.length),
            ),
            fork: (self.fork + 1) as u64,
            truncation: Some(Truncation { from: self.tree.length, to: n }),
            ..self
        }.sealed()
    }

    /// Whether block `i` is within the log and present.
    pub open spec fn has(self, i: u64) -> bool {
        i < self.tree.length && self.present.contains(i)
    }

    /// The bytes of block `i`, if it is present.
    pub open spec fn block(self, i: u64) -> Option<Seq<u8>> {
        if self.has(i) && self.contents.contains_key(i) {
            Some(self.contents[i])
        } else {
            None
        }
    }

    /// The present blocks of `[start, end)` within the log.
    pub open spec fn present_in(self, start: u64, end: u64) -> Set<u64> {
        Set::new(|i: u64| start <= i < end && self.has(i))
    }

    /// The log without the bytes of the blocks in `[start, end)`.
    pub open spec fn cleared(self, start: u64, end: u64) -> Log {
        Log {
            present: self.present.difference(self.present_in(start, end)),
            contents: self.contents.remove_keys(self.present_in(start, end)),
            ..self
        }
    }

    /// The keys that the log uses in its store: its blocks' and the reserved ones.
    pub open spec fn own_keys(self) -> Set<u64> {
        Set::new(|i: u64| i < self.tree.length || i >= KEY_USERDATA)
    }

    /// The log with nothing left of it.
    pub open spec fn purged(self) -> Log {
        Log {
            tree: empty_tree(),
            contents: self.contents.remove_keys(self.own_keys()),
            present: Set::empty(),
            head: None,
            fork: 0,
            truncation: None,
            prologue: None,
            ..self
        }
    }

    /// Whether the head is the tree's and the author's.
    pub open spec fn verified(self) -> bool {
        match self.head {
            None => self.tree.length == 0,
            Some(h) => h.fork == self.fork && h.length == self.tree.length && h.root
                == self.tree.root_hash() && h.signed_by(self.public),
        }
    }

    /// Whether the committed prefix is the log's.
    pub open spec fn keeps_prologue(self) -> bool {
        self.prologue matches Some(p) ==> self.tree.prefix_hash(p.length) == Some(p.hash)
    }

    /// Whether this log is empty and `source` has the prefix that it is bound to.
    pub open spec fn backed_by(self, source: Log) -> bool {
        self.prologue matches Some(p) && self.tree.length == 0 && source.tree.prefix_hash(p.length)
            == Some(p.hash)
    }

    /// The log, but for what its store holds.
    pub open spec fn but_contents(self, contents: Contents) -> Log {
        Log { contents, ..self }
    }
}

impl<T, C, S> Hypercore<T, C, S> {
    /// How values are encoded.
    pub closed spec fn codec(&self) -> C {
        self.codec
    }

    /// The bytes of the presence map.
    pub closed spec fn presence_bytes(&self) -> Seq<u8> {
        field_bytes(self.presence@)
    }
}

impl<T, C, S: Store> View for Hypercore<T, C, S> {
    type V = Log;

    closed spec fn view(&self) -> Log {
        Log {
            seed: self.author@,
            public: self.public,
            tree: self.tree@,
            contents: self.store.contents(),
            present: Set::new(|i: u64| self.presence.bit(i)),
            head: self.head,
            fork: self.fork,
            truncation: self.last_truncation,
            prologue: self.prologue,
        }
    }
}

impl<T, C, S: Store> Hypercore<T, C, S> {
    /// Whether the parts are: a store, a presence map, and a key pair.
    pub closed spec fn sound(&self) -> bool {
        &&& self.store.wf()
        &&& self.presence.wf()
        &&& self.author.owns(self.public)
    }

    /// Whether the log's store holds what was left in it. The log itself does not depend on
    /// that; what is read from it does.
    pub closed spec fn intact(&self) -> bool {
        self.store.intact()
    }

    /// The log's invariant.
    pub open spec fn wf(&self) -> bool {
        self.sound() && self@.proper()
    }
}

/// Whether `data` is the block at `index` of the log that `public` signed `head` for.
pub open spec fn block_accepted(
    public: PublicKey,
    head: SignedHead,
    index: u64,
    data: Seq<u8>,
    p: Proof,
) -> bool {
    head.signed_by(public) && p.block == index && p.accepts(data, head.root)
}

/// Verify, from a signed head alone, that `data` is the block at `index` in the log
/// owned by `public`.
pub fn verify_block(
    public: &PublicKey,
    head: &SignedHead,
    index: u64,
    data: &[u8],
    proof: &Proof,
) -> (ok: bool)
    ensures
        ok == block_accepted(*public, *head, index, data@, *proof),
{
    head.is_signed_by(public) && proof.block == index && proof.verify(data, &head.root)
}

/// Whether two signed heads from the same author are a proven equivocation: equal fork
/// and equal length but different roots, each carrying the author's signature.
///
/// At a fixed fork and length the root is a function of the blocks, so such heads are
/// evidence of two incompatible logs. Heads at different forks are a legitimate rewrite,
/// and heads of different lengths may extend one another: neither is flagged.
pub fn conflicting_heads(public: &PublicKey, a: &SignedHead, b: &SignedHead) -> (r: bool)
    ensures
        r == (a.fork == b.fork && a.length == b.length && a.root != b.root && a.signed_by(*public)
            && b.signed_by(*public)),
{
    a.fork == b.fork && a.length == b.length && !same_32(&a.root, &b.root) && a.is_signed_by(public)
        && b.is_signed_by(public)
}

/// Evidence that one author committed two different blocks at the same index.
///
/// Each side pairs a signed head with an inclusion proof and the block bytes it commits
/// at `index`. It works across heads of different lengths; a divergence across different
/// forks is a legitimate rewrite and no evidence.
#[derive(Debug, PartialEq, Eq)]
pub struct ForkProof {
    /// The block index at which the two logs disagree.
    pub index: u64,
    pub head_a: SignedHead,
    pub data_a: Vec<u8>,
    pub proof_a: Proof,
    pub head_b: SignedHead,
    pub data_b: Vec<u8>,
    pub proof_b: Proof,
}

impl ForkProof {
    /// Whether both sides are signed by `public` at the same fork, prove their block at
    /// the index, and commit different bytes there.
    pub open spec fn accepts(self, public: PublicKey) -> bool {
        &&& self.head_a.fork == self.head_b.fork
        &&& block_accepted(public, self.head_a, self.index, self.data_a@, self.proof_a)
        &&& block_accepted(public, self.head_b, self.index, self.data_b@, self.proof_b)
        &&& self.data_a@ != self.data_b@
    }

    /// Verify that this is a genuine equivocation by `public`.
    pub fn verify(&self, public: &PublicKey) -> (ok: bool)
        ensures
            ok == self.accepts(*public),
    {
        self.head_a.fork == self.head_b.fork && verify_block(
            public,
            &self.head_a,
            self.index,
            self.data_a.as_slice(),
            &self.proof_a,
        ) && verify_block(
            public,
            &self.head_b,
            self.index,
            self.data_b.as_slice(),
            &self.proof_b,
        ) && !same_bytes(self.data_a.as_slice(), self.data_b.as_slice())
    }
}

} // verus!
