//! The writer's side of a log.
use std::marker::PhantomData;
use vstd::prelude::*;
use super::meta::{decode_meta, encode_meta, meta_bytes, parsed_meta};
use super::user_data::{data_bytes, decode_user_data, encode_user_data, parsed_data};
use super::{
    block_views, can_extend, empty_tree, extended, head_message, Batch, Error, Hypercore, Log,
    Prologue, SignedHead, Truncation, KEY_META, KEY_PRESENCE, KEY_TREE, KEY_USERDATA,
};
use crate::bytemap::ByteMap;
use crate::bytes::{copy_of, same_32};
use crate::codec::Codec;
use crate::identity::{PublicKey, SecretKey, Sig};
use crate::merkle::growth::{lemma_append_roots, lemma_no_roots, lemma_truncate_roots};
use crate::merkle::tree::{fresh_under, parsed_tree};
use crate::merkle::{flat, MerkleTree, Proof, Tree, UpgradeProof, MAX_BLOCKS};
use crate::storage::bitfield::{bit_in, law_serialize, parsed_field};
use crate::storage::{Bitfield, Contents, Store};

verus! {

/// What the author's metadata for `key` is: the map under the reserved key.
pub open spec fn user_data(contents: Contents) -> Option<Map<Seq<u8>, Seq<u8>>> {
    if contents.contains_key(KEY_USERDATA) {
        parsed_data(contents[KEY_USERDATA])
    } else {
        Some(Map::empty())
    }
}

/// Whether bytes stand for the presence map `present`.
pub open spec fn keeps_presence(bytes: Seq<u8>, present: Set<u64>) -> bool {
    parsed_field(bytes) matches Some(f) && forall|i: u64| #[trigger]
        bit_in(f, i) == present.contains(i)
}

/// What a store holds once a log's metadata is written into it.
pub open spec fn persisted(log: Log, presence: Seq<u8>) -> Contents {
    log.contents.insert(KEY_TREE, log.tree.serialized()).insert(KEY_PRESENCE, presence).insert(
        KEY_META,
        meta_bytes(log.fork, log.head, log.prologue),
    )
}

/// Whether a store holds the metadata of a log.
pub open spec fn is_persisted(contents: Contents) -> bool {
    &&& contents.contains_key(KEY_META)
    &&& contents.contains_key(KEY_TREE)
    &&& contents.contains_key(KEY_PRESENCE)
}

/// The log that a store's metadata describe, if they are well-formed.
pub open spec fn described(contents: Contents, seed: [u8; 32], public: PublicKey) -> Option<Log> {
    match (
        parsed_tree(contents[KEY_TREE]),
        parsed_field(contents[KEY_PRESENCE]),
        parsed_meta(contents[KEY_META]),
    ) {
        (Some(tree), Some(pages), Some(meta)) => Some(
            Log {
                seed,
                public,
                tree,
                contents,
                present: Set::new(|i: u64| bit_in(pages, i)),
                head: meta.1,
                fork: meta.0,
                truncation: None,
                prologue: meta.2,
            },
        ),
        _ => None,
    }
}

/// Whether a described log is one: its tree has its roots and no index past every
/// block, and its head is the tree's and the author's.
pub open spec fn credible(log: Log) -> bool {
    &&& log.tree.length < MAX_BLOCKS
    &&& log.tree.has_roots(log.tree.length as nat)
    &&& !log.tree.nodes.contains_key(u64::MAX)
    &&& log.verified()
}

/// Whether a store keeps each of some blocks whole.
pub open spec fn all_fit<S: Store>(blocks: Seq<Seq<u8>>) -> bool {
    forall|i: int| 0 <= i < blocks.len() ==> S::fits((#[trigger] blocks[i]).len())
}

/// How many of the blocks of `[lo, hi)` are present.
pub open spec fn count_present(log: Log, lo: int, hi: int) -> nat
    decreases hi - lo,
{
    if lo >= hi {
        0
    } else {
        count_present(log, lo, hi - 1) + if log.has((hi - 1) as u64) {
            1nat
        } else {
            0
        }
    }
}

/// The stored blocks before `n`.
pub open spec fn stored_blocks(contents: Contents, n: nat) -> Seq<Seq<u8>> {
    Seq::new(n, |i: int| contents[i as u64])
}

/// How many blocks can be read from `i` on, up to `n`.
pub open spec fn readable(log: Log, i: nat, n: nat) -> nat
    decreases n - i,
{
    if i >= n || log.block(i as u64) is None {
        i
    } else {
        readable(log, i + 1, n)
    }
}

/// Whether every block before `n` is present.
pub open spec fn all_present(log: Log, n: u64) -> bool {
    forall|i: u64| i < n ==> #[trigger] log.has(i)
}

/// Whether contents are the same but for the keys of `[lo, hi)`.
pub open spec fn same_but(a: Contents, b: Contents, lo: int, hi: int) -> bool {
    forall|i: u64|
        !(lo <= i < hi) ==> (#[trigger] b.contains_key(i) == a.contains_key(i)) && (a.contains_key(
            i,
        ) ==> b[i] == a[i])
}

/// One more key at the end of a range.
proof fn lemma_same_but(a: Contents, b: Contents, c: Contents, lo: int, hi: u64)
    requires
        same_but(a, b, lo, hi as int),
        lo <= hi,
        c == b.insert(hi, c[hi]),
    ensures
        same_but(a, c, lo, hi + 1),
{
    assert forall|i: u64| !(lo <= i < hi + 1) implies (#[trigger] c.contains_key(i)
        == a.contains_key(i)) && (a.contains_key(i) ==> c[i] == a[i]) by {
        assert(b.contains_key(i) == a.contains_key(i));
    }
}

/// One key less within a range.
proof fn lemma_same_but_less(a: Contents, b: Contents, lo: int, hi: int, k: u64)
    requires
        same_but(a, b, lo, hi),
        lo <= k < hi,
    ensures
        same_but(a, b.remove(k), lo, hi),
{
    assert forall|i: u64| !(lo <= i < hi) implies (#[trigger] b.remove(k).contains_key(i)
        == a.contains_key(i)) && (a.contains_key(i) ==> b.remove(k)[i] == a[i]) by {
        assert(b.contains_key(i) == a.contains_key(i));
    }
}

/// What a store holds once `k` blocks that were written past the end of a log are taken
/// back.
pub open spec fn taken_back(log: Log, k: nat) -> Contents {
    log.contents.remove_keys(
        Set::new(|i: u64| log.tree.length <= i < log.tree.length + k),
    )
}

/// Whether blocks are what reading the first `n` of a log gives: what its store holds, if
/// it is intact.
pub open spec fn read_from<T, C, S: Store>(
    source: Hypercore<T, C, S>,
    n: u64,
    blocks: Seq<Seq<u8>>,
) -> bool {
    &&& blocks.len() == n
    &&& source.intact() ==> readable(source@, 0, n as nat) == n && blocks == stored_blocks(
        source@.contents,
        n as nat,
    )
}

/// Whether a log has taken up blocks under one head.
pub open spec fn adopted<T, C, S: Store>(
    was: Hypercore<T, C, S>,
    now: Hypercore<T, C, S>,
    blocks: Seq<Seq<u8>>,
) -> bool {
    &&& can_extend(was@.tree, blocks)
    &&& now@ == was@.committed(blocks).but_contents(now@.contents)
    &&& was.intact() && all_fit::<S>(blocks) ==> now@ == was@.committed(blocks)
}

/// Whether one block after the other fits into 64-bit indices and sizes.
fn room_for(tree: &MerkleTree, blocks: &Vec<Vec<u8>>) -> (ok: bool)
    requires
        tree@.keyed(),
    ensures
        ok == can_extend(tree@, block_views(blocks@)),
{
    let ghost all = block_views(blocks@);
    let mut probe: MerkleTree = tree.clone();
    let mut i: usize = 0;
    assert(all.take(0) =~= Seq::<Seq<u8>>::empty());
    while i < blocks.len()
        invariant
            i <= blocks@.len(),
            all == block_views(blocks@),
            probe@ == extended(tree@, all.take(i as int)),
            probe@.keyed(),
            can_extend(tree@, all.take(i as int)),
        decreases blocks@.len() - i,
    {
        proof {
            let more = all.take(i + 1);
            assert(more.drop_last() =~= all.take(i as int));
            assert(more.last() == blocks@[i as int]@);
        }
        if !probe.has_room(blocks[i].as_slice()) {
            proof {
                if can_extend(tree@, all) {
                    lemma_can_extend_prefix(tree@, all, i + 1);
                }
            }
            return false;
        }
        probe.append(blocks[i].as_slice());
        i = i + 1;
    }
    assert(all.take(i as int) =~= all);
    true
}

/// Whether a failed write has changed nothing of a log but what its store holds, and not
/// that either where the store is intact still.
pub open spec fn unharmed<T, C, S: Store>(
    was: Hypercore<T, C, S>,
    now: Hypercore<T, C, S>,
) -> bool {
    &&& now.wf()
    &&& now@ == was@.but_contents(now@.contents)
    &&& was.intact() && now.intact() ==> now@ == was@
}

impl<T, C: Codec<T>, S: Store> Hypercore<T, C, S> {
    /// Create a fresh, empty log written by `author`.
    pub fn new(author: SecretKey, codec: C, store: S) -> (h: Self)
        requires
            store.wf(),
        ensures
            h.wf(),
            h.intact() == store.intact(),
            h.codec() == codec,
            author.owns(h@.public),
            h@ == (Log {
                seed: author@,
                public: h@.public,
                tree: empty_tree(),
                contents: store.contents(),
                present: Set::empty(),
                head: None,
                fork: 0,
                truncation: None,
                prologue: None,
            }),
    {
        let public: PublicKey = author.public();
        let h: Hypercore<T, C, S> = Hypercore {
            author,
            public,
            codec,
            store,
            tree: MerkleTree::new(),
            presence: Bitfield::new(),
            head: None,
            fork: 0,
            last_truncation: None,
            prologue: None,
            _t: PhantomData,
        };
        proof {
            lemma_no_roots(h@.tree);
            assert(h@.present =~= Set::<u64>::empty());
            assert(h@.tree.nodes =~= Map::<u64, crate::merkle::Node>::empty());
        }
        h
    }

    /// Create a fresh, empty log written by `author` and bound to a [`Prologue`].
    /// [`copy_prologue`](Self::copy_prologue) then adopts the committed prefix.
    pub fn with_prologue(author: SecretKey, codec: C, store: S, prologue: Prologue) -> (h: Self)
        requires
            store.wf(),
        ensures
            h.wf(),
            h.intact() == store.intact(),
            h.codec() == codec,
            author.owns(h@.public),
            h@ == (Log {
                seed: author@,
                public: h@.public,
                tree: empty_tree(),
                contents: store.contents(),
                present: Set::empty(),
                head: None,
                fork: 0,
                truncation: None,
                prologue: Some(prologue),
            }),
    {
        let mut h: Hypercore<T, C, S> = Self::new(author, codec, store);
        h.prologue = Some(prologue);
        h
    }

    /// The author's public key.
    pub fn public_key(&self) -> (p: PublicKey)
        ensures
            p == self@.public,
    {
        self.public
    }

    /// The [`Prologue`] this log is bound to, if any.
    pub fn prologue(&self) -> (p: Option<&Prologue>)
        ensures
            match p {
                Some(p) => self@.prologue == Some(*p),
                None => self@.prologue is None,
            },
    {
        match &self.prologue {
            Some(p) => Some(p),
            None => None,
        }
    }

    /// A [`Prologue`] committing to this log's first `length` blocks, or `None` if
    /// `length > len()`.
    pub fn prologue_at(&self, length: u64) -> (p: Option<Prologue>)
        requires
            self.wf(),
        ensures
            match p {
                Some(p) => p.length == length && self@.tree.prefix_hash(length) == Some(p.hash),
                None => self@.tree.prefix_hash(length) is None,
            },
    {
        if length > self.tree.len() {
            return None;
        }
        match self.tree.prefix_root_hash(length) {
            Some(hash) => Some(Prologue { length, hash }),
            None => None,
        }
    }

    /// Whether this log satisfies its [`Prologue`]; one without trivially does.
    pub fn verify_prologue(&self) -> (ok: bool)
        requires
            self.wf(),
        ensures
            ok == self@.keeps_prologue(),
    {
        match self.prologue {
            None => true,
            Some(p) => match self.prologue_at(p.length) {
                Some(q) => same_32(&q.hash, &p.hash),
                None => false,
            },
        }
    }

    /// How many blocks the log has.
    pub fn len(&self) -> (n: u64)
        ensures
            n == self@.tree.length,
    {
        self.tree.len()
    }

    /// Whether the log has no blocks.
    pub fn is_empty(&self) -> (b: bool)
        ensures
            b == (self@.tree.length == 0),
    {
        self.tree.is_empty()
    }

    /// The signed head, once there is one.
    pub fn head(&self) -> (h: Option<&SignedHead>)
        ensures
            match h {
                Some(h) => self@.head == Some(*h),
                None => self@.head is None,
            },
    {
        match &self.head {
            Some(h) => Some(h),
            None => None,
        }
    }

    /// The fork counter: how often the log was truncated.
    pub fn fork(&self) -> (n: u64)
        ensures
            n == self@.fork,
    {
        self.fork
    }

    /// Total byte size of the blocks.
    pub fn byte_length(&self) -> (n: u64)
        requires
            self.wf(),
            Tree::weight(self@.tree.roots_at(self@.tree.length as nat)) <= u64::MAX,
        ensures
            n == Tree::weight(self@.tree.roots_at(self@.tree.length as nat)),
    {
        self.tree.byte_length()
    }

    /// The block that byte `byte_offset` of the encoded blocks falls in, and the offset
    /// within it; at or past the end, the length and how far past it.
    pub fn seek(&self, byte_offset: u64) -> (r: (u64, u64))
        requires
            self.wf(),
            self@.tree.seek_from(0, byte_offset) is Some,
        ensures
            Some(r) == self@.tree.seek_from(0, byte_offset),
    {
        self.tree.seek(byte_offset)
    }

    /// The truncation that the last operation performed, if it was one.
    pub fn last_truncation(&self) -> (t: Option<Truncation>)
        ensures
            t == self@.truncation,
    {
        self.last_truncation
    }

    /// The metadata map.
    fn load_user_data(&self) -> (r: Result<ByteMap, Error<S::Error>>)
        requires
            self.wf(),
        ensures
            match r {
                Ok(m) => m.wf() && (self.intact() ==> user_data(self@.contents) == Some(m@)),
                Err(Error::Corrupt) => self.intact() ==> user_data(self@.contents) is None,
                Err(e) => e is Storage && !S::sure(),
            },
    {
        match self.store.get(KEY_USERDATA) {
            Ok(Some(bytes)) => match decode_user_data(bytes.as_slice()) {
                Some(m) => Ok(m),
                None => Err(Error::Corrupt),
            },
            Ok(None) => Ok(ByteMap::new()),
            Err(e) => Err(Error::Storage(e)),
        }
    }

    /// Store app-defined metadata under `key`. It lives in the log's store under a
    /// reserved key, so it survives [`persist`](Self::persist) and [`open`](Self::open).
    pub fn set_user_data(&mut self, key: &[u8], value: &[u8]) -> (r: Result<(), Error<S::Error>>)
        requires
            old(self).wf(),
        ensures
            final(self).codec() == old(self).codec(),
            match r {
                Ok(()) => {
                    let data = data_bytes(
                        user_data(old(self)@.contents)->0.insert(key@, value@),
                    );
                    &&& final(self).wf()
                    &&& final(self)@ == old(self)@.but_contents(final(self)@.contents)
                    &&& old(self).intact() ==> {
                        &&& final(self).intact()
                        &&& user_data(old(self)@.contents) is Some
                        &&& final(self)@.contents == old(self)@.contents.insert(
                            KEY_USERDATA,
                            final(self)@.contents[KEY_USERDATA],
                        )
                        &&& S::fits(data.len()) ==> final(self)@.contents[KEY_USERDATA] == data
                    }
                },
                Err(Error::Corrupt) => *final(self) == *old(self) && (old(self).intact()
                    ==> user_data(old(self)@.contents) is None),
                Err(e) => {
                    &&& e is Storage
                    &&& !S::sure()
                    &&& unharmed(*old(self), *final(self))
                },
            },
    {
        let mut map: ByteMap = match self.load_user_data() {
            Ok(m) => m,
            Err(e) => return Err(e),
        };
        map.insert(copy_of(key), copy_of(value));
        let bytes: Vec<u8> = encode_user_data(&map);
        match self.store.put(KEY_USERDATA, bytes.as_slice()) {
            Ok(()) => {
                assert(self@ =~= old(self)@.but_contents(self@.contents));
                Ok(())
            },
            Err(e) => {
                assert(self@ =~= old(self)@.but_contents(self@.contents));
                Err(Error::Storage(e))
            },
        }
    }

    /// Read app-defined metadata for `key`.
    pub fn get_user_data(&self, key: &[u8]) -> (r: Result<Option<Vec<u8>>, Error<S::Error>>)
        requires
            self.wf(),
        ensures
            match r {
                Ok(v) => self.intact() ==> user_data(self@.contents) is Some && match v {
                    Some(v) => user_data(self@.contents)->0.contains_key(key@) && v@ == user_data(
                        self@.contents,
                    )->0[key@],
                    None => !user_data(self@.contents)->0.contains_key(key@),
                },
                Err(Error::Corrupt) => self.intact() ==> user_data(self@.contents) is None,
                Err(e) => e is Storage && !S::sure(),
            },
    {
        match self.load_user_data() {
            Ok(m) => match m.get(key) {
                Some(v) => Ok(Some(copy_of(v.as_slice()))),
                None => Ok(None),
            },
            Err(e) => Err(e),
        }
    }

    /// Re-sign the current tree head under the current fork.
    pub(super) fn resign(&mut self)
        requires
            old(self).sound(),
            old(self)@.tree.length < MAX_BLOCKS,
            old(self)@.tree.has_roots(old(self)@.tree.length as nat),
        ensures
            final(self).sound(),
            final(self).intact() == old(self).intact(),
            final(self).codec() == old(self).codec(),
            final(self)@ == old(self)@.sealed(),
            final(self)@.seal().signed_by(final(self)@.public),
    {
        let length: u64 = self.tree.len();
        let root: [u8; 32] = self.tree.root_hash();
        let message: Vec<u8> = head_message(self.fork, length, &root);
        let sig: Sig = self.author.sign(message.as_slice());
        assert(self.author.owns(self.public));
        self.head = Some(SignedHead { fork: self.fork, length, root, sig });
        assert(self@ =~= old(self)@.sealed());
    }

    /// Append a value; returns its block index.
    pub fn append(&mut self, value: &T) -> (r: Result<u64, Error<S::Error>>)
        requires
            old(self).wf(),
            old(self)@.tree.can_append(old(self).codec().encoding(value)),
        ensures
            final(self).codec() == old(self).codec(),
            match r {
                Ok(i) => {
                    let data = old(self).codec().encoding(value);
                    &&& i == old(self)@.tree.length
                    &&& final(self).wf()
                    &&& final(self)@ == old(self)@.appended(data).but_contents(
                        final(self)@.contents,
                    )
                    &&& old(self).intact() ==> {
                        &&& final(self).intact()
                        &&& final(self)@.contents == old(self)@.contents.insert(
                            i,
                            final(self)@.contents[i],
                        )
                        &&& S::fits(data.len()) ==> final(self)@ == old(self)@.appended(data)
                    }
                },
                Err(e) => {
                    &&& e is Storage
                    &&& !S::sure()
                    &&& unharmed(*old(self), *final(self))
                },
            },
    {
        let bytes: Vec<u8> = self.codec.encode(value);
        let index: u64 = self.tree.len();
        match self.store.put(index, bytes.as_slice()) {
            Ok(()) => {},
            Err(e) => {
                assert(self@ =~= old(self)@.but_contents(self@.contents));
                return Err(Error::Storage(e));
            },
        }
        proof {
            lemma_append_roots(self.tree@, bytes@);
        }
        self.tree.append(bytes.as_slice());
        self.presence.set(index, true);
        self.last_truncation = None;
        let ghost log = Log { truncation: None, ..old(self)@.grown(bytes@) };
        assert(self@.present =~= log.present);
        assert(self@ =~= Log { head: old(self)@.head, ..log }.but_contents(self@.contents));
        self.resign();
        assert(self@ =~= old(self)@.appended(bytes@).but_contents(self@.contents));
        Ok(index)
    }

    /// Rewind the log to its first `new_len` blocks, then sign a new head under an
    /// incremented fork counter. Returns what was done, or `None` if there is nothing to
    /// truncate or the committed prefix would be cut.
    ///
    /// Blocks past the new length become unreachable; their bytes are overwritten when
    /// their indices are appended again.
    pub fn truncate(&mut self, new_len: u64) -> (r: Option<Truncation>)
        requires
            old(self).wf(),
            old(self)@.can_truncate(new_len) ==> old(self)@.tree.has_roots(new_len as nat) && old(
                self,
            )@.fork < u64::MAX,
        ensures
            final(self).wf(),
            final(self).intact() == old(self).intact(),
            final(self).codec() == old(self).codec(),
            match r {
                Some(t) => {
                    &&& old(self)@.can_truncate(new_len)
                    &&& t == (Truncation { from: old(self)@.tree.length, to: new_len })
                    &&& final(self)@ == old(self)@.truncated(new_len)
                },
                None => !old(self)@.can_truncate(new_len) && final(self)@ == old(self)@,
            },
    {
        let from: u64 = self.tree.len();
        match self.prologue {
            Some(p) => {
                if new_len < p.length {
                    return None;
                }
            },
            None => {},
        }
        proof {
            if old(self)@.can_truncate(new_len) {
                lemma_truncate_roots(self.tree@, new_len);
            }
        }
        if !self.tree.truncate(new_len) {
            assert(self@ =~= old(self)@);
            return None;
        }
        self.presence.set_range(new_len, from, false);
        self.fork = self.fork + 1;
        let t: Truncation = Truncation { from, to: new_len };
        self.last_truncation = Some(t);
        proof {
            assert(self@.present =~= old(self)@.truncated(new_len).present);
        }
        self.resign();
        assert(self@ =~= old(self)@.truncated(new_len));
        Some(t)
    }

    /// Open an empty [`Batch`] based on the current log length.
    pub fn batch(&self) -> (b: Batch<T>)
        ensures
            b.start() == self@.tree.length,
            b.blocks() == Seq::<Seq<u8>>::empty(),
    {
        let b: Batch<T> = Batch { base: self.tree.len(), encoded: Vec::new(), _t: PhantomData };
        assert(b.blocks() =~= Seq::<Seq<u8>>::empty());
        b
    }

    /// Encode and stage `value`. The log is untouched.
    pub fn stage(&self, batch: &mut Batch<T>, value: &T)
        ensures
            final(batch).start() == old(batch).start(),
            final(batch).blocks() == old(batch).blocks().push(self.codec().encoding(value)),
    {
        batch.encoded.push(self.codec.encode(value));
        assert(batch.blocks() =~= old(batch).blocks().push(self.codec().encoding(value)));
    }

    /// Read block `index` as seen through `batch`: below the batch's base from the log,
    /// in the staged range from the batch. `None` past the batch's end.
    pub fn batch_get(&self, batch: &Batch<T>, index: u64) -> (r: Result<
        Option<T>,
        Error<S::Error>,
    >)
        requires
            self.wf(),
        ensures
            index < batch.start() ==> self.read(index, r),
            index >= batch.start() ==> {
                let i = index - batch.start();
                match r {
                    Ok(Some(v)) => i < batch.blocks().len() && self.codec().refusal(
                        batch.blocks()[i],
                    ) is None && self.codec().decodes(batch.blocks()[i], &v),
                    Ok(None) => i >= batch.blocks().len(),
                    Err(Error::Codec(e)) => i < batch.blocks().len() && self.codec().refusal(
                        batch.blocks()[i],
                    ) == Some(e),
                    Err(_) => false,
                }
            },
    {
        if index < batch.base {
            return self.get(index);
        }
        let i: u64 = index - batch.base;
        if i >= batch.encoded.len() as u64 {
            return Ok(None);
        }
        let bytes: &Vec<u8> = &batch.encoded[i as usize];
        assert(batch.blocks()[i as int] == bytes@);
        match self.codec.decode(bytes.as_slice()) {
            Ok(v) => Ok(Some(v)),
            Err(e) => Err(Error::Codec(e)),
        }
    }

    /// Apply every staged block under a single signed head; returns the new length.
    ///
    /// All or nothing: blocks are written to storage first and, on a storage failure, the
    /// writes are taken back and the tree and signed head are left untouched. Returns
    /// `Ok(None)`, leaving the log unchanged, if the log moved on since the batch was
    /// opened. An empty batch is a successful no-op.
    pub fn commit(&mut self, batch: Batch<T>) -> (r: Result<Option<u64>, Error<S::Error>>)
        requires
            old(self).wf(),
            batch.start() == old(self)@.tree.length ==> can_extend(
                old(self)@.tree,
                batch.blocks(),
            ),
        ensures
            final(self).codec() == old(self).codec(),
            match r {
                Ok(None) => batch.start() != old(self)@.tree.length && *final(self) == *old(self),
                Ok(Some(n)) => {
                    &&& batch.start() == old(self)@.tree.length
                    &&& n == final(self)@.tree.length
                    &&& final(self).wf()
                    &&& if batch.blocks().len() == 0 {
                        final(self)@ == old(self)@
                    } else {
                        &&& final(self)@ == old(self)@.committed(batch.blocks()).but_contents(
                            final(self)@.contents,
                        )
                        &&& old(self).intact() && all_fit::<S>(batch.blocks()) ==> final(self)@
                            == old(self)@.committed(batch.blocks())
                    }
                    &&& old(self).intact() ==> final(self).intact()
                },
                Err(e) => {
                    &&& e is Storage
                    &&& !S::sure()
                    &&& batch.start() == old(self)@.tree.length
                    &&& batch.blocks().len() > 0
                    &&& final(self).wf()
                    &&& final(self)@ == old(self)@.but_contents(final(self)@.contents)
                    &&& old(self).intact() && final(self).intact() ==> exists|k: nat|
                        k < batch.blocks().len() && final(self)@.contents == #[trigger] taken_back(
                            old(self)@,
                            k,
                        )
                },
            },
    {
        if batch.base != self.tree.len() {
            return Ok(None);
        }
        if batch.encoded.len() == 0 {
            return Ok(Some(self.tree.len()));
        }
        let ghost log = self@;
        let ghost blocks = batch.blocks();
        let start: u64 = self.tree.len();
        proof {
            lemma_can_extend_len(log.tree, blocks);
            assert(blocks.take(0) =~= Seq::<Seq<u8>>::empty());
        }
        let mut i: usize = 0;
        while i < batch.encoded.len()
            invariant
                i <= batch.encoded.len(),
                log == old(self)@,
                blocks == block_views(batch.encoded@),
                batch.base == start,
                start == log.tree.length,
                start + blocks.len() < MAX_BLOCKS,
                old(self)@.proper(),
                self.store.wf(),
                old(self).intact() ==> self.intact() && same_but(
                    log.contents,
                    self@.contents,
                    start as int,
                    start + i,
                ),
                self@ == log.but_contents(self@.contents),
                old(self).intact() && all_fit::<S>(blocks) ==> self@.contents == log.grown_by(
                    blocks.take(i as int),
                ).contents,
                log.grown_by(blocks.take(i as int)).tree.length == start + i,
                self.codec() == old(self).codec(),
                self.presence.wf(),
                self.author.owns(self.public),
            decreases batch.encoded.len() - i,
        {
            let index: u64 = start + i as u64;
            let ghost had = self@.contents;
            proof {
                let more = blocks.take(i + 1);
                assert(more.drop_last() =~= blocks.take(i as int));
                assert(more.last() == blocks[i as int]);
                assert(blocks[i as int] == batch.encoded@[i as int]@);
            }
            match self.store.put(index, batch.encoded[i].as_slice()) {
                Ok(()) => {},
                Err(e) => {
                    let mut k: usize = 0;
                    let ghost mut whole = old(self).intact() && self.intact();
                    assert(self@ =~= log.but_contents(self@.contents));
                    while k < i
                        invariant
                            k <= i < blocks.len(),
                            log == old(self)@,
                            log.proper(),
                            start == log.tree.length,
                            !S::sure(),
                            start + i < MAX_BLOCKS,
                            self.store.wf(),
                            self.presence.wf(),
                            self.author.owns(self.public),
                            whole ==> self.intact() && same_but(
                                log.contents,
                                self@.contents,
                                start as int,
                                start + i,
                            ) && forall|x: u64|
                                start <= x < start + k ==> !#[trigger] self@.contents.contains_key(
                                    x,
                                ),
                            !whole ==> !old(self).intact() || !self.intact(),
                            self@ == log.but_contents(self@.contents),
                            self.codec() == old(self).codec(),
                        decreases i - k,
                    {
                        let ghost held = self@.contents;
                        let undone: Result<(), S::Error> = self.store.delete(start + k as u64);
                        assert(self@ =~= log.but_contents(self@.contents));
                        k = k + 1;
                        proof {
                            whole = whole && undone is Ok;
                            if whole {
                                lemma_same_but_less(
                                    log.contents,
                                    held,
                                    start as int,
                                    start + i,
                                    (start + k - 1) as u64,
                                );
                                assert forall|x: u64|
                                    start <= x < start + k implies !#[trigger] self@.contents.contains_key(
                                    x,
                                ) by {
                                    assert(self@.contents == held.remove((start + k - 1) as u64));
                                    if x < start + k - 1 {
                                        assert(!held.contains_key(x));
                                    }
                                }
                            }
                        }
                    }
                    proof {
                        if whole {
                            assert(self@.contents =~= taken_back(log, i as nat));
                        }
                    }
                    return Err(Error::Storage(e));
                },
            }
            i = i + 1;
            proof {
                assert(self@ =~= log.but_contents(self@.contents));
                if old(self).intact() {
                    lemma_same_but(log.contents, had, self@.contents, start as int, index);
                }
            }
        }
        proof {
            assert(blocks.take(i as int) =~= blocks);
            lemma_grown_tree(log, blocks);
        }
        let ghost contents = self@.contents;
        let mut j: usize = 0;
        while j < batch.encoded.len()
            invariant
                j <= batch.encoded.len(),
                blocks == block_views(batch.encoded@),
                start == log.tree.length,
                start + blocks.len() < MAX_BLOCKS,
                can_extend(log.tree, blocks),
                log.proper(),
                self.sound(),
                old(self).intact() ==> self.intact(),
                self@ == log.grown_by(blocks.take(j as int)).but_contents(contents),
                self@.tree.keyed(),
                self@.tree.length == start + j,
                self@.tree.has_roots(self@.tree.length as nat),
                !self@.tree.nodes.contains_key(u64::MAX),
                self.codec() == old(self).codec(),
            decreases batch.encoded.len() - j,
        {
            proof {
                let more = blocks.take(j + 1);
                assert(more.drop_last() =~= blocks.take(j as int));
                assert(more.last() == blocks[j as int]);
                assert(blocks[j as int] == batch.encoded@[j as int]@);
                lemma_can_extend_prefix(log.tree, blocks, j + 1);
                lemma_grown_tree(log, blocks.take(j as int));
                lemma_append_roots(self.tree@, blocks[j as int]);
            }
            let ghost before = self@;
            self.tree.append(batch.encoded[j].as_slice());
            self.presence.set(start + j as u64, true);
            j = j + 1;
            proof {
                let next = log.grown_by(blocks.take(j as int)).but_contents(contents);
                assert(self@.present =~= next.present);
                assert(self@ =~= next);
            }
        }
        assert(blocks.take(j as int) =~= blocks);
        self.last_truncation = None;
        let ghost before = self@;
        self.resign();
        proof {
            assert(before == Log { truncation: None, ..log.grown_by(blocks) }.but_contents(
                contents,
            ));
            assert(self@ =~= log.committed(blocks).but_contents(contents));
        }
        Ok(Some(self.tree.len()))
    }

    /// Delete this log's blocks and metadata from the store and reset it to empty.
    pub fn purge(&mut self) -> (r: Result<(), Error<S::Error>>)
        requires
            old(self).wf(),
        ensures
            final(self).codec() == old(self).codec(),
            match r {
                Ok(()) => {
                    &&& final(self).wf()
                    &&& final(self)@ == old(self)@.purged().but_contents(final(self)@.contents)
                    &&& old(self).intact() ==> final(self).intact() && final(self)@ == old(
                        self,
                    )@.purged()
                },
                Err(e) => {
                    &&& e is Storage
                    &&& !S::sure()
                    &&& final(self).wf()
                    &&& final(self)@ == old(self)@.but_contents(final(self)@.contents)
                },
            },
    {
        let ghost log = self@;
        let n: u64 = self.tree.len();
        let mut i: u64 = 0;
        proof {
            assert(log.contents.remove_keys(Set::new(|k: u64| k < 0)) =~= log.contents);
        }
        while i < n
            invariant
                i <= n,
                log == old(self)@,
                n == log.tree.length,
                self.codec() == old(self).codec(),
                self.sound(),
                log.proper(),
                self@ == log.but_contents(self@.contents),
                old(self).intact() ==> self.intact() && self@.contents
                    == log.contents.remove_keys(Set::new(|k: u64| k < i)),
            decreases n - i,
        {
            match self.store.delete(i) {
                Ok(()) => {},
                Err(e) => {
                    assert(self@ =~= log.but_contents(self@.contents));
                    return Err(Error::Storage(e));
                },
            }
            i = i + 1;
            assert(self@ =~= log.but_contents(self@.contents));
            proof {
                if old(self).intact() {
                    assert(self@.contents =~= log.contents.remove_keys(Set::new(|k: u64| k < i)));
                }
            }
        }
        let reserved: [u64; 4] = [KEY_META, KEY_TREE, KEY_PRESENCE, KEY_USERDATA];
        let mut k: usize = 0;
        proof {
            assert(log.contents.remove_keys(Set::new(|x: u64| x < n)) =~= log.contents.remove_keys(
                Set::new(|x: u64| x < n || x > u64::MAX - 0),
            ));
        }
        while k < 4
            invariant
                k <= 4,
                reserved@ == seq![KEY_META, KEY_TREE, KEY_PRESENCE, KEY_USERDATA],
                log == old(self)@,
                self.codec() == old(self).codec(),
                self.sound(),
                log.proper(),
                self@ == log.but_contents(self@.contents),
                old(self).intact() ==> self.intact() && self@.contents
                    == log.contents.remove_keys(Set::new(|x: u64| x < n || x > u64::MAX - k)),
            decreases 4 - k,
        {
            match self.store.delete(reserved[k]) {
                Ok(()) => {},
                Err(e) => {
                    assert(self@ =~= log.but_contents(self@.contents));
                    return Err(Error::Storage(e));
                },
            }
            assert(reserved@[k as int] == u64::MAX - k);
            k = k + 1;
            assert(self@ =~= log.but_contents(self@.contents));
            proof {
                if old(self).intact() {
                    assert(self@.contents =~= log.contents.remove_keys(
                        Set::new(|x: u64| x < n || x > u64::MAX - k),
                    ));
                }
            }
        }
        self.tree = MerkleTree::new();
        self.presence = Bitfield::new();
        self.head = None;
        self.fork = 0;
        self.prologue = None;
        self.last_truncation = None;
        proof {
            lemma_no_roots(self@.tree);
            assert(self@.present =~= Set::<u64>::empty());
            assert(self@.tree.nodes =~= Map::<u64, crate::merkle::Node>::empty());
            assert(self@ =~= log.purged().but_contents(self@.contents));
            if old(self).intact() {
                assert(self@.contents =~= log.purged().contents);
            }
        }
        Ok(())
    }

    /// Read the first `n` blocks of a log.
    fn read_prefix(&self, n: u64) -> (r: Result<Vec<Vec<u8>>, Error<S::Error>>)
        requires
            self.wf(),
            n <= self@.tree.length,
        ensures
            ({
                let k = readable(self@, 0, n as nat);
                match r {
                    Ok(v) => {
                        &&& v@.len() == n
                        &&& all_present(self@, n)
                        &&& self.intact() ==> k == n && block_views(v@) == stored_blocks(
                            self@.contents,
                            n as nat,
                        )
                    },
                    Err(Error::PrologueMismatch) => !all_present(self@, n) && (self.intact()
                        ==> k < n && !self@.has(k as u64)),
                    Err(Error::Corrupt) => n > 0 && (self.intact() ==> k < n && self@.has(
                        k as u64,
                    )),
                    Err(e) => e is Storage && !S::sure() && n > 0,
                }
            }),
    {
        let mut v: Vec<Vec<u8>> = Vec::new();
        let mut i: u64 = 0;
        proof {
            assert(block_views(v@) =~= stored_blocks(self@.contents, 0));
        }
        while i < n
            invariant
                i <= n <= self@.tree.length,
                self.wf(),
                v@.len() == i,
                forall|x: u64| x < i ==> #[trigger] self@.has(x),
                self.intact() ==> readable(self@, 0, n as nat) == readable(
                    self@,
                    i as nat,
                    n as nat,
                ) && block_views(v@) == stored_blocks(self@.contents, i as nat),
            decreases n - i,
        {
            let data: Vec<u8> = match self.block(i) {
                Ok(Some(b)) => b,
                Ok(None) => return Err(Error::PrologueMismatch),
                Err(e) => return Err(e),
            };
            let ghost had = v@;
            v.push(data);
            i = i + 1;
            proof {
                assert(block_views(v@) =~= block_views(had).push(data@));
                if self.intact() {
                    assert(block_views(v@) =~= stored_blocks(self@.contents, i as nat));
                }
            }
        }
        Ok(v)
    }

    /// Adopt this empty log's committed prefix from `source`, signing it under our key.
    ///
    /// The prologue is content-addressed, so `source` need not share our key: any log
    /// whose first blocks hash to what the prologue names will do. The match is checked,
    /// and the blocks are read, before copying, so one that does not match or lacks a
    /// block leaves this log untouched.
    pub fn copy_prologue(&mut self, source: &Hypercore<T, C, S>) -> (r: Result<
        u64,
        Error<S::Error>,
    >)
        requires
            old(self).wf(),
            source.wf(),
        ensures
            final(self).codec() == old(self).codec(),
            match r {
                Ok(n) => {
                    &&& old(self)@.prologue matches Some(p) && p.length == n
                    &&& old(self)@.backed_by(source@)
                    &&& all_present(source@, n)
                    &&& final(self).wf()
                    &&& old(self).intact() ==> final(self).intact()
                    &&& exists|blocks: Seq<Seq<u8>>|
                        read_from(*source, n, blocks) && #[trigger] adopted(
                            *old(self),
                            *final(self),
                            blocks,
                        )
                },
                Err(Error::NoPrologue) => old(self)@.prologue is None && *final(self) == *old(
                    self,
                ),
                Err(Error::PrologueMismatch) => *final(self) == *old(self) && (old(
                    self,
                )@.prologue matches Some(p) && (!old(self)@.backed_by(source@) || (!all_present(
                    source@,
                    p.length,
                ) && (source.intact() ==> {
                    let k = readable(source@, 0, p.length as nat);
                    k < p.length && !source@.has(k as u64)
                })))),
                Err(Error::Corrupt) => *final(self) == *old(self) && (old(
                    self,
                )@.prologue matches Some(p) && old(self)@.backed_by(source@) && p.length > 0 && (
                source.intact() ==> {
                    let k = readable(source@, 0, p.length as nat);
                    if k < p.length {
                        source@.has(k as u64)
                    } else {
                        !can_extend(
                            old(self)@.tree,
                            stored_blocks(source@.contents, p.length as nat),
                        )
                    }
                })),
                Err(e) => {
                    &&& e is Storage
                    &&& !S::sure()
                    &&& final(self).wf()
                    &&& old(self)@.prologue matches Some(p) && {
                        &&& old(self)@.backed_by(source@)
                        &&& p.length > 0
                        &&& *final(self) == *old(self) || exists|blocks: Seq<Seq<u8>>, k: int|
                            {
                                &&& #[trigger] read_from(*source, p.length, blocks)
                                &&& 0 <= k < p.length
                                &&& final(self)@ == old(self)@.grown_by(
                                    #[trigger] blocks.take(k),
                                ).but_contents(final(self)@.contents)
                            }
                    }
                },
            },
    {
        let p: Prologue = match self.prologue {
            Some(p) => p,
            None => return Err(Error::NoPrologue),
        };
        if !self.is_empty() {
            return Err(Error::PrologueMismatch);
        }
        match source.prologue_at(p.length) {
            Some(q) => {
                if !same_32(&q.hash, &p.hash) {
                    return Err(Error::PrologueMismatch);
                }
            },
            None => return Err(Error::PrologueMismatch),
        }
        let ghost log = self@;
        let blocks: Vec<Vec<u8>> = match source.read_prefix(p.length) {
            Ok(v) => v,
            Err(e) => return Err(e),
        };
        let ghost all = block_views(blocks@);
        proof {
            assert(read_from(*source, p.length, all));
            assert(all.take(0) =~= Seq::<Seq<u8>>::empty());
            assert(log =~= log.grown_by(all.take(0)).but_contents(log.contents));
        }
        if !room_for(&self.tree, &blocks) {
            return Err(Error::Corrupt);
        }
        let mut i: usize = 0;
        while i < blocks.len()
            invariant
                i <= blocks@.len(),
                log == old(self)@,
                log.prologue == Some(p),
                log.backed_by(source@),
                log.proper(),
                log.tree.length == 0,
                self.sound(),
                old(self).intact() ==> self.intact(),
                self.codec() == old(self).codec(),
                all == block_views(blocks@),
                read_from(*source, p.length, all),
                all_present(source@, p.length),
                blocks@.len() == p.length,
                can_extend(log.tree, all),
                self@ == log.grown_by(all.take(i as int)).but_contents(self@.contents),
                old(self).intact() && all_fit::<S>(all) ==> self@.contents == log.grown_by(
                    all.take(i as int),
                ).contents,
                self@.tree.keyed(),
                self@.tree.length == i,
                self@.tree.has_roots(i as nat),
                !self@.tree.nodes.contains_key(u64::MAX),
            decreases blocks@.len() - i,
        {
            let ghost less = all.take(i as int);
            let ghost more = all.take(i + 1);
            let ghost data = blocks@[i as int]@;
            let at: u64 = i as u64;
            proof {
                assert(data == all[i as int]);
                assert(more.drop_last() =~= less);
                assert(more.last() == data);
                lemma_can_extend_prefix(log.tree, all, i + 1);
                lemma_grown_tree(log, less);
                lemma_append_roots(self.tree@, data);
            }
            match self.store.put(at, blocks[i].as_slice()) {
                Ok(()) => {},
                Err(e) => {
                    assert(self@ =~= log.grown_by(all.take(i as int)).but_contents(self@.contents));
                    return Err(Error::Storage(e));
                },
            }
            self.tree.append(blocks[i].as_slice());
            self.presence.set(at, true);
            i = i + 1;
            proof {
                assert(self@.present =~= log.grown_by(more).present);
                assert(self@ =~= log.grown_by(more).but_contents(self@.contents));
                if all_fit::<S>(all) {
                    assert(S::fits(all[i - 1].len()));
                }
            }
        }
        self.last_truncation = None;
        let ghost before = self@;
        proof {
            assert(all.take(i as int) =~= all);
            lemma_grown_tree(log, all);
            assert(before =~= Log { truncation: None, ..log.grown_by(all) }.but_contents(
                before.contents,
            ));
        }
        self.resign();
        assert(self@ =~= log.committed(all).but_contents(self@.contents));
        assert(adopted(*old(self), *self, all));
        Ok(p.length)
    }

    /// What a read of block `index` gives.
    pub open spec fn read(&self, index: u64, r: Result<Option<T>, Error<S::Error>>) -> bool {
        match r {
            Ok(None) => !self@.has(index),
            Ok(Some(v)) => self@.has(index) && (self.intact() ==> (self@.block(index) matches Some(
                b,
            ) && self.codec().refusal(b) is None && self.codec().decodes(b, &v))),
            Err(Error::Corrupt) => self@.has(index) && (self.intact() ==> self@.block(
                index,
            ) is None),
            Err(Error::Codec(e)) => self@.has(index) && (self.intact() ==> (self@.block(
                index,
            ) matches Some(b) && self.codec().refusal(b) == Some(e))),
            Err(e) => e is Storage && self@.has(index) && !S::sure(),
        }
    }

    /// Decode the value at `index`; `None` if it is out of range or absent.
    pub fn get(&self, index: u64) -> (r: Result<Option<T>, Error<S::Error>>)
        requires
            self.wf(),
        ensures
            self.read(index, r),
    {
        match self.block(index) {
            Ok(Some(bytes)) => match self.codec.decode(bytes.as_slice()) {
                Ok(v) => Ok(Some(v)),
                Err(e) => Err(Error::Codec(e)),
            },
            Ok(None) => Ok(None),
            Err(e) => Err(e),
        }
    }

    /// The encoded bytes of block `index`, exactly what the tree committed to; `None` if
    /// it is out of range or absent.
    pub fn block(&self, index: u64) -> (r: Result<Option<Vec<u8>>, Error<S::Error>>)
        requires
            self.wf(),
        ensures
            match r {
                Ok(None) => !self@.has(index),
                Ok(Some(b)) => self@.has(index) && (self.intact() ==> self@.block(index) == Some(
                    b@,
                )),
                Err(Error::Corrupt) => self@.has(index) && (self.intact() ==> self@.block(
                    index,
                ) is None),
                Err(e) => e is Storage && self@.has(index) && !S::sure(),
            },
    {
        if !self.has(index) {
            return Ok(None);
        }
        match self.store.get(index) {
            Ok(Some(b)) => Ok(Some(b)),
            Ok(None) => Err(Error::Corrupt),
            Err(e) => Err(Error::Storage(e)),
        }
    }

    /// Whether block `index` is within the log and present.
    pub fn has(&self, index: u64) -> (b: bool)
        requires
            self.wf(),
        ensures
            b == self@.has(index),
    {
        index < self.tree.len() && self.presence.get(index)
    }

    /// Length of the run of present blocks from index `0`.
    pub fn contiguous_length(&self) -> (n: u64)
        requires
            self.wf(),
        ensures
            n <= self@.tree.length,
            forall|i: u64| i < n ==> #[trigger] self@.has(i),
            n < self@.tree.length ==> !self@.has(n),
    {
        match self.presence.find_first(false, 0) {
            Some(i) => if i < self.tree.len() {
                i
            } else {
                self.tree.len()
            },
            None => self.tree.len(),
        }
    }

    /// Drop the bytes of the present blocks in `[start, end)`, marking them absent;
    /// returns how many there were. The tree is unchanged, so the log still authenticates
    /// them. Where the store fails, the blocks up to the one whose bytes it did not drop
    /// are marked absent, that one included.
    pub fn clear(&mut self, start: u64, end: u64) -> (r: Result<u64, Error<S::Error>>)
        requires
            old(self).wf(),
        ensures
            final(self).codec() == old(self).codec(),
            match r {
                Ok(n) => {
                    &&& n == count_present(old(self)@, start as int, end as int)
                    &&& final(self).wf()
                    &&& final(self)@ == old(self)@.cleared(start, end).but_contents(
                        final(self)@.contents,
                    )
                    &&& old(self).intact() ==> final(self).intact() && final(self)@ == old(
                        self,
                    )@.cleared(start, end)
                },
                Err(e) => {
                    &&& e is Storage
                    &&& !S::sure()
                    &&& final(self).wf()
                    &&& exists|i: u64|
                        start <= i < end && #[trigger] old(self)@.has(i) && final(self)@ == old(
                            self,
                        )@.cleared(start, (i + 1) as u64).but_contents(final(self)@.contents)
                },
            },
    {
        let top: u64 = if end < self.tree.len() {
            end
        } else {
            self.tree.len()
        };
        let ghost log = self@;
        let mut cleared: u64 = 0;
        let mut i: u64 = start;
        proof {
            assert(log.present_in(start, start) =~= Set::<u64>::empty());
            assert(log.present.difference(Set::<u64>::empty()) =~= log.present);
            assert(log.contents.remove_keys(Set::<u64>::empty()) =~= log.contents);
        }
        while i < top
            invariant
                start <= i,
                log == old(self)@,
                i <= top || i == start,
                top == if end < log.tree.length {
                    end
                } else {
                    log.tree.length
                },
                log.proper(),
                self.sound(),
                self.codec() == old(self).codec(),
                self@ == log.cleared(start, i).but_contents(self@.contents),
                old(self).intact() ==> self.intact() && self@ == log.cleared(start, i),
                cleared <= i - start,
                cleared == count_present(log, start as int, i as int),
            decreases top - i,
        {
            proof {
                assert(log.cleared(start, i).present.contains(i) == log.present.contains(i));
            }
            let ghost now = log.present_in(start, (i + 1) as u64);
            if self.presence.get(i) {
                assert(now =~= log.present_in(start, i).insert(i));
                let ghost kept = self@;
                self.presence.set(i, false);
                match self.store.delete(i) {
                    Ok(()) => {},
                    Err(e) => {
                        proof {
                            let gone = log.cleared(start, (i + 1) as u64);
                            assert forall|x: u64| self@.present.contains(x)
                                == gone.present.contains(x) by {
                                assert(self@.present.contains(x) == self.presence.bit(x));
                                assert(kept.present.contains(x) == (log.present.contains(x)
                                    && !log.present_in(start, i).contains(x)));
                            }
                            assert(self@.present =~= gone.present);
                            assert(log.has(i));
                            assert(self@ =~= gone.but_contents(self@.contents));
                        }
                        return Err(Error::Storage(e));
                    },
                }
                cleared = cleared + 1;
            } else {
                assert(now =~= log.present_in(start, i));
            }
            let ghost at = i;
            i = i + 1;
            proof {
                assert(now == log.present_in(start, i));
                assert forall|x: u64| self@.present.contains(x) == log.cleared(
                    start,
                    i,
                ).present.contains(x) by {
                    assert(self@.present.contains(x) == self.presence.bit(x));
                    assert(log.cleared(start, at).present.contains(x) == (log.present.contains(x)
                        && !log.present_in(start, at).contains(x)));
                }
                assert(self@.present =~= log.cleared(start, i).present);
                assert(self@ =~= log.cleared(start, i).but_contents(self@.contents));
                if old(self).intact() {
                    assert(self@.contents =~= log.cleared(start, i).contents);
                }
            }
        }
        proof {
            if start < end {
                lemma_count_past(log, start as int, i as int, end as int);
            }
            assert(log.present_in(start, i) =~= log.present_in(start, end));
        }
        Ok(cleared)
    }

    /// A Merkle inclusion proof for `index`; with the head it can be verified on its own.
    pub fn inclusion_proof(&self, index: u64) -> (r: Option<Proof>)
        requires
            self.wf(),
            index < self@.tree.length ==> self@.tree.path(2 * index as nat) is Some
                && self@.tree.nodes.contains_key((2 * index) as u64),
        ensures
            match r {
                Some(p) => index < self@.tree.length && p.block == index && p.leaf_size
                    == self@.tree.nodes[(2 * index) as u64].size && Some(p.siblings@)
                    == self@.tree.path(2 * index as nat) && p.roots@ == self@.tree.roots_at(
                    self@.tree.length as nat,
                ),
                None => index >= self@.tree.length,
            },
    {
        self.tree.inclusion_proof(index)
    }

    /// A proof that bridges length `old` to `new`; `None` unless `1 <= old < new <= len`.
    pub fn upgrade_proof(&self, old: u64, new: u64) -> (r: Option<UpgradeProof>)
        requires
            self.wf(),
            0 < old < new <= self@.tree.length ==> self@.tree.has_all(
                fresh_under(flat::roots_of(new as nat), old as nat),
            ),
        ensures
            match r {
                Some(p) => 0 < old < new <= self@.tree.length && p.old_len == old && p.new_len
                    == new && p.nodes@ == self@.tree.pick(
                    fresh_under(flat::roots_of(new as nat), old as nat),
                ),
                None => !(0 < old < new <= self@.tree.length),
            },
    {
        if new > self.tree.len() {
            return None;
        }
        self.tree.upgrade_proof(old, new)
    }

    /// Whether our own head is the tree's, and signed by our key.
    pub fn verify_head(&self) -> (ok: bool)
        requires
            self.wf(),
        ensures
            ok == self@.verified(),
    {
        match &self.head {
            None => self.tree.is_empty(),
            Some(h) => h.fork == self.fork && h.length == self.tree.len() && same_32(
                &h.root,
                &self.tree.root_hash(),
            ) && h.is_signed_by(&self.public),
        }
    }

    /// Write the parts that live in memory into the store, so that [`open`](Self::open)
    /// can bring the log back. The author's secret key is never written.
    pub fn persist(&mut self) -> (r: Result<(), Error<S::Error>>)
        requires
            old(self).wf(),
        ensures
            final(self).codec() == old(self).codec(),
            keeps_presence(old(self).presence_bytes(), old(self)@.present),
            match r {
                Ok(()) => {
                    let meta = meta_bytes(old(self)@.fork, old(self)@.head, old(self)@.prologue);
                    &&& final(self).wf()
                    &&& final(self)@ == old(self)@.but_contents(final(self)@.contents)
                    &&& old(self).intact() ==> final(self).intact()
                    &&& old(self).intact() && S::fits(old(self)@.tree.serialized().len()) && S::fits(
                        old(self).presence_bytes().len(),
                    ) && S::fits(meta.len()) ==> final(self)@.contents == persisted(
                        old(self)@,
                        old(self).presence_bytes(),
                    )
                },
                Err(e) => {
                    &&& e is Storage
                    &&& !S::sure()
                    &&& final(self).wf()
                    &&& final(self)@ == old(self)@.but_contents(final(self)@.contents)
                },
            },
    {
        let tree: Vec<u8> = self.tree.serialize();
        let presence: Vec<u8> = self.presence.serialize();
        let meta: Vec<u8> = encode_meta(self.fork, &self.head, &self.prologue);
        proof {
            self.presence.lemma_wf();
            law_serialize(self.presence@);
            let f = parsed_field(presence@)->0;
            assert forall|i: u64| #[trigger] bit_in(f, i) == self@.present.contains(i) by {
                assert(bit_in(self.presence@, i) == self.presence.bit(i));
            }
        }
        match self.store.put(KEY_TREE, tree.as_slice()) {
            Ok(()) => {},
            Err(e) => {
                assert(self@ =~= old(self)@.but_contents(self@.contents));
                return Err(Error::Storage(e));
            },
        }
        match self.store.put(KEY_PRESENCE, presence.as_slice()) {
            Ok(()) => {},
            Err(e) => {
                assert(self@ =~= old(self)@.but_contents(self@.contents));
                return Err(Error::Storage(e));
            },
        }
        match self.store.put(KEY_META, meta.as_slice()) {
            Ok(()) => {},
            Err(e) => {
                assert(self@ =~= old(self)@.but_contents(self@.contents));
                return Err(Error::Storage(e));
            },
        }
        assert(self@ =~= old(self)@.but_contents(self@.contents));
        Ok(())
    }

    /// Bring back a writable log from a store that [`persist`](Self::persist) wrote. The
    /// head is checked against the tree and the author's key: opening a store under the
    /// wrong key, or one whose metadata were tampered with, fails.
    pub fn open(author: SecretKey, codec: C, store: S) -> (r: Result<Self, Error<S::Error>>)
        requires
            store.wf(),
        ensures
            match r {
                Ok(h) => {
                    &&& author.owns(h@.public)
                    &&& credible(h@)
                    &&& h.wf()
                    &&& h.codec() == codec
                    &&& h.intact() == store.intact()
                    &&& h@.contents == store.contents()
                    &&& store.intact() ==> is_persisted(store.contents()) && described(
                        store.contents(),
                        author@,
                        h@.public,
                    ) == Some(h@)
                },
                Err(Error::NotPersisted) => store.intact() ==> !is_persisted(store.contents()),
                Err(Error::Corrupt) => store.intact() ==> is_persisted(store.contents())
                    && forall|p: PublicKey| #[trigger]
                    author.owns(p) ==> match described(store.contents(), author@, p) {
                        Some(log) => !credible(log),
                        None => true,
                    },
                Err(e) => e is Storage && !S::sure(),
            },
    {
        let public: PublicKey = author.public();
        let meta: Option<Vec<u8>> = match store.get(KEY_META) {
            Ok(b) => b,
            Err(e) => return Err(Error::Storage(e)),
        };
        let tree: Option<Vec<u8>> = match store.get(KEY_TREE) {
            Ok(b) => b,
            Err(e) => return Err(Error::Storage(e)),
        };
        let presence: Option<Vec<u8>> = match store.get(KEY_PRESENCE) {
            Ok(b) => b,
            Err(e) => return Err(Error::Storage(e)),
        };
        let ghost contents = store.contents();
        proof {
            assert forall|p: PublicKey| #[trigger] author.owns(p) implies p == public by {
                PublicKey::lemma_bytes(p, public);
            }
        }
        match (meta, tree, presence) {
            (Some(meta), Some(tree), Some(presence)) => {
                let tree: MerkleTree = match MerkleTree::deserialize(tree.as_slice()) {
                    Some(t) => t,
                    None => return Err(Error::Corrupt),
                };
                let presence: Bitfield = match Bitfield::deserialize(presence.as_slice()) {
                    Some(f) => f,
                    None => return Err(Error::Corrupt),
                };
                let meta: (u64, Option<SignedHead>, Option<Prologue>) = match decode_meta(
                    meta.as_slice(),
                ) {
                    Some(m) => m,
                    None => return Err(Error::Corrupt),
                };
                let h: Hypercore<T, C, S> = Hypercore {
                    author,
                    public,
                    codec,
                    store,
                    tree,
                    presence,
                    head: meta.1,
                    fork: meta.0,
                    last_truncation: None,
                    prologue: meta.2,
                    _t: PhantomData,
                };
                proof {
                    if store.intact() {
                        assert(described(contents, author@, public) matches Some(log) && log
                            =~= h@);
                    }
                }
                if h.tree.len() >= MAX_BLOCKS || h.tree.has_node(u64::MAX) {
                    return Err(Error::Corrupt);
                }
                if h.tree.prefix_roots(h.tree.len()).is_none() {
                    return Err(Error::Corrupt);
                }
                let ok: bool = match &h.head {
                    None => h.tree.is_empty(),
                    Some(d) => d.fork == h.fork && d.length == h.tree.len() && same_32(
                        &d.root,
                        &h.tree.root_hash(),
                    ) && d.is_signed_by(&h.public),
                };
                if !ok {
                    return Err(Error::Corrupt);
                }
                Ok(h)
            },
            _ => Err(Error::NotPersisted),
        }
    }
}

proof fn lemma_can_extend_len(t: Tree, blocks: Seq<Seq<u8>>)
    requires
        can_extend(t, blocks),
        t.length < MAX_BLOCKS,
    ensures
        extended(t, blocks).length == t.length + blocks.len(),
        t.length + blocks.len() < MAX_BLOCKS,
    decreases blocks.len(),
{
    if blocks.len() > 0 {
        lemma_can_extend_len(t, blocks.drop_last());
    }
}

proof fn lemma_can_extend_prefix(t: Tree, blocks: Seq<Seq<u8>>, n: int)
    requires
        can_extend(t, blocks),
        0 <= n <= blocks.len(),
    ensures
        can_extend(t, blocks.take(n)),
    decreases blocks.len(),
{
    if n == blocks.len() {
        assert(blocks.take(n) =~= blocks);
    } else {
        lemma_can_extend_prefix(t, blocks.drop_last(), n);
        assert(blocks.drop_last().take(n) =~= blocks.take(n));
    }
}

/// Growing a log extends its tree and touches neither key nor head.
pub proof fn lemma_grown_tree(log: Log, blocks: Seq<Seq<u8>>)
    ensures
        log.grown_by(blocks).tree == extended(log.tree, blocks),
        log.grown_by(blocks) == (Log {
            tree: log.grown_by(blocks).tree,
            contents: log.grown_by(blocks).contents,
            present: log.grown_by(blocks).present,
            ..log
        }),
    decreases blocks.len(),
{
    if blocks.len() > 0 {
        lemma_grown_tree(log, blocks.drop_last());
    }
}

proof fn lemma_count_past(log: Log, lo: int, a: int, b: int)
    requires
        lo <= a <= b <= u64::MAX,
        0 <= lo,
        a < b ==> log.tree.length <= a,
    ensures
        count_present(log, lo, b) == count_present(log, lo, a),
    decreases b - a,
{
    if a < b {
        lemma_count_past(log, lo, a, b - 1);
    }
}

} // verus!
