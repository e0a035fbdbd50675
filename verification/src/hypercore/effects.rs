//! What each operation on a log changes, and what it leaves.
use vstd::prelude::*;
use super::replica::Mirror;
use super::snapshot::snap_of;
use super::stream::least;
use super::writer::{count_present, credible, lemma_grown_tree, readable};
use super::{
    block_accepted, extended, head_bytes, ForkProof, Log, Prologue, SignedHead, Truncation,
    KEY_USERDATA,
};
use crate::bytes::{le64, lemma_le64, lemma_le64_injective};
use crate::identity::{ed25519_accepts, signature_by, PublicKey};
use crate::merkle::{Proof, UpgradeProof, MAX_BLOCKS};

verus! {

/// What is signed for a head: a tag, the fork, the length and the root.
pub proof fn law_head_bytes(fork: u64, length: u64, root: [u8; 32])
    ensures
        head_bytes(fork, length, root) == seq![0xC0u8] + le64(fork) + le64(length) + root@,
{
    assert(head_bytes(fork, length, root) =~= seq![0xC0u8] + le64(fork) + le64(length) + root@);
}

/// What is signed for a head tells its fork, its length and its root: heads that differ in
/// one of them are signed apart.
pub proof fn law_head_binds(a: SignedHead, b: SignedHead)
    requires
        a.message() == b.message(),
    ensures
        a.fork == b.fork,
        a.length == b.length,
        a.root == b.root,
{
    let x = a.message();
    let y = b.message();
    law_head_bytes(a.fork, a.length, a.root);
    law_head_bytes(b.fork, b.length, b.root);
    lemma_le64(a.fork);
    lemma_le64(b.fork);
    lemma_le64(a.length);
    lemma_le64(b.length);
    assert(x.subrange(1, 9) =~= le64(a.fork));
    assert(y.subrange(1, 9) =~= le64(b.fork));
    assert(x.subrange(9, 17) =~= le64(a.length));
    assert(y.subrange(9, 17) =~= le64(b.length));
    assert(x.subrange(17, 49) =~= a.root@);
    assert(y.subrange(17, 49) =~= b.root@);
    lemma_le64_injective(a.fork, b.fork);
    lemma_le64_injective(a.length, b.length);
    assert(a.root =~= b.root);
}

/// A head is signed by a key if and only if ed25519 accepts its signature for what is signed
/// for its fork, length and root.
pub proof fn law_signed_by(h: SignedHead, public: PublicKey)
    ensures
        h.signed_by(public) <==> ed25519_accepts(
            public@@,
            seq![0xC0u8] + le64(h.fork) + le64(h.length) + h.root@,
            h.sig@@,
        ),
{
    law_head_bytes(h.fork, h.length, h.root);
}

/// Whether a head is the one that the author of a log signs over it.
pub open spec fn heads(log: Log) -> bool {
    log.head matches Some(h) && {
        &&& h.fork == log.fork
        &&& h.length == log.tree.length
        &&& h.root == log.tree.root_hash()
        &&& h.sig == signature_by(
            log.seed,
            seq![0xC0u8] + le64(log.fork) + le64(log.tree.length) + log.tree.root_hash()@,
        )
    }
}

/// Appending adds one block at the end, present and stored, under a new head; the fork, the
/// prologue and the keys stay, and a truncation before is forgotten.
pub proof fn law_append_changes(log: Log, data: Seq<u8>)
    requires
        log.tree.length < u64::MAX,
    ensures
        ({
            let now = log.appended(data);
            &&& now.tree == log.tree.appended(data)
            &&& now.tree.length == log.tree.length + 1
            &&& now.contents == log.contents.insert(log.tree.length, data)
            &&& forall|i: u64| #[trigger]
                now.present.contains(i) <==> log.present.contains(i) || i == log.tree.length
            &&& heads(now)
            &&& now.fork == log.fork
            &&& now.truncation == None::<Truncation>
            &&& now.prologue == log.prologue
            &&& now.seed == log.seed
            &&& now.public == log.public
        }),
{
    let now = log.appended(data);
    law_head_bytes(now.fork, now.tree.length, now.tree.root_hash());
}

/// Committing adds its blocks at the end, one after the other, present and stored, under one
/// new head; the fork, the prologue and the keys stay, and a truncation before is forgotten.
pub proof fn law_commit_changes(log: Log, blocks: Seq<Seq<u8>>)
    requires
        log.tree.length + blocks.len() <= u64::MAX,
    ensures
        ({
            let now = log.committed(blocks);
            &&& now.tree == extended(log.tree, blocks)
            &&& now.tree.length == log.tree.length + blocks.len()
            &&& forall|i: u64| #[trigger]
                now.contents.contains_key(i) <==> log.contents.contains_key(i) || log.tree.length
                    <= i < log.tree.length + blocks.len()
            &&& forall|i: u64| #[trigger]
                now.contents.contains_key(i) ==> now.contents[i] == if log.tree.length <= i
                    < log.tree.length + blocks.len() {
                    blocks[i - log.tree.length]
                } else {
                    log.contents[i]
                }
            &&& forall|i: u64| #[trigger]
                now.present.contains(i) <==> log.present.contains(i) || log.tree.length <= i
                    < log.tree.length + blocks.len()
            &&& heads(now)
            &&& now.fork == log.fork
            &&& now.truncation == None::<Truncation>
            &&& now.prologue == log.prologue
            &&& now.seed == log.seed
            &&& now.public == log.public
        }),
{
    let now = log.committed(blocks);
    lemma_grown_tree(log, blocks);
    lemma_grown_by(log, blocks);
    law_head_bytes(now.fork, now.tree.length, now.tree.root_hash());
}

proof fn lemma_grown_by(log: Log, blocks: Seq<Seq<u8>>)
    requires
        log.tree.length + blocks.len() <= u64::MAX,
    ensures
        ({
            let now = log.grown_by(blocks);
            &&& now.tree.length == log.tree.length + blocks.len()
            &&& forall|i: u64| #[trigger]
                now.contents.contains_key(i) <==> log.contents.contains_key(i) || log.tree.length
                    <= i < log.tree.length + blocks.len()
            &&& forall|i: u64| #[trigger]
                now.contents.contains_key(i) ==> now.contents[i] == if log.tree.length <= i
                    < log.tree.length + blocks.len() {
                    blocks[i - log.tree.length]
                } else {
                    log.contents[i]
                }
            &&& forall|i: u64| #[trigger]
                now.present.contains(i) <==> log.present.contains(i) || log.tree.length <= i
                    < log.tree.length + blocks.len()
        }),
    decreases blocks.len(),
{
    if blocks.len() > 0 {
        let less = blocks.drop_last();
        lemma_grown_by(log, less);
        let mid = log.grown_by(less);
        assert(log.grown_by(blocks) == mid.grown(blocks.last()));
        assert(mid.tree.length == log.tree.length + less.len());
    }
}

/// A log can be truncated to fewer blocks than it has, but never into its prologue.
pub proof fn law_can_truncate(log: Log, n: u64)
    ensures
        log.can_truncate(n) <==> n < log.tree.length && (log.prologue is Some
            ==> (log.prologue->0).length <= n),
{
}

/// A truncation raises the fork by exactly one, and signs the new head under it, so that its
/// head's fork is greater than that of every head the log had signed before. It leaves the
/// first blocks as they were, and says what it did.
pub proof fn law_truncate_changes(log: Log, n: u64)
    requires
        n < log.tree.length,
        log.fork < u64::MAX,
    ensures
        ({
            let now = log.truncated(n);
            &&& now.fork == log.fork + 1
            &&& heads(now)
            &&& (now.head->0).fork == log.fork + 1
            &&& now.tree == log.tree.truncated(n)
            &&& now.tree.length == n
            &&& now.contents == log.contents
            &&& forall|i: u64| #[trigger]
                now.present.contains(i) <==> log.present.contains(i) && !(n <= i < log.tree.length)
            &&& now.truncation == Some(Truncation { from: log.tree.length, to: n })
            &&& now.prologue == log.prologue
            &&& now.seed == log.seed
            &&& now.public == log.public
        }),
{
    let now = log.truncated(n);
    law_head_bytes(now.fork, now.tree.length, now.tree.root_hash());
}

/// Each of two truncations, whatever is appended between them, is signed under a fork of its
/// own: a replica that has followed the first will follow the second.
pub proof fn law_forks_go_up(log: Log, n: u64, data: Seq<u8>, m: u64)
    requires
        n < log.tree.length,
        m < n + 1,
        log.fork < u64::MAX - 1,
    ensures
        ({
            let one = log.truncated(n);
            let two = one.appended(data).truncated(m);
            &&& (one.head->0).fork == log.fork + 1
            &&& (two.head->0).fork == log.fork + 2
        }),
{
    law_truncate_changes(log, n);
    law_append_changes(log.truncated(n), data);
    law_truncate_changes(log.truncated(n).appended(data), m);
}

/// Clearing drops the bytes of the present blocks of a range, and changes nothing else.
pub proof fn law_clear_changes(log: Log, start: u64, end: u64)
    ensures
        ({
            let now = log.cleared(start, end);
            let gone = |i: u64| start <= i < end && i < log.tree.length && log.present.contains(i);
            &&& forall|i: u64| #[trigger]
                now.present.contains(i) <==> log.present.contains(i) && !gone(i)
            &&& forall|i: u64| #[trigger]
                now.contents.contains_key(i) <==> log.contents.contains_key(i) && !gone(i)
            &&& forall|i: u64| #[trigger]
                now.contents.contains_key(i) ==> now.contents[i] == log.contents[i]
            &&& now.tree == log.tree
            &&& now.head == log.head
            &&& now.fork == log.fork
            &&& now.truncation == log.truncation
            &&& now.prologue == log.prologue
            &&& now.seed == log.seed
            &&& now.public == log.public
        }),
{
}

/// How many blocks of a range are present: as many as there are.
pub proof fn law_count_present(log: Log, lo: int, hi: int)
    requires
        0 <= lo <= hi <= u64::MAX + 1,
    ensures
        ({
            let there = Set::new(
                |i: u64| lo <= i < hi && i < log.tree.length && log.present.contains(i),
            );
            there.finite() && count_present(log, lo, hi) == there.len()
        }),
    decreases hi - lo,
{
    let there = Set::new(|i: u64| lo <= i < hi && i < log.tree.length && log.present.contains(i));
    if lo == hi {
        assert(there =~= Set::empty());
    } else {
        let less = Set::new(
            |i: u64| lo <= i < hi - 1 && i < log.tree.length && log.present.contains(i),
        );
        let k = (hi - 1) as u64;
        law_count_present(log, lo, hi - 1);
        if log.has(k) {
            assert(there =~= less.insert(k));
        } else {
            assert(there =~= less);
        }
    }
}

/// Nothing is left of a purged log but its keys, nor of its blocks and metadata in its store,
/// which keeps whatever else it held.
pub proof fn law_purge_changes(log: Log)
    ensures
        ({
            let now = log.purged();
            &&& now.tree.length == 0
            &&& now.tree.nodes.dom() == Set::<u64>::empty()
            &&& now.head is None
            &&& now.fork == 0
            &&& now.present == Set::<u64>::empty()
            &&& now.truncation is None
            &&& now.prologue is None
            &&& now.seed == log.seed
            &&& now.public == log.public
            &&& forall|i: u64| #[trigger]
                now.contents.contains_key(i) <==> log.contents.contains_key(i) && log.tree.length
                    <= i < 0xffff_ffff_ffff_fffc
            &&& forall|i: u64| #[trigger]
                now.contents.contains_key(i) ==> now.contents[i] == log.contents[i]
        }),
{
    assert(log.purged().tree.nodes.dom() =~= Set::<u64>::empty());
    assert(KEY_USERDATA == 0xffff_ffff_ffff_fffc);
}

/// A block can be read if and only if it is within the log, present, and in the store; what
/// is read is what the store holds there.
pub proof fn law_reads(log: Log, i: u64)
    ensures
        log.has(i) <==> i < log.tree.length && log.present.contains(i),
        log.block(i) is Some <==> i < log.tree.length && log.present.contains(i)
            && log.contents.contains_key(i),
        log.block(i) is Some ==> log.block(i) == Some(log.contents[i]),
{
}

/// How far a log can be read: every block up to there can be, and the next one cannot.
pub proof fn law_readable(log: Log, i: nat, n: nat)
    requires
        i <= n <= u64::MAX,
    ensures
        i <= readable(log, i, n) <= n,
        forall|k: u64| i <= k < readable(log, i, n) ==> #[trigger] log.block(k) is Some,
        readable(log, i, n) < n ==> log.block(readable(log, i, n) as u64) is None,
    decreases n - i,
{
    if i < n && log.block(i as u64) is Some {
        law_readable(log, i + 1, n);
        assert forall|k: u64| i <= k < readable(log, i, n) implies #[trigger] log.block(k) is Some by {
            if k > i {
                assert(i + 1 <= k);
            }
        }
    }
}

/// A log's head is in order if and only if it says of the log what is so and the author
/// signed it; a log without one is in order while it is empty.
pub proof fn law_verified(log: Log)
    ensures
        log.verified() <==> if log.head is Some {
            let h = log.head->0;
            &&& h.fork == log.fork
            &&& h.length == log.tree.length
            &&& h.root == log.tree.root_hash()
            &&& ed25519_accepts(
                log.public@@,
                seq![0xC0u8] + le64(h.fork) + le64(h.length) + h.root@,
                h.sig@@,
            )
        } else {
            log.tree.length == 0
        },
        credible(log) <==> log.verified() && log.tree.length < 0x8000_0000_0000_0000
            && log.tree.has_roots(log.tree.length as nat) && !log.tree.nodes.contains_key(u64::MAX),
{
    if log.head is Some {
        law_signed_by(log.head->0, log.public);
    }
    assert(MAX_BLOCKS == 0x8000_0000_0000_0000);
}

/// A log keeps its prologue if and only if its first blocks, as many as that says, hash to
/// what it says; and a log backs the prologue of an empty one if and only if its do.
pub proof fn law_prologue_is(log: Log, source: Log, p: Prologue)
    ensures
        log.prologue == Some(p) ==> (log.keeps_prologue() <==> log.tree.prefix_hash(p.length)
            == Some(p.hash)),
        log.prologue is None ==> log.keeps_prologue() && !log.backed_by(source),
        log.prologue == Some(p) ==> (log.backed_by(source) <==> log.tree.length == 0
            && source.tree.prefix_hash(p.length) == Some(p.hash)),
{
}

/// A block is accepted for an index if and only if the author signed the head, and the proof
/// is of that index and leads from the block to the head's root.
pub proof fn law_block_accepted(
    public: PublicKey,
    head: SignedHead,
    index: u64,
    data: Seq<u8>,
    p: Proof,
)
    ensures
        block_accepted(public, head, index, data, p) <==> head.signed_by(public) && p.block == index
            && p.accepts(data, head.root),
{
}

/// A replica takes a block if and only if it is the next one, the author's head and proof
/// vouch for it, and 64 bits have room for it.
pub proof fn law_takes(m: Mirror, head: SignedHead, index: u64, data: Seq<u8>, p: Proof)
    ensures
        m.takes(head, index, data, p) <==> {
            &&& index == m.tree.length
            &&& head.signed_by(m.public)
            &&& p.block == index
            &&& p.accepts(data, head.root)
            &&& m.tree.can_append(data)
        },
{
}

/// A block that is taken comes at the end. The head it came with is verified once the
/// replica has all its blocks; until then the one verified before stays.
pub proof fn law_block_changes(m: Mirror, head: SignedHead, data: Seq<u8>)
    requires
        m.tree.length < u64::MAX,
    ensures
        ({
            let now = m.with_block(head, data);
            &&& now.tree == m.tree.appended(data)
            &&& now.tree.length == m.tree.length + 1
            &&& now.contents == m.contents.insert(m.tree.length, data)
            &&& now.public == m.public
            &&& head.length == m.tree.length + 1 && head.root == m.tree.appended(data).root_hash()
                ==> now.head == Some(head)
            &&& head.length != m.tree.length + 1 || head.root != m.tree.appended(data).root_hash()
                ==> now.head == m.head
        }),
{
}

/// A longer head is an upgrade if and only if the author signed it and the proof leads from
/// the roots that the replica has to its root.
pub proof fn law_upgrades(m: Mirror, head: SignedHead, p: UpgradeProof)
    ensures
        m.upgrades(head, p) <==> {
            &&& m.tree.length < head.length
            &&& head.signed_by(m.public)
            &&& p.old_len == m.tree.length
            &&& p.new_len == head.length
            &&& p.accepts(m.tree.roots_at(m.tree.length as nat), head.root)
        },
{
}

/// A head is a rewrite to follow if and only if it is of a higher fork than the one verified,
/// signed by the author, and shares the first blocks that it is said to: all of it, where it
/// is no longer than that, by the root, and else by a proof from those blocks to it, where
/// there are any.
pub proof fn law_reorgs(m: Mirror, head: SignedHead, ancestors: u64, p: Option<UpgradeProof>)
    requires
        m.tree.has_roots(ancestors as nat),
    ensures
        m.reorgs(head, ancestors, p) <==> {
            &&& m.head is Some && (m.head->0).fork < head.fork
            &&& head.signed_by(m.public)
            &&& ancestors <= m.tree.length
            &&& ancestors <= head.length
            &&& ancestors == head.length ==> m.tree.prefix_hash(ancestors) == Some(head.root)
            &&& 0 < ancestors < head.length ==> p is Some && (p->0).old_len == ancestors && (
            p->0).new_len == head.length && (p->0).accepts(
                m.tree.roots_at(ancestors as nat),
                head.root,
            )
        },
{
}

/// Following a rewrite leaves the shared blocks, and drops what was verified, unless those
/// blocks are all there is to the new head.
pub proof fn law_reorg_changes(m: Mirror, head: SignedHead, ancestors: u64)
    requires
        ancestors <= m.tree.length,
    ensures
        ({
            let now = m.reorganized(head, ancestors);
            &&& now.tree == m.tree.truncated(ancestors)
            &&& now.tree.length == ancestors
            &&& now.public == m.public
            &&& now.contents == m.contents
            &&& now.head == if ancestors == head.length && now.tree.root_hash() == head.root {
                Some(head)
            } else {
                None
            }
        }),
{
}

/// A proof of a fork holds if and only if the author signed both heads, at one fork, and
/// each proves another block at the index.
pub proof fn law_fork_accepted(f: ForkProof, public: PublicKey)
    ensures
        f.accepts(public) <==> {
            &&& f.head_a.fork == f.head_b.fork
            &&& f.head_a.signed_by(public)
            &&& f.head_b.signed_by(public)
            &&& f.proof_a.block == f.index
            &&& f.proof_b.block == f.index
            &&& f.proof_a.accepts(f.data_a@, f.head_a.root)
            &&& f.proof_b.accepts(f.data_b@, f.head_b.root)
            &&& f.data_a@ != f.data_b@
        },
{
}

/// A snapshot is of the length, fork, head and tree that the log has, and holds the blocks
/// that can be read, and no others.
pub proof fn law_snapshot_is(log: Log, i: u64)
    ensures
        snap_of(log).length == log.tree.length,
        snap_of(log).fork == log.fork,
        snap_of(log).head == log.head,
        snap_of(log).tree == log.tree,
        snap_of(log).blocks.contains_key(i) <==> log.block(i) is Some,
        snap_of(log).blocks.contains_key(i) ==> Some(snap_of(log).blocks[i]) == log.block(i),
{
}

/// The lesser of two numbers is one of them, and neither is less.
pub proof fn law_least(a: u64, b: u64)
    ensures
        least(a, b) == a || least(a, b) == b,
        least(a, b) <= a,
        least(a, b) <= b,
{
}

} // verus!
