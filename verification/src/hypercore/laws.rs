//! What holds of a log that was written block by block, and of its replicas.
use vstd::prelude::*;
use super::meta::law_meta;
use super::replica::Mirror;
use super::snapshot::{snap_of, Snap};
use super::writer::{credible, described, is_persisted, keeps_presence, lemma_grown_tree, persisted};
use super::{block_accepted, empty_tree, Log, Prologue, SignedHead};
use crate::identity::PublicKey;
use crate::merkle::hash::apart;
use crate::merkle::laws::{
    bytes_before, holds, law_empty, law_held_is_keyed, law_inclusion_proof, law_one_tree,
    lemma_bytes_mono, lemma_bytes_same, lemma_held_roots,
};
use crate::merkle::range_laws::{
    has_proof, has_tree, has_upgrade, law_ancestor, law_prefix_hash, law_sound_proof,
    law_root_length, law_sound_upgrade, law_upgrade_proof,
};
use crate::merkle::tree::fresh_under;
use crate::merkle::{flat, Proof, Tree, UpgradeProof, MAX_BLOCKS};

verus! {

/// Whether a log is that of `blocks`: its tree is theirs, each present block is stored,
/// and its head, if it has one, is over that tree.
pub open spec fn held(log: Log, blocks: Seq<Seq<u8>>) -> bool {
    &&& holds(log.tree, blocks)
    &&& forall|i: u64| #[trigger]
        log.has(i) ==> log.contents.contains_key(i) && log.contents[i] == blocks[i as int]
    &&& match log.head {
        Some(h) => h.fork == log.fork && h.length == log.tree.length && h.root
            == log.tree.root_hash(),
        None => log.tree.length == 0,
    }
}

/// Whether `blocks` and `data` fit into 64-bit indices and sizes.
pub open spec fn room(blocks: Seq<Seq<u8>>, data: Seq<u8>) -> bool {
    blocks.len() + 1 < MAX_BLOCKS && bytes_before(blocks, blocks.len()) + data.len() <= u64::MAX
}

/// A new log is that of no blocks.
pub proof fn law_new(log: Log)
    requires
        log.tree == empty_tree(),
        log.head is None,
    ensures
        held(log, Seq::empty()),
{
    law_empty();
}

/// A log of blocks has the roots that the invariant asks for.
pub proof fn law_held_is_proper(log: Log, blocks: Seq<Seq<u8>>)
    requires
        held(log, blocks),
        log.head matches Some(h) ==> h.signed_by(log.public),
    ensures
        log.proper(),
        log.verified(),
{
    law_held_is_keyed(log.tree, blocks);
    lemma_held_roots(log.tree, blocks, blocks.len());
}

/// What is appended can be read, and what was there stays: appending a block to the log
/// of some blocks gives the log of those blocks and the new one.
pub proof fn law_append(log: Log, blocks: Seq<Seq<u8>>, data: Seq<u8>)
    requires
        held(log, blocks),
        room(blocks, data),
    ensures
        log.tree.can_append(data),
        held(log.appended(data), blocks.push(data)),
        log.appended(data).block(log.tree.length) == Some(data),
        forall|i: u64|
            i < log.tree.length ==> #[trigger] log.appended(data).block(i) == log.block(i),
{
    let next = log.appended(data);
    crate::merkle::laws::law_append(log.tree, blocks, data);
    assert forall|i: u64| #[trigger] next.has(i) implies next.contents.contains_key(i)
        && next.contents[i] == blocks.push(data)[i as int] by {
        if i != log.tree.length {
            assert(log.has(i));
        }
    }
}

/// Rewinding the log of some blocks gives the log of the first of them, under the next
/// fork.
pub proof fn law_truncate(log: Log, blocks: Seq<Seq<u8>>, n: u64)
    requires
        held(log, blocks),
        log.can_truncate(n),
    ensures
        log.tree.has_roots(n as nat),
        held(log.truncated(n), blocks.take(n as int)),
        forall|i: u64| i < n ==> #[trigger] log.truncated(n).block(i) == log.block(i),
        forall|i: u64| i >= n ==> #[trigger] log.truncated(n).block(i) is None,
{
    let less = log.truncated(n);
    lemma_held_roots(log.tree, blocks, n as nat);
    crate::merkle::laws::law_truncate(log.tree, blocks, n);
    assert forall|i: u64| #[trigger] less.has(i) implies less.contents.contains_key(i)
        && less.contents[i] == blocks.take(n as int)[i as int] by {
        assert(log.has(i));
    }
}

/// The log after appending one block after the other, each under its own head.
pub open spec fn appended_each(log: Log, blocks: Seq<Seq<u8>>) -> Log
    decreases blocks.len(),
{
    if blocks.len() == 0 {
        log
    } else {
        appended_each(log, blocks.drop_last()).appended(blocks.last())
    }
}

/// A batch is its appends: committing blocks under one head gives the same log as
/// appending them one by one.
pub proof fn law_batch(log: Log, blocks: Seq<Seq<u8>>)
    requires
        blocks.len() > 0,
    ensures
        log.committed(blocks) == appended_each(log, blocks),
{
    lemma_batch(log, blocks);
}

/// Committing is appending: what a commit makes of a log, where the store keeps every block
/// whole, is what appending the staged blocks one by one makes of it, however many there
/// are.
pub proof fn law_commit(log: Log, blocks: Seq<Seq<u8>>)
    ensures
        (if blocks.len() == 0 {
            log
        } else {
            log.committed(blocks)
        }) == appended_each(log, blocks),
{
    lemma_batch(log, blocks);
}

proof fn lemma_batch(log: Log, blocks: Seq<Seq<u8>>)
    ensures
        blocks.len() > 0 ==> log.committed(blocks) == appended_each(log, blocks),
        log.grown_by(blocks) == (Log {
            head: log.head,
            truncation: log.truncation,
            ..appended_each(log, blocks)
        }),
    decreases blocks.len(),
{
    if blocks.len() > 0 {
        lemma_batch(log, blocks.drop_last());
        lemma_grown_tree(log, blocks);
        let less = blocks.drop_last();
        let a = log.grown_by(less);
        let b = appended_each(log, less);
        assert(a.grown(blocks.last()) == (Log {
            head: log.head,
            truncation: log.truncation,
            ..b.appended(blocks.last())
        }));
        assert(log.committed(blocks) =~= b.appended(blocks.last()));
    }
}

/// Clearing drops bytes and nothing else: the blocks of the range read as absent, all
/// others as before, and tree and head still authenticate every one of them.
pub proof fn law_clear(log: Log, blocks: Seq<Seq<u8>>, start: u64, end: u64)
    requires
        held(log, blocks),
    ensures
        held(log.cleared(start, end), blocks),
        log.cleared(start, end).tree == log.tree,
        log.cleared(start, end).head == log.head,
        forall|i: u64|
            start <= i < end ==> #[trigger] log.cleared(start, end).block(i) is None,
        forall|i: u64|
            !(start <= i < end) ==> #[trigger] log.cleared(start, end).block(i) == log.block(i),
{
    let next = log.cleared(start, end);
    assert forall|i: u64| #[trigger] next.has(i) implies next.contents.contains_key(i)
        && next.contents[i] == blocks[i as int] by {
        assert(log.has(i));
    }
}

proof fn lemma_below(m: u64)
    ensures
        Set::new(|i: u64| i < m).finite(),
        Set::new(|i: u64| i < m).len() == m,
    decreases m,
{
    let s = Set::new(|i: u64| i < m);
    if m == 0 {
        assert(s =~= Set::<u64>::empty());
    } else {
        let k = (m - 1) as u64;
        lemma_below(k);
        assert(s =~= Set::new(|i: u64| i < k).insert(k));
    }
}

/// The tree of blocks has finitely many nodes.
proof fn lemma_held_finite(t: Tree, blocks: Seq<Seq<u8>>)
    requires
        holds(t, blocks),
    ensures
        t.nodes.dom().finite(),
        t.nodes.len() <= u64::MAX,
{
    let m = (2 * blocks.len()) as u64;
    lemma_below(m);
    let s = Set::new(|i: u64| i < m);
    assert forall|i: u64| t.nodes.dom().contains(i) implies s.contains(i) by {
        assert(t.nodes.contains_key(i));
        flat::lemma_range(i as nat);
    }
    vstd::set_lib::lemma_set_subset_finite(s, t.nodes.dom());
    vstd::set_lib::lemma_len_subset(t.nodes.dom(), s);
}

/// What is persisted can be opened: a store into which the log of some blocks was
/// written describes that same log, and its blocks are still in it.
pub proof fn law_reopen(log: Log, blocks: Seq<Seq<u8>>, presence: Seq<u8>)
    requires
        held(log, blocks),
        log.head matches Some(h) ==> h.signed_by(log.public),
        keeps_presence(presence, log.present),
    ensures
        is_persisted(persisted(log, presence)),
        described(persisted(log, presence), log.seed, log.public) == Some(
            Log { contents: persisted(log, presence), truncation: None, ..log },
        ),
        credible(Log { contents: persisted(log, presence), truncation: None, ..log }),
        held(Log { contents: persisted(log, presence), truncation: None, ..log }, blocks),
{
    let contents = persisted(log, presence);
    let again = Log { contents, truncation: None, ..log };
    law_held_is_proper(log, blocks);
    lemma_held_finite(log.tree, blocks);
    crate::merkle::range_laws::law_serialize(log.tree);
    law_meta(log.fork, log.head, log.prologue);
    let d = described(contents, log.seed, log.public)->0;
    assert(d.present =~= log.present);
    assert(d =~= again);
    assert forall|i: u64| #[trigger] again.has(i) implies again.contents.contains_key(i)
        && again.contents[i] == blocks[i as int] by {
        assert(log.has(i));
        assert(i < MAX_BLOCKS);
    }
}

/// What is persisted cannot be opened under a key for which the head's signature is not
/// good: what the store describes under it is no credible log.
pub proof fn law_other_key(log: Log, presence: Seq<u8>, seed: [u8; 32], public: PublicKey)
    requires
        log.head matches Some(h) && !h.signed_by(public),
    ensures
        is_persisted(persisted(log, presence)),
        described(persisted(log, presence), seed, public) matches Some(d) ==> !credible(d),
{
    law_meta(log.fork, log.head, log.prologue);
}

/// Each block of a log verifies against the log's signed head with the log's own proof.
pub proof fn law_verify_block(log: Log, blocks: Seq<Seq<u8>>, p: Proof)
    requires
        held(log, blocks),
        log.head matches Some(h) && h.signed_by(log.public),
        p.block < blocks.len(),
        p.leaf_size == log.tree.nodes[(2 * p.block) as u64].size,
        Some(p.siblings@) == log.tree.path(2 * p.block as nat),
        p.roots@ == log.tree.roots_at(blocks.len()),
    ensures
        log.tree.path(2 * p.block as nat) is Some,
        log.tree.nodes.contains_key((2 * p.block) as u64),
        block_accepted(log.public, log.head->0, p.block, blocks[p.block as int], p),
{
    law_inclusion_proof(log.tree, blocks, p);
    flat::lemma_leaf(p.block as nat);
}

/// No other block verifies: what any proof places at an index against the root of a log
/// is the block that the log has there, where BLAKE3 tells the inputs `s` apart and all
/// that is hashed for the log and the proof is among them.
pub proof fn law_only_block(
    public: PublicKey,
    head: SignedHead,
    t: Tree,
    blocks: Seq<Seq<u8>>,
    index: u64,
    data: Seq<u8>,
    p: Proof,
    s: Set<Seq<u8>>,
)
    requires
        holds(t, blocks),
        head.root == t.root_hash(),
        block_accepted(public, head, index, data, p),
        apart(s),
        has_tree(s, t, blocks),
        has_proof(s, p, data),
    ensures
        index < blocks.len(),
        data == blocks[index as int],
{
    law_sound_proof(t, blocks, p, data, s);
}

/// A replica that holds the first blocks of a log takes the next one from the log, and
/// then holds one more; with the last one the log's head is verified.
pub proof fn law_replicate(m: Mirror, log: Log, blocks: Seq<Seq<u8>>, p: Proof)
    requires
        held(log, blocks),
        log.head matches Some(h) && h.signed_by(m.public),
        log.public == m.public,
        m.tree.length < blocks.len(),
        holds(m.tree, blocks.take(m.tree.length as int)),
        p.block == m.tree.length,
        p.leaf_size == log.tree.nodes[(2 * p.block) as u64].size,
        Some(p.siblings@) == log.tree.path(2 * p.block as nat),
        p.roots@ == log.tree.roots_at(blocks.len()),
    ensures
        m.takes(log.head->0, m.tree.length, blocks[m.tree.length as int], p),
        holds(
            m.with_block(log.head->0, blocks[m.tree.length as int]).tree,
            blocks.take(m.tree.length + 1),
        ),
        m.tree.length + 1 == blocks.len() ==> {
            let done = m.with_block(log.head->0, blocks[m.tree.length as int]);
            done.tree == log.tree && done.head == log.head
        },
{
    let i = m.tree.length as int;
    let data = blocks[i];
    let less = blocks.take(i);
    law_verify_block(log, blocks, p);
    lemma_bytes_same(blocks, less, i as nat);
    lemma_bytes_mono(blocks, (i + 1) as nat, blocks.len());
    assert(less.push(data) =~= blocks.take(i + 1));
    crate::merkle::laws::law_append(m.tree, less, data);
    if i + 1 == blocks.len() {
        assert(blocks.take(i + 1) =~= blocks);
        law_one_tree(m.tree.appended(data), log.tree, blocks);
    }
}

/// The log's own upgrade proof from the length of a replica that holds its first blocks
/// verifies there.
pub proof fn law_upgrade(m: Mirror, log: Log, blocks: Seq<Seq<u8>>, p: UpgradeProof)
    requires
        held(log, blocks),
        log.head matches Some(h) && h.signed_by(m.public),
        0 < m.tree.length < blocks.len(),
        holds(m.tree, blocks.take(m.tree.length as int)),
        p.old_len == m.tree.length,
        p.new_len == blocks.len(),
        p.nodes@ == log.tree.pick(fresh_under(flat::roots_of(blocks.len()), m.tree.length as nat)),
    ensures
        m.upgrades(log.head->0, p),
{
    law_upgrade_proof(log.tree, blocks, p);
    assert(blocks.take(m.tree.length as int).take(m.tree.length as int) =~= blocks.take(
        m.tree.length as int,
    ));
    lemma_same_roots(m.tree, blocks.take(m.tree.length as int), log.tree, blocks, m.tree.length);
}

/// Trees over logs with a common prefix have the same roots for it.
proof fn lemma_same_roots(t: Tree, a: Seq<Seq<u8>>, u: Tree, b: Seq<Seq<u8>>, n: u64)
    requires
        holds(t, a),
        holds(u, b),
        n <= a.len(),
        n <= b.len(),
        a.take(n as int) == b.take(n as int),
    ensures
        t.roots_at(n as nat) == u.roots_at(n as nat),
{
    lemma_held_roots(t, a, n as nat);
    lemma_held_roots(u, b, n as nat);
    let x = t.roots_at(n as nat);
    let y = u.roots_at(n as nat);
    flat::lemma_roots(n as nat);
    assert forall|k: int| 0 <= k < n implies a[k] == b[k] by {
        assert(a.take(n as int)[k] == b.take(n as int)[k]);
    }
    assert forall|k: int| 0 <= k < x.len() implies x[k] == y[k] by {
        let i = flat::roots_of(n as nat)[k];
        assert(flat::is_root(i, n as nat));
        flat::lemma_coords(i);
        crate::merkle::laws::lemma_built_same(a, b, flat::depth_of(i), flat::offset_of(i));
        assert(t.nodes.contains_key(i as u64) && u.nodes.contains_key(i as u64));
    }
    assert(x =~= y);
}

/// A replica is not lured onto a forked history: a longer head that it accepts as an
/// upgrade is that of a log that begins with the blocks it holds, where BLAKE3 tells the
/// inputs `s` apart and all that is hashed for the logs and the proof is among them.
pub proof fn law_no_fork(
    m: Mirror,
    a: Seq<Seq<u8>>,
    t: Tree,
    b: Seq<Seq<u8>>,
    head: SignedHead,
    p: UpgradeProof,
    s: Set<Seq<u8>>,
)
    requires
        holds(m.tree, a),
        holds(t, b),
        head.root == t.root_hash(),
        m.upgrades(head, p),
        apart(s),
        has_tree(s, m.tree, a),
        has_tree(s, t, b),
        has_upgrade(s, p, m.tree.roots_at(a.len())),
    ensures
        head.length == b.len(),
        a.len() < b.len(),
        b.take(a.len() as int) == a,
{
    lemma_held_roots(m.tree, a, a.len());
    law_sound_upgrade(m.tree, a, t, b, p, s);
    assert(a.take(a.len() as int) =~= a);
}

/// A replica follows its author's rewrite: a signed head at a higher fork, of a log that
/// shares the replica's first `ancestors` blocks, is a rewrite to follow, and the replica
/// then holds those blocks.
pub proof fn law_reorg(
    m: Mirror,
    a: Seq<Seq<u8>>,
    log: Log,
    b: Seq<Seq<u8>>,
    ancestors: u64,
    p: UpgradeProof,
)
    requires
        holds(m.tree, a),
        held(log, b),
        log.head matches Some(h) && h.signed_by(m.public),
        m.head matches Some(h) && h.fork < log.fork,
        ancestors <= a.len(),
        ancestors <= b.len(),
        a.take(ancestors as int) == b.take(ancestors as int),
        p.old_len == ancestors,
        p.new_len == b.len(),
        0 < ancestors < b.len() ==> p.nodes@ == log.tree.pick(
            fresh_under(flat::roots_of(b.len()), ancestors as nat),
        ),
    ensures
        m.reorgs(log.head->0, ancestors, Some(p)),
        holds(m.reorganized(log.head->0, ancestors).tree, b.take(ancestors as int)),
        ancestors == b.len() ==> m.reorganized(log.head->0, ancestors).head == log.head,
{
    lemma_held_roots(m.tree, a, ancestors as nat);
    crate::merkle::laws::law_truncate(m.tree, a, ancestors);
    lemma_same_roots(m.tree, a, log.tree, b, ancestors);
    if 0 < ancestors < b.len() {
        law_upgrade_proof(log.tree, b, p);
    }
    if ancestors == b.len() {
        assert(b.take(ancestors as int) =~= b);
        law_one_tree(m.tree.truncated(ancestors), log.tree, b);
    }
}

/// Over-claiming is caught: where a replica accepts a rewrite that keeps its first
/// blocks, the new log does begin with them, where BLAKE3 tells the inputs `s` apart and
/// all that is hashed for the logs and the proof is among them.
pub proof fn law_reorg_is_shared(
    m: Mirror,
    a: Seq<Seq<u8>>,
    t: Tree,
    b: Seq<Seq<u8>>,
    head: SignedHead,
    ancestors: u64,
    p: Option<UpgradeProof>,
    s: Set<Seq<u8>>,
)
    requires
        holds(m.tree, a),
        holds(t, b),
        head.root == t.root_hash(),
        m.reorgs(head, ancestors, p),
        apart(s),
        has_tree(s, m.tree, a),
        has_tree(s, t, b),
        p matches Some(q) ==> has_upgrade(s, q, m.tree.roots_at(ancestors as nat)),
    ensures
        ancestors <= a.len(),
        ancestors <= b.len(),
        a.take(ancestors as int) == b.take(ancestors as int),
{
    lemma_held_roots(m.tree, a, ancestors as nat);
    lemma_held_roots(t, b, b.len());
    if ancestors == head.length {
        law_root_length(m.tree, a, ancestors, t, b, t.length, s);
        law_prefix_hash(m.tree, a, t, b, ancestors, s);
        assert(t.prefix_hash(ancestors) == Some(head.root));
        assert(m.tree.agrees(t, ancestors));
    } else if ancestors == 0 {
        assert(a.take(0) =~= b.take(0));
    } else {
        law_sound_upgrade(m.tree, a, t, b, p->0, s);
    }
}

/// One history is never flagged: two heads over prefixes of one log, at one length, have
/// one root.
pub proof fn law_no_conflict(t: Tree, u: Tree, blocks: Seq<Seq<u8>>, n: int)
    requires
        0 <= n <= blocks.len(),
        holds(t, blocks.take(n)),
        holds(u, blocks.take(n)),
    ensures
        t.root_hash() == u.root_hash(),
{
    law_one_tree(t, u, blocks.take(n));
}

/// Evidence of a fork is evidence: heads of two logs under which different blocks verify
/// at one index are heads of logs that differ there, where BLAKE3 tells the inputs `s`
/// apart and all that is hashed for the logs and the proofs is among them.
pub proof fn law_fork_proof(
    f: super::ForkProof,
    public: PublicKey,
    t: Tree,
    a: Seq<Seq<u8>>,
    u: Tree,
    b: Seq<Seq<u8>>,
    s: Set<Seq<u8>>,
)
    requires
        f.accepts(public),
        holds(t, a),
        holds(u, b),
        f.head_a.root == t.root_hash(),
        f.head_b.root == u.root_hash(),
        apart(s),
        has_tree(s, t, a),
        has_tree(s, u, b),
        has_proof(s, f.proof_a, f.data_a@),
        has_proof(s, f.proof_b, f.data_b@),
    ensures
        f.index < a.len(),
        f.index < b.len(),
        a[f.index as int] != b[f.index as int],
{
    law_sound_proof(t, a, f.proof_a, f.data_a@, s);
    law_sound_proof(u, b, f.proof_b, f.data_b@, s);
}

/// A snapshot is immune: while the log only grows it still has all of the snapshot, and
/// once it was rewound to `n` blocks and went on with a different one, just those. BLAKE3
/// is to tell the inputs `s` apart, and all that is hashed for the two to be among them.
pub proof fn law_snapshot(
    snap: Snap,
    a: Seq<Seq<u8>>,
    log: Log,
    b: Seq<Seq<u8>>,
    n: u64,
    s: Set<Seq<u8>>,
)
    requires
        holds(snap.tree, a),
        held(log, b),
        n <= a.len(),
        n <= b.len(),
        a.take(n as int) == b.take(n as int),
        n < a.len() && n < b.len() ==> a[n as int] != b[n as int],
        apart(s),
        has_tree(s, snap.tree, a),
        has_tree(s, log.tree, b),
    ensures
        snap.tree.ancestor(log.tree) == n,
{
    law_ancestor(snap.tree, a, log.tree, b, n, s);
}

/// A snapshot reads what the log read.
pub proof fn law_snapshot_reads(log: Log, i: u64)
    ensures
        log.block(i) == (if i < snap_of(log).length && snap_of(log).blocks.contains_key(i) {
            Some(snap_of(log).blocks[i])
        } else {
            None
        }),
{
}

/// The committed prefix stays: appending keeps it, and so does every allowed truncation.
pub proof fn law_prologue(log: Log, blocks: Seq<Seq<u8>>, data: Seq<u8>, n: u64)
    requires
        held(log, blocks),
        log.keeps_prologue(),
        log.prologue matches Some(p) ==> p.length <= blocks.len(),
    ensures
        room(blocks, data) ==> log.appended(data).keeps_prologue(),
        log.can_truncate(n) ==> log.truncated(n).keeps_prologue(),
{
    if log.prologue is Some {
        let p = log.prologue->0;
        let k = p.length;
        lemma_held_roots(log.tree, blocks, k as nat);
        if room(blocks, data) {
            let more = blocks.push(data);
            crate::merkle::laws::law_append(log.tree, blocks, data);
            let t = log.tree.appended(data);
            lemma_held_roots(t, more, k as nat);
            assert(more.take(k as int) =~= blocks.take(k as int));
            lemma_same_roots(t, more, log.tree, blocks, k);
        }
        if log.can_truncate(n) {
            let less = blocks.take(n as int);
            crate::merkle::laws::law_truncate(log.tree, blocks, n);
            let t = log.tree.truncated(n);
            lemma_held_roots(t, less, k as nat);
            assert(less.take(k as int) =~= blocks.take(k as int));
            lemma_same_roots(t, less, log.tree, blocks, k);
        }
    }
}

/// Migration keeps history: copying the committed prefix of a log into an empty one
/// gives the log of those very blocks, and the prologue holds of it.
pub proof fn law_copy_prologue(
    log: Log,
    source: Log,
    blocks: Seq<Seq<u8>>,
    p: Prologue,
)
    requires
        log.tree == empty_tree(),
        log.prologue == Some(p),
        holds(source.tree, blocks),
        p.length <= blocks.len(),
        source.tree.prefix_hash(p.length) == Some(p.hash),
    ensures
        held(log.committed(blocks.take(p.length as int)), blocks.take(p.length as int)),
        log.committed(blocks.take(p.length as int)).keeps_prologue(),
        log.committed(blocks.take(p.length as int)).tree.root_hash() == p.hash,
{
    let part = blocks.take(p.length as int);
    let next = log.committed(part);
    lemma_bytes_same(blocks, part, p.length as nat);
    lemma_bytes_mono(blocks, p.length as nat, blocks.len());
    lemma_grown_held(log, part);
    lemma_grown_tree(log, part);
    lemma_held_roots(next.tree, part, part.len());
    lemma_held_roots(source.tree, blocks, p.length as nat);
    assert(part.take(p.length as int) =~= part);
    lemma_same_roots(next.tree, part, source.tree, blocks, p.length);
    assert forall|i: u64| #[trigger] next.has(i) implies next.contents.contains_key(i)
        && next.contents[i] == part[i as int] by {}
}

proof fn lemma_grown_held(log: Log, blocks: Seq<Seq<u8>>)
    requires
        log.tree == empty_tree(),
        blocks.len() < MAX_BLOCKS,
        bytes_before(blocks, blocks.len()) <= u64::MAX,
    ensures
        holds(log.grown_by(blocks).tree, blocks),
        forall|i: u64|
            i < blocks.len() ==> #[trigger] log.grown_by(blocks).contents.contains_key(i)
                && log.grown_by(blocks).contents[i] == blocks[i as int],
    decreases blocks.len(),
{
    if blocks.len() == 0 {
        law_empty();
        assert(blocks =~= Seq::<Seq<u8>>::empty());
    } else {
        let less = blocks.drop_last();
        let data = blocks.last();
        lemma_bytes_same(blocks, less, less.len());
        lemma_bytes_mono(blocks, less.len(), blocks.len());
        lemma_grown_held(log, less);
        crate::merkle::laws::law_append(log.grown_by(less).tree, less, data);
        assert(less.push(data) =~= blocks);
    }
}

} // verus!
