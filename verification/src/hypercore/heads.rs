//! What a verified head is good for.
use vstd::prelude::*;
use super::laws::{held, law_verify_block, room};
use super::manifest_core::{RuledMirror, Sealed};
use super::replica::Mirror;
use super::snapshot::snap_of;
use super::{block_accepted, Log, SignedHead};
use crate::merkle::laws::{holds, law_append, law_truncate, lemma_held_roots};
use crate::merkle::range_laws::law_prefix_hash;
use crate::merkle::{flat, Proof, Tree, UpgradeProof};

verus! {

/// Whether a length and a root are those of a prefix of a tree.
pub open spec fn of_prefix(t: Tree, length: u64, root: crate::merkle::Hash) -> bool {
    length <= t.length && t.prefix_hash(length) == Some(root)
}

/// Whether the head that a replica has verified is signed by its author, is no longer than
/// the replica, and has the root of that prefix of it.
pub open spec fn vouched(m: Mirror) -> bool {
    m.head matches Some(h) ==> h.signed_by(m.public) && of_prefix(m.tree, h.length, h.root)
}

/// Whether the head that a replica has verified is authorized by its manifest, is no longer
/// than the replica, and has the root of that prefix of it.
pub open spec fn ratified_head(m: RuledMirror) -> bool {
    m.head matches Some(h) ==> h.ratified(m.policy) && of_prefix(m.tree, h.length, h.root)
}

/// Replicas that have verified no head vouch for none.
pub proof fn law_head_at_start(m: Mirror, r: RuledMirror)
    ensures
        m.head is None ==> vouched(m),
        r.head is None ==> ratified_head(r),
{
}

/// A prefix stays one as the tree grows.
proof fn lemma_prefix_stays(
    t: Tree,
    blocks: Seq<Seq<u8>>,
    data: Seq<u8>,
    length: u64,
    root: crate::merkle::Hash,
)
    requires
        holds(t, blocks),
        room(blocks, data),
        of_prefix(t, length, root),
    ensures
        of_prefix(t.appended(data), length, root),
{
    let more = blocks.push(data);
    let u = t.appended(data);
    law_append(t, blocks, data);
    assert(blocks.take(length as int) =~= more.take(length as int));
    law_prefix_hash(t, blocks, u, more, length, Set::empty());
    lemma_held_roots(u, more, length as nat);
    lemma_held_roots(t, blocks, length as nat);
    if length == 0 {
        assert(flat::roots_of(0) =~= Seq::empty());
        assert(t.roots_at(0) =~= u.roots_at(0));
    }
}

/// The whole of a tree is a prefix of it.
proof fn lemma_whole_prefix(t: Tree, blocks: Seq<Seq<u8>>)
    requires
        holds(t, blocks),
    ensures
        of_prefix(t, t.length, t.root_hash()),
{
    lemma_held_roots(t, blocks, blocks.len());
}

/// A replica's head stays vouched for as it takes a block.
pub proof fn law_head_after_block(
    m: Mirror,
    blocks: Seq<Seq<u8>>,
    head: SignedHead,
    index: u64,
    data: Seq<u8>,
    p: Proof,
)
    requires
        holds(m.tree, blocks),
        vouched(m),
        room(blocks, data),
        m.takes(head, index, data, p),
    ensures
        vouched(m.with_block(head, data)),
        holds(m.with_block(head, data).tree, blocks.push(data)),
{
    law_append(m.tree, blocks, data);
    lemma_whole_prefix(m.tree.appended(data), blocks.push(data));
    if m.head is Some {
        lemma_prefix_stays(m.tree, blocks, data, (m.head->0).length, (m.head->0).root);
    }
}

/// A replica's head is vouched for after it has followed a rewrite.
pub proof fn law_head_after_reorg(
    m: Mirror,
    blocks: Seq<Seq<u8>>,
    head: SignedHead,
    ancestors: u64,
    p: Option<UpgradeProof>,
)
    requires
        holds(m.tree, blocks),
        m.reorgs(head, ancestors, p),
    ensures
        vouched(m.reorganized(head, ancestors)),
        holds(m.reorganized(head, ancestors).tree, blocks.take(ancestors as int)),
{
    if ancestors < m.tree.length {
        law_truncate(m.tree, blocks, ancestors);
    } else {
        assert(blocks.take(ancestors as int) =~= blocks);
    }
    lemma_whole_prefix(m.tree.truncated(ancestors), blocks.take(ancestors as int));
}

/// The head of a replica of a log that a quorum signs stays vouched for as it takes a block.
pub proof fn law_ruled_head_after_block(
    m: RuledMirror,
    blocks: Seq<Seq<u8>>,
    head: Sealed,
    index: u64,
    data: Seq<u8>,
    p: Proof,
)
    requires
        holds(m.tree, blocks),
        ratified_head(m),
        room(blocks, data),
        m.takes(head, index, data, p),
    ensures
        ratified_head(m.with_block(head, data)),
        holds(m.with_block(head, data).tree, blocks.push(data)),
{
    law_append(m.tree, blocks, data);
    lemma_whole_prefix(m.tree.appended(data), blocks.push(data));
    if m.head is Some {
        lemma_prefix_stays(m.tree, blocks, data, (m.head->0).length, (m.head->0).root);
    }
}

/// Every block of a snapshot verifies against its head, with the proof that the snapshot
/// gives, whatever became of the log.
pub proof fn law_snapshot_verifies(log: Log, blocks: Seq<Seq<u8>>, i: u64, p: Proof)
    requires
        held(log, blocks),
        log.head matches Some(h) && h.signed_by(log.public),
        snap_of(log).blocks.contains_key(i),
        p.block == i,
        p.leaf_size == snap_of(log).tree.nodes[(2 * i) as u64].size,
        Some(p.siblings@) == snap_of(log).tree.path(2 * i as nat),
        p.roots@ == snap_of(log).tree.roots_at(snap_of(log).tree.length as nat),
    ensures
        block_accepted(log.public, snap_of(log).head->0, i, snap_of(log).blocks[i], p),
{
    assert(log.has(i));
    law_verify_block(log, blocks, p);
}

} // verus!
