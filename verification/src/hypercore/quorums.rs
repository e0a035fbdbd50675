//! What it takes for a quorum to authorize a head, and what it takes to follow one.
use vstd::prelude::*;
use super::manifest_core::{collected, placed, ruled_block_accepted, Ruled, RuledMirror, Sealed};
use crate::bytes::le64;
use crate::identity::manifest::{
    prologue_bytes, signers_bytes, zero_namespace, PartialSig, Policy, Prologue, Signer,
};
use crate::identity::{ed25519_accepts, ed25519_public, signature_by};
use crate::merkle::hash::digest;
use crate::merkle::Proof;

verus! {

/// A policy's identity is taken over its quorum, the number of its signers, each one's key
/// and namespace in their order, and the prologue, if it has one.
pub proof fn law_policy_bytes(policy: Policy, signers: Seq<Signer>, s: Signer)
    ensures
        policy.hash() == digest(policy.bytes()),
        policy.bytes() == seq![0xA0u8] + le64(policy.quorum as u64) + le64(
            policy.signers.len() as u64,
        ) + signers_bytes(policy.signers) + prologue_bytes(policy.prologue),
        signers_bytes(Seq::empty()) == Seq::<u8>::empty(),
        signers_bytes(signers.push(s)) == signers_bytes(signers) + s.public_key@@ + s.namespace@,
        match policy.prologue {
            Some(p) => prologue_bytes(policy.prologue) == seq![1u8] + le64(p.length) + p.hash@,
            None => prologue_bytes(policy.prologue) == seq![0u8],
        },
{
    assert(signers.push(s).drop_last() =~= signers);
    assert(signers_bytes(signers.push(s)) =~= signers_bytes(signers) + s.public_key@@
        + s.namespace@);
    assert(policy.bytes() =~= seq![0xA0u8] + le64(policy.quorum as u64) + le64(
        policy.signers.len() as u64,
    ) + signers_bytes(policy.signers) + prologue_bytes(policy.prologue));
    if let Some(p) = policy.prologue {
        assert(prologue_bytes(policy.prologue) =~= seq![1u8] + le64(p.length) + p.hash@);
    }
}

/// A namespace that is not given is all zeroes.
pub proof fn law_no_namespace(n: [u8; 32])
    requires
        forall|i: int| 0 <= i < 32 ==> #[trigger] n@[i] == 0,
    ensures
        zero_namespace() == n,
{
    assert(n@ =~= Seq::new(32, |i: int| 0u8));
    crate::bytes::lemma_array32(n);
}

/// Whether a signature is a declared signer's, valid under its key over the policy's
/// identity, the length and the root.
pub open spec fn vouches(
    policy: Policy,
    length: u64,
    root: [u8; 32],
    p: PartialSig,
) -> bool {
    &&& p.signer < policy.signers.len()
    &&& ed25519_accepts(
        policy.signers[p.signer as int].public_key@@,
        seq![0xA1u8] + policy.hash()@ + le64(length) + root@,
        p.sig@@,
    )
}

/// The signers of signatures.
pub open spec fn signers_of(sigs: Seq<PartialSig>) -> Set<usize> {
    sigs.map_values(|p: PartialSig| p.signer).to_set()
}

/// A head is authorized, past the prologue, if and only if the quorum is not zero, every
/// signature vouches for it, no signer gave two, and there are as many signers as the quorum
/// or more. Within the prologue nothing is but the prologue itself, whatever is signed.
pub proof fn law_authorized(
    policy: Policy,
    length: u64,
    root: [u8; 32],
    sigs: Seq<PartialSig>,
)
    ensures
        ({
            let past = policy.prologue matches Some(p) ==> length > p.length;
            let counted = {
                &&& policy.quorum > 0
                &&& forall|i: int|
                    0 <= i < sigs.len() ==> vouches(policy, length, root, #[trigger] sigs[i])
                &&& signers_of(sigs).len() == sigs.len()
                &&& signers_of(sigs).len() >= policy.quorum
            };
            &&& past ==> (policy.accepts(length, root, sigs) <==> counted)
            &&& !past ==> (policy.accepts(length, root, sigs) <==> (policy.prologue matches Some(p)
                && p.length == length && p.hash == root))
        }),
{
    let of = sigs.map_values(|p: PartialSig| p.signer);
    assert forall|i: int| 0 <= i < sigs.len() implies policy.signed(length, root, sigs[i])
        == vouches(policy, length, root, #[trigger] sigs[i]) by {
        assert(policy.signable(length, root) =~= seq![0xA1u8] + policy.hash()@ + le64(length)
            + root@);
    }
    assert forall|i: int| 0 <= i < sigs.len() implies vouches(policy, length, root, sigs[i])
        == #[trigger] policy.signed(length, root, sigs[i]) by {}
    let apart = forall|i: int, j: int|
        0 <= i < j < sigs.len() ==> sigs[i].signer != sigs[j].signer;
    if apart {
        assert(of.no_duplicates()) by {
            assert forall|i: int, j: int| 0 <= i < of.len() && 0 <= j < of.len() && i != j implies of[i]
                != of[j] by {
                if i < j {
                    assert(sigs[i].signer != sigs[j].signer);
                } else {
                    assert(sigs[j].signer != sigs[i].signer);
                }
            }
        }
        of.unique_seq_to_set();
    }
    if signers_of(sigs).len() == sigs.len() {
        of.lemma_no_dup_set_cardinality();
        assert forall|i: int, j: int| 0 <= i < j < sigs.len() implies sigs[i].signer
            != sigs[j].signer by {
            assert(of[i] != of[j]);
        }
    }
    if let Some(p) = policy.prologue {
        assert((Prologue { length, hash: root } == p) <==> (p.length == length && p.hash == root));
    }
}

/// The place of a key among the signers is the first that has it.
proof fn lemma_place(policy: Policy, seed: [u8; 32], i: int)
    requires
        0 <= i <= policy.signers.len(),
    ensures
        match policy.place_of(seed, i) {
            Some(k) => i <= k < policy.signers.len() && policy.signers[k].public_key@@
                == ed25519_public(seed@) && forall|j: int|
                i <= j < k ==> (#[trigger] policy.signers[j]).public_key@@ != ed25519_public(seed@),
            None => forall|j: int|
                i <= j < policy.signers.len() ==> (#[trigger] policy.signers[j]).public_key@@
                    != ed25519_public(seed@),
        },
    decreases policy.signers.len() - i,
{
    if i < policy.signers.len() && policy.signers[i].public_key@@ != ed25519_public(seed@) {
        lemma_place(policy, seed, i + 1);
    }
}

/// A key signs for the first signer that it is the key of, and what it signs is the policy's
/// identity, the length and the root; a key that is no signer's signs nothing.
pub proof fn law_partial(policy: Policy, seed: [u8; 32], length: u64, root: [u8; 32])
    requires
        policy.signers.len() <= usize::MAX,
    ensures
        match policy.partial(seed, length, root) {
            Some(p) => {
                &&& p.signer < policy.signers.len()
                &&& policy.signers[p.signer as int].public_key@@ == ed25519_public(seed@)
                &&& forall|j: int|
                    0 <= j < p.signer ==> (#[trigger] policy.signers[j]).public_key@@
                        != ed25519_public(seed@)
                &&& p.sig == signature_by(
                    seed,
                    seq![0xA1u8] + policy.hash()@ + le64(length) + root@,
                )
            },
            None => forall|j: int|
                0 <= j < policy.signers.len() ==> (#[trigger] policy.signers[j]).public_key@@
                    != ed25519_public(seed@),
        },
{
    lemma_place(policy, seed, 0);
    assert(policy.signable(length, root) =~= seq![0xA1u8] + policy.hash()@ + le64(length) + root@);
}

/// Whether a signer is among those of signatures.
pub open spec fn has_signer(sigs: Seq<PartialSig>, signer: usize) -> bool {
    exists|i: int| 0 <= i < sigs.len() && (#[trigger] sigs[i]).signer == signer
}

proof fn lemma_placed_signers(sigs: Seq<PartialSig>, p: PartialSig, signer: usize)
    ensures
        has_signer(placed(sigs, p), signer) <==> has_signer(sigs, signer) || signer == p.signer,
    decreases sigs.len(),
{
    let out = placed(sigs, p);
    if sigs.len() == 0 {
        assert(out[0] == p);
        assert(!has_signer(sigs, signer));
    } else if sigs[0].signer < p.signer {
        let rest = sigs.skip(1);
        let tail = placed(rest, p);
        lemma_placed_signers(rest, p, signer);
        assert(out =~= seq![sigs[0]] + tail);
        if has_signer(sigs, signer) {
            let i = choose|i: int| 0 <= i < sigs.len() && (#[trigger] sigs[i]).signer == signer;
            if i > 0 {
                assert(rest[i - 1].signer == signer);
            } else {
                assert(out[0].signer == signer);
            }
        }
        if has_signer(rest, signer) {
            let i = choose|i: int| 0 <= i < rest.len() && (#[trigger] rest[i]).signer == signer;
            assert(sigs[i + 1].signer == signer);
        }
        if has_signer(tail, signer) {
            let i = choose|i: int| 0 <= i < tail.len() && (#[trigger] tail[i]).signer == signer;
            assert(out[i + 1].signer == signer);
        }
        if has_signer(out, signer) {
            let i = choose|i: int| 0 <= i < out.len() && (#[trigger] out[i]).signer == signer;
            if i > 0 {
                assert(tail[i - 1].signer == signer);
            } else {
                assert(sigs[0].signer == signer);
            }
        }
    } else if sigs[0].signer == p.signer {
    } else {
        assert(out[0].signer == p.signer);
        if has_signer(sigs, signer) {
            let i = choose|i: int| 0 <= i < sigs.len() && (#[trigger] sigs[i]).signer == signer;
            assert(out[i + 1].signer == signer);
        }
        if has_signer(out, signer) {
            let i = choose|i: int| 0 <= i < out.len() && (#[trigger] out[i]).signer == signer;
            if i > 0 {
                assert(sigs[i - 1].signer == signer);
            }
        }
    }
}

/// Whether one of some keys signs for a signer.
pub open spec fn signs_for(
    policy: Policy,
    seeds: Seq<[u8; 32]>,
    length: u64,
    root: [u8; 32],
    signer: usize,
) -> bool {
    exists|j: int|
        0 <= j < seeds.len() && (policy.partial(#[trigger] seeds[j], length, root) matches Some(p)
            && p.signer == signer)
}

/// A head is signed for by exactly those signers whose keys are at hand.
pub proof fn law_collected(
    policy: Policy,
    seeds: Seq<[u8; 32]>,
    length: u64,
    root: [u8; 32],
    signer: usize,
)
    ensures
        has_signer(collected(policy, seeds, length, root), signer) <==> signs_for(
            policy,
            seeds,
            length,
            root,
            signer,
        ),
    decreases seeds.len(),
{
    if seeds.len() == 0 {
        assert(!has_signer(collected(policy, seeds, length, root), signer));
    } else {
        let less = seeds.drop_last();
        law_collected(policy, less, length, root, signer);
        if signs_for(policy, less, length, root, signer) {
            let j = choose|j: int|
                0 <= j < less.len() && (policy.partial(#[trigger] less[j], length, root) matches Some(
                    p,
                ) && p.signer == signer);
            assert(less[j] == seeds[j]);
        }
        if signs_for(policy, seeds, length, root, signer) {
            let j = choose|j: int|
                0 <= j < seeds.len() && (policy.partial(#[trigger] seeds[j], length, root) matches Some(
                    p,
                ) && p.signer == signer);
            if j < less.len() {
                assert(less[j] == seeds[j]);
            }
        }
        assert(seeds[seeds.len() - 1] == seeds.last());
        if let Some(p) = policy.partial(seeds.last(), length, root) {
            lemma_placed_signers(collected(policy, less, length, root), p, signer);
        }
    }
}

/// Appending adds the block at the end, and signs the head over exactly that tree with the
/// keys at hand; nothing else of the log changes.
pub proof fn law_ruled_append(log: Ruled, data: Seq<u8>)
    requires
        log.tree.length < u64::MAX,
    ensures
        ({
            let now = log.appended(data);
            &&& now.policy == log.policy
            &&& now.seeds == log.seeds
            &&& now.tree == log.tree.appended(data)
            &&& now.tree.length == log.tree.length + 1
            &&& now.contents == log.contents.insert(log.tree.length, data)
            &&& now.head matches Some(h) && {
                &&& h.length == log.tree.length + 1
                &&& h.root == log.tree.appended(data).root_hash()
                &&& h.sigs == collected(log.policy, log.seeds, h.length, h.root)
            }
        }),
{
}

/// A head is verified if and only if it is over the whole tree, and the policy authorizes
/// it; without a head, only an empty log is.
pub proof fn law_ruled_verified(log: Ruled)
    ensures
        match log.head {
            Some(h) => log.verified() <==> h.length == log.tree.length && h.root
                == log.tree.root_hash() && log.policy.accepts(h.length, h.root, h.sigs),
            None => log.verified() <==> log.tree.length == 0,
        },
{
}

/// A replica takes a block if and only if it is the next one, the policy authorizes the
/// head, the proof is of that block and leads to the head's root, and 64 bits have room.
pub proof fn law_ruled_takes(m: RuledMirror, head: Sealed, index: u64, data: Seq<u8>, p: Proof)
    ensures
        m.takes(head, index, data, p) <==> {
            &&& index == m.tree.length
            &&& m.policy.accepts(head.length, head.root, head.sigs)
            &&& p.block == index
            &&& p.accepts(data, head.root)
            &&& m.tree.can_append(data)
        },
        ruled_block_accepted(m.policy, head, index, data, p) <==> {
            &&& m.policy.accepts(head.length, head.root, head.sigs)
            &&& p.block == index
            &&& p.accepts(data, head.root)
        },
{
}

/// A block that is taken comes at the end; the head is verified once all its blocks are
/// there, and until then the one before stays.
pub proof fn law_ruled_block(m: RuledMirror, head: Sealed, data: Seq<u8>)
    requires
        m.tree.length < u64::MAX,
    ensures
        ({
            let now = m.with_block(head, data);
            &&& now.policy == m.policy
            &&& now.tree == m.tree.appended(data)
            &&& now.tree.length == m.tree.length + 1
            &&& now.contents == m.contents.insert(m.tree.length, data)
            &&& head.length == m.tree.length + 1 && head.root == m.tree.appended(data).root_hash()
                ==> now.head == Some(head)
            &&& head.length != m.tree.length + 1 || head.root != m.tree.appended(data).root_hash()
                ==> now.head == m.head
        }),
{
}

} // verus!
