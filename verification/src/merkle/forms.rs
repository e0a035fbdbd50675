//! What is hashed and what is stored of a tree, byte by byte.
use vstd::prelude::*;
use super::flat;
use super::hash::digest;
use super::tree::{entries_bytes, node_at, parsed_tree};
use super::{
    joined, leaf_bytes, leaf_node, parent_bytes, root_digest, roots_bytes, tree_bytes, Node, Tree,
};
use crate::bytes::{array32, le64, le_value};
use crate::table::keys_of;

verus! {

/// What is hashed for a block, for two nodes and for the roots of a tree begins with
/// different bytes, and holds every part of them.
pub proof fn law_hashed(data: Seq<u8>, a: Node, b: Node, roots: Seq<Node>)
    ensures
        leaf_bytes(data) == seq![0u8] + le64(data.len() as u64) + data,
        parent_bytes(a, b) == seq![1u8] + a.hash@ + le64(a.size) + b.hash@ + le64(b.size),
        tree_bytes(roots) == seq![2u8] + roots_bytes(roots),
        roots_bytes(Seq::empty()) == Seq::<u8>::empty(),
        roots_bytes(roots.push(a)) == roots_bytes(roots) + a.hash@ + le64(a.index) + le64(a.size),
        root_digest(roots) == digest(seq![2u8] + roots_bytes(roots)),
{
    assert(roots.push(a).drop_last() =~= roots);
    assert(roots_bytes(roots.push(a)) =~= roots_bytes(roots) + a.hash@ + le64(a.index) + le64(
        a.size,
    ));
}

/// A block's node stands at twice the block's number, with the hash and the number of its
/// bytes. The parent of two nodes stands above them, with the hash of the two from left to
/// right, whichever of them is named first, and the sum of their sizes.
pub proof fn law_nodes(block: nat, data: Seq<u8>, a: Node, b: Node)
    requires
        2 * block <= u64::MAX,
        data.len() <= u64::MAX,
        a.index < b.index,
        a.size + b.size <= u64::MAX,
        flat::parent_of(a.index as nat) == flat::parent_of(b.index as nat),
    ensures
        leaf_node(block, data).index == 2 * block,
        leaf_node(block, data).hash == digest(leaf_bytes(data)),
        leaf_node(block, data).size == data.len(),
        joined(a, b) == joined(b, a),
        joined(a, b).hash == digest(parent_bytes(a, b)),
        joined(a, b).size == a.size + b.size,
        flat::parent_of(a.index as nat) <= u64::MAX ==> joined(a, b).index == flat::parent_of(
            a.index as nat,
        ),
{
}

/// A stored tree is the number of its blocks, the number of its nodes, and the nodes in the
/// order of their indices: each one's index, size and hash.
pub proof fn law_stored_bytes(t: Tree, m: Map<u64, Node>, keys: Seq<u64>, k: u64)
    ensures
        t.serialized() == le64(t.length) + le64(t.nodes.len() as u64) + entries_bytes(
            t.nodes,
            keys_of(t.nodes),
        ),
        entries_bytes(m, Seq::empty()) == Seq::<u8>::empty(),
        entries_bytes(m, keys.push(k)) == entries_bytes(m, keys) + le64(m[k].index) + le64(
            m[k].size,
        ) + m[k].hash@,
{
    assert(keys.push(k).drop_last() =~= keys);
    assert(entries_bytes(m, keys.push(k)) =~= entries_bytes(m, keys) + le64(m[k].index) + le64(
        m[k].size,
    ) + m[k].hash@);
}

/// Bytes stand for a tree if and only if they are as long as the number of nodes that they
/// give asks for.
pub proof fn law_stored_read(s: Seq<u8>, at: int)
    ensures
        parsed_tree(s) is Some <==> s.len() >= 16 && s.len() == 16 + 48 * le_value(
            s.subrange(8, 16),
        ),
        parsed_tree(s) matches Some(t) ==> t.length == le_value(s.subrange(0, 8)) as u64,
        node_at(s, at).index == le_value(s.subrange(at, at + 8)) as u64,
        node_at(s, at).size == le_value(s.subrange(at + 8, at + 16)) as u64,
        node_at(s, at).hash == array32(s.subrange(at + 16, at + 48)),
{
}

/// A tree lacks nothing if and only if every node is there whose blocks all are; it has the
/// root hash of a prefix if and only if the prefix is no longer than the tree and the roots
/// of the prefix are there.
pub proof fn law_lacks(t: Tree, n: u64)
    ensures
        t.intact() <==> forall|i: u64|
            flat::end_of(i as nat) <= t.length ==> #[trigger] t.nodes.contains_key(i),
        t.has_roots(n as nat) <==> forall|k: int|
            0 <= k < flat::roots_of(n as nat).len() ==> t.nodes.contains_key(
                #[trigger] flat::roots_of(n as nat)[k] as u64,
            ),
        t.prefix_hash(n) is Some <==> n <= t.length && t.has_roots(n as nat),
        t.prefix_hash(n) is Some ==> t.prefix_hash(n) == Some(root_digest(t.roots_at(n as nat))),
        t.roots_at(n as nat).len() == flat::roots_of(n as nat).len(),
        forall|k: int|
            0 <= k < flat::roots_of(n as nat).len() ==> #[trigger] t.roots_at(n as nat)[k]
                == t.nodes[flat::roots_of(n as nat)[k] as u64],
{
}

/// The sizes of roots add up.
pub proof fn law_weight_adds(roots: Seq<Node>, n: Node)
    ensures
        Tree::weight(Seq::empty()) == 0,
        Tree::weight(roots.push(n)) == Tree::weight(roots) + n.size,
{
    assert(roots.push(n).drop_last() =~= roots);
}

} // verus!
