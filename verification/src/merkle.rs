//! A content-blind, append-only Merkle tree over BLAKE3.
//!
//! Blocks of bytes are appended, each giving a leaf; parents and roots follow from
//! the flat-tree index scheme. Hashing is domain-separated and length-bound: leaf,
//! parent and tree have distinct prefix bytes, and each node binds its byte size.
use vstd::prelude::*;
use crate::bytes::{le64, put_all, put_u64};

pub mod flat;
pub mod forms;
pub mod gapless;
pub mod growth;
pub mod hash;
pub mod laws;
pub mod proofs;
pub mod range_laws;
pub mod range_nodes;
pub mod tree;


pub use proofs::{
    climb, derived, derived_at, derived_roots, known_nodes, left_bytes, lookup, InRepairMode, NodeProof, Proof,
    RangeProof, SeekProof, UpgradeProof,

};


pub use tree::{MerkleTree, Tree};

verus! {

/// Domain-separation prefixes.
pub const LEAF: u8 = 0x00;

pub const PARENT: u8 = 0x01;

pub const TREE: u8 = 0x02;

/// The flat indices of a log of fewer blocks than this fit in 64 bits.
pub const MAX_BLOCKS: u64 = 0x8000_0000_0000_0000;

/// The node over the first `2^63` blocks: the one index below `u64::MAX` whose parent
/// has no 64-bit index.
pub const SUMMIT: u64 = 0x7fff_ffff_ffff_ffff;

/// A 32-byte BLAKE3 digest.
pub type Hash = [u8; 32];

/// A tree node: its flat-tree `index`, its `hash`, and the total byte `size` of the
/// block range it covers.
#[derive(Clone, Copy, Debug, PartialEq, Eq)]
pub struct Node {
    pub index: u64,
    pub hash: Hash,
    pub size: u64,
}

/// What is hashed for a leaf: its prefix, its byte length, its bytes.
pub open spec fn leaf_bytes(data: Seq<u8>) -> Seq<u8> {
    seq![LEAF] + le64(data.len() as u64) + data
}

/// What is hashed for a parent: its prefix, then hash and size of each child.
pub open spec fn parent_bytes(left: Node, right: Node) -> Seq<u8> {
    seq![PARENT] + left.hash@ + le64(left.size) + right.hash@ + le64(right.size)
}

/// Hash, index and size of each root, in order.
pub open spec fn roots_bytes(roots: Seq<Node>) -> Seq<u8>
    decreases roots.len(),
{
    if roots.len() == 0 {
        Seq::empty()
    } else {
        let r = roots.last();
        roots_bytes(roots.drop_last()) + (r.hash@ + le64(r.index) + le64(r.size))
    }
}

/// What is hashed for a whole tree: its prefix, then its roots.
pub open spec fn tree_bytes(roots: Seq<Node>) -> Seq<u8> {
    seq![TREE] + roots_bytes(roots)
}

/// The hash over all roots: what is signed and compared.
pub open spec fn root_digest(roots: Seq<Node>) -> Hash {
    hash::digest(tree_bytes(roots))
}

/// The leaf of a block.
pub open spec fn leaf_node(block: nat, data: Seq<u8>) -> Node {
    Node { index: (2 * block) as u64, hash: hash::digest(leaf_bytes(data)), size: data.len() as u64 }
}

/// The parent of two siblings, given in either order.
pub open spec fn joined(a: Node, b: Node) -> Node {
    let (left, right) = if b.index < a.index {
        (b, a)
    } else {
        (a, b)
    };
    Node {
        index: flat::parent_of(a.index as nat) as u64,
        hash: hash::digest(parent_bytes(left, right)),
        size: (a.size + b.size) as u64,
    }
}

pub(crate) fn leaf_hash(data: &[u8]) -> (h: Hash)
    ensures
        h == hash::digest(leaf_bytes(data@)),
{
    let mut buf: Vec<u8> = Vec::new();
    buf.push(LEAF);
    put_u64(&mut buf, data.len() as u64);
    put_all(&mut buf, data);
    assert(buf@ =~= leaf_bytes(data@));
    hash::hash(buf.as_slice())
}

pub(crate) fn parent_hash(left: &Node, right: &Node) -> (h: Hash)
    ensures
        h == hash::digest(parent_bytes(*left, *right)),
{
    let mut buf: Vec<u8> = Vec::new();
    buf.push(PARENT);
    put_all(&mut buf, &left.hash);
    put_u64(&mut buf, left.size);
    put_all(&mut buf, &right.hash);
    put_u64(&mut buf, right.size);
    assert(buf@ =~= parent_bytes(*left, *right));
    hash::hash(buf.as_slice())
}

pub(crate) fn tree_hash(roots: &[Node]) -> (h: Hash)
    ensures
        h == root_digest(roots@),
{
    let mut buf: Vec<u8> = Vec::new();
    buf.push(TREE);
    let mut i: usize = 0;
    assert(buf@ =~= tree_bytes(roots@.take(0)));
    while i < roots.len()
        invariant
            i <= roots.len(),
            buf@ == tree_bytes(roots@.take(i as int)),
        decreases roots.len() - i,
    {
        let ghost before = buf@;
        let r: Node = roots[i];
        put_all(&mut buf, &r.hash);
        put_u64(&mut buf, r.index);
        put_u64(&mut buf, r.size);
        i = i + 1;
        proof {
            let t = roots@.take(i as int);
            assert(t.drop_last() =~= roots@.take(i - 1));
            assert(buf@ =~= tree_bytes(t));
        }
    }
    assert(roots@.take(i as int) =~= roots@);
    hash::hash(buf.as_slice())
}

/// The leaf node of a block.
pub(crate) fn make_leaf(block: u64, data: &[u8]) -> (n: Node)
    requires
        block < MAX_BLOCKS,
    ensures
        n == leaf_node(block as nat, data@),
{
    Node { index: block * 2, hash: leaf_hash(data), size: data.len() as u64 }
}

/// The parent of two sibling nodes, given in either order.
pub(crate) fn join(a: &Node, b: &Node) -> (p: Node)
    requires
        a.index < u64::MAX,
        a.index != SUMMIT,
        a.size + b.size <= u64::MAX,
    ensures
        p == joined(*a, *b),
{
    let h: Hash = if b.index < a.index {
        parent_hash(b, a)
    } else {
        parent_hash(a, b)
    };
    Node { index: flat::parent(a.index), hash: h, size: a.size + b.size }
}

} // verus!
