//! Proofs that nodes, blocks, ranges and byte offsets belong to a signed tree, and
//! that one tree extends another.
use std::collections::BTreeMap;
use vstd::prelude::*;
use super::flat;
use super::{
    join, joined, leaf_node, make_leaf, root_digest, tree_hash, Node, MAX_BLOCKS, SUMMIT,
};
use crate::bytes::same_32;
use crate::table::sorted_keys;

verus! {

/// Returned when a mutation is refused because tree nodes are missing.
#[derive(Clone, Copy, Debug, PartialEq, Eq)]
pub struct InRepairMode;

impl InRepairMode {
    /// What to tell a user.
    pub fn message(&self) -> (s: &'static str)
        ensures
            s@ == "merkle tree is in repair mode (missing tree nodes)"@,
    {
        "merkle tree is in repair mode (missing tree nodes)"
    }
}

/// One step up: `node` with `sib`, provided that `sib` is its sibling and that the
/// parent's index and size fit in 64 bits.
pub open spec fn step_up(node: Node, sib: Node) -> Option<Node> {
    if node.index < u64::MAX && node.index != SUMMIT && sib.index == flat::sibling_of(
        node.index as nat,
    ) && node.size + sib.size <= u64::MAX {
        Some(joined(node, sib))
    } else {
        None
    }
}

/// The node that `node` and the siblings on its way up derive.
pub open spec fn climb(node: Node, siblings: Seq<Node>) -> Option<Node>
    decreases siblings.len(),
{
    if siblings.len() == 0 {
        Some(node)
    } else {
        match climb(node, siblings.drop_last()) {
            Some(n) => step_up(n, siblings.last()),
            None => None,
        }
    }
}

/// The bytes below the siblings that lie to the left of the way up.
pub open spec fn left_bytes(node: Node, siblings: Seq<Node>) -> nat
    decreases siblings.len(),
{
    if siblings.len() == 0 {
        0
    } else {
        let s = siblings.last();
        let rest = left_bytes(node, siblings.drop_last());
        match climb(node, siblings.drop_last()) {
            Some(n) => if s.index < n.index {
                rest + s.size as nat
            } else {
                rest
            },
            None => rest,
        }
    }
}

/// Where the first node with `index` stands.
pub open spec fn place(nodes: Seq<Node>, index: u64) -> Option<int>
    decreases nodes.len(),
{
    if nodes.len() == 0 {
        None
    } else {
        match place(nodes.drop_last(), index) {
            Some(k) => Some(k),
            None => if nodes.last().index == index {
                Some(nodes.len() - 1)
            } else {
                None
            },
        }
    }
}

/// The last node with `index`.
pub open spec fn lookup(nodes: Seq<Node>, index: u64) -> Option<Node>
    decreases nodes.len(),
{
    if nodes.len() == 0 {
        None
    } else if nodes.last().index == index {
        Some(nodes.last())
    } else {
        lookup(nodes.drop_last(), index)
    }
}

/// `roots` with `node` in place of the root that has its index.
pub open spec fn with_root(roots: Seq<Node>, node: Node) -> Option<Seq<Node>> {
    match place(roots, node.index) {
        Some(k) => Some(roots.update(k, node)),
        None => None,
    }
}

/// `roots` with each of `nodes` in place of the root that has its index.
pub open spec fn with_roots(roots: Seq<Node>, nodes: Seq<Node>) -> Option<Seq<Node>>
    decreases nodes.len(),
{
    if nodes.len() == 0 {
        Some(roots)
    } else {
        match with_roots(roots, nodes.drop_last()) {
            Some(rs) => with_root(rs, nodes.last()),
            None => None,
        }
    }
}

pub proof fn lemma_place(nodes: Seq<Node>, index: u64)
    ensures
        match place(nodes, index) {
            Some(k) => 0 <= k < nodes.len() && nodes[k].index == index && forall|j: int|
                0 <= j < k ==> nodes[j].index != index,
            None => forall|j: int| 0 <= j < nodes.len() ==> nodes[j].index != index,
        },
    decreases nodes.len(),
{
    if nodes.len() > 0 {
        lemma_place(nodes.drop_last(), index);
        assert forall|j: int| 0 <= j < nodes.len() - 1 implies nodes[j]
            == nodes.drop_last()[j] by {}
    }
}

pub proof fn lemma_place_is(nodes: Seq<Node>, index: u64, k: int)
    requires
        0 <= k < nodes.len(),
        nodes[k].index == index,
        forall|j: int| 0 <= j < k ==> nodes[j].index != index,
    ensures
        place(nodes, index) == Some(k),
{
    lemma_place(nodes, index);
}

pub proof fn lemma_lookup(nodes: Seq<Node>, index: u64)
    ensures
        match lookup(nodes, index) {
            Some(n) => n.index == index && nodes.contains(n),
            None => forall|j: int| 0 <= j < nodes.len() ==> nodes[j].index != index,
        },
    decreases nodes.len(),
{
    if nodes.len() > 0 {
        if nodes.last().index == index {
            assert(nodes[nodes.len() - 1] == nodes.last());
        } else {
            let t = nodes.drop_last();
            lemma_lookup(t, index);
            assert forall|j: int| 0 <= j < nodes.len() - 1 implies nodes[j] == t[j] by {}
            match lookup(t, index) {
                Some(n) => {
                    let j = choose|j: int| 0 <= j < t.len() && t[j] == n;
                    assert(nodes[j] == n);
                },
                None => {},
            }
        }
    }
}

/// [`place`], found.
fn find_root(roots: &[Node], index: u64) -> (r: Option<usize>)
    ensures
        match r {
            Some(k) => place(roots@, index) == Some(k as int) && k < roots@.len(),
            None => place(roots@, index) is None,
        },
{
    let mut i: usize = 0;
    while i < roots.len()
        invariant
            i <= roots.len(),
            forall|j: int| 0 <= j < i ==> roots@[j].index != index,
        decreases roots.len() - i,
    {
        if roots[i].index == index {
            proof {
                lemma_place_is(roots@, index, i as int);
            }
            return Some(i);
        }
        i = i + 1;
    }
    proof {
        lemma_place(roots@, index);
    }
    None
}

/// [`lookup`], found.
fn find_node(nodes: &[Node], index: u64) -> (r: Option<Node>)
    ensures
        r == lookup(nodes@, index),
{
    let mut i: usize = nodes.len();
    assert(nodes@.take(i as int) =~= nodes@);
    while i > 0
        invariant
            i <= nodes.len(),
            lookup(nodes@, index) == lookup(nodes@.take(i as int), index),
        decreases i,
    {
        i = i - 1;
        proof {
            assert(nodes@.take(i + 1).drop_last() =~= nodes@.take(i as int));
        }
        if nodes[i].index == index {
            return Some(nodes[i]);
        }
    }
    None
}

/// A copy of `nodes`.
pub(crate) fn copy_nodes(nodes: &[Node]) -> (v: Vec<Node>)
    ensures
        v@ == nodes@,
{
    let mut v: Vec<Node> = Vec::new();
    let mut i: usize = 0;
    while i < nodes.len()
        invariant
            i <= nodes.len(),
            v@ == nodes@.take(i as int),
        decreases nodes.len() - i,
    {
        v.push(nodes[i]);
        i = i + 1;
        assert(v@ =~= nodes@.take(i as int));
    }
    assert(nodes@.take(i as int) =~= nodes@);
    v
}

/// [`climb`], computed.
fn climbed(node: Node, siblings: &[Node]) -> (r: Option<Node>)
    ensures
        r == climb(node, siblings@),
{
    let mut cur: Node = node;
    let mut i: usize = 0;
    proof {
        assert(siblings@.take(0) =~= Seq::<Node>::empty());
    }
    while i < siblings.len()
        invariant
            i <= siblings.len(),
            climb(node, siblings@.take(i as int)) == Some(cur),
        decreases siblings.len() - i,
    {
        let sib: Node = siblings[i];
        proof {
            assert(siblings@.take(i + 1).drop_last() =~= siblings@.take(i as int));
        }
        if cur.index == u64::MAX || cur.index == SUMMIT || sib.index != flat::sibling(cur.index)
            || cur.size > u64::MAX - sib.size {
            proof {
                lemma_climb_stuck(node, siblings@, i + 1);
            }
            return None;
        }
        cur = join(&cur, &sib);
        i = i + 1;
    }
    assert(siblings@.take(i as int) =~= siblings@);
    Some(cur)
}

/// Once the climb is stuck it stays stuck.
proof fn lemma_climb_stuck(node: Node, siblings: Seq<Node>, k: int)
    requires
        0 <= k <= siblings.len(),
        climb(node, siblings.take(k)) is None,
    ensures
        climb(node, siblings) is None,
    decreases siblings.len(),
{
    if k == siblings.len() {
        assert(siblings.take(k) =~= siblings);
    } else {
        let t = siblings.drop_last();
        assert(t.take(k) =~= siblings.take(k));
        lemma_climb_stuck(node, t, k);
    }
}

/// Whether `roots`, with `node` in place of the root that has its index, hash to
/// `expected`.
pub open spec fn closes(roots: Seq<Node>, node: Node, expected: crate::merkle::Hash) -> bool {
    with_root(roots, node) matches Some(rs) && root_digest(rs) == expected
}

/// [`closes`], decided.
fn check_root(roots: &[Node], node: Node, expected: &crate::merkle::Hash) -> (r: bool)
    ensures
        r == closes(roots@, node, *expected),
{
    match find_root(roots, node.index) {
        None => false,
        Some(k) => {
            let mut rs: Vec<Node> = copy_nodes(roots);
            rs.set(k, node);
            same_32(&tree_hash(rs.as_slice()), expected)
        },
    }
}

/// Whether `node` is among `roots`, and they hash to `expected`.
pub open spec fn ends_in(roots: Seq<Node>, node: Node, expected: crate::merkle::Hash) -> bool {
    place(roots, node.index) matches Some(k) && roots[k] == node && root_digest(roots) == expected
}

/// Roots that a node is among are closed by it.
pub proof fn lemma_ends_in(roots: Seq<Node>, node: Node, expected: crate::merkle::Hash)
    requires
        ends_in(roots, node, expected),
    ensures
        closes(roots, node, expected),
        with_root(roots, node) == Some(roots),
{
    lemma_place(roots, node.index);
    let k = place(roots, node.index)->0;
    assert(roots.update(k, node) =~= roots);
}

/// [`ends_in`], decided.
fn is_root_of(roots: &[Node], node: Node, expected: &crate::merkle::Hash) -> (r: bool)
    ensures
        r == ends_in(roots@, node, *expected),
{
    match find_root(roots, node.index) {
        None => false,
        Some(k) => {
            proof {
                lemma_place(roots@, node.index);
            }
            let r: Node = roots[k];
            same_node(&r, &node) && same_32(&tree_hash(roots), expected)
        },
    }
}

/// Whether two nodes are the same.
fn same_node(a: &Node, b: &Node) -> (r: bool)
    ensures
        r == (*a == *b),
{
    a.index == b.index && a.size == b.size && same_32(&a.hash, &b.hash)
}

/// An authenticated proof of a single tree node (leaf, interior, or root) against
/// the signed root: the node, the siblings from it up to its containing root, and
/// every root. Used to recover a missing node from an untrusted peer.
#[derive(Clone, Debug, PartialEq, Eq)]
pub struct NodeProof {
    /// The node being proven (its `index` may be any complete subtree).
    pub node: Node,
    /// Sibling nodes, bottom-up, from `node` to its containing root.
    pub siblings: Vec<Node>,
    /// All roots of the tree at proof time.
    pub roots: Vec<Node>,
}

impl NodeProof {
    /// Whether the node climbs to one of the roots as the proof has it, and the roots hash
    /// to `expected`.
    pub open spec fn accepts(&self, expected: crate::merkle::Hash) -> bool {
        climb(self.node, self.siblings@) matches Some(n) && ends_in(self.roots@, n, expected)
    }

    /// Verify against the trusted `expected_root`; on success return the
    /// authenticated node (safe to store), else `None`.
    ///
    /// The climb binds each child's hash and size, the recomputed root has to be the
    /// proof's own copy of it, and the hash of the roots `expected_root`, so that altering
    /// the node, any sibling or any root is noticed; a dropped sibling leaves the climb
    /// short of any root. A climb that leaves 64 bits is refused.
    pub fn verify(&self, expected_root: &crate::merkle::Hash) -> (r: Option<Node>)
        ensures
            r == if self.accepts(*expected_root) {
                Some(self.node)
            } else {
                None
            },
    {
        match climbed(self.node, self.siblings.as_slice()) {
            None => None,
            Some(n) => if is_root_of(self.roots.as_slice(), n, expected_root) {
                Some(self.node)
            } else {
                None
            },
        }
    }
}

/// A self-contained inclusion proof: the siblings from a block's leaf up to its
/// containing root, plus every root of the tree.
#[derive(Clone, Debug, PartialEq, Eq)]
pub struct Proof {
    pub block: u64,
    pub leaf_size: u64,
    /// Sibling nodes, bottom-up, to the containing root.
    pub siblings: Vec<Node>,
    /// All roots of the tree at proof time.
    pub roots: Vec<Node>,
}

impl Proof {
    /// Whether the leaf of `data` climbs to one of the roots as the proof has it, and the
    /// roots hash to `expected`.
    pub open spec fn accepts(&self, data: Seq<u8>, expected: crate::merkle::Hash) -> bool {
        &&& data.len() == self.leaf_size
        &&& self.block < MAX_BLOCKS
        &&& climb(leaf_node(self.block as nat, data), self.siblings@) matches Some(n) && ends_in(
            self.roots@,
            n,
            expected,
        )
    }

    /// Verify this proof for `data` against an expected tree `root` hash.
    ///
    /// The leaf is recomputed from the data and climbs with the supplied siblings;
    /// the node it ends on has to be the proof's own copy of that root, so that altering
    /// the block, any sibling or any root is noticed. A block number or a climb that
    /// leaves 64 bits is refused.
    pub fn verify(&self, data: &[u8], expected_root: &crate::merkle::Hash) -> (r: bool)
        ensures
            r == self.accepts(data@, *expected_root),
    {
        if data.len() as u64 != self.leaf_size || self.block >= MAX_BLOCKS {
            return false;
        }
        match climbed(make_leaf(self.block, data), self.siblings.as_slice()) {
            None => false,
            Some(n) => is_root_of(self.roots.as_slice(), n, expected_root),
        }
    }
}

/// A self-contained proof that a byte offset falls in a particular block: the target
/// leaf, its inclusion path, and every root. Carries no block data.
#[derive(Clone, Debug, PartialEq, Eq)]
pub struct SeekProof {
    /// The byte offset this proof locates.
    pub bytes: u64,
    /// The target leaf node (its `index` is `block * 2`).
    pub leaf: Node,
    /// Sibling nodes, bottom-up, to the containing root.
    pub siblings: Vec<Node>,
    /// All roots of the tree at proof time.
    pub roots: Vec<Node>,
}

/// The bytes below the roots to the left of `index`.
pub open spec fn roots_before(roots: Seq<Node>, index: u64) -> nat
    decreases roots.len(),
{
    if roots.len() == 0 {
        0
    } else {
        roots_before(roots.drop_last(), index) + if roots.last().index < index {
            roots.last().size as nat
        } else {
            0
        }
    }
}

proof fn lemma_roots_before_mono(roots: Seq<Node>, index: u64, k: int)
    requires
        0 <= k <= roots.len(),
    ensures
        roots_before(roots.take(k), index) <= roots_before(roots, index),
    decreases roots.len(),
{
    if k < roots.len() {
        let t = roots.drop_last();
        assert(t.take(k) =~= roots.take(k));
        lemma_roots_before_mono(t, index, k);
    } else {
        assert(roots.take(k) =~= roots);
    }
}

/// The left siblings of a climb weigh no more than the node it ends on.
proof fn lemma_left_bytes(node: Node, siblings: Seq<Node>)
    ensures
        climb(node, siblings) matches Some(n) ==> left_bytes(node, siblings) + node.size <= n.size,
    decreases siblings.len(),
{
    if siblings.len() > 0 {
        lemma_left_bytes(node, siblings.drop_last());
    }
}

/// [`left_bytes`] of a climb that gets through.
fn left_weight(node: Node, siblings: &[Node]) -> (w: u64)
    requires
        climb(node, siblings@) is Some,
    ensures
        w == left_bytes(node, siblings@),
{
    let mut cur: Node = node;
    let mut w: u64 = 0;
    let mut i: usize = 0;
    proof {
        assert(siblings@.take(0) =~= Seq::<Node>::empty());
    }
    while i < siblings.len()
        invariant
            i <= siblings.len(),
            climb(node, siblings@) is Some,
            climb(node, siblings@.take(i as int)) == Some(cur),
            w == left_bytes(node, siblings@.take(i as int)),
        decreases siblings.len() - i,
    {
        let sib: Node = siblings[i];
        proof {
            let t = siblings@.take(i + 1);
            assert(t.drop_last() =~= siblings@.take(i as int));
            if climb(node, t) is None {
                lemma_climb_stuck(node, siblings@, i + 1);
            }
            lemma_left_bytes(node, t);
        }
        if sib.index < cur.index {
            w = w + sib.size;
        }
        cur = join(&cur, &sib);
        i = i + 1;
    }
    assert(siblings@.take(i as int) =~= siblings@);
    w
}

impl SeekProof {
    /// Where the byte offset lands, if the leaf climbs to one of the roots, the roots
    /// hash to `expected`, and the bytes to the left of the leaf and its own size
    /// bracket the offset.
    pub open spec fn lands(&self, expected: crate::merkle::Hash) -> Option<(u64, u64)> {
        match climb(self.leaf, self.siblings@) {
            Some(n) => {
                let before = roots_before(self.roots@, n.index) + left_bytes(
                    self.leaf,
                    self.siblings@,
                );
                if self.leaf.index % 2 == 0 && closes(self.roots@, n, expected) && before
                    <= self.bytes < before + self.leaf.size {
                    Some(((self.leaf.index / 2) as u64, (self.bytes - before) as u64))
                } else {
                    None
                }
            },
            None => None,
        }
    }

    /// Verify against the trusted `expected_root` and, if valid, return the
    /// authenticated `(block, offset_within_block)` that byte `bytes` lands in.
    ///
    /// Only a leaf (an even index) can be a target. Every size used is bound by the
    /// climb or by the roots; the blocks' byte intervals are disjoint and
    /// contiguous, so the sizes of a different block do not bracket the offset.
    pub fn verify(&self, expected_root: &crate::merkle::Hash) -> (r: Option<(u64, u64)>)
        ensures
            r == self.lands(*expected_root),
    {
        if self.leaf.index % 2 != 0 {
            return None;
        }
        let n: Node = match climbed(self.leaf, self.siblings.as_slice()) {
            None => return None,
            Some(n) => n,
        };
        if !check_root(self.roots.as_slice(), n, expected_root) {
            return None;
        }
        let mut before: u64 = left_weight(self.leaf, self.siblings.as_slice());
        let ghost left = before as nat;
        let mut i: usize = 0;
        while i < self.roots.len()
            invariant
                i <= self.roots.len(),
                before == left + roots_before(self.roots@.take(i as int), n.index),
                left == left_bytes(self.leaf, self.siblings@),
                climb(self.leaf, self.siblings@) == Some(n),
            decreases self.roots.len() - i,
        {
            let r: Node = self.roots[i];
            proof {
                assert(self.roots@.take(i + 1).drop_last() =~= self.roots@.take(i as int));
                lemma_roots_before_mono(self.roots@, n.index, i + 1);
            }
            if r.index < n.index {
                if before > u64::MAX - r.size {
                    return None;
                }
                before = before + r.size;
            }
            i = i + 1;
        }
        assert(self.roots@.take(i as int) =~= self.roots@);
        if self.bytes < before {
            return None;
        }
        let offset: u64 = self.bytes - before;
        if offset >= self.leaf.size {
            return None;
        }
        Some((self.leaf.index / 2, offset))
    }
}

/// A self-contained proof for a contiguous block range `[start, end)`: the off-range
/// boundary nodes needed to roll the range's leaves up to the roots, plus every root
/// of the tree. The multi-block generalization of [`Proof`].
#[derive(Clone, Debug, PartialEq, Eq)]
pub struct RangeProof {
    pub start: u64,
    pub end: u64,
    /// Byte size of each block in `[start, end)`, in order.
    pub leaf_sizes: Vec<u64>,
    /// Off-range boundary sibling nodes (any depth), in climb order.
    pub nodes: Vec<Node>,
    /// All roots of the tree at proof time.
    pub roots: Vec<Node>,
}

/// Whether one of `roots` has `index`.
pub open spec fn rooted(roots: Seq<Node>, index: u64) -> bool {
    place(roots, index) is Some
}

/// Whether the nodes at `k` and `k + 1` are siblings.
pub open spec fn paired(level: Seq<Node>, k: int) -> bool {
    k + 1 < level.len() && level[k].index < u64::MAX && level[k + 1].index == flat::sibling_of(
        level[k].index as nat,
    )
}

/// One level of a range climb, from position `k` on: the nodes one level up, and the
/// nodes that stay because they are roots. Two siblings of the level pair up unless
/// both are roots; a node without its sibling takes it from `table`, and the climb
/// fails where that has none.
pub open spec fn lift(level: Seq<Node>, k: int, table: Seq<Node>, roots: Seq<Node>) -> Option<
    (Seq<Node>, Seq<Node>),
>
    decreases level.len() - k,
{
    if k < 0 || k >= level.len() {
        Some((Seq::empty(), Seq::empty()))
    } else if paired(level, k) {
        match lift(level, k + 2, table, roots) {
            None => None,
            Some((up, tops)) => if rooted(roots, level[k].index) && rooted(
                roots,
                level[k + 1].index,
            ) {
                Some((up, seq![level[k], level[k + 1]] + tops))
            } else {
                match step_up(level[k], level[k + 1]) {
                    Some(p) => Some((seq![p] + up, tops)),
                    None => None,
                }
            },
        }
    } else {
        match lift(level, k + 1, table, roots) {
            None => None,
            Some((up, tops)) => if rooted(roots, level[k].index) {
                Some((up, seq![level[k]] + tops))
            } else if level[k].index == u64::MAX || level[k].index == SUMMIT {
                None
            } else {
                match lookup(table, flat::sibling_of(level[k].index as nat) as u64) {
                    None => None,
                    Some(sib) => match step_up(level[k], sib) {
                        Some(p) => Some((seq![p] + up, tops)),
                        None => None,
                    },
                }
            },
        }
    }
}

/// The roots that the nodes of a level climb to, recomputed, if they all get there
/// within `levels` levels.
pub open spec fn tops_of(
    level: Seq<Node>,
    table: Seq<Node>,
    roots: Seq<Node>,
    levels: nat,
) -> Option<Seq<Node>>
    decreases levels,
{
    if level.len() == 0 {
        Some(Seq::empty())
    } else if levels == 0 {
        None
    } else {
        match lift(level, 0, table, roots) {
            None => None,
            Some((up, tops)) => match tops_of(up, table, roots, (levels - 1) as nat) {
                None => None,
                Some(rest) => Some(tops + rest),
            },
        }
    }
}

/// A climb takes fewer steps than a 64-bit index has bits.
pub const LEVELS: u32 = 64;

/// The leaves of blocks that start at number `start`.
pub open spec fn leaves_of(start: nat, blocks: Seq<Vec<u8>>) -> Seq<Node> {
    Seq::new(blocks.len(), |k: int| leaf_node((start + k) as nat, blocks[k]@))
}

/// Put `l` before the two halves of a lifted level.
spec fn ahead(
    up: Seq<Node>,
    tops: Seq<Node>,
    rest: Option<(Seq<Node>, Seq<Node>)>,
) -> Option<(Seq<Node>, Seq<Node>)> {
    match rest {
        None => None,
        Some((u, t)) => Some((up + u, tops + t)),
    }
}

/// [`lift`], computed for a whole level.
fn lifted(level: &Vec<Node>, table: &[Node], roots: &[Node]) -> (r: Option<(Vec<Node>, Vec<Node>)>)
    ensures
        match r {
            None => lift(level@, 0, table@, roots@) is None,
            Some((up, tops)) => lift(level@, 0, table@, roots@) == Some((up@, tops@)),
        },
{
    let mut up: Vec<Node> = Vec::new();
    let mut tops: Vec<Node> = Vec::new();
    let mut i: usize = 0;
    let ghost whole = lift(level@, 0, table@, roots@);
    proof {
        if whole is Some {
            assert((whole->0).0 =~= up@ + (whole->0).0);
            assert((whole->0).1 =~= tops@ + (whole->0).1);
        }
    }
    while i < level.len()
        invariant
            i <= level.len(),
            whole == lift(level@, 0, table@, roots@),
            whole == ahead(up@, tops@, lift(level@, i as int, table@, roots@)),
        decreases level.len() - i,
    {
        let x: Node = level[i];
        let ghost up0 = up@;
        let ghost tops0 = tops@;
        let ghost here = lift(level@, i as int, table@, roots@);
        let top: bool = find_root(roots, x.index).is_some();
        let has_parent: bool = x.index != u64::MAX && x.index != SUMMIT;
        let pair: bool = if i + 1 < level.len() && has_parent {
            level[i + 1].index == flat::sibling(x.index)
        } else {
            false
        };
        proof {
            if x.index == SUMMIT {
                flat::lemma_summit();
            }
            assert(pair == paired(level@, i as int));
        }
        if pair {
            let y: Node = level[i + 1];
            let ghost after = lift(level@, i + 2, table@, roots@);
            if top && find_root(roots, y.index).is_some() {
                tops.push(x);
                tops.push(y);
                proof {
                    if after is Some {
                        assert(up0 + (here->0).0 =~= up@ + (after->0).0);
                        assert(tops0 + (here->0).1 =~= tops@ + (after->0).1);
                    }
                }
            } else {
                if x.size > u64::MAX - y.size {
                    return None;
                }
                up.push(join(&x, &y));
                proof {
                    if after is Some {
                        assert(up0 + (here->0).0 =~= up@ + (after->0).0);
                        assert(tops0 + (here->0).1 =~= tops@ + (after->0).1);
                    }
                }
            }
            i = i + 2;
        } else if top {
            let ghost after = lift(level@, i + 1, table@, roots@);
            tops.push(x);
            proof {
                if after is Some {
                    assert(up0 + (here->0).0 =~= up@ + (after->0).0);
                    assert(tops0 + (here->0).1 =~= tops@ + (after->0).1);
                }
            }
            i = i + 1;
        } else {
            let ghost after = lift(level@, i + 1, table@, roots@);
            if !has_parent {
                return None;
            }
            let sib: Node = match find_node(table, flat::sibling(x.index)) {
                None => return None,
                Some(n) => n,
            };
            proof {
                lemma_lookup(table@, flat::sibling_of(x.index as nat) as u64);
            }
            if x.size > u64::MAX - sib.size {
                return None;
            }
            up.push(join(&x, &sib));
            proof {
                if after is Some {
                    assert(up0 + (here->0).0 =~= up@ + (after->0).0);
                    assert(tops0 + (here->0).1 =~= tops@ + (after->0).1);
                }
            }
            i = i + 1;
        }
    }
    assert(up@ =~= up@ + Seq::<Node>::empty());
    assert(tops@ =~= tops@ + Seq::<Node>::empty());
    Some((up, tops))
}

impl RangeProof {
    /// Whether the leaves of `blocks` climb to roots as the proof has them, so that putting
    /// those in changes none, and the roots hash to `expected`.
    pub open spec fn accepts(&self, blocks: Seq<Vec<u8>>, expected: crate::merkle::Hash) -> bool {
        &&& self.start < self.end <= MAX_BLOCKS
        &&& blocks.len() == self.end - self.start
        &&& self.leaf_sizes@.len() == blocks.len()
        &&& forall|k: int|
            0 <= k < blocks.len() ==> (#[trigger] blocks[k])@.len() == self.leaf_sizes@[k]
        &&& tops_of(
            leaves_of(self.start as nat, blocks),
            self.nodes@,
            self.roots@,
            LEVELS as nat,
        ) matches Some(tops) && with_roots(self.roots@, tops) == Some(self.roots@) && root_digest(
            self.roots@,
        ) == expected
    }

    /// Verify this proof for `blocks` (the data for `[start, end)`, in order) against
    /// an expected tree `root` hash.
    ///
    /// Every on-range node is recomputed from `blocks`; the proof's `nodes` are
    /// consulted only as off-path siblings, so a forged boundary node cannot stand in
    /// for a leaf's ancestor. Each leaf must climb to a root index (a missing sibling
    /// is a rejection), and each root that is reached must be the proof's own copy of it.
    /// A range, a climb or a size that leaves 64 bits is refused.
    pub fn verify(&self, blocks: &[Vec<u8>], expected_root: &crate::merkle::Hash) -> (r: bool)
        ensures
            r == self.accepts(blocks@, *expected_root),
    {
        if self.start >= self.end || self.end > MAX_BLOCKS {
            return false;
        }
        let n: u64 = self.end - self.start;
        if blocks.len() as u64 != n || self.leaf_sizes.len() as u64 != n {
            return false;
        }
        let ghost leaves = leaves_of(self.start as nat, blocks@);
        let mut level: Vec<Node> = Vec::new();
        let mut k: usize = 0;
        while k < blocks.len()
            invariant
                k <= blocks.len(),
                blocks@.len() == self.end - self.start,
                self.leaf_sizes@.len() == blocks@.len(),
                self.start < self.end <= MAX_BLOCKS,
                leaves == leaves_of(self.start as nat, blocks@),
                level@ == leaves.take(k as int),
                forall|j: int|
                    0 <= j < k ==> (#[trigger] blocks@[j])@.len() == self.leaf_sizes@[j],
            decreases blocks.len() - k,
        {
            if blocks[k].len() as u64 != self.leaf_sizes[k] {
                assert(blocks@[k as int]@.len() != self.leaf_sizes@[k as int]);
                return false;
            }
            level.push(make_leaf(self.start + k as u64, blocks[k].as_slice()));
            k = k + 1;
            assert(level@ =~= leaves.take(k as int));
        }
        assert(level@ =~= leaves);
        let mut tops: Vec<Node> = Vec::new();
        let mut left: u32 = LEVELS;
        let ghost whole = tops_of(leaves, self.nodes@, self.roots@, LEVELS as nat);
        proof {
            if whole is Some {
                assert(whole->0 =~= tops@ + whole->0);
            }
        }
        while level.len() > 0
            invariant
                left <= LEVELS,
                whole == match tops_of(level@, self.nodes@, self.roots@, left as nat) {
                    None => None,
                    Some(rest) => Some(tops@ + rest),
                },
                !(whole is Some) ==> !self.accepts(blocks@, *expected_root),
            decreases left,
        {
            if left == 0 {
                return false;
            }
            let (up, mut here): (Vec<Node>, Vec<Node>) = match lifted(
                &level,
                self.nodes.as_slice(),
                self.roots.as_slice(),
            ) {
                None => return false,
                Some(p) => p,
            };
            let ghost before = tops@;
            let ghost mine = here@;
            tops.append(&mut here);
            level = up;
            left = left - 1;
            proof {
                let rest = tops_of(level@, self.nodes@, self.roots@, left as nat);
                if rest is Some {
                    assert(before + (mine + rest->0) =~= tops@ + rest->0);
                }
            }
        }
        assert(tops@ =~= tops@ + Seq::<Node>::empty());
        let mut roots: Vec<Node> = copy_nodes(self.roots.as_slice());
        let mut j: usize = 0;
        assert(tops@.take(0) =~= Seq::<Node>::empty());
        while j < tops.len()
            invariant
                j <= tops.len(),
                with_roots(self.roots@, tops@.take(j as int)) == Some(roots@),
                whole == Some(tops@),
                whole == tops_of(leaves, self.nodes@, self.roots@, LEVELS as nat),
                leaves == leaves_of(self.start as nat, blocks@),
            decreases tops.len() - j,
        {
            proof {
                assert(tops@.take(j + 1).drop_last() =~= tops@.take(j as int));
            }
            match find_root(roots.as_slice(), tops[j].index) {
                None => {
                    proof {
                        lemma_with_roots_stuck(self.roots@, tops@, j + 1);
                    }
                    return false;
                },
                Some(at) => {
                    roots.set(at, tops[j]);
                },
            }
            j = j + 1;
        }
        assert(tops@.take(j as int) =~= tops@);
        same_nodes(roots.as_slice(), self.roots.as_slice()) && same_32(
            &tree_hash(roots.as_slice()),
            expected_root,
        )
    }
}

/// Whether two lists of nodes are the same.
fn same_nodes(a: &[Node], b: &[Node]) -> (r: bool)
    ensures
        r == (a@ == b@),
{
    if a.len() != b.len() {
        return false;
    }
    let mut i: usize = 0;
    while i < a.len()
        invariant
            i <= a@.len(),
            a@.len() == b@.len(),
            forall|j: int| 0 <= j < i ==> a@[j] == b@[j],
        decreases a@.len() - i,
    {
        if !same_node(&a[i], &b[i]) {
            return false;
        }
        i = i + 1;
    }
    assert(a@ =~= b@);
    true
}

proof fn lemma_with_roots_stuck(roots: Seq<Node>, nodes: Seq<Node>, k: int)
    requires
        0 <= k <= nodes.len(),
        with_roots(roots, nodes.take(k)) is None,
    ensures
        with_roots(roots, nodes) is None,
    decreases nodes.len(),
{
    if k == nodes.len() {
        assert(nodes.take(k) =~= nodes);
    } else {
        let t = nodes.drop_last();
        assert(t.take(k) =~= nodes.take(k));
        lemma_with_roots_stuck(roots, t, k);
    }
}

/// A length-extension (consistency) proof: the fully-new subtree nodes needed to fold
/// a verifier's trusted old roots (at `old_len`) up into the new roots (at
/// `new_len`). Carries no block data.
#[derive(Clone, Debug, PartialEq, Eq)]
pub struct UpgradeProof {
    pub old_len: u64,
    pub new_len: u64,
    /// Fully-new subtree nodes (every node covers only blocks `>= old_len`), sorted by
    /// index.
    pub nodes: Vec<Node>,
}

/// `nodes` by index.
pub open spec fn known_nodes(nodes: Seq<Node>) -> Map<u64, Node>
    decreases nodes.len(),
{
    if nodes.len() == 0 {
        Map::empty()
    } else {
        known_nodes(nodes.drop_last()).insert(nodes.last().index, nodes.last())
    }
}

/// What the known nodes say the node at a depth and an offset is: the known node
/// itself, or the parent of what they say its children are.
pub open spec fn derived(known: Map<u64, Node>, depth: nat, offset: nat) -> Option<Node>
    decreases depth,
{
    let i = flat::index_of(depth, offset);
    if i < u64::MAX && known.contains_key(i as u64) {
        Some(known[i as u64])
    } else if depth == 0 {
        None
    } else {
        match (
            derived(known, (depth - 1) as nat, 2 * offset),
            derived(known, (depth - 1) as nat, 2 * offset + 1),
        ) {
            (Some(l), Some(r)) => if l.size + r.size <= u64::MAX {
                Some(joined(l, r))
            } else {
                None
            },
            _ => None,
        }
    }
}

/// [`derived`] by index.
pub open spec fn derived_at(known: Map<u64, Node>, i: nat) -> Option<Node> {
    derived(known, flat::depth_of(i), flat::offset_of(i))
}

/// The roots of `n` blocks that the known nodes derive, if they derive them all.
pub open spec fn derived_roots(known: Map<u64, Node>, roots: Seq<nat>) -> Option<Seq<Node>>
    decreases roots.len(),
{
    if roots.len() == 0 {
        Some(Seq::empty())
    } else {
        match (
            derived_roots(known, roots.drop_last()),
            derived_at(known, roots.last()),
        ) {
            (Some(rs), Some(r)) => Some(rs.push(r)),
            _ => None,
        }
    }
}

/// Whether no two of `nodes` have one index.
pub open spec fn distinct(nodes: Seq<Node>) -> bool {
    forall|j: int, k: int|
        0 <= j < k < nodes.len() ==> (#[trigger] nodes[j]).index != (#[trigger] nodes[k]).index
}

pub proof fn lemma_known(nodes: Seq<Node>)
    ensures
        forall|i: u64|
            #![trigger known_nodes(nodes).contains_key(i)]
            known_nodes(nodes).contains_key(i) ==> known_nodes(nodes)[i].index == i
                && nodes.contains(known_nodes(nodes)[i]),
        forall|k: int|
            0 <= k < nodes.len() ==> known_nodes(nodes).contains_key(
                #[trigger] nodes[k].index,
            ),
        distinct(nodes) ==> forall|k: int|
            0 <= k < nodes.len() ==> known_nodes(nodes)[(#[trigger] nodes[k]).index] == nodes[k],
    decreases nodes.len(),
{
    if nodes.len() > 0 {
        let t = nodes.drop_last();
        lemma_known(t);
        assert forall|i: u64| #[trigger] known_nodes(nodes).contains_key(i) implies known_nodes(
            nodes,
        )[i].index == i && nodes.contains(known_nodes(nodes)[i]) by {
            if i == nodes.last().index {
                assert(nodes[nodes.len() - 1] == nodes.last());
            } else {
                let n = known_nodes(t)[i];
                assert(known_nodes(t).contains_key(i));
                let j = choose|j: int| 0 <= j < t.len() && t[j] == n;
                assert(nodes[j] == n);
            }
        }
        assert forall|k: int| 0 <= k < nodes.len() implies known_nodes(nodes).contains_key(
            #[trigger] nodes[k].index,
        ) by {
            if k < t.len() {
                assert(t[k] == nodes[k]);
            }
        }
        if distinct(nodes) {
            assert(distinct(t)) by {
                assert forall|j: int, k: int| 0 <= j < k < t.len() implies (#[trigger] t[j]).index
                    != (#[trigger] t[k]).index by {
                    assert(t[j] == nodes[j] && t[k] == nodes[k]);
                }
            }
            assert forall|k: int| 0 <= k < nodes.len() implies known_nodes(nodes)[(
            #[trigger] nodes[k]).index] == nodes[k] by {
                if k < t.len() {
                    assert(t[k] == nodes[k]);
                    assert(nodes[nodes.len() - 1] == nodes.last());
                }
            }
        }
    }
}

/// The parent of two known siblings is what the children derive.
proof fn lemma_derived_parent(known: Map<u64, Node>, d: nat, o: nat)
    requires
        d > 0,
        !(flat::index_of(d, o) < u64::MAX && known.contains_key(flat::index_of(d, o) as u64)),
    ensures
        derived(known, d, o) == match (
            derived(known, (d - 1) as nat, 2 * o),
            derived(known, (d - 1) as nat, 2 * o + 1),
        ) {
            (Some(l), Some(r)) => if l.size + r.size <= u64::MAX {
                Some(joined(l, r))
            } else {
                None
            },
            _ => None,
        },
{
}

/// Whether `known` holds exactly what `seed` derives up to depth `d`, and what `seed`
/// itself holds above.
spec fn derived_up_to(known: Map<u64, Node>, seed: Map<u64, Node>, d: nat) -> bool {
    &&& forall|i: u64|
        i < u64::MAX && flat::depth_of(i as nat) <= d ==> #[trigger] known.contains_key(i) == (
        derived_at(seed, i as nat) is Some)
    &&& forall|i: u64|
        i < u64::MAX && flat::depth_of(i as nat) <= d && #[trigger] known.contains_key(i) ==> Some(
            known[i],
        ) == derived_at(seed, i as nat)
    &&& forall|i: u64|
        i < u64::MAX && flat::depth_of(i as nat) > d ==> #[trigger] known.contains_key(i)
            == seed.contains_key(i)
    &&& forall|i: u64|
        i < u64::MAX && flat::depth_of(i as nat) > d && #[trigger] known.contains_key(i)
            ==> known[i] == seed[i]
}

/// Whether every key is the index of its node and lies over the first `n` blocks.
spec fn keyed(known: Map<u64, Node>, n: nat) -> bool {
    forall|i: u64| #[trigger]
        known.contains_key(i) ==> known[i].index == i && i < u64::MAX && flat::end_of(i as nat) <= n
}

/// Add to `known` the parents, at depth `d + 1`, that two known siblings derive.
#[verifier::rlimit(60)]
fn fold_level(known: &mut BTreeMap<u64, Node>, d: u32, n: u64, Ghost(seed): Ghost<Map<u64, Node>>)
    requires
        d < 63,
        n < MAX_BLOCKS,
        keyed(old(known)@, n as nat),
        derived_up_to(old(known)@, seed, d as nat),
        keyed(seed, n as nat),
    ensures
        keyed(final(known)@, n as nat),
        derived_up_to(final(known)@, seed, (d + 1) as nat),
{
    broadcast use vstd::std_specs::btree::group_btree_axioms;

    let ghost start = known@;
    let keys: Vec<u64> = sorted_keys(known);
    let mut j: usize = 0;
    while j < keys.len()
        invariant
            j <= keys.len(),
            d < 63,
            n < MAX_BLOCKS,
            keys@.to_set() == start.dom(),
            derived_up_to(start, seed, d as nat),
            keyed(start, n as nat),
            keyed(known@, n as nat),
            keyed(seed, n as nat),
            forall|i: u64|
                #![trigger known@.contains_key(i)]
                start.contains_key(i) ==> known@.contains_key(i) && known@[i] == start[i],
            forall|i: u64|
                #![trigger known@.contains_key(i)]
                known@.contains_key(i) && !start.contains_key(i) ==> flat::depth_of(i as nat) == d
                    + 1 && derived_at(seed, i as nat) == Some(known@[i]),
            forall|q: int|
                #![trigger keys@[q]]
                0 <= q < j && flat::depth_of(keys@[q] as nat) == d && flat::offset_of(
                    keys@[q] as nat,
                ) % 2 == 0 && derived_at(seed, flat::parent_of(keys@[q] as nat)) is Some
                    ==> known@.contains_key(flat::parent_of(keys@[q] as nat) as u64),
        decreases keys.len() - j,
    {
        let c: u64 = keys[j];
        proof {
            assert(start.dom().contains(c)) by {
                assert(keys@.contains(c));
                assert(keys@.to_set().contains(c));
            }
            flat::lemma_range(c as nat);
        }
        if flat::depth(c) == d {
            proof {
                lemma_not_summit(c, n);
            }
            let sib: u64 = flat::sibling(c);
            let p: u64 = flat::parent(c);
            proof {
                flat::lemma_family(c as nat);
                flat::lemma_range(p as nat);
                flat::lemma_coords(c as nat);
                flat::lemma_coords(sib as nat);
                flat::lemma_coords(p as nat);
            }
            if c < sib && !known.contains_key(&p) {
                match (known.get(&c), known.get(&sib)) {
                    (Some(l), Some(r)) => {
                        let (l, r): (Node, Node) = (*l, *r);
                        proof {
                            assert(start.contains_key(sib));
                            assert(!start.contains_key(p));
                            assert(!seed.contains_key(p));
                            lemma_derived_parent(seed, (d + 1) as nat, flat::offset_of(p as nat));
                        }
                        if l.size <= u64::MAX - r.size {
                            known.insert(p, join(&l, &r));
                        }
                    },
                    _ => {
                        proof {
                            assert(!start.contains_key(sib));
                            assert(!start.contains_key(p));
                            assert(!seed.contains_key(p));
                            lemma_derived_parent(seed, (d + 1) as nat, flat::offset_of(p as nat));
                            assert(derived_at(seed, sib as nat) is None);
                        }
                    },
                }
            }
        }
        j = j + 1;
    }
    proof {
        assert forall|i: u64| i < u64::MAX && flat::depth_of(i as nat) == d + 1 && derived_at(
            seed,
            i as nat,
        ) is Some implies #[trigger] known@.contains_key(i) by {
            let e = (d + 1) as nat;
            let o = flat::offset_of(i as nat);
            flat::lemma_coords(i as nat);
            flat::lemma_children_of(i as nat);
            if seed.contains_key(i) {
                assert(start.contains_key(i));
            } else {
                lemma_derived_parent(seed, e, o);
                let l = flat::left_of(i as nat);
                flat::lemma_coords(l);
                assert(l < u64::MAX);
                assert(derived_at(seed, l) is Some);
                assert(start.contains_key(l as u64));
                assert(keys@.to_set().contains(l as u64));
                let q = choose|q: int| 0 <= q < keys@.len() && keys@[q] == l as u64;
                assert(keys@[q] as nat == l);
            }
        }
        assert forall|i: u64| i < u64::MAX && flat::depth_of(i as nat) == d + 1
            && #[trigger] known@.contains_key(i) implies derived_at(seed, i as nat) == Some(
            known@[i],
        ) by {
            if start.contains_key(i) {
                assert(seed.contains_key(i));
                flat::lemma_coords(i as nat);
            }
        }
    }
}

proof fn lemma_not_summit(c: u64, n: u64)
    requires
        n < MAX_BLOCKS,
        flat::end_of(c as nat) <= n,
    ensures
        c != SUMMIT,
{
    flat::lemma_summit();
}

/// The nodes that `seed` derives over the first `n` blocks.
fn fold_all(known: BTreeMap<u64, Node>, n: u64) -> (r: BTreeMap<u64, Node>)
    requires
        n < MAX_BLOCKS,
        keyed(known@, n as nat),
    ensures
        forall|i: u64|
            i < u64::MAX ==> match derived_at(known@, i as nat) {
                Some(x) => #[trigger] r@.contains_key(i) && r@[i] == x,
                None => !r@.contains_key(i),
            },
{
    let ghost seed = known@;
    let mut all: BTreeMap<u64, Node> = known;
    let mut d: u32 = 0;
    proof {
        assert forall|i: u64| i < u64::MAX && flat::depth_of(i as nat) == 0 implies (derived_at(
            seed,
            i as nat,
        ) is Some) == #[trigger] seed.contains_key(i) by {
            flat::lemma_coords(i as nat);
        }
        assert forall|i: u64| i < u64::MAX && #[trigger] seed.contains_key(i) implies derived_at(
            seed,
            i as nat,
        ) == Some(seed[i]) by {
            flat::lemma_coords(i as nat);
        }
    }
    while d < 63
        invariant
            d <= 63,
            n < MAX_BLOCKS,
            keyed(all@, n as nat),
            keyed(seed, n as nat),
            derived_up_to(all@, seed, d as nat),
        decreases 63 - d,
    {
        fold_level(&mut all, d, n, Ghost(seed));
        d = d + 1;
    }
    proof {
        assert forall|i: u64| i < u64::MAX implies match derived_at(seed, i as nat) {
            Some(x) => #[trigger] all@.contains_key(i) && all@[i] == x,
            None => !all@.contains_key(i),
        } by {
            flat::lemma_word(i as nat);
        }
    }
    all
}

impl UpgradeProof {
    /// Whether each supplied node covers only blocks in `[old_len, new_len)`.
    pub open spec fn fully_new(&self) -> bool {
        forall|k: int|
            0 <= k < self.nodes@.len() ==> {
                let i = (#[trigger] self.nodes@[k]).index;
                &&& i < u64::MAX
                &&& self.old_len <= flat::first_of(i as nat)
                &&& flat::end_of(i as nat) <= self.new_len
            }
    }

    /// Whether the trusted old roots and the fully-new nodes derive every new root,
    /// and the new roots hash to `expected`.
    pub open spec fn accepts(&self, old_roots: Seq<Node>, expected: crate::merkle::Hash) -> bool {
        &&& 0 < self.old_len < self.new_len < MAX_BLOCKS
        &&& old_roots.map_values(|r: Node| r.index as nat) == flat::roots_of(self.old_len as nat)
        &&& self.fully_new()
        &&& distinct(old_roots + self.nodes@)
        &&& derived_roots(
            known_nodes(old_roots + self.nodes@),
            flat::roots_of(self.new_len as nat),
        ) matches Some(rs) && root_digest(rs) == expected
    }

    /// Verify that this proof extends the trusted `old_roots` (the verifier's own
    /// roots at `old_len`) to a tree whose root hash is `new_root_hash`.
    ///
    /// The proof's nodes are accepted only if fully new, so supplied data can never
    /// stand in for an old block: the new roots are rebuilt from the trusted old
    /// prefix, and a rewrite of an old block makes them diverge. Lengths past the
    /// 64-bit index range are refused.
    pub fn verify(&self, old_roots: &[Node], new_root_hash: &crate::merkle::Hash) -> (r: bool)
        ensures
            r == self.accepts(old_roots@, *new_root_hash),
    {
        broadcast use vstd::std_specs::btree::group_btree_axioms;

        if self.old_len == 0 || self.old_len >= self.new_len || self.new_len >= MAX_BLOCKS {
            return false;
        }
        let f = Ghost(|r: Node| r.index as nat);
        let g = Ghost(|i: u64| i as nat);
        let shape: Vec<u64> = flat::full_roots(self.old_len * 2);
        if old_roots.len() != shape.len() {
            assert(old_roots@.map_values(f@).len() != shape@.map_values(g@).len());
            return false;
        }
        let ghost all = old_roots@ + self.nodes@;
        let mut known: BTreeMap<u64, Node> = BTreeMap::new();
        let mut k: usize = 0;
        proof {
            flat::lemma_roots(self.old_len as nat);
            assert(all.take(0) =~= Seq::<Node>::empty());
        }
        while k < old_roots.len()
            invariant
                k <= old_roots.len(),
                old_roots@.len() == shape@.len(),
                shape@.map_values(|i: u64| i as nat) == flat::roots_of(self.old_len as nat),
                all == old_roots@ + self.nodes@,
                known@ == known_nodes(all.take(k as int)),
                forall|j: int| 0 <= j < k ==> (#[trigger] old_roots@[j]).index == shape@[j],
            decreases old_roots.len() - k,
        {
            if old_roots[k].index != shape[k] {
                proof {
                    let a = old_roots@.map_values(|r: Node| r.index as nat);
                    let b = shape@.map_values(|i: u64| i as nat);
                    assert(a[k as int] != b[k as int]);
                }
                return false;
            }
            known.insert(old_roots[k].index, old_roots[k]);
            k = k + 1;
            proof {
                assert(all.take(k as int).drop_last() =~= all.take(k - 1));
                assert(all.take(k as int).last() == old_roots@[k - 1]);
            }
        }
        let ghost m = old_roots@.len() as int;
        proof {
            assert(all.take(m) =~= old_roots@);
            assert(old_roots@.map_values(|r: Node| r.index as nat) =~= shape@.map_values(
                |i: u64| i as nat,
            ));
            assert(distinct(all.take(m))) by {
                assert forall|a: int, b: int| 0 <= a < b < m implies (#[trigger] all.take(
                    m,
                )[a]).index != (#[trigger] all.take(m)[b]).index by {
                    let rs = flat::roots_of(self.old_len as nat);
                    let v = old_roots@.map_values(|r: Node| r.index as nat);
                    assert(v[a] == rs[a] && v[b] == rs[b]);
                    flat::lemma_roots_ordered(self.old_len as nat, a, b);
                }
            }
            assert(keyed(known@, self.new_len as nat)) by {
                lemma_known(old_roots@);
                assert forall|i: u64| #[trigger] known@.contains_key(i) implies known@[i].index == i
                    && i < u64::MAX && flat::end_of(i as nat) <= self.new_len by {
                    let x = known@[i];
                    let j = choose|j: int| 0 <= j < old_roots@.len() && old_roots@[j] == x;
                    let rs = flat::roots_of(self.old_len as nat);
                    assert(old_roots@.map_values(|r: Node| r.index as nat)[j] == rs[j]);
                    assert(flat::is_root(rs[j], self.old_len as nat));
                    assert(shape@[j] < u64::MAX);
                }
            }
        }
        let mut q: usize = 0;
        while q < self.nodes.len()
            invariant
                q <= self.nodes.len(),
                m == old_roots@.len(),
                all == old_roots@ + self.nodes@,
                known@ == known_nodes(all.take(m + q)),
                distinct(all.take(m + q)),
                keyed(known@, self.new_len as nat),
                forall|j: int|
                    0 <= j < q ==> {
                        let i = (#[trigger] self.nodes@[j]).index;
                        &&& i < u64::MAX
                        &&& self.old_len <= flat::first_of(i as nat)
                        &&& flat::end_of(i as nat) <= self.new_len
                    },
            decreases self.nodes.len() - q,
        {
            let x: Node = self.nodes[q];
            proof {
                assert(all[m + q] == x);
                assert(x == self.nodes@[q as int]);
            }
            if x.index == u64::MAX {
                return false;
            }
            let (first, end): (u64, u64) = flat::block_range(x.index);
            if first < self.old_len || end > self.new_len {
                return false;
            }
            proof {
                lemma_known(all.take(m + q));
            }
            if known.contains_key(&x.index) {
                proof {
                    let y = known@[x.index];
                    let t = all.take(m + q);
                    let j = choose|j: int| 0 <= j < t.len() && t[j] == y;
                    assert(all[j].index == all[m + q].index);
                }
                return false;
            }
            known.insert(x.index, x);
            proof {
                let t = all.take(m + q + 1);
                assert(t.drop_last() =~= all.take(m + q));
                assert(distinct(t)) by {
                    assert forall|a: int, b: int| 0 <= a < b < t.len() implies (
                    #[trigger] t[a]).index != (#[trigger] t[b]).index by {
                        let s = all.take(m + q);
                        assert(t[a] == s[a]);
                        if b < m + q {
                            assert(t[b] == s[b]);
                        } else {
                            assert(known_nodes(s).contains_key(s[a].index));
                        }
                    }
                }
            }
            q = q + 1;
        }
        proof {
            assert(all.take(m + q) =~= all);
        }
        let ghost seed = known@;
        let full: BTreeMap<u64, Node> = fold_all(known, self.new_len);
        let want: Vec<u64> = flat::full_roots(self.new_len * 2);
        let ghost idx = flat::roots_of(self.new_len as nat);
        let mut roots: Vec<Node> = Vec::new();
        let mut w: usize = 0;
        proof {
            assert(idx.take(0) =~= Seq::<nat>::empty());
        }
        while w < want.len()
            invariant
                w <= want.len(),
                want@.map_values(|i: u64| i as nat) == idx,
                forall|k: int| 0 <= k < want@.len() ==> #[trigger] want@[k] < u64::MAX,
                derived_roots(seed, idx.take(w as int)) == Some(roots@),
                forall|i: u64|
                    i < u64::MAX ==> match derived_at(seed, i as nat) {
                        Some(x) => #[trigger] full@.contains_key(i) && full@[i] == x,
                        None => !full@.contains_key(i),
                    },
                seed == known_nodes(old_roots@ + self.nodes@),
                idx == flat::roots_of(self.new_len as nat),
            decreases want.len() - w,
        {
            proof {
                assert(idx.take(w + 1).drop_last() =~= idx.take(w as int));
                assert(want@.map_values(|i: u64| i as nat)[w as int] == idx[w as int]);
                assert(idx[w as int] == want@[w as int] as nat);
            }
            match full.get(&want[w]) {
                None => {
                    proof {
                        assert(!full@.contains_key(want@[w as int]));
                        lemma_derived_roots_stuck(seed, idx, w + 1);
                    }
                    return false;
                },
                Some(x) => {
                    assert(full@.contains_key(want@[w as int]));
                    roots.push(*x);
                },
            }
            w = w + 1;
        }
        assert(idx.take(w as int) =~= idx);
        same_32(&tree_hash(roots.as_slice()), new_root_hash)
    }
}

proof fn lemma_derived_roots_stuck(known: Map<u64, Node>, roots: Seq<nat>, k: int)
    requires
        0 <= k <= roots.len(),
        derived_roots(known, roots.take(k)) is None,
    ensures
        derived_roots(known, roots) is None,
    decreases roots.len(),
{
    if k == roots.len() {
        assert(roots.take(k) =~= roots);
    } else {
        let t = roots.drop_last();
        assert(t.take(k) =~= roots.take(k));
        lemma_derived_roots_stuck(known, t, k);
    }
}

} // verus!
