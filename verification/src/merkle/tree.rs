//! The tree itself.
use std::collections::BTreeMap;
use vstd::prelude::*;
use vstd::arithmetic::power2::pow2;
use super::flat;
use super::proofs::{InRepairMode, NodeProof, Proof, RangeProof, SeekProof, UpgradeProof};
use super::{join, joined, leaf_node, make_leaf, root_digest, tree_hash, Node, MAX_BLOCKS, SUMMIT};
use crate::bytes::{array32, get_32, get_u64, le64, le_value, put_all, put_u64, same_32};
use crate::table::{ascending, keys_of, sorted_keys};

verus! {

broadcast use vstd::std_specs::btree::group_btree_axioms;

/// An append-only flat-tree Merkle tree.
#[derive(Debug, Default)]
pub struct MerkleTree {
    nodes: BTreeMap<u64, Node>,
    length: u64,
}

/// What a tree is: the nodes it holds, by flat index, and how many blocks it has.
#[verifier::ext_equal]
pub struct Tree {
    pub nodes: Map<u64, Node>,
    pub length: u64,
}

impl View for MerkleTree {
    type V = Tree;

    closed spec fn view(&self) -> Tree {
        Tree { nodes: self.nodes@, length: self.length }
    }
}

impl Clone for MerkleTree {
    fn clone(&self) -> (r: Self)
        ensures
            r@ == self@,
    {
        MerkleTree { nodes: self.nodes.clone(), length: self.length }
    }
}

/// The nodes after `cur` is added: while its left sibling is there, the parent of the
/// two is added as well.
pub open spec fn rolled(nodes: Map<u64, Node>, cur: Node) -> Map<u64, Node>
    decreases 64 - flat::depth_of(cur.index as nat),
    via rolled_decreases
{
    let sib = flat::sibling_of(cur.index as nat) as u64;
    if cur.index < u64::MAX && cur.index != SUMMIT && sib < cur.index && nodes.contains_key(sib) {
        rolled(nodes.insert(cur.index, cur), joined(cur, nodes[sib]))
    } else {
        nodes.insert(cur.index, cur)
    }
}

#[via_fn]
proof fn rolled_decreases(nodes: Map<u64, Node>, cur: Node) {
    lemma_step(cur.index);
}

/// Whether the sizes of the nodes that [`rolled`] adds fit in 64 bits.
pub open spec fn roll_fits(nodes: Map<u64, Node>, cur: Node) -> bool
    decreases 64 - flat::depth_of(cur.index as nat),
    via roll_fits_decreases
{
    let sib = flat::sibling_of(cur.index as nat) as u64;
    if cur.index < u64::MAX && cur.index != SUMMIT && sib < cur.index && nodes.contains_key(sib) {
        cur.size + nodes[sib].size <= u64::MAX && roll_fits(
            nodes.insert(cur.index, cur),
            joined(cur, nodes[sib]),
        )
    } else {
        true
    }
}

#[via_fn]
proof fn roll_fits_decreases(nodes: Map<u64, Node>, cur: Node) {
    lemma_step(cur.index);
}

/// A node below does not matter to what [`roll_fits`] looks at.
proof fn lemma_roll_insert(nodes: Map<u64, Node>, c: Node, up: Node)
    requires
        flat::depth_of(c.index as nat) < flat::depth_of(up.index as nat),
    ensures
        roll_fits(nodes.insert(c.index, c), up) == roll_fits(nodes, up),
    decreases 64 - flat::depth_of(up.index as nat),
{
    let more = nodes.insert(c.index, c);
    lemma_step(up.index);
    if up.index < u64::MAX && up.index != SUMMIT {
        let sib = flat::sibling_of(up.index as nat) as u64;
        flat::lemma_family(up.index as nat);
        assert(sib != c.index);
        if sib < up.index && nodes.contains_key(sib) {
            let next = joined(up, nodes[sib]);
            assert(next.index == flat::parent_of(up.index as nat));
            lemma_roll_insert(nodes.insert(up.index, up), c, next);
            assert(more.insert(up.index, up) =~= nodes.insert(up.index, up).insert(c.index, c));
        }
    }
}

/// Up from any index but the last two there is a 64-bit parent.
pub proof fn lemma_step(i: u64)
    ensures
        i < u64::MAX && i != SUMMIT ==> {
            &&& flat::sibling_of(i as nat) < u64::MAX
            &&& flat::parent_of(i as nat) < u64::MAX
            &&& flat::depth_of(flat::parent_of(i as nat)) == flat::depth_of(i as nat) + 1
            &&& flat::depth_of(i as nat) < 63
        },
{
    flat::lemma_word(i as nat);
    flat::lemma_family(i as nat);
}

/// Where byte `bytes` of the subtree at `(depth, offset)` lies: the block, and the
/// offset within it. `None` where a left child on the way down is missing.
pub open spec fn seek_in(
    nodes: Map<u64, Node>,
    depth: nat,
    offset: nat,
    bytes: u64,
) -> Option<(u64, u64)>
    decreases depth,
{
    if depth == 0 {
        Some((offset as u64, bytes))
    } else {
        let l = flat::index_of((depth - 1) as nat, 2 * offset) as u64;
        if !nodes.contains_key(l) {
            None
        } else if nodes[l].size > bytes {
            seek_in(nodes, (depth - 1) as nat, 2 * offset, bytes)
        } else {
            seek_in(nodes, (depth - 1) as nat, 2 * offset + 1, (bytes - nodes[l].size) as u64)
        }
    }
}

/// A byte lies no further into its block than into a subtree.
proof fn lemma_seek_in_within(nodes: Map<u64, Node>, depth: nat, offset: nat, bytes: u64)
    ensures
        seek_in(nodes, depth, offset, bytes) matches Some(p) ==> p.1 <= bytes,
    decreases depth,
{
    if depth > 0 {
        let d = (depth - 1) as nat;
        let l = flat::index_of(d, 2 * offset) as u64;
        lemma_seek_in_within(nodes, d, 2 * offset, bytes);
        if nodes[l].size <= bytes {
            lemma_seek_in_within(nodes, d, 2 * offset + 1, (bytes - nodes[l].size) as u64);
        }
    }
}

/// The fully-new subtrees below `(depth, offset)`, left to right: the largest whose
/// blocks are all at or past `old`.
pub open spec fn fresh_below(depth: nat, offset: nat, old: nat) -> Seq<nat>
    decreases depth,
{
    let i = flat::index_of(depth, offset);
    if flat::end_of(i) <= old {
        Seq::empty()
    } else if flat::first_of(i) >= old || depth == 0 {
        seq![i]
    } else {
        fresh_below((depth - 1) as nat, 2 * offset, old) + fresh_below(
            (depth - 1) as nat,
            2 * offset + 1,
            old,
        )
    }
}

/// [`fresh_below`] each of `roots`, left to right.
pub open spec fn fresh_under(roots: Seq<nat>, old: nat) -> Seq<nat>
    decreases roots.len(),
{
    if roots.len() == 0 {
        Seq::empty()
    } else {
        fresh_under(roots.drop_last(), old) + fresh_below(
            flat::depth_of(roots.last()),
            flat::offset_of(roots.last()),
            old,
        )
    }
}

/// The off-range siblings that offsets `[lo, hi)` at `depth` need on their way up, in
/// a tree with `count` complete nodes at that depth. Where `count` is odd the last of
/// them is a root and stays; the others pair up, and a range that starts at a right
/// child or ends at a left child needs the neighbour there.
pub open spec fn boundary(depth: nat, lo: nat, hi: nat, count: nat) -> Seq<nat>
    decreases count,
{
    let top = if hi <= count - count % 2 {
        hi as int
    } else {
        count - count % 2
    };
    if lo >= top || count == 0 {
        Seq::empty()
    } else {
        (if lo % 2 == 1 {
            seq![flat::index_of(depth, (lo - 1) as nat)]
        } else {
            Seq::empty()
        }) + (if top % 2 == 1 {
            seq![flat::index_of(depth, top as nat)]
        } else {
            Seq::empty()
        }) + boundary(depth + 1, lo / 2, ((top + 1) / 2) as nat, count / 2)
    }
}

/// The bytes of one stored node.
pub open spec fn node_bytes(n: Node) -> Seq<u8> {
    le64(n.index) + le64(n.size) + n.hash@
}

/// The bytes of the nodes under `keys`, in order.
pub open spec fn entries_bytes(nodes: Map<u64, Node>, keys: Seq<u64>) -> Seq<u8>
    decreases keys.len(),
{
    if keys.len() == 0 {
        Seq::empty()
    } else {
        entries_bytes(nodes, keys.drop_last()) + node_bytes(nodes[keys.last()])
    }
}

/// The node whose 48 bytes start at `at`.
pub open spec fn node_at(s: Seq<u8>, at: int) -> Node {
    Node {
        index: le_value(s.subrange(at, at + 8)) as u64,
        size: le_value(s.subrange(at + 8, at + 16)) as u64,
        hash: array32(s.subrange(at + 16, at + 48)),
    }
}

/// The first `k` nodes of a serialized tree, by index; of two with one index the
/// later counts.
pub open spec fn entries_of(s: Seq<u8>, k: nat) -> Map<u64, Node>
    decreases k,
{
    if k == 0 {
        Map::empty()
    } else {
        let n = node_at(s, 16 + 48 * (k - 1));
        entries_of(s, (k - 1) as nat).insert(n.index, n)
    }
}

/// The tree that `s` stands for: block count, node count, then exactly that many
/// nodes.
pub open spec fn parsed_tree(s: Seq<u8>) -> Option<Tree> {
    if s.len() < 16 {
        None
    } else {
        let count = le_value(s.subrange(8, 16));
        if s.len() != 16 + 48 * count {
            None
        } else {
            Some(Tree { nodes: entries_of(s, count), length: le_value(s.subrange(0, 8)) as u64 })
        }
    }
}

/// The largest number in `lo..=hi` that a bisection for `agree` ends on.
pub open spec fn bisect(agree: spec_fn(u64) -> bool, lo: u64, hi: u64) -> u64
    decreases hi - lo,
{
    if lo >= hi {
        lo
    } else {
        let mid = (lo + (hi - lo + 1) / 2) as u64;
        if agree(mid) {
            bisect(agree, mid, hi)
        } else {
            bisect(agree, lo, (mid - 1) as u64)
        }
    }
}

impl Tree {
    /// Every node is stored under its own index.
    pub open spec fn keyed(self) -> bool {
        forall|i: u64| #[trigger] self.nodes.contains_key(i) ==> self.nodes[i].index == i
    }

    /// The tree after one more block.
    pub open spec fn appended(self, data: Seq<u8>) -> Tree {
        Tree {
            nodes: rolled(self.nodes, leaf_node(self.length as nat, data)),
            length: (self.length + 1) as u64,
        }
    }

    /// Whether one more block of `data` keeps indices and sizes in 64 bits.
    pub open spec fn can_append(self, data: Seq<u8>) -> bool {
        self.length + 1 < MAX_BLOCKS && roll_fits(
            self.nodes,
            leaf_node(self.length as nat, data),
        )
    }

    /// The tree of the first `n` blocks: the nodes that cover only those.
    pub open spec fn truncated(self, n: u64) -> Tree {
        if n >= self.length {
            self
        } else {
            Tree {
                nodes: self.nodes.restrict(
                    Set::new(|i: u64| flat::complete(i as nat, n as nat)),
                ),
                length: n,
            }
        }
    }

    /// Whether every node that a fully-built tree of this length has is there.
    pub open spec fn intact(self) -> bool {
        forall|i: u64|
            flat::complete(i as nat, self.length as nat) ==> #[trigger] self.nodes.contains_key(i)
    }

    /// Whether the roots of the first `n` blocks are there.
    pub open spec fn has_roots(self, n: nat) -> bool {
        forall|k: int|
            0 <= k < flat::roots_of(n).len() ==> self.nodes.contains_key(
                #[trigger] flat::roots_of(n)[k] as u64,
            )
    }

    /// The roots of the first `n` blocks.
    pub open spec fn roots_at(self, n: nat) -> Seq<Node> {
        flat::roots_of(n).map_values(|i: nat| self.nodes[i as u64])
    }

    /// The hash over the current roots.
    pub open spec fn root_hash(self) -> crate::merkle::Hash {
        root_digest(self.roots_at(self.length as nat))
    }

    /// The hash over the roots of the first `n` blocks, if they are there.
    pub open spec fn prefix_hash(self, n: u64) -> Option<crate::merkle::Hash> {
        if n <= self.length && self.has_roots(n as nat) {
            Some(root_digest(self.roots_at(n as nat)))
        } else {
            None
        }
    }

    /// Whether both trees have a root hash for their first `n` blocks, and the same.
    pub open spec fn agrees(self, other: Tree, n: u64) -> bool {
        n == 0 || (self.prefix_hash(n) is Some && self.prefix_hash(n) == other.prefix_hash(n))
    }

    /// The longest common prefix that bisection over root hashes finds.
    pub open spec fn ancestor(self, other: Tree) -> u64 {
        bisect(
            |n: u64| self.agrees(other, n),
            0,
            if self.length <= other.length {
                self.length
            } else {
                other.length
            },
        )
    }

    /// The siblings from node `i` up to the root above it, if they are all there.
    pub open spec fn path(self, i: nat) -> Option<Seq<Node>>
        decreases self.length - pow2(flat::depth_of(i)),
        via Self::path_decreases
    {
        if !flat::complete(i, self.length as nat) {
            None
        } else if flat::is_root(i, self.length as nat) {
            Some(Seq::empty())
        } else {
            let sib = flat::sibling_of(i) as u64;
            match self.path(flat::parent_of(i)) {
                Some(rest) => if self.nodes.contains_key(sib) {
                    Some(seq![self.nodes[sib]] + rest)
                } else {
                    None
                },
                None => None,
            }
        }
    }

    #[via_fn]
    proof fn path_decreases(self, i: nat) {
        if flat::complete(i, self.length as nat) && !flat::is_root(i, self.length as nat) {
            flat::lemma_climb(i, self.length as nat);
            flat::lemma_range(flat::parent_of(i));
            flat::lemma_family(i);
        }
    }

    /// The sum of the sizes of `roots`.
    pub open spec fn weight(roots: Seq<Node>) -> nat
        decreases roots.len(),
    {
        if roots.len() == 0 {
            0
        } else {
            Self::weight(roots.drop_last()) + roots.last().size as nat
        }
    }

    /// Where byte `bytes` of the log lies, looking from root number `k` on: the block
    /// and the offset within it, or the end and how far past it.
    pub open spec fn seek_from(self, k: int, bytes: u64) -> Option<(u64, u64)>
        decreases flat::roots_of(self.length as nat).len() - k,
    {
        let roots = flat::roots_of(self.length as nat);
        if k < 0 || k >= roots.len() {
            Some((self.length, bytes))
        } else {
            let r = self.nodes[roots[k] as u64];
            if r.size > bytes {
                seek_in(self.nodes, flat::depth_of(roots[k]), flat::offset_of(roots[k]), bytes)
            } else {
                self.seek_from(k + 1, (bytes - r.size) as u64)
            }
        }
    }

    /// A byte lies no further into its block than into the log.
    pub proof fn lemma_seek_within(self, k: int, bytes: u64)
        ensures
            self.seek_from(k, bytes) matches Some(p) ==> p.1 <= bytes,
        decreases flat::roots_of(self.length as nat).len() - k,
    {
        let roots = flat::roots_of(self.length as nat);
        if 0 <= k < roots.len() {
            let r = self.nodes[roots[k] as u64];
            if r.size > bytes {
                lemma_seek_in_within(
                    self.nodes,
                    flat::depth_of(roots[k]),
                    flat::offset_of(roots[k]),
                    bytes,
                );
            } else {
                self.lemma_seek_within(k + 1, (bytes - r.size) as u64);
            }
        }
    }

    /// The bytes that stand for this tree.
    pub open spec fn serialized(self) -> Seq<u8> {
        le64(self.length) + le64(self.nodes.len() as u64) + entries_bytes(
            self.nodes,
            keys_of(self.nodes),
        )
    }

    /// Whether the nodes at `indices` are all there.
    pub open spec fn has_all(self, indices: Seq<nat>) -> bool {
        forall|k: int|
            0 <= k < indices.len() ==> self.nodes.contains_key(#[trigger] indices[k] as u64)
    }

    /// The nodes at `indices`.
    pub open spec fn pick(self, indices: Seq<nat>) -> Seq<Node> {
        indices.map_values(|i: nat| self.nodes[i as u64])
    }
}

/// The numbers below `m`.
proof fn lemma_below(m: u64)
    ensures
        Set::new(|i: u64| i < m).finite(),
        Set::new(|i: u64| i < m).len() == m,
    decreases m,
{
    let s = Set::new(|i: u64| i < m);
    if m == 0 {
        assert(s =~= Set::<u64>::empty());
    } else {
        let k = (m - 1) as u64;
        lemma_below(k);
        assert(s =~= Set::new(|i: u64| i < k).insert(k));
    }
}

impl MerkleTree {
    /// A tree has finitely many nodes, no more than 64 bits count where none has the last
    /// index, which no block's node has.
    pub proof fn law_finite(&self)
        ensures
            self@.nodes.dom().finite(),
            !self@.nodes.contains_key(u64::MAX) ==> self@.nodes.len() <= u64::MAX,
    {
        broadcast use vstd::std_specs::btree::group_btree_axioms;

        assert(self.nodes@.dom().finite());
        if !self@.nodes.contains_key(u64::MAX) {
            lemma_below(u64::MAX);
            let s = Set::new(|i: u64| i < u64::MAX);
            assert forall|i: u64| self@.nodes.dom().contains(i) implies s.contains(i) by {
                if i == u64::MAX {
                    assert(self@.nodes.contains_key(i));
                }
            }
            vstd::set_lib::lemma_len_subset(self@.nodes.dom(), s);
        }
    }

    pub fn new() -> (t: Self)
        ensures
            t@ == (Tree { nodes: Map::empty(), length: 0 }),
            t@.keyed(),
    {
        MerkleTree { nodes: BTreeMap::new(), length: 0 }
    }

    /// Number of appended blocks.
    pub fn len(&self) -> (n: u64)
        ensures
            n == self@.length,
    {
        self.length
    }

    pub fn is_empty(&self) -> (b: bool)
        ensures
            b == (self@.length == 0),
    {
        self.length == 0
    }

    /// Append a block; returns its block number. Rolls completed parents up.
    pub fn append(&mut self, data: &[u8]) -> (block: u64)
        requires
            old(self)@.keyed(),
            old(self)@.can_append(data@),
        ensures
            block == old(self)@.length,
            final(self)@ == old(self)@.appended(data@),
            final(self)@.keyed(),
    {
        let block: u64 = self.length;
        let mut cur: Node = make_leaf(block, data);
        let ghost goal = rolled(self.nodes@, cur);
        proof {
            flat::lemma_leaf(block as nat);
            flat::lemma_word(cur.index as nat);
        }
        loop
            invariant
                cur.index < u64::MAX,
                goal == rolled(self.nodes@, cur),
                roll_fits(self.nodes@, cur),
                forall|i: u64| #[trigger]
                    self.nodes@.contains_key(i) ==> self.nodes@[i].index == i,
                self.length == block,
                self.length == old(self)@.length,
            ensures
                self.nodes@ == goal,
                forall|i: u64| #[trigger]
                    self.nodes@.contains_key(i) ==> self.nodes@[i].index == i,
                self.length == old(self)@.length,
            decreases 64 - flat::depth_of(cur.index as nat),
        {
            proof {
                lemma_step(cur.index);
            }
            if cur.index == SUMMIT {
                self.nodes.insert(cur.index, cur);
                break;
            }
            let sib: u64 = flat::sibling(cur.index);
            if sib > cur.index {
                self.nodes.insert(cur.index, cur);
                break;
            }
            let left: Option<Node> = match self.nodes.get(&sib) {
                Some(n) => Some(*n),
                None => None,
            };
            self.nodes.insert(cur.index, cur);
            proof {
                flat::lemma_family(cur.index as nat);
            }
            match left {
                None => {
                    break;
                },
                Some(l) => {
                    cur = join(&cur, &l);
                },
            }
        }
        self.length = self.length + 1;
        block
    }

    /// Whether one more block of `data` keeps indices and sizes in 64 bits.
    pub fn has_room(&self, data: &[u8]) -> (ok: bool)
        ensures
            ok == self@.can_append(data@),
    {
        if self.length >= MAX_BLOCKS - 1 {
            return false;
        }
        let mut index: u64 = 2 * self.length;
        let mut size: u64 = data.len() as u64;
        let ghost mut cur = leaf_node(self.length as nat, data@);
        proof {
            flat::lemma_leaf(self.length as nat);
            flat::lemma_word(index as nat);
        }
        loop
            invariant
                cur.index == index,
                cur.size == size,
                index < u64::MAX,
                self.length + 1 < MAX_BLOCKS,
                self@.can_append(data@) == roll_fits(self.nodes@, cur),
            decreases 64 - flat::depth_of(index as nat),
        {
            proof {
                lemma_step(index);
            }
            if index == SUMMIT {
                return true;
            }
            let sib: u64 = flat::sibling(index);
            if sib > index {
                return true;
            }
            match self.nodes.get(&sib) {
                None => {
                    return true;
                },
                Some(n) => {
                    proof {
                        flat::lemma_family(index as nat);
                    }
                    if n.size > u64::MAX - size {
                        return false;
                    }
                    proof {
                        let up = joined(cur, self.nodes@[sib]);
                        lemma_roll_insert(self.nodes@, cur, up);
                        cur = up;
                    }
                    size = size + n.size;
                    index = flat::parent(index);
                },
            }
        }
    }

    /// Rewind the tree to its first `new_len` blocks, discarding every later block and
    /// every node over one. Returns `true` if the tree changed (`false`, a no-op, when
    /// `new_len >= len()`).
    pub fn truncate(&mut self, new_len: u64) -> (changed: bool)
        requires
            old(self)@.keyed(),
            new_len < old(self)@.length ==> !old(self)@.nodes.contains_key(u64::MAX),
        ensures
            changed == (new_len < old(self)@.length),
            final(self)@ == old(self)@.truncated(new_len),
            final(self)@.keyed(),
    {
        if new_len >= self.length {
            return false;
        }
        let keys: Vec<u64> = sorted_keys(&self.nodes);
        let ghost before = self.nodes@;
        let mut k: usize = 0;
        while k < keys.len()
            invariant
                k <= keys.len(),
                ascending(keys@),
                keys@.to_set() == before.dom(),
                !before.contains_key(u64::MAX),
                self.length == old(self)@.length,
                forall|i: u64| #[trigger]
                    self.nodes@.contains_key(i) ==> before.contains_key(i) && self.nodes@[i]
                        == before[i],
                forall|i: u64|
                    before.contains_key(i) && flat::complete(i as nat, new_len as nat)
                        ==> #[trigger] self.nodes@.contains_key(i),
                forall|j: int|
                    0 <= j < k && !flat::complete(keys@[j] as nat, new_len as nat)
                        ==> !self.nodes@.contains_key(#[trigger] keys@[j]),
            decreases keys.len() - k,
        {
            let i: u64 = keys[k];
            proof {
                assert(keys@.contains(i));
                assert(keys@.to_set().contains(i));
            }
            if flat::block_range(i).1 > new_len {
                self.nodes.remove(&i);
            }
            k = k + 1;
        }
        self.length = new_len;
        proof {
            let want = old(self)@.truncated(new_len).nodes;
            assert forall|i: u64| #[trigger] self.nodes@.contains_key(i) == want.contains_key(
                i,
            ) by {
                if self.nodes@.contains_key(i) {
                    assert(keys@.to_set().contains(i));
                    let j = choose|j: int| 0 <= j < keys@.len() && keys@[j] == i;
                    assert(flat::complete(keys@[j] as nat, new_len as nat));
                }
            }
            assert(self.nodes@ =~= want);
        }
        true
    }

    /// The nodes at `indices`, if they are all there.
    fn gather(&self, indices: &Vec<u64>) -> (r: Option<Vec<Node>>)
        ensures
            match r {
                Some(v) => (forall|k: int|
                    0 <= k < indices@.len() ==> self@.nodes.contains_key(#[trigger] indices@[k]))
                    && v@ == indices@.map_values(|i: u64| self@.nodes[i]),
                None => exists|k: int|
                    0 <= k < indices@.len() && !self@.nodes.contains_key(#[trigger] indices@[k]),
            },
    {
        let mut v: Vec<Node> = Vec::new();
        let mut k: usize = 0;
        while k < indices.len()
            invariant
                k <= indices.len(),
                v@.len() == k,
                forall|j: int|
                    0 <= j < k ==> self@.nodes.contains_key(#[trigger] indices@[j]) && v@[j]
                        == self@.nodes[indices@[j]],
            decreases indices.len() - k,
        {
            match self.nodes.get(&indices[k]) {
                Some(n) => v.push(*n),
                None => {
                    assert(!self@.nodes.contains_key(indices@[k as int]));
                    return None;
                },
            }
            k = k + 1;
        }
        assert(v@ =~= indices@.map_values(|i: u64| self@.nodes[i]));
        Some(v)
    }

    /// The root nodes the tree would have if truncated to its first `len` blocks, or
    /// `None` if one of them is missing or `len > len()`.
    pub fn prefix_roots(&self, len: u64) -> (r: Option<Vec<Node>>)
        requires
            len <= self@.length ==> len < MAX_BLOCKS,
        ensures
            match r {
                Some(v) => len <= self@.length && self@.has_roots(len as nat) && v@
                    == self@.roots_at(len as nat),
                None => len > self@.length || !self@.has_roots(len as nat),
            },
    {
        if len > self.length {
            return None;
        }
        let idx: Vec<u64> = flat::full_roots(len * 2);
        let ghost g = |i: u64| i as nat;
        let ghost all = flat::roots_of(len as nat);
        proof {
            assert(idx@.map_values(|i: u64| i as nat) == all);
            assert forall|k: int| 0 <= k < all.len() implies #[trigger] all[k] == idx@[k]
                && all[k] as u64 == idx@[k] by {
                assert(idx@.map_values(|i: u64| i as nat)[k] == idx@[k] as nat);
            }
        }
        let r: Option<Vec<Node>> = self.gather(&idx);
        proof {
            match &r {
                Some(v) => {
                    assert(v@ =~= self@.roots_at(len as nat));
                    assert forall|k: int| 0 <= k < all.len() implies self@.nodes.contains_key(
                        #[trigger] all[k] as u64,
                    ) by {
                        assert(self@.nodes.contains_key(idx@[k]));
                    }
                },
                None => {
                    let k = choose|k: int|
                        0 <= k < idx@.len() && !self@.nodes.contains_key(#[trigger] idx@[k]);
                    assert(!self@.nodes.contains_key(all[k] as u64));
                },
            }
        }
        r
    }

    /// The current root nodes (one per complete power-of-two subtree).
    pub fn roots(&self) -> (r: Vec<Node>)
        requires
            self@.length < MAX_BLOCKS,
            self@.has_roots(self@.length as nat),
        ensures
            r@ == self@.roots_at(self@.length as nat),
    {
        match self.prefix_roots(self.length) {
            Some(v) => v,
            None => Vec::new(),
        }
    }

    /// Total byte size of every live block: the sum of the root subtree sizes.
    pub fn byte_length(&self) -> (n: u64)
        requires
            self@.length < MAX_BLOCKS,
            self@.has_roots(self@.length as nat),
            Tree::weight(self@.roots_at(self@.length as nat)) <= u64::MAX,
        ensures
            n == Tree::weight(self@.roots_at(self@.length as nat)),
    {
        let roots: Vec<Node> = self.roots();
        let mut n: u64 = 0;
        let mut k: usize = 0;
        proof {
            assert(roots@.take(0) =~= Seq::<Node>::empty());
        }
        while k < roots.len()
            invariant
                k <= roots.len(),
                n == Tree::weight(roots@.take(k as int)),
                Tree::weight(roots@) <= u64::MAX,
            decreases roots.len() - k,
        {
            proof {
                assert(roots@.take(k + 1).drop_last() =~= roots@.take(k as int));
                lemma_weight_mono(roots@, k + 1);
            }
            n = n + roots[k].size;
            k = k + 1;
        }
        assert(roots@.take(k as int) =~= roots@);
        n
    }

    /// Serialize the tree (its length and all retained nodes): `[length][node count]`
    /// then, per node in index order, `[index][size][hash]`, all little-endian.
    pub fn serialize(&self) -> (out: Vec<u8>)
        ensures
            out@ == self@.serialized(),
    {
        let mut out: Vec<u8> = Vec::new();
        let keys: Vec<u64> = sorted_keys(&self.nodes);
        put_u64(&mut out, self.length);
        put_u64(&mut out, self.nodes.len() as u64);
        let ghost head = le64(self.length) + le64(self@.nodes.len() as u64);
        let mut k: usize = 0;
        proof {
            assert(keys@.take(0) =~= Seq::<u64>::empty());
            assert(out@ =~= head + entries_bytes(self@.nodes, keys@.take(0)));
        }
        while k < keys.len()
            invariant
                k <= keys.len(),
                keys@.to_set() == self@.nodes.dom(),
                out@ == head + entries_bytes(self@.nodes, keys@.take(k as int)),
            decreases keys.len() - k,
        {
            proof {
                assert(keys@.contains(keys@[k as int]));
                assert(keys@.to_set().contains(keys@[k as int]));
                assert(keys@.take(k + 1).drop_last() =~= keys@.take(k as int));
            }
            let ghost before = out@;
            match self.nodes.get(&keys[k]) {
                Some(n) => {
                    put_u64(&mut out, n.index);
                    put_u64(&mut out, n.size);
                    put_all(&mut out, &n.hash);
                    assert(out@ =~= before + node_bytes(*n));
                    assert(out@ =~= head + entries_bytes(self@.nodes, keys@.take(k + 1)));
                },
                None => {},
            }
            k = k + 1;
        }
        assert(keys@.take(k as int) =~= keys@);
        out
    }

    /// Reconstruct a tree from [`serialize`](Self::serialize) output, or `None` on a
    /// malformed buffer (too short, a node count that overruns, or trailing bytes).
    pub fn deserialize(bytes: &[u8]) -> (r: Option<Self>)
        ensures
            match r {
                Some(t) => parsed_tree(bytes@) == Some(t@) && t@.keyed(),
                None => parsed_tree(bytes@) is None,
            },
    {
        if bytes.len() < 16 {
            return None;
        }
        let length: u64 = get_u64(bytes, 0);
        let count: u64 = get_u64(bytes, 8);
        let body: usize = bytes.len() - 16;
        if body % 48 != 0 || (body / 48) as u64 != count {
            return None;
        }
        let mut nodes: BTreeMap<u64, Node> = BTreeMap::new();
        let mut k: usize = 0;
        while k < body / 48
            invariant
                bytes.len() == body + 16,
                body % 48 == 0,
                k <= body / 48,
                nodes@ == entries_of(bytes@, k as nat),
                forall|i: u64| #[trigger] nodes@.contains_key(i) ==> nodes@[i].index == i,
            decreases body / 48 - k,
        {
            let at: usize = 16 + 48 * k;
            let index: u64 = get_u64(bytes, at);
            let size: u64 = get_u64(bytes, at + 8);
            let hash: [u8; 32] = get_32(bytes, at + 16);
            nodes.insert(index, Node { index, hash, size });
            k = k + 1;
            proof {
                assert(16 + 48 * (k - 1) == at);
                assert(Node { index, hash, size } == node_at(bytes@, at as int));
            }
        }
        Some(MerkleTree { nodes, length })
    }

    /// The root hash the tree would have if truncated to its first `len` blocks, or
    /// `None` if a node that prefix needs is missing.
    pub fn prefix_root_hash(&self, len: u64) -> (r: Option<crate::merkle::Hash>)
        requires
            len <= self@.length ==> len < MAX_BLOCKS,
        ensures
            r == self@.prefix_hash(len),
    {
        match self.prefix_roots(len) {
            Some(v) => Some(tree_hash(v.as_slice())),
            None => None,
        }
    }

    /// Whether both trees agree on their first `a` blocks, by root hash.
    fn agree(&self, other: &MerkleTree, a: u64) -> (r: bool)
        requires
            a < MAX_BLOCKS,
        ensures
            r == self@.agrees(other@, a),
    {
        if a == 0 {
            return true;
        }
        match (self.prefix_root_hash(a), other.prefix_root_hash(a)) {
            (Some(x), Some(y)) => same_32(&x, &y),
            _ => false,
        }
    }

    /// The lowest common ancestor of `self` and `other`: the length of the longest
    /// block prefix on which the two trees agree. Compares only root hashes, by
    /// bisection; a gap reads as disagreement.
    pub fn lowest_common_ancestor(&self, other: &MerkleTree) -> (a: u64)
        requires
            self@.length < MAX_BLOCKS || other@.length < MAX_BLOCKS,
        ensures
            a == self@.ancestor(other@),
            a <= self@.length && a <= other@.length,
            self@.agrees(other@, a),
            a < self@.length && a < other@.length ==> !self@.agrees(other@, (a + 1) as u64),
    {
        let mut lo: u64 = 0;
        let mut hi: u64 = if self.length <= other.length {
            self.length
        } else {
            other.length
        };
        let ghost max = hi;
        let ghost f = |n: u64| self@.agrees(other@, n);
        while lo < hi
            invariant
                lo <= hi <= max < MAX_BLOCKS,
                f == (|n: u64| self@.agrees(other@, n)),
                self@.agrees(other@, lo),
                hi < max ==> !self@.agrees(other@, (hi + 1) as u64),
                bisect(f, lo, hi) == bisect(f, 0, max),
            decreases hi - lo,
        {
            let mid: u64 = lo + (hi - lo + 1) / 2;
            proof {
                assert(f(mid) == self@.agrees(other@, mid));
            }
            if self.agree(other, mid) {
                lo = mid;
            } else {
                hi = mid - 1;
            }
        }
        lo
    }

    /// Reorganize `self` to follow `other`: keep the shared prefix and adopt `other`'s
    /// nodes. Returns the length of the prefix kept.
    pub fn reorg(&mut self, other: &MerkleTree) -> (ancestors: u64)
        requires
            old(self)@.keyed(),
            other@.keyed(),
            old(self)@.length < MAX_BLOCKS || other@.length < MAX_BLOCKS,
            !old(self)@.nodes.contains_key(u64::MAX),
        ensures
            ancestors == old(self)@.ancestor(other@),
            final(self)@ == (Tree {
                nodes: old(self)@.truncated(ancestors).nodes.union_prefer_right(other@.nodes),
                length: other@.length,
            }),
            final(self)@.keyed(),
    {
        let ancestors: u64 = self.lowest_common_ancestor(other);
        self.truncate(ancestors);
        let keys: Vec<u64> = sorted_keys(&other.nodes);
        let ghost kept = self.nodes@;
        let mut k: usize = 0;
        while k < keys.len()
            invariant
                k <= keys.len(),
                keys@.to_set() == other@.nodes.dom(),
                other@.keyed(),
                kept == old(self)@.truncated(ancestors).nodes,
                forall|i: u64| #[trigger]
                    self.nodes@.contains_key(i) ==> self.nodes@[i].index == i,
                forall|i: u64|
                    kept.contains_key(i) ==> #[trigger] self.nodes@.contains_key(i),
                forall|j: int|
                    0 <= j < k ==> self.nodes@.contains_key(#[trigger] keys@[j])
                        && self.nodes@[keys@[j]] == other@.nodes[keys@[j]],
                forall|i: u64| #[trigger]
                    self.nodes@.contains_key(i) ==> (self.nodes@[i] == other@.nodes[i]
                        && other@.nodes.contains_key(i)) || (kept.contains_key(i)
                        && self.nodes@[i] == kept[i]),
            decreases keys.len() - k,
        {
            proof {
                assert(keys@.contains(keys@[k as int]));
                assert(keys@.to_set().contains(keys@[k as int]));
            }
            match other.nodes.get(&keys[k]) {
                Some(n) => {
                    self.nodes.insert(keys[k], *n);
                },
                None => {},
            }
            k = k + 1;
        }
        self.length = other.length;
        proof {
            let want = kept.union_prefer_right(other@.nodes);
            assert forall|i: u64| other@.nodes.contains_key(i) implies self.nodes@.contains_key(i)
                && #[trigger] self.nodes@[i] == other@.nodes[i] by {
                assert(keys@.to_set().contains(i));
                let j = choose|j: int| 0 <= j < keys@.len() && keys@[j] == i;
                assert(self.nodes@.contains_key(keys@[j]));
            }
            assert(self.nodes@ =~= want);
        }
        ancestors
    }

    /// The signable hash over all roots.
    pub fn root_hash(&self) -> (h: crate::merkle::Hash)
        requires
            self@.length < MAX_BLOCKS,
            self@.has_roots(self@.length as nat),
        ensures
            h == self@.root_hash(),
    {
        tree_hash(self.roots().as_slice())
    }

    /// [`Tree::path`], collected.
    fn walk(&self, index: u64) -> (r: Option<Vec<Node>>)
        requires
            self@.length < MAX_BLOCKS,
            flat::complete(index as nat, self@.length as nat),
        ensures
            match r {
                Some(v) => self@.path(index as nat) == Some(v@),
                None => self@.path(index as nat) is None,
            },
    {
        let ghost n = self.length as nat;
        let mut siblings: Vec<Node> = Vec::new();
        let mut cur: u64 = index;
        let ghost goal = self@.path(index as nat);
        proof {
            if goal is Some {
                assert(goal->0 =~= siblings@ + goal->0);
            }
        }
        loop
            invariant
                n == self@.length,
                n < MAX_BLOCKS,
                flat::complete(cur as nat, n),
                goal == self@.path(index as nat),
                goal == match self@.path(cur as nat) {
                    Some(rest) => Some(siblings@ + rest),
                    None => None,
                },
            decreases n - pow2(flat::depth_of(cur as nat)),
        {
            proof {
                flat::lemma_word(cur as nat);
                lemma_below_summit(cur, self.length);
                flat::lemma_family(cur as nat);
                flat::lemma_range(cur as nat);
            }
            let up: u64 = flat::parent(cur);
            if flat::block_range(up).1 > self.length {
                assert(siblings@ =~= siblings@ + Seq::<Node>::empty());
                return Some(siblings);
            }
            let ghost rest = self@.path(up as nat);
            match self.nodes.get(&flat::sibling(cur)) {
                None => return None,
                Some(s) => {
                    let ghost before = siblings@;
                    siblings.push(*s);
                    proof {
                        if rest is Some {
                            assert(before + (seq![*s] + rest->0) =~= siblings@ + rest->0);
                        }
                        flat::lemma_range(up as nat);
                    }
                },
            }
            cur = up;
        }
    }

    /// An inclusion proof for `block`, or `None` if out of range.
    pub fn inclusion_proof(&self, block: u64) -> (r: Option<Proof>)
        requires
            self@.length < MAX_BLOCKS,
            block < self@.length ==> self@.has_roots(self@.length as nat) && self@.path(
                2 * block as nat,
            ) is Some && self@.nodes.contains_key((2 * block) as u64),
        ensures
            match r {
                Some(p) => block < self@.length && p.block == block && p.leaf_size
                    == self@.nodes[(2 * block) as u64].size && Some(p.siblings@) == self@.path(
                    2 * block as nat,
                ) && p.roots@ == self@.roots_at(self@.length as nat),
                None => block >= self@.length,
            },
    {
        if block >= self.length {
            return None;
        }
        proof {
            flat::lemma_leaf(block as nat);
        }
        let roots: Vec<Node> = self.roots();
        match (self.walk(block * 2), self.nodes.get(&(block * 2))) {
            (Some(siblings), Some(leaf)) => Some(
                Proof { block, leaf_size: leaf.size, siblings, roots },
            ),
            _ => None,
        }
    }

    /// A proof that the contiguous block range `[start, end)` belongs to this tree, or
    /// `None` if the range is empty or runs past the end. Carries only the off-range
    /// boundary siblings needed to roll the range's leaves up to the roots.
    pub fn range_proof(&self, start: u64, end: u64) -> (r: Option<RangeProof>)
        requires
            self@.length < MAX_BLOCKS,
            start < end <= self@.length ==> {
                &&& self@.has_roots(self@.length as nat)
                &&& self@.has_all(boundary(0, start as nat, end as nat, self@.length as nat))
                &&& forall|b: u64|
                    start <= b < end ==> self@.nodes.contains_key(
                        #[trigger] ((2 * b) as u64),
                    )
            },
        ensures
            match r {
                Some(p) => {
                    &&& start < end <= self@.length
                    &&& p.start == start
                    &&& p.end == end
                    &&& p.leaf_sizes@ == Seq::new(
                        (end - start) as nat,
                        |k: int| self@.nodes[(2 * (start + k)) as u64].size,
                    )
                    &&& p.nodes@ == self@.pick(
                        boundary(0, start as nat, end as nat, self@.length as nat),
                    )
                    &&& p.roots@ == self@.roots_at(self@.length as nat)
                },
                None => !(start < end <= self@.length),
            },
    {
        if start >= end || end > self.length {
            return None;
        }
        let roots: Vec<Node> = self.roots();
        let ghost sizes = Seq::new(
            (end - start) as nat,
            |k: int| self@.nodes[(2 * (start + k)) as u64].size,
        );
        let mut leaf_sizes: Vec<u64> = Vec::new();
        let mut b: u64 = start;
        while b < end
            invariant
                start <= b <= end <= self@.length < MAX_BLOCKS,
                sizes == Seq::new(
                    (end - start) as nat,
                    |k: int| self@.nodes[(2 * (start + k)) as u64].size,
                ),
                leaf_sizes@ == sizes.take(b - start),
                forall|b: u64|
                    start <= b < end ==> self@.nodes.contains_key(#[trigger] ((2 * b) as u64)),
            decreases end - b,
        {
            proof {
                assert(self@.nodes.contains_key((2 * b) as u64));
            }
            match self.nodes.get(&(2 * b)) {
                Some(n) => leaf_sizes.push(n.size),
                None => {},
            }
            b = b + 1;
            assert(leaf_sizes@ =~= sizes.take(b - start));
        }
        assert(leaf_sizes@ =~= sizes);
        let ghost goal = boundary(0, start as nat, end as nat, self.length as nat);
        let mut nodes: Vec<Node> = Vec::new();
        let mut depth: u32 = 0;
        let mut lo: u64 = start;
        let mut hi: u64 = end;
        let mut count: u64 = self.length;
        let ghost mut at: int = 0;
        proof {
            assert(goal.skip(0) =~= goal);
            assert(nodes@ =~= self@.pick(goal.take(0)));
            vstd::arithmetic::power2::lemma2_to64();
        }
        loop
            invariant
                self@.length < MAX_BLOCKS,
                self@.has_all(goal),
                0 <= at <= goal.len(),
                goal.skip(at) == boundary(depth as nat, lo as nat, hi as nat, count as nat),
                nodes@ == self@.pick(goal.take(at)),
                count * pow2(depth as nat) <= self@.length,
                lo < hi <= count || lo >= hi,
                hi <= count,
                depth <= 64,
            ensures
                nodes@ == self@.pick(goal),
            decreases count,
        {
            let even: u64 = count - count % 2;
            let top: u64 = if hi <= even {
                hi
            } else {
                even
            };
            if lo >= top {
                proof {
                    assert(goal.skip(at).len() == 0);
                    assert(goal.take(at) =~= goal);
                }
                break;
            }
            proof {
                assert(count >= 2);
                lemma_level(depth as nat, count as nat, self.length as nat);
            }
            let ghost here = goal.skip(at);
            let ghost at0 = at;
            let ghost rest = boundary(
                (depth + 1) as nat,
                (lo / 2) as nat,
                ((top + 1) / 2) as nat,
                (count / 2) as nat,
            );
            let ghost lower = if lo % 2 == 1 {
                seq![flat::index_of(depth as nat, (lo - 1) as nat)]
            } else {
                Seq::<nat>::empty()
            };
            let ghost upper = if top % 2 == 1 {
                seq![flat::index_of(depth as nat, top as nat)]
            } else {
                Seq::<nat>::empty()
            };
            proof {
                assert(here == lower + upper + rest);
                assert(here.len() == goal.len() - at);
            }
            if lo % 2 == 1 {
                proof {
                    assert(here[0] == flat::index_of(depth as nat, (lo - 1) as nat));
                    assert(goal[at] == here[0]);
                    lemma_level_index(depth as nat, (lo - 1) as nat, count as nat, self.length as nat);
                }
                match self.nodes.get(&flat::index(depth, lo - 1)) {
                    Some(n) => nodes.push(*n),
                    None => {},
                }
                proof {
                    assert(goal.take(at + 1) =~= goal.take(at).push(goal[at]));
                    assert(nodes@ =~= self@.pick(goal.take(at + 1)));
                    at = at + 1;
                }
            }
            if top % 2 == 1 {
                proof {
                    assert(goal[at] == flat::index_of(depth as nat, top as nat)) by {
                        if lo % 2 == 1 {
                            assert(here[1] == flat::index_of(depth as nat, top as nat));
                        } else {
                            assert(here[0] == flat::index_of(depth as nat, top as nat));
                        }
                    }
                    lemma_level_index(depth as nat, top as nat, count as nat, self.length as nat);
                }
                match self.nodes.get(&flat::index(depth, top)) {
                    Some(n) => nodes.push(*n),
                    None => {},
                }
                proof {
                    assert(goal.take(at + 1) =~= goal.take(at).push(goal[at]));
                    assert(nodes@ =~= self@.pick(goal.take(at + 1)));
                    at = at + 1;
                }
            }
            proof {
                assert(goal.skip(at) =~= here.skip(at - at0));
                assert(here.skip(at - at0) =~= rest);
            }
            lo = lo / 2;
            hi = (top + 1) / 2;
            count = count / 2;
            depth = depth + 1;
        }
        Some(RangeProof { start, end, leaf_sizes, nodes, roots })
    }

    /// A proof that the tree at length `new` is an append-only extension of the tree at
    /// length `old`. Returns `None` unless `1 <= old < new <= len`. Supplies only the
    /// fully-new subtree nodes.
    pub fn upgrade_proof(&self, old: u64, new: u64) -> (r: Option<UpgradeProof>)
        requires
            0 < old < new <= self@.length ==> new < MAX_BLOCKS && self@.has_all(
                fresh_under(flat::roots_of(new as nat), old as nat),
            ),
        ensures
            match r {
                Some(p) => 0 < old < new <= self@.length && p.old_len == old && p.new_len == new
                    && p.nodes@ == self@.pick(
                    fresh_under(flat::roots_of(new as nat), old as nat),
                ),
                None => !(0 < old < new <= self@.length),
            },
    {
        if old == 0 || old >= new || new > self.length {
            return None;
        }
        let roots: Vec<u64> = flat::full_roots(new * 2);
        let ghost all = flat::roots_of(new as nat);
        let ghost goal = fresh_under(all, old as nat);
        let mut nodes: Vec<Node> = Vec::new();
        let mut k: usize = 0;
        proof {
            assert(all.take(0) =~= Seq::<nat>::empty());
            assert(nodes@ =~= self@.pick(fresh_under(all.take(0), old as nat)));
        }
        while k < roots.len()
            invariant
                k <= roots.len(),
                roots@.map_values(|i: u64| i as nat) == all,
                forall|j: int| 0 <= j < roots@.len() ==> #[trigger] roots@[j] < u64::MAX,
                goal == fresh_under(all, old as nat),
                self@.has_all(goal),
                nodes@ == self@.pick(fresh_under(all.take(k as int), old as nat)),
            decreases roots.len() - k,
        {
            let ghost before = fresh_under(all.take(k as int), old as nat);
            let ghost below = fresh_below(
                flat::depth_of(all[k as int]),
                flat::offset_of(all[k as int]),
                old as nat,
            );
            proof {
                assert(roots@.map_values(|i: u64| i as nat)[k as int] == roots@[k as int] as nat);
                assert(all.take(k + 1).drop_last() =~= all.take(k as int));
                lemma_fresh_prefix(all, old as nat, k + 1);
                let longer = fresh_under(all.take(k + 1), old as nat);
                assert(longer == before + below);
                assert forall|j: int| 0 <= j < below.len() implies self@.nodes.contains_key(
                    #[trigger] below[j] as u64,
                ) by {
                    assert(longer[before.len() + j] == below[j]);
                    assert(goal[before.len() + j] == below[j]);
                }
            }
            self.collect_upgrade(roots[k], old, &mut nodes);
            k = k + 1;
            assert(nodes@ =~= self@.pick(fresh_under(all.take(k as int), old as nat)));
        }
        assert(all.take(k as int) =~= all);
        Some(UpgradeProof { old_len: old, new_len: new, nodes })
    }

    /// Add the fully-new subtrees below node `index`.
    fn collect_upgrade(&self, index: u64, from: u64, out: &mut Vec<Node>)
        requires
            index < u64::MAX,
            self@.has_all(
                fresh_below(
                    flat::depth_of(index as nat),
                    flat::offset_of(index as nat),
                    from as nat,
                ),
            ),
        ensures
            final(out)@ == old(out)@ + self@.pick(
                fresh_below(
                    flat::depth_of(index as nat),
                    flat::offset_of(index as nat),
                    from as nat,
                ),
            ),
        decreases flat::depth_of(index as nat),
    {
        let ghost d = flat::depth_of(index as nat);
        let ghost o = flat::offset_of(index as nat);
        let ghost goal = fresh_below(d, o, from as nat);
        proof {
            flat::lemma_coords(index as nat);
            flat::lemma_range(index as nat);
        }
        let (first, end): (u64, u64) = flat::block_range(index);
        if end <= from {
            assert(out@ =~= old(out)@ + self@.pick(goal));
            return ;
        }
        if first >= from {
            proof {
                assert(goal[0] == index);
            }
            match self.nodes.get(&index) {
                Some(n) => out.push(*n),
                None => {},
            }
            assert(out@ =~= old(out)@ + self@.pick(goal));
            return ;
        }
        match flat::children(index) {
            None => {
                proof {
                    flat::lemma_leaf((index / 2) as nat);
                }
            },
            Some((l, r)) => {
                proof {
                    flat::lemma_children(index as nat);
                    flat::lemma_word(index as nat);
                    flat::lemma_word(r as nat);
                    flat::lemma_range(r as nat);
                    let a = fresh_below((d - 1) as nat, 2 * o, from as nat);
                    let b = fresh_below((d - 1) as nat, 2 * o + 1, from as nat);
                    assert(goal == a + b);
                    assert forall|j: int| 0 <= j < a.len() implies self@.nodes.contains_key(
                        #[trigger] a[j] as u64,
                    ) by {
                        assert(goal[j] == a[j]);
                    }
                    assert forall|j: int| 0 <= j < b.len() implies self@.nodes.contains_key(
                        #[trigger] b[j] as u64,
                    ) by {
                        assert(goal[a.len() + j] == b[j]);
                    }
                    assert(self@.pick(goal) =~= self@.pick(a) + self@.pick(b));
                }
                self.collect_upgrade(l, from, out);
                self.collect_upgrade(r, from, out);
                assert(out@ =~= old(out)@ + self@.pick(goal));
            },
        }
    }

    /// Map a byte offset to the block it falls in: `(block, offset within it)`. An
    /// offset exactly on a block boundary belongs to the block it starts. For `bytes`
    /// past the end, `(len(), bytes - total)`. Descends by the committed subtree sizes.
    pub fn seek(&self, bytes: u64) -> (r: (u64, u64))
        requires
            self@.length < MAX_BLOCKS,
            self@.has_roots(self@.length as nat),
            self@.seek_from(0, bytes) is Some,
        ensures
            Some(r) == self@.seek_from(0, bytes),
    {
        let ghost idx = flat::roots_of(self.length as nat);
        let roots: Vec<u64> = flat::full_roots(self.length * 2);
        let mut remaining: u64 = bytes;
        let mut k: usize = 0;
        while k < roots.len()
            invariant
                k <= roots.len(),
                roots@.map_values(|i: u64| i as nat) == idx,
                forall|j: int| 0 <= j < roots@.len() ==> #[trigger] roots@[j] < u64::MAX,
                idx == flat::roots_of(self@.length as nat),
                self@.has_roots(self@.length as nat),
                self@.seek_from(0, bytes) is Some,
                self@.seek_from(0, bytes) == self@.seek_from(k as int, remaining),
            decreases roots.len() - k,
        {
            proof {
                assert(roots@.map_values(|i: u64| i as nat)[k as int] == roots@[k as int] as nat);
                assert(self@.nodes.contains_key(flat::roots_of(self@.length as nat)[k as int] as u64));
            }
            match self.nodes.get(&roots[k]) {
                None => {},
                Some(root) => {
                    if root.size > remaining {
                        return self.seek_descend(roots[k], remaining);
                    }
                    remaining = remaining - root.size;
                },
            }
            k = k + 1;
        }
        (self.length, remaining)
    }

    /// Descend the subtree at `index` to the leaf containing byte `bytes`.
    fn seek_descend(&self, index: u64, bytes: u64) -> (r: (u64, u64))
        requires
            index < u64::MAX,
            seek_in(
                self@.nodes,
                flat::depth_of(index as nat),
                flat::offset_of(index as nat),
                bytes,
            ) is Some,
        ensures
            Some(r) == seek_in(
                self@.nodes,
                flat::depth_of(index as nat),
                flat::offset_of(index as nat),
                bytes,
            ),
    {
        let mut cur: u64 = index;
        let mut left: u64 = bytes;
        let ghost goal = seek_in(
            self@.nodes,
            flat::depth_of(index as nat),
            flat::offset_of(index as nat),
            bytes,
        );
        loop
            invariant
                cur < u64::MAX,
                goal is Some,
                goal == seek_in(
                    self@.nodes,
                    flat::depth_of(index as nat),
                    flat::offset_of(index as nat),
                    bytes,
                ),
                goal == seek_in(
                    self@.nodes,
                    flat::depth_of(cur as nat),
                    flat::offset_of(cur as nat),
                    left,
                ),
            decreases flat::depth_of(cur as nat),
        {
            match flat::children(cur) {
                None => {
                    proof {
                        flat::lemma_leaf((cur / 2) as nat);
                    }
                    return (cur / 2, left);
                },
                Some((l, r)) => {
                    proof {
                        flat::lemma_children(cur as nat);
                        flat::lemma_word(cur as nat);
                        flat::lemma_word(r as nat);
                        flat::lemma_range(r as nat);
                    }
                    match self.nodes.get(&l) {
                        None => {
                            return (0, 0);
                        },
                        Some(n) => {
                            if n.size > left {
                                cur = l;
                            } else {
                                left = left - n.size;
                                cur = r;
                            }
                        },
                    }
                },
            }
        }
    }

    /// A proof that byte offset `bytes` falls in a particular block. `None` if `bytes`
    /// is at or past the end of the log.
    pub fn seek_proof(&self, bytes: u64) -> (r: Option<SeekProof>)
        requires
            self@.length < MAX_BLOCKS,
            self@.has_roots(self@.length as nat),
            self@.seek_from(0, bytes) is Some,
            ({
                let block = (self@.seek_from(0, bytes)->0).0;
                block < self@.length ==> self@.path(2 * block as nat) is Some
                    && self@.nodes.contains_key((2 * block) as u64)
            }),
        ensures
            ({
                let block = (self@.seek_from(0, bytes)->0).0;
                match r {
                    Some(p) => block < self@.length && p.bytes == bytes && p.leaf
                        == self@.nodes[(2 * block) as u64] && Some(p.siblings@) == self@.path(
                        2 * block as nat,
                    ) && p.roots@ == self@.roots_at(self@.length as nat),
                    None => block >= self@.length,
                }
            }),
    {
        let (block, _offset): (u64, u64) = self.seek(bytes);
        if block >= self.length {
            return None;
        }
        proof {
            flat::lemma_leaf(block as nat);
        }
        let roots: Vec<Node> = self.roots();
        match (self.walk(block * 2), self.nodes.get(&(block * 2))) {
            (Some(siblings), Some(leaf)) => Some(SeekProof { bytes, leaf: *leaf, siblings, roots }),
            _ => None,
        }
    }

    /// Whether the node at flat-tree `index` is currently stored.
    pub fn has_node(&self, index: u64) -> (b: bool)
        ensures
            b == self@.nodes.contains_key(index),
    {
        self.nodes.contains_key(&index)
    }

    /// Remove a stored tree node. Returns whether a node was present at `index`. After
    /// removal the tree may be in repair mode; a missing node is restorable from a
    /// remote [`NodeProof`].
    pub fn remove_node(&mut self, index: u64) -> (b: bool)
        requires
            old(self)@.keyed(),
        ensures
            b == old(self)@.nodes.contains_key(index),
            final(self)@ == (Tree {
                nodes: old(self)@.nodes.remove(index),
                length: old(self)@.length,
            }),
            final(self)@.keyed(),
    {
        self.nodes.remove(&index).is_some()
    }

    /// The flat-tree indices of every node a fully-built tree of this length would
    /// store but which is currently missing, in ascending order.
    pub fn missing_nodes(&self) -> (out: Vec<u64>)
        requires
            self@.length < MAX_BLOCKS,
        ensures
            ascending(out@),
            forall|i: u64|
                out@.contains(i) <==> flat::complete(i as nat, self@.length as nat)
                    && !self@.nodes.contains_key(i),
    {
        let mut out: Vec<u64> = Vec::new();
        let mut i: u64 = 0;
        let end: u64 = 2 * self.length;
        while i < end
            invariant
                i <= end,
                end == 2 * self@.length,
                self@.length < MAX_BLOCKS,
                ascending(out@),
                forall|k: int| 0 <= k < out@.len() ==> #[trigger] out@[k] < i,
                forall|j: u64|
                    out@.contains(j) <==> j < i && flat::complete(j as nat, self@.length as nat)
                        && !self@.nodes.contains_key(j),
            decreases end - i,
        {
            let ghost before = out@;
            proof {
                assert(!before.contains(i));
            }
            if flat::block_range(i).1 <= self.length && !self.nodes.contains_key(&i) {
                out.push(i);
                proof {
                    assert forall|j: u64| out@.contains(j) <==> before.contains(j) || j == i by {
                        if before.contains(j) {
                            let k = choose|k: int| 0 <= k < before.len() && before[k] == j;
                            assert(out@[k] == j);
                        }
                        if j == i {
                            assert(out@[before.len() as int] == i);
                        }
                    }
                }
            }
            proof {
                assert forall|j: u64| out@.contains(j) <==> j < i + 1 && flat::complete(
                    j as nat,
                    self@.length as nat,
                ) && !self@.nodes.contains_key(j) by {
                    assert(before.contains(j) <==> j < i && flat::complete(
                        j as nat,
                        self@.length as nat,
                    ) && !self@.nodes.contains_key(j));
                }
            }
            i = i + 1;
        }
        proof {
            assert forall|j: u64| flat::complete(j as nat, self@.length as nat) implies j
                < end by {
                flat::lemma_range(j as nat);
            }
        }
        out
    }

    /// Whether every tree node implied by the current length is present. A tree that is
    /// not intact is in repair mode: it refuses to be extended by
    /// [`try_append`](Self::try_append).
    pub fn is_intact(&self) -> (b: bool)
        requires
            self@.length < MAX_BLOCKS,
        ensures
            b == self@.intact(),
    {
        let missing: Vec<u64> = self.missing_nodes();
        proof {
            if missing@.len() > 0 {
                assert(missing@.contains(missing@[0]));
            }
            if !self@.intact() {
                let i = choose|i: u64|
                    flat::complete(i as nat, self@.length as nat)
                        && !#[trigger] self@.nodes.contains_key(i);
                assert(missing@.contains(i));
            }
        }
        missing.len() == 0
    }

    /// The root nodes, or `None` if any root is currently missing.
    pub fn try_roots(&self) -> (r: Option<Vec<Node>>)
        requires
            self@.length < MAX_BLOCKS,
        ensures
            match r {
                Some(v) => self@.has_roots(self@.length as nat) && v@ == self@.roots_at(
                    self@.length as nat,
                ),
                None => !self@.has_roots(self@.length as nat),
            },
    {
        self.prefix_roots(self.length)
    }

    /// The signable root hash, or `None` if a root is missing.
    pub fn try_root_hash(&self) -> (r: Option<crate::merkle::Hash>)
        requires
            self@.length < MAX_BLOCKS,
        ensures
            r == self@.prefix_hash(self@.length),
    {
        self.prefix_root_hash(self.length)
    }

    /// Append a block, refusing while the tree is in repair mode: extending a corrupt
    /// tree could bake an inconsistent root into the log.
    pub fn try_append(&mut self, data: &[u8]) -> (r: Result<u64, InRepairMode>)
        requires
            old(self)@.keyed(),
            old(self)@.length < MAX_BLOCKS,
            old(self)@.intact() ==> old(self)@.can_append(data@),
        ensures
            match r {
                Ok(block) => old(self)@.intact() && block == old(self)@.length && final(self)@
                    == old(self)@.appended(data@),
                Err(_) => !old(self)@.intact() && final(self)@ == old(self)@,
            },
            final(self)@.keyed(),
    {
        if !self.is_intact() {
            return Err(InRepairMode);
        }
        Ok(self.append(data))
    }

    /// An authenticated proof of the tree node at flat-tree `index` against the current
    /// root. `None` if `index` is not a complete subtree within the tree, or if the
    /// node, any sibling on its path, or any root is missing locally.
    pub fn node_proof(&self, index: u64) -> (r: Option<NodeProof>)
        requires
            self@.length < MAX_BLOCKS,
            index < u64::MAX,
        ensures
            match r {
                Some(p) => {
                    &&& flat::complete(index as nat, self@.length as nat)
                    &&& self@.nodes.contains_key(index)
                    &&& self@.has_roots(self@.length as nat)
                    &&& p.node == self@.nodes[index]
                    &&& Some(p.siblings@) == self@.path(index as nat)
                    &&& p.roots@ == self@.roots_at(self@.length as nat)
                },
                None => {
                    ||| !flat::complete(index as nat, self@.length as nat)
                    ||| !self@.nodes.contains_key(index)
                    ||| !self@.has_roots(self@.length as nat)
                    ||| self@.path(index as nat) is None
                },
            },
    {
        let (_, end): (u64, u64) = flat::block_range(index);
        if end > self.length {
            return None;
        }
        let node: Node = match self.nodes.get(&index) {
            None => return None,
            Some(n) => *n,
        };
        let roots: Vec<Node> = match self.try_roots() {
            None => return None,
            Some(v) => v,
        };
        match self.walk(index) {
            None => None,
            Some(siblings) => Some(NodeProof { node, siblings, roots }),
        }
    }

    /// Recover a missing tree node from a remote [`NodeProof`], verified against the
    /// trusted `expected_root`. On success stores the authenticated node; otherwise
    /// leaves the tree unchanged.
    pub fn recover_node(&mut self, proof: &NodeProof, expected_root: &crate::merkle::Hash) -> (b:
        bool)
        requires
            old(self)@.keyed(),
        ensures
            b == proof.accepts(*expected_root),
            final(self)@ == if b {
                Tree {
                    nodes: old(self)@.nodes.insert(proof.node.index, proof.node),
                    length: old(self)@.length,
                }
            } else {
                old(self)@
            },
            final(self)@.keyed(),
    {
        match proof.verify(expected_root) {
            Some(node) => {
                self.nodes.insert(node.index, node);
                true
            },
            None => false,
        }
    }
}

proof fn lemma_weight_mono(roots: Seq<Node>, k: int)
    requires
        0 <= k <= roots.len(),
    ensures
        Tree::weight(roots.take(k)) <= Tree::weight(roots),
    decreases roots.len(),
{
    if k < roots.len() {
        let t = roots.drop_last();
        assert(t.take(k) =~= roots.take(k));
        lemma_weight_mono(t, k);
    } else {
        assert(roots.take(k) =~= roots);
    }
}

/// A node of a log that fits in 64 bits is below the summit.
pub proof fn lemma_below_summit(i: u64, n: u64)
    requires
        n < MAX_BLOCKS,
        flat::complete(i as nat, n as nat),
    ensures
        i < u64::MAX,
        i != SUMMIT,
{
    flat::lemma_word(i as nat);
    flat::lemma_summit();
}

/// Half the nodes of a level stand one level up.
proof fn lemma_level(depth: nat, count: nat, n: nat)
    requires
        count * pow2(depth) <= n,
        n < MAX_BLOCKS,
        count >= 2,
    ensures
        (count / 2) * pow2(depth + 1) <= n,
        depth < 63,
{
    vstd::arithmetic::power2::lemma_pow2_unfold(depth + 1);
    vstd::arithmetic::power2::lemma_pow2_pos(depth);
    let p = pow2(depth);
    let h = count / 2;
    assert(h * (2 * p) <= count * p) by (nonlinear_arith)
        requires
            2 * h <= count,
            p > 0,
    ;
    if depth >= 63 {
        vstd::arithmetic::power2::lemma2_to64();
        vstd::arithmetic::power2::lemma_pow2_unfold(64);
        if depth > 63 {
            vstd::arithmetic::power2::lemma_pow2_strictly_increases(63, depth);
        }
        assert(count * p >= 0x8000_0000_0000_0000) by (nonlinear_arith)
            requires
                count >= 2,
                p >= 0x8000_0000_0000_0000,
        ;
    }
}

/// The nodes of a level have 64-bit indices.
proof fn lemma_level_index(depth: nat, offset: nat, count: nat, n: nat)
    requires
        count * pow2(depth) <= n,
        n < MAX_BLOCKS,
        offset < count,
    ensures
        flat::index_of(depth, offset) < u64::MAX,
{
    flat::lemma_index(depth, offset);
    let i = flat::index_of(depth, offset);
    vstd::arithmetic::power2::lemma_pow2_pos(depth);
    assert((offset + 1) * pow2(depth) <= count * pow2(depth)) by (nonlinear_arith)
        requires
            offset + 1 <= count,
            pow2(depth) > 0,
    ;
    flat::lemma_word(i);
}

proof fn lemma_fresh_prefix(roots: Seq<nat>, old: nat, k: int)
    requires
        0 <= k <= roots.len(),
    ensures
        fresh_under(roots.take(k), old).len() <= fresh_under(roots, old).len(),
        forall|j: int|
            0 <= j < fresh_under(roots.take(k), old).len() ==> #[trigger] fresh_under(
                roots,
                old,
            )[j] == fresh_under(roots.take(k), old)[j],
    decreases roots.len(),
{
    if k < roots.len() {
        let t = roots.drop_last();
        assert(t.take(k) =~= roots.take(k));
        lemma_fresh_prefix(t, old, k);
    } else {
        assert(roots.take(k) =~= roots);
    }
}

} // verus!
