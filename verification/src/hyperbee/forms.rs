//! The bytes of nodes, and what every tree keeps.
use vstd::prelude::*;
use super::node::{bulk, entries_bytes, children_bytes, node_bytes, NodeView};
use super::shape::{
    grown, height, kids, listing, may_stand, older_kids, sits_but, spread, weave, Forest,
};
use super::{all_blocks, room, Hyperbee};
use crate::bytemap::{sorted, Pairs};
use crate::codec::varint;
use crate::merkle::laws::bytes_before;
use crate::storage::Store;

verus! {

/// A node is the number of its entries, each one's key and value after their lengths, the
/// number of its children, and their blocks.
pub proof fn law_node_bytes(
    n: NodeView,
    k: Seq<u8>,
    v: Seq<u8>,
    s: Pairs,
    c: u64,
    rest: Seq<u64>,
)
    ensures
        node_bytes(n) == varint::encoding(n.entries.len()) + entries_bytes(n.entries)
            + varint::encoding(n.children.len()) + children_bytes(n.children),
        entries_bytes(Seq::empty()) == Seq::<u8>::empty(),
        entries_bytes(seq![(k, v)] + s) == varint::encoding(k.len()) + k + varint::encoding(v.len())
            + v + entries_bytes(s),
        children_bytes(Seq::empty()) == Seq::<u8>::empty(),
        children_bytes(seq![c] + rest) == varint::encoding(c as nat) + children_bytes(rest),
{
    assert((seq![(k, v)] + s).skip(1) =~= s);
    assert((seq![c] + rest).skip(1) =~= rest);
    assert(node_bytes(n) =~= varint::encoding(n.entries.len()) + entries_bytes(n.entries)
        + varint::encoding(n.children.len()) + children_bytes(n.children));
    assert(entries_bytes(seq![(k, v)] + s) =~= varint::encoding(k.len()) + k + varint::encoding(
        v.len(),
    ) + v + entries_bytes(s));
}

/// Every node of a tree has at most eight entries, and is a leaf or has one child more than
/// it has entries; every child is an older block, has at least four entries, and is as high
/// as the others; and everything below the node is in key order.
pub proof fn law_balanced<S: Store>(b: Hyperbee<S>, s: u64, j: int)
    requires
        b.sound(),
        s < b.log().tree.length,
    ensures
        ({
            let n = b.nodes()[s];
            &&& n.entries.len() <= 8
            &&& n.children.len() > 0 ==> n.children.len() == n.entries.len() + 1
            &&& 0 <= j < n.children.len() ==> {
                &&& n.children[j] < s
                &&& b.nodes()[n.children[j]].entries.len() >= 4
                &&& height(b.nodes(), n.children[j]) == height(b.nodes(), n.children[0])
            }
            &&& sorted(spread(b.nodes(), n))
        }),
{
    reveal(grown);
    reveal(sits_but);
    assert(may_stand(b.nodes(), b.nodes()[s], s));
}

/// What a node holds is, in turn, what its children hold and its entries.
pub proof fn law_in_turn(entries: Pairs, e: (Seq<u8>, Seq<u8>), kids: Seq<Pairs>, k: Pairs)
    requires
        kids.len() == entries.len() + 1,
    ensures
        weave(Seq::empty(), seq![k]) == k,
        weave(entries.push(e), kids.push(k)) == weave(entries, kids) + seq![e] + k,
{
    reveal(weave);
    let n = entries.len() as int;
    super::shape::lemma_before_same(entries, kids, entries.push(e), kids.push(k), n);
    assert(weave(Seq::empty(), seq![k]) =~= k);
    assert(weave(entries.push(e), kids.push(k)) =~= weave(entries, kids) + seq![e] + k);
}

/// What stands below a block is what its node holds, each child's part being what stands
/// below the child, and nothing below a leaf.
pub proof fn law_below(f: Forest, seq: u64, j: int)
    requires
        0 <= j <= f[seq].entries.len(),
    ensures
        listing(f, seq) == weave(f[seq].entries, older_kids(f, f[seq], seq)),
        f[seq].children.len() == 0 ==> older_kids(f, f[seq], seq)[j].len() == 0,
        f[seq].children.len() > 0 && f[seq].children[j] < seq ==> older_kids(f, f[seq], seq)[j]
            == listing(f, f[seq].children[j]),
{
    reveal(listing);
}

/// A version is a number of blocks: none is the empty tree, and any that is not reached yet
/// is the tree as it is.
pub proof fn law_versions<S: Store>(b: Hyperbee<S>, version: u64)
    ensures
        b.pairs_at(0) == Seq::<(Seq<u8>, Seq<u8>)>::empty(),
        version >= b.log().tree.length ==> b.pairs_at(version) == b.pairs(),
        0 < version <= b.log().tree.length ==> b.pairs_at(version) == listing(
            b.nodes(),
            (version - 1) as u64,
        ),
{
}

/// There is room for a write wherever 64 bits number three more blocks a level and count
/// their bytes, and the store keeps such blocks whole.
pub proof fn law_spare<S: Store>(b: Hyperbee<S>, extra: nat)
    ensures
        ({
            let size = b.span(extra);
            let n = 3 * (b.levels() + 2);
            b.spare(extra) <==> {
                &&& b.log().tree.length + n < 0x8000_0000_0000_0000
                &&& bytes_before(all_blocks(b.log()), b.log().tree.length as nat) + n * size
                    <= u64::MAX
                &&& forall|k: nat| k <= size ==> #[trigger] S::fits(k)
            }
        }),
        b.span(extra) >= 140 + bulk(b.pairs()),
        b.span(extra) >= 140 + 8 * (extra + 20),
        b.span(extra) == 140 + bulk(b.pairs()) || b.span(extra) == 140 + 8 * (extra + 20),
{
    reveal(room);
}

} // verus!
