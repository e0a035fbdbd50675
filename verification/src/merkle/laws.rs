//! What holds of a tree that was built from blocks.
use vstd::prelude::*;
use vstd::arithmetic::power2::pow2;
use super::flat;
use super::proofs::{
    climb, left_bytes, lemma_place, lemma_place_is, place, rooted, roots_before, step_up, with_root, NodeProof,
    Proof, SeekProof,
};
use super::tree::{lemma_below_summit, roll_fits, rolled, seek_in, Tree};
use super::{joined, leaf_node, Node, MAX_BLOCKS, SUMMIT};

verus! {

/// The bytes in the first `n` blocks.
pub open spec fn bytes_before(blocks: Seq<Seq<u8>>, n: nat) -> nat
    decreases n,
{
    if n == 0 {
        0
    } else {
        bytes_before(blocks, (n - 1) as nat) + blocks[n - 1].len()
    }
}

/// The node that the blocks below `(depth, offset)` make.
pub open spec fn built(blocks: Seq<Seq<u8>>, depth: nat, offset: nat) -> Node
    decreases depth,
{
    if depth == 0 {
        leaf_node(offset, blocks[offset as int])
    } else {
        joined(
            built(blocks, (depth - 1) as nat, 2 * offset),
            built(blocks, (depth - 1) as nat, 2 * offset + 1),
        )
    }
}

/// The node at flat index `i` that the blocks make.
pub open spec fn built_at(blocks: Seq<Seq<u8>>, i: nat) -> Node {
    built(blocks, flat::depth_of(i), flat::offset_of(i))
}

/// Whether `t` is exactly the tree of `blocks`: every complete subtree has its node,
/// and nothing else is stored.
pub open spec fn holds(t: Tree, blocks: Seq<Seq<u8>>) -> bool {
    &&& t.length == blocks.len()
    &&& blocks.len() < MAX_BLOCKS
    &&& bytes_before(blocks, blocks.len()) <= u64::MAX
    &&& forall|i: u64| #[trigger]
        t.nodes.contains_key(i) == flat::complete(i as nat, blocks.len())
    &&& forall|i: u64| #[trigger]
        t.nodes.contains_key(i) ==> t.nodes[i] == built_at(blocks, i as nat)
}

pub proof fn lemma_bytes_mono(blocks: Seq<Seq<u8>>, a: nat, b: nat)
    requires
        a <= b,
    ensures
        bytes_before(blocks, a) <= bytes_before(blocks, b),
    decreases b,
{
    if a < b {
        lemma_bytes_mono(blocks, a, (b - 1) as nat);
    }
}

pub proof fn lemma_bytes_same(a: Seq<Seq<u8>>, b: Seq<Seq<u8>>, n: nat)
    requires
        n <= a.len(),
        n <= b.len(),
        forall|k: int| 0 <= k < n ==> a[k] == b[k],
    ensures
        bytes_before(a, n) == bytes_before(b, n),
    decreases n,
{
    if n > 0 {
        lemma_bytes_same(a, b, (n - 1) as nat);
    }
}

/// Where a node at `(depth, offset)` and its children lie.
pub proof fn lemma_at(d: nat, o: nat)
    ensures
        ({
            let i = flat::index_of(d, o);
            &&& flat::depth_of(i) == d
            &&& flat::offset_of(i) == o
            &&& flat::first_of(i) < flat::end_of(i)
            &&& d > 0 ==> {
                let l = flat::index_of((d - 1) as nat, 2 * o);
                let r = flat::index_of((d - 1) as nat, 2 * o + 1);
                &&& flat::depth_of(l) == d - 1
                &&& flat::offset_of(l) == 2 * o
                &&& flat::depth_of(r) == d - 1
                &&& flat::offset_of(r) == 2 * o + 1
                &&& l < i < r
                &&& flat::parent_of(l) == i
                &&& flat::parent_of(r) == i
                &&& flat::sibling_of(l) == r
                &&& flat::sibling_of(r) == l
                &&& flat::first_of(l) == flat::first_of(i)
                &&& flat::end_of(l) == flat::first_of(r)
                &&& flat::end_of(r) == flat::end_of(i)
                &&& flat::first_of(l) < flat::end_of(l)
                &&& flat::first_of(r) < flat::end_of(r)
            }
            &&& d == 0 ==> flat::first_of(i) == o && flat::end_of(i) == o + 1
        }),
{
    let i = flat::index_of(d, o);
    flat::lemma_index(d, o);
    flat::lemma_range(i);
    if d > 0 {
        assert(i % 2 == 1);
        flat::lemma_children(i);
        flat::lemma_range(flat::left_of(i));
        flat::lemma_range(flat::right_of(i));
    } else {
        flat::lemma_leaf(o);
    }
}

/// A built node has its own index and the bytes of its blocks.
pub proof fn lemma_built(blocks: Seq<Seq<u8>>, d: nat, o: nat)
    requires
        flat::end_of(flat::index_of(d, o)) <= blocks.len(),
        blocks.len() < MAX_BLOCKS,
        bytes_before(blocks, blocks.len()) <= u64::MAX,
    ensures
        built(blocks, d, o).index == flat::index_of(d, o),
        built(blocks, d, o).size == bytes_before(blocks, flat::end_of(flat::index_of(d, o)))
            - bytes_before(blocks, flat::first_of(flat::index_of(d, o))),
        flat::index_of(d, o) < u64::MAX,
        flat::index_of(d, o) != SUMMIT,
        d > 0 ==> built(blocks, (d - 1) as nat, 2 * o).size + built(
            blocks,
            (d - 1) as nat,
            2 * o + 1,
        ).size <= u64::MAX,
    decreases d,
{
    let i = flat::index_of(d, o);
    lemma_at(d, o);
    flat::lemma_word(i);
    lemma_below_summit(i as u64, blocks.len() as u64);
    if d == 0 {
        lemma_bytes_mono(blocks, (o + 1) as nat, blocks.len());
        flat::lemma_leaf(o);
    } else {
        lemma_built(blocks, (d - 1) as nat, 2 * o);
        lemma_built(blocks, (d - 1) as nat, 2 * o + 1);
        lemma_bytes_mono(blocks, flat::end_of(i), blocks.len());
        lemma_bytes_mono(blocks, flat::first_of(i), flat::end_of(flat::index_of((d - 1) as nat, 2 * o)));
        lemma_bytes_mono(blocks, flat::end_of(flat::index_of((d - 1) as nat, 2 * o)), flat::end_of(i));
    }
}

/// A built node depends on the blocks it covers alone.
pub proof fn lemma_built_same(a: Seq<Seq<u8>>, b: Seq<Seq<u8>>, d: nat, o: nat)
    requires
        flat::end_of(flat::index_of(d, o)) <= a.len(),
        flat::end_of(flat::index_of(d, o)) <= b.len(),
        forall|k: int|
            flat::first_of(flat::index_of(d, o)) <= k < flat::end_of(flat::index_of(d, o)) ==> a[k]
                == b[k],
    ensures
        built(a, d, o) == built(b, d, o),
    decreases d,
{
    lemma_at(d, o);
    if d > 0 {
        lemma_built_same(a, b, (d - 1) as nat, 2 * o);
        lemma_built_same(a, b, (d - 1) as nat, 2 * o + 1);
    }
}

/// A stored node and its sibling join into the stored parent.
pub proof fn lemma_stored_parent(t: Tree, blocks: Seq<Seq<u8>>, i: u64)
    requires
        holds(t, blocks),
        flat::complete(i as nat, blocks.len()),
        !flat::is_root(i as nat, blocks.len()),
    ensures
        ({
            let s = flat::sibling_of(i as nat);
            let p = flat::parent_of(i as nat);
            &&& s < u64::MAX
            &&& p < u64::MAX
            &&& flat::complete(s, blocks.len())
            &&& flat::complete(p, blocks.len())
            &&& t.nodes.contains_key(s as u64)
            &&& t.nodes.contains_key(p as u64)
            &&& step_up(t.nodes[i], t.nodes[s as u64]) == Some(t.nodes[p as u64])
        }),
{
    let n = blocks.len();
    let s = flat::sibling_of(i as nat);
    let p = flat::parent_of(i as nat);
    flat::lemma_climb(i as nat, n);
    flat::lemma_family(i as nat);
    flat::lemma_word(i as nat);
    lemma_below_summit(i, n as u64);
    flat::lemma_word(s);
    flat::lemma_word(p);
    assert(t.nodes.contains_key(i) && t.nodes.contains_key(s as u64) && t.nodes.contains_key(
        p as u64,
    ));
    let d = flat::depth_of(i as nat);
    let o = flat::offset_of(i as nat);
    flat::lemma_coords(i as nat);
    flat::lemma_coords(s);
    flat::lemma_coords(p);
    lemma_built(blocks, d, o);
    lemma_built(blocks, d, flat::twin(o));
    lemma_built(blocks, d + 1, o / 2);
    assert(built(blocks, d + 1, o / 2) == joined(
        built(blocks, d, 2 * (o / 2)),
        built(blocks, d, 2 * (o / 2) + 1),
    ));
}

/// What [`rolled`] does to the tree of the blocks before the last.
proof fn lemma_rolled(m: Map<u64, Node>, cur: Node, blocks: Seq<Seq<u8>>, d: nat)
    requires
        0 < blocks.len() < MAX_BLOCKS,
        bytes_before(blocks, blocks.len()) <= u64::MAX,
        ({
            let n = (blocks.len() - 1) as nat;
            let c = flat::above(n, d);
            &&& cur == built_at(blocks, c)
            &&& cur.index == c
            &&& flat::complete(c, n + 1)
            &&& forall|i: u64| #[trigger]
                m.contains_key(i) == (flat::complete(i as nat, n) || (flat::complete(
                    i as nat,
                    n + 1,
                ) && flat::depth_of(i as nat) < d))
            &&& forall|i: u64| #[trigger]
                m.contains_key(i) ==> m[i] == built_at(blocks, i as nat)
        }),
    ensures
        roll_fits(m, cur),
        forall|i: u64| #[trigger]
            rolled(m, cur).contains_key(i) == flat::complete(i as nat, blocks.len()),
        forall|i: u64| #[trigger]
            rolled(m, cur).contains_key(i) ==> rolled(m, cur)[i] == built_at(blocks, i as nat),
    decreases 64 - d,
{
    let n = (blocks.len() - 1) as nat;
    let c = flat::above(n, d);
    flat::lemma_above(n, d);
    lemma_below_summit(cur.index, (n + 1) as u64);
    flat::lemma_family(c);
    flat::lemma_word(c);
    flat::lemma_range(c);
    let s = flat::sibling_of(c);
    let p = flat::parent_of(c);
    let next = m.insert(cur.index, cur);
    assert forall|i: u64| #[trigger] next.contains_key(i) == (flat::complete(i as nat, n) || (
    flat::complete(i as nat, n + 1) && flat::depth_of(i as nat) < d + 1)) by {
        flat::lemma_range(i as nat);
        if flat::complete(i as nat, n + 1) && !flat::complete(i as nat, n) && flat::depth_of(
            i as nat,
        ) == d {
            flat::lemma_covers(i as nat, n);
        }
    }
    assert forall|i: u64| #[trigger] next.contains_key(i) implies next[i] == built_at(
        blocks,
        i as nat,
    ) by {}
    if s < c {
        assert(flat::complete(s, n));
        assert(m.contains_key(s as u64));
        assert(flat::complete(p, n + 1));
        flat::lemma_word(p);
        let o = flat::offset_of(c);
        flat::lemma_coords(c);
        flat::lemma_coords(s);
        flat::lemma_coords(p);
        lemma_built(blocks, d, o);
        lemma_built(blocks, d, flat::twin(o));
        lemma_built(blocks, d + 1, o / 2);
        assert(joined(cur, m[s as u64]) == built_at(blocks, p));
        lemma_rolled(next, joined(cur, m[s as u64]), blocks, d + 1);
        assert(rolled(m, cur) == rolled(next, joined(cur, m[s as u64])));
    } else {
        assert(rolled(m, cur) == next);
        assert forall|i: u64| flat::complete(i as nat, n + 1) implies #[trigger] next.contains_key(
            i,
        ) by {
            flat::lemma_range(i as nat);
            if !flat::complete(i as nat, n) && flat::depth_of(i as nat) > d {
                flat::lemma_nested(c, i as nat, n);
                flat::lemma_range(p);
                flat::lemma_range(s);
            }
        }
    }
}

/// An empty tree is the tree of no blocks.
pub proof fn law_empty()
    ensures
        holds(Tree { nodes: Map::empty(), length: 0 }, Seq::empty()),
{
    assert forall|i: u64| !flat::complete(i as nat, 0) by {
        flat::lemma_range(i as nat);
    }
}

/// Appending a block to the tree of some blocks gives the tree of those blocks and
/// the new one, as long as the total fits in 64 bits.
pub proof fn law_append(t: Tree, blocks: Seq<Seq<u8>>, data: Seq<u8>)
    requires
        holds(t, blocks),
        blocks.len() + 1 < MAX_BLOCKS,
        bytes_before(blocks, blocks.len()) + data.len() <= u64::MAX,
    ensures
        t.can_append(data),
        holds(t.appended(data), blocks.push(data)),
        t.appended(data).keyed(),
{
    let n = blocks.len();
    let more = blocks.push(data);
    lemma_bytes_same(blocks, more, n);
    let leaf = leaf_node(n, data);
    flat::lemma_leaf(n);
    flat::lemma_above(n, 0);
    assert forall|i: u64| #[trigger] t.nodes.contains_key(i) implies t.nodes[i] == built_at(
        more,
        i as nat,
    ) by {
        flat::lemma_coords(i as nat);
        lemma_built_same(blocks, more, flat::depth_of(i as nat), flat::offset_of(i as nat));
    }
    assert(leaf == built_at(more, flat::above(n, 0)));
    lemma_rolled(t.nodes, leaf, more, 0);
    law_held_is_keyed(t.appended(data), more);
}

/// The tree of some blocks stores every node under its own index, and lacks none.
pub proof fn law_held_is_keyed(t: Tree, blocks: Seq<Seq<u8>>)
    requires
        holds(t, blocks),
    ensures
        t.keyed(),
        t.intact(),
        !t.nodes.contains_key(u64::MAX),
{
    assert forall|i: u64| #[trigger] t.nodes.contains_key(i) implies t.nodes[i].index == i by {
        flat::lemma_coords(i as nat);
        lemma_built(blocks, flat::depth_of(i as nat), flat::offset_of(i as nat));
    }
    flat::lemma_word(u64::MAX as nat);
}

/// Truncating the tree of some blocks gives, node for node, the tree of the blocks
/// that are left.
pub proof fn law_truncate(t: Tree, blocks: Seq<Seq<u8>>, n: u64)
    requires
        holds(t, blocks),
        n <= blocks.len(),
    ensures
        holds(t.truncated(n), blocks.take(n as int)),
{
    let less = blocks.take(n as int);
    lemma_bytes_same(blocks, less, n as nat);
    lemma_bytes_mono(blocks, n as nat, blocks.len());
    let u = t.truncated(n);
    if n == blocks.len() {
        assert(less =~= blocks);
    } else {
        assert forall|i: u64| #[trigger] u.nodes.contains_key(i) implies u.nodes[i] == built_at(
            less,
            i as nat,
        ) by {
            flat::lemma_coords(i as nat);
            lemma_built_same(blocks, less, flat::depth_of(i as nat), flat::offset_of(i as nat));
        }
        assert forall|i: u64| #[trigger] u.nodes.contains_key(i) == flat::complete(
            i as nat,
            less.len(),
        ) by {
            if flat::complete(i as nat, n as nat) {
                assert(t.nodes.contains_key(i));
            }
        }
    }
}

/// Two trees of the same blocks are the same tree.
pub proof fn law_one_tree(t: Tree, u: Tree, blocks: Seq<Seq<u8>>)
    requires
        holds(t, blocks),
        holds(u, blocks),
    ensures
        t == u,
{
    assert forall|i: u64| #[trigger] t.nodes.contains_key(i) == u.nodes.contains_key(i) by {}
    assert(t.nodes =~= u.nodes);
}

/// The tree of some blocks has the roots of each of its prefixes, and each root is
/// its place in the list.
pub proof fn lemma_held_roots(t: Tree, blocks: Seq<Seq<u8>>, n: nat)
    requires
        holds(t, blocks),
        n <= blocks.len(),
    ensures
        t.has_roots(n),
        t.roots_at(n).len() == flat::roots_of(n).len(),
        forall|k: int|
            0 <= k < flat::roots_of(n).len() ==> {
                let i = #[trigger] flat::roots_of(n)[k];
                &&& i < u64::MAX
                &&& t.nodes.contains_key(i as u64)
                &&& t.roots_at(n)[k] == t.nodes[i as u64]
                &&& t.roots_at(n)[k].index == i
            },
{
    flat::lemma_roots(n);
    law_held_is_keyed(t, blocks);
    assert forall|k: int| 0 <= k < flat::roots_of(n).len() implies {
        let i = #[trigger] flat::roots_of(n)[k];
        &&& i < u64::MAX
        &&& t.nodes.contains_key(i as u64)
        &&& t.roots_at(n)[k] == t.nodes[i as u64]
        &&& t.roots_at(n)[k].index == i
    } by {
        let i = flat::roots_of(n)[k];
        assert(flat::is_root(i, n));
        flat::lemma_word(i);
    }
}

/// Putting a root of the tree in its own place changes nothing.
pub proof fn lemma_own_root(t: Tree, blocks: Seq<Seq<u8>>, r: u64)
    requires
        holds(t, blocks),
        flat::is_root(r as nat, blocks.len()),
    ensures
        with_root(t.roots_at(blocks.len()), t.nodes[r]) == Some(t.roots_at(blocks.len())),
        rooted(t.roots_at(blocks.len()), r),
        t.nodes[r].index == r,
{
    let n = blocks.len();
    let roots = t.roots_at(n);
    let idx = flat::roots_of(n);
    lemma_held_roots(t, blocks, n);
    flat::lemma_root_listed(n, r as nat);
    let k = choose|k: int| 0 <= k < idx.len() && idx[k] == r as nat;
    assert(roots[k] == t.nodes[r]);
    assert forall|j: int| 0 <= j < k implies roots[j].index != r by {
        flat::lemma_roots_ordered(n, j, k);
        assert(roots[j].index == idx[j]);
    }
    lemma_place_is(roots, r, k);
    assert(roots.update(k, t.nodes[r]) =~= roots);
}

/// A node that is not a root is not listed as one.
pub proof fn lemma_not_rooted(t: Tree, blocks: Seq<Seq<u8>>, i: u64)
    requires
        holds(t, blocks),
        !flat::is_root(i as nat, blocks.len()),
    ensures
        !rooted(t.roots_at(blocks.len()), i),
{
    let n = blocks.len();
    let roots = t.roots_at(n);
    lemma_held_roots(t, blocks, n);
    super::proofs::lemma_place(roots, i);
    if place(roots, i) is Some {
        let k = place(roots, i)->0;
        assert(flat::roots_of(n)[k] == i as nat);
        flat::lemma_root_listed(n, i as nat);
        assert(flat::roots_of(n).contains(i as nat));
    }
}

/// A climb takes its first step first.
pub proof fn lemma_climb_front(node: Node, s: Node, rest: Seq<Node>)
    ensures
        climb(node, seq![s] + rest) == match step_up(node, s) {
            Some(p) => climb(p, rest),
            None => None,
        },
        step_up(node, s) matches Some(p) ==> left_bytes(node, seq![s] + rest) == left_bytes(p, rest)
            + if s.index < node.index {
            s.size as nat
        } else {
            0
        },
    decreases rest.len(),
{
    let all = seq![s] + rest;
    if rest.len() == 0 {
        assert(all.drop_last() =~= Seq::<Node>::empty());
        assert(climb(node, all.drop_last()) == Some(node));
        assert(all.last() == s);
        assert(left_bytes(node, all.drop_last()) == 0);
    } else {
        let less = rest.drop_last();
        lemma_climb_front(node, s, less);
        assert(all.drop_last() =~= seq![s] + less);
        assert(all.last() == rest.last());
    }
}

/// From a stored node the stored siblings lead to the stored root above it.
pub proof fn lemma_path(t: Tree, blocks: Seq<Seq<u8>>, i: u64) -> (r: u64)
    requires
        holds(t, blocks),
        flat::complete(i as nat, blocks.len()),
    ensures
        t.path(i as nat) is Some,
        flat::is_root(r as nat, blocks.len()),
        flat::first_of(r as nat) <= flat::first_of(i as nat),
        flat::end_of(i as nat) <= flat::end_of(r as nat),
        climb(t.nodes[i], t.path(i as nat)->0) == Some(t.nodes[r]),
        left_bytes(t.nodes[i], t.path(i as nat)->0) == bytes_before(
            blocks,
            flat::first_of(i as nat),
        ) - bytes_before(blocks, flat::first_of(r as nat)),
    decreases blocks.len() - pow2(flat::depth_of(i as nat)),
{
    let n = blocks.len();
    flat::lemma_range(i as nat);
    if flat::is_root(i as nat, n) {
        i
    } else {
        lemma_stored_parent(t, blocks, i);
        flat::lemma_climb(i as nat, n);
        flat::lemma_family(i as nat);
        let s = flat::sibling_of(i as nat) as u64;
        let p = flat::parent_of(i as nat) as u64;
        flat::lemma_range(p as nat);
        flat::lemma_range(s as nat);
        let r = lemma_path(t, blocks, p);
        let rest = t.path(p as nat)->0;
        lemma_climb_front(t.nodes[i], t.nodes[s], rest);
        law_held_is_keyed(t, blocks);
        assert(t.nodes.contains_key(s) && t.nodes.contains_key(i));
        flat::lemma_coords(s as nat);
        lemma_built(blocks, flat::depth_of(s as nat), flat::offset_of(s as nat));
        r
    }
}

/// The inclusion proof of a block of the tree verifies for that block against the
/// tree's root hash.
pub proof fn law_inclusion_proof(t: Tree, blocks: Seq<Seq<u8>>, p: Proof)
    requires
        holds(t, blocks),
        p.block < blocks.len(),
        p.leaf_size == t.nodes[(2 * p.block) as u64].size,
        Some(p.siblings@) == t.path(2 * p.block as nat),
        p.roots@ == t.roots_at(blocks.len()),
    ensures
        p.accepts(blocks[p.block as int], t.root_hash()),
{
    let i = (2 * p.block) as u64;
    flat::lemma_leaf(p.block as nat);
    assert(t.nodes.contains_key(i));
    let r = lemma_path(t, blocks, i);
    lemma_own_root(t, blocks, r);
    lemma_place(p.roots@, r);
    assert(p.roots@.update(place(p.roots@, r)->0, t.nodes[r])[place(p.roots@, r)->0] == t.nodes[r]);
    lemma_bytes_mono(blocks, p.block as nat + 1, blocks.len());
}

/// The node proof of a node of the tree verifies against the tree's root hash.
pub proof fn law_node_proof(t: Tree, blocks: Seq<Seq<u8>>, i: u64, p: NodeProof)
    requires
        holds(t, blocks),
        flat::complete(i as nat, blocks.len()),
        p.node == t.nodes[i],
        Some(p.siblings@) == t.path(i as nat),
        p.roots@ == t.roots_at(blocks.len()),
    ensures
        p.accepts(t.root_hash()),
{
    let r = lemma_path(t, blocks, i);
    lemma_own_root(t, blocks, r);
    lemma_place(p.roots@, r);
    assert(p.roots@.update(place(p.roots@, r)->0, t.nodes[r])[place(p.roots@, r)->0] == t.nodes[r]);
}

/// Where byte `bytes` of `blocks` lies, by adding up block sizes from the left.
pub open spec fn located(blocks: Seq<Seq<u8>>, bytes: nat, block: nat, offset: nat) -> bool {
    if bytes < bytes_before(blocks, blocks.len()) {
        block < blocks.len() && bytes == bytes_before(blocks, block) + offset && offset
            < blocks[block as int].len()
    } else {
        block == blocks.len() && bytes == bytes_before(blocks, blocks.len()) + offset
    }
}

proof fn lemma_seek_in(t: Tree, blocks: Seq<Seq<u8>>, d: nat, o: nat, bytes: u64)
    requires
        holds(t, blocks),
        flat::complete(flat::index_of(d, o), blocks.len()),
        bytes < built(blocks, d, o).size,
    ensures
        seek_in(t.nodes, d, o, bytes) matches Some(p) && p.0 < blocks.len() && bytes_before(
            blocks,
            flat::first_of(flat::index_of(d, o)),
        ) + bytes == bytes_before(blocks, p.0 as nat) + p.1 && p.1 < blocks[p.0 as int].len(),
    decreases d,
{
    lemma_at(d, o);
    lemma_built(blocks, d, o);
    if d > 0 {
        let l = flat::index_of((d - 1) as nat, 2 * o);
        lemma_built(blocks, (d - 1) as nat, 2 * o);
        lemma_built(blocks, (d - 1) as nat, 2 * o + 1);
        assert(t.nodes.contains_key(l as u64));
        if t.nodes[l as u64].size > bytes {
            lemma_seek_in(t, blocks, (d - 1) as nat, 2 * o, bytes);
        } else {
            lemma_seek_in(
                t,
                blocks,
                (d - 1) as nat,
                2 * o + 1,
                (bytes - t.nodes[l as u64].size) as u64,
            );
        }
    } else {
        assert(bytes_before(blocks, o + 1) == bytes_before(blocks, o) + blocks[o as int].len());
    }
}

proof fn lemma_seek_from(t: Tree, blocks: Seq<Seq<u8>>, k: int, bytes: u64)
    requires
        holds(t, blocks),
        0 <= k <= flat::roots_of(blocks.len()).len(),
    ensures
        ({
            let roots = flat::roots_of(blocks.len());
            let base = if k < roots.len() {
                bytes_before(blocks, flat::first_of(roots[k]))
            } else {
                bytes_before(blocks, blocks.len())
            };
            t.seek_from(k, bytes) matches Some(p) && located(
                blocks,
                base + bytes as nat,
                p.0 as nat,
                p.1 as nat,
            )
        }),
    decreases flat::roots_of(blocks.len()).len() - k,
{
    let n = blocks.len();
    let roots = flat::roots_of(n);
    flat::lemma_roots(n);
    if k < roots.len() {
        lemma_held_roots(t, blocks, n);
        let i = roots[k];
        assert(flat::is_root(i, n));
        flat::lemma_coords(i);
        let d = flat::depth_of(i);
        let o = flat::offset_of(i);
        lemma_built(blocks, d, o);
        flat::lemma_range(i);
        lemma_bytes_mono(blocks, flat::end_of(i), n);
        lemma_bytes_mono(blocks, flat::first_of(i), flat::end_of(i));
        let r = t.nodes[i as u64];
        assert(t.nodes.contains_key(i as u64));
        assert(r == built(blocks, d, o));
        if r.size > bytes {
            lemma_seek_in(t, blocks, d, o, bytes);
        } else {
            lemma_seek_from(t, blocks, k + 1, (bytes - r.size) as u64);
            if k + 1 < roots.len() {
                assert(flat::end_of(roots[k]) == flat::first_of(roots[k + 1]));
            } else {
                assert(roots.last() == i);
            }
        }
    }
}

/// Seeking in the tree of some blocks agrees with adding up their sizes, for every
/// byte offset.
pub proof fn law_seek(t: Tree, blocks: Seq<Seq<u8>>, bytes: u64)
    requires
        holds(t, blocks),
    ensures
        t.seek_from(0, bytes) matches Some(p) && located(
            blocks,
            bytes as nat,
            p.0 as nat,
            p.1 as nat,
        ),
{
    flat::lemma_roots(blocks.len());
    lemma_seek_from(t, blocks, 0, bytes);
    assert(bytes_before(blocks, 0) == 0);
}

/// The roots to the left of root number `k` hold the bytes before it.
pub proof fn lemma_roots_before(t: Tree, blocks: Seq<Seq<u8>>, k: int, upto: int)
    requires
        holds(t, blocks),
        0 <= k < flat::roots_of(blocks.len()).len(),
        0 <= upto <= flat::roots_of(blocks.len()).len(),
    ensures
        ({
            let roots = flat::roots_of(blocks.len());
            roots_before(t.roots_at(blocks.len()).take(upto), roots[k] as u64) == if upto <= k {
                if upto < roots.len() {
                    bytes_before(blocks, flat::first_of(roots[upto]))
                } else {
                    0
                }
            } else {
                bytes_before(blocks, flat::first_of(roots[k]))
            }
        }),
    decreases upto,
{
    let n = blocks.len();
    let idx = flat::roots_of(n);
    let roots = t.roots_at(n);
    flat::lemma_roots(n);
    lemma_held_roots(t, blocks, n);
    if upto == 0 {
        assert(roots.take(0) =~= Seq::<Node>::empty());
        assert(bytes_before(blocks, 0) == 0);
    } else {
        lemma_roots_before(t, blocks, k, upto - 1);
        assert(roots.take(upto).drop_last() =~= roots.take(upto - 1));
        let j = upto - 1;
        assert(roots.take(upto).last() == roots[j]);
        assert(roots[j].index == idx[j]);
        if j < k {
            flat::lemma_roots_ordered(n, j, k);
            let i = idx[j];
            assert(flat::is_root(i, n));
            flat::lemma_coords(i);
            lemma_built(blocks, flat::depth_of(i), flat::offset_of(i));
            assert(t.nodes.contains_key(i as u64));
            flat::lemma_range(i);
            lemma_bytes_mono(blocks, flat::first_of(i), flat::end_of(i));
            assert(flat::end_of(idx[j]) == flat::first_of(idx[j + 1]));
        } else if j > k {
            flat::lemma_roots_ordered(n, k, j);
        }
    }
}

/// A seek proof from the tree verifies against its root hash and lands where the
/// tree's own seek lands.
pub proof fn law_seek_proof(t: Tree, blocks: Seq<Seq<u8>>, p: SeekProof)
    requires
        holds(t, blocks),
        p.bytes < bytes_before(blocks, blocks.len()),
        ({
            let block = (t.seek_from(0, p.bytes)->0).0;
            &&& p.leaf == t.nodes[(2 * block) as u64]
            &&& Some(p.siblings@) == t.path(2 * block as nat)
            &&& p.roots@ == t.roots_at(blocks.len())
        }),
    ensures
        p.lands(t.root_hash()) == t.seek_from(0, p.bytes),
{
    let n = blocks.len();
    law_seek(t, blocks, p.bytes);
    let (block, offset) = t.seek_from(0, p.bytes)->0;
    let i = (2 * block) as u64;
    flat::lemma_leaf(block as nat);
    assert(t.nodes.contains_key(i));
    let r = lemma_path(t, blocks, i);
    lemma_own_root(t, blocks, r);
    flat::lemma_root_listed(n, r as nat);
    let k = choose|k: int| 0 <= k < flat::roots_of(n).len() && flat::roots_of(n)[k] == r as nat;
    lemma_roots_before(t, blocks, k, flat::roots_of(n).len() as int);
    assert(t.roots_at(n).take(flat::roots_of(n).len() as int) =~= t.roots_at(n));
    flat::lemma_range(r as nat);
    lemma_bytes_mono(blocks, flat::first_of(r as nat), flat::first_of(i as nat));
    lemma_built(blocks, 0, block as nat);
}

/// The first `k` roots weigh what the blocks below them take.
proof fn lemma_weight(t: Tree, blocks: Seq<Seq<u8>>, k: int)
    requires
        holds(t, blocks),
        0 <= k <= flat::roots_of(blocks.len()).len(),
    ensures
        Tree::weight(t.roots_at(blocks.len()).take(k)) == if k < flat::roots_of(
            blocks.len(),
        ).len() {
            bytes_before(blocks, flat::first_of(flat::roots_of(blocks.len())[k]))
        } else {
            bytes_before(blocks, blocks.len())
        },
    decreases k,
{
    let n = blocks.len();
    let idx = flat::roots_of(n);
    let roots = t.roots_at(n);
    lemma_held_roots(t, blocks, n);
    flat::lemma_roots(n);
    if k > 0 {
        lemma_weight(t, blocks, k - 1);
        assert(roots.take(k).drop_last() =~= roots.take(k - 1));
        let i = idx[k - 1];
        assert(flat::is_root(i, n));
        flat::lemma_coords(i);
        lemma_built(blocks, flat::depth_of(i), flat::offset_of(i));
        assert(t.nodes.contains_key(i as u64));
        assert(roots[k - 1] == t.nodes[i as u64]);
        flat::lemma_range(i);
        lemma_bytes_mono(blocks, flat::first_of(i), flat::end_of(i));
        if k < idx.len() {
            assert(flat::end_of(idx[k - 1]) == flat::first_of(idx[k]));
        }
    } else {
        assert(roots.take(0) =~= Seq::empty());
        if idx.len() > 0 {
            assert(flat::first_of(idx[0]) == 0);
        }
        assert(bytes_before(blocks, 0) == 0);
    }
}

/// The byte length of the tree of some blocks is the number of their bytes.
pub proof fn law_weight(t: Tree, blocks: Seq<Seq<u8>>)
    requires
        holds(t, blocks),
    ensures
        Tree::weight(t.roots_at(t.length as nat)) == bytes_before(blocks, blocks.len()),
        Tree::weight(t.roots_at(t.length as nat)) <= u64::MAX,
{
    let k = flat::roots_of(blocks.len()).len() as int;
    lemma_held_roots(t, blocks, blocks.len());
    lemma_weight(t, blocks, k);
    assert(t.roots_at(blocks.len()).take(k) =~= t.roots_at(blocks.len()));
}

} // verus!
