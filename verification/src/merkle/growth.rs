//! A tree that has its roots keeps having them as blocks are appended, whatever its
//! other nodes are.
use vstd::prelude::*;
use super::flat;
use super::tree::{lemma_below_summit, rolled, Tree};
use super::{joined, leaf_node, Node, MAX_BLOCKS};

verus! {

/// Whether every root of the first `n` blocks is among `nodes`.
spec fn rooted_at(nodes: Map<u64, Node>, n: nat) -> bool {
    forall|i: u64| #[trigger] flat::is_root(i as nat, n) ==> nodes.contains_key(i)
}

proof fn lemma_rooted(t: Tree, n: nat)
    requires
        n < MAX_BLOCKS,
    ensures
        t.has_roots(n) <==> rooted_at(t.nodes, n),
{
    if t.has_roots(n) {
        assert forall|i: u64| #[trigger] flat::is_root(i as nat, n) implies t.nodes.contains_key(
            i,
        ) by {
            flat::lemma_root_listed(n, i as nat);
            let k = choose|k: int| 0 <= k < flat::roots_of(n).len() && flat::roots_of(n)[k] == i;
            assert(t.nodes.contains_key(flat::roots_of(n)[k] as u64));
        }
    }
    if rooted_at(t.nodes, n) {
        assert forall|k: int| 0 <= k < flat::roots_of(n).len() implies t.nodes.contains_key(
            #[trigger] flat::roots_of(n)[k] as u64,
        ) by {
            let r = flat::roots_of(n)[k];
            assert(flat::roots_of(n).contains(r));
            flat::lemma_root_listed(n, r);
            flat::lemma_word(r);
            assert(flat::is_root((r as u64) as nat, n));
        }
    }
}

/// What [`rolled`] leaves there.
proof fn lemma_rolled_roots(m: Map<u64, Node>, cur: Node, n: nat, d: nat)
    requires
        n + 1 < MAX_BLOCKS,
        cur.index == flat::above(n, d),
        flat::complete(flat::above(n, d), n + 1),
        rooted_at(m, n),
        forall|k: nat| k < d ==> m.contains_key(#[trigger] flat::above(n, k) as u64),
    ensures
        rooted_at(rolled(m, cur), n + 1),
        forall|i: u64| #[trigger] m.contains_key(i) ==> rolled(m, cur).contains_key(i),
        !m.contains_key(u64::MAX) ==> !rolled(m, cur).contains_key(u64::MAX),
    decreases 64 - d,
{
    let c = flat::above(n, d);
    flat::lemma_above(n, d);
    flat::lemma_above(n, d + 1);
    lemma_below_summit(cur.index, (n + 1) as u64);
    flat::lemma_family(c);
    flat::lemma_word(c);
    flat::lemma_range(c);
    let s = flat::sibling_of(c);
    let p = flat::parent_of(c);
    flat::lemma_range(p);
    flat::lemma_range(s);
    let next = m.insert(cur.index, cur);
    if s < c {
        assert(flat::is_root(s, n));
        assert(flat::is_root((s as u64) as nat, n));
        assert(m.contains_key(s as u64));
        let up = joined(cur, m[s as u64]);
        flat::lemma_word(p);
        assert(up.index == p);
        assert forall|k: nat| k < d + 1 implies next.contains_key(
            #[trigger] flat::above(n, k) as u64,
        ) by {}
        lemma_rolled_roots(next, up, n, d + 1);
        assert(rolled(m, cur) == rolled(next, up));
        assert forall|i: u64| #[trigger] m.contains_key(i) implies rolled(m, cur).contains_key(
            i,
        ) by {
            assert(next.contains_key(i));
        }
    } else {
        assert(rolled(m, cur) == next);
        assert forall|i: u64| #[trigger] flat::is_root(i as nat, n + 1) implies next.contains_key(
            i,
        ) by {
            let j = i as nat;
            flat::lemma_range(j);
            if flat::end_of(j) <= n {
                assert(flat::is_root(j, n));
            } else {
                flat::lemma_covers(j, n);
                if flat::depth_of(j) > d {
                    flat::lemma_nested(c, j, n);
                } else if flat::depth_of(j) < d {
                    assert(m.contains_key(flat::above(n, flat::depth_of(j)) as u64));
                }
            }
        }
    }
}

/// Appending keeps a tree's roots.
pub proof fn lemma_append_roots(t: Tree, data: Seq<u8>)
    requires
        t.length + 1 < MAX_BLOCKS,
        t.has_roots(t.length as nat),
    ensures
        t.appended(data).has_roots(t.length as nat + 1),
        !t.nodes.contains_key(u64::MAX) ==> !t.appended(data).nodes.contains_key(u64::MAX),
{
    let n = t.length as nat;
    let leaf = leaf_node(n, data);
    lemma_rooted(t, n);
    flat::lemma_leaf(n);
    flat::lemma_above(n, 0);
    lemma_rolled_roots(t.nodes, leaf, n, 0);
    lemma_rooted(t.appended(data), n + 1);
}

/// Truncating keeps the roots of what is left.
pub proof fn lemma_truncate_roots(t: Tree, n: u64)
    requires
        n < MAX_BLOCKS,
        t.has_roots(n as nat),
        n <= t.length,
    ensures
        t.truncated(n).has_roots(n as nat),
        !t.nodes.contains_key(u64::MAX) ==> !t.truncated(n).nodes.contains_key(u64::MAX),
{
    lemma_rooted(t, n as nat);
    let u = t.truncated(n);
    assert forall|i: u64| #[trigger] flat::is_root(i as nat, n as nat) implies u.nodes.contains_key(
        i,
    ) by {}
    lemma_rooted(u, n as nat);
}

/// An empty tree has its roots.
pub proof fn lemma_no_roots(t: Tree)
    ensures
        t.has_roots(0),
{
    assert(flat::roots_of(0).len() == 0);
}

} // verus!
