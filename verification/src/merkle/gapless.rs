//! What holds of every tree that lacks no node, wherever its nodes came from.
use vstd::arithmetic::power2::pow2;
use vstd::prelude::*;
use super::flat;
use super::hash::{apart, digest};
use super::laws::{holds, law_held_is_keyed, lemma_climb_front, lemma_stored_parent};
use super::proofs::{climb, ends_in, lemma_place_is, step_up, NodeProof, Proof};
use super::range_laws::{lemma_parent_bytes, lemma_roots_injective};
use super::tree::{bisect, lemma_below_summit, roll_fits, rolled, Tree};
use super::{joined, leaf_node, parent_bytes, roots_bytes, tree_bytes, Node, MAX_BLOCKS};

verus! {

/// Whether a node is the parent of the two below it, whose sizes 64 bits can add up.
pub open spec fn linked_at(t: Tree, i: u64) -> bool {
    let l = t.nodes[flat::left_of(i as nat) as u64];
    let r = t.nodes[flat::right_of(i as nat) as u64];
    t.nodes[i] == joined(r, l) && l.size + r.size <= u64::MAX
}

/// Whether every inner node is the parent of the two below it.
pub open spec fn linked(t: Tree) -> bool {
    forall|i: u64|
        flat::complete(i as nat, t.length as nat) && flat::depth_of(i as nat) > 0
            ==> #[trigger] linked_at(t, i)
}

/// Whether every inner node over a block is the parent of the two below it.
pub open spec fn linked_over(t: Tree, block: nat) -> bool {
    forall|i: u64|
        flat::complete(i as nat, t.length as nat) && flat::depth_of(i as nat) > 0 && flat::first_of(
            i as nat,
        ) <= block < flat::end_of(i as nat) ==> #[trigger] linked_at(t, i)
}

/// Whether no node is there but those that a tree of this length has.
pub open spec fn tight(t: Tree) -> bool {
    forall|i: u64| #[trigger]
        t.nodes.contains_key(i) ==> flat::complete(i as nat, t.length as nat)
}

/// The tree of some blocks lacks no node and has no other, and each inner one is the parent
/// of the two below it.
pub proof fn law_held_is_gapless(t: Tree, blocks: Seq<Seq<u8>>)
    requires
        holds(t, blocks),
    ensures
        t.keyed(),
        t.intact(),
        tight(t),
        linked(t),
{
    law_held_is_keyed(t, blocks);
    assert forall|i: u64|
        flat::complete(i as nat, t.length as nat) && flat::depth_of(i as nat)
            > 0 implies #[trigger] linked_at(t, i) by {
        let l = flat::left_of(i as nat);
        let r = flat::right_of(i as nat);
        assert(t.nodes.contains_key(i));
        lemma_brood(t, i as nat);
        flat::lemma_children(i as nat);
        flat::lemma_children_of(i as nat);
        assert(!flat::is_root(l, blocks.len()));
        lemma_stored_parent(t, blocks, l as u64);
    }
}

/// A new node covers the last block, and there is one at each depth.
proof fn lemma_newest(i: nat, n: nat)
    requires
        flat::complete(i, n + 1),
        !flat::complete(i, n),
    ensures
        i == flat::above(n, flat::depth_of(i)),
{
    flat::lemma_range(i);
    flat::lemma_covers(i, n);
}

/// What [`rolled`] does to nodes that lack none.
proof fn lemma_rolled_over(m: Map<u64, Node>, cur: Node, n: nat, d: nat)
    requires
        n + 1 < MAX_BLOCKS,
        cur.index == flat::above(n, d),
        flat::complete(flat::above(n, d), n + 1),
        forall|i: u64| flat::complete(i as nat, n) ==> #[trigger] m.contains_key(i),
        forall|i: u64|
            flat::complete(i as nat, n + 1) && flat::depth_of(i as nat) < d
                ==> #[trigger] m.contains_key(i),
    ensures
        rolled(m, cur).contains_key(cur.index) && rolled(m, cur)[cur.index] == cur,
        forall|i: u64|
            flat::complete(i as nat, n + 1) ==> #[trigger] rolled(m, cur).contains_key(i),
        forall|i: u64|
            flat::complete(i as nat, n) || (flat::complete(i as nat, n + 1) && flat::depth_of(
                i as nat,
            ) < d) ==> #[trigger] rolled(m, cur)[i] == m[i],
        forall|i: u64|
            flat::complete(i as nat, n + 1) && !flat::complete(i as nat, n) && flat::depth_of(
                i as nat,
            ) > d ==> #[trigger] rolled(m, cur)[i] == joined(
                rolled(m, cur)[flat::right_of(i as nat) as u64],
                rolled(m, cur)[flat::left_of(i as nat) as u64],
            ),
        forall|i: u64| #[trigger]
            rolled(m, cur).contains_key(i) ==> m.contains_key(i) || flat::complete(i as nat, n + 1),
    decreases 64 - d,
{
    let c = flat::above(n, d);
    flat::lemma_above(n, d);
    flat::lemma_above(n, d + 1);
    lemma_below_summit(cur.index, (n + 1) as u64);
    flat::lemma_family(c);
    flat::lemma_word(c);
    flat::lemma_range(c);
    let s = flat::sibling_of(c);
    let p = flat::parent_of(c);
    flat::lemma_range(p);
    flat::lemma_range(s);
    let next = m.insert(cur.index, cur);
    let all = rolled(m, cur);
    assert forall|i: u64|
        flat::complete(i as nat, n + 1) && flat::depth_of(i as nat) < d
            + 1 implies #[trigger] next.contains_key(i) by {
        if !flat::complete(i as nat, n) && flat::depth_of(i as nat) == d {
            lemma_newest(i as nat, n);
        }
        if flat::complete(i as nat, n) {
            assert(m.contains_key(i));
        } else if flat::depth_of(i as nat) < d {
            assert(m.contains_key(i));
        }
    }
    if s < c {
        assert(flat::complete(s, n));
        assert(m.contains_key(s as u64));
        let up = joined(cur, m[s as u64]);
        flat::lemma_word(p);
        assert(up.index == p);
        lemma_rolled_over(next, up, n, d + 1);
        assert(all == rolled(next, up));
        assert(all[cur.index] == next[cur.index]);
        assert(all[s as u64] == next[s as u64]);
        assert forall|i: u64|
            flat::complete(i as nat, n) || (flat::complete(i as nat, n + 1) && flat::depth_of(
                i as nat,
            ) < d) implies #[trigger] all[i] == m[i] by {
            assert(all[i] == next[i]);
        }
        flat::lemma_children_of(p);
        flat::lemma_coords(c);
        flat::lemma_coords(s);
        assert(flat::right_of(p) == c && flat::left_of(p) == s);
        assert forall|i: u64|
            flat::complete(i as nat, n + 1) && !flat::complete(i as nat, n) && flat::depth_of(
                i as nat,
            ) > d implies #[trigger] all[i] == joined(
            all[flat::right_of(i as nat) as u64],
            all[flat::left_of(i as nat) as u64],
        ) by {
            if flat::depth_of(i as nat) == d + 1 {
                lemma_newest(i as nat, n);
                assert(i == p);
            }
        }
    } else {
        assert(all == next);
        assert forall|i: u64| flat::complete(i as nat, n + 1) implies flat::complete(i as nat, n)
            || flat::depth_of(i as nat) < d + 1 by {
            flat::lemma_range(i as nat);
            if !flat::complete(i as nat, n) && flat::depth_of(i as nat) > d {
                lemma_newest(i as nat, n);
                flat::lemma_nested(c, i as nat, n);
            }
        }
        assert forall|i: u64| flat::complete(i as nat, n + 1) implies #[trigger] all.contains_key(
            i,
        ) by {
            if flat::complete(i as nat, n) {
                assert(m.contains_key(i));
            } else {
                assert(next.contains_key(i));
            }
        }
    }
}

/// What [`rolled`] adds stands under its own index.
proof fn lemma_rolled_keyed(m: Map<u64, Node>, cur: Node, n: nat, d: nat)
    requires
        n + 1 < MAX_BLOCKS,
        cur.index == flat::above(n, d),
        flat::complete(flat::above(n, d), n + 1),
        forall|i: u64| #[trigger] m.contains_key(i) ==> m[i].index == i,
    ensures
        forall|i: u64| #[trigger]
            rolled(m, cur).contains_key(i) ==> rolled(m, cur)[i].index == i,
    decreases 64 - d,
{
    let c = flat::above(n, d);
    flat::lemma_above(n, d);
    flat::lemma_above(n, d + 1);
    lemma_below_summit(cur.index, (n + 1) as u64);
    flat::lemma_family(c);
    flat::lemma_word(c);
    flat::lemma_range(c);
    let s = flat::sibling_of(c);
    let p = flat::parent_of(c);
    flat::lemma_range(p);
    flat::lemma_range(s);
    let next = m.insert(cur.index, cur);
    if s < c && m.contains_key(s as u64) {
        let up = joined(cur, m[s as u64]);
        flat::lemma_word(p);
        lemma_rolled_keyed(next, up, n, d + 1);
        assert(rolled(m, cur) == rolled(next, up));
    } else {
        assert(rolled(m, cur) == next);
    }
}

/// Whether the sizes of the two below a node add up in 64 bits.
spec fn adds_up(all: Map<u64, Node>, i: u64) -> bool {
    all[flat::right_of(i as nat) as u64].size + all[flat::left_of(i as nat) as u64].size
        <= u64::MAX
}

/// The sizes of the nodes that [`rolled`] joins add up.
proof fn lemma_rolled_sizes(m: Map<u64, Node>, cur: Node, n: nat, d: nat)
    requires
        n + 1 < MAX_BLOCKS,
        cur.index == flat::above(n, d),
        flat::complete(flat::above(n, d), n + 1),
        forall|i: u64| flat::complete(i as nat, n) ==> #[trigger] m.contains_key(i),
        forall|i: u64|
            flat::complete(i as nat, n + 1) && flat::depth_of(i as nat) < d
                ==> #[trigger] m.contains_key(i),
        roll_fits(m, cur),
    ensures
        forall|i: u64|
            flat::complete(i as nat, n + 1) && !flat::complete(i as nat, n) && flat::depth_of(
                i as nat,
            ) > d ==> #[trigger] adds_up(rolled(m, cur), i),
    decreases 64 - d,
{
    let c = flat::above(n, d);
    let all = rolled(m, cur);
    lemma_rolled_over(m, cur, n, d);
    flat::lemma_above(n, d);
    flat::lemma_above(n, d + 1);
    lemma_below_summit(cur.index, (n + 1) as u64);
    flat::lemma_family(c);
    flat::lemma_word(c);
    flat::lemma_range(c);
    let s = flat::sibling_of(c);
    let p = flat::parent_of(c);
    flat::lemma_range(p);
    flat::lemma_range(s);
    let next = m.insert(cur.index, cur);
    if s < c {
        assert(flat::complete(s, n));
        assert(m.contains_key(s as u64));
        let up = joined(cur, m[s as u64]);
        flat::lemma_word(p);
        assert forall|i: u64|
            flat::complete(i as nat, n + 1) && flat::depth_of(i as nat) < d
                + 1 implies #[trigger] next.contains_key(i) by {
            if flat::complete(i as nat, n) || flat::depth_of(i as nat) < d {
                assert(m.contains_key(i));
            } else {
                lemma_newest(i as nat, n);
            }
        }
        lemma_rolled_sizes(next, up, n, d + 1);
        flat::lemma_children_of(p);
        flat::lemma_coords(c);
        flat::lemma_coords(s);
        assert(flat::right_of(p) == c && flat::left_of(p) == s);
        assert(all[s as u64] == m[s as u64]);
        assert forall|i: u64|
            flat::complete(i as nat, n + 1) && !flat::complete(i as nat, n) && flat::depth_of(
                i as nat,
            ) > d implies #[trigger] adds_up(all, i) by {
            if flat::depth_of(i as nat) == d + 1 {
                lemma_newest(i as nat, n);
            } else {
                assert(adds_up(rolled(next, up), i));
            }
        }
    } else {
        assert forall|i: u64|
            flat::complete(i as nat, n + 1) && !flat::complete(i as nat, n) && flat::depth_of(
                i as nat,
            ) > d implies #[trigger] adds_up(all, i) by {
            flat::lemma_range(i as nat);
            lemma_newest(i as nat, n);
            flat::lemma_nested(c, i as nat, n);
        }
    }
}

/// Two tilings by roots are the same.
proof fn lemma_tiles_unique(a: Seq<nat>, b: Seq<nat>, n: nat, k: int)
    requires
        flat::tiles(a, 0, n),
        flat::tiles(b, 0, n),
        0 <= k <= a.len(),
        k <= b.len(),
    ensures
        a.take(k) == b.take(k),
    decreases k,
{
    if k > 0 {
        lemma_tiles_unique(a, b, n, k - 1);
        let x = a[k - 1];
        let y = b[k - 1];
        assert(flat::is_root(x, n) && flat::is_root(y, n));
        if k > 1 {
            assert(a.take(k - 1)[k - 2] == b.take(k - 1)[k - 2]);
            assert(flat::end_of(a[k - 2]) == flat::first_of(a[k - 2 + 1]));
            assert(flat::end_of(b[k - 2]) == flat::first_of(b[k - 2 + 1]));
        }
        flat::lemma_range(x);
        flat::lemma_range(y);
        flat::lemma_roots_apart(x, y, n, flat::first_of(x));
        assert(a.take(k) =~= a.take(k - 1).push(x));
        assert(b.take(k) =~= b.take(k - 1).push(y));
    }
}

/// A tiling by roots is that of the roots.
proof fn lemma_tiles_roots(a: Seq<nat>, n: nat)
    requires
        flat::tiles(a, 0, n),
    ensures
        a == flat::roots_of(n),
{
    let b = flat::roots_of(n);
    flat::lemma_roots(n);
    lemma_tiles_len(a, b, n);
    lemma_tiles_len(b, a, n);
    lemma_tiles_unique(a, b, n, a.len() as int);
    assert(a.take(a.len() as int) =~= a);
    assert(b.take(a.len() as int) =~= b);
}

/// No tiling by roots goes on after another has come to the end.
proof fn lemma_tiles_len(a: Seq<nat>, b: Seq<nat>, n: nat)
    requires
        flat::tiles(a, 0, n),
        flat::tiles(b, 0, n),
    ensures
        b.len() <= a.len(),
{
    let k = a.len() as int;
    if k < b.len() {
        lemma_tiles_unique(a, b, n, k);
        let x = b[k];
        assert(flat::is_root(x, n));
        flat::lemma_range(x);
        if k > 0 {
            assert(a.take(k)[k - 1] == b.take(k)[k - 1]);
            assert(flat::end_of(b[k - 1]) == flat::first_of(b[k - 1 + 1]));
            assert(a.last() == a[k - 1]);
        }
    }
}

/// The roots once one more block is there: those that are left, and the node that the
/// block has rolled up to.
proof fn lemma_next_roots(n: nat, c: nat, k: int)
    requires
        flat::complete(c, n + 1),
        flat::first_of(c) <= n < flat::end_of(c),
        !flat::complete(flat::parent_of(c), n + 1),
        0 <= k <= flat::roots_of(n).len(),
        k == 0 ==> flat::first_of(c) == 0,
        k > 0 ==> flat::end_of(flat::roots_of(n)[k - 1]) == flat::first_of(c),
    ensures
        flat::roots_of(n + 1) == flat::roots_of(n).take(k).push(c),
{
    let old = flat::roots_of(n);
    let new = old.take(k).push(c);
    flat::lemma_roots(n);
    flat::lemma_range(c);
    flat::lemma_family(c);
    flat::lemma_range(flat::parent_of(c));
    assert(flat::is_root(c, n + 1));
    assert forall|j: int| 0 <= j < new.len() implies flat::is_root(#[trigger] new[j], n + 1) by {
        if j < k {
            let x = old[j];
            let q = flat::parent_of(x);
            assert(flat::is_root(x, n));
            flat::lemma_family(x);
            flat::lemma_range(x);
            flat::lemma_range(q);
            if j < k - 1 {
                flat::lemma_roots_ordered(n, j, k - 1);
                flat::lemma_range(old[k - 1]);
            }
            if flat::complete(q, n + 1) {
                if flat::depth_of(q) <= flat::depth_of(c) {
                    flat::lemma_nested(q, c, n);
                } else {
                    flat::lemma_above(n, flat::depth_of(c));
                    flat::lemma_covers(c, n);
                    flat::lemma_above(n, flat::depth_of(c) + 1);
                    flat::lemma_nested(flat::parent_of(c), q, n);
                }
            }
        }
    }
    assert forall|j: int| 0 <= j < new.len() - 1 implies flat::end_of(#[trigger] new[j])
        == flat::first_of(new[j + 1]) by {
        assert(new[j] == old[j]);
        if j < k - 1 {
            assert(flat::end_of(old[j]) == flat::first_of(old[j + 1]));
        }
    }
    assert(new.last() == c);
    lemma_tiles_roots(new, n + 1);
}

/// What [`rolled`] does to the sum of the sizes of the roots.
#[verifier::rlimit(40)]
proof fn lemma_rolled_weight(t: Tree, m: Map<u64, Node>, cur: Node, d: nat, k: int) -> (top: int)
    requires
        t.intact(),
        t.length + 1 < MAX_BLOCKS,
        forall|i: u64|
            flat::complete(i as nat, t.length as nat) ==> #[trigger] m.contains_key(i) && m[i]
                == t.nodes[i],
        ({
            let n = t.length as nat;
            let c = flat::above(n, d);
            let roots = flat::roots_of(n);
            &&& cur.index == c
            &&& flat::complete(c, n + 1)
            &&& 0 <= k <= roots.len()
            &&& k == 0 ==> flat::first_of(c) == 0
            &&& k > 0 ==> flat::end_of(roots[k - 1]) == flat::first_of(c)
        }),
        roll_fits(m, cur),
    ensures
        ({
            let n = t.length as nat;
            let all = rolled(m, cur);
            let roots = flat::roots_of(n + 1);
            &&& 0 <= top <= flat::roots_of(n).len()
            &&& roots == flat::roots_of(n).take(top).push(roots.last())
            &&& Tree::weight(t.roots_at(n).take(top)) + all[roots.last() as u64].size
                == Tree::weight(t.roots_at(n).take(k)) + cur.size
        }),
    decreases 64 - d,
{
    let n = t.length as nat;
    let c = flat::above(n, d);
    let roots = flat::roots_of(n);
    flat::lemma_roots(n);
    flat::lemma_above(n, d);
    flat::lemma_above(n, d + 1);
    lemma_below_summit(cur.index, (n + 1) as u64);
    flat::lemma_family(c);
    flat::lemma_word(c);
    flat::lemma_range(c);
    let s = flat::sibling_of(c);
    let p = flat::parent_of(c);
    flat::lemma_range(p);
    flat::lemma_range(s);
    let next = m.insert(cur.index, cur);
    if s < c {
        assert(flat::complete(s, n));
        assert(flat::is_root(s, n));
        assert(m.contains_key(s as u64));
        let up = joined(cur, m[s as u64]);
        flat::lemma_word(p);
        assert(up.index == p);
        let x = roots[k - 1];
        assert(flat::is_root(x, n));
        flat::lemma_range(x);
        flat::lemma_roots_apart(s, x, n, (flat::first_of(c) - 1) as nat);
        assert(x == s);
        if k > 1 {
            assert(flat::end_of(roots[k - 2]) == flat::first_of(roots[k - 2 + 1]));
        }
        assert forall|i: u64|
            flat::complete(i as nat, n) implies #[trigger] next.contains_key(i) && next[i]
            == t.nodes[i] by {
            assert(m.contains_key(i) && m[i] == t.nodes[i]);
            assert(i != c);
        }
        let top = lemma_rolled_weight(t, next, up, d + 1, k - 1);
        let w = t.roots_at(n);
        assert(w.take(k).drop_last() =~= w.take(k - 1));
        assert(w.take(k).last() == t.nodes[s as u64]);
        assert(rolled(m, cur) == rolled(next, up));
        top
    } else {
        assert(rolled(m, cur) == next);
        assert(!flat::complete(p, n + 1));
        lemma_next_roots(n, c, k);
        assert(flat::roots_of(n + 1).last() == c);
        k
    }
}

/// Appending to a tree that lacks no node keeps every node there was, adds the new block's
/// leaf and the parents that it completes, and gives a tree that lacks no node: nothing
/// changes in what the first blocks hash to. Where 64 bits have room for the block, the
/// sizes of the roots add up to as much more as the block has bytes, and the tree's proof of
/// the block is accepted.
pub proof fn law_append_gapless(t: Tree, data: Seq<u8>)
    requires
        t.intact(),
        t.length + 1 < MAX_BLOCKS,
    ensures
        ({
            let u = t.appended(data);
            let n = t.length as nat;
            &&& u.length == t.length + 1
            &&& u.intact()
            &&& t.keyed() ==> u.keyed()
            &&& u.nodes[(2 * t.length) as u64] == leaf_node(n, data)
            &&& forall|i: u64|
                flat::complete(i as nat, n) ==> #[trigger] u.nodes[i] == t.nodes[i]
            &&& linked(t) && t.can_append(data) ==> linked(u)
            &&& tight(t) ==> tight(u)
            &&& forall|k: u64| k <= t.length ==> #[trigger] u.prefix_hash(k) == t.prefix_hash(k)
            &&& t.can_append(data) && data.len() <= u64::MAX ==> Tree::weight(u.roots_at(n + 1))
                == Tree::weight(t.roots_at(n)) + data.len()
            &&& t.keyed() && t.can_append(data) ==> linked_over(u, n)
        }),
{
    let n = t.length as nat;
    let u = t.appended(data);
    let leaf = leaf_node(n, data);
    flat::lemma_leaf(n);
    flat::lemma_above(n, 0);
    lemma_rolled_over(t.nodes, leaf, n, 0);
    if t.keyed() {
        lemma_rolled_keyed(t.nodes, leaf, n, 0);
    }
    if t.can_append(data) {
        lemma_rolled_sizes(t.nodes, leaf, n, 0);
        assert forall|i: u64|
            flat::complete(i as nat, n + 1) && flat::depth_of(i as nat) > 0 && !flat::complete(
                i as nat,
                n,
            ) implies #[trigger] linked_at(u, i) by {
            assert(u.nodes[i] == rolled(t.nodes, leaf)[i]);
            assert(adds_up(rolled(t.nodes, leaf), i));
        }
        assert forall|i: u64|
            flat::complete(i as nat, n + 1) && flat::depth_of(i as nat) > 0 && flat::first_of(
                i as nat,
            ) <= n < flat::end_of(i as nat) implies #[trigger] linked_at(u, i) by {
            assert(!flat::complete(i as nat, n));
        }
        if linked(t) {
            assert forall|i: u64|
                flat::complete(i as nat, n + 1) && flat::depth_of(i as nat)
                    > 0 implies #[trigger] linked_at(u, i) by {
                if flat::complete(i as nat, n) {
                    let l = flat::left_of(i as nat);
                    let r = flat::right_of(i as nat);
                    flat::lemma_children_of(i as nat);
                    flat::lemma_children(i as nat);
                    flat::lemma_range(i as nat);
                    flat::lemma_range(l);
                    flat::lemma_range(r);
                    flat::lemma_word(l);
                    flat::lemma_word(r);
                    assert(flat::complete((l as u64) as nat, n) && flat::complete(
                        (r as u64) as nat,
                        n,
                    ));
                    assert(u.nodes[l as u64] == t.nodes[l as u64]);
                    assert(u.nodes[r as u64] == t.nodes[r as u64]);
                    assert(u.nodes[i] == t.nodes[i]);
                    assert(linked_at(t, i));
                }
            }
        }
        if data.len() <= u64::MAX {
            lemma_append_weight(t, data);
        }
    }
    if tight(t) {
        assert forall|i: u64| #[trigger] u.nodes.contains_key(i) implies flat::complete(
            i as nat,
            n + 1,
        ) by {
            if t.nodes.contains_key(i) {
                assert(flat::complete(i as nat, n));
            }
        }
    }
    assert forall|k: u64| k <= t.length implies #[trigger] u.prefix_hash(k) == t.prefix_hash(k) by {
        lemma_same_below(t, u, k);
    }
}

proof fn lemma_append_weight(t: Tree, data: Seq<u8>)
    requires
        t.intact(),
        t.can_append(data),
        data.len() <= u64::MAX,
    ensures
        Tree::weight(t.appended(data).roots_at(t.length as nat + 1)) == Tree::weight(
            t.roots_at(t.length as nat),
        ) + data.len(),
{
    let n = t.length as nat;
    let u = t.appended(data);
    let leaf = leaf_node(n, data);
    let old = flat::roots_of(n);
    let new = flat::roots_of(n + 1);
    flat::lemma_leaf(n);
    flat::lemma_above(n, 0);
    flat::lemma_roots(n);
    lemma_rolled_over(t.nodes, leaf, n, 0);
    let top = lemma_rolled_weight(t, t.nodes, leaf, 0, old.len() as int);
    let a = u.roots_at(n + 1);
    let b = t.roots_at(n);
    assert(b.take(old.len() as int) =~= b);
    assert(a.drop_last() =~= b.take(top)) by {
        assert forall|j: int| 0 <= j < top implies a[j] == b[j] by {
            assert(new[j] == old[j]);
            assert(flat::is_root(old[j], n));
            flat::lemma_word(old[j]);
            assert(flat::complete((old[j] as u64) as nat, n));
            assert(u.nodes[old[j] as u64] == rolled(t.nodes, leaf)[old[j] as u64]);
        }
    }
    assert(a.last() == u.nodes[new.last() as u64]);
}

/// The root that a node lies below is among the roots, as it is.
proof fn lemma_its_root(t: Tree, r: u64)
    requires
        t.intact(),
        t.keyed(),
        t.length < MAX_BLOCKS,
        flat::is_root(r as nat, t.length as nat),
    ensures
        ends_in(t.roots_at(t.length as nat), t.nodes[r], t.root_hash()),
        t.nodes[r].index == r,
{
    let n = t.length as nat;
    let roots = t.roots_at(n);
    let idx = flat::roots_of(n);
    flat::lemma_roots(n);
    flat::lemma_root_listed(n, r as nat);
    let k = choose|k: int| 0 <= k < idx.len() && idx[k] == r as nat;
    assert(t.nodes.contains_key(r));
    assert forall|j: int| 0 <= j < k implies roots[j].index != r by {
        flat::lemma_roots_ordered(n, j, k);
        assert(flat::is_root(idx[j], n));
        flat::lemma_word(idx[j]);
        assert(flat::complete((idx[j] as u64) as nat, n));
        assert(t.nodes.contains_key(idx[j] as u64));
    }
    assert(roots[k] == t.nodes[r]);
    lemma_place_is(roots, r, k);
}

/// From a node over a block, all of whose inner nodes are the parents of the two below them,
/// the siblings lead to the root above it.
proof fn lemma_way_up(t: Tree, i: u64, block: nat) -> (r: u64)
    requires
        t.intact(),
        t.keyed(),
        t.length < MAX_BLOCKS,
        flat::complete(i as nat, t.length as nat),
        flat::first_of(i as nat) <= block < flat::end_of(i as nat),
        linked_over(t, block),
    ensures
        t.path(i as nat) is Some,
        flat::is_root(r as nat, t.length as nat),
        climb(t.nodes[i], t.path(i as nat)->0) == Some(t.nodes[r]),
    decreases t.length - pow2(flat::depth_of(i as nat)),
{
    let n = t.length as nat;
    flat::lemma_range(i as nat);
    if flat::is_root(i as nat, n) {
        i
    } else {
        flat::lemma_climb(i as nat, n);
        flat::lemma_family(i as nat);
        flat::lemma_word(i as nat);
        lemma_below_summit(i, n as u64);
        let s = flat::sibling_of(i as nat);
        let p = flat::parent_of(i as nat);
        flat::lemma_word(s);
        flat::lemma_word(p);
        flat::lemma_range(p);
        flat::lemma_range(s);
        flat::lemma_children_of(p);
        flat::lemma_children(p);
        flat::lemma_coords(i as nat);
        assert(flat::complete((s as u64) as nat, n) && flat::complete((p as u64) as nat, n));
        assert(t.nodes.contains_key(s as u64) && t.nodes.contains_key(i) && t.nodes.contains_key(
            p as u64,
        ));
        assert(linked_at(t, p as u64));
        assert(step_up(t.nodes[i], t.nodes[s as u64]) == Some(t.nodes[p as u64]));
        let r = lemma_way_up(t, p as u64, block);
        lemma_climb_front(t.nodes[i], t.nodes[s as u64], t.path(p)->0);
        r
    }
}

/// The inclusion proof that a tree makes of a block verifies for the block against the
/// tree's root hash, wherever the tree's other nodes came from, if the inner nodes over the
/// block are the parents of the two below them.
pub proof fn law_proof_gapless(t: Tree, data: Seq<u8>, p: Proof)
    requires
        t.intact(),
        t.keyed(),
        p.block < t.length < MAX_BLOCKS,
        data.len() <= u64::MAX,
        t.nodes[(2 * p.block) as u64] == leaf_node(p.block as nat, data),
        linked_over(t, p.block as nat),
        p.leaf_size == t.nodes[(2 * p.block) as u64].size,
        Some(p.siblings@) == t.path(2 * p.block as nat),
        p.roots@ == t.roots_at(t.length as nat),
    ensures
        p.accepts(data, t.root_hash()),
{
    flat::lemma_leaf(p.block as nat);
    let r = lemma_way_up(t, (2 * p.block) as u64, p.block as nat);
    lemma_its_root(t, r);
}

/// The proof of a block that was just appended verifies, to whatever tree that lacks no
/// node.
pub proof fn law_appended_proof(t: Tree, data: Seq<u8>, p: Proof)
    requires
        t.intact(),
        t.keyed(),
        t.can_append(data),
        data.len() <= u64::MAX,
        p.block == t.length,
        p.leaf_size == data.len(),
        Some(p.siblings@) == t.appended(data).path(2 * p.block as nat),
        p.roots@ == t.appended(data).roots_at(t.length as nat + 1),
    ensures
        p.accepts(data, t.appended(data).root_hash()),
{
    law_append_gapless(t, data);
    law_proof_gapless(t.appended(data), data, p);
}

/// A damaged tree is healed from a healthy one, each inner node of which is the parent of
/// the two below it: the healthy tree's proof of a node is accepted, the node taken from it
/// is the one that the damaged tree lacks, and once it lacks no other it is the healthy
/// tree.
pub proof fn law_recover(t: Tree, damaged: Tree, i: u64, p: NodeProof)
    requires
        t.intact(),
        t.keyed(),
        linked(t),
        t.length < MAX_BLOCKS,
        damaged.length == t.length,
        damaged.nodes.submap_of(t.nodes),
        flat::complete(i as nat, t.length as nat),
        p.node == t.nodes[i],
        Some(p.siblings@) == t.path(i as nat),
        p.roots@ == t.roots_at(t.length as nat),
    ensures
        t.path(i as nat) is Some,
        p.accepts(t.root_hash()),
        ({
            let healed = Tree {
                nodes: damaged.nodes.insert(p.node.index, p.node),
                length: damaged.length,
            };
            &&& healed.nodes.submap_of(t.nodes)
            &&& healed.nodes.contains_key(i)
            &&& damaged.nodes.insert(i, t.nodes[i]) == t.nodes ==> healed == t
        }),
{
    flat::lemma_range(i as nat);
    let r = lemma_way_up(t, i, flat::first_of(i as nat));
    lemma_its_root(t, r);
    assert(t.nodes.contains_key(i));
}

/// Trees that lack no node, and have the same ones below `n`, have the same hash there.
proof fn lemma_same_below(t: Tree, u: Tree, n: u64)
    requires
        t.intact(),
        u.intact(),
        n <= t.length < MAX_BLOCKS,
        n <= u.length,
        forall|i: u64|
            flat::complete(i as nat, n as nat) ==> #[trigger] u.nodes[i] == t.nodes[i],
    ensures
        u.prefix_hash(n) == t.prefix_hash(n),
        t.prefix_hash(n) is Some,
        u.roots_at(n as nat) == t.roots_at(n as nat),
{
    let idx = flat::roots_of(n as nat);
    flat::lemma_roots(n as nat);
    assert forall|k: int| 0 <= k < idx.len() implies {
        &&& t.nodes.contains_key(#[trigger] idx[k] as u64)
        &&& u.nodes.contains_key(idx[k] as u64)
        &&& t.nodes[idx[k] as u64] == u.nodes[idx[k] as u64]
    } by {
        let r = idx[k];
        assert(flat::is_root(r, n as nat));
        flat::lemma_word(r);
        assert(flat::complete((r as u64) as nat, n as nat));
        assert(u.nodes[r as u64] == t.nodes[r as u64]);
    }
    assert(u.roots_at(n as nat) =~= t.roots_at(n as nat));
}

proof fn lemma_bisect_edge(agree: spec_fn(u64) -> bool, lo: u64, hi: u64, max: u64)
    requires
        lo <= hi <= max,
        agree(lo),
        hi < max ==> !agree((hi + 1) as u64),
    ensures
        ({
            let c = bisect(agree, lo, hi);
            &&& lo <= c <= hi
            &&& agree(c)
            &&& c < max ==> !agree((c + 1) as u64)
        }),
    decreases hi - lo,
{
    if lo < hi {
        let mid = (lo + (hi - lo + 1) / 2) as u64;
        if agree(mid) {
            lemma_bisect_edge(agree, mid, hi, max);
        } else {
            lemma_bisect_edge(agree, lo, (mid - 1) as u64, max);
        }
    }
}

/// Whether two trees that agree at a length agree at every shorter one.
pub open spec fn nested(t: Tree, u: Tree) -> bool {
    forall|m: u64, n: u64|
        m <= n && #[trigger] t.agrees(u, n) ==> #[trigger] t.agrees(u, m)
}

/// The lowest common ancestor of any two trees is a length at which they have one root
/// hash, and at the next length, if both go on, they do not. If trees that agree at a length
/// agree at all shorter ones, it is the longest at which they do.
pub proof fn law_ancestor_edge(t: Tree, u: Tree)
    ensures
        ({
            let c = t.ancestor(u);
            &&& c <= t.length && c <= u.length
            &&& t.agrees(u, c)
            &&& c < t.length && c < u.length ==> !t.agrees(u, (c + 1) as u64)
            &&& nested(t, u) ==> forall|n: u64|
                n <= t.length && n <= u.length ==> (#[trigger] t.agrees(u, n) <==> n <= c)
        }),
{
    let max = if t.length <= u.length {
        t.length
    } else {
        u.length
    };
    let agree = |n: u64| t.agrees(u, n);
    lemma_bisect_edge(agree, 0, max, max);
}

/// Whether `s` has what is hashed for the inner nodes of a tree, and for the root hash of
/// each of its prefixes.
pub open spec fn has_inner(s: Set<Seq<u8>>, t: Tree) -> bool {
    &&& forall|i: u64| #[trigger]
        flat::complete(i as nat, t.length as nat) && flat::depth_of(i as nat) > 0 ==> s.contains(
            parent_bytes(
                t.nodes[flat::left_of(i as nat) as u64],
                t.nodes[flat::right_of(i as nat) as u64],
            ),
        )
    &&& forall|n: nat| n <= t.length ==> s.contains(tree_bytes(#[trigger] t.roots_at(n)))
}

/// The children of a node that a tree has are there, the left one first.
proof fn lemma_brood(t: Tree, i: nat)
    requires
        t.intact(),
        t.keyed(),
        t.length < MAX_BLOCKS,
        flat::complete(i, t.length as nat),
        flat::depth_of(i) > 0,
    ensures
        ({
            let l = flat::left_of(i);
            let r = flat::right_of(i);
            &&& l < r < u64::MAX
            &&& i < u64::MAX
            &&& flat::complete(l, t.length as nat)
            &&& flat::complete(r, t.length as nat)
            &&& t.nodes[l as u64].index == l
            &&& t.nodes[r as u64].index == r
            &&& flat::parent_of(l) == i && flat::parent_of(r) == i
            &&& flat::depth_of(l) == flat::depth_of(i) - 1
            &&& flat::depth_of(r) == flat::depth_of(i) - 1
            &&& flat::first_of(l) == flat::first_of(i)
            &&& flat::end_of(l) == flat::first_of(r)
            &&& flat::end_of(r) == flat::end_of(i)
        }),
{
    let l = flat::left_of(i);
    let r = flat::right_of(i);
    flat::lemma_children_of(i);
    flat::lemma_children(i);
    flat::lemma_range(r);
    flat::lemma_word(i);
    flat::lemma_word(l);
    flat::lemma_word(r);
    assert(flat::complete((l as u64) as nat, t.length as nat));
    assert(flat::complete((r as u64) as nat, t.length as nat));
    assert(t.nodes.contains_key(l as u64) && t.nodes.contains_key(r as u64));
}

/// One node in two trees means the same leaves below it.
proof fn lemma_same_leaves(t: Tree, u: Tree, i: nat, s: Set<Seq<u8>>)
    requires
        t.intact(),
        u.intact(),
        t.keyed(),
        u.keyed(),
        linked(t),
        linked(u),
        t.length < MAX_BLOCKS,
        u.length < MAX_BLOCKS,
        apart(s),
        has_inner(s, t),
        has_inner(s, u),
        flat::complete(i, t.length as nat),
        flat::complete(i, u.length as nat),
        t.nodes[i as u64] == u.nodes[i as u64],
    ensures
        forall|k: nat|
            flat::first_of(i) <= k < flat::end_of(i) ==> t.nodes[#[trigger] (2 * k) as u64]
                == u.nodes[(2 * k) as u64],
    decreases flat::depth_of(i),
{
    if flat::depth_of(i) == 0 {
        flat::lemma_coords(i);
        flat::lemma_leaf(flat::offset_of(i));
    } else {
        let l = flat::left_of(i);
        let r = flat::right_of(i);
        lemma_brood(t, i);
        lemma_brood(u, i);
        assert(linked_at(t, i as u64) && linked_at(u, i as u64));
        let x = parent_bytes(t.nodes[l as u64], t.nodes[r as u64]);
        let y = parent_bytes(u.nodes[l as u64], u.nodes[r as u64]);
        assert(s.contains(x) && s.contains(y));
        assert(digest(x) == digest(y));
        lemma_parent_bytes(
            t.nodes[l as u64],
            t.nodes[r as u64],
            u.nodes[l as u64],
            u.nodes[r as u64],
        );
        lemma_same_leaves(t, u, l, s);
        lemma_same_leaves(t, u, r, s);
    }
}

/// The same leaves below a node make it the same in two trees.
proof fn lemma_same_node(t: Tree, u: Tree, i: nat)
    requires
        t.intact(),
        u.intact(),
        t.keyed(),
        u.keyed(),
        linked(t),
        linked(u),
        t.length < MAX_BLOCKS,
        u.length < MAX_BLOCKS,
        flat::complete(i, t.length as nat),
        flat::complete(i, u.length as nat),
        forall|k: nat|
            flat::first_of(i) <= k < flat::end_of(i) ==> t.nodes[#[trigger] (2 * k) as u64]
                == u.nodes[(2 * k) as u64],
    ensures
        t.nodes[i as u64] == u.nodes[i as u64],
    decreases flat::depth_of(i),
{
    if flat::depth_of(i) == 0 {
        let k = flat::offset_of(i);
        flat::lemma_coords(i);
        flat::lemma_leaf(k);
        assert(t.nodes[(2 * k) as u64] == u.nodes[(2 * k) as u64]);
    } else {
        lemma_brood(t, i);
        lemma_brood(u, i);
        flat::lemma_range(flat::left_of(i));
        flat::lemma_range(flat::right_of(i));
        assert(linked_at(t, i as u64) && linked_at(u, i as u64));
        lemma_same_node(t, u, flat::left_of(i));
        lemma_same_node(t, u, flat::right_of(i));
    }
}

/// Whether the leaves of the first `n` blocks are the same in two trees.
pub open spec fn same_leaves(t: Tree, u: Tree, n: u64) -> bool {
    forall|k: nat| k < n ==> t.nodes[#[trigger] (2 * k) as u64] == u.nodes[(2 * k) as u64]
}

/// Trees that lack no node, each inner one the parent of its children, agree on a length
/// if and only if they have the same leaves up to it.
proof fn lemma_agree(t: Tree, u: Tree, n: u64, s: Set<Seq<u8>>)
    requires
        t.intact(),
        u.intact(),
        t.keyed(),
        u.keyed(),
        linked(t),
        linked(u),
        t.length < MAX_BLOCKS,
        u.length < MAX_BLOCKS,
        apart(s),
        has_inner(s, t),
        has_inner(s, u),
        n <= t.length,
        n <= u.length,
    ensures
        t.agrees(u, n) <==> same_leaves(t, u, n),
{
    let idx = flat::roots_of(n as nat);
    flat::lemma_roots(n as nat);
    if t.agrees(u, n) && n > 0 {
        let p = t.roots_at(n as nat);
        let q = u.roots_at(n as nat);
        assert(s.contains(tree_bytes(p)) && s.contains(tree_bytes(q)));
        assert(digest(tree_bytes(p)) == digest(tree_bytes(q)));
        assert(tree_bytes(p).skip(1) =~= roots_bytes(p));
        assert(tree_bytes(q).skip(1) =~= roots_bytes(q));
        lemma_roots_injective(p, q);
        assert forall|k: nat| k < n implies t.nodes[#[trigger] (2 * k) as u64]
            == u.nodes[(2 * k) as u64] by {
            let j = flat::lemma_root_over(n as nat, k);
            let i = idx[j];
            assert(flat::is_root(i, n as nat));
            assert(p[j] == q[j]);
            lemma_same_leaves(t, u, i, s);
        }
    }
    if same_leaves(t, u, n) {
        assert forall|i: u64| flat::complete(i as nat, n as nat) implies #[trigger] u.nodes[i]
            == t.nodes[i] by {
            flat::lemma_range(i as nat);
            lemma_same_node(t, u, i as nat);
        }
        lemma_same_below(t, u, n);
    }
}

/// The lowest common ancestor of two trees that lack no node, each inner one the parent of
/// its children, is the longest prefix whose leaves they share, and the longest on which
/// they have one root hash, where BLAKE3 tells the inputs `s` apart and all that is hashed
/// above the leaves of the two is among them.
pub proof fn law_ancestor_gapless(t: Tree, u: Tree, n: u64, s: Set<Seq<u8>>)
    requires
        t.intact(),
        u.intact(),
        t.keyed(),
        u.keyed(),
        linked(t),
        linked(u),
        t.length < MAX_BLOCKS,
        u.length < MAX_BLOCKS,
        apart(s),
        has_inner(s, t),
        has_inner(s, u),
        n <= t.length,
        n <= u.length,
    ensures
        t.agrees(u, n) <==> n <= t.ancestor(u),
        same_leaves(t, u, n) <==> n <= t.ancestor(u),
{
    let c = t.ancestor(u);
    law_ancestor_edge(t, u);
    lemma_agree(t, u, n, s);
    lemma_agree(t, u, c, s);
    if c < t.length && c < u.length {
        lemma_agree(t, u, (c + 1) as u64, s);
        if n > c && same_leaves(t, u, n) {
            assert(same_leaves(t, u, (c + 1) as u64));
        }
    }
}

/// A tree reorganized to follow one that lacks no node has that tree's nodes, and so its
/// root hash and that of each prefix; where it held nothing beyond its own length, it is
/// that tree.
pub proof fn law_reorg_gapless(t: Tree, u: Tree)
    requires
        u.intact(),
        u.length < MAX_BLOCKS,
    ensures
        ({
            let r = Tree {
                nodes: t.truncated(t.ancestor(u)).nodes.union_prefer_right(u.nodes),
                length: u.length,
            };
            &&& r.intact()
            &&& u.nodes.submap_of(r.nodes)
            &&& r.root_hash() == u.root_hash()
            &&& forall|n: u64| n <= u.length ==> #[trigger] r.prefix_hash(n) == u.prefix_hash(n)
            &&& tight(t) ==> r == u
        }),
{
    let c = t.ancestor(u);
    let less = t.truncated(c);
    let r = Tree { nodes: less.nodes.union_prefer_right(u.nodes), length: u.length };
    law_ancestor_edge(t, u);
    assert forall|n: u64| n <= u.length implies #[trigger] r.prefix_hash(n) == u.prefix_hash(n) by {
        lemma_same_below(u, r, n);
    }
    lemma_same_below(u, r, u.length);
    if tight(t) {
        assert forall|i: u64| #[trigger] r.nodes.contains_key(i) implies u.nodes.contains_key(
            i,
        ) by {
            if less.nodes.contains_key(i) {
                assert(t.nodes.contains_key(i));
                flat::lemma_range(i as nat);
                assert(flat::complete(i as nat, u.length as nat));
            }
        }
        assert(r.nodes =~= u.nodes);
    }
}

} // verus!
