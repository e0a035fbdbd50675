//! Reading and writing the tree.
use vstd::prelude::*;
use super::node::{
    law_node, lemma_node_size, lemma_bulk_append, lemma_bulk_one, node_bytes, pairs_view,
    parsed_node, bulk, larger, pair_bulk, small, Node, NodeCodec, NodeView,
};
use super::order::{
    drop_from, lemma_around, lemma_around_entry, lemma_entries_sorted, lemma_find_between,
    lemma_put_at, lemma_put_between, lemma_put_map, lemma_sorted_parts, put_in,
};
use super::shape::{
    after, before, depth, extends, grown, height, kids, lemma_add, lemma_block, lemma_listing_same,
    lemma_sits_on, lemma_spread_same, lemma_weave_at, lemma_weave_bare, lemma_weave_insert,
    lemma_weave_pair, lemma_weave_split, lemma_weave_update, lemma_weave_update_pair,
    lemma_bulk_parts, lemma_bulk_stretch, listing, may_stand, sits, sits_but, spread, weave,
    Forest, MAX_CHILDREN, MIN_KEYS,
};
use super::{all_blocks, all_nodes, fits_upto, forest, room, Error, Hyperbee};
use crate::bytemap::{bytes_less, bytes_lt, keyed_by, lemma_lookup, lemma_lt_total, map_of, sorted, Pairs};
use crate::bytes::{copy_of, same_bytes};
use crate::codec::Codec;
use crate::hypercore::laws::{held, law_append, law_new};
use crate::hypercore::{Hypercore, Log};
use crate::identity::SecretKey;
use crate::merkle::laws::lemma_bytes_same;
use crate::merkle::MAX_BLOCKS;
use crate::storage::Store;

verus! {

broadcast use super::stalled::group_stalled;

/// What became of a subtree that a key was put into: it was rewritten, or it was split
/// around an entry that moves up.
enum Ins {
    Down(u64),
    Split { left: u64, median: (Vec<u8>, Vec<u8>), right: u64 },
}

/// Whether `ins` says where `list` stands in a forest of `len` blocks: at the latest
/// block, which has at least `least` entries, or around an entry at two blocks.
spec fn lands(f: Forest, len: u64, ins: Ins, list: Pairs, high: nat, least: nat) -> bool {
    match ins {
        Ins::Down(s) => {
            &&& s == len - 1
            &&& listing(f, s) == list
            &&& height(f, s) == high
            &&& f[s].entries.len() >= least
        },
        Ins::Split { left, median, right } => {
            &&& left < len
            &&& right == len - 1
            &&& height(f, left) == high
            &&& height(f, right) == high
            &&& f[left].entries.len() >= MIN_KEYS
            &&& f[right].entries.len() >= MIN_KEYS
            &&& listing(f, left) + seq![(median.0@, median.1@)] + listing(f, right) == list
        },
    }
}

/// Where `key` is, or belongs, among entries.
pub(crate) fn search(entries: &Vec<(Vec<u8>, Vec<u8>)>, key: &[u8]) -> (r: (bool, usize))
    ensures
        r.1 <= entries@.len(),
        forall|j: int| 0 <= j < r.1 ==> bytes_lt((#[trigger] pairs_view(entries@)[j]).0, key@),
        r.0 ==> r.1 < entries@.len() && pairs_view(entries@)[r.1 as int].0 == key@,
        !r.0 && r.1 < entries@.len() ==> bytes_lt(key@, pairs_view(entries@)[r.1 as int].0),
{
    let mut i: usize = 0;
    while i < entries.len()
        invariant
            i <= entries@.len(),
            forall|j: int| 0 <= j < i ==> bytes_lt((#[trigger] pairs_view(entries@)[j]).0, key@),
        decreases entries.len() - i,
    {
        assert(pairs_view(entries@)[i as int].0 == entries@[i as int].0@);
        if !bytes_less(entries[i].0.as_slice(), key) {
            proof {
                lemma_lt_total(entries@[i as int].0@, key@);
            }
            return (same_bytes(entries[i].0.as_slice(), key), i);
        }
        i = i + 1;
    }
    (false, i)
}

/// Lengths of byte vectors fit in 64 bits.
pub proof fn lemma_small(entries: Seq<(Vec<u8>, Vec<u8>)>)
    ensures
        small(pairs_view(entries)),
{
    assert forall|i: int| 0 <= i < pairs_view(entries).len() implies (#[trigger] pairs_view(
        entries,
    )[i]).0.len() <= u64::MAX && pairs_view(entries)[i].1.len() <= u64::MAX by {
        assert(entries[i].0.len() <= usize::MAX);
        assert(entries[i].1.len() <= usize::MAX);
    }
}

/// The entries of a node before entry `mid`, with their children.
pub open spec fn left_part(n: NodeView, mid: int) -> NodeView {
    NodeView {
        entries: n.entries.take(mid),
        children: if n.is_leaf() {
            n.children
        } else {
            n.children.take(mid + 1)
        },
    }
}

/// The entries of a node after entry `mid`, with their children.
pub open spec fn right_part(n: NodeView, mid: int) -> NodeView {
    NodeView {
        entries: n.entries.skip(mid + 1),
        children: if n.is_leaf() {
            n.children
        } else {
            n.children.skip(mid + 1)
        },
    }
}

/// What the parts of a node around entry `mid` are.
pub proof fn lemma_cut(f: Forest, len: u64, n: NodeView, mid: int)
    requires
        0 <= mid < n.entries.len(),
        sits(f, n, len),
    ensures
        sits(f, left_part(n, mid), len),
        sits(f, right_part(n, mid), len),
        spread(f, n) == spread(f, left_part(n, mid)) + seq![n.entries[mid]] + spread(
            f,
            right_part(n, mid),
        ),
        bulk(spread(f, left_part(n, mid))) <= bulk(spread(f, n)),
        bulk(spread(f, right_part(n, mid))) <= bulk(spread(f, n)),
        depth(f, left_part(n, mid)) == depth(f, n),
        depth(f, right_part(n, mid)) == depth(f, n),
        n.entries[mid].0.len() <= u64::MAX,
        n.entries[mid].1.len() <= u64::MAX,
{
    reveal(sits_but);
    let k = kids(f, n);
    let left = left_part(n, mid);
    let right = right_part(n, mid);
    assert(kids(f, left) =~= k.take(mid + 1));
    assert(kids(f, right) =~= k.skip(mid + 1));
    lemma_weave_split(n.entries, k, mid);
    let l = spread(f, left);
    let m = seq![n.entries[mid]];
    let r = spread(f, right);
    lemma_sorted_parts(l, m, r);
    lemma_bulk_stretch(l, m, r);
    assert(small(left.entries)) by {
        assert forall|i: int| 0 <= i < left.entries.len() implies (#[trigger] left.entries[i]).0.len()
            <= u64::MAX && left.entries[i].1.len() <= u64::MAX by {
            assert(left.entries[i] == n.entries[i]);
        }
    }
    assert(small(right.entries)) by {
        assert forall|i: int| 0 <= i < right.entries.len() implies (
        #[trigger] right.entries[i]).0.len() <= u64::MAX && right.entries[i].1.len()
            <= u64::MAX by {
            assert(right.entries[i] == n.entries[i + mid + 1]);
        }
    }
    assert forall|j: int| 0 <= j < left.children.len() implies {
        let c = #[trigger] left.children[j];
        &&& c < len
        &&& height(f, c) == height(f, left.children[0])
        &&& f[c].entries.len() >= MIN_KEYS
    } by {
        assert(left.children[j] == n.children[j]);
        assert(left.children[0] == n.children[0]);
    }
    assert forall|j: int| 0 <= j < right.children.len() implies {
        let c = #[trigger] right.children[j];
        &&& c < len
        &&& height(f, c) == height(f, right.children[0])
        &&& f[c].entries.len() >= MIN_KEYS
    } by {
        assert(right.children[j] == n.children[j + mid + 1]);
        assert(right.children[0] == n.children[mid + 1]);
    }
    if !n.is_leaf() {
        assert(left.children[0] == n.children[0]);
        assert(right.children[0] == n.children[mid + 1]);
    }
}

/// A node with child `i` at another block.
pub open spec fn with_child(n: NodeView, i: int, c: u64) -> NodeView {
    NodeView { entries: n.entries, children: n.children.update(i, c) }
}

/// Putting another block in place of child `i`, as high as that one.
pub proof fn lemma_swap_child(
    f: Forest,
    len: u64,
    n: NodeView,
    was_slack: int,
    i: int,
    g: Forest,
    more: u64,
    c: u64,
    slack: int,
)
    requires
        sits_but(f, n, len, was_slack),
        was_slack == -1 || was_slack == i,
        extends(f, len, g, more),
        0 <= i < n.children.len(),
        c < more,
        height(g, c) == height(f, n.children[i]),
        slack == -1 || slack == i,
        g[c].entries.len() >= if slack == i {
            MIN_KEYS - 1
        } else {
            MIN_KEYS as int
        },
        sorted(weave(n.entries, kids(f, n).update(i, listing(g, c)))),
    ensures
        sits_but(g, with_child(n, i, c), more, slack),
        kids(g, with_child(n, i, c)) == kids(f, n).update(i, listing(g, c)),
        depth(g, with_child(n, i, c)) == depth(f, n),
{
    reveal(sits_but);
    reveal(extends);
    let m = with_child(n, i, c);
    lemma_spread_same(f, len, g, more, n);
    assert forall|j: int| 0 <= j < n.children.len() implies height(f, #[trigger] n.children[j])
        == height(f, n.children[0]) by {}
    let a = kids(g, m);
    let b = kids(f, n).update(i, listing(g, c));
    assert forall|j: int| 0 <= j < a.len() implies a[j] == b[j] by {
        if j != i {
            assert(m.children[j] == n.children[j]);
            assert(kids(g, n)[j] == kids(f, n)[j]);
        }
    }
    assert(a =~= b);
    assert forall|j: int| 0 <= j < m.children.len() implies {
        let d = #[trigger] m.children[j];
        &&& d < more
        &&& height(g, d) == height(g, m.children[0])
        &&& g[d].entries.len() >= if j == slack {
            MIN_KEYS - 1
        } else {
            MIN_KEYS as int
        }
    } by {
        if j != i {
            assert(m.children[j] == n.children[j]);
            assert(height(g, n.children[j]) == height(f, n.children[j]));
        }
        if i != 0 {
            assert(m.children[0] == n.children[0]);
            assert(height(g, n.children[0]) == height(f, n.children[0]));
        }
    }
}

/// A node with child `i` split around an entry.
spec fn with_split(n: NodeView, i: int, l: u64, e: (Seq<u8>, Seq<u8>), r: u64) -> NodeView {
    NodeView {
        entries: n.entries.insert(i, e),
        children: n.children.update(i, l).insert(i + 1, r),
    }
}

/// Putting two blocks around an entry in place of child `i`, both as high as that one.
proof fn lemma_split_child(
    f: Forest,
    len: u64,
    n: NodeView,
    i: int,
    g: Forest,
    more: u64,
    l: u64,
    e: (Seq<u8>, Seq<u8>),
    r: u64,
)
    requires
        sits(f, n, len),
        extends(f, len, g, more),
        0 <= i < n.children.len(),
        l < more,
        r < more,
        height(g, l) == height(f, n.children[i]),
        height(g, r) == height(f, n.children[i]),
        g[l].entries.len() >= MIN_KEYS,
        g[r].entries.len() >= MIN_KEYS,
        e.0.len() <= u64::MAX,
        e.1.len() <= u64::MAX,
        sorted(
            weave(
                n.entries.insert(i, e),
                kids(f, n).update(i, listing(g, l)).insert(i + 1, listing(g, r)),
            ),
        ),
    ensures
        sits(g, with_split(n, i, l, e, r), more),
        kids(g, with_split(n, i, l, e, r)) == kids(f, n).update(i, listing(g, l)).insert(
            i + 1,
            listing(g, r),
        ),
        depth(g, with_split(n, i, l, e, r)) == depth(f, n),
{
    reveal(sits_but);
    reveal(extends);
    let m = with_split(n, i, l, e, r);
    lemma_spread_same(f, len, g, more, n);
    assert forall|j: int| 0 <= j < n.children.len() implies height(f, #[trigger] n.children[j])
        == height(f, n.children[0]) by {}
    let a = kids(g, m);
    let b = kids(f, n).update(i, listing(g, l)).insert(i + 1, listing(g, r));
    assert forall|j: int| 0 <= j < a.len() implies a[j] == b[j] by {
        if j < i {
            assert(m.children[j] == n.children[j]);
            assert(kids(g, n)[j] == kids(f, n)[j]);
        } else if j > i + 1 {
            assert(m.children[j] == n.children[j - 1]);
            assert(kids(g, n)[j - 1] == kids(f, n)[j - 1]);
        }
    }
    assert(a =~= b);
    assert forall|j: int| 0 <= j < m.children.len() implies {
        let d = #[trigger] m.children[j];
        &&& d < more
        &&& height(g, d) == height(g, m.children[0])
        &&& g[d].entries.len() >= MIN_KEYS
    } by {
        if j < i {
            assert(m.children[j] == n.children[j]);
        } else if j > i + 1 {
            assert(m.children[j] == n.children[j - 1]);
        }
        if i != 0 {
            assert(m.children[0] == n.children[0]);
        }
    }
    assert forall|j: int| 0 <= j < m.entries.len() implies (#[trigger] m.entries[j]).0.len()
        <= u64::MAX && m.entries[j].1.len() <= u64::MAX by {
        if j < i {
            assert(m.entries[j] == n.entries[j]);
        } else if j > i {
            assert(m.entries[j] == n.entries[j - 1]);
        }
    }
}

/// A leaf with one more entry.
proof fn lemma_leaf_insert(
    f: Forest,
    len: u64,
    n: NodeView,
    i: int,
    k: Seq<u8>,
    v: Seq<u8>,
)
    requires
        sits(f, n, len),
        n.is_leaf(),
        0 <= i <= n.entries.len(),
        i > 0 ==> bytes_lt(n.entries[i - 1].0, k),
        i < n.entries.len() ==> bytes_lt(k, n.entries[i].0),
        k.len() <= u64::MAX,
        v.len() <= u64::MAX,
    ensures
        ({
            let m = NodeView { entries: n.entries.insert(i, (k, v)), children: n.children };
            &&& sits(f, m, len)
            &&& spread(f, m) == put_in(spread(f, n), k, v)
        }),
{
    reveal(sits_but);
    reveal(put_in);
    let m = NodeView { entries: n.entries.insert(i, (k, v)), children: n.children };
    let q = kids(f, n);
    let e = Seq::<(Seq<u8>, Seq<u8>)>::empty();
    lemma_around(n.entries, q, i, k);
    lemma_weave_at(n.entries, q, i);
    let b = before(n.entries, q, i);
    let a = after(n.entries, q, i);
    assert(q[i] =~= e);
    lemma_put_between(b, q[i], a, k, v);
    lemma_weave_insert(n.entries, q, i, e, (k, v), e);
    assert(kids(f, m) =~= q.update(i, e).insert(i + 1, e));
    assert(e + seq![(k, v)] + e =~= put_in(q[i], k, v));
    lemma_put_map(spread(f, n), k, v);
    assert forall|j: int| 0 <= j < m.entries.len() implies (#[trigger] m.entries[j]).0.len()
        <= u64::MAX && m.entries[j].1.len() <= u64::MAX by {
        if j < i {
            assert(m.entries[j] == n.entries[j]);
        } else if j > i {
            assert(m.entries[j] == n.entries[j - 1]);
        }
    }
}

/// A node with another value under the key of entry `i`.
proof fn lemma_overwrite(f: Forest, len: u64, n: NodeView, i: int, v: Seq<u8>)
    requires
        sits(f, n, len),
        0 <= i < n.entries.len(),
        v.len() <= u64::MAX,
    ensures
        ({
            let k = n.entries[i].0;
            let m = NodeView { entries: n.entries.update(i, (k, v)), children: n.children };
            &&& sits(f, m, len)
            &&& spread(f, m) == put_in(spread(f, n), k, v)
            &&& depth(f, m) == depth(f, n)
        }),
{
    reveal(sits_but);
    let k = n.entries[i].0;
    let m = NodeView { entries: n.entries.update(i, (k, v)), children: n.children };
    let q = kids(f, n);
    lemma_around_entry(n.entries, q, i);
    let a = before(n.entries, q, i) + q[i];
    let z = q[i + 1] + after(n.entries, q, i + 1);
    lemma_put_at(a, n.entries[i], z, v);
    lemma_weave_update_pair(n.entries, q, i, q[i], (k, v), q[i + 1]);
    assert(q.update(i, q[i]).update(i + 1, q[i + 1]) =~= q);
    assert(kids(f, m) =~= q);
    let b = before(n.entries, q, i);
    let c = after(n.entries, q, i + 1);
    assert(b + (q[i] + seq![(k, v)] + q[i + 1]) + c =~= a + seq![(k, v)] + z);
    lemma_put_map(spread(f, n), k, v);
    assert forall|j: int| 0 <= j < m.entries.len() implies (#[trigger] m.entries[j]).0.len()
        <= u64::MAX && m.entries[j].1.len() <= u64::MAX by {
        assert(j != i ==> m.entries[j] == n.entries[j]);
        assert(n.entries[j].0.len() <= u64::MAX);
    }
}

/// Putting in takes no more than what was there and the new pair.
pub proof fn lemma_put_bulk(s: Pairs, k: Seq<u8>, v: Seq<u8>)
    ensures
        bulk(put_in(s, k, v)) <= larger(bulk(s), pair_bulk((k, v))),
        bulk(drop_from(s, k)) <= bulk(s),
    decreases s.len(),
{
    reveal(put_in);
    reveal(drop_from);
    lemma_bulk_one((k, v));
    if s.len() > 0 {
        let rest = s.skip(1);
        assert(s =~= seq![s[0]] + rest);
        lemma_bulk_append(seq![s[0]], rest);
        lemma_bulk_append(seq![s[0]], put_in(rest, k, v));
        lemma_bulk_append(seq![s[0]], drop_from(rest, k));
        lemma_bulk_append(seq![(k, v)], rest);
        lemma_bulk_append(seq![(k, v)], s);
        lemma_put_bulk(rest, k, v);
    }
}

/// What is below child `i` of a block.
pub proof fn lemma_child(f: Forest, len: u64, seq: u64, i: int)
    requires
        grown(f, len),
        seq < len,
        0 <= i < f[seq].children.len(),
    ensures
        f[seq].children.len() == f[seq].entries.len() + 1,
        f[seq].children[i] < seq,
        height(f, f[seq].children[i]) + 1 == height(f, seq),
        f[f[seq].children[i]].entries.len() >= MIN_KEYS,
        bulk(listing(f, f[seq].children[i])) <= bulk(listing(f, seq)),
        kids(f, f[seq])[i] == listing(f, f[seq].children[i]),
        sorted(listing(f, f[seq].children[i])),
{
    reveal(sits_but);
    reveal(weave);
    lemma_block(f, len, seq);
    lemma_bulk_parts(f[seq].entries, kids(f, f[seq]), i);
    lemma_block(f, len, f[seq].children[i]);
}

/// Overwriting the value of an entry of a block.
proof fn lemma_found(f: Forest, len: u64, seq: u64, i: int, v: Seq<u8>)
    requires
        grown(f, len),
        seq < len,
        0 <= i < f[seq].entries.len(),
        v.len() <= u64::MAX,
    ensures
        ({
            let n = f[seq];
            let k = n.entries[i].0;
            let m = NodeView { entries: n.entries.update(i, (k, v)), children: n.children };
            &&& may_stand(f, m, len)
            &&& spread(f, m) == put_in(listing(f, seq), k, v)
            &&& depth(f, m) == height(f, seq)
        }),
{
    lemma_block(f, len, seq);
    lemma_overwrite(f, len, f[seq], i, v);
}

/// Putting a new entry into a leaf block.
proof fn lemma_new_entry(f: Forest, len: u64, seq: u64, i: int, k: Seq<u8>, v: Seq<u8>)
    requires
        grown(f, len),
        seq < len,
        f[seq].is_leaf(),
        0 <= i <= f[seq].entries.len(),
        i > 0 ==> bytes_lt(f[seq].entries[i - 1].0, k),
        i < f[seq].entries.len() ==> bytes_lt(k, f[seq].entries[i].0),
        k.len() <= u64::MAX,
        v.len() <= u64::MAX,
    ensures
        ({
            let n = f[seq];
            let m = NodeView { entries: n.entries.insert(i, (k, v)), children: n.children };
            &&& sits(f, m, len)
            &&& m.entries.len() <= MAX_CHILDREN
            &&& m.entries.len() == n.entries.len() + 1
            &&& spread(f, m) == put_in(listing(f, seq), k, v)
            &&& depth(f, m) == height(f, seq)
        }),
{
    lemma_block(f, len, seq);
    lemma_leaf_insert(f, len, f[seq], i, k, v);
}

/// A block whose child `i` was rewritten with a key put in.
proof fn lemma_down(
    f: Forest,
    len: u64,
    seq: u64,
    i: int,
    k: Seq<u8>,
    v: Seq<u8>,
    g: Forest,
    more: u64,
    c: u64,
)
    requires
        grown(f, len),
        seq < len,
        extends(f, len, g, more),
        0 <= i < f[seq].children.len(),
        i > 0 ==> bytes_lt(f[seq].entries[i - 1].0, k),
        i < f[seq].entries.len() ==> bytes_lt(k, f[seq].entries[i].0),
        c < more,
        listing(g, c) == put_in(listing(f, f[seq].children[i]), k, v),
        height(g, c) == height(f, f[seq].children[i]),
        g[c].entries.len() >= MIN_KEYS,
    ensures
        may_stand(g, with_child(f[seq], i, c), more),
        spread(g, with_child(f[seq], i, c)) == put_in(listing(f, seq), k, v),
        depth(g, with_child(f[seq], i, c)) == height(f, seq),
{
    let n = f[seq];
    let q = kids(f, n);
    lemma_child(f, len, seq, i);
    lemma_block(f, len, seq);
    lemma_around(n.entries, q, i, k);
    lemma_weave_at(n.entries, q, i);
    lemma_put_between(before(n.entries, q, i), q[i], after(n.entries, q, i), k, v);
    lemma_put_map(listing(f, seq), k, v);
    lemma_weave_update(n.entries, q, i, listing(g, c));
    lemma_swap_child(f, len, n, -1, i, g, more, c, -1);
}

/// A block whose child `i` was split with a key put in.
proof fn lemma_up(
    f: Forest,
    len: u64,
    seq: u64,
    i: int,
    k: Seq<u8>,
    v: Seq<u8>,
    g: Forest,
    more: u64,
    l: u64,
    e: (Seq<u8>, Seq<u8>),
    r: u64,
)
    requires
        grown(f, len),
        seq < len,
        extends(f, len, g, more),
        0 <= i < f[seq].children.len(),
        i > 0 ==> bytes_lt(f[seq].entries[i - 1].0, k),
        i < f[seq].entries.len() ==> bytes_lt(k, f[seq].entries[i].0),
        l < more,
        r < more,
        listing(g, l) + seq![e] + listing(g, r) == put_in(listing(f, f[seq].children[i]), k, v),
        height(g, l) == height(f, f[seq].children[i]),
        height(g, r) == height(f, f[seq].children[i]),
        g[l].entries.len() >= MIN_KEYS,
        g[r].entries.len() >= MIN_KEYS,
        e.0.len() <= u64::MAX,
        e.1.len() <= u64::MAX,
    ensures
        sits(g, with_split(f[seq], i, l, e, r), more),
        with_split(f[seq], i, l, e, r).entries.len() == f[seq].entries.len() + 1,
        f[seq].entries.len() + 1 <= MAX_CHILDREN,
        spread(g, with_split(f[seq], i, l, e, r)) == put_in(listing(f, seq), k, v),
        depth(g, with_split(f[seq], i, l, e, r)) == height(f, seq),
{
    let n = f[seq];
    let q = kids(f, n);
    lemma_child(f, len, seq, i);
    lemma_block(f, len, seq);
    lemma_around(n.entries, q, i, k);
    lemma_weave_at(n.entries, q, i);
    lemma_put_between(before(n.entries, q, i), q[i], after(n.entries, q, i), k, v);
    lemma_put_map(listing(f, seq), k, v);
    lemma_weave_insert(n.entries, q, i, listing(g, l), e, listing(g, r));
    lemma_split_child(f, len, n, i, g, more, l, e, r);
}

/// A new root over the halves of a split one.
proof fn lemma_new_root(f: Forest, len: u64, l: u64, e: (Seq<u8>, Seq<u8>), r: u64)
    requires
        l < len,
        r < len,
        sorted(listing(f, l) + seq![e] + listing(f, r)),
        height(f, l) == height(f, r),
        f[l].entries.len() >= MIN_KEYS,
        f[r].entries.len() >= MIN_KEYS,
        e.0.len() <= u64::MAX,
        e.1.len() <= u64::MAX,
    ensures
        ({
            let n = NodeView { entries: seq![e], children: seq![l, r] };
            may_stand(f, n, len) && spread(f, n) == listing(f, l) + seq![e] + listing(f, r)
        }),
{
    reveal(sits_but);
    let n = NodeView { entries: seq![e], children: seq![l, r] };
    let k = kids(f, n);
    assert(k =~= seq![listing(f, l), listing(f, r)]);
    lemma_weave_pair(n.entries, k, 0);
    assert(before(n.entries, k, 0) =~= Seq::empty());
    assert(after(n.entries, k, 1) =~= Seq::empty());
    assert(spread(f, n) =~= listing(f, l) + seq![e] + listing(f, r));
}

/// The first leaf.
proof fn lemma_first_leaf(f: Forest, len: u64, k: Seq<u8>, v: Seq<u8>)
    requires
        k.len() <= u64::MAX,
        v.len() <= u64::MAX,
    ensures
        ({
            let n = NodeView { entries: seq![(k, v)], children: Seq::empty() };
            may_stand(f, n, len) && spread(f, n) == seq![(k, v)] && seq![(k, v)] == put_in(
                Seq::empty(),
                k,
                v,
            )
        }),
{
    reveal(sits_but);
    reveal(put_in);
    let n = NodeView { entries: seq![(k, v)], children: Seq::empty() };
    lemma_weave_bare(n.entries, kids(f, n));
}

/// Less room is room.
pub proof fn lemma_room_less(log: Log, n: nat, m: nat, size: nat)
    requires
        room(log, n, size),
        m <= n,
    ensures
        room(log, m, size),
{
    reveal(room);
    assert(m * size <= n * size) by (nonlinear_arith)
        requires
            m <= n,
    ;
}

/// A log with one more node.
proof fn lemma_node_appended(log: Log, n: NodeView, size: nat)
    requires
        all_nodes(log),
        parsed_node(node_bytes(n)) == Ok::<NodeView, crate::codec::Error>(n),
        held(log.appended(node_bytes(n)), all_blocks(log).push(node_bytes(n))),
        node_bytes(n).len() <= size,
        log.tree.length + 1 < MAX_BLOCKS,
    ensures
        all_nodes(log.appended(node_bytes(n))),
        forest(log.appended(node_bytes(n))) == forest(log).insert(log.tree.length, n),
        log.appended(node_bytes(n)).tree.length == log.tree.length + 1,
        forall|m: nat| #[trigger]
            room(log.appended(node_bytes(n)), m, size) || !room(log, m + 1, size),
{
    reveal(all_nodes);
    reveal(room);
    let data = node_bytes(n);
    let next = log.appended(data);
    let blocks = all_blocks(log);
    assert(all_blocks(next) =~= blocks.push(data));
    assert forall|i: u64| i < next.tree.length implies #[trigger] next.has(i) && parsed_node(
        next.contents[i],
    ) is Ok by {
        if i < log.tree.length {
            assert(log.has(i));
        }
    }
    assert(forest(next) =~= forest(log).insert(log.tree.length, n));
    lemma_bytes_same(all_blocks(next), blocks, log.tree.length as nat);
    assert forall|m: nat| #[trigger] room(next, m, size) || !room(log, m + 1, size) by {
        assert((m + 1) * size == m * size + size) by (nonlinear_arith);
    }
}

impl<S: Store> Hyperbee<S> {
    /// Create an empty tree written by `author`, stored in `store`.
    pub fn new(author: SecretKey, store: S) -> (b: Self)
        requires
            store.wf(),
            store.intact(),
        ensures
            b.wf(),
            b.log().tree.length == 0,
            b.pairs() == Seq::<(Seq<u8>, Seq<u8>)>::empty(),
    {
        let b: Hyperbee<S> = Hyperbee { core: Hypercore::new(author, NodeCodec, store) };
        proof {
            reveal(all_nodes);
            reveal(grown);
            law_new(b.log());
            assert(all_blocks(b.log()) =~= Seq::<Seq<u8>>::empty());
        }
        b
    }

    /// The version: the number of blocks, zero for an empty tree.
    pub fn version(&self) -> (v: u64)
        ensures
            v == self.log().tree.length,
    {
        self.core.len()
    }

    /// Whether nothing was ever written.
    pub fn is_empty(&self) -> (b: bool)
        ensures
            b == (self.log().tree.length == 0),
    {
        self.core.len() == 0
    }

    /// The node at block `seq`.
    pub fn node(&self, seq: u64) -> (r: Result<Node, Error<S>>)
        requires
            self.sound(),
            seq < self.log().tree.length,
        ensures
            match r {
                Ok(n) => n@ == self.nodes()[seq],
                Err(e) => e is Storage && !S::sure(),
            },
    {
        proof {
            reveal(all_nodes);
            assert(self.log().has(seq));
        }
        match self.core.get(seq) {
            Ok(Some(n)) => Ok(n),
            Ok(None) => Err(crate::hypercore::Error::Corrupt),
            Err(e) => Err(e),
        }
    }

    /// The block number of the root, if there is one.
    pub fn root_seq(&self) -> (r: Option<u64>)
        ensures
            match r {
                Some(s) => s + 1 == self.log().tree.length,
                None => self.log().tree.length == 0,
            },
    {
        let n: u64 = self.core.len();
        if n == 0 {
            None
        } else {
            Some(n - 1)
        }
    }

    /// Append a node that may stand.
    pub(crate) fn append_node(&mut self, node: &Node, Ghost(size): Ghost<nat>) -> (r: Result<u64, Error<S>>)
        requires
            old(self).sound(),
            may_stand(old(self).nodes(), node@, old(self).log().tree.length),
            bulk(spread(old(self).nodes(), node@)) + 120 <= size,
            room(old(self).log(), 1, size),
            fits_upto::<S>(size),
        ensures
            match r {
                Ok(s) => {
                    &&& s == old(self).log().tree.length
                    &&& final(self).log().tree.length == s + 1
                    &&& final(self).nodes() == old(self).nodes().insert(s, node@)
                    &&& final(self).moved(old(self), 1, size)
                    &&& listing(final(self).nodes(), s) == spread(old(self).nodes(), node@)
                    &&& height(final(self).nodes(), s) == depth(old(self).nodes(), node@)
                },
                Err(e) => e is Storage && !S::sure() && final(self).stalled(old(self)),
            },
    {
        let ghost log = self.log();
        let ghost blocks = all_blocks(log);
        let ghost data = node_bytes(node@);
        let ghost f = self.nodes();
        proof {
            reveal(sits_but);
            reveal(room);
            reveal(all_nodes);
            reveal(Hyperbee::moved);
            lemma_small(node.entries@);
            lemma_node_size(node@);
            law_node(node@);
            lemma_bulk_parts(node@.entries, kids(f, node@), 0);
            assert(S::fits(data.len()));
            assert(1 * size == size);
            law_append(log, blocks, data);
            assert(self.core.codec().encoding(node) == data);
        }
        match self.core.append(node) {
            Ok(s) => {
                proof {
                    assert(self.log() == log.appended(data));
                    lemma_node_appended(log, node@, size);
                    lemma_add(f, log.tree.length, node@);
                }
                Ok(s)
            },
            Err(e) => {
                proof {
                    reveal(Hyperbee::stalled);
                    if self.log_wf() {
                        assert(self.log() == log);
                    }
                }
                Err(e)
            },
        }
    }

    /// Look `key` up below block `seq`.
    pub(crate) fn get_from(&self, seq: u64, key: &[u8]) -> (r: Result<Option<Vec<u8>>, Error<S>>)
        requires
            self.sound(),
            seq < self.log().tree.length,
        ensures
            match r {
                Ok(Some(v)) => keyed_by(listing(self.nodes(), seq), key@) && v@ == map_of(
                    listing(self.nodes(), seq),
                )[key@],
                Ok(None) => !keyed_by(listing(self.nodes(), seq), key@),
                Err(e) => e is Storage && !S::sure(),
            },
    {
        let ghost f = self.nodes();
        let ghost whole = listing(f, seq);
        let mut at: u64 = seq;
        loop
            invariant
                self.sound(),
                f == self.nodes(),
                at < self.log().tree.length,
                whole == listing(f, seq),
                keyed_by(whole, key@) == keyed_by(listing(f, at), key@),
                keyed_by(whole, key@) ==> map_of(whole)[key@] == map_of(listing(f, at))[key@],
            decreases at,
        {
            let node: Node = match self.node(at) {
                Ok(n) => n,
                Err(e) => return Err(e),
            };
            let ghost n = f[at];
            let ghost k = kids(f, n);
            proof {
                lemma_block(f, self.log().tree.length, at);
                lemma_entries_sorted(n.entries, k);
            }
            let (found, i) = search(&node.entries, key);
            if found {
                proof {
                    lemma_around_entry(n.entries, k, i as int);
                    let a = before(n.entries, k, i as int) + k[i as int];
                    let z = k[i + 1] + after(n.entries, k, i + 1);
                    let e = n.entries[i as int];
                    lemma_find_between(a, seq![e], z, key@);
                    assert(seq![e][0].0 == key@);
                    assert(keyed_by(seq![e], key@));
                    assert(sorted(seq![e]));
                    lemma_lookup(seq![e], 0);
                }
                return Ok(Some(copy_of(node.entries[i].1.as_slice())));
            }
            proof {
                if i > 0 {
                    assert(bytes_lt(n.entries[i - 1].0, key@));
                }
                lemma_around(n.entries, k, i as int, key@);
                lemma_weave_at(n.entries, k, i as int);
                lemma_find_between(
                    before(n.entries, k, i as int),
                    k[i as int],
                    after(n.entries, k, i as int),
                    key@,
                );
            }
            if node.is_leaf() {
                proof {
                    assert(k[i as int].len() == 0);
                }
                return Ok(None);
            }
            proof {
                lemma_child(f, self.log().tree.length, at, 0);
                lemma_child(f, self.log().tree.length, at, i as int);
            }
            let next: u64 = node.children[i];
            at = next;
        }
    }

    /// The value for `key`, if there is one.
    pub fn get(&self, key: &[u8]) -> (r: Result<Option<Vec<u8>>, Error<S>>)
        requires
            self.sound(),
        ensures
            match r {
                Ok(Some(v)) => map_of(self.pairs()).contains_key(key@) && v@ == map_of(
                    self.pairs(),
                )[key@],
                Ok(None) => !map_of(self.pairs()).contains_key(key@),
                Err(e) => e is Storage && !S::sure() && self.log().tree.length > 0,
            },
    {
        match self.root_seq() {
            Some(r) => self.get_from(r, key),
            None => Ok(None),
        }
    }

    /// Append a node, splitting it first if it holds too many keys: the middle entry
    /// moves up, and the right half becomes a new sibling.
    fn finish(&mut self, node: Node, Ghost(size): Ghost<nat>) -> (r: Result<Ins, Error<S>>)
        requires
            old(self).sound(),
            0 < node@.entries.len() <= MAX_CHILDREN,
            sits(old(self).nodes(), node@, old(self).log().tree.length),
            bulk(spread(old(self).nodes(), node@)) + 120 <= size,
            room(old(self).log(), 2, size),
            fits_upto::<S>(size),
        ensures
            match r {
                Ok(ins) => {
                    &&& final(self).moved(old(self), 2, size)
                    &&& lands(
                        final(self).nodes(),
                        final(self).log().tree.length,
                        ins,
                        spread(old(self).nodes(), node@),
                        depth(old(self).nodes(), node@),
                        node@.entries.len(),
                    )
                },
                Err(e) => e is Storage && !S::sure() && final(self).stalled(old(self)),
            },
    {
        let ghost f = self.nodes();
        let ghost len = self.log().tree.length;
        let ghost n = node@;
        proof {
            lemma_room_less(self.log(), 2, 1, size);
            assert(n.is_leaf() || n.children.len() == n.entries.len() + 1) by {
                reveal(sits_but);
            }
        }
        if node.entries.len() < MAX_CHILDREN {
            let ghost start = *self;
            match self.append_node(&node, Ghost(size)) {
                Ok(s) => {
                    proof {
                        lemma_moved_more(self, &start, 1, 2, size);
                    }
                    return Ok(Ins::Down(s));
                },
                Err(e) => return Err(e),
            }
        }
        let mid: usize = 4;
        let mut entries: Vec<(Vec<u8>, Vec<u8>)> = node.entries;
        let mut children: Vec<u64> = node.children;
        let right_entries: Vec<(Vec<u8>, Vec<u8>)> = entries.split_off(mid + 1);
        let median: (Vec<u8>, Vec<u8>) = match entries.pop() {
            Some(e) => e,
            None => (Vec::new(), Vec::new()),
        };
        let right_children: Vec<u64> = if children.len() > 0 {
            children.split_off(mid + 1)
        } else {
            Vec::new()
        };
        let left: Node = Node { entries, children };
        let right: Node = Node { entries: right_entries, children: right_children };
        proof {
            assert(left@ =~= left_part(n, 4));
            assert(right@ =~= right_part(n, 4));
            assert((median.0@, median.1@) == n.entries[4]);
            lemma_cut(f, len, n, 4);
        }
        let ghost start = *self;
        let left_seq: u64 = match self.append_node(&left, Ghost(size)) {
            Ok(s) => s,
            Err(e) => return Err(e),
        };
        let ghost mid_bee = *self;
        let ghost g = self.nodes();
        proof {
            lemma_moved_parts(self, &start, 1, size);
            lemma_moved_room(self, &start, 1, size, 1);
            lemma_sits_on(f, len, g, self.log().tree.length, right@, -1);
        }
        let right_seq: u64 = match self.append_node(&right, Ghost(size)) {
            Ok(s) => s,
            Err(e) => return Err(e),
        };
        proof {
            let h = self.nodes();
            assert(h[left_seq] == g[left_seq]);
            assert forall|s: u64| s <= left_seq implies #[trigger] h[s] == g[s] by {}
            lemma_listing_same(g, h, left_seq);
            lemma_moved_twice(self, &mid_bee, &start, 1, 1, 2, size);
        }
        Ok(Ins::Split { left: left_seq, median, right: right_seq })
    }

    /// Put `value` under `key` below block `seq`.
    fn insert(
        &mut self,
        seq: u64,
        key: &[u8],
        value: &[u8],
        Ghost(size): Ghost<nat>,
    ) -> (r: Result<Ins, Error<S>>)
        requires
            old(self).sound(),
            seq < old(self).log().tree.length,
            bulk(listing(old(self).nodes(), seq)) + 120 <= size,
            pair_bulk((key@, value@)) + 120 <= size,
            room(old(self).log(), 2 * (height(old(self).nodes(), seq) + 1), size),
            fits_upto::<S>(size),
        ensures
            match r {
                Ok(ins) => {
                    &&& final(self).moved(
                        old(self),
                        2 * (height(old(self).nodes(), seq) + 1),
                        size,
                    )
                    &&& lands(
                        final(self).nodes(),
                        final(self).log().tree.length,
                        ins,
                        put_in(listing(old(self).nodes(), seq), key@, value@),
                        height(old(self).nodes(), seq),
                        old(self).nodes()[seq].entries.len(),
                    )
                },
                Err(e) => e is Storage && !S::sure() && final(self).stalled(old(self)),
            },
        decreases seq,
    {
        let ghost f = self.nodes();
        let ghost len = self.log().tree.length;
        let ghost high = height(f, seq);
        let ghost start = *self;
        let node: Node = match self.node(seq) {
            Ok(n) => n,
            Err(e) => return Err(e),
        };
        let ghost n = node@;
        let mut entries: Vec<(Vec<u8>, Vec<u8>)> = node.entries;
        let mut children: Vec<u64> = node.children;
        proof {
            lemma_put_bulk(listing(f, seq), key@, value@);
            assert(value.len() <= usize::MAX && key.len() <= usize::MAX);
        }
        let (found, i) = search(&entries, key);
        if found {
            let entry: (Vec<u8>, Vec<u8>) = (copy_of(key), copy_of(value));
            entries.set(i, entry);
            let node: Node = Node { entries, children };
            proof {
                lemma_found(f, len, seq, i as int, value@);
                assert(node@ =~= NodeView {
                    entries: n.entries.update(i as int, (key@, value@)),
                    children: n.children,
                });
                lemma_room_less(self.log(), 2 * (high + 1), 1, size);
            }
            match self.append_node(&node, Ghost(size)) {
                Ok(s) => {
                    proof {
                        lemma_moved_more(self, &start, 1, 2 * (high + 1), size);
                    }
                    return Ok(Ins::Down(s));
                },
                Err(e) => return Err(e),
            }
        }
        if children.len() == 0 {
            let entry: (Vec<u8>, Vec<u8>) = (copy_of(key), copy_of(value));
            entries.insert(i, entry);
            let node: Node = Node { entries, children };
            proof {
                lemma_new_entry(f, len, seq, i as int, key@, value@);
                assert(node@ =~= NodeView {
                    entries: n.entries.insert(i as int, (key@, value@)),
                    children: n.children,
                });
                lemma_room_less(self.log(), 2 * (high + 1), 2, size);
            }
            match self.finish(node, Ghost(size)) {
                Ok(ins) => {
                    proof {
                        lemma_moved_more(self, &start, 2, 2 * (high + 1), size);
                    }
                    return Ok(ins);
                },
                Err(e) => return Err(e),
            }
        }
        proof {
            lemma_child(f, len, seq, 0);
            lemma_child(f, len, seq, i as int);
        }
        let child: u64 = children[i];
        proof {
            lemma_room_less(self.log(), 2 * (high + 1), 2 * (height(f, child) + 1), size);
        }
        let ins: Ins = match self.insert(child, key, value, Ghost(size)) {
            Ok(ins) => ins,
            Err(e) => return Err(e),
        };
        let ghost g = self.nodes();
        let ghost more = self.log().tree.length;
        let ghost mid = *self;
        proof {
            lemma_moved_parts(self, &start, 2 * (height(f, child) + 1), size);
            lemma_moved_room(self, &start, 2 * (height(f, child) + 1), size, 2);
        }
        match ins {
            Ins::Down(c) => {
                children.set(i, c);
                let node: Node = Node { entries, children };
                proof {
                    lemma_down(f, len, seq, i as int, key@, value@, g, more, c);
                    assert(node@ =~= with_child(n, i as int, c));
                    lemma_room_less(self.log(), 2, 1, size);
                }
                match self.append_node(&node, Ghost(size)) {
                    Ok(s) => {
                        proof {
                            lemma_moved_twice(
                                self,
                                &mid,
                                &start,
                                1,
                                2 * (height(f, child) + 1),
                                2 * (high + 1),
                                size,
                            );
                        }
                        Ok(Ins::Down(s))
                    },
                    Err(e) => Err(e),
                }
            },
            Ins::Split { left, median, right } => {
                let ghost e = (median.0@, median.1@);
                children.set(i, left);
                children.insert(i + 1, right);
                proof {
                    assert(median.0.len() <= usize::MAX && median.1.len() <= usize::MAX);
                }
                entries.insert(i, median);
                let node: Node = Node { entries, children };
                proof {
                    lemma_up(f, len, seq, i as int, key@, value@, g, more, left, e, right);
                    assert(node@ =~= with_split(n, i as int, left, e, right));
                }
                match self.finish(node, Ghost(size)) {
                    Ok(ins) => {
                        proof {
                            lemma_moved_twice(
                                self,
                                &mid,
                                &start,
                                2,
                                2 * (height(f, child) + 1),
                                2 * (high + 1),
                                size,
                            );
                        }
                        Ok(ins)
                    },
                    Err(e) => Err(e),
                }
            },
        }
    }

    /// Insert or overwrite `key`.
    pub fn put(&mut self, key: &[u8], value: &[u8]) -> (r: Result<(), Error<S>>)
        requires
            old(self).wf(),
            old(self).spare(key@.len() + value@.len()),
        ensures
            match r {
                Ok(()) => {
                    &&& final(self).wf()
                    &&& final(self).pairs() == put_in(old(self).pairs(), key@, value@)
                    &&& map_of(final(self).pairs()) == map_of(old(self).pairs()).insert(
                        key@,
                        value@,
                    )
                    &&& old(self).log().tree.length < final(self).log().tree.length
                        <= old(self).log().tree.length + 2 * old(self).levels() + 3
                    &&& forall|v: u64|
                        v <= old(self).log().tree.length ==> #[trigger] final(self).pairs_at(v)
                            == old(self).pairs_at(v)
                },
                Err(e) => e is Storage && !S::sure() && final(self).stalled(old(self)),
            },
    {
        let ghost f = self.nodes();
        let ghost len = self.log().tree.length;
        let ghost start = *self;
        let ghost size = self.span(key@.len() + value@.len());
        let ghost high = self.levels();
        proof {
            assert(value.len() <= usize::MAX && key.len() <= usize::MAX);
            lemma_put_bulk(self.pairs(), key@, value@);
            lemma_pairs_sorted(self);
            lemma_put_map(self.pairs(), key@, value@);
        }
        let root: u64 = match self.root_seq() {
            None => {
                let mut entries: Vec<(Vec<u8>, Vec<u8>)> = Vec::new();
                entries.push((copy_of(key), copy_of(value)));
                let leaf: Node = Node { entries, children: Vec::new() };
                proof {
                    lemma_first_leaf(f, len, key@, value@);
                    assert(leaf@ =~= NodeView {
                        entries: seq![(key@, value@)],
                        children: Seq::empty(),
                    });
                    lemma_room_less(self.log(), 3 * (high + 2), 1, size);
                    lemma_bulk_one((key@, value@));
                }
                match self.append_node(&leaf, Ghost(size)) {
                    Ok(s) => {
                        proof {
                            lemma_moved_parts(self, &start, 1, size);
                            lemma_history(self, &start);
                        }
                        return Ok(());
                    },
                    Err(e) => return Err(e),
                }
            },
            Some(s) => s,
        };
        proof {
            lemma_room_less(self.log(), 3 * (high + 2), 2 * (high + 1) + 1, size);
            lemma_room_less(self.log(), 3 * (high + 2), 2 * (high + 1), size);
        }
        let ins: Ins = match self.insert(root, key, value, Ghost(size)) {
            Ok(ins) => ins,
            Err(e) => return Err(e),
        };
        let ghost mid = *self;
        let ghost g = self.nodes();
        proof {
            lemma_moved_parts(self, &start, 2 * (high + 1), size);
            lemma_moved_room(self, &start, 2 * (high + 1), size, 1);
        }
        match ins {
            Ins::Down(s) => {
                proof {
                    lemma_block(f, len, root);
                    lemma_block(g, self.log().tree.length, s);
                    lemma_history(self, &start);
                }
            },
            Ins::Split { left, median, right } => {
                let ghost e = (median.0@, median.1@);
                proof {
                    assert(median.0.len() <= usize::MAX && median.1.len() <= usize::MAX);
                    lemma_new_root(g, self.log().tree.length, left, e, right);
                }
                let mut entries: Vec<(Vec<u8>, Vec<u8>)> = Vec::new();
                entries.push(median);
                let mut children: Vec<u64> = Vec::new();
                children.push(left);
                children.push(right);
                let top: Node = Node { entries, children };
                assert(top@ =~= NodeView { entries: seq![e], children: seq![left, right] });
                match self.append_node(&top, Ghost(size)) {
                    Ok(s) => {
                        proof {
                            lemma_moved_twice(
                                self,
                                &mid,
                                &start,
                                1,
                                2 * (high + 1),
                                2 * (high + 1) + 1,
                                size,
                            );
                            lemma_moved_parts(self, &start, 2 * (high + 1) + 1, size);
                            lemma_history(self, &start);
                        }
                    },
                    Err(e) => return Err(e),
                }
            },
        }
        Ok(())
    }
}

/// What a move says.
pub proof fn lemma_moved_parts<S: Store>(now: &Hyperbee<S>, was: &Hyperbee<S>, used: nat, size: nat)
    requires
        now.moved(was, used, size),
    ensures
        now.sound(),
        extends(was.nodes(), was.log().tree.length, now.nodes(), now.log().tree.length),
        was.log().tree.length < now.log().tree.length <= was.log().tree.length + used,
{
    reveal(Hyperbee::moved);
}

/// The room that a move leaves.
pub proof fn lemma_moved_room<S: Store>(
    now: &Hyperbee<S>,
    was: &Hyperbee<S>,
    used: nat,
    size: nat,
    n: nat,
)
    requires
        now.moved(was, used, size),
        room(was.log(), n + used, size),
    ensures
        room(now.log(), n, size),
{
    reveal(Hyperbee::moved);
    assert(room(now.log(), n, size) || !room(was.log(), n + used, size));
}

/// What the tree holds is in key order.
pub proof fn lemma_pairs_sorted<S: Store>(b: &Hyperbee<S>)
    requires
        b.sound(),
    ensures
        sorted(b.pairs()),
        forall|v: u64| sorted(#[trigger] b.pairs_at(v)),
{
    assert forall|v: u64| sorted(#[trigger] b.pairs_at(v)) by {
        let w = if v < b.log().tree.length {
            v
        } else {
            b.log().tree.length
        };
        if w > 0 {
            lemma_block(b.nodes(), b.log().tree.length, (w - 1) as u64);
        }
    }
}

/// Fewer blocks used than allowed.
pub proof fn lemma_moved_more<S: Store>(
    now: &Hyperbee<S>,
    was: &Hyperbee<S>,
    used: nat,
    allowed: nat,
    size: nat,
)
    requires
        now.moved(was, used, size),
        used <= allowed,
    ensures
        now.moved(was, allowed, size),
{
    reveal(room);
    reveal(Hyperbee::moved);
    assert forall|n: nat| #[trigger]
        room(now.log(), n, size) || !room(was.log(), n + allowed, size) by {
        if room(was.log(), n + allowed, size) {
            lemma_room_less(was.log(), n + allowed, n + used, size);
        }
    }
}

/// One step after another.
pub proof fn lemma_moved_twice<S: Store>(
    now: &Hyperbee<S>,
    mid: &Hyperbee<S>,
    was: &Hyperbee<S>,
    a: nat,
    b: nat,
    allowed: nat,
    size: nat,
)
    requires
        now.moved(mid, a, size),
        mid.moved(was, b, size),
        a + b <= allowed,
    ensures
        now.moved(was, allowed, size),
{
    reveal(extends);
    reveal(Hyperbee::moved);
    assert forall|n: nat| #[trigger]
        room(now.log(), n, size) || !room(was.log(), n + allowed, size) by {
        if room(was.log(), n + allowed, size) {
            lemma_room_less(was.log(), n + allowed, (n + a) + b, size);
            assert(room(mid.log(), n + a, size));
        }
    }
    assert forall|s: u64| s < was.log().tree.length implies #[trigger] now.nodes()[s]
        == was.nodes()[s] by {
        assert(mid.nodes()[s] == was.nodes()[s]);
    }
}

/// What the tree held stays on record.
pub proof fn lemma_history<S: Store>(now: &Hyperbee<S>, was: &Hyperbee<S>)
    requires
        extends(
            was.nodes(),
            was.log().tree.length,
            now.nodes(),
            now.log().tree.length,
        ),
    ensures
        forall|v: u64|
            v <= was.log().tree.length ==> #[trigger] now.pairs_at(v) == was.pairs_at(v),
{
    reveal(extends);
    assert forall|v: u64| v <= was.log().tree.length implies #[trigger] now.pairs_at(v)
        == was.pairs_at(v) by {
        if v > 0 {
            lemma_listing_same(was.nodes(), now.nodes(), (v - 1) as u64);
        }
    }
}

} // verus!
