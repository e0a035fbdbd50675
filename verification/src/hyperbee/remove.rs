//! Deleting a key.
use vstd::prelude::*;
use super::btree::{
    lemma_child, lemma_history, lemma_moved_more, lemma_moved_parts, lemma_moved_room,
    lemma_moved_twice, lemma_pairs_sorted, lemma_put_bulk, lemma_room_less, lemma_swap_child,
    search, with_child,
};
use super::mend::{lacking, lemma_swap_pair, with_pair};
use super::node::{bulk, Node, NodeView};
use super::order::{
    drop_from, lemma_around, lemma_around_entry, lemma_find_between, lemma_put_at,
    lemma_put_between, lemma_put_map, lemma_sorted_parts,
};
use super::shape::{
    after, before, depth, extends, grown, height, kids, lemma_block, lemma_listing_same,
    lemma_weave_at, lemma_weave_bare, lemma_weave_update, lemma_bulk_stretch, listing, may_stand,
    sits_but, spread, Forest, MIN_KEYS,
};
use super::{fits_upto, room, Error, Hyperbee};
use crate::bytemap::{bytes_lt, keyed_by, map_of, Pairs};
use crate::storage::Store;

verus! {

broadcast use super::stalled::group_stalled;

/// What became of a subtree that a key was deleted from: it was not there, or the
/// subtree was rewritten, and may now lack a key.
pub(crate) enum Del {
    NotFound,
    Down { seq: u64, underflow: bool },
}

/// Whether `list` stands at the latest block `s` of a forest, with at least `least`
/// entries at the top, and `under` says whether these are too few.
pub open spec fn sinks(
    f: Forest,
    len: u64,
    s: u64,
    under: bool,
    list: Pairs,
    high: nat,
    least: int,
) -> bool {
    &&& s == len - 1
    &&& listing(f, s) == list
    &&& height(f, s) == high
    &&& f[s].entries.len() >= least
    &&& under == (f[s].entries.len() < MIN_KEYS)
}

/// The number of entries of the first or last leaf below a block.
pub open spec fn edge_len(f: Forest, seq: u64, leftmost: bool) -> nat
    decreases seq,
{
    let n = f[seq];
    let c = if leftmost {
        n.children[0]
    } else {
        n.children.last()
    };
    if n.is_leaf() || c >= seq {
        n.entries.len()
    } else {
        edge_len(f, c, leftmost)
    }
}

/// A leaf without entry `i`.
proof fn lemma_leaf_remove(f: Forest, len: u64, seq: u64, i: int)
    requires
        grown(f, len),
        seq < len,
        f[seq].is_leaf(),
        0 <= i < f[seq].entries.len(),
    ensures
        ({
            let n = f[seq];
            let m = NodeView { entries: n.entries.remove(i), children: n.children };
            &&& may_stand(f, m, len)
            &&& spread(f, m) == n.entries.remove(i)
            &&& listing(f, seq) == n.entries
            &&& n.entries.remove(i) == drop_from(listing(f, seq), n.entries[i].0)
            &&& keyed_by(listing(f, seq), n.entries[i].0)
            &&& depth(f, m) == height(f, seq)
        }),
{
    reveal(sits_but);
    lemma_block(f, len, seq);
    let n = f[seq];
    let m = NodeView { entries: n.entries.remove(i), children: n.children };
    lemma_weave_bare(n.entries, kids(f, n));
    lemma_weave_bare(m.entries, kids(f, m));
    let a = n.entries.take(i);
    let z = n.entries.skip(i + 1);
    assert(n.entries =~= a + seq![n.entries[i]] + z);
    assert(n.entries.remove(i) =~= a + z);
    lemma_sorted_parts(a, seq![n.entries[i]], z);
    assert(seq![n.entries[i]][0] == n.entries[i]);
    lemma_put_at(a, n.entries[i], z, n.entries[i].1);
    lemma_put_map(n.entries, n.entries[i].0, n.entries[i].1);
    assert forall|j: int| 0 <= j < m.entries.len() implies (#[trigger] m.entries[j]).0.len()
        <= u64::MAX && m.entries[j].1.len() <= u64::MAX by {
        if j < i {
            assert(m.entries[j] == n.entries[j]);
        } else {
            assert(m.entries[j] == n.entries[j + 1]);
        }
    }
}

/// A block whose child `i` was rewritten with a key dropped.
proof fn lemma_sunk(
    f: Forest,
    len: u64,
    seq: u64,
    i: int,
    k: Seq<u8>,
    g: Forest,
    more: u64,
    c: u64,
    under: bool,
)
    requires
        grown(f, len),
        seq < len,
        extends(f, len, g, more),
        0 <= i < f[seq].children.len(),
        i > 0 ==> bytes_lt(f[seq].entries[i - 1].0, k),
        i < f[seq].entries.len() ==> bytes_lt(k, f[seq].entries[i].0),
        c < more,
        sinks(
            g,
            more,
            c,
            under,
            drop_from(listing(f, f[seq].children[i]), k),
            height(f, f[seq].children[i]),
            MIN_KEYS - 1,
        ),
    ensures
        sits_but(
            g,
            with_child(f[seq], i, c),
            more,
            if under {
                i
            } else {
                -1
            },
        ),
        spread(g, with_child(f[seq], i, c)) == drop_from(listing(f, seq), k),
        depth(g, with_child(f[seq], i, c)) == height(f, seq),
{
    let n = f[seq];
    let q = kids(f, n);
    lemma_child(f, len, seq, i);
    lemma_block(f, len, seq);
    lemma_around(n.entries, q, i, k);
    lemma_weave_at(n.entries, q, i);
    lemma_put_between(before(n.entries, q, i), q[i], after(n.entries, q, i), k, k);
    lemma_put_map(listing(f, seq), k, k);
    lemma_weave_update(n.entries, q, i, listing(g, c));
    lemma_swap_child(
        f,
        len,
        n,
        -1,
        i,
        g,
        more,
        c,
        if under {
            i
        } else {
            -1
        },
    );
}

/// A block whose entry `i` was replaced by its successor.
proof fn lemma_succeeded(
    f: Forest,
    len: u64,
    seq: u64,
    i: int,
    g: Forest,
    more: u64,
    e: (Seq<u8>, Seq<u8>),
    c: u64,
    under: bool,
    rest: Pairs,
)
    requires
        grown(f, len),
        seq < len,
        extends(f, len, g, more),
        !f[seq].is_leaf(),
        0 <= i < f[seq].entries.len(),
        listing(f, f[seq].children[i + 1]) == seq![e] + rest,
        e.0.len() <= u64::MAX,
        e.1.len() <= u64::MAX,
        c < more,
        sinks(g, more, c, under, rest, height(f, f[seq].children[i + 1]), MIN_KEYS - 1),
    ensures
        ({
            let m = with_pair(f[seq], i, f[seq].children[i], e, c);
            &&& sits_but(
                g,
                m,
                more,
                if under {
                    i + 1
                } else {
                    -1
                },
            )
            &&& spread(g, m) == drop_from(listing(f, seq), f[seq].entries[i].0)
            &&& depth(g, m) == height(f, seq)
        }),
{
    let n = f[seq];
    let q = kids(f, n);
    lemma_block(f, len, seq);
    lemma_child(f, len, seq, 0);
    lemma_child(f, len, seq, i);
    lemma_child(f, len, seq, i + 1);
    lemma_around_entry(n.entries, q, i);
    let b = before(n.entries, q, i);
    let z = after(n.entries, q, i + 1);
    lemma_put_at(b + q[i], n.entries[i], q[i + 1] + z, e.1);
    let c0 = n.children[i];
    assert(len <= more && forall|s: u64| s <= c0 ==> #[trigger] g[s] == f[s]) by {
        reveal(extends);
    }
    lemma_listing_same(f, g, c0);
    assert(g[c0] == f[c0]);
    assert((b + q[i]) + (q[i + 1] + z) =~= b + (q[i] + seq![e] + rest) + z);
    lemma_put_map(listing(f, seq), n.entries[i].0, e.1);
    lemma_swap_pair(
        f,
        len,
        n,
        -1,
        i,
        g,
        more,
        c0,
        e,
        c,
        if under {
            i + 1
        } else {
            -1
        },
    );
}

/// A block whose entry `i` was replaced by its predecessor.
proof fn lemma_preceded(
    f: Forest,
    len: u64,
    seq: u64,
    i: int,
    g: Forest,
    more: u64,
    e: (Seq<u8>, Seq<u8>),
    c: u64,
    under: bool,
    rest: Pairs,
)
    requires
        grown(f, len),
        seq < len,
        extends(f, len, g, more),
        !f[seq].is_leaf(),
        0 <= i < f[seq].entries.len(),
        listing(f, f[seq].children[i]) == rest + seq![e],
        e.0.len() <= u64::MAX,
        e.1.len() <= u64::MAX,
        c < more,
        sinks(g, more, c, under, rest, height(f, f[seq].children[i]), MIN_KEYS - 1),
    ensures
        ({
            let m = with_pair(f[seq], i, c, e, f[seq].children[i + 1]);
            &&& sits_but(
                g,
                m,
                more,
                if under {
                    i
                } else {
                    -1
                },
            )
            &&& spread(g, m) == drop_from(listing(f, seq), f[seq].entries[i].0)
            &&& depth(g, m) == height(f, seq)
        }),
{
    let n = f[seq];
    let q = kids(f, n);
    lemma_block(f, len, seq);
    lemma_child(f, len, seq, 0);
    lemma_child(f, len, seq, i);
    lemma_child(f, len, seq, i + 1);
    lemma_around_entry(n.entries, q, i);
    let b = before(n.entries, q, i);
    let z = after(n.entries, q, i + 1);
    lemma_put_at(b + q[i], n.entries[i], q[i + 1] + z, e.1);
    let c1 = n.children[i + 1];
    assert(len <= more && forall|s: u64| s <= c1 ==> #[trigger] g[s] == f[s]) by {
        reveal(extends);
    }
    lemma_listing_same(f, g, c1);
    assert(g[c1] == f[c1]);
    assert((b + q[i]) + (q[i + 1] + z) =~= b + (rest + seq![e] + q[i + 1]) + z);
    lemma_put_map(listing(f, seq), n.entries[i].0, e.1);
    lemma_swap_pair(
        f,
        len,
        n,
        -1,
        i,
        g,
        more,
        c,
        e,
        c1,
        if under {
            i
        } else {
            -1
        },
    );
}

/// A block whose first child was rewritten without its first pair.
proof fn lemma_first_gone(
    f: Forest,
    len: u64,
    seq: u64,
    g: Forest,
    more: u64,
    e: (Seq<u8>, Seq<u8>),
    c: u64,
    under: bool,
    rest: Pairs,
) -> (left: Pairs)
    requires
        grown(f, len),
        seq < len,
        extends(f, len, g, more),
        !f[seq].is_leaf(),
        listing(f, f[seq].children[0]) == seq![e] + rest,
        c < more,
        sinks(g, more, c, under, rest, height(f, f[seq].children[0]), MIN_KEYS - 1),
    ensures
        sits_but(
            g,
            with_child(f[seq], 0, c),
            more,
            if under {
                0
            } else {
                -1
            },
        ),
        spread(g, with_child(f[seq], 0, c)) == left,
        listing(f, seq) == seq![e] + left,
        depth(g, with_child(f[seq], 0, c)) == height(f, seq),
{
    let n = f[seq];
    let q = kids(f, n);
    lemma_block(f, len, seq);
    lemma_child(f, len, seq, 0);
    lemma_weave_at(n.entries, q, 0);
    lemma_weave_update(n.entries, q, 0, rest);
    let a = after(n.entries, q, 0);
    let b = before(n.entries, q, 0);
    assert(b =~= Seq::empty());
    let left = b + rest + a;
    assert(listing(f, seq) =~= seq![e] + left);
    assert(seq![e] + left + Seq::empty() =~= seq![e] + left);
    lemma_sorted_parts(seq![e], left, Seq::empty());
    lemma_swap_child(
        f,
        len,
        n,
        -1,
        0,
        g,
        more,
        c,
        if under {
            0
        } else {
            -1
        },
    );
    left
}

/// A block whose last child was rewritten without its last pair.
proof fn lemma_last_gone(
    f: Forest,
    len: u64,
    seq: u64,
    g: Forest,
    more: u64,
    e: (Seq<u8>, Seq<u8>),
    c: u64,
    under: bool,
    rest: Pairs,
) -> (left: Pairs)
    requires
        grown(f, len),
        seq < len,
        extends(f, len, g, more),
        !f[seq].is_leaf(),
        listing(f, f[seq].children.last()) == rest + seq![e],
        c < more,
        sinks(g, more, c, under, rest, height(f, f[seq].children.last()), MIN_KEYS - 1),
    ensures
        f[seq].children.len() == f[seq].entries.len() + 1,
        sits_but(
            g,
            with_child(f[seq], f[seq].entries.len() as int, c),
            more,
            if under {
                f[seq].entries.len() as int
            } else {
                -1
            },
        ),
        spread(g, with_child(f[seq], f[seq].entries.len() as int, c)) == left,
        listing(f, seq) == left + seq![e],
        depth(g, with_child(f[seq], f[seq].entries.len() as int, c)) == height(f, seq),
{
    let n = f[seq];
    let q = kids(f, n);
    lemma_child(f, len, seq, 0);
    let i = n.entries.len() as int;
    lemma_block(f, len, seq);
    lemma_child(f, len, seq, i);
    lemma_weave_at(n.entries, q, i);
    lemma_weave_update(n.entries, q, i, rest);
    let a = after(n.entries, q, i);
    let b = before(n.entries, q, i);
    assert(a =~= Seq::empty());
    let left = b + rest + a;
    assert(listing(f, seq) =~= left + seq![e]);
    assert(Seq::empty() + left + seq![e] =~= left + seq![e]);
    lemma_sorted_parts(Seq::empty(), left, seq![e]);
    lemma_swap_child(
        f,
        len,
        n,
        -1,
        i,
        g,
        more,
        c,
        if under {
            i
        } else {
            -1
        },
    );
    left
}

impl<S: Store> Hyperbee<S> {
    /// Append a node whose child `i` was rewritten, giving that child its keys first if
    /// it lacks one; and say whether the node itself now has too few.
    fn fix_child(&mut self, node: Node, i: usize, child_under: bool, Ghost(size): Ghost<nat>) -> (r:
        Result<(u64, bool), Error<S>>)
        requires
            old(self).sound(),
            child_under ==> lacking(
                old(self).nodes(),
                node@,
                old(self).log().tree.length,
                i as int,
            ),
            !child_under ==> may_stand(old(self).nodes(), node@, old(self).log().tree.length),
            bulk(spread(old(self).nodes(), node@)) + 120 <= size,
            room(old(self).log(), 3, size),
            fits_upto::<S>(size),
        ensures
            match r {
                Ok((s, under)) => {
                    &&& final(self).moved(old(self), 3, size)
                    &&& sinks(
                        final(self).nodes(),
                        final(self).log().tree.length,
                        s,
                        under,
                        spread(old(self).nodes(), node@),
                        depth(old(self).nodes(), node@),
                        node@.entries.len() - 1,
                    )
                },
                Err(e) => e is Storage && !S::sure() && final(self).stalled(old(self)),
            },
    {
        let ghost start = *self;
        let ghost list = spread(self.nodes(), node@);
        let ghost high = depth(self.nodes(), node@);
        let ghost count = node@.entries.len();
        proof {
            lemma_room_less(self.log(), 3, 1, size);
            lemma_room_less(self.log(), 3, 2, size);
        }
        let mut node: Node = node;
        if child_under {
            match self.rebalance(&mut node, i, Ghost(size)) {
                Ok(()) => {},
                Err(e) => return Err(e),
            }
            proof {
                lemma_moved_parts(self, &start, 2, size);
                lemma_moved_room(self, &start, 2, size, 1);
            }
        }
        let ghost mid = *self;
        let under: bool = node.entries.len() < MIN_KEYS;
        match self.append_node(&node, Ghost(size)) {
            Ok(s) => {
                proof {
                    if child_under {
                        lemma_moved_twice(self, &mid, &start, 1, 2, 3, size);
                    } else {
                        lemma_moved_more(self, &start, 1, 3, size);
                    }
                }
                Ok((s, under))
            },
            Err(e) => Err(e),
        }
    }

    /// Remove the first pair below block `seq`: the pair, the rewritten block, and
    /// whether that has too few entries.
    fn delete_min(&mut self, seq: u64, Ghost(size): Ghost<nat>) -> (r: Result<
        ((Vec<u8>, Vec<u8>), u64, bool),
        Error<S>,
    >)
        requires
            old(self).sound(),
            seq < old(self).log().tree.length,
            old(self).nodes()[seq].entries.len() >= MIN_KEYS,
            bulk(listing(old(self).nodes(), seq)) + 120 <= size,
            room(old(self).log(), 3 * (height(old(self).nodes(), seq) + 1), size),
            fits_upto::<S>(size),
        ensures
            match r {
                Ok((e, s, under)) => {
                    let f = old(self).nodes();
                    let g = final(self).nodes();
                    &&& final(self).moved(old(self), 3 * (height(f, seq) + 1), size)
                    &&& sinks(
                        g,
                        final(self).log().tree.length,
                        s,
                        under,
                        listing(g, s),
                        height(f, seq),
                        f[seq].entries.len() - 1,
                    )
                    &&& listing(f, seq) == seq![(e.0@, e.1@)] + listing(g, s)
                },
                Err(e) => e is Storage && !S::sure() && final(self).stalled(old(self)),
            },
        decreases seq,
    {
        let ghost f = self.nodes();
        let ghost len = self.log().tree.length;
        let ghost high = height(f, seq);
        let ghost start = *self;
        let node: Node = match self.node(seq) {
            Ok(n) => n,
            Err(e) => return Err(e),
        };
        let ghost n = node@;
        let mut entries: Vec<(Vec<u8>, Vec<u8>)> = node.entries;
        let mut children: Vec<u64> = node.children;
        if children.len() == 0 {
            let min: (Vec<u8>, Vec<u8>) = entries.remove(0);
            let under: bool = entries.len() < MIN_KEYS;
            let node: Node = Node { entries, children };
            proof {
                lemma_leaf_remove(f, len, seq, 0);
                assert(node@ =~= NodeView {
                    entries: n.entries.remove(0),
                    children: n.children,
                });
                assert(n.entries =~= seq![n.entries[0]] + n.entries.remove(0));
                lemma_put_bulk(listing(f, seq), n.entries[0].0, n.entries[0].1);
                lemma_room_less(self.log(), 3 * (high + 1), 1, size);
            }
            match self.append_node(&node, Ghost(size)) {
                Ok(s) => {
                    proof {
                        lemma_moved_more(self, &start, 1, 3 * (high + 1), size);
                    }
                    return Ok((min, s, under));
                },
                Err(e) => return Err(e),
            }
        }
        proof {
            lemma_child(f, len, seq, 0);
            lemma_block(f, len, seq);
            lemma_room_less(self.log(), 3 * (high + 1), 3 * high, size);
        }
        let (min, c, child_under) = match self.delete_min(children[0], Ghost(size)) {
            Ok(x) => x,
            Err(e) => return Err(e),
        };
        let ghost mid = *self;
        let ghost g = self.nodes();
        children.set(0, c);
        let node: Node = Node { entries, children };
        let ghost e = (min.0@, min.1@);
        let ghost mut left = listing(g, c);
        proof {
            lemma_moved_parts(self, &start, 3 * high, size);
            lemma_moved_room(self, &start, 3 * high, size, 3);
            left = lemma_first_gone(
                f,
                len,
                seq,
                g,
                self.log().tree.length,
                e,
                c,
                child_under,
                listing(g, c),
            );
            assert(node@ =~= with_child(n, 0, c));
            assert(seq![e] + left + Seq::empty() =~= listing(f, seq));
            lemma_bulk_stretch(seq![e], left, Seq::empty());
        }
        match self.fix_child(node, 0, child_under, Ghost(size)) {
            Ok((s, under)) => {
                proof {
                    lemma_moved_twice(self, &mid, &start, 3, 3 * high, 3 * (high + 1), size);
                }
                Ok((min, s, under))
            },
            Err(e) => Err(e),
        }
    }

    /// Remove the last pair below block `seq`: the pair, the rewritten block, and
    /// whether that has too few entries.
    fn delete_max(&mut self, seq: u64, Ghost(size): Ghost<nat>) -> (r: Result<
        ((Vec<u8>, Vec<u8>), u64, bool),
        Error<S>,
    >)
        requires
            old(self).sound(),
            seq < old(self).log().tree.length,
            old(self).nodes()[seq].entries.len() >= MIN_KEYS,
            bulk(listing(old(self).nodes(), seq)) + 120 <= size,
            room(old(self).log(), 3 * (height(old(self).nodes(), seq) + 1), size),
            fits_upto::<S>(size),
        ensures
            match r {
                Ok((e, s, under)) => {
                    let f = old(self).nodes();
                    let g = final(self).nodes();
                    &&& final(self).moved(old(self), 3 * (height(f, seq) + 1), size)
                    &&& sinks(
                        g,
                        final(self).log().tree.length,
                        s,
                        under,
                        listing(g, s),
                        height(f, seq),
                        f[seq].entries.len() - 1,
                    )
                    &&& listing(f, seq) == listing(g, s) + seq![(e.0@, e.1@)]
                },
                Err(e) => e is Storage && !S::sure() && final(self).stalled(old(self)),
            },
        decreases seq,
    {
        let ghost f = self.nodes();
        let ghost len = self.log().tree.length;
        let ghost high = height(f, seq);
        let ghost start = *self;
        let node: Node = match self.node(seq) {
            Ok(n) => n,
            Err(e) => return Err(e),
        };
        let ghost n = node@;
        let mut entries: Vec<(Vec<u8>, Vec<u8>)> = node.entries;
        let mut children: Vec<u64> = node.children;
        if children.len() == 0 {
            let last: usize = entries.len() - 1;
            let max: (Vec<u8>, Vec<u8>) = entries.remove(last);
            let under: bool = entries.len() < MIN_KEYS;
            let node: Node = Node { entries, children };
            proof {
                lemma_leaf_remove(f, len, seq, last as int);
                assert(node@ =~= NodeView {
                    entries: n.entries.remove(last as int),
                    children: n.children,
                });
                assert(n.entries =~= n.entries.remove(last as int) + seq![
                    n.entries[last as int],
                ]);
                lemma_put_bulk(
                    listing(f, seq),
                    n.entries[last as int].0,
                    n.entries[last as int].1,
                );
                lemma_room_less(self.log(), 3 * (high + 1), 1, size);
            }
            match self.append_node(&node, Ghost(size)) {
                Ok(s) => {
                    proof {
                        lemma_moved_more(self, &start, 1, 3 * (high + 1), size);
                    }
                    return Ok((max, s, under));
                },
                Err(e) => return Err(e),
            }
        }
        let last: usize = children.len() - 1;
        proof {
            lemma_child(f, len, seq, 0);
            lemma_child(f, len, seq, last as int);
            lemma_block(f, len, seq);
            lemma_room_less(self.log(), 3 * (high + 1), 3 * high, size);
        }
        let (max, c, child_under) = match self.delete_max(children[last], Ghost(size)) {
            Ok(x) => x,
            Err(e) => return Err(e),
        };
        let ghost mid = *self;
        let ghost g = self.nodes();
        children.set(last, c);
        let node: Node = Node { entries, children };
        let ghost e = (max.0@, max.1@);
        let ghost mut left = listing(g, c);
        proof {
            lemma_moved_parts(self, &start, 3 * high, size);
            lemma_moved_room(self, &start, 3 * high, size, 3);
            left = lemma_last_gone(
                f,
                len,
                seq,
                g,
                self.log().tree.length,
                e,
                c,
                child_under,
                listing(g, c),
            );
            assert(node@ =~= with_child(n, last as int, c));
            assert(Seq::empty() + left + seq![e] =~= listing(f, seq));
            lemma_bulk_stretch(Seq::empty(), left, seq![e]);
        }
        match self.fix_child(node, last, child_under, Ghost(size)) {
            Ok((s, under)) => {
                proof {
                    lemma_moved_twice(self, &mid, &start, 3, 3 * high, 3 * (high + 1), size);
                }
                Ok((max, s, under))
            },
            Err(e) => Err(e),
        }
    }

    /// The number of entries of the first or the last leaf below block `seq`.
    fn boundary_leaf_len(&self, seq: u64, leftmost: bool) -> (r: Result<usize, Error<S>>)
        requires
            self.sound(),
            seq < self.log().tree.length,
        ensures
            match r {
                Ok(n) => n == edge_len(self.nodes(), seq, leftmost),
                Err(e) => e is Storage && !S::sure(),
            },
    {
        let ghost f = self.nodes();
        let mut at: u64 = seq;
        let mut node: Node = match self.node(seq) {
            Ok(n) => n,
            Err(e) => return Err(e),
        };
        while !node.is_leaf()
            invariant
                self.sound(),
                f == self.nodes(),
                at < self.log().tree.length,
                node@ == f[at],
                edge_len(f, seq, leftmost) == edge_len(f, at, leftmost),
            decreases at,
        {
            proof {
                lemma_child(f, self.log().tree.length, at, 0);
                lemma_child(f, self.log().tree.length, at, node@.children.len() - 1);
            }
            let c: u64 = if leftmost {
                node.children[0]
            } else {
                node.children[node.children.len() - 1]
            };
            node = match self.node(c) {
                Ok(n) => n,
                Err(e) => return Err(e),
            };
            at = c;
        }
        Ok(node.entries.len())
    }

    /// Delete entry `i` of an internal node: put its neighbour in its place, from the
    /// side whose nearest leaf has more entries, the left side if they have the same.
    fn delete_inner(&mut self, seq: u64, node: Node, i: usize, Ghost(size): Ghost<nat>) -> (r:
        Result<(u64, bool), Error<S>>)
        requires
            old(self).sound(),
            seq < old(self).log().tree.length,
            node@ == old(self).nodes()[seq],
            !node@.is_leaf(),
            i < node@.entries.len(),
            bulk(listing(old(self).nodes(), seq)) + 140 <= size,
            room(old(self).log(), 3 * (height(old(self).nodes(), seq) + 1), size),
            fits_upto::<S>(size),
        ensures
            match r {
                Ok((s, under)) => {
                    let f = old(self).nodes();
                    &&& final(self).moved(old(self), 3 * (height(f, seq) + 1), size)
                    &&& sinks(
                        final(self).nodes(),
                        final(self).log().tree.length,
                        s,
                        under,
                        drop_from(listing(f, seq), node@.entries[i as int].0),
                        height(f, seq),
                        node@.entries.len() - 1,
                    )
                },
                Err(e) => e is Storage && !S::sure() && final(self).stalled(old(self)),
            },
    {
        let ghost f = self.nodes();
        let ghost len = self.log().tree.length;
        let ghost high = height(f, seq);
        let ghost n = node@;
        let ghost start = *self;
        let mut entries: Vec<(Vec<u8>, Vec<u8>)> = node.entries;
        let mut children: Vec<u64> = node.children;
        proof {
            lemma_block(f, len, seq);
            lemma_child(f, len, seq, 0);
            lemma_child(f, len, seq, i as int);
            lemma_child(f, len, seq, i + 1);
            lemma_room_less(self.log(), 3 * (high + 1), 3 * high, size);
            lemma_put_bulk(listing(f, seq), n.entries[i as int].0, n.entries[i as int].1);
        }
        let left: u64 = children[i];
        let right: u64 = children[i + 1];
        let left_len: usize = match self.boundary_leaf_len(left, false) {
            Ok(x) => x,
            Err(e) => return Err(e),
        };
        let right_len: usize = match self.boundary_leaf_len(right, true) {
            Ok(x) => x,
            Err(e) => return Err(e),
        };
        if left_len < right_len {
            let (succ, c, child_under) = match self.delete_min(right, Ghost(size)) {
                Ok(x) => x,
                Err(e) => return Err(e),
            };
            let ghost mid = *self;
            let ghost g = self.nodes();
            let ghost e = (succ.0@, succ.1@);
            assert(succ.0.len() <= usize::MAX && succ.1.len() <= usize::MAX);
            entries.set(i, succ);
            children.set(i + 1, c);
            let node: Node = Node { entries, children };
            proof {
                lemma_moved_parts(self, &start, 3 * high, size);
                lemma_moved_room(self, &start, 3 * high, size, 3);
                lemma_succeeded(
                    f,
                    len,
                    seq,
                    i as int,
                    g,
                    self.log().tree.length,
                    e,
                    c,
                    child_under,
                    listing(g, c),
                );
                assert(node@ =~= with_pair(n, i as int, left, e, c));
            }
            match self.fix_child(node, i + 1, child_under, Ghost(size)) {
                Ok(x) => {
                    proof {
                        lemma_moved_twice(self, &mid, &start, 3, 3 * high, 3 * (high + 1), size);
                    }
                    Ok(x)
                },
                Err(e) => Err(e),
            }
        } else {
            let (pred, c, child_under) = match self.delete_max(left, Ghost(size)) {
                Ok(x) => x,
                Err(e) => return Err(e),
            };
            let ghost mid = *self;
            let ghost g = self.nodes();
            let ghost e = (pred.0@, pred.1@);
            assert(pred.0.len() <= usize::MAX && pred.1.len() <= usize::MAX);
            entries.set(i, pred);
            children.set(i, c);
            let node: Node = Node { entries, children };
            proof {
                lemma_moved_parts(self, &start, 3 * high, size);
                lemma_moved_room(self, &start, 3 * high, size, 3);
                lemma_preceded(
                    f,
                    len,
                    seq,
                    i as int,
                    g,
                    self.log().tree.length,
                    e,
                    c,
                    child_under,
                    listing(g, c),
                );
                assert(node@ =~= with_pair(n, i as int, c, e, right));
            }
            match self.fix_child(node, i, child_under, Ghost(size)) {
                Ok(x) => {
                    proof {
                        lemma_moved_twice(self, &mid, &start, 3, 3 * high, 3 * (high + 1), size);
                    }
                    Ok(x)
                },
                Err(e) => Err(e),
            }
        }
    }

    /// Delete `key` below block `seq`.
    fn delete(&mut self, seq: u64, key: &[u8], Ghost(size): Ghost<nat>) -> (r: Result<
        Del,
        Error<S>,
    >)
        requires
            old(self).sound(),
            seq < old(self).log().tree.length,
            old(self).nodes()[seq].is_leaf() || old(self).nodes()[seq].entries.len() > 0,
            bulk(listing(old(self).nodes(), seq)) + 140 <= size,
            room(old(self).log(), 3 * (height(old(self).nodes(), seq) + 1), size),
            fits_upto::<S>(size),
        ensures
            match r {
                Ok(Del::NotFound) => {
                    &&& *final(self) == *old(self)
                    &&& !keyed_by(listing(old(self).nodes(), seq), key@)
                },
                Ok(Del::Down { seq: s, underflow }) => {
                    let f = old(self).nodes();
                    &&& keyed_by(listing(f, seq), key@)
                    &&& final(self).moved(old(self), 3 * (height(f, seq) + 1), size)
                    &&& sinks(
                        final(self).nodes(),
                        final(self).log().tree.length,
                        s,
                        underflow,
                        drop_from(listing(f, seq), key@),
                        height(f, seq),
                        f[seq].entries.len() - 1,
                    )
                },
                Err(e) => e is Storage && !S::sure() && final(self).stalled(old(self)),
            },
        decreases seq,
    {
        let ghost f = self.nodes();
        let ghost len = self.log().tree.length;
        let ghost high = height(f, seq);
        let ghost start = *self;
        let node: Node = match self.node(seq) {
            Ok(n) => n,
            Err(e) => return Err(e),
        };
        let ghost n = node@;
        let (found, i) = search(&node.entries, key);
        proof {
            lemma_put_bulk(listing(f, seq), key@, key@);
        }
        if found {
            if !node.is_leaf() {
                proof {
                    lemma_entry_listed(f, len, seq, i as int);
                }
                return match self.delete_inner(seq, node, i, Ghost(size)) {
                    Ok((s, underflow)) => Ok(Del::Down { seq: s, underflow }),
                    Err(e) => Err(e),
                };
            }
            let mut entries: Vec<(Vec<u8>, Vec<u8>)> = node.entries;
            let gone: (Vec<u8>, Vec<u8>) = entries.remove(i);
            let underflow: bool = entries.len() < MIN_KEYS;
            let node: Node = Node { entries, children: node.children };
            proof {
                lemma_leaf_remove(f, len, seq, i as int);
                assert(node@ =~= NodeView {
                    entries: n.entries.remove(i as int),
                    children: n.children,
                });
                lemma_room_less(self.log(), 3 * (high + 1), 1, size);
            }
            return match self.append_node(&node, Ghost(size)) {
                Ok(s) => {
                    proof {
                        lemma_moved_more(self, &start, 1, 3 * (high + 1), size);
                    }
                    Ok(Del::Down { seq: s, underflow })
                },
                Err(e) => Err(e),
            };
        }
        proof {
            lemma_absent(f, len, seq, i as int, key@);
        }
        if node.is_leaf() {
            return Ok(Del::NotFound);
        }
        let mut children: Vec<u64> = node.children;
        proof {
            lemma_child(f, len, seq, 0);
            lemma_child(f, len, seq, i as int);
            lemma_block(f, len, seq);
            lemma_room_less(self.log(), 3 * (high + 1), 3 * high, size);
        }
        let (c, child_under) = match self.delete(children[i], key, Ghost(size)) {
            Ok(Del::Down { seq: c, underflow }) => (c, underflow),
            Ok(Del::NotFound) => return Ok(Del::NotFound),
            Err(e) => return Err(e),
        };
        let ghost mid = *self;
        let ghost g = self.nodes();
        children.set(i, c);
        let node: Node = Node { entries: node.entries, children };
        proof {
            lemma_moved_parts(self, &start, 3 * high, size);
            lemma_moved_room(self, &start, 3 * high, size, 3);
            lemma_sunk(f, len, seq, i as int, key@, g, self.log().tree.length, c, child_under);
            assert(node@ =~= with_child(n, i as int, c));
        }
        match self.fix_child(node, i, child_under, Ghost(size)) {
            Ok((s, underflow)) => {
                proof {
                    lemma_moved_twice(self, &mid, &start, 3, 3 * high, 3 * (high + 1), size);
                }
                Ok(Del::Down { seq: s, underflow })
            },
            Err(e) => Err(e),
        }
    }

    /// Delete `key`, and say whether it was there. If it was not, no block is appended.
    pub fn del(&mut self, key: &[u8]) -> (r: Result<bool, Error<S>>)
        requires
            old(self).wf(),
            old(self).spare(0),
        ensures
            match r {
                Ok(b) => {
                    &&& b == map_of(old(self).pairs()).contains_key(key@)
                    &&& !b ==> *final(self) == *old(self)
                    &&& final(self).wf()
                    &&& final(self).pairs() == drop_from(old(self).pairs(), key@)
                    &&& map_of(final(self).pairs()) == map_of(old(self).pairs()).remove(key@)
                    &&& b ==> old(self).log().tree.length < final(self).log().tree.length
                        <= old(self).log().tree.length + 3 * old(self).levels() + 4
                    &&& forall|v: u64|
                        v <= old(self).log().tree.length ==> #[trigger] final(self).pairs_at(v)
                            == old(self).pairs_at(v)
                },
                Err(e) => {
                    &&& e is Storage
                    &&& !S::sure()
                    &&& old(self).log().tree.length > 0
                    &&& final(self).stalled(old(self))
                },
            },
    {
        let ghost f = self.nodes();
        let ghost len = self.log().tree.length;
        let ghost start = *self;
        let ghost size = self.span(0);
        let ghost high = self.levels();
        proof {
            lemma_pairs_sorted(self);
            lemma_put_map(self.pairs(), key@, key@);
            lemma_put_bulk(self.pairs(), key@, key@);
        }
        let root: u64 = match self.root_seq() {
            Some(s) => s,
            None => return Ok(false),
        };
        proof {
            lemma_room_less(self.log(), 3 * (high + 2), 3 * (high + 1) + 1, size);
            lemma_room_less(self.log(), 3 * (high + 2), 3 * (high + 1), size);
        }
        let s: u64 = match self.delete(root, key, Ghost(size)) {
            Ok(Del::NotFound) => return Ok(false),
            Ok(Del::Down { seq, underflow }) => seq,
            Err(e) => return Err(e),
        };
        let ghost mid = *self;
        let ghost g = self.nodes();
        proof {
            lemma_moved_parts(self, &start, 3 * (high + 1), size);
            lemma_moved_room(self, &start, 3 * (high + 1), size, 1);
            lemma_history(self, &start);
        }
        let node: Node = match self.node(s) {
            Ok(n) => n,
            Err(e) => return Err(e),
        };
        if node.entries.len() == 0 && !node.is_leaf() {
            proof {
                lemma_child(g, self.log().tree.length, s, 0);
                lemma_hollow(g, self.log().tree.length, s);
            }
            let child: Node = match self.node(node.children[0]) {
                Ok(n) => n,
                Err(e) => return Err(e),
            };
            match self.append_node(&child, Ghost(size)) {
                Ok(top) => {
                    proof {
                        lemma_moved_twice(
                            self,
                            &mid,
                            &start,
                            1,
                            3 * (high + 1),
                            3 * (high + 1) + 1,
                            size,
                        );
                        lemma_moved_parts(self, &start, 3 * (high + 1) + 1, size);
                        lemma_history(self, &start);
                    }
                },
                Err(e) => return Err(e),
            }
        }
        Ok(true)
    }
}

/// The key of an entry of a block is among those below it.
proof fn lemma_entry_listed(f: Forest, len: u64, seq: u64, i: int)
    requires
        grown(f, len),
        seq < len,
        0 <= i < f[seq].entries.len(),
    ensures
        keyed_by(listing(f, seq), f[seq].entries[i].0),
{
    let n = f[seq];
    lemma_block(f, len, seq);
    lemma_around_entry(n.entries, kids(f, n), i);
    let a = before(n.entries, kids(f, n), i) + kids(f, n)[i];
    assert(listing(f, seq)[a.len() as int] == n.entries[i]);
}

/// A key that is not among the entries of a block is below the child in which it belongs,
/// or nowhere.
proof fn lemma_absent(f: Forest, len: u64, seq: u64, i: int, k: Seq<u8>)
    requires
        grown(f, len),
        seq < len,
        0 <= i <= f[seq].entries.len(),
        i > 0 ==> bytes_lt(f[seq].entries[i - 1].0, k),
        i < f[seq].entries.len() ==> bytes_lt(k, f[seq].entries[i].0),
    ensures
        f[seq].is_leaf() ==> !keyed_by(listing(f, seq), k),
        !f[seq].is_leaf() ==> keyed_by(listing(f, seq), k) == keyed_by(
            listing(f, f[seq].children[i]),
            k,
        ),
{
    let n = f[seq];
    let q = kids(f, n);
    lemma_block(f, len, seq);
    lemma_around(n.entries, q, i, k);
    lemma_weave_at(n.entries, q, i);
    lemma_find_between(before(n.entries, q, i), q[i], after(n.entries, q, i), k);
    if n.is_leaf() {
        assert(q[i].len() == 0);
    }
}

/// A block without entries, and with one child, spreads to what is below that child.
proof fn lemma_hollow(f: Forest, len: u64, seq: u64)
    requires
        grown(f, len),
        seq < len,
        !f[seq].is_leaf(),
        f[seq].entries.len() == 0,
    ensures
        ({
            let c = f[seq].children[0];
            &&& may_stand(f, f[c], len)
            &&& spread(f, f[c]) == listing(f, seq)
        }),
{
    let n = f[seq];
    let q = kids(f, n);
    lemma_block(f, len, seq);
    lemma_child(f, len, seq, 0);
    lemma_block(f, len, n.children[0]);
    lemma_weave_at(n.entries, q, 0);
    assert(before(n.entries, q, 0) + q[0] + after(n.entries, q, 0) =~= q[0]);
}

} // verus!
