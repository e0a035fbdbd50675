//! Mending a node with an underfull child: borrowing from a sibling of the child, or
//! merging the child with one.
use vstd::prelude::*;
use super::btree::{
    left_part, lemma_cut, lemma_moved_more, lemma_moved_parts, lemma_moved_room, lemma_moved_twice,
    lemma_room_less, right_part,
};
use super::node::{copy_entry, small, bulk, Node, NodeView};
use super::order::lemma_sorted_parts;
use super::shape::{
    after, before, depth, extends, grown, height, kids, lemma_block, lemma_listing_same,
    lemma_sits_on, lemma_spread_same, lemma_weave_join, lemma_weave_pair, lemma_weave_remove,
    lemma_weave_update_pair, lemma_bulk_stretch, listing, may_stand, sits, sits_but, spread,
    Forest, MAX_CHILDREN, MIN_KEYS,
};
use super::{fits_upto, room, Error, Hyperbee};
use crate::bytemap::sorted;
use crate::storage::Store;

verus! {

broadcast use super::stalled::group_stalled;

/// Two nodes around an entry, as one.
pub open spec fn joined(a: NodeView, e: (Seq<u8>, Seq<u8>), b: NodeView) -> NodeView {
    NodeView { entries: a.entries + seq![e] + b.entries, children: a.children + b.children }
}

/// Joining two nodes of the same height.
proof fn lemma_joined(f: Forest, len: u64, a: NodeView, e: (Seq<u8>, Seq<u8>), b: NodeView)
    requires
        sits(f, a, len),
        sits(f, b, len),
        a.is_leaf() == b.is_leaf(),
        depth(f, a) == depth(f, b),
        sorted(spread(f, a) + seq![e] + spread(f, b)),
        e.0.len() <= u64::MAX,
        e.1.len() <= u64::MAX,
    ensures
        sits(f, joined(a, e, b), len),
        spread(f, joined(a, e, b)) == spread(f, a) + seq![e] + spread(f, b),
        depth(f, joined(a, e, b)) == depth(f, a),
        joined(a, e, b).is_leaf() == a.is_leaf(),
{
    reveal(sits_but);
    let j = joined(a, e, b);
    let ka = kids(f, a);
    let kb = kids(f, b);
    lemma_weave_join(a.entries, ka, e, b.entries, kb);
    let kj = kids(f, j);
    assert forall|i: int| 0 <= i < kj.len() implies kj[i] == (ka + kb)[i] by {
        if !a.is_leaf() {
            if i < ka.len() {
                assert(j.children[i] == a.children[i]);
            } else {
                assert(j.children[i] == b.children[i - ka.len()]);
            }
        }
    }
    assert(kj =~= ka + kb);
    assert(small(j.entries)) by {
        assert forall|i: int| 0 <= i < j.entries.len() implies (#[trigger] j.entries[i]).0.len()
            <= u64::MAX && j.entries[i].1.len() <= u64::MAX by {
            if i < a.entries.len() {
                assert(j.entries[i] == a.entries[i]);
            } else if i > a.entries.len() {
                assert(j.entries[i] == b.entries[i - a.entries.len() - 1]);
            }
        }
    }
    assert forall|i: int| 0 <= i < j.children.len() implies {
        let c = #[trigger] j.children[i];
        &&& c < len
        &&& height(f, c) == height(f, j.children[0])
        &&& f[c].entries.len() >= MIN_KEYS
    } by {
        assert(j.children[0] == a.children[0]);
        if i < a.children.len() {
            assert(j.children[i] == a.children[i]);
        } else {
            assert(j.children[i] == b.children[i - a.children.len()]);
        }
    }
    if !a.is_leaf() {
        assert(j.children[0] == a.children[0]);
    }
}

/// A node with children `j` and `j + 1` at other blocks, and another entry between them.
pub open spec fn with_pair(n: NodeView, j: int, l: u64, e: (Seq<u8>, Seq<u8>), r: u64) -> NodeView {
    NodeView {
        entries: n.entries.update(j, e),
        children: n.children.update(j, l).update(j + 1, r),
    }
}

/// How many keys child `j` must have where child `slack` may lack one.
pub open spec fn least_keys(j: int, slack: int) -> int {
    if j == slack {
        MIN_KEYS - 1
    } else {
        MIN_KEYS as int
    }
}

/// Putting other blocks in place of children `j` and `j + 1`, as high as those, and
/// another entry between them.
pub proof fn lemma_swap_pair(
    f: Forest,
    len: u64,
    n: NodeView,
    was_slack: int,
    j: int,
    g: Forest,
    more: u64,
    l: u64,
    e: (Seq<u8>, Seq<u8>),
    r: u64,
    slack: int,
)
    requires
        sits_but(f, n, len, was_slack),
        was_slack == -1 || was_slack == j || was_slack == j + 1,
        slack == -1 || slack == j || slack == j + 1,
        extends(f, len, g, more),
        0 <= j < n.entries.len(),
        !n.is_leaf(),
        l < more,
        r < more,
        height(g, l) == height(f, n.children[0]),
        height(g, r) == height(f, n.children[0]),
        g[l].entries.len() >= least_keys(j, slack),
        g[r].entries.len() >= least_keys(j + 1, slack),
        e.0.len() <= u64::MAX,
        e.1.len() <= u64::MAX,
        sorted(
            before(n.entries, kids(f, n), j) + (listing(g, l) + seq![e] + listing(g, r)) + after(
                n.entries,
                kids(f, n),
                j + 1,
            ),
        ),
    ensures
        sits_but(g, with_pair(n, j, l, e, r), more, slack),
        spread(g, with_pair(n, j, l, e, r)) == before(n.entries, kids(f, n), j) + (listing(g, l)
            + seq![e] + listing(g, r)) + after(n.entries, kids(f, n), j + 1),
        depth(g, with_pair(n, j, l, e, r)) == depth(f, n),
{
    reveal(sits_but);
    reveal(extends);
    let m = with_pair(n, j, l, e, r);
    lemma_spread_same(f, len, g, more, n);
    let k = kids(f, n);
    lemma_weave_update_pair(n.entries, k, j, listing(g, l), e, listing(g, r));
    let a = kids(g, m);
    let b = k.update(j, listing(g, l)).update(j + 1, listing(g, r));
    assert forall|i: int| 0 <= i < a.len() implies a[i] == b[i] by {
        if i != j && i != j + 1 {
            assert(m.children[i] == n.children[i]);
            assert(kids(g, n)[i] == k[i]);
        }
    }
    assert(a =~= b);
    assert forall|i: int| 0 <= i < m.children.len() implies {
        let d = #[trigger] m.children[i];
        &&& d < more
        &&& height(g, d) == height(g, m.children[0])
        &&& g[d].entries.len() >= if i == slack {
            MIN_KEYS - 1
        } else {
            MIN_KEYS as int
        }
    } by {
        if i != j && i != j + 1 {
            assert(m.children[i] == n.children[i]);
            assert(height(g, n.children[i]) == height(f, n.children[i]));
        }
        if j != 0 {
            assert(m.children[0] == n.children[0]);
            assert(height(g, n.children[0]) == height(f, n.children[0]));
        }
    }
    assert forall|i: int| 0 <= i < m.entries.len() implies (#[trigger] m.entries[i]).0.len()
        <= u64::MAX && m.entries[i].1.len() <= u64::MAX by {
        if i != j {
            assert(m.entries[i] == n.entries[i]);
        }
    }
}

/// A node with one block in place of children `j` and `j + 1`.
pub open spec fn with_merged(n: NodeView, j: int, c: u64) -> NodeView {
    NodeView { entries: n.entries.remove(j), children: n.children.remove(j + 1).update(j, c) }
}

/// Putting one block, as high as they are, in place of two children and the entry between
/// them.
proof fn lemma_merge_pair(
    f: Forest,
    len: u64,
    n: NodeView,
    was_slack: int,
    j: int,
    g: Forest,
    more: u64,
    c: u64,
)
    requires
        sits_but(f, n, len, was_slack),
        was_slack == j || was_slack == j + 1,
        extends(f, len, g, more),
        0 <= j < n.entries.len(),
        !n.is_leaf(),
        c < more,
        height(g, c) == height(f, n.children[0]),
        g[c].entries.len() >= MIN_KEYS,
        listing(g, c) == kids(f, n)[j] + seq![n.entries[j]] + kids(f, n)[j + 1],
    ensures
        sits(g, with_merged(n, j, c), more),
        spread(g, with_merged(n, j, c)) == spread(f, n),
        depth(g, with_merged(n, j, c)) == depth(f, n),
{
    reveal(sits_but);
    reveal(extends);
    let m = with_merged(n, j, c);
    lemma_spread_same(f, len, g, more, n);
    let k = kids(f, n);
    lemma_weave_remove(n.entries, k, j, listing(g, c));
    lemma_weave_pair(n.entries, k, j);
    let a = kids(g, m);
    let b = k.remove(j + 1).update(j, listing(g, c));
    assert forall|i: int| 0 <= i < a.len() implies a[i] == b[i] by {
        if i < j {
            assert(m.children[i] == n.children[i]);
            assert(kids(g, n)[i] == k[i]);
        } else if i > j {
            assert(m.children[i] == n.children[i + 1]);
            assert(kids(g, n)[i + 1] == k[i + 1]);
        }
    }
    assert(a =~= b);
    assert forall|i: int| 0 <= i < m.children.len() implies {
        let d = #[trigger] m.children[i];
        &&& d < more
        &&& height(g, d) == height(g, m.children[0])
        &&& g[d].entries.len() >= MIN_KEYS
    } by {
        if i < j {
            assert(m.children[i] == n.children[i]);
            assert(height(g, n.children[i]) == height(f, n.children[i]));
        } else if i > j {
            assert(m.children[i] == n.children[i + 1]);
            assert(height(g, n.children[i + 1]) == height(f, n.children[i + 1]));
        }
        if j != 0 {
            assert(m.children[0] == n.children[0]);
            assert(height(g, n.children[0]) == height(f, n.children[0]));
        }
    }
    assert forall|i: int| 0 <= i < m.entries.len() implies (#[trigger] m.entries[i]).0.len()
        <= u64::MAX && m.entries[i].1.len() <= u64::MAX by {
        if i < j {
            assert(m.entries[i] == n.entries[i]);
        } else {
            assert(m.entries[i] == n.entries[i + 1]);
        }
    }
}

/// What two neighbouring children of a node are.
proof fn lemma_pair(f: Forest, len: u64, n: NodeView, slack: int, j: int)
    requires
        grown(f, len),
        sits_but(f, n, len, slack),
        0 <= j < n.entries.len(),
        !n.is_leaf(),
    ensures
        n.children.len() == n.entries.len() + 1,
        n.children[j] < len,
        n.children[j + 1] < len,
        ({
            let a = f[n.children[j]];
            let b = f[n.children[j + 1]];
            let both = spread(f, a) + seq![n.entries[j]] + spread(f, b);
            &&& may_stand(f, a, len)
            &&& may_stand(f, b, len)
            &&& a.is_leaf() == b.is_leaf()
            &&& depth(f, a) == height(f, n.children[0])
            &&& depth(f, b) == height(f, n.children[0])
            &&& kids(f, n)[j] == spread(f, a)
            &&& kids(f, n)[j + 1] == spread(f, b)
            &&& sorted(both)
            &&& bulk(both) <= bulk(spread(f, n))
            &&& spread(f, n) == before(n.entries, kids(f, n), j) + both + after(
                n.entries,
                kids(f, n),
                j + 1,
            )
            &&& a.entries.len() >= least_keys(j, slack)
            &&& b.entries.len() >= least_keys(j + 1, slack)
        }),
        n.entries[j].0.len() <= u64::MAX,
        n.entries[j].1.len() <= u64::MAX,
        sorted(spread(f, n)),
{
    reveal(sits_but);
    let k = kids(f, n);
    lemma_weave_pair(n.entries, k, j);
    let both = k[j] + seq![n.entries[j]] + k[j + 1];
    let x = before(n.entries, k, j);
    let z = after(n.entries, k, j + 1);
    lemma_sorted_parts(x, both, z);
    lemma_bulk_stretch(x, both, z);
    assert(height(f, n.children[j]) == height(f, n.children[0]));
    assert(height(f, n.children[j + 1]) == height(f, n.children[0]));
    lemma_block(f, len, n.children[j]);
    lemma_block(f, len, n.children[j + 1]);
}

/// Whether a node sits but for child `i`, which lacks one key.
pub open spec fn lacking(f: Forest, n: NodeView, len: u64, i: int) -> bool {
    &&& sits_but(f, n, len, i)
    &&& !n.is_leaf()
    &&& 1 <= n.entries.len() < MAX_CHILDREN
    &&& 0 <= i <= n.entries.len()
    &&& f[n.children[i]].entries.len() == MIN_KEYS - 1
}

/// Whether a node `m` in a forest `g` is the node `n` in `f` with its child mended: it
/// spreads to the same, and has at most one entry less.
pub open spec fn mended(f: Forest, n: NodeView, g: Forest, m: NodeView, more: u64) -> bool {
    &&& sits(g, m, more)
    &&& !m.is_leaf()
    &&& n.entries.len() - 1 <= m.entries.len() <= n.entries.len()
    &&& spread(g, m) == spread(f, n)
    &&& depth(g, m) == depth(f, n)
}

/// Whether a sibling next to child `i` of a node has keys to spare.
pub open spec fn lends(f: Forest, n: NodeView, i: int) -> bool {
    ||| i > 0 && f[n.children[i - 1]].entries.len() > MIN_KEYS
    ||| i + 1 < n.children.len() && f[n.children[i + 1]].entries.len() > MIN_KEYS
}

impl<S: Store> Hyperbee<S> {
    /// Append two nodes.
    fn append_two(&mut self, left: &Node, right: &Node, Ghost(size): Ghost<nat>) -> (r: Result<
        (u64, u64),
        Error<S>,
    >)
        requires
            old(self).sound(),
            may_stand(old(self).nodes(), left@, old(self).log().tree.length),
            may_stand(old(self).nodes(), right@, old(self).log().tree.length),
            bulk(spread(old(self).nodes(), left@)) + 120 <= size,
            bulk(spread(old(self).nodes(), right@)) + 120 <= size,
            room(old(self).log(), 2, size),
            fits_upto::<S>(size),
        ensures
            match r {
                Ok((a, b)) => {
                    &&& final(self).moved(old(self), 2, size)
                    &&& a < final(self).log().tree.length
                    &&& b < final(self).log().tree.length
                    &&& final(self).nodes()[a] == left@
                    &&& final(self).nodes()[b] == right@
                    &&& listing(final(self).nodes(), a) == spread(old(self).nodes(), left@)
                    &&& listing(final(self).nodes(), b) == spread(old(self).nodes(), right@)
                    &&& height(final(self).nodes(), a) == depth(old(self).nodes(), left@)
                    &&& height(final(self).nodes(), b) == depth(old(self).nodes(), right@)
                },
                Err(e) => e is Storage && !S::sure() && final(self).stalled(old(self)),
            },
    {
        let ghost f = self.nodes();
        let ghost len = self.log().tree.length;
        let ghost start = *self;
        proof {
            lemma_room_less(self.log(), 2, 1, size);
        }
        let a: u64 = match self.append_node(left, Ghost(size)) {
            Ok(s) => s,
            Err(e) => return Err(e),
        };
        let ghost mid = *self;
        let ghost g = self.nodes();
        proof {
            lemma_moved_parts(self, &start, 1, size);
            lemma_moved_room(self, &start, 1, size, 1);
            lemma_sits_on(f, len, g, self.log().tree.length, right@, -1);
        }
        let b: u64 = match self.append_node(right, Ghost(size)) {
            Ok(s) => s,
            Err(e) => return Err(e),
        };
        proof {
            let h = self.nodes();
            assert forall|s: u64| s <= a implies #[trigger] h[s] == g[s] by {}
            lemma_listing_same(g, h, a);
            assert(h[a] == g[a]);
            lemma_moved_twice(self, &mid, &start, 1, 1, 2, size);
        }
        Ok((a, b))
    }

    /// Move an entry from the left sibling of child `i` through the node.
    fn borrow_left(&mut self, node: &mut Node, i: usize, left: Node, Ghost(size): Ghost<nat>) -> (r:
        Result<(), Error<S>>)
        requires
            old(self).sound(),
            lacking(old(self).nodes(), old(node)@, old(self).log().tree.length, i as int),
            i > 0,
            left@ == old(self).nodes()[old(node)@.children[i - 1]],
            left@.entries.len() > MIN_KEYS,
            bulk(spread(old(self).nodes(), old(node)@)) + 120 <= size,
            room(old(self).log(), 2, size),
            fits_upto::<S>(size),
        ensures
            match r {
                Ok(()) => {
                    &&& final(self).moved(old(self), 2, size)
                    &&& mended(
                        old(self).nodes(),
                        old(node)@,
                        final(self).nodes(),
                        final(node)@,
                        final(self).log().tree.length,
                    )
                    &&& final(node)@.entries.len() == old(node)@.entries.len()
                },
                Err(e) => e is Storage && !S::sure() && final(self).stalled(old(self)),
            },
    {
        let ghost f = self.nodes();
        let ghost len = self.log().tree.length;
        let ghost n = node@;
        let ghost start = *self;
        proof {
            lemma_pair(f, len, n, i as int, i - 1);
        }
        let child: Node = match self.node(node.children[i]) {
            Ok(c) => c,
            Err(e) => return Err(e),
        };
        let ghost a = left@;
        let ghost b = child@;
        let ghost e = n.entries[i - 1];
        let ghost whole = joined(a, e, b);
        let ghost mid = a.entries.len() - 1;
        proof {
            lemma_joined(f, len, a, e, b);
            lemma_cut(f, len, whole, mid);
            assert(a.is_leaf() || a.children.len() == a.entries.len() + 1) by {
                reveal(sits_but);
            }
        }
        let mut left_entries: Vec<(Vec<u8>, Vec<u8>)> = left.entries;
        let mut left_children: Vec<u64> = left.children;
        let mut child_entries: Vec<(Vec<u8>, Vec<u8>)> = child.entries;
        let mut child_children: Vec<u64> = child.children;
        child_entries.insert(0, copy_entry(&node.entries[i - 1]));
        match left_children.pop() {
            Some(c) => {
                child_children.insert(0, c);
            },
            None => {},
        }
        let up: (Vec<u8>, Vec<u8>) = match left_entries.pop() {
            Some(x) => x,
            None => (Vec::new(), Vec::new()),
        };
        let left: Node = Node { entries: left_entries, children: left_children };
        let child: Node = Node { entries: child_entries, children: child_children };
        let ghost u = (up.0@, up.1@);
        proof {
            assert(left@ =~= left_part(whole, mid));
            assert(child@ =~= right_part(whole, mid));
            assert(u == whole.entries[mid]);
        }
        let (l, r) = match self.append_two(&left, &child, Ghost(size)) {
            Ok(x) => x,
            Err(e) => return Err(e),
        };
        node.entries.set(i - 1, up);
        node.children.set(i - 1, l);
        node.children.set(i, r);
        proof {
            lemma_moved_parts(self, &start, 2, size);
            lemma_swap_pair(
                f,
                len,
                n,
                i as int,
                i - 1,
                self.nodes(),
                self.log().tree.length,
                l,
                u,
                r,
                -1,
            );
            assert(node@ =~= with_pair(n, i - 1, l, u, r));
        }
        Ok(())
    }

    /// Move an entry from the right sibling of child `i` through the node.
    fn borrow_right(&mut self, node: &mut Node, i: usize, right: Node, Ghost(size): Ghost<nat>) -> (r:
        Result<(), Error<S>>)
        requires
            old(self).sound(),
            lacking(old(self).nodes(), old(node)@, old(self).log().tree.length, i as int),
            i < old(node)@.entries.len(),
            right@ == old(self).nodes()[old(node)@.children[i + 1]],
            right@.entries.len() > MIN_KEYS,
            bulk(spread(old(self).nodes(), old(node)@)) + 120 <= size,
            room(old(self).log(), 2, size),
            fits_upto::<S>(size),
        ensures
            match r {
                Ok(()) => {
                    &&& final(self).moved(old(self), 2, size)
                    &&& mended(
                        old(self).nodes(),
                        old(node)@,
                        final(self).nodes(),
                        final(node)@,
                        final(self).log().tree.length,
                    )
                    &&& final(node)@.entries.len() == old(node)@.entries.len()
                },
                Err(e) => e is Storage && !S::sure() && final(self).stalled(old(self)),
            },
    {
        let ghost f = self.nodes();
        let ghost len = self.log().tree.length;
        let ghost n = node@;
        let ghost start = *self;
        proof {
            lemma_pair(f, len, n, i as int, i as int);
        }
        let child: Node = match self.node(node.children[i]) {
            Ok(c) => c,
            Err(e) => return Err(e),
        };
        let ghost a = child@;
        let ghost b = right@;
        let ghost e = n.entries[i as int];
        let ghost whole = joined(a, e, b);
        let ghost mid = a.entries.len() + 1;
        proof {
            lemma_joined(f, len, a, e, b);
            lemma_cut(f, len, whole, mid as int);
            assert(a.is_leaf() || a.children.len() == a.entries.len() + 1) by {
                reveal(sits_but);
            }
            assert(b.is_leaf() || b.children.len() == b.entries.len() + 1) by {
                reveal(sits_but);
            }
        }
        let mut right_entries: Vec<(Vec<u8>, Vec<u8>)> = right.entries;
        let mut right_children: Vec<u64> = right.children;
        let mut child_entries: Vec<(Vec<u8>, Vec<u8>)> = child.entries;
        let mut child_children: Vec<u64> = child.children;
        child_entries.push(copy_entry(&node.entries[i]));
        if right_children.len() > 0 {
            let c: u64 = right_children.remove(0);
            child_children.push(c);
        }
        let up: (Vec<u8>, Vec<u8>) = right_entries.remove(0);
        let child: Node = Node { entries: child_entries, children: child_children };
        let right: Node = Node { entries: right_entries, children: right_children };
        let ghost u = (up.0@, up.1@);
        proof {
            assert(child@ =~= left_part(whole, mid as int));
            assert(right@ =~= right_part(whole, mid as int));
            assert(u == whole.entries[mid as int]);
        }
        let (l, r) = match self.append_two(&child, &right, Ghost(size)) {
            Ok(x) => x,
            Err(e) => return Err(e),
        };
        node.entries.set(i, up);
        node.children.set(i, l);
        node.children.set(i + 1, r);
        proof {
            lemma_moved_parts(self, &start, 2, size);
            lemma_swap_pair(
                f,
                len,
                n,
                i as int,
                i as int,
                self.nodes(),
                self.log().tree.length,
                l,
                u,
                r,
                -1,
            );
            assert(node@ =~= with_pair(n, i as int, l, u, r));
        }
        Ok(())
    }

    /// Merge children `j` and `j + 1`, one of which is child `i`, and the entry between
    /// them, which leaves the node.
    fn merge(&mut self, node: &mut Node, i: usize, j: usize, Ghost(size): Ghost<nat>) -> (r: Result<
        (),
        Error<S>,
    >)
        requires
            old(self).sound(),
            lacking(old(self).nodes(), old(node)@, old(self).log().tree.length, i as int),
            i == j || i == j + 1,
            j < old(node)@.entries.len(),
            old(self).nodes()[old(node)@.children[j as int]].entries.len() <= MIN_KEYS,
            old(self).nodes()[old(node)@.children[j + 1]].entries.len() <= MIN_KEYS,
            bulk(spread(old(self).nodes(), old(node)@)) + 120 <= size,
            room(old(self).log(), 1, size),
            fits_upto::<S>(size),
        ensures
            match r {
                Ok(()) => {
                    &&& final(self).moved(old(self), 1, size)
                    &&& mended(
                        old(self).nodes(),
                        old(node)@,
                        final(self).nodes(),
                        final(node)@,
                        final(self).log().tree.length,
                    )
                    &&& final(node)@.entries.len() == old(node)@.entries.len() - 1
                },
                Err(e) => e is Storage && !S::sure() && final(self).stalled(old(self)),
            },
    {
        let ghost f = self.nodes();
        let ghost len = self.log().tree.length;
        let ghost n = node@;
        let ghost start = *self;
        proof {
            lemma_pair(f, len, n, i as int, j as int);
        }
        let left: Node = match self.node(node.children[j]) {
            Ok(c) => c,
            Err(e) => return Err(e),
        };
        let right: Node = match self.node(node.children[j + 1]) {
            Ok(c) => c,
            Err(e) => return Err(e),
        };
        let ghost a = left@;
        let ghost b = right@;
        let ghost e = n.entries[j as int];
        let ghost whole = joined(a, e, b);
        proof {
            lemma_joined(f, len, a, e, b);
        }
        let mut entries: Vec<(Vec<u8>, Vec<u8>)> = left.entries;
        let mut children: Vec<u64> = left.children;
        let mut more_entries: Vec<(Vec<u8>, Vec<u8>)> = right.entries;
        let mut more_children: Vec<u64> = right.children;
        entries.push(copy_entry(&node.entries[j]));
        entries.append(&mut more_entries);
        children.append(&mut more_children);
        let both: Node = Node { entries, children };
        assert(both@ =~= whole);
        let c: u64 = match self.append_node(&both, Ghost(size)) {
            Ok(s) => s,
            Err(e) => return Err(e),
        };
        let gone: (Vec<u8>, Vec<u8>) = node.entries.remove(j);
        let other: u64 = node.children.remove(j + 1);
        node.children.set(j, c);
        proof {
            lemma_moved_parts(self, &start, 1, size);
            lemma_merge_pair(
                f,
                len,
                n,
                i as int,
                j as int,
                self.nodes(),
                self.log().tree.length,
                c,
            );
            assert(node@ =~= with_merged(n, j as int, c));
        }
        Ok(())
    }

    /// Give child `i` of a node, which lacks one key, its least number of keys: borrow
    /// from a sibling with keys to spare, the left one first, or else merge with one, which
    /// takes an entry out of the node.
    pub(crate) fn rebalance(&mut self, node: &mut Node, i: usize, Ghost(size): Ghost<nat>) -> (r:
        Result<(), Error<S>>)
        requires
            old(self).sound(),
            lacking(old(self).nodes(), old(node)@, old(self).log().tree.length, i as int),
            bulk(spread(old(self).nodes(), old(node)@)) + 120 <= size,
            room(old(self).log(), 2, size),
            fits_upto::<S>(size),
        ensures
            match r {
                Ok(()) => {
                    &&& final(self).moved(old(self), 2, size)
                    &&& mended(
                        old(self).nodes(),
                        old(node)@,
                        final(self).nodes(),
                        final(node)@,
                        final(self).log().tree.length,
                    )
                    &&& final(node)@.entries.len() == if lends(
                        old(self).nodes(),
                        old(node)@,
                        i as int,
                    ) {
                        old(node)@.entries.len() as int
                    } else {
                        old(node)@.entries.len() - 1
                    }
                },
                Err(e) => e is Storage && !S::sure() && final(self).stalled(old(self)),
            },
    {
        let ghost f = self.nodes();
        let ghost len = self.log().tree.length;
        let ghost n = node@;
        let ghost start = *self;
        proof {
            lemma_room_less(self.log(), 2, 1, size);
            if i > 0 {
                lemma_pair(f, len, n, i as int, i - 1);
            } else {
                lemma_pair(f, len, n, i as int, i as int);
            }
        }
        if i > 0 {
            let left: Node = match self.node(node.children[i - 1]) {
                Ok(c) => c,
                Err(e) => return Err(e),
            };
            if left.entries.len() > MIN_KEYS {
                return self.borrow_left(node, i, left, Ghost(size));
            }
        }
        if i + 1 < node.children.len() {
            proof {
                lemma_pair(f, len, n, i as int, i as int);
            }
            let right: Node = match self.node(node.children[i + 1]) {
                Ok(c) => c,
                Err(e) => return Err(e),
            };
            if right.entries.len() > MIN_KEYS {
                return self.borrow_right(node, i, right, Ghost(size));
            }
        }
        let j: usize = if i > 0 {
            i - 1
        } else {
            i
        };
        match self.merge(node, i, j, Ghost(size)) {
            Ok(()) => {
                proof {
                    lemma_moved_more(self, &start, 1, 2, size);
                }
                Ok(())
            },
            Err(e) => Err(e),
        }
    }
}

} // verus!
