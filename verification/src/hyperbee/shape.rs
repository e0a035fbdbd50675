//! The shape of a B-tree whose nodes are blocks, and what stands in it in order.
use vstd::prelude::*;
use super::node::{bulk, larger, lemma_bulk_append, lemma_bulk_one, small, NodeView};
use crate::bytemap::{sorted, Pairs};

verus! {

/// A node splits once it would hold this many keys.
pub const MAX_CHILDREN: usize = 9;

/// The keys that every node but the root holds at least.
pub const MIN_KEYS: usize = 4;

/// Nodes by block number.
pub type Forest = Map<u64, NodeView>;

/// What stands before child `i`: the children and entries before it, in turn.
pub open spec fn before(entries: Pairs, kids: Seq<Pairs>, i: int) -> Pairs
    decreases i,
{
    if i <= 0 {
        Seq::empty()
    } else {
        before(entries, kids, i - 1) + kids[i - 1] + seq![entries[i - 1]]
    }
}

/// What stands after child `i`: the entries and children after it, in turn.
pub open spec fn after(entries: Pairs, kids: Seq<Pairs>, i: int) -> Pairs
    decreases entries.len() - i,
{
    if i >= entries.len() {
        Seq::empty()
    } else {
        seq![entries[i]] + kids[i + 1] + after(entries, kids, i + 1)
    }
}

/// Children and entries in turn.
#[verifier::opaque]
pub open spec fn weave(entries: Pairs, kids: Seq<Pairs>) -> Pairs {
    before(entries, kids, entries.len() as int) + kids[entries.len() as int]
}

/// Everything below block `seq`, in order.
#[verifier::opaque]
pub open spec fn listing(f: Forest, seq: u64) -> Pairs
    decreases seq, 1int,
{
    weave(f[seq].entries, older_kids(f, f[seq], seq))
}

/// What stands below each child of a node that is older than block `seq`.
pub open spec fn older_kids(f: Forest, n: NodeView, seq: u64) -> Seq<Pairs>
    decreases seq, 0int,
{
    Seq::new(
        n.entries.len() + 1,
        |j: int|
            if n.is_leaf() || n.children[j] >= seq {
                Seq::empty()
            } else {
                listing(f, n.children[j])
            },
    )
}

/// What stands below each child of a node.
pub open spec fn kids(f: Forest, n: NodeView) -> Seq<Pairs> {
    Seq::new(
        n.entries.len() + 1,
        |j: int|
            if n.is_leaf() {
                Seq::empty()
            } else {
                listing(f, n.children[j])
            },
    )
}

/// Everything in and below a node, in order.
pub open spec fn spread(f: Forest, n: NodeView) -> Pairs {
    weave(n.entries, kids(f, n))
}

/// How many levels are below block `seq`.
#[verifier::opaque]
pub open spec fn height(f: Forest, seq: u64) -> nat
    decreases seq,
{
    let n = f[seq];
    if n.is_leaf() || n.children[0] >= seq {
        0
    } else {
        1 + height(f, n.children[0])
    }
}

/// How many levels are below a node.
pub open spec fn depth(f: Forest, n: NodeView) -> nat {
    if n.is_leaf() {
        0
    } else {
        1 + height(f, n.children[0])
    }
}

/// Whether a node, overfull or not, may come to stand at block `seq`: if it has children
/// they are one more than its entries, older blocks, equally high and not underfull, but
/// for child `slack`, which may lack one key; and everything in it is in key order.
#[verifier::opaque]
pub open spec fn sits_but(f: Forest, n: NodeView, seq: u64, slack: int) -> bool {
    &&& small(n.entries)
    &&& sorted(spread(f, n))
    &&& !n.is_leaf() ==> n.children.len() == n.entries.len() + 1
    &&& forall|j: int|
        0 <= j < n.children.len() ==> {
            let c = #[trigger] n.children[j];
            &&& c < seq
            &&& height(f, c) == height(f, n.children[0])
            &&& f[c].entries.len() >= if j == slack {
                MIN_KEYS - 1
            } else {
                MIN_KEYS as int
            }
        }
}

/// [`sits_but`], with no child underfull.
pub open spec fn sits(f: Forest, n: NodeView, seq: u64) -> bool {
    sits_but(f, n, seq, -1)
}

/// Whether a node may stand at block `seq`: it sits there, and is not overfull.
pub open spec fn may_stand(f: Forest, n: NodeView, seq: u64) -> bool {
    n.entries.len() < MAX_CHILDREN && sits(f, n, seq)
}

/// Whether every block before `len` is a node that may stand there.
#[verifier::opaque]
pub open spec fn grown(f: Forest, len: u64) -> bool {
    forall|s: u64| s < len ==> may_stand(f, #[trigger] f[s], s)
}

// ---- children and entries in turn

pub proof fn lemma_before_same(a: Pairs, x: Seq<Pairs>, b: Pairs, y: Seq<Pairs>, i: int)
    requires
        i <= a.len() <= b.len() || i <= b.len() <= a.len(),
        i <= x.len(),
        i <= y.len(),
        forall|j: int| 0 <= j < i ==> a[j] == b[j] && x[j] == y[j],
    ensures
        before(a, x, i) == before(b, y, i),
    decreases i,
{
    if i > 0 {
        lemma_before_same(a, x, b, y, i - 1);
        assert(a[i - 1] == b[i - 1] && x[i - 1] == y[i - 1]);
    }
}

proof fn lemma_after_same(a: Pairs, x: Seq<Pairs>, i: int, b: Pairs, y: Seq<Pairs>, j: int)
    requires
        0 <= i <= a.len(),
        0 <= j <= b.len(),
        a.len() - i == b.len() - j,
        forall|k: int| 0 <= k < a.len() - i ==> #[trigger] a[i + k] == b[j + k],
        forall|k: int| 0 < k <= a.len() - i ==> #[trigger] x[i + k] == y[j + k],
    ensures
        after(a, x, i) == after(b, y, j),
    decreases a.len() - i,
{
    if i < a.len() {
        assert(a[i + 0] == b[j + 0]);
        assert(x[i + 1] == y[j + 1]);
        assert forall|k: int| 0 <= k < a.len() - (i + 1) implies #[trigger] a[i + 1 + k] == b[j + 1
            + k] by {
            assert(a[i + (k + 1)] == b[j + (k + 1)]);
        }
        assert forall|k: int| 0 < k <= a.len() - (i + 1) implies #[trigger] x[i + 1 + k] == y[j + 1
            + k] by {
            assert(x[i + (k + 1)] == y[j + (k + 1)]);
        }
        lemma_after_same(a, x, i + 1, b, y, j + 1);
    }
}

/// Child `i` in its place.
pub proof fn lemma_weave_at(entries: Pairs, kids: Seq<Pairs>, i: int)
    requires
        0 <= i <= entries.len(),
    ensures
        weave(entries, kids) == before(entries, kids, i) + kids[i] + after(entries, kids, i),
    decreases entries.len() - i,
{
    reveal(weave);
    if i == entries.len() {
        assert(before(entries, kids, i) + kids[i] + after(entries, kids, i) =~= before(
            entries,
            kids,
            i,
        ) + kids[i]);
    } else {
        lemma_weave_at(entries, kids, i + 1);
        let b = before(entries, kids, i);
        let a = after(entries, kids, i + 1);
        assert(before(entries, kids, i + 1) == b + kids[i] + seq![entries[i]]);
        assert(b + kids[i] + seq![entries[i]] + kids[i + 1] + a =~= b + kids[i] + (seq![entries[i]]
            + kids[i + 1] + a));
    }
}

/// Two neighbouring children in their place.
pub proof fn lemma_weave_pair(entries: Pairs, kids: Seq<Pairs>, i: int)
    requires
        0 <= i < entries.len(),
    ensures
        weave(entries, kids) == before(entries, kids, i) + (kids[i] + seq![entries[i]] + kids[i
            + 1]) + after(entries, kids, i + 1),
{
    reveal(weave);
    lemma_weave_at(entries, kids, i + 1);
    let b = before(entries, kids, i);
    let a = after(entries, kids, i + 1);
    assert(before(entries, kids, i + 1) == b + kids[i] + seq![entries[i]]);
    assert(b + kids[i] + seq![entries[i]] + kids[i + 1] + a =~= b + (kids[i] + seq![entries[i]]
        + kids[i + 1]) + a);
}

/// A leaf's children hold nothing.
pub proof fn lemma_weave_bare(entries: Pairs, kids: Seq<Pairs>)
    requires
        kids.len() == entries.len() + 1,
        forall|j: int| 0 <= j < kids.len() ==> (#[trigger] kids[j]).len() == 0,
    ensures
        weave(entries, kids) == entries,
{
    reveal(weave);
    lemma_before_bare(entries, kids, entries.len() as int);
    assert(entries.take(entries.len() as int) =~= entries);
    assert(kids[entries.len() as int] =~= Seq::empty());
    assert(weave(entries, kids) =~= entries);
}

proof fn lemma_before_bare(entries: Pairs, kids: Seq<Pairs>, i: int)
    requires
        kids.len() == entries.len() + 1,
        0 <= i <= entries.len(),
        forall|j: int| 0 <= j < kids.len() ==> (#[trigger] kids[j]).len() == 0,
    ensures
        before(entries, kids, i) == entries.take(i),
    decreases i,
{
    if i == 0 {
        assert(entries.take(0) =~= Seq::empty());
    } else {
        lemma_before_bare(entries, kids, i - 1);
        assert(kids[i - 1].len() == 0);
        assert(before(entries, kids, i) =~= entries.take(i));
    }
}

/// Cutting a node at entry `mid`.
pub proof fn lemma_weave_split(entries: Pairs, kids: Seq<Pairs>, mid: int)
    requires
        0 <= mid < entries.len(),
        kids.len() == entries.len() + 1,
    ensures
        weave(entries, kids) == weave(entries.take(mid), kids.take(mid + 1)) + seq![entries[mid]]
            + weave(entries.skip(mid + 1), kids.skip(mid + 1)),
{
    reveal(weave);
    let le = entries.take(mid);
    let lk = kids.take(mid + 1);
    let re = entries.skip(mid + 1);
    let rk = kids.skip(mid + 1);
    lemma_weave_pair(entries, kids, mid);
    lemma_before_same(entries, kids, le, lk, mid);
    lemma_weave_at(re, rk, 0);
    assert forall|k: int| 0 <= k < entries.len() - (mid + 1) implies #[trigger] entries[mid + 1 + k]
        == re[0 + k] by {}
    assert forall|k: int| 0 < k <= entries.len() - (mid + 1) implies #[trigger] kids[mid + 1 + k]
        == rk[0 + k] by {}
    lemma_after_same(entries, kids, mid + 1, re, rk, 0);
    let b = before(entries, kids, mid);
    let a = after(entries, kids, mid + 1);
    assert(before(re, rk, 0) =~= Seq::empty());
    assert(b + (kids[mid] + seq![entries[mid]] + kids[mid + 1]) + a =~= (b + kids[mid]) + seq![
        entries[mid],
    ] + (before(re, rk, 0) + kids[mid + 1] + a));
}

/// Joining two nodes around a separator.
pub proof fn lemma_weave_join(
    le: Pairs,
    lk: Seq<Pairs>,
    s: (Seq<u8>, Seq<u8>),
    re: Pairs,
    rk: Seq<Pairs>,
)
    requires
        lk.len() == le.len() + 1,
        rk.len() == re.len() + 1,
    ensures
        weave(le + seq![s] + re, lk + rk) == weave(le, lk) + seq![s] + weave(re, rk),
{
    reveal(weave);
    let e = le + seq![s] + re;
    let k = lk + rk;
    lemma_weave_split(e, k, le.len() as int);
    assert(e.take(le.len() as int) =~= le);
    assert(k.take(le.len() as int + 1) =~= lk);
    assert(e.skip(le.len() as int + 1) =~= re);
    assert(k.skip(le.len() as int + 1) =~= rk);
}

/// Replacing child `i`.
pub proof fn lemma_weave_update(entries: Pairs, kids: Seq<Pairs>, i: int, x: Pairs)
    requires
        0 <= i <= entries.len(),
        kids.len() == entries.len() + 1,
    ensures
        weave(entries, kids.update(i, x)) == before(entries, kids, i) + x + after(entries, kids, i),
{
    reveal(weave);
    let k = kids.update(i, x);
    lemma_weave_at(entries, k, i);
    lemma_before_same(entries, kids, entries, k, i);
    assert forall|j: int| 0 < j <= entries.len() - i implies #[trigger] kids[i + j] == k[i + j] by {}
    lemma_after_same(entries, kids, i, entries, k, i);
}

/// Replacing children `i` and `i + 1` and the entry between them.
pub proof fn lemma_weave_update_pair(
    entries: Pairs,
    kids: Seq<Pairs>,
    i: int,
    x: Pairs,
    s: (Seq<u8>, Seq<u8>),
    y: Pairs,
)
    requires
        0 <= i < entries.len(),
        kids.len() == entries.len() + 1,
    ensures
        weave(entries.update(i, s), kids.update(i, x).update(i + 1, y)) == before(
            entries,
            kids,
            i,
        ) + (x + seq![s] + y) + after(entries, kids, i + 1),
{
    reveal(weave);
    let e = entries.update(i, s);
    let k = kids.update(i, x).update(i + 1, y);
    lemma_weave_pair(e, k, i);
    lemma_before_same(entries, kids, e, k, i);
    assert forall|j: int| 0 <= j < entries.len() - (i + 1) implies #[trigger] entries[i + 1 + j]
        == e[i + 1 + j] by {}
    assert forall|j: int| 0 < j <= entries.len() - (i + 1) implies #[trigger] kids[i + 1 + j]
        == k[i + 1 + j] by {}
    lemma_after_same(entries, kids, i + 1, e, k, i + 1);
}

/// Putting two children with an entry between them in place of child `i`.
pub proof fn lemma_weave_insert(
    entries: Pairs,
    kids: Seq<Pairs>,
    i: int,
    x: Pairs,
    s: (Seq<u8>, Seq<u8>),
    y: Pairs,
)
    requires
        0 <= i <= entries.len(),
        kids.len() == entries.len() + 1,
    ensures
        weave(entries.insert(i, s), kids.update(i, x).insert(i + 1, y)) == before(
            entries,
            kids,
            i,
        ) + (x + seq![s] + y) + after(entries, kids, i),
{
    reveal(weave);
    let e = entries.insert(i, s);
    let k = kids.update(i, x).insert(i + 1, y);
    lemma_weave_pair(e, k, i);
    lemma_before_same(entries, kids, e, k, i);
    assert forall|j: int| 0 <= j < entries.len() - i implies #[trigger] entries[i + j] == e[i + 1
        + j] by {}
    assert forall|j: int| 0 < j <= entries.len() - i implies #[trigger] kids[i + j] == k[i + 1
        + j] by {}
    lemma_after_same(entries, kids, i, e, k, i + 1);
}

/// Putting one child in place of children `i` and `i + 1` and the entry between them.
pub proof fn lemma_weave_remove(entries: Pairs, kids: Seq<Pairs>, i: int, x: Pairs)
    requires
        0 <= i < entries.len(),
        kids.len() == entries.len() + 1,
    ensures
        weave(entries.remove(i), kids.remove(i + 1).update(i, x)) == before(entries, kids, i) + x
            + after(entries, kids, i + 1),
{
    reveal(weave);
    let e = entries.remove(i);
    let k = kids.remove(i + 1).update(i, x);
    lemma_weave_at(e, k, i);
    lemma_before_same(entries, kids, e, k, i);
    assert forall|j: int| 0 <= j < entries.len() - (i + 1) implies #[trigger] entries[i + 1 + j]
        == e[i + j] by {}
    assert forall|j: int| 0 < j <= entries.len() - (i + 1) implies #[trigger] kids[i + 1 + j]
        == k[i + j] by {}
    lemma_after_same(entries, kids, i + 1, e, k, i);
}

// ---- forests that grow

/// Whether `g` is `f` with more blocks from `len` on.
#[verifier::opaque]
pub open spec fn extends(f: Forest, len: u64, g: Forest, more: u64) -> bool {
    len <= more && forall|s: u64| s < len ==> #[trigger] g[s] == f[s]
}

/// What is below a block depends on older blocks alone.
pub proof fn lemma_listing_same(f: Forest, g: Forest, seq: u64)
    requires
        forall|s: u64| s <= seq ==> #[trigger] g[s] == f[s],
    ensures
        listing(g, seq) == listing(f, seq),
        height(g, seq) == height(f, seq),
    decreases seq,
{
    reveal(weave);
    reveal(listing);
    reveal(height);
    let n = f[seq];
    assert(g[seq] == n);
    let x = older_kids(f, n, seq);
    let y = older_kids(g, n, seq);
    assert forall|j: int| 0 <= j < x.len() implies x[j] == y[j] by {
        if !(n.is_leaf() || n.children[j] >= seq) {
            lemma_listing_same(f, g, n.children[j]);
        }
    }
    assert(x =~= y);
    assert(listing(f, seq) == weave(n.entries, x));
    assert(listing(g, seq) == weave(n.entries, y));
    if !(n.is_leaf() || n.children[0] >= seq) {
        lemma_listing_same(f, g, n.children[0]);
    }
}

/// What is in and below a node depends on older blocks alone.
pub proof fn lemma_spread_same(f: Forest, len: u64, g: Forest, more: u64, n: NodeView)
    requires
        extends(f, len, g, more),
        !n.is_leaf() ==> n.children.len() == n.entries.len() + 1,
        forall|j: int| 0 <= j < n.children.len() ==> #[trigger] n.children[j] < len,
    ensures
        kids(g, n) == kids(f, n),
        spread(g, n) == spread(f, n),
        depth(g, n) == depth(f, n),
        forall|j: int|
            0 <= j < n.children.len() ==> height(g, #[trigger] n.children[j]) == height(
                f,
                n.children[j],
            ) && g[n.children[j]] == f[n.children[j]],
{
    reveal(weave);
    reveal(listing);
    reveal(height);
    reveal(extends);
    assert forall|j: int| 0 <= j < n.children.len() implies height(g, #[trigger] n.children[j])
        == height(f, n.children[j]) && listing(g, n.children[j]) == listing(f, n.children[j])
        && g[n.children[j]] == f[n.children[j]] by {
        lemma_listing_same(f, g, n.children[j]);
    }
    assert(kids(g, n) =~= kids(f, n));
}

/// A node that sits keeps sitting as the forest grows.
pub proof fn lemma_sits_on(f: Forest, len: u64, g: Forest, more: u64, n: NodeView, slack: int)
    requires
        extends(f, len, g, more),
        sits_but(f, n, len, slack),
    ensures
        sits_but(g, n, more, slack),
        spread(g, n) == spread(f, n),
        depth(g, n) == depth(f, n),
        kids(g, n) == kids(f, n),
{
    reveal(weave);
    reveal(height);
    reveal(sits_but);
    reveal(extends);
    lemma_spread_same(f, len, g, more, n);
    if n.children.len() > 0 {
        let first = n.children[0];
        assert(height(g, first) == height(f, first));
    }
}

/// What is below a block is what is in and below its node.
pub proof fn lemma_listing_spread(f: Forest, n: NodeView, seq: u64)
    requires
        f[seq] == n,
        !n.is_leaf() ==> n.children.len() == n.entries.len() + 1,
        forall|j: int| 0 <= j < n.children.len() ==> #[trigger] n.children[j] < seq,
    ensures
        listing(f, seq) == spread(f, n),
        height(f, seq) == depth(f, n),
{
    reveal(weave);
    reveal(listing);
    reveal(height);
    let x = older_kids(f, n, seq);
    assert forall|j: int| 0 <= j < x.len() implies x[j] == kids(f, n)[j] by {
        if !n.is_leaf() {
            assert(n.children[j] < seq);
        }
    }
    assert(x =~= kids(f, n));
    if !n.is_leaf() {
        assert(n.children[0] < seq);
    }
}

/// A block of a grown forest.
pub proof fn lemma_block(f: Forest, len: u64, seq: u64)
    requires
        grown(f, len),
        seq < len,
    ensures
        may_stand(f, f[seq], seq),
        sits(f, f[seq], len),
        listing(f, seq) == spread(f, f[seq]),
        height(f, seq) == depth(f, f[seq]),
        sorted(listing(f, seq)),
        !f[seq].is_leaf() <==> height(f, seq) > 0,
        forall|j: int|
            0 <= j < f[seq].children.len() ==> height(f, #[trigger] f[seq].children[j]) + 1
                == height(f, seq),
{
    reveal(weave);
    reveal(listing);
    reveal(height);
    reveal(sits_but);
    reveal(grown);
    let n = f[seq];
    assert(may_stand(f, f[seq], seq));
    lemma_listing_spread(f, n, seq);
    assert forall|j: int| 0 <= j < n.children.len() implies height(f, #[trigger] n.children[j]) + 1
        == height(f, seq) by {
        assert(height(f, n.children[j]) == height(f, n.children[0]));
    }
}

/// Adding a node that may stand.
pub proof fn lemma_add(f: Forest, len: u64, n: NodeView)
    requires
        grown(f, len),
        may_stand(f, n, len),
        len < u64::MAX,
    ensures
        grown(f.insert(len, n), (len + 1) as u64),
        extends(f, len, f.insert(len, n), (len + 1) as u64),
        listing(f.insert(len, n), len) == spread(f, n),
        height(f.insert(len, n), len) == depth(f, n),
{
    reveal(weave);
    reveal(listing);
    reveal(height);
    reveal(sits_but);
    reveal(grown);
    reveal(extends);
    let g = f.insert(len, n);
    assert forall|s: u64| s < len + 1 implies may_stand(g, #[trigger] g[s], s) by {
        if s < len {
            assert(may_stand(f, f[s], s));
            assert(extends(f, s, g, s));
            lemma_sits_on(f, s, g, s, f[s], -1);
        } else {
            assert(extends(f, len, g, len));
            lemma_sits_on(f, len, g, len, n, -1);
        }
    }
    assert(extends(f, len, g, len));
    lemma_sits_on(f, len, g, len, n, -1);
    lemma_listing_spread(g, n, len);
}

// ---- how much there is

proof fn lemma_bulk_before(entries: Pairs, kids: Seq<Pairs>, i: int)
    requires
        0 <= i <= entries.len(),
        kids.len() == entries.len() + 1,
    ensures
        bulk(entries.take(i)) <= bulk(before(entries, kids, i)),
    decreases i,
{
    if i > 0 {
        lemma_bulk_before(entries, kids, i - 1);
        let b = before(entries, kids, i - 1);
        lemma_bulk_append(b + kids[i - 1], seq![entries[i - 1]]);
        lemma_bulk_append(b, kids[i - 1]);
        lemma_bulk_one(entries[i - 1]);
        assert(entries.take(i) =~= entries.take(i - 1) + seq![entries[i - 1]]);
        lemma_bulk_append(entries.take(i - 1), seq![entries[i - 1]]);
    } else {
        assert(entries.take(0) =~= Seq::empty());
    }
}

/// Entries and children weigh no more than the node.
pub proof fn lemma_bulk_parts(entries: Pairs, kids: Seq<Pairs>, i: int)
    requires
        kids.len() == entries.len() + 1,
        0 <= i <= entries.len(),
    ensures
        bulk(entries) <= bulk(weave(entries, kids)),
        bulk(kids[i]) <= bulk(weave(entries, kids)),
{
    reveal(weave);
    let n = entries.len() as int;
    lemma_bulk_before(entries, kids, n);
    assert(entries.take(n) =~= entries);
    lemma_bulk_append(before(entries, kids, n), kids[n]);
    lemma_weave_at(entries, kids, i);
    lemma_bulk_append(before(entries, kids, i) + kids[i], after(entries, kids, i));
    lemma_bulk_append(before(entries, kids, i), kids[i]);
}

/// A stretch weighs no more than the whole.
pub proof fn lemma_bulk_stretch(a: Pairs, m: Pairs, z: Pairs)
    ensures
        bulk(a + m + z) == larger(larger(bulk(a), bulk(m)), bulk(z)),
{
    lemma_bulk_append(a + m, z);
    lemma_bulk_append(a, m);
}

} // verus!
