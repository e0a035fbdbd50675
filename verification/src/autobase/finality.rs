//! What is final stays final while writers build on everything there is.
use vstd::prelude::*;
use super::consensus::{
    acked_by, acks_from, acks_of, ack_of, all_newer, at_bottom, bottoms, candidates, confirm_from,
    confirm_of, confirmed, confirmed_view_of, count_seen, first_confirmed, larger, lemma_bottoms,
    lemma_candidates, lemma_progress, majority_of, merge_heads, merge_set, merges, newer,
    newly_covered, on_top, pending, raised_all, scope, shift, tails_of, view_from, Confirm,
    Removed,
};
use super::graph::{
    delivered, is_next, lemma_log_len, lemma_log_len_meaning, lemma_position, lemma_reaches_known,
    lemma_reaches_self, lemma_reaches_step, lemma_reaches_transitive, lemma_seen_len, lemma_seen_len_meaning,
    lemma_sees_own, lemma_topo_step, log_len, reaches, ready, seen_len, sees, topo, walks, Deps,
};
use super::ids::{in_order, lemma_in_order, lemma_key_irreflexive, sorted_keys, NodeId, WriterKey};
use super::linearizer::{covered, length_in};

verus! {

/// Whether of any two nodes one sees the other: writers always built on everything there
/// was.
pub open spec fn chained(g: Deps) -> bool {
    forall|a: NodeId, b: NodeId| #[trigger]
        g.contains_key(a) && #[trigger] g.contains_key(b) ==> sees(g, a, b) || sees(g, b, a)
}

/// Whether `x`, which depends on `d`, is a node on top of everything in `g`.
pub open spec fn tops(g: Deps, ids: Seq<NodeId>, x: NodeId, d: Set<NodeId>) -> bool {
    &&& delivered(g, ids)
    &&& ids.len() < u64::MAX
    &&& chained(g)
    &&& !g.contains_key(x)
    &&& delivered(g.insert(x, d), ids.push(x))
    &&& forall|n: NodeId| #[trigger] g.contains_key(n) ==> reaches(g.insert(x, d), x, n)
}

proof fn lemma_stays(g: Deps, ids: Seq<NodeId>, x: NodeId, d: Set<NodeId>, p: Seq<NodeId>, k: int)
    requires
        tops(g, ids, x, d),
        walks(g.insert(x, d), p),
        g.contains_key(p[0]),
        0 <= k < p.len(),
    ensures
        g.contains_key(p[k]),
    decreases k,
{
    if k > 0 {
        lemma_stays(g, ids, x, d, p, k - 1);
        let a = p[k - 1];
        assert(g.insert(x, d)[p[k - 1]].contains(p[k - 1 + 1]));
        assert(g[a].contains(p[k]));
        let i = lemma_position(g, ids, a);
        assert(g[ids[i]].contains(p[k]));
        let j = choose|j: int| 0 <= j < i && #[trigger] ids[j] == p[k];
        assert(ids.to_set().contains(ids[j]));
    }
}

/// What the older nodes see does not change.
proof fn lemma_same_reach(g: Deps, ids: Seq<NodeId>, x: NodeId, d: Set<NodeId>, a: NodeId, b: NodeId)
    requires
        tops(g, ids, x, d),
        g.contains_key(a),
    ensures
        reaches(g.insert(x, d), a, b) == reaches(g, a, b),
        sees(g.insert(x, d), a, b) == sees(g, a, b),
{
    let h = g.insert(x, d);
    if reaches(g, a, b) {
        let p = choose|p: Seq<NodeId>| #[trigger] walks(g, p) && p[0] == a && p.last() == b;
        assert forall|k: int| 0 <= k < p.len() implies h.contains_key(#[trigger] p[k]) by {
            assert(g.contains_key(p[k]));
        }
        assert forall|k: int| 0 <= k < p.len() - 1 implies h[#[trigger] p[k]].contains(p[k + 1]) by {
            assert(g.contains_key(p[k]));
            assert(g[p[k]].contains(p[k + 1]));
        }
        assert(walks(h, p));
    }
    if reaches(h, a, b) {
        let p = choose|p: Seq<NodeId>| #[trigger] walks(h, p) && p[0] == a && p.last() == b;
        assert forall|k: int| 0 <= k < p.len() implies g.contains_key(#[trigger] p[k]) by {
            lemma_stays(g, ids, x, d, p, k);
        }
        assert forall|k: int| 0 <= k < p.len() - 1 implies g[#[trigger] p[k]].contains(p[k + 1]) by {
            assert(g.contains_key(p[k]));
            assert(h[p[k]].contains(p[k + 1]));
        }
        assert(walks(g, p));
    }
}

proof fn lemma_same_seen(
    g: Deps,
    ids: Seq<NodeId>,
    x: NodeId,
    d: Set<NodeId>,
    a: NodeId,
    key: WriterKey,
)
    requires
        tops(g, ids, x, d),
        g.contains_key(a),
    ensures
        seen_len(g.insert(x, d), a, key) == seen_len(g, a, key),
{
    let h = g.insert(x, d);
    let n = seen_len(g, a, key);
    lemma_seen_len_meaning(g, ids, a, key);
    if n > 0 {
        let b = NodeId { key, seq: (n - 1) as u64 };
        assert(reaches(g, a, b));
        lemma_same_reach(g, ids, x, d, a, b);
    }
    assert forall|s: u64| s >= n implies !reaches(h, a, NodeId { key, seq: s }) by {
        lemma_same_reach(g, ids, x, d, a, NodeId { key, seq: s });
        assert(reaches(g, a, NodeId { key, seq: s }) == (s < n));
    }
    lemma_seen_len(h, ids.push(x), a, key, n);
}

/// The new node is the next of its writer, and the other logs are as long as before.
proof fn lemma_logs(g: Deps, ids: Seq<NodeId>, x: NodeId, d: Set<NodeId>, key: WriterKey)
    requires
        tops(g, ids, x, d),
    ensures
        log_len(g.insert(x, d), key) == if key == x.key {
            (x.seq + 1) as u64
        } else {
            log_len(g, key)
        },
        x.seq == log_len(g, x.key),
        x.seq < u64::MAX,
{
    let h = g.insert(x, d);
    lemma_log_len_meaning(g, ids, x.key);
    lemma_log_len_meaning(g, ids, key);
    let n = log_len(g, x.key);
    assert(g.contains_key(NodeId { key: x.key, seq: x.seq }) == (x.seq < n));
    assert(x == (NodeId { key: x.key, seq: x.seq }));
    if x.seq > 0 {
        let b = NodeId { key: x.key, seq: (x.seq - 1) as u64 };
        assert(h.contains_key(x));
        assert(h[x].contains(b));
        let two = ids.push(x);
        assert(two[ids.len() as int] == x);
        assert(h[two[ids.len() as int]].contains(b));
        let j = choose|j: int| 0 <= j < ids.len() && #[trigger] two[j] == b;
        assert(ids[j] == b);
        assert(ids.to_set().contains(ids[j]));
        assert(g.contains_key(b) == (b.seq < n));
    }
    super::graph::lemma_seq_bound(h, ids.push(x), ids.len() as int);
    let m = if key == x.key {
        (x.seq + 1) as u64
    } else {
        log_len(g, key)
    };
    assert forall|s: u64| s >= m implies !h.contains_key(NodeId { key, seq: s }) by {
        assert(g.contains_key(NodeId { key, seq: s }) == (s < log_len(g, key)));
    }
    if m > 0 {
        let b = NodeId { key, seq: (m - 1) as u64 };
        assert(g.contains_key(b) == (b.seq < log_len(g, key)));
        assert(h.contains_key(b));
    }
    lemma_log_len(h, ids.push(x), key, m);
}

/// The graph with the new node is a chain too.
proof fn lemma_chained(g: Deps, ids: Seq<NodeId>, x: NodeId, d: Set<NodeId>)
    requires
        tops(g, ids, x, d),
    ensures
        chained(g.insert(x, d)),
{
    let h = g.insert(x, d);
    assert forall|a: NodeId, b: NodeId| #[trigger]
        h.contains_key(a) && #[trigger] h.contains_key(b) implies sees(h, a, b) || sees(
        h,
        b,
        a,
    ) by {
        if a == x || b == x {
            if a != b {
                let c = if a == x {
                    b
                } else {
                    a
                };
                assert(g.contains_key(c));
            }
        } else {
            assert(g.contains_key(a) && g.contains_key(b));
            lemma_same_reach(g, ids, x, d, a, b);
            lemma_same_reach(g, ids, x, d, b, a);
        }
    }
}

/// In a chain a node is strictly newer than another just if it sees it.
proof fn lemma_newer(g: Deps, ids: Seq<NodeId>, o: NodeId, p: NodeId, removed: Removed)
    requires
        delivered(g, ids),
        ids.len() <= u64::MAX,
        chained(g),
        g.contains_key(o),
        g.contains_key(p),
    ensures
        newer(g, o, p, removed) == sees(g, p, o),
{
    if sees(g, p, o) {
        assert forall|key: WriterKey|
            ({
                let length = larger(seen_len(g, o, key), length_in(removed, key));
                #[trigger] seen_len(g, p, key) > length ==> sees(
                    g,
                    NodeId { key, seq: length },
                    o,
                )
            }) by {
            let length = larger(seen_len(g, o, key), length_in(removed, key));
            let n = NodeId { key, seq: length };
            if seen_len(g, p, key) > length {
                lemma_seen_len_meaning(g, ids, p, key);
                lemma_seen_len_meaning(g, ids, o, key);
                assert(reaches(g, p, n));
                lemma_reaches_known(g, p, n);
                assert(!reaches(g, o, n));
                if n == o {
                    lemma_reaches_self(g, o);
                }
                assert(g.contains_key(n) && g.contains_key(o));
            }
        }
    }
}

// ---- tails, merges and the next node

proof fn lemma_merge_heads(g: Deps, v: Seq<WriterKey>, node: NodeId, removed: Removed)
    requires
        v.no_duplicates(),
    ensures
        ({
            let h = merge_heads(g, v, node, removed);
            &&& forall|i: int|
                0 <= i < h.len() ==> g.contains_key(#[trigger] h[i]) && v.contains(h[i].key)
            &&& forall|i: int, j: int|
                0 <= i < j < h.len() ==> (#[trigger] h[i]).key != (#[trigger] h[j]).key
        }),
    decreases v.len(),
{
    if v.len() > 0 {
        let less = v.drop_last();
        lemma_merge_heads(g, less, node, removed);
        let a = merge_heads(g, less, node, removed);
        let h = merge_heads(g, v, node, removed);
        assert forall|i: int| 0 <= i < h.len() implies g.contains_key(#[trigger] h[i]) && v.contains(
            h[i].key,
        ) by {
            if i < a.len() {
                assert(h[i] == a[i]);
                let k = choose|k: int| 0 <= k < less.len() && less[k] == a[i].key;
                assert(v[k] == h[i].key);
            } else {
                assert(v[v.len() - 1] == h[i].key);
            }
        }
        assert forall|i: int, j: int| 0 <= i < j < h.len() implies (#[trigger] h[i]).key != (
        #[trigger] h[j]).key by {
            assert(h[i] == a[i]);
            if j < a.len() {
                assert(h[j] == a[j]);
            } else {
                let k = choose|k: int| 0 <= k < less.len() && less[k] == a[i].key;
                assert(v[k] == less[k]);
            }
        }
    }
}

/// A chain has no merges.
proof fn lemma_no_merges(g: Deps, v: Seq<WriterKey>, removed: Removed)
    requires
        chained(g),
        v.no_duplicates(),
    ensures
        in_order(merge_set(g, v, removed)) == Seq::<NodeId>::empty(),
{
    assert forall|n: NodeId| !merges(g, v, n, removed) by {
        if merges(g, v, n, removed) {
            let h = merge_heads(g, v, n, removed);
            lemma_merge_heads(g, v, n, removed);
            let (i, j) = choose|i: int, j: int|
                0 <= i < j < h.len() && #[trigger] on_top(g, h, i) && #[trigger] on_top(g, h, j);
            assert(h[i].key != h[j].key);
            assert(g.contains_key(h[i]) && g.contains_key(h[j]));
        }
    }
    let none = Seq::<NodeId>::empty();
    assert(merge_set(g, v, removed) =~= none.to_set());
    lemma_in_order(none);
}

proof fn lemma_distinct_candidates(g: Deps, v: Seq<WriterKey>, removed: Removed)
    requires
        v.no_duplicates(),
    ensures
        candidates(g, v, removed).no_duplicates(),
    decreases v.len(),
{
    if v.len() > 0 {
        let less = v.drop_last();
        lemma_distinct_candidates(g, less, removed);
        let a = candidates(g, less, removed);
        let c = candidates(g, v, removed);
        assert forall|i: int, j: int| 0 <= i < j < c.len() implies c[i] != c[j] by {
            if j < a.len() {
                assert(c[i] == a[i] && c[j] == a[j]);
            } else if i < a.len() {
                assert(c[i] == a[i]);
                assert(a.contains(a[i]));
                lemma_candidates(g, less, removed, a[i]);
                let k = choose|k: int| 0 <= k < less.len() && less[k] == a[i].key;
                assert(v[k] == less[k]);
                assert(v[v.len() - 1] == c[j].key);
            }
        }
    }
}

proof fn lemma_distinct_bottoms(g: Deps, all: Seq<NodeId>, s: Seq<NodeId>)
    requires
        s.no_duplicates(),
    ensures
        bottoms(g, all, s).no_duplicates(),
    decreases s.len(),
{
    if s.len() > 0 {
        let less = s.drop_last();
        assert(less.no_duplicates()) by {
            assert forall|i: int, j: int|
                0 <= i < less.len() && 0 <= j < less.len() && i != j implies less[i] != less[j] by {
                assert(less[i] == s[i] && less[j] == s[j]);
            }
        }
        lemma_distinct_bottoms(g, all, less);
        let a = bottoms(g, all, less);
        let b = bottoms(g, all, s);
        assert forall|i: int, j: int| 0 <= i < j < b.len() implies b[i] != b[j] by {
            if j < a.len() {
                assert(b[i] == a[i] && b[j] == a[j]);
            } else if i < a.len() {
                assert(a.contains(a[i]));
                lemma_bottoms(g, all, less, a[i]);
                let k = choose|k: int| 0 <= k < less.len() && less[k] == a[i];
                assert(s[k] == a[i]);
                assert(s[s.len() - 1] == b[j]);
            }
        }
    }
}

/// What is at the bottom is among the bottoms.
proof fn lemma_bottoms_has(g: Deps, all: Seq<NodeId>, s: Seq<NodeId>, t: NodeId)
    requires
        s.contains(t),
        at_bottom(g, all, t),
    ensures
        bottoms(g, all, s).contains(t),
    decreases s.len(),
{
    let less = s.drop_last();
    let k = choose|k: int| 0 <= k < s.len() && s[k] == t;
    if k < less.len() {
        assert(less[k] == t);
        lemma_bottoms_has(g, all, less, t);
        let a = bottoms(g, all, less);
        let i = choose|i: int| 0 <= i < a.len() && a[i] == t;
        assert(bottoms(g, all, s)[i] == t);
    } else {
        let b = bottoms(g, all, s);
        assert(b[b.len() - 1] == t);
    }
}

/// A chain has at most one tail.
proof fn lemma_one_tail(g: Deps, v: Seq<WriterKey>, removed: Removed)
    requires
        chained(g),
        v.no_duplicates(),
    ensures
        tails_of(g, v, removed).len() <= 1,
        forall|i: int|
            0 <= i < tails_of(g, v, removed).len() ==> {
                let t = #[trigger] tails_of(g, v, removed)[i];
                &&& g.contains_key(t)
                &&& candidates(g, v, removed).contains(t)
                &&& at_bottom(g, candidates(g, v, removed), t)
            },
{
    let c = candidates(g, v, removed);
    let b = tails_of(g, v, removed);
    lemma_distinct_candidates(g, v, removed);
    lemma_distinct_bottoms(g, c, c);
    assert forall|i: int| 0 <= i < b.len() implies {
        let t = #[trigger] b[i];
        &&& g.contains_key(t)
        &&& c.contains(t)
        &&& at_bottom(g, c, t)
    } by {
        assert(b.contains(b[i]));
        lemma_bottoms(g, c, c, b[i]);
        lemma_candidates(g, v, removed, b[i]);
    }
    if b.len() >= 2 {
        let x = b[0];
        let y = b[1];
        assert(x != y);
        assert(c.contains(x) && c.contains(y));
        let i = choose|i: int| 0 <= i < c.len() && c[i] == x;
        let j = choose|j: int| 0 <= j < c.len() && c[j] == y;
        assert(at_bottom(g, c, x) && at_bottom(g, c, y));
        assert(!sees(g, x, c[j]) && !sees(g, y, c[i]));
        assert(g.contains_key(x) && g.contains_key(y));
    }
}

/// In a chain the next node to confirm is the tail, once it is confirmed.
proof fn lemma_shift(g: Deps, v: Seq<WriterKey>, removed: Removed)
    requires
        chained(g),
        v.no_duplicates(),
    ensures
        ({
            let tails = tails_of(g, v, removed);
            shift(g, v, removed) == if tails.len() == 1 && confirmed(
                g,
                v,
                tails[0],
                None,
                removed,
            ) {
                seq![tails[0]]
            } else {
                Seq::empty()
            }
        }),
{
    lemma_one_tail(g, v, removed);
    lemma_no_merges(g, v, removed);
    let tails = tails_of(g, v, removed);
    reveal_with_fuel(first_confirmed, 3);
    let none = Seq::<NodeId>::empty();
    assert(first_confirmed(g, v, none, 0, None, removed) is None);
}

// ---- confirmation grows

proof fn lemma_count_append(g: Deps, h: NodeId, a: Seq<NodeId>, b: Seq<NodeId>)
    ensures
        count_seen(g, h, a + b) == count_seen(g, h, a) + count_seen(g, h, b),
    decreases b.len(),
{
    if b.len() == 0 {
        assert(a + b =~= a);
    } else {
        assert((a + b).drop_last() =~= a + b.drop_last());
        lemma_count_append(g, h, a, b.drop_last());
    }
}

/// In a chain a voter acknowledges a node by the first node that the other did not see.
proof fn lemma_ack(g: Deps, ids: Seq<NodeId>, t: NodeId, removed: Removed, voter: WriterKey)
    requires
        delivered(g, ids),
        ids.len() <= u64::MAX,
        chained(g),
        g.contains_key(t),
    ensures
        ({
            let n = NodeId {
                key: voter,
                seq: larger(seen_len(g, t, voter), length_in(removed, voter)),
            };
            ack_of(g, t, removed, voter) == if voter != t.key && g.contains_key(n) {
                Some(n)
            } else {
                None
            }
        }),
{
    let n = NodeId { key: voter, seq: larger(seen_len(g, t, voter), length_in(removed, voter)) };
    if voter != t.key && g.contains_key(n) {
        lemma_seen_len_meaning(g, ids, t, voter);
        assert(!reaches(g, t, n));
        assert(n != t);
        assert(g.contains_key(n) && g.contains_key(t));
        lemma_newer(g, ids, t, n, removed);
    }
}

/// The acks of an older node with the new node there: those that were, as the older nodes
/// see them, and perhaps the new node; the new node sees them all.
proof fn lemma_acks(
    g: Deps,
    ids: Seq<NodeId>,
    x: NodeId,
    d: Set<NodeId>,
    s: Seq<WriterKey>,
    t: NodeId,
    removed: Removed,
    h: NodeId,
)
    requires
        tops(g, ids, x, d),
        g.contains_key(t),
        g.contains_key(h),
    ensures
        ({
            let a = acks_from(g, s, t, removed);
            let b = acks_from(g.insert(x, d), s, t, removed);
            &&& b.len() >= a.len()
            &&& count_seen(g.insert(x, d), h, b) == count_seen(g, h, a)
            &&& count_seen(g.insert(x, d), x, b) == b.len()
        }),
    decreases s.len(),
{
    let g2 = g.insert(x, d);
    if s.len() > 0 {
        let less = s.drop_last();
        let w = s.last();
        lemma_acks(g, ids, x, d, less, t, removed, h);
        lemma_chained(g, ids, x, d);
        lemma_ack(g, ids, t, removed, w);
        lemma_ack(g2, ids.push(x), t, removed, w);
        lemma_same_seen(g, ids, x, d, t, w);
        let a0 = acks_from(g, less, t, removed);
        let b0 = acks_from(g2, less, t, removed);
        let n = NodeId { key: w, seq: larger(seen_len(g, t, w), length_in(removed, w)) };
        assert(a0.push(n).drop_last() =~= a0);
        assert(b0.push(n).drop_last() =~= b0);
        if w != t.key && g2.contains_key(n) {
            if n == x {
                lemma_same_reach(g, ids, x, d, h, x);
                if reaches(g, h, x) {
                    lemma_reaches_known(g, h, x);
                }
            } else {
                assert(g.contains_key(n));
                lemma_same_reach(g, ids, x, d, h, n);
            }
        }
    }
}

/// In a chain a voter whose last node does not see a node has no node that does.
proof fn lemma_unseen(
    g: Deps,
    ids: Seq<NodeId>,
    v: Seq<WriterKey>,
    w: WriterKey,
    t: NodeId,
    acks: Seq<NodeId>,
    removed: Removed,
    i: int,
    first: bool,
)
    requires
        delivered(g, ids),
        ids.len() <= u64::MAX,
        chained(g),
        g.contains_key(t),
        -1 <= i <= u64::MAX,
        i >= 0 ==> g.contains_key(NodeId { key: w, seq: i as u64 }) && !sees(
            g,
            NodeId { key: w, seq: i as u64 },
            t,
        ),
    ensures
        confirm_from(g, v, w, t, acks, removed, i, first) == Confirm::Unseen,
    decreases i + 1,
{
    if i >= 0 {
        let head = NodeId { key: w, seq: i as u64 };
        lemma_newer(g, ids, t, head, removed);
        if i > 0 {
            let prev = NodeId { key: w, seq: (i - 1) as u64 };
            lemma_sees_own(g, ids, head, (i - 1) as u64);
            if sees(g, prev, t) {
                if prev != t {
                    lemma_reaches_transitive(g, head, prev, t);
                }
            }
        }
        lemma_unseen(g, ids, v, w, t, acks, removed, i - 1, false);
    }
}

/// In a chain the last node of a voter says how it relates to confirming a node.
proof fn lemma_confirm(
    g: Deps,
    ids: Seq<NodeId>,
    v: Seq<WriterKey>,
    w: WriterKey,
    t: NodeId,
    acks: Seq<NodeId>,
    removed: Removed,
)
    requires
        delivered(g, ids),
        ids.len() <= u64::MAX,
        chained(g),
        g.contains_key(t),
    ensures
        ({
            let n = log_len(g, w);
            let head = NodeId { key: w, seq: (n - 1) as u64 };
            confirm_of(g, v, w, t, acks, n, removed) == if length_in(removed, w) >= n || !sees(
                g,
                head,
                t,
            ) {
                Confirm::Unseen
            } else if count_seen(g, head, acks) >= majority_of(v) {
                Confirm::Acked
            } else {
                Confirm::Newer
            }
        }),
{
    let n = log_len(g, w);
    let head = NodeId { key: w, seq: (n - 1) as u64 };
    if length_in(removed, w) < n {
        lemma_log_len_meaning(g, ids, w);
        assert(g.contains_key(head));
        if sees(g, head, t) {
            lemma_newer(g, ids, t, head, removed);
        } else {
            lemma_unseen(g, ids, v, w, t, acks, removed, n - 1, true);
        }
    }
}

/// What a voter confirmed it still confirms.
proof fn lemma_confirm_grows(
    g: Deps,
    ids: Seq<NodeId>,
    x: NodeId,
    d: Set<NodeId>,
    v: Seq<WriterKey>,
    w: WriterKey,
    t: NodeId,
    removed: Removed,
)
    requires
        tops(g, ids, x, d),
        g.contains_key(t),
        acks_of(g, v, t, removed).len() >= majority_of(v),
    ensures
        ({
            let g2 = g.insert(x, d);
            let a = acks_of(g, v, t, removed);
            let b = acks_of(g2, v, t, removed);
            let was = confirm_of(g, v, w, t, a, scope(g, None, w), removed);
            let now = confirm_of(g2, v, w, t, b, scope(g2, None, w), removed);
            &&& was == Confirm::Acked ==> now == Confirm::Acked
            &&& was != Confirm::Unseen ==> now != Confirm::Unseen
        }),
{
    let g2 = g.insert(x, d);
    let a = acks_of(g, v, t, removed);
    let b = acks_of(g2, v, t, removed);
    let own = if v.contains(t.key) {
        seq![t]
    } else {
        Seq::empty()
    };
    let a1 = acks_from(g, v, t, removed);
    let b1 = acks_from(g2, v, t, removed);
    lemma_chained(g, ids, x, d);
    lemma_confirm(g, ids, v, w, t, a, removed);
    lemma_confirm(g2, ids.push(x), v, w, t, b, removed);
    lemma_logs(g, ids, x, d, w);
    lemma_log_len_meaning(g, ids, w);
    let n = log_len(g, w);
    let head = NodeId { key: w, seq: (n - 1) as u64 };
    if w == x.key {
        if length_in(removed, w) < n {
            lemma_acks(g, ids, x, d, v, t, removed, t);
            lemma_count_append(g2, x, own, b1);
            reveal_with_fuel(count_seen, 2);
            assert(count_seen(g2, x, own) == own.len()) by {
                if own.len() > 0 {
                    assert(own.drop_last() =~= Seq::empty());
                }
            }
            assert(NodeId { key: w, seq: x.seq } == x);
        }
    } else if length_in(removed, w) < n {
        assert(g.contains_key(head));
        lemma_acks(g, ids, x, d, v, t, removed, head);
        lemma_count_append(g2, head, own, b1);
        lemma_count_append(g, head, own, a1);
        lemma_same_reach(g, ids, x, d, head, t);
        reveal_with_fuel(count_seen, 2);
        assert(count_seen(g2, head, own) == count_seen(g, head, own)) by {
            if own.len() > 0 {
                assert(own.drop_last() =~= Seq::empty());
            }
        }
    }
}

proof fn lemma_acked_grows(
    g: Deps,
    ids: Seq<NodeId>,
    x: NodeId,
    d: Set<NodeId>,
    v: Seq<WriterKey>,
    s: Seq<WriterKey>,
    t: NodeId,
    removed: Removed,
)
    requires
        tops(g, ids, x, d),
        g.contains_key(t),
        acks_of(g, v, t, removed).len() >= majority_of(v),
    ensures
        acked_by(
            g.insert(x, d),
            v,
            s,
            t,
            None,
            acks_of(g.insert(x, d), v, t, removed),
            removed,
        ).len() >= acked_by(g, v, s, t, None, acks_of(g, v, t, removed), removed).len(),
    decreases s.len(),
{
    if s.len() > 0 {
        lemma_acked_grows(g, ids, x, d, v, s.drop_last(), t, removed);
        lemma_confirm_grows(g, ids, x, d, v, s.last(), t, removed);
    }
}

/// What is confirmed stays confirmed.
proof fn lemma_confirmed_grows(
    g: Deps,
    ids: Seq<NodeId>,
    x: NodeId,
    d: Set<NodeId>,
    v: Seq<WriterKey>,
    t: NodeId,
    removed: Removed,
)
    requires
        tops(g, ids, x, d),
        g.contains_key(t),
        confirmed(g, v, t, None, removed),
    ensures
        confirmed(g.insert(x, d), v, t, None, removed),
{
    let g2 = g.insert(x, d);
    let a = acks_of(g, v, t, removed);
    let b = acks_of(g2, v, t, removed);
    lemma_acks(g, ids, x, d, v, t, removed, t);
    lemma_acked_grows(g, ids, x, d, v, v, t, removed);
    if all_newer(g, v, v, t, None, a, removed) {
        assert forall|k: int| 0 <= k < v.len() implies confirm_of(
            g2,
            v,
            #[trigger] v[k],
            t,
            b,
            scope(g2, None, v[k]),
            removed,
        ) != Confirm::Unseen by {
            lemma_confirm_grows(g, ids, x, d, v, v[k], t, removed);
            assert(confirm_of(g, v, v[k], t, a, scope(g, None, v[k]), removed)
                != Confirm::Unseen);
        }
    }
}

// ---- the next node stays the next node

proof fn lemma_candidates_grow(
    g: Deps,
    x: NodeId,
    d: Set<NodeId>,
    v: Seq<WriterKey>,
    removed: Removed,
)
    ensures
        forall|c: NodeId| #[trigger]
            candidates(g, v, removed).contains(c) ==> candidates(
                g.insert(x, d),
                v,
                removed,
            ).contains(c),
        forall|c: NodeId| #[trigger]
            candidates(g.insert(x, d), v, removed).contains(c) ==> c == x || candidates(
                g,
                v,
                removed,
            ).contains(c),
    decreases v.len(),
{
    if v.len() > 0 {
        let g2 = g.insert(x, d);
        let less = v.drop_last();
        lemma_candidates_grow(g, x, d, less, removed);
        let a0 = candidates(g, less, removed);
        let b0 = candidates(g2, less, removed);
        let a = candidates(g, v, removed);
        let b = candidates(g2, v, removed);
        let head = NodeId { key: v.last(), seq: length_in(removed, v.last()) };
        assert forall|c: NodeId| #[trigger] a.contains(c) implies b.contains(c) by {
            let k = choose|k: int| 0 <= k < a.len() && a[k] == c;
            if k < a0.len() {
                assert(a0[k] == c);
                assert(a0.contains(c));
                assert(b0.contains(c));
                let j = choose|j: int| 0 <= j < b0.len() && b0[j] == c;
                assert(b[j] == c);
            } else {
                assert(c == head);
                assert(b[b.len() - 1] == c);
            }
        }
        assert forall|c: NodeId| #[trigger] b.contains(c) implies c == x || a.contains(c) by {
            let k = choose|k: int| 0 <= k < b.len() && b[k] == c;
            if k < b0.len() {
                assert(b0[k] == c);
                assert(b0.contains(c));
                if c != x {
                    assert(a0.contains(c));
                    let j = choose|j: int| 0 <= j < a0.len() && a0[j] == c;
                    assert(a[j] == c);
                }
            } else {
                assert(c == head);
                if c != x {
                    assert(a[a.len() - 1] == c);
                }
            }
        }
    }
}

/// The next node to confirm stays the next.
proof fn lemma_shift_grows(
    g: Deps,
    ids: Seq<NodeId>,
    x: NodeId,
    d: Set<NodeId>,
    v: Seq<WriterKey>,
    removed: Removed,
)
    requires
        tops(g, ids, x, d),
        v.no_duplicates(),
        shift(g, v, removed).len() > 0,
    ensures
        shift(g.insert(x, d), v, removed) == shift(g, v, removed),
        shift(g, v, removed).len() == 1,
        ({
            let t = shift(g, v, removed)[0];
            g.contains_key(t) && v.contains(t.key) && t.seq == length_in(removed, t.key)
        }),
{
    let g2 = g.insert(x, d);
    lemma_chained(g, ids, x, d);
    lemma_shift(g, v, removed);
    lemma_shift(g2, v, removed);
    lemma_one_tail(g, v, removed);
    lemma_one_tail(g2, v, removed);
    lemma_candidates_grow(g, x, d, v, removed);
    let c = candidates(g, v, removed);
    let c2 = candidates(g2, v, removed);
    let t = tails_of(g, v, removed)[0];
    lemma_candidates(g, v, removed, t);
    assert(at_bottom(g2, c2, t)) by {
        assert forall|j: int| 0 <= j < c2.len() && #[trigger] c2[j] != t implies !sees(
            g2,
            t,
            c2[j],
        ) by {
            lemma_same_reach(g, ids, x, d, t, c2[j]);
            assert(c2.contains(c2[j]));
            if c2[j] == x {
                if reaches(g, t, x) {
                    lemma_reaches_known(g, t, x);
                }
            } else {
                assert(c.contains(c2[j]));
                let k = choose|k: int| 0 <= k < c.len() && c[k] == c2[j];
                assert(!sees(g, t, c[k]));
            }
        }
    }
    assert(c2.contains(t));
    lemma_bottoms_has(g2, c2, c2, t);
    let b = tails_of(g2, v, removed);
    let k = choose|k: int| 0 <= k < b.len() && b[k] == t;
    assert(b[0] == t);
    lemma_confirmed_grows(g, ids, x, d, v, t, removed);
}

/// The order of older nodes does not change.
proof fn lemma_topo_same(g: Deps, x: NodeId, d: Set<NodeId>, rest: Set<NodeId>)
    requires
        rest.finite(),
        !rest.contains(x),
    ensures
        topo(g.insert(x, d), rest) == topo(g, rest),
    decreases rest.len(),
{
    let g2 = g.insert(x, d);
    assert forall|n: NodeId| #[trigger] ready(g2, rest, n) == ready(g, rest, n) by {
        if rest.contains(n) {
            assert(g2[n] == g[n]);
        }
    }
    assert forall|n: NodeId| #[trigger] is_next(g2, rest, n) == is_next(g, rest, n) by {
        if is_next(g, rest, n) {
            assert forall|m: NodeId| #[trigger] ready(g2, rest, m) implies m == n
                || super::ids::id_lt(n, m) by {
                assert(ready(g, rest, m));
            }
        }
        if is_next(g2, rest, n) {
            assert forall|m: NodeId| #[trigger] ready(g, rest, m) implies m == n
                || super::ids::id_lt(n, m) by {
                assert(ready(g2, rest, m));
            }
        }
    }
    if exists|n: NodeId| is_next(g, rest, n) {
        let n = choose|n: NodeId| is_next(g, rest, n);
        assert(is_next(g2, rest, n));
        lemma_topo_step(g, rest, n);
        lemma_topo_step(g2, rest, n);
        assert(ready(g, rest, n));
        lemma_topo_same(g, x, d, rest.remove(n));
    } else {
        assert forall|n: NodeId| !is_next(g2, rest, n) by {
            assert(!is_next(g, rest, n));
        }
    }
}

/// The confirmed view only grows, from any point on.
proof fn lemma_view_grows(
    g: Deps,
    ids: Seq<NodeId>,
    x: NodeId,
    d: Set<NodeId>,
    v: Seq<WriterKey>,
    removed: Removed,
    emitted: Set<NodeId>,
)
    requires
        tops(g, ids, x, d),
        v.no_duplicates(),
    ensures
        ({
            let a = view_from(g, v, removed, emitted);
            let b = view_from(g.insert(x, d), v, removed, emitted);
            a.len() <= b.len() && b.take(a.len() as int) == a
        }),
    decreases pending(g, v, removed),
{
    let g2 = g.insert(x, d);
    let a = view_from(g, v, removed, emitted);
    let b = view_from(g2, v, removed, emitted);
    let batch = shift(g, v, removed);
    if batch.len() == 0 {
        assert(b.take(0) =~= a);
    } else {
        lemma_shift_grows(g, ids, x, d, v, removed);
        let t = batch[0];
        assert(batch =~= seq![t]);
        lemma_progress(g, ids, v, removed, batch);
        lemma_progress(g2, ids.push(x), v, removed, batch);
        let next = raised_all(removed, batch);
        let f = newly_covered(g, batch, emitted);
        let f2 = newly_covered(g2, batch, emitted);
        assert forall|n: NodeId| f.contains(n) == f2.contains(n) by {
            lemma_same_reach(g, ids, x, d, t, n);
            assert(reaches(g, batch[0], n) == reaches(g2, batch[0], n));
        }
        assert(f =~= f2);
        assert forall|n: NodeId| f.contains(n) implies ids.to_set().contains(n) by {
            let k = choose|k: int| 0 <= k < batch.len() && reaches(g, #[trigger] batch[k], n);
            lemma_reaches_known(g, batch[k], n);
        }
        assert(f.subset_of(ids.to_set()));
        ids.unique_seq_to_set();
        vstd::set_lib::lemma_set_subset_finite(ids.to_set(), f);
        assert(!f.contains(x));
        lemma_topo_same(g, x, d, f);
        lemma_view_grows(g, ids, x, d, v, next, emitted.union(f));
        let u = topo(g, f);
        let p = view_from(g, v, next, emitted.union(f));
        let q = view_from(g2, v, next, emitted.union(f));
        assert(a == u + p);
        assert(b == u + q);
        assert(b.take(a.len() as int) =~= u + q.take(p.len() as int));
    }
}

/// Finality is stable: while every new node builds on everything there is, the confirmed
/// view only ever grows at its end. Nothing in it is dropped or moved.
pub proof fn law_finality(
    g: Deps,
    ids: Seq<NodeId>,
    x: NodeId,
    d: Set<NodeId>,
    voters: Option<Seq<WriterKey>>,
)
    requires
        tops(g, ids, x, d),
        voters matches Some(v) ==> sorted_keys(v),
    ensures
        chained(g.insert(x, d)),
        ({
            let a = confirmed_view_of(g, voters);
            let b = confirmed_view_of(g.insert(x, d), voters);
            a.len() <= b.len() && b.take(a.len() as int) == a
        }),
{
    lemma_chained(g, ids, x, d);
    match voters {
        Some(v) => {
            assert(v.no_duplicates()) by {
                assert forall|i: int, j: int|
                    0 <= i < v.len() && 0 <= j < v.len() && i != j implies v[i] != v[j] by {
                    lemma_key_irreflexive(v[i]);
                    if i < j {
                        assert(super::ids::key_lt(v[i], v[j]));
                    } else {
                        assert(super::ids::key_lt(v[j], v[i]));
                    }
                }
            }
            lemma_view_grows(g, ids, x, d, v, Map::empty(), Set::empty());
        },
        None => {
            assert(confirmed_view_of(g, voters).take(0) =~= Seq::empty());
        },
    }
}

/// A node that builds on the frontier reaches the nodes from position `p` on.
proof fn lemma_over_frontier(g: Deps, ids: Seq<NodeId>, x: NodeId, d: Set<NodeId>, p: int)
    requires
        delivered(g, ids),
        0 <= p <= ids.len(),
        !g.contains_key(x),
        forall|n: NodeId| g.contains_key(n) && !covered(g, n) ==> #[trigger] d.contains(n),
    ensures
        forall|q: int| p <= q < ids.len() ==> reaches(g.insert(x, d), x, #[trigger] ids[q]),
    decreases ids.len() - p,
{
    if p < ids.len() {
        lemma_over_frontier(g, ids, x, d, p + 1);
        let h = g.insert(x, d);
        let n = ids[p];
        assert(ids.to_set().contains(n));
        assert(g.contains_key(n));
        lemma_reaches_self(h, n);
        if covered(g, n) {
            let m = choose|m: NodeId| #[trigger] g.contains_key(m) && g[m].contains(n);
            let q = lemma_position(g, ids, m);
            assert(g[ids[q]].contains(n));
            let r = choose|r: int| 0 <= r < q && #[trigger] ids[r] == n;
            assert(r == p);
            assert(reaches(h, x, ids[q]));
            lemma_reaches_step(h, m, n, n);
            lemma_reaches_transitive(h, x, m, n);
        } else {
            assert(d.contains(n));
            lemma_reaches_step(h, x, n, n);
        }
    }
}

/// Who builds on the frontier sees everything: every node is in the history of a node
/// that depends on those that no other depends on.
pub proof fn law_frontier(g: Deps, ids: Seq<NodeId>, x: NodeId, d: Set<NodeId>)
    requires
        delivered(g, ids),
        !g.contains_key(x),
        forall|n: NodeId| g.contains_key(n) && !covered(g, n) ==> #[trigger] d.contains(n),
    ensures
        forall|n: NodeId| #[trigger] g.contains_key(n) ==> reaches(g.insert(x, d), x, n),
{
    lemma_over_frontier(g, ids, x, d, 0);
    assert forall|n: NodeId| #[trigger] g.contains_key(n) implies reaches(g.insert(x, d), x, n) by {
        let q = lemma_position(g, ids, n);
        assert(reaches(g.insert(x, d), x, ids[q]));
    }
}

} // verus!
