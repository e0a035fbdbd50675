//! What it takes for a node to be confirmed, in terms of who sees what.
use vstd::prelude::*;
use super::consensus::{
    ack_of, acked_by, acks_from, acks_of, all_newer, at_bottom, bottoms, candidates, confirm_from,
    confirm_of, confirmed, count_hopeful, count_seen, hopeful, majority_of, merge_head,
    merge_heads, merges, newer, on_top, scope, tails_of, Confirm, Removed,
};
use super::graph::{
    delivered, lemma_log_len_meaning, lemma_reaches_known, lemma_reaches_self,
    lemma_reaches_transitive, lemma_seen_len_meaning, lemma_sees_own, log_len, reaches, seen_len,
    Deps,
};
use super::ids::{id_lt, key_lt, lemma_key_irreflexive, sorted_ids, sorted_keys, NodeId, WriterKey};
use super::linearizer::length_in;

verus! {

/// Whether a node is among the first that a clock counts of its writer.
pub open spec fn gone(removed: Removed, n: NodeId) -> bool {
    removed.contains_key(n.key) && n.seq < removed[n.key]
}

/// Whether `a` sees `b`, and whatever `a` sees that `b` does not, and that is not gone, sees
/// `b` as well: `a` stands above `b` on every branch.
pub open spec fn above(g: Deps, removed: Removed, a: NodeId, b: NodeId) -> bool {
    &&& reaches(g, a, b)
    &&& forall|x: NodeId| #[trigger]
        reaches(g, a, x) && !reaches(g, b, x) && !gone(removed, x) ==> reaches(g, x, b)
}

/// Whether `a` is another writer's first node that `target` does not see and that is not
/// gone, and stands above `target`.
pub open spec fn acknowledges(g: Deps, removed: Removed, a: NodeId, target: NodeId) -> bool {
    &&& g.contains_key(a)
    &&& a.key != target.key
    &&& !reaches(g, target, a)
    &&& !gone(removed, a)
    &&& forall|s: u64|
        s < a.seq ==> #[trigger] reaches(g, target, NodeId { key: a.key, seq: s }) || gone(
            removed,
            NodeId { key: a.key, seq: s },
        )
    &&& above(g, removed, a, target)
}

/// The nodes by which voters acknowledge `target`, itself if its writer is one.
pub open spec fn acknowledgers(
    g: Deps,
    v: Seq<WriterKey>,
    removed: Removed,
    target: NodeId,
) -> Set<NodeId> {
    Set::new(
        |a: NodeId| v.contains(a.key) && (a == target || acknowledges(g, removed, a, target)),
    )
}

/// Those of some nodes that `h` sees.
pub open spec fn seen_by(g: Deps, h: NodeId, nodes: Set<NodeId>) -> Set<NodeId> {
    nodes.filter(|a: NodeId| reaches(g, h, a))
}

/// Whether a node counts below `parent`: it is seen from there and is another, or, without a
/// parent, it is there at all.
pub open spec fn counts(g: Deps, parent: Option<NodeId>, x: NodeId) -> bool {
    match parent {
        Some(p) => reaches(g, p, x) && x != p,
        None => g.contains_key(x),
    }
}

/// Whether writer `w` has a node that counts and is not gone.
pub open spec fn present(g: Deps, removed: Removed, parent: Option<NodeId>, w: WriterKey) -> bool {
    exists|x: NodeId| x.key == w && #[trigger] counts(g, parent, x) && !gone(removed, x)
}

/// Whether writer `w` has a node that counts, stands above `target`, and sees more than half
/// as many of its acknowledgements as there are voters.
pub open spec fn seconds(
    g: Deps,
    v: Seq<WriterKey>,
    removed: Removed,
    target: NodeId,
    parent: Option<NodeId>,
    w: WriterKey,
) -> bool {
    present(g, removed, parent, w) && exists|h: NodeId|
        {
            &&& h.key == w
            &&& #[trigger] counts(g, parent, h)
            &&& above(g, removed, h, target)
            &&& 2 * seen_by(g, h, acknowledgers(g, v, removed, target)).len() > v.len()
        }
}

/// Whether the last node of writer `w` that counts stands above `target`.
pub open spec fn tops(
    g: Deps,
    removed: Removed,
    target: NodeId,
    parent: Option<NodeId>,
    w: WriterKey,
) -> bool {
    present(g, removed, parent, w) && exists|h: NodeId|
        {
            &&& h.key == w
            &&& #[trigger] counts(g, parent, h)
            &&& forall|x: NodeId| x.key == w && #[trigger] counts(g, parent, x) ==> x.seq <= h.seq
            &&& above(g, removed, h, target)
        }
}

/// Whether `parent` sees no later node of the same writer.
pub open spec fn last_seen(g: Deps, parent: NodeId, h: NodeId) -> bool {
    forall|x: NodeId| x.key == h.key && #[trigger] reaches(g, parent, x) ==> x.seq <= h.seq
}

/// Whether nothing that `parent` sees of writer `w` speaks against `target`: the last node
/// that it sees there, if there is one, is seen by `target`, is gone, or stands above it.
pub open spec fn open_to(
    g: Deps,
    removed: Removed,
    target: NodeId,
    parent: NodeId,
    w: WriterKey,
) -> bool {
    forall|h: NodeId|
        {
            h.key == w && #[trigger] reaches(g, parent, h) && last_seen(g, parent, h) ==> reaches(
                g,
                target,
                h,
            ) || gone(removed, h) || above(g, removed, h, target)
        }
}

/// More than half of the voters are as many as make more than all with as many again, and no
/// more than it takes.
pub proof fn law_majority(v: Seq<WriterKey>)
    ensures
        2 * majority_of(v) > v.len(),
        2 * (majority_of(v) - 1) <= v.len(),
{
}

/// Standing above is to see, on every branch.
pub proof fn law_newer(
    g: Deps,
    ids: Seq<NodeId>,
    object: NodeId,
    parent: NodeId,
    removed: Removed,
)
    requires
        delivered(g, ids),
        ids.len() <= u64::MAX,
        g.contains_key(object),
        g.contains_key(parent),
    ensures
        newer(g, object, parent, removed) <==> above(g, removed, parent, object),
{
    lemma_reaches_self(g, object);
    assert forall|key: WriterKey| true implies {
        &&& forall|s: u64|
            (#[trigger] reaches(g, object, NodeId { key, seq: s })) == (s < #[trigger] seen_len(
                g,
                object,
                key,
            ))
        &&& forall|s: u64|
            (#[trigger] reaches(g, parent, NodeId { key, seq: s })) == (s < seen_len(
                g,
                parent,
                key,
            ))
    } by {
        lemma_seen_len_meaning(g, ids, object, key);
        lemma_seen_len_meaning(g, ids, parent, key);
    }
    if newer(g, object, parent, removed) {
        assert forall|x: NodeId| #[trigger]
            reaches(g, parent, x) && !reaches(g, object, x) && !gone(removed, x) implies reaches(
            g,
            x,
            object,
        ) by {
            lemma_seen_len_meaning(g, ids, object, x.key);
            lemma_seen_len_meaning(g, ids, parent, x.key);
            assert(x == NodeId { key: x.key, seq: x.seq });
            let length = super::consensus::larger(
                seen_len(g, object, x.key),
                length_in(removed, x.key),
            );
            let f = NodeId { key: x.key, seq: length };
            lemma_reaches_known(g, parent, x);
            lemma_sees_own(g, ids, x, length);
            assert(seen_len(g, parent, x.key) > length);
            if f != object {
                lemma_reaches_transitive(g, x, f, object);
            }
        }
    }
    if above(g, removed, parent, object) {
        assert forall|key: WriterKey|
            ({
                let length = super::consensus::larger(
                    seen_len(g, object, key),
                    length_in(removed, key),
                );
                #[trigger] seen_len(g, parent, key) > length ==> super::graph::sees(
                    g,
                    NodeId { key, seq: length },
                    object,
                )
            }) by {
            lemma_seen_len_meaning(g, ids, object, key);
            lemma_seen_len_meaning(g, ids, parent, key);
            let length = super::consensus::larger(
                seen_len(g, object, key),
                length_in(removed, key),
            );
            let f = NodeId { key, seq: length };
            if seen_len(g, parent, key) > length {
                assert(reaches(g, parent, f));
                assert(!reaches(g, object, f));
            }
        }
    }
}

/// The node by which a voter acknowledges is the one that does.
proof fn lemma_ack(
    g: Deps,
    ids: Seq<NodeId>,
    target: NodeId,
    removed: Removed,
    w: WriterKey,
    n: NodeId,
)
    requires
        delivered(g, ids),
        ids.len() <= u64::MAX,
        g.contains_key(target),
    ensures
        ack_of(g, target, removed, w) == Some(n) <==> n.key == w && acknowledges(
            g,
            removed,
            n,
            target,
        ),
{
    let at = super::consensus::larger(seen_len(g, target, w), length_in(removed, w));
    let node = NodeId { key: w, seq: at };
    lemma_seen_len_meaning(g, ids, target, w);
    if g.contains_key(node) {
        law_newer(g, ids, target, node, removed);
    }
    if n.key == w && acknowledges(g, removed, n, target) {
        assert(n == NodeId { key: w, seq: n.seq });
        if n.seq > at {
            assert(!reaches(g, target, NodeId { key: n.key, seq: at }));
            assert(false);
        }
        assert(n == node);
    }
    if ack_of(g, target, removed, w) == Some(n) {
        assert forall|s: u64| s < n.seq implies #[trigger] reaches(
            g,
            target,
            NodeId { key: n.key, seq: s },
        ) || gone(removed, NodeId { key: n.key, seq: s }) by {}
    }
}

/// A voter does not come twice.
proof fn lemma_voters(v: Seq<WriterKey>)
    requires
        sorted_keys(v),
    ensures
        v.no_duplicates(),
{
    assert forall|i: int, j: int| 0 <= i < j < v.len() implies v[i] != v[j] by {
        lemma_key_irreflexive(v[i]);
    }
}

proof fn lemma_acks_from(
    g: Deps,
    ids: Seq<NodeId>,
    v: Seq<WriterKey>,
    target: NodeId,
    removed: Removed,
)
    requires
        delivered(g, ids),
        ids.len() <= u64::MAX,
        g.contains_key(target),
        v.no_duplicates(),
    ensures
        acks_from(g, v, target, removed).no_duplicates(),
        forall|a: NodeId| #[trigger]
            acks_from(g, v, target, removed).contains(a) <==> v.contains(a.key) && acknowledges(
                g,
                removed,
                a,
                target,
            ),
    decreases v.len(),
{
    let all = acks_from(g, v, target, removed);
    if v.len() > 0 {
        let less = v.drop_last();
        let w = v.last();
        let rest = acks_from(g, less, target, removed);
        assert(less.no_duplicates());
        lemma_acks_from(g, ids, less, target, removed);
        assert(v =~= less.push(w));
        assert(!less.contains(w)) by {
            if less.contains(w) {
                assert(v[less.index_of(w)] == v[v.len() - 1]);
            }
        }
        assert forall|a: NodeId| #[trigger] all.contains(a) <==> v.contains(a.key)
            && acknowledges(g, removed, a, target) by {
            lemma_ack(g, ids, target, removed, w, a);
            assert(rest.contains(a) <==> less.contains(a.key) && acknowledges(
                g,
                removed,
                a,
                target,
            ));
            assert(v.contains(a.key) <==> less.contains(a.key) || a.key == w) by {
                if less.contains(a.key) {
                    assert(v[less.index_of(a.key)] == a.key);
                }
                if v.contains(a.key) && a.key != w {
                    assert(less[v.index_of(a.key)] == a.key);
                }
                assert(v[v.len() - 1] == w);
            }
            match ack_of(g, target, removed, w) {
                Some(n) => {
                    lemma_ack(g, ids, target, removed, w, n);
                    assert(all == rest.push(n));
                    assert(all[rest.len() as int] == n);
                    if rest.contains(a) {
                        assert(all[rest.index_of(a)] == a);
                    }
                    if all.contains(a) && a != n {
                        assert(rest[all.index_of(a)] == a);
                    }
                },
                None => {},
            }
        }
        match ack_of(g, target, removed, w) {
            Some(n) => {
                lemma_ack(g, ids, target, removed, w, n);
                assert(!rest.contains(n));
                assert forall|i: int, j: int| 0 <= i < j < all.len() implies all[i] != all[j] by {
                    if j == rest.len() {
                        assert(rest.contains(rest[i]));
                    }
                }
            },
            None => {},
        }
    }
}

/// The acks of a node are the nodes by which voters acknowledge it, each once.
pub proof fn law_acks(
    g: Deps,
    ids: Seq<NodeId>,
    v: Seq<WriterKey>,
    target: NodeId,
    removed: Removed,
)
    requires
        delivered(g, ids),
        ids.len() <= u64::MAX,
        g.contains_key(target),
        sorted_keys(v),
    ensures
        acks_of(g, v, target, removed).no_duplicates(),
        acks_of(g, v, target, removed).to_set() == acknowledgers(g, v, removed, target),
        acknowledgers(g, v, removed, target).finite(),
        acks_of(g, v, target, removed).len() == acknowledgers(g, v, removed, target).len(),
{
    let all = acks_of(g, v, target, removed);
    let rest = acks_from(g, v, target, removed);
    let own = if v.contains(target.key) {
        seq![target]
    } else {
        Seq::empty()
    };
    lemma_voters(v);
    lemma_acks_from(g, ids, v, target, removed);
    assert(all == own + rest);
    assert(!rest.contains(target));
    assert forall|i: int, j: int| 0 <= i < j < all.len() implies all[i] != all[j] by {
        if i < own.len() {
            assert(rest.contains(rest[j - own.len()]));
        }
    }
    assert forall|a: NodeId| #[trigger] all.to_set().contains(a) <==> acknowledgers(
        g,
        v,
        removed,
        target,
    ).contains(a) by {
        if all.contains(a) {
            let i = all.index_of(a);
            if i >= own.len() {
                assert(rest[i - own.len()] == a);
                assert(rest.contains(a));
            }
        }
        if rest.contains(a) {
            assert(all[own.len() + rest.index_of(a)] == a);
        }
        if a == target && v.contains(target.key) {
            assert(all[0] == a);
        }
    }
    assert(all.to_set() =~= acknowledgers(g, v, removed, target));
    all.unique_seq_to_set();
}

/// What is counted is what is seen.
proof fn lemma_count(g: Deps, h: NodeId, nodes: Seq<NodeId>)
    requires
        nodes.no_duplicates(),
        g.contains_key(h),
    ensures
        seen_by(g, h, nodes.to_set()).finite(),
        count_seen(g, h, nodes) == seen_by(g, h, nodes.to_set()).len(),
    decreases nodes.len(),
{
    lemma_reaches_self(g, h);
    if nodes.len() == 0 {
        assert(seen_by(g, h, nodes.to_set()) =~= Set::empty());
    } else {
        let less = nodes.drop_last();
        let a = nodes.last();
        assert(less.no_duplicates());
        lemma_count(g, h, less);
        assert(!less.contains(a)) by {
            if less.contains(a) {
                assert(nodes[less.index_of(a)] == nodes[nodes.len() - 1]);
            }
        }
        assert forall|x: NodeId| #[trigger] nodes.to_set().contains(x) <==> less.to_set().contains(x)
            || x == a by {
            if nodes.contains(x) && x != a {
                assert(less[nodes.index_of(x)] == x);
            }
            if less.contains(x) {
                assert(nodes[less.index_of(x)] == x);
            }
            assert(nodes[nodes.len() - 1] == a);
        }
        if reaches(g, h, a) {
            assert(seen_by(g, h, nodes.to_set()) =~= seen_by(g, h, less.to_set()).insert(a));
        } else {
            assert(seen_by(g, h, nodes.to_set()) =~= seen_by(g, h, less.to_set()));
        }
    }
}

/// A later node of a writer sees what an earlier one sees.
proof fn lemma_count_grows(g: Deps, ids: Seq<NodeId>, h: NodeId, s: u64, nodes: Seq<NodeId>)
    requires
        delivered(g, ids),
        g.contains_key(h),
        s <= h.seq,
    ensures
        count_seen(g, NodeId { key: h.key, seq: s }, nodes) <= count_seen(g, h, nodes),
    decreases nodes.len(),
{
    let e = NodeId { key: h.key, seq: s };
    lemma_sees_own(g, ids, h, s);
    if nodes.len() > 0 {
        lemma_count_grows(g, ids, h, s, nodes.drop_last());
        let a = nodes.last();
        if e != a && reaches(g, e, a) {
            lemma_reaches_transitive(g, h, e, a);
        }
    }
}

/// What going down a voter's log finds: a node above `target` that sees enough, if there is
/// one; else the topmost node, if it stands above `target`.
proof fn lemma_confirm_from(
    g: Deps,
    ids: Seq<NodeId>,
    v: Seq<WriterKey>,
    w: WriterKey,
    target: NodeId,
    acks: Seq<NodeId>,
    removed: Removed,
    i: int,
    first: bool,
)
    requires
        delivered(g, ids),
        ids.len() <= u64::MAX,
        g.contains_key(target),
        -1 <= i < u64::MAX,
        i >= 0 ==> g.contains_key(NodeId { key: w, seq: i as u64 }),
    ensures
        ({
            let r = confirm_from(g, v, w, target, acks, removed, i, first);
            &&& r == Confirm::Acked <==> exists|h: NodeId|
                {
                    &&& h.key == w && h.seq <= i
                    &&& #[trigger] above(g, removed, h, target)
                    &&& 2 * count_seen(g, h, acks) > v.len()
                }
            &&& r == Confirm::Newer <==> first && i >= 0 && above(
                g,
                removed,
                NodeId { key: w, seq: i as u64 },
                target,
            ) && 2 * count_seen(g, NodeId { key: w, seq: i as u64 }, acks) <= v.len()
        }),
    decreases i + 1,
{
    if i >= 0 {
        let head = NodeId { key: w, seq: i as u64 };
        let enough = count_seen(g, head, acks) >= majority_of(v);
        law_newer(g, ids, target, head, removed);
        if i > 0 {
            lemma_sees_own(g, ids, head, (i - 1) as u64);
        }
        lemma_confirm_from(g, ids, v, w, target, acks, removed, i - 1, false);
        let r = confirm_from(g, v, w, target, acks, removed, i, first);
        if exists|h: NodeId|
            {
                &&& h.key == w && h.seq <= i
                &&& #[trigger] above(g, removed, h, target)
                &&& 2 * count_seen(g, h, acks) > v.len()
            } {
            let h = choose|h: NodeId|
                {
                    &&& h.key == w && h.seq <= i
                    &&& #[trigger] above(g, removed, h, target)
                    &&& 2 * count_seen(g, h, acks) > v.len()
                };
            lemma_count_grows(g, ids, head, h.seq, acks);
            assert(h == NodeId { key: w, seq: h.seq });
            assert(r == Confirm::Acked);
        }
        if r == Confirm::Acked {
            if newer(g, target, head, removed) {
                assert(above(g, removed, NodeId { key: w, seq: i as u64 }, target));
            } else {
                let h = choose|h: NodeId|
                    {
                        &&& h.key == w && h.seq <= i - 1
                        &&& #[trigger] above(g, removed, h, target)
                        &&& 2 * count_seen(g, h, acks) > v.len()
                    };
                assert(h.seq <= i && above(g, removed, h, target));
            }
        }
    }
}

/// How much of a writer's log counts.
proof fn lemma_scope(g: Deps, ids: Seq<NodeId>, parent: Option<NodeId>, w: WriterKey)
    requires
        delivered(g, ids),
        ids.len() <= u64::MAX,
        parent matches Some(p) ==> g.contains_key(p),
    ensures
        forall|x: NodeId|
            x.key == w ==> (#[trigger] counts(g, parent, x)) == (x.seq < scope(g, parent, w)),
        forall|x: NodeId|
            x.key == w && x.seq < scope(g, parent, w) ==> #[trigger] g.contains_key(x),
{
    lemma_log_len_meaning(g, ids, w);
    match parent {
        Some(p) => {
            lemma_seen_len_meaning(g, ids, p, w);
            assert forall|x: NodeId| x.key == w implies (#[trigger] counts(g, parent, x)) == (x.seq
                < scope(g, parent, w)) by {
                assert(x == NodeId { key: w, seq: x.seq });
                if p.key == w {
                    if x.seq <= p.seq {
                        lemma_sees_own(g, ids, p, x.seq);
                    }
                    if reaches(g, p, x) && x.seq > p.seq {
                        lemma_reaches_known(g, p, x);
                        lemma_sees_own(g, ids, x, p.seq);
                        super::graph::lemma_antisymmetric(g, p, x);
                    }
                }
            }
            assert forall|x: NodeId| x.key == w && x.seq < scope(
                g,
                parent,
                w,
            ) implies #[trigger] g.contains_key(x) by {
                assert(counts(g, parent, x));
                lemma_reaches_known(g, p, x);
            }
        },
        None => {
            assert forall|x: NodeId| x.key == w implies (#[trigger] g.contains_key(x)) == (x.seq
                < log_len(g, w)) by {
                assert(x == NodeId { key: w, seq: x.seq });
            }
        },
    }
}

/// What a voter says of a node.
proof fn lemma_confirm(
    g: Deps,
    ids: Seq<NodeId>,
    v: Seq<WriterKey>,
    w: WriterKey,
    target: NodeId,
    parent: Option<NodeId>,
    removed: Removed,
)
    requires
        delivered(g, ids),
        ids.len() <= u64::MAX,
        g.contains_key(target),
        parent matches Some(p) ==> g.contains_key(p),
        sorted_keys(v),
    ensures
        ({
            let r = confirm_of(
                g,
                v,
                w,
                target,
                acks_of(g, v, target, removed),
                scope(g, parent, w),
                removed,
            );
            &&& r == Confirm::Acked <==> seconds(g, v, removed, target, parent, w)
            &&& r != Confirm::Unseen <==> seconds(g, v, removed, target, parent, w) || tops(
                g,
                removed,
                target,
                parent,
                w,
            )
        }),
{
    let acks = acks_of(g, v, target, removed);
    let n = scope(g, parent, w);
    let set = acknowledgers(g, v, removed, target);
    law_acks(g, ids, v, target, removed);
    lemma_scope(g, ids, parent, w);
    assert(present(g, removed, parent, w) <==> length_in(removed, w) < n) by {
        if length_in(removed, w) < n {
            let x = NodeId { key: w, seq: length_in(removed, w) };
            assert(counts(g, parent, x));
            assert(!gone(removed, x));
        }
        if present(g, removed, parent, w) {
            let x = choose|x: NodeId|
                x.key == w && #[trigger] counts(g, parent, x) && !gone(removed, x);
            assert(x.seq < n);
        }
    }
    if length_in(removed, w) < n {
        lemma_confirm_from(g, ids, v, w, target, acks, removed, n - 1, true);
        let last = NodeId { key: w, seq: (n - 1) as u64 };
        let r = confirm_of(g, v, w, target, acks, n, removed);
        assert(counts(g, parent, last));
        if seconds(g, v, removed, target, parent, w) {
            let h = choose|h: NodeId|
                {
                    &&& h.key == w
                    &&& #[trigger] counts(g, parent, h)
                    &&& above(g, removed, h, target)
                    &&& 2 * seen_by(g, h, set).len() > v.len()
                };
            assert(g.contains_key(h));
            lemma_count(g, h, acks);
            assert(h.seq <= n - 1 && above(g, removed, h, target));
            assert(r == Confirm::Acked);
        }
        if r == Confirm::Acked {
            let h = choose|h: NodeId|
                {
                    &&& h.key == w && h.seq <= n - 1
                    &&& #[trigger] above(g, removed, h, target)
                    &&& 2 * count_seen(g, h, acks) > v.len()
                };
            assert(counts(g, parent, h));
            assert(g.contains_key(h));
            lemma_count(g, h, acks);
        }
        assert(tops(g, removed, target, parent, w) <==> above(g, removed, last, target)) by {
            if tops(g, removed, target, parent, w) {
                let h = choose|h: NodeId|
                    {
                        &&& h.key == w
                        &&& #[trigger] counts(g, parent, h)
                        &&& forall|x: NodeId|
                            x.key == w && #[trigger] counts(g, parent, x) ==> x.seq <= h.seq
                        &&& above(g, removed, h, target)
                    };
                assert(h == last);
            }
        }
        if above(g, removed, last, target) && r != Confirm::Acked {
            assert(2 * count_seen(g, last, acks) <= v.len()) by {
                if 2 * count_seen(g, last, acks) > v.len() {
                    assert(last.seq <= n - 1 && above(g, removed, last, target));
                }
            }
        }
    }
}

/// Whom a filter of voters leaves.
proof fn lemma_acked_by(
    g: Deps,
    ids: Seq<NodeId>,
    v: Seq<WriterKey>,
    s: Seq<WriterKey>,
    target: NodeId,
    parent: Option<NodeId>,
    removed: Removed,
)
    requires
        delivered(g, ids),
        ids.len() <= u64::MAX,
        g.contains_key(target),
        parent matches Some(p) ==> g.contains_key(p),
        sorted_keys(v),
        s.no_duplicates(),
    ensures
        ({
            let acks = acks_of(g, v, target, removed);
            let confs = acked_by(g, v, s, target, parent, acks, removed);
            let set = Set::new(
                |w: WriterKey| s.contains(w) && seconds(g, v, removed, target, parent, w),
            );
            &&& confs.no_duplicates()
            &&& forall|w: WriterKey| #[trigger] confs.contains(w) <==> set.contains(w)
            &&& set.finite()
            &&& confs.len() == set.len()
        }),
    decreases s.len(),
{
    let acks = acks_of(g, v, target, removed);
    let confs = acked_by(g, v, s, target, parent, acks, removed);
    let set = Set::new(|w: WriterKey| s.contains(w) && seconds(g, v, removed, target, parent, w));
    if s.len() > 0 {
        let less = s.drop_last();
        let x = s.last();
        let rest = acked_by(g, v, less, target, parent, acks, removed);
        assert(less.no_duplicates());
        lemma_acked_by(g, ids, v, less, target, parent, removed);
        lemma_confirm(g, ids, v, x, target, parent, removed);
        let small = Set::new(
            |w: WriterKey| less.contains(w) && seconds(g, v, removed, target, parent, w),
        );
        assert(!less.contains(x)) by {
            if less.contains(x) {
                assert(s[less.index_of(x)] == s[s.len() - 1]);
            }
        }
        assert forall|w: WriterKey| #[trigger] s.contains(w) <==> less.contains(w) || w == x by {
            if less.contains(w) {
                assert(s[less.index_of(w)] == w);
            }
            if s.contains(w) && w != x {
                assert(less[s.index_of(w)] == w);
            }
            assert(s[s.len() - 1] == x);
        }
        assert(!rest.contains(x)) by {
            assert(!small.contains(x));
        }
        if seconds(g, v, removed, target, parent, x) {
            assert(set =~= small.insert(x));
            assert(confs == rest.push(x));
            assert forall|w: WriterKey| #[trigger] confs.contains(w) <==> set.contains(w) by {
                assert(rest.contains(w) <==> small.contains(w));
                if rest.contains(w) {
                    assert(confs[rest.index_of(w)] == w);
                }
                if confs.contains(w) && w != x {
                    assert(rest[confs.index_of(w)] == w);
                }
                assert(confs[rest.len() as int] == x);
            }
            assert forall|i: int, j: int| 0 <= i < j < confs.len() implies confs[i] != confs[j] by {
                if j == rest.len() {
                    assert(rest.contains(rest[i]));
                }
            }
        } else {
            assert(set =~= small);
        }
    } else {
        assert(set =~= Set::empty());
    }
}

/// Nothing is final on a single quorum. At the top a node is confirmed if and only if more
/// than half of the voters have acknowledged it, and either more than half of the voters
/// each have a node above it that sees the acknowledgements of more than half, or every
/// voter has such a node or one above it that is its last.
pub proof fn law_double_quorum(
    g: Deps,
    ids: Seq<NodeId>,
    v: Seq<WriterKey>,
    target: NodeId,
    removed: Removed,
)
    requires
        delivered(g, ids),
        ids.len() <= u64::MAX,
        g.contains_key(target),
        sorted_keys(v),
    ensures
        confirmed(g, v, target, None, removed) <==> {
            &&& 2 * acknowledgers(g, v, removed, target).len() > v.len()
            &&& 2 * Set::new(
                |w: WriterKey| v.contains(w) && seconds(g, v, removed, target, None, w),
            ).len() > v.len() || forall|w: WriterKey| #[trigger]
                v.contains(w) ==> seconds(g, v, removed, target, None, w) || tops(
                    g,
                    removed,
                    target,
                    None,
                    w,
                )
        },
{
    let acks = acks_of(g, v, target, removed);
    law_acks(g, ids, v, target, removed);
    lemma_voters(v);
    lemma_acked_by(g, ids, v, v, target, None, removed);
    assert(all_newer(g, v, v, target, None, acks, removed) <==> forall|w: WriterKey| #[trigger]
        v.contains(w) ==> seconds(g, v, removed, target, None, w) || tops(
            g,
            removed,
            target,
            None,
            w,
        )) by {
        assert forall|k: int| 0 <= k < v.len() implies (confirm_of(
            g,
            v,
            #[trigger] v[k],
            target,
            acks,
            scope(g, None, v[k]),
            removed,
        ) != Confirm::Unseen <==> seconds(g, v, removed, target, None, v[k]) || tops(
            g,
            removed,
            target,
            None,
            v[k],
        )) by {
            lemma_confirm(g, ids, v, v[k], target, None, removed);
        }
        if all_newer(g, v, v, target, None, acks, removed) {
            assert forall|w: WriterKey| #[trigger] v.contains(w) implies seconds(
                g,
                v,
                removed,
                target,
                None,
                w,
            ) || tops(g, removed, target, None, w) by {
                let k = v.index_of(w);
                assert(v[k] == w);
            }
        } else {
            let k = choose|k: int|
                0 <= k < v.len() && confirm_of(
                    g,
                    v,
                    #[trigger] v[k],
                    target,
                    acks,
                    scope(g, None, v[k]),
                    removed,
                ) == Confirm::Unseen;
            assert(v.contains(v[k]));
        }
    }
}

proof fn lemma_hopeful(
    g: Deps,
    ids: Seq<NodeId>,
    target: NodeId,
    parent: NodeId,
    removed: Removed,
    w: WriterKey,
)
    requires
        delivered(g, ids),
        ids.len() <= u64::MAX,
        g.contains_key(target),
        g.contains_key(parent),
    ensures
        hopeful(g, target, parent, removed, w) <==> open_to(g, removed, target, parent, w),
{
    let n = seen_len(g, parent, w);
    let head = NodeId { key: w, seq: (n - 1) as u64 };
    lemma_seen_len_meaning(g, ids, parent, w);
    lemma_seen_len_meaning(g, ids, target, w);
    if n > 0 {
        assert(reaches(g, parent, head));
        lemma_reaches_known(g, parent, head);
        law_newer(g, ids, target, head, removed);
        assert(last_seen(g, parent, head)) by {
            assert forall|x: NodeId| x.key == head.key && #[trigger] reaches(
                g,
                parent,
                x,
            ) implies x.seq <= head.seq by {
                assert(x == NodeId { key: w, seq: x.seq });
            }
        }
        assert(reaches(g, target, head) <==> seen_len(g, target, w) >= n);
        assert forall|h: NodeId| h.key == w && #[trigger] reaches(g, parent, h) && last_seen(
            g,
            parent,
            h,
        ) implies h == head by {
            assert(h == NodeId { key: w, seq: h.seq });
            assert(reaches(g, parent, head));
        }
    } else {
        assert forall|h: NodeId| h.key == w implies !#[trigger] reaches(g, parent, h) by {
            assert(h == NodeId { key: w, seq: h.seq });
        }
    }
}

proof fn lemma_count_hopeful(
    g: Deps,
    ids: Seq<NodeId>,
    s: Seq<WriterKey>,
    target: NodeId,
    parent: NodeId,
    confs: Seq<WriterKey>,
    removed: Removed,
)
    requires
        delivered(g, ids),
        ids.len() <= u64::MAX,
        g.contains_key(target),
        g.contains_key(parent),
        s.no_duplicates(),
    ensures
        ({
            let set = Set::new(
                |w: WriterKey|
                    s.contains(w) && !confs.contains(w) && open_to(g, removed, target, parent, w),
            );
            &&& set.finite()
            &&& count_hopeful(g, s, target, parent, confs, removed) == set.len()
        }),
    decreases s.len(),
{
    let set = Set::new(
        |w: WriterKey|
            s.contains(w) && !confs.contains(w) && open_to(g, removed, target, parent, w),
    );
    if s.len() > 0 {
        let less = s.drop_last();
        let x = s.last();
        let small = Set::new(
            |w: WriterKey|
                less.contains(w) && !confs.contains(w) && open_to(g, removed, target, parent, w),
        );
        assert(less.no_duplicates());
        lemma_count_hopeful(g, ids, less, target, parent, confs, removed);
        lemma_hopeful(g, ids, target, parent, removed, x);
        assert(!less.contains(x)) by {
            if less.contains(x) {
                assert(s[less.index_of(x)] == s[s.len() - 1]);
            }
        }
        assert forall|w: WriterKey| #[trigger] s.contains(w) <==> less.contains(w) || w == x by {
            if less.contains(w) {
                assert(s[less.index_of(w)] == w);
            }
            if s.contains(w) && w != x {
                assert(less[s.index_of(w)] == w);
            }
            assert(s[s.len() - 1] == x);
        }
        if !confs.contains(x) && open_to(g, removed, target, parent, x) {
            assert(set =~= small.insert(x));
        } else {
            assert(set =~= small);
        }
    } else {
        assert(set =~= Set::empty());
    }
}

/// Below a parent a node is confirmed if and only if more than half of the voters have
/// acknowledged it, and either more than half of the voters each have a node there that
/// seconds it, or the parent sees the acknowledgements of more than half, and those that
/// second it make more than half with those that do not but against whom nothing speaks,
/// of whom there is one at least.
pub proof fn law_confirmed_below(
    g: Deps,
    ids: Seq<NodeId>,
    v: Seq<WriterKey>,
    target: NodeId,
    parent: NodeId,
    removed: Removed,
)
    requires
        delivered(g, ids),
        ids.len() <= u64::MAX,
        g.contains_key(target),
        g.contains_key(parent),
        sorted_keys(v),
    ensures
        ({
            let acks = acknowledgers(g, v, removed, target);
            let sure = Set::new(
                |w: WriterKey| v.contains(w) && seconds(g, v, removed, target, Some(parent), w),
            );
            let hope = Set::new(
                |w: WriterKey|
                    v.contains(w) && !seconds(g, v, removed, target, Some(parent), w) && open_to(
                        g,
                        removed,
                        target,
                        parent,
                        w,
                    ),
            );
            confirmed(g, v, target, Some(parent), removed) <==> {
                &&& 2 * acks.len() > v.len()
                &&& 2 * sure.len() > v.len() || {
                    &&& 2 * seen_by(g, parent, acks).len() > v.len()
                    &&& hope.len() > 0
                    &&& 2 * (sure.len() + hope.len()) > v.len()
                }
            }
        }),
{
    let acks = acks_of(g, v, target, removed);
    let confs = acked_by(g, v, v, target, Some(parent), acks, removed);
    let set = acknowledgers(g, v, removed, target);
    let sure = Set::new(
        |w: WriterKey| v.contains(w) && seconds(g, v, removed, target, Some(parent), w),
    );
    let hope = Set::new(
        |w: WriterKey|
            v.contains(w) && !seconds(g, v, removed, target, Some(parent), w) && open_to(
                g,
                removed,
                target,
                parent,
                w,
            ),
    );
    law_acks(g, ids, v, target, removed);
    lemma_voters(v);
    lemma_acked_by(g, ids, v, v, target, Some(parent), removed);
    lemma_count_hopeful(g, ids, v, target, parent, confs, removed);
    lemma_count(g, parent, acks);
    let hoped = Set::new(
        |w: WriterKey|
            v.contains(w) && !confs.contains(w) && open_to(g, removed, target, parent, w),
    );
    assert(hoped =~= hope) by {
        assert forall|w: WriterKey| #[trigger] hoped.contains(w) <==> hope.contains(w) by {
            assert(confs.contains(w) <==> sure.contains(w));
        }
    }
}

/// Whether a node is the oldest of a voter's that is not gone.
pub open spec fn oldest(g: Deps, v: Seq<WriterKey>, removed: Removed, n: NodeId) -> bool {
    &&& v.contains(n.key)
    &&& g.contains_key(n)
    &&& !gone(removed, n)
    &&& forall|s: u64| s < n.seq ==> #[trigger] gone(removed, NodeId { key: n.key, seq: s })
}

proof fn lemma_candidates(g: Deps, v: Seq<WriterKey>, removed: Removed)
    requires
        sorted_keys(v),
    ensures
        forall|n: NodeId| #[trigger] candidates(g, v, removed).contains(n) <==> oldest(g, v, removed, n),
        sorted_ids(candidates(g, v, removed)),
    decreases v.len(),
{
    let all = candidates(g, v, removed);
    if v.len() > 0 {
        let less = v.drop_last();
        let w = v.last();
        let rest = candidates(g, less, removed);
        let head = NodeId { key: w, seq: length_in(removed, w) };
        assert(sorted_keys(less)) by {
            assert forall|i: int, j: int| 0 <= i < j < less.len() implies key_lt(
                #[trigger] less[i],
                #[trigger] less[j],
            ) by {
                assert(key_lt(v[i], v[j]));
            }
        }
        lemma_candidates(g, less, removed);
        assert forall|k: WriterKey| #[trigger] v.contains(k) <==> less.contains(k) || k == w by {
            if less.contains(k) {
                assert(v[less.index_of(k)] == k);
            }
            if v.contains(k) && k != w {
                assert(less[v.index_of(k)] == k);
            }
            assert(v[v.len() - 1] == w);
        }
        assert forall|n: NodeId| #[trigger] all.contains(n) <==> oldest(g, v, removed, n) by {
            assert(rest.contains(n) <==> oldest(g, less, removed, n));
            if g.contains_key(head) {
                assert(all == rest.push(head));
                assert(all[rest.len() as int] == head);
            }
            if rest.contains(n) {
                assert(all[rest.index_of(n)] == n);
            }
            if all.contains(n) && !rest.contains(n) {
                let i = all.index_of(n);
                if i < rest.len() {
                    assert(rest[i] == n);
                }
                assert(n == head);
            }
            if oldest(g, v, removed, n) && n.key == w {
                if n.seq > head.seq {
                    assert(gone(removed, NodeId { key: n.key, seq: head.seq }));
                }
                assert(n == head);
            }
        }
        if g.contains_key(head) {
            assert forall|i: int, j: int| 0 <= i < j < all.len() implies id_lt(
                #[trigger] all[i],
                #[trigger] all[j],
            ) by {
                if j == rest.len() {
                    assert(rest.contains(rest[i]));
                    assert(oldest(g, less, removed, rest[i]));
                    let k = less.index_of(rest[i].key);
                    assert(key_lt(v[k], v[v.len() - 1]));
                }
            }
        }
    }
}

/// The tails are the oldest nodes of the voters that are not gone, those that see no other
/// of them, in the order of their ids.
pub proof fn law_tails(g: Deps, v: Seq<WriterKey>, removed: Removed)
    requires
        sorted_keys(v),
    ensures
        forall|n: NodeId| #[trigger]
            tails_of(g, v, removed).contains(n) <==> oldest(g, v, removed, n) && forall|m: NodeId|
                #[trigger] oldest(g, v, removed, m) && m != n ==> !reaches(g, n, m),
        sorted_ids(tails_of(g, v, removed)),
{
    let all = candidates(g, v, removed);
    lemma_candidates(g, v, removed);
    lemma_bottoms(g, all, all);
    assert forall|n: NodeId| #[trigger] tails_of(g, v, removed).contains(n) <==> oldest(
        g,
        v,
        removed,
        n,
    ) && forall|m: NodeId| #[trigger] oldest(g, v, removed, m) && m != n ==> !reaches(g, n, m) by {
        assert(all.contains(n) <==> oldest(g, v, removed, n));
        if at_bottom(g, all, n) {
            assert forall|m: NodeId| #[trigger] oldest(g, v, removed, m) && m != n implies !reaches(
                g,
                n,
                m,
            ) by {
                assert(all.contains(m));
                assert(all[all.index_of(m)] == m);
            }
        } else {
            let j = choose|j: int|
                0 <= j < all.len() && #[trigger] all[j] != n && super::graph::sees(g, n, all[j]);
            assert(all.contains(all[j]));
            assert(oldest(g, v, removed, all[j]));
        }
    }
}

proof fn lemma_bottoms(g: Deps, all: Seq<NodeId>, s: Seq<NodeId>)
    requires
        sorted_ids(s),
    ensures
        forall|n: NodeId| #[trigger]
            bottoms(g, all, s).contains(n) <==> s.contains(n) && at_bottom(g, all, n),
        sorted_ids(bottoms(g, all, s)),
    decreases s.len(),
{
    let out = bottoms(g, all, s);
    if s.len() > 0 {
        let less = s.drop_last();
        let x = s.last();
        let rest = bottoms(g, all, less);
        assert(sorted_ids(less)) by {
            assert forall|i: int, j: int| 0 <= i < j < less.len() implies id_lt(
                #[trigger] less[i],
                #[trigger] less[j],
            ) by {
                assert(id_lt(s[i], s[j]));
            }
        }
        lemma_bottoms(g, all, less);
        assert forall|n: NodeId| #[trigger] out.contains(n) <==> s.contains(n) && at_bottom(
            g,
            all,
            n,
        ) by {
            assert(rest.contains(n) <==> less.contains(n) && at_bottom(g, all, n));
            if less.contains(n) {
                assert(s[less.index_of(n)] == n);
            }
            if s.contains(n) && n != x {
                assert(less[s.index_of(n)] == n);
            }
            assert(s[s.len() - 1] == x);
            if rest.contains(n) {
                assert(out[rest.index_of(n)] == n);
            }
            if at_bottom(g, all, x) {
                assert(out == rest.push(x));
                assert(out[rest.len() as int] == x);
                if out.contains(n) && n != x {
                    assert(rest[out.index_of(n)] == n);
                }
            }
        }
        if at_bottom(g, all, x) {
            assert forall|i: int, j: int| 0 <= i < j < out.len() implies id_lt(
                #[trigger] out[i],
                #[trigger] out[j],
            ) by {
                if j == rest.len() {
                    assert(rest.contains(rest[i]));
                    let k = less.index_of(rest[i]);
                    assert(id_lt(s[k], s[s.len() - 1]));
                }
            }
        }
    }
}

/// Whether `x` is the last of a voter's nodes that `node` sees besides itself, and is not
/// gone.
pub open spec fn branch(g: Deps, v: Seq<WriterKey>, removed: Removed, node: NodeId, x: NodeId) -> bool {
    &&& v.contains(x.key)
    &&& reaches(g, node, x)
    &&& x != node
    &&& !gone(removed, x)
    &&& forall|y: NodeId| y.key == x.key && #[trigger] reaches(g, node, y) && y != node ==> y.seq
        <= x.seq
}

proof fn lemma_merge_heads(
    g: Deps,
    ids: Seq<NodeId>,
    v: Seq<WriterKey>,
    node: NodeId,
    removed: Removed,
)
    requires
        delivered(g, ids),
        ids.len() <= u64::MAX,
        g.contains_key(node),
        v.no_duplicates(),
    ensures
        forall|x: NodeId| #[trigger]
            merge_heads(g, v, node, removed).contains(x) <==> branch(g, v, removed, node, x),
        merge_heads(g, v, node, removed).no_duplicates(),
    decreases v.len(),
{
    let all = merge_heads(g, v, node, removed);
    if v.len() > 0 {
        let less = v.drop_last();
        let w = v.last();
        let rest = merge_heads(g, less, node, removed);
        assert(less.no_duplicates());
        lemma_merge_heads(g, ids, less, node, removed);
        assert(!less.contains(w)) by {
            if less.contains(w) {
                assert(v[less.index_of(w)] == v[v.len() - 1]);
            }
        }
        assert forall|k: WriterKey| #[trigger] v.contains(k) <==> less.contains(k) || k == w by {
            if less.contains(k) {
                assert(v[less.index_of(k)] == k);
            }
            if v.contains(k) && k != w {
                assert(less[v.index_of(k)] == k);
            }
            assert(v[v.len() - 1] == w);
        }
        lemma_scope(g, ids, Some(node), w);
        lemma_seen_len_meaning(g, ids, node, w);
        let n = scope(g, Some(node), w);
        let h = NodeId { key: w, seq: (n - 1) as u64 };
        lemma_reaches_self(g, node);
        assert(w == node.key ==> seen_len(g, node, w) == node.seq + 1) by {
            if w == node.key {
                assert(node == NodeId { key: w, seq: node.seq });
                if seen_len(g, node, w) > node.seq + 1 {
                    let x = NodeId { key: w, seq: (node.seq + 1) as u64 };
                    assert(reaches(g, node, x));
                    assert(counts(g, Some(node), x));
                }
            }
        }
        assert(merge_head(g, node, removed, w) == if n > 0 && !gone(removed, h) {
            Some(h)
        } else {
            None
        }) by {
            if n > 0 {
                assert(g.contains_key(h));
            }
        }
        assert forall|x: NodeId| x.key == w implies (branch(g, v, removed, node, x) <==> n > 0 && x
            == h && !gone(removed, h)) by {
            assert(counts(g, Some(node), x) == (x.seq < n));
            if n > 0 {
                assert(counts(g, Some(node), h));
                assert(reaches(g, node, h) && h != node);
            }
            if n > 0 && x == h {
                assert forall|y: NodeId| y.key == x.key && #[trigger] reaches(g, node, y) && y
                    != node implies y.seq <= x.seq by {
                    assert(counts(g, Some(node), y));
                }
            }
        }
        assert forall|x: NodeId| #[trigger] all.contains(x) <==> branch(g, v, removed, node, x) by {
            assert(rest.contains(x) <==> branch(g, less, removed, node, x));
            if rest.contains(x) {
                assert(all[rest.index_of(x)] == x);
            }
            match merge_head(g, node, removed, w) {
                Some(y) => {
                    assert(all == rest.push(y));
                    assert(all[rest.len() as int] == y);
                    if all.contains(x) && x != y {
                        assert(rest[all.index_of(x)] == x);
                    }
                },
                None => {},
            }
        }
        match merge_head(g, node, removed, w) {
            Some(y) => {
                assert(!rest.contains(y));
                assert forall|i: int, j: int| 0 <= i < j < all.len() implies all[i] != all[j] by {
                    if j == rest.len() {
                        assert(rest.contains(rest[i]));
                    }
                }
            },
            None => {},
        }
    }
}

/// A node merges if and only if its writer is a voter, and it sees two branches of voters
/// that no other branch that it sees has seen.
pub proof fn law_merges(
    g: Deps,
    ids: Seq<NodeId>,
    v: Seq<WriterKey>,
    node: NodeId,
    removed: Removed,
)
    requires
        delivered(g, ids),
        ids.len() <= u64::MAX,
        g.contains_key(node),
        sorted_keys(v),
    ensures
        merges(g, v, node, removed) <==> v.contains(node.key) && exists|x: NodeId, y: NodeId|
            {
                &&& x != y
                &&& #[trigger] branch(g, v, removed, node, x)
                &&& #[trigger] branch(g, v, removed, node, y)
                &&& forall|z: NodeId| #[trigger]
                    branch(g, v, removed, node, z) ==> (z == x || !reaches(g, z, x)) && (z == y
                        || !reaches(g, z, y))
            },
{
    let heads = merge_heads(g, v, node, removed);
    lemma_voters(v);
    lemma_merge_heads(g, ids, v, node, removed);
    assert forall|i: int| 0 <= i < heads.len() implies (#[trigger] on_top(g, heads, i)
        <==> forall|z: NodeId| #[trigger]
        branch(g, v, removed, node, z) ==> z == heads[i] || !reaches(g, z, heads[i])) by {
        if on_top(g, heads, i) {
            assert forall|z: NodeId| #[trigger] branch(g, v, removed, node, z) implies z == heads[i]
                || !reaches(g, z, heads[i]) by {
                assert(heads.contains(z));
                assert(heads[heads.index_of(z)] == z);
            }
        } else {
            let j = choose|j: int|
                0 <= j < heads.len() && #[trigger] heads[j] != heads[i] && super::graph::sees(
                    g,
                    heads[j],
                    heads[i],
                );
            assert(heads.contains(heads[j]));
            assert(branch(g, v, removed, node, heads[j]));
        }
    }
    if merges(g, v, node, removed) {
        let (i, j) = choose|i: int, j: int|
            0 <= i < j < heads.len() && #[trigger] on_top(g, heads, i) && #[trigger] on_top(
                g,
                heads,
                j,
            );
        assert(heads.contains(heads[i]) && heads.contains(heads[j]));
        assert(branch(g, v, removed, node, heads[i]) && branch(g, v, removed, node, heads[j]));
    }
    if v.contains(node.key) && exists|x: NodeId, y: NodeId|
        {
            &&& x != y
            &&& #[trigger] branch(g, v, removed, node, x)
            &&& #[trigger] branch(g, v, removed, node, y)
            &&& forall|z: NodeId| #[trigger]
                branch(g, v, removed, node, z) ==> (z == x || !reaches(g, z, x)) && (z == y
                    || !reaches(g, z, y))
        } {
        let (x, y) = choose|x: NodeId, y: NodeId|
            {
                &&& x != y
                &&& #[trigger] branch(g, v, removed, node, x)
                &&& #[trigger] branch(g, v, removed, node, y)
                &&& forall|z: NodeId| #[trigger]
                    branch(g, v, removed, node, z) ==> (z == x || !reaches(g, z, x)) && (z == y
                        || !reaches(g, z, y))
            };
        assert(heads.contains(x) && heads.contains(y));
        let i = heads.index_of(x);
        let j = heads.index_of(y);
        assert(heads[i] == x && heads[j] == y);
        assert(on_top(g, heads, i) && on_top(g, heads, j));
        if i < j {
            assert(merges(g, v, node, removed));
        } else {
            assert(j < i);
            assert(merges(g, v, node, removed));
        }
    }
}

/// Acks after the target's own come in the order of their writers' keys.
proof fn lemma_acks_in_order(
    g: Deps,
    v: Seq<WriterKey>,
    target: NodeId,
    removed: Removed,
)
    requires
        sorted_keys(v),
    ensures
        ({
            let a = acks_from(g, v, target, removed);
            &&& forall|i: int| 0 <= i < a.len() ==> v.contains((#[trigger] a[i]).key)
            &&& forall|i: int, j: int|
                0 <= i < j < a.len() ==> super::ids::key_lt(
                    (#[trigger] a[i]).key,
                    (#[trigger] a[j]).key,
                )
        }),
    decreases v.len(),
{
    if v.len() > 0 {
        let less = v.drop_last();
        assert(sorted_keys(less)) by {
            assert forall|i: int, j: int| 0 <= i < j < less.len() implies super::ids::key_lt(
                #[trigger] less[i],
                #[trigger] less[j],
            ) by {
                assert(less[i] == v[i] && less[j] == v[j]);
            }
        }
        lemma_acks_in_order(g, less, target, removed);
        let b = acks_from(g, less, target, removed);
        let a = acks_from(g, v, target, removed);
        assert(v[v.len() - 1] == v.last());
        assert forall|i: int| 0 <= i < a.len() implies v.contains((#[trigger] a[i]).key) by {
            if i < b.len() {
                assert(less.contains(b[i].key));
                assert(v[less.index_of(b[i].key)] == a[i].key);
            }
        }
        assert forall|i: int, j: int| 0 <= i < j < a.len() implies super::ids::key_lt(
            (#[trigger] a[i]).key,
            (#[trigger] a[j]).key,
        ) by {
            assert(a[i] == b[i]);
            if j < b.len() {
                assert(a[j] == b[j]);
            } else {
                assert(less.contains(b[i].key));
                assert(super::ids::key_lt(v[less.index_of(b[i].key)], v[v.len() - 1]));
            }
        }
    }
}

/// The acks of a node begin with the node itself, if its writer votes; the others follow in
/// the order of their writers' keys.
pub proof fn law_acks_in_order(
    g: Deps,
    v: Seq<WriterKey>,
    target: NodeId,
    removed: Removed,
    i: int,
    j: int,
)
    requires
        sorted_keys(v),
    ensures
        ({
            let a = acks_of(g, v, target, removed);
            let own: int = if v.contains(target.key) {
                1
            } else {
                0
            };
            &&& own == 1 ==> a.len() > 0 && a[0] == target
            &&& own <= i < j < a.len() ==> super::ids::key_lt(a[i].key, a[j].key)
        }),
{
    lemma_acks_in_order(g, v, target, removed);
    let a = acks_of(g, v, target, removed);
    let rest = acks_from(g, v, target, removed);
    let own: int = if v.contains(target.key) {
        1
    } else {
        0
    };
    if own <= i < j < a.len() {
        assert(a[i] == rest[i - own] && a[j] == rest[j - own]);
    }
}

} // verus!
