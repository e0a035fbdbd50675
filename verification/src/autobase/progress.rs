//! Which nodes are confirmed next, and what is confirmed in the end.
use vstd::prelude::*;
use super::consensus::{
    arms, confirmed, confirmed_view_of, first_confirmed, lemma_past, lemma_progress, merge_set,
    merges, newly_covered, pending, prefix_from, raised_all, resolved, seen_of, shift, tails_of,
    view_from, with_seen, Removed,
};
use super::graph::{causal, delivered, lemma_reaches_known, lemma_reaches_self, reaches, topo, Deps};
use super::ids::{
    id_lt, in_order, lemma_id_total, lemma_in_order_of, sorted_ids, sorted_keys, NodeId, WriterKey,
};
use super::laws::law_topo;
use super::linearizer::length_in;
use super::views::lemma_shift_in;
use super::votes::{gone, law_tails};

verus! {

/// Whether a node is one of a voter's that is not gone and merges branches.
pub open spec fn joins(g: Deps, v: Seq<WriterKey>, removed: Removed, m: NodeId) -> bool {
    g.contains_key(m) && v.contains(m.key) && !gone(removed, m) && merges(g, v, m, removed)
}

/// Whether a node is the least of those that `p` picks.
pub open spec fn least(p: spec_fn(NodeId) -> bool, t: NodeId) -> bool {
    p(t) && forall|x: NodeId| #[trigger] p(x) ==> x == t || id_lt(t, x)
}

/// Whether `p` picks a node.
pub open spec fn any(p: spec_fn(NodeId) -> bool) -> bool {
    exists|x: NodeId| #[trigger] p(x)
}

/// The first of some nodes that is confirmed.
proof fn lemma_first(
    g: Deps,
    v: Seq<WriterKey>,
    s: Seq<NodeId>,
    k: int,
    parent: Option<NodeId>,
    removed: Removed,
)
    requires
        0 <= k <= s.len(),
    ensures
        match first_confirmed(g, v, s, k, parent, removed) {
            Some(t) => exists|i: int|
                {
                    &&& k <= i < s.len()
                    &&& #[trigger] s[i] == t
                    &&& confirmed(g, v, t, parent, removed)
                    &&& forall|j: int|
                        k <= j < i ==> !confirmed(g, v, #[trigger] s[j], parent, removed)
                },
            None => forall|j: int|
                k <= j < s.len() ==> !confirmed(g, v, #[trigger] s[j], parent, removed),
        },
    decreases s.len() - k,
{
    if k < s.len() {
        if confirmed(g, v, s[k], parent, removed) {
            assert(s[k] == s[k]);
        } else {
            lemma_first(g, v, s, k + 1, parent, removed);
        }
    }
}

/// The first of ascending nodes that is confirmed is the least.
proof fn lemma_first_least(
    g: Deps,
    v: Seq<WriterKey>,
    s: Seq<NodeId>,
    parent: Option<NodeId>,
    removed: Removed,
)
    requires
        sorted_ids(s),
    ensures
        match first_confirmed(g, v, s, 0, parent, removed) {
            Some(t) => least(|x: NodeId| s.contains(x) && confirmed(g, v, x, parent, removed), t),
            None => forall|x: NodeId|
                #[trigger] s.contains(x) ==> !confirmed(g, v, x, parent, removed),
        },
{
    lemma_first(g, v, s, 0, parent, removed);
    let p = |x: NodeId| s.contains(x) && confirmed(g, v, x, parent, removed);
    match first_confirmed(g, v, s, 0, parent, removed) {
        Some(t) => {
            let i = choose|i: int|
                {
                    &&& 0 <= i < s.len()
                    &&& #[trigger] s[i] == t
                    &&& confirmed(g, v, t, parent, removed)
                    &&& forall|j: int|
                        0 <= j < i ==> !confirmed(g, v, #[trigger] s[j], parent, removed)
                };
            assert(s.contains(t));
            assert forall|x: NodeId| #[trigger] p(x) implies x == t || id_lt(t, x) by {
                let j = s.index_of(x);
                assert(s[j] == x);
                if j < i {
                    assert(!confirmed(g, v, s[j], parent, removed));
                }
            }
        },
        None => {
            assert forall|x: NodeId| #[trigger] s.contains(x) implies !confirmed(
                g,
                v,
                x,
                parent,
                removed,
            ) by {
                assert(s[s.index_of(x)] == x);
            }
        },
    }
}

proof fn lemma_merge_set(g: Deps, v: Seq<WriterKey>, removed: Removed)
    requires
        g.dom().finite(),
    ensures
        sorted_ids(in_order(merge_set(g, v, removed))),
        forall|m: NodeId| #[trigger]
            in_order(merge_set(g, v, removed)).contains(m) <==> joins(g, v, removed, m),
{
    let set = merge_set(g, v, removed);
    assert(set.subset_of(g.dom()));
    vstd::set_lib::lemma_set_subset_finite(g.dom(), set);
    lemma_in_order_of(set);
    assert forall|m: NodeId| #[trigger] in_order(set).contains(m) <==> joins(g, v, removed, m) by {
        assert(in_order(set).to_set().contains(m) <==> set.contains(m));
    }
}

/// What is confirmed next: the least tail that is confirmed at the top; if there is none,
/// what the least node that merges branches and is confirmed at the top resolves to; and
/// nothing if there is no such node either.
pub proof fn law_shift(g: Deps, v: Seq<WriterKey>, removed: Removed)
    requires
        g.dom().finite(),
        sorted_keys(v),
    ensures
        ({
            let tails = tails_of(g, v, removed);
            let tail = |t: NodeId| tails.contains(t) && confirmed(g, v, t, None, removed);
            let merge = |m: NodeId| joins(g, v, removed, m) && confirmed(g, v, m, None, removed);
            let next = shift(g, v, removed);
            if any(tail) {
                next.len() == 1 && least(tail, next[0])
            } else if any(merge) {
                exists|m: NodeId|
                    #[trigger] least(merge, m) && next == resolved(g, v, m, tails, removed)
            } else {
                next.len() == 0
            }
        }),
{
    let tails = tails_of(g, v, removed);
    let list = in_order(merge_set(g, v, removed));
    let tail = |t: NodeId| tails.contains(t) && confirmed(g, v, t, None, removed);
    let merge = |m: NodeId| joins(g, v, removed, m) && confirmed(g, v, m, None, removed);
    let listed = |m: NodeId| list.contains(m) && confirmed(g, v, m, None, removed);
    law_tails(g, v, removed);
    lemma_merge_set(g, v, removed);
    lemma_first_least(g, v, tails, None, removed);
    lemma_first_least(g, v, list, None, removed);
    match first_confirmed(g, v, tails, 0, None, removed) {
        Some(t) => {
            assert(tail(t));
        },
        None => {
            assert forall|t: NodeId| !#[trigger] tail(t) by {
                if tails.contains(t) {
                    assert(!confirmed(g, v, t, None, removed));
                }
            }
            match first_confirmed(g, v, list, 0, None, removed) {
                Some(m) => {
                    assert(listed(m));
                    assert(merge(m));
                    assert forall|x: NodeId| #[trigger] merge(x) implies x == m || id_lt(m, x) by {
                        assert(list.contains(x));
                        assert(listed(x));
                    }
                    assert(least(merge, m));
                },
                None => {
                    assert forall|m: NodeId| !#[trigger] merge(m) by {
                        if joins(g, v, removed, m) {
                            assert(list.contains(m));
                        }
                    }
                },
            }
        },
    }
}

proof fn lemma_seen(g: Deps, node: NodeId, tails: Seq<NodeId>)
    requires
        g.contains_key(node),
        sorted_ids(tails),
    ensures
        sorted_ids(seen_of(g, node, tails)),
        forall|t: NodeId| #[trigger]
            seen_of(g, node, tails).contains(t) <==> tails.contains(t) && reaches(g, node, t),
    decreases tails.len(),
{
    let out = seen_of(g, node, tails);
    lemma_reaches_self(g, node);
    if tails.len() > 0 {
        let less = tails.drop_last();
        let x = tails.last();
        let rest = seen_of(g, node, less);
        assert(sorted_ids(less)) by {
            assert forall|i: int, j: int| 0 <= i < j < less.len() implies id_lt(
                #[trigger] less[i],
                #[trigger] less[j],
            ) by {
                assert(id_lt(tails[i], tails[j]));
            }
        }
        lemma_seen(g, node, less);
        assert forall|t: NodeId| #[trigger] out.contains(t) <==> tails.contains(t) && reaches(
            g,
            node,
            t,
        ) by {
            assert(rest.contains(t) <==> less.contains(t) && reaches(g, node, t));
            if less.contains(t) {
                assert(tails[less.index_of(t)] == t);
            }
            if tails.contains(t) && t != x {
                assert(less[tails.index_of(t)] == t);
            }
            assert(tails[tails.len() - 1] == x);
            if rest.contains(t) {
                assert(out[rest.index_of(t)] == t);
            }
            if reaches(g, node, x) {
                assert(out == rest.push(x));
                assert(out[rest.len() as int] == x);
                if out.contains(t) && t != x {
                    assert(rest[out.index_of(t)] == t);
                }
            }
        }
        if reaches(g, node, x) {
            assert forall|i: int, j: int| 0 <= i < j < out.len() implies id_lt(
                #[trigger] out[i],
                #[trigger] out[j],
            ) by {
                if j == rest.len() {
                    assert(rest.contains(rest[i]));
                    assert(id_lt(tails[less.index_of(rest[i])], tails[tails.len() - 1]));
                }
            }
        }
    }
}

proof fn lemma_with(g: Deps, node: NodeId, all: Seq<NodeId>, more: Seq<NodeId>)
    requires
        g.contains_key(node),
        sorted_ids(more),
    ensures
        ({
            let out = with_seen(g, node, all, more);
            &&& out.len() >= all.len()
            &&& out.take(all.len() as int) == all
            &&& sorted_ids(out.skip(all.len() as int))
            &&& forall|t: NodeId| #[trigger]
                out.skip(all.len() as int).contains(t) <==> more.contains(t) && t != node
                    && reaches(g, node, t) && !all.contains(t)
        }),
    decreases more.len(),
{
    let out = with_seen(g, node, all, more);
    let n = all.len() as int;
    if more.len() == 0 {
        assert(out.take(n) =~= all);
        assert(out.skip(n) =~= Seq::empty());
    } else {
        let less = more.drop_last();
        let x = more.last();
        let rest = with_seen(g, node, all, less);
        assert(sorted_ids(less)) by {
            assert forall|i: int, j: int| 0 <= i < j < less.len() implies id_lt(
                #[trigger] less[i],
                #[trigger] less[j],
            ) by {
                assert(id_lt(more[i], more[j]));
            }
        }
        lemma_with(g, node, all, less);
        let a = rest.skip(n);
        let b = out.skip(n);
        assert(!less.contains(x)) by {
            if less.contains(x) {
                assert(id_lt(more[less.index_of(x)], more[more.len() - 1]));
                lemma_id_total(x, x);
            }
        }
        assert(rest =~= all + a);
        assert(rest.contains(x) <==> all.contains(x)) by {
            if rest.contains(x) {
                let i = rest.index_of(x);
                if i >= n {
                    assert(a[i - n] == x);
                    assert(a.contains(x));
                } else {
                    assert(all[i] == x);
                }
            }
            if all.contains(x) {
                assert(rest[all.index_of(x)] == x);
            }
        }
        let adds = x != node && reaches(g, node, x) && !all.contains(x);
        if adds {
            assert(out == rest.push(x));
            assert(b =~= a.push(x));
            assert(out.take(n) =~= rest.take(n));
        } else {
            assert(out == rest);
        }
        assert forall|t: NodeId| #[trigger] b.contains(t) <==> more.contains(t) && t != node
            && reaches(g, node, t) && !all.contains(t) by {
            assert(a.contains(t) <==> less.contains(t) && t != node && reaches(g, node, t)
                && !all.contains(t));
            if less.contains(t) {
                assert(more[less.index_of(t)] == t);
            }
            if more.contains(t) && t != x {
                assert(less[more.index_of(t)] == t);
            }
            assert(more[more.len() - 1] == x);
            if adds {
                assert(b[a.len() as int] == x);
                if a.contains(t) {
                    assert(b[a.index_of(t)] == t);
                }
                if b.contains(t) && t != x {
                    assert(a[b.index_of(t)] == t);
                }
            }
        }
        if adds {
            assert forall|i: int, j: int| 0 <= i < j < b.len() implies id_lt(
                #[trigger] b[i],
                #[trigger] b[j],
            ) by {
                if j == a.len() {
                    assert(a.contains(a[i]));
                    assert(less.contains(a[i]));
                    assert(id_lt(more[less.index_of(a[i])], more[more.len() - 1]));
                }
            }
        }
    }
}

/// What a node resolves to. A tail resolves to itself. Another node resolves to what the
/// least tail that it sees and that is confirmed below it resolves to; if there is none, to
/// what the least such node that merges branches does; and to all the tails that it sees if
/// nothing is confirmed below it.
pub proof fn law_resolved(
    g: Deps,
    ids: Seq<NodeId>,
    v: Seq<WriterKey>,
    node: NodeId,
    removed: Removed,
)
    requires
        delivered(g, ids),
        sorted_keys(v),
        g.contains_key(node),
    ensures
        ({
            let tails = tails_of(g, v, removed);
            let tail = |t: NodeId|
                tails.contains(t) && reaches(g, node, t) && confirmed(
                    g,
                    v,
                    t,
                    Some(node),
                    removed,
                );
            let merge = |m: NodeId|
                joins(g, v, removed, m) && m != node && !tails.contains(m) && reaches(g, node, m)
                    && confirmed(g, v, m, Some(node), removed);
            let out = resolved(g, v, node, tails, removed);
            if tails.contains(node) {
                out == seq![node]
            } else if any(tail) {
                exists|t: NodeId|
                    #[trigger] least(tail, t) && out == resolved(g, v, t, tails, removed)
            } else if any(merge) {
                exists|m: NodeId|
                    #[trigger] least(merge, m) && out == resolved(g, v, m, tails, removed)
            } else {
                &&& sorted_ids(out)
                &&& forall|t: NodeId| #[trigger]
                    out.contains(t) <==> tails.contains(t) && reaches(g, node, t)
            }
        }),
{
    let tails = tails_of(g, v, removed);
    let list = in_order(merge_set(g, v, removed));
    let some = seen_of(g, node, tails);
    let all = arms(g, v, node, tails, removed);
    let n = some.len() as int;
    let rest = all.skip(n);
    let tail = |t: NodeId|
        tails.contains(t) && reaches(g, node, t) && confirmed(g, v, t, Some(node), removed);
    let merge = |m: NodeId|
        joins(g, v, removed, m) && m != node && !tails.contains(m) && reaches(g, node, m)
            && confirmed(g, v, m, Some(node), removed);
    ids.unique_seq_to_set();
    law_tails(g, v, removed);
    lemma_merge_set(g, v, removed);
    lemma_seen(g, node, tails);
    lemma_with(g, node, some, list);
    if !tails.contains(node) {
        lemma_first(g, v, all, 0, Some(node), removed);
        assert(all =~= some + rest);
        match first_confirmed(g, v, all, 0, Some(node), removed) {
            Some(t) => {
                let i = choose|i: int|
                    {
                        &&& 0 <= i < all.len()
                        &&& #[trigger] all[i] == t
                        &&& confirmed(g, v, t, Some(node), removed)
                        &&& forall|j: int|
                            0 <= j < i ==> !confirmed(g, v, #[trigger] all[j], Some(node), removed)
                    };
                if i < n {
                    assert(some[i] == t);
                    assert(some.contains(t));
                    assert(tail(t));
                    assert forall|x: NodeId| #[trigger] tail(x) implies x == t || id_lt(t, x) by {
                        assert(some.contains(x));
                        let j = some.index_of(x);
                        assert(all[j] == x);
                        if j > i {
                            assert(id_lt(some[i], some[j]));
                        }
                    }
                    assert(least(tail, t));
                    lemma_past(g, ids, node, t);
                } else {
                    assert(rest[i - n] == t);
                    assert(rest.contains(t));
                    assert forall|x: NodeId| !#[trigger] tail(x) by {
                        if tail(x) {
                            assert(some.contains(x));
                            assert(all[some.index_of(x)] == x);
                        }
                    }
                    assert(merge(t));
                    assert forall|x: NodeId| #[trigger] merge(x) implies x == t || id_lt(t, x) by {
                        assert(list.contains(x));
                        assert(!some.contains(x));
                        assert(rest.contains(x));
                        let j = rest.index_of(x);
                        assert(all[n + j] == x);
                        if n + j > i {
                            assert(id_lt(rest[i - n], rest[j]));
                        }
                    }
                    assert(least(merge, t));
                    lemma_past(g, ids, node, t);
                }
            },
            None => {
                assert forall|x: NodeId| !#[trigger] tail(x) by {
                    if tail(x) {
                        assert(some.contains(x));
                        assert(all[some.index_of(x)] == x);
                    }
                }
                assert forall|x: NodeId| !#[trigger] merge(x) by {
                    if merge(x) {
                        assert(list.contains(x));
                        assert(!some.contains(x));
                        assert(rest.contains(x));
                        assert(all[n + rest.index_of(x)] == x);
                    }
                }
            },
        }
    }
}

/// The numbers that are confirmed once some nodes are: those before, and those up to each
/// of the nodes.
pub proof fn law_raised(removed: Removed, nodes: Seq<NodeId>, x: NodeId)
    requires
        forall|k: int| 0 <= k < nodes.len() ==> (#[trigger] nodes[k]).seq < u64::MAX,
    ensures
        gone(raised_all(removed, nodes), x) <==> gone(removed, x) || exists|k: int|
            0 <= k < nodes.len() && (#[trigger] nodes[k]).key == x.key && x.seq <= nodes[k].seq,
    decreases nodes.len(),
{
    if nodes.len() > 0 {
        let less = nodes.drop_last();
        let n = nodes.last();
        assert forall|k: int| 0 <= k < less.len() implies (#[trigger] less[k]).seq < u64::MAX by {
            assert(less[k] == nodes[k]);
        }
        assert(nodes[nodes.len() - 1] == n);
        law_raised(removed, less, x);
        if exists|k: int| 0 <= k < less.len() && (#[trigger] less[k]).key == x.key && x.seq <= less[k].seq {
            let k = choose|k: int|
                0 <= k < less.len() && (#[trigger] less[k]).key == x.key && x.seq <= less[k].seq;
            assert(nodes[k] == less[k]);
        }
        if exists|k: int| 0 <= k < nodes.len() && (#[trigger] nodes[k]).key == x.key && x.seq <= nodes[k].seq {
            let k = choose|k: int|
                0 <= k < nodes.len() && (#[trigger] nodes[k]).key == x.key && x.seq <= nodes[k].seq;
            if k < less.len() {
                assert(less[k] == nodes[k]);
            }
        }
    }
}

/// Nothing stands in the way of what is confirmed next.
proof fn lemma_goes_on(g: Deps, ids: Seq<NodeId>, v: Seq<WriterKey>, removed: Removed)
    requires
        delivered(g, ids),
        ids.len() <= u64::MAX,
        shift(g, v, removed).len() > 0,
    ensures
        pending(g, v, raised_all(removed, shift(g, v, removed))) < pending(g, v, removed),
        forall|k: int|
            0 <= k < shift(g, v, removed).len() ==> (#[trigger] shift(g, v, removed)[k]).seq
                < u64::MAX,
{
    let batch = shift(g, v, removed);
    assert forall|k: int| 0 <= k < batch.len() implies {
        &&& g.contains_key(#[trigger] batch[k])
        &&& v.contains(batch[k].key)
        &&& batch[k].seq == length_in(removed, batch[k].key)
        &&& batch[k].seq < u64::MAX
    } by {
        lemma_shift_in(g, v, removed, k);
        let p = super::graph::lemma_position(g, ids, batch[k]);
        super::graph::lemma_seq_bound(g, ids, p);
    }
    lemma_progress(g, ids, v, removed, batch);
}

/// The confirmed prefix is what is confirmed next, then what is confirmed once that is gone,
/// and so on, until nothing is.
pub proof fn law_prefix(g: Deps, ids: Seq<NodeId>, v: Seq<WriterKey>, removed: Removed)
    requires
        delivered(g, ids),
        ids.len() <= u64::MAX,
    ensures
        ({
            let next = shift(g, v, removed);
            prefix_from(g, v, removed) == if next.len() == 0 {
                Seq::empty()
            } else {
                next + prefix_from(g, v, raised_all(removed, next))
            }
        }),
{
    if shift(g, v, removed).len() > 0 {
        lemma_goes_on(g, ids, v, removed);
    }
}

/// The confirmed view is the history of the confirmed prefix, and no more: what is confirmed
/// next comes with what it sees that has not come yet, as [`topo`] orders it, then what is
/// confirmed once that is gone.
pub proof fn law_view(
    g: Deps,
    ids: Seq<NodeId>,
    v: Seq<WriterKey>,
    removed: Removed,
    emitted: Set<NodeId>,
)
    requires
        delivered(g, ids),
        ids.len() <= u64::MAX,
    ensures
        ({
            let next = shift(g, v, removed);
            let more = Set::new(
                |n: NodeId|
                    !emitted.contains(n) && exists|p: NodeId|
                        next.contains(p) && #[trigger] reaches(g, p, n),
            );
            view_from(g, v, removed, emitted) == if next.len() == 0 {
                Seq::empty()
            } else {
                topo(g, more) + view_from(g, v, raised_all(removed, next), emitted.union(more))
            }
        }),
{
    let next = shift(g, v, removed);
    let more = Set::new(
        |n: NodeId|
            !emitted.contains(n) && exists|p: NodeId|
                next.contains(p) && #[trigger] reaches(g, p, n),
    );
    if next.len() > 0 {
        lemma_goes_on(g, ids, v, removed);
        let fresh = newly_covered(g, next, emitted);
        assert forall|n: NodeId| #[trigger] fresh.contains(n) <==> more.contains(n) by {
            if fresh.contains(n) {
                let k = choose|k: int|
                    0 <= k < next.len() && reaches(g, #[trigger] next[k], n);
                assert(next.contains(next[k]));
            }
            if more.contains(n) {
                let p = choose|p: NodeId| next.contains(p) && #[trigger] reaches(g, p, n);
                assert(next[next.index_of(p)] == p);
            }
        }
        assert(fresh =~= more);
    }
}

proof fn lemma_view_is_history(
    g: Deps,
    ids: Seq<NodeId>,
    v: Seq<WriterKey>,
    removed: Removed,
    emitted: Set<NodeId>,
    n: NodeId,
)
    requires
        delivered(g, ids),
        ids.len() <= u64::MAX,
    ensures
        view_from(g, v, removed, emitted).contains(n) <==> !emitted.contains(n)
            && exists|p: NodeId| #[trigger]
            prefix_from(g, v, removed).contains(p) && reaches(g, p, n),
    decreases pending(g, v, removed),
{
    let next = shift(g, v, removed);
    let after = raised_all(removed, next);
    let view = view_from(g, v, removed, emitted);
    let prefix = prefix_from(g, v, removed);
    if next.len() > 0 {
        lemma_goes_on(g, ids, v, removed);
        let fresh = newly_covered(g, next, emitted);
        let tail = prefix_from(g, v, after);
        let more = view_from(g, v, after, emitted.union(fresh));
        lemma_view_is_history(g, ids, v, after, emitted.union(fresh), n);
        ids.unique_seq_to_set();
        assert forall|m: NodeId| fresh.contains(m) implies g.dom().contains(m) by {
            let k = choose|k: int| 0 <= k < next.len() && reaches(g, #[trigger] next[k], m);
            lemma_reaches_known(g, next[k], m);
        }
        vstd::set_lib::lemma_set_subset_finite(g.dom(), fresh);
        law_topo(g, fresh);
        let first = topo(g, fresh);
        assert(first.to_set().contains(n) <==> fresh.contains(n));
        assert(view == first + more);
        assert(prefix == next + tail);
        assert(view.contains(n) <==> first.contains(n) || more.contains(n)) by {
            if first.contains(n) {
                assert(view[first.index_of(n)] == n);
            }
            if more.contains(n) {
                assert(view[first.len() + more.index_of(n)] == n);
            }
            if view.contains(n) {
                let k = view.index_of(n);
                if k < first.len() {
                    assert(first[k] == n);
                } else {
                    assert(more[k - first.len()] == n);
                }
            }
        }
        assert forall|p: NodeId| #[trigger] prefix.contains(p) <==> next.contains(p)
            || tail.contains(p) by {
            if next.contains(p) {
                assert(prefix[next.index_of(p)] == p);
            }
            if tail.contains(p) {
                assert(prefix[next.len() + tail.index_of(p)] == p);
            }
            if prefix.contains(p) {
                let k = prefix.index_of(p);
                if k < next.len() {
                    assert(next[k] == p);
                } else {
                    assert(tail[k - next.len()] == p);
                }
            }
        }
        if first.contains(n) {
            let k = choose|k: int| 0 <= k < next.len() && reaches(g, #[trigger] next[k], n);
            assert(next.contains(next[k]));
            assert(prefix.contains(next[k]));
        }
        if more.contains(n) {
            let p = choose|p: NodeId| #[trigger] tail.contains(p) && reaches(g, p, n);
            assert(prefix.contains(p));
        }
        if !emitted.contains(n) && exists|p: NodeId| #[trigger]
            prefix.contains(p) && reaches(g, p, n) {
            let p = choose|p: NodeId| #[trigger] prefix.contains(p) && reaches(g, p, n);
            if next.contains(p) {
                assert(reaches(g, next[next.index_of(p)], n));
                assert(fresh.contains(n));
            } else {
                assert(tail.contains(p));
            }
        }
    } else {
        assert(!view.contains(n));
        assert forall|p: NodeId| !#[trigger] prefix.contains(p) by {}
    }
}

/// What is final is the history of what the voters have confirmed: a node is in the
/// confirmed view if and only if a node of the confirmed prefix sees it.
pub proof fn law_view_is_history(g: Deps, ids: Seq<NodeId>, v: Seq<WriterKey>, n: NodeId)
    requires
        delivered(g, ids),
        ids.len() <= u64::MAX,
    ensures
        confirmed_view_of(g, Some(v)).contains(n) <==> exists|p: NodeId| #[trigger]
            prefix_from(g, v, Map::empty()).contains(p) && reaches(g, p, n),
{
    lemma_view_is_history(g, ids, v, Map::empty(), Set::empty(), n);
}

/// The order goes by least id: a node comes before another only if its id is the lesser, or
/// something that the other depends on had not come yet.
pub proof fn law_least_first(g: Deps, rest: Set<NodeId>, i: int, j: int)
    requires
        causal(g),
        rest.subset_of(g.dom()),
        rest.finite(),
        0 <= i < j < topo(g, rest).len(),
    ensures
        id_lt(topo(g, rest)[i], topo(g, rest)[j]) || exists|d: NodeId|
            #[trigger] g[topo(g, rest)[j]].contains(d) && rest.contains(d) && !topo(
                g,
                rest,
            ).take(i).contains(d),
    decreases rest.len(),
{
    let s = topo(g, rest);
    let n = s[0];
    let less = rest.remove(n);
    let t = topo(g, less);
    law_topo(g, rest);
    assert(super::graph::is_next(g, rest, n)) by {
        assert(rest.finite() && exists|x: NodeId| super::graph::is_next(g, rest, x));
    }
    super::graph::lemma_topo_step(g, rest, n);
    assert(s =~= seq![n] + t);
    let x = s[j];
    assert(s.to_set().contains(x));
    if i == 0 {
        if forall|d: NodeId| #[trigger] g[x].contains(d) ==> !rest.contains(d) {
            assert(super::graph::ready(g, rest, x));
            assert(s[0] != s[j]);
        } else {
            let d = choose|d: NodeId| #[trigger] g[x].contains(d) && rest.contains(d);
            assert(!s.take(0).contains(d));
        }
    } else {
        law_least_first(g, less, i - 1, j - 1);
        assert(s[i] == t[i - 1] && s[j] == t[j - 1]);
        if !id_lt(s[i], s[j]) {
            let d = choose|d: NodeId|
                #[trigger] g[t[j - 1]].contains(d) && less.contains(d) && !t.take(i - 1).contains(
                    d,
                );
            assert(g[s[j]].contains(d) && rest.contains(d));
            assert(!s.take(i).contains(d)) by {
                if s.take(i).contains(d) {
                    let k = s.take(i).index_of(d);
                    if k > 0 {
                        assert(t.take(i - 1)[k - 1] == d);
                    }
                }
            }
        }
    }
}

} // verus!
