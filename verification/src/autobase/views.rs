//! How the confirmed view and the confirmed prefix go together.
use vstd::prelude::*;
use super::consensus::{
    arms, at_bottom, candidates, confirmed_view_of, first_confirmed, lemma_bottoms,
    lemma_candidates, merge_set, newly_covered, pending, prefix_from, raised_all, resolved,
    seen_of, shift, tails_of, view_from, Removed, past,
};
use super::graph::{
    causal, delivered, lemma_antisymmetric, lemma_position, lemma_reaches_known,
    lemma_reaches_self, lemma_reaches_transitive, lemma_seq_bound, lemma_sees_own, reaches, topo,
    Deps,
};
use super::ids::{in_order, NodeId, WriterKey};
use super::laws::law_topo;
use super::linearizer::length_in;

verus! {

/// What is found confirmed is one of those asked about.
proof fn lemma_first_in(
    g: Deps,
    v: Seq<WriterKey>,
    s: Seq<NodeId>,
    k: int,
    parent: Option<NodeId>,
    removed: Removed,
)
    ensures
        first_confirmed(g, v, s, k, parent, removed) matches Some(t) ==> s.contains(t),
    decreases s.len() - k,
{
    if 0 <= k < s.len() {
        lemma_first_in(g, v, s, k + 1, parent, removed);
    }
}

proof fn lemma_seen_in(g: Deps, node: NodeId, tails: Seq<NodeId>, t: NodeId)
    requires
        seen_of(g, node, tails).contains(t),
    ensures
        tails.contains(t),
    decreases tails.len(),
{
    if tails.len() > 0 {
        let less = tails.drop_last();
        let rest = seen_of(g, node, less);
        let all = seen_of(g, node, tails);
        let k = all.index_of(t);
        if k < rest.len() {
            assert(rest[k] == t);
            lemma_seen_in(g, node, less, t);
            assert(tails[less.index_of(t)] == t);
        } else {
            assert(tails[tails.len() - 1] == t);
        }
    }
}

/// A merge resolves to tails.
proof fn lemma_resolved_in(
    g: Deps,
    v: Seq<WriterKey>,
    node: NodeId,
    tails: Seq<NodeId>,
    removed: Removed,
    t: NodeId,
)
    requires
        resolved(g, v, node, tails, removed).contains(t),
    ensures
        tails.contains(t),
    decreases past(g, node).len(),
{
    if tails.contains(node) {
    } else {
        match first_confirmed(g, v, arms(g, v, node, tails, removed), 0, Some(node), removed) {
            Some(m) => {
                if past(g, m).len() < past(g, node).len() {
                    lemma_resolved_in(g, v, m, tails, removed, t);
                }
            },
            None => {
                lemma_seen_in(g, node, tails, t);
            },
        }
    }
}

/// What is confirmed next are tails.
pub proof fn lemma_shift_in(g: Deps, v: Seq<WriterKey>, removed: Removed, k: int)
    requires
        0 <= k < shift(g, v, removed).len(),
    ensures
        ({
            let t = shift(g, v, removed)[k];
            &&& v.contains(t.key)
            &&& g.contains_key(t)
            &&& t.seq == length_in(removed, t.key)
            &&& at_bottom(g, candidates(g, v, removed), t)
        }),
{
    let batch = shift(g, v, removed);
    let t = batch[k];
    let tails = tails_of(g, v, removed);
    let all = candidates(g, v, removed);
    assert(batch.contains(t));
    match first_confirmed(g, v, tails, 0, None, removed) {
        Some(x) => {
            lemma_first_in(g, v, tails, 0, None, removed);
        },
        None => match first_confirmed(
            g,
            v,
            in_order(merge_set(g, v, removed)),
            0,
            None,
            removed,
        ) {
            Some(m) => {
                lemma_resolved_in(g, v, m, tails, removed, t);
            },
            None => {},
        },
    }
    assert(tails.contains(t));
    lemma_bottoms(g, all, all, t);
    lemma_candidates(g, v, removed, t);
}

/// The oldest unconfirmed node of a voter is a candidate.
proof fn lemma_candidate_is(g: Deps, v: Seq<WriterKey>, removed: Removed, key: WriterKey)
    requires
        v.contains(key),
        g.contains_key(NodeId { key, seq: length_in(removed, key) }),
    ensures
        candidates(g, v, removed).contains(NodeId { key, seq: length_in(removed, key) }),
    decreases v.len(),
{
    let head = NodeId { key, seq: length_in(removed, key) };
    let less = v.drop_last();
    let rest = candidates(g, less, removed);
    let all = candidates(g, v, removed);
    if v.last() == key {
        assert(all[all.len() - 1] == head);
    } else {
        assert(less[v.index_of(key)] == key);
        lemma_candidate_is(g, less, removed, key);
        assert(all[rest.index_of(head)] == head);
    }
}

/// Whether a writer has a node among these.
spec fn has_key(nodes: Seq<NodeId>, key: WriterKey) -> bool {
    exists|k: int| 0 <= k < nodes.len() && (#[trigger] nodes[k]).key == key
}

/// Confirming the oldest nodes of some voters adds one to each of those.
proof fn lemma_raised_exact(
    removed: Removed,
    nodes: Seq<NodeId>,
    key: WriterKey,
)
    requires
        forall|k: int|
            0 <= k < nodes.len() ==> (#[trigger] nodes[k]).seq == length_in(removed, nodes[k].key)
                && nodes[k].seq < u64::MAX,
    ensures
        length_in(raised_all(removed, nodes), key) == length_in(removed, key) + if has_key(
            nodes,
            key,
        ) {
            1int
        } else {
            0
        },
    decreases nodes.len(),
{
    if nodes.len() > 0 {
        let less = nodes.drop_last();
        let n = nodes.last();
        assert(nodes[nodes.len() - 1] == n);
        assert forall|k: int| 0 <= k < less.len() implies (#[trigger] less[k]).seq == length_in(
            removed,
            less[k].key,
        ) && less[k].seq < u64::MAX by {
            assert(less[k] == nodes[k]);
        }
        lemma_raised_exact(removed, less, key);
        lemma_raised_exact(removed, less, n.key);
        if has_key(less, key) {
            let k = choose|k: int| 0 <= k < less.len() && (#[trigger] less[k]).key == key;
            assert(nodes[k].key == key);
        }
        if has_key(nodes, key) && n.key != key {
            let k = choose|k: int| 0 <= k < nodes.len() && (#[trigger] nodes[k]).key == key;
            assert(less[k].key == key);
        }
    }
}

/// Whether what was emitted of the voters' logs is what is confirmed of them.
spec fn in_step(
    g: Deps,
    v: Seq<WriterKey>,
    removed: Removed,
    emitted: Set<NodeId>,
) -> bool {
    forall|n: NodeId| #[trigger]
        g.contains_key(n) && v.contains(n.key) ==> emitted.contains(n) == (n.seq < length_in(
            removed,
            n.key,
        ))
}

/// Of the voters' nodes, a batch newly covers itself and no others.
proof fn lemma_covers_itself(
    g: Deps,
    ids: Seq<NodeId>,
    v: Seq<WriterKey>,
    removed: Removed,
    emitted: Set<NodeId>,
    n: NodeId,
)
    requires
        delivered(g, ids),
        in_step(g, v, removed, emitted),
        v.contains(n.key),
    ensures
        newly_covered(g, shift(g, v, removed), emitted).contains(n) <==> shift(
            g,
            v,
            removed,
        ).contains(n),
{
    let batch = shift(g, v, removed);
    let fresh = newly_covered(g, batch, emitted);
    if batch.contains(n) {
        let k = batch.index_of(n);
        lemma_shift_in(g, v, removed, k);
        lemma_reaches_self(g, n);
        assert(reaches(g, batch[k], n));
        assert(!emitted.contains(n));
        assert(fresh.contains(n));
    }
    if fresh.contains(n) {
        let k = choose|k: int| 0 <= k < batch.len() && reaches(g, #[trigger] batch[k], n);
        let t = batch[k];
        lemma_shift_in(g, v, removed, k);
        lemma_reaches_known(g, t, n);
        let s = length_in(removed, n.key);
        assert(n.seq >= s);
        let head = NodeId { key: n.key, seq: s };
        lemma_sees_own(g, ids, n, s);
        lemma_reaches_transitive(g, t, n, head);
        lemma_candidate_is(g, v, removed, n.key);
        let all = candidates(g, v, removed);
        let j = all.index_of(head);
        assert(all[j] == head);
        if head != t {
            assert(!super::graph::sees(g, t, all[j]));
        }
        lemma_antisymmetric(g, t, n);
        assert(batch.contains(t));
    }
}

proof fn lemma_same_nodes(
    g: Deps,
    ids: Seq<NodeId>,
    v: Seq<WriterKey>,
    removed: Removed,
    emitted: Set<NodeId>,
)
    requires
        delivered(g, ids),
        g.dom().finite(),
        ids.len() <= u64::MAX,
        in_step(g, v, removed, emitted),
    ensures
        forall|n: NodeId|
            v.contains(n.key) ==> (#[trigger] view_from(g, v, removed, emitted).contains(n)
                <==> prefix_from(g, v, removed).contains(n)),
        forall|k: int|
            0 <= k < prefix_from(g, v, removed).len() ==> v.contains(
                (#[trigger] prefix_from(g, v, removed)[k]).key,
            ),
    decreases pending(g, v, removed),
{
    let batch = shift(g, v, removed);
    let next = raised_all(removed, batch);
    if !(batch.len() == 0 || pending(g, v, next) >= pending(g, v, removed)) {
        let fresh = newly_covered(g, batch, emitted);
        let more = emitted.union(fresh);
        assert forall|k: int| 0 <= k < batch.len() implies (#[trigger] batch[k]).seq == length_in(
            removed,
            batch[k].key,
        ) && batch[k].seq < u64::MAX && v.contains(batch[k].key) by {
            lemma_shift_in(g, v, removed, k);
            let q = lemma_position(g, ids, batch[k]);
            lemma_seq_bound(g, ids, q);
        }
        assert forall|n: NodeId| fresh.contains(n) implies g.dom().contains(n) by {
            let k = choose|k: int| 0 <= k < batch.len() && reaches(g, #[trigger] batch[k], n);
            lemma_reaches_known(g, batch[k], n);
        }
        vstd::set_lib::lemma_set_subset_finite(g.dom(), fresh);
        assert(causal(g));
        law_topo(g, fresh);
        assert forall|n: NodeId| #[trigger]
            g.contains_key(n) && v.contains(n.key) implies more.contains(n) == (n.seq < length_in(
            next,
            n.key,
        )) by {
            lemma_covers_itself(g, ids, v, removed, emitted, n);
            lemma_raised_exact(removed, batch, n.key);
            if has_key(batch, n.key) {
                let k = choose|k: int| 0 <= k < batch.len() && (#[trigger] batch[k]).key == n.key;
                if n.seq == length_in(removed, n.key) {
                    assert(batch[k] == n);
                }
            }
            if batch.contains(n) {
                assert(batch[batch.index_of(n)].key == n.key);
            }
        }
        lemma_same_nodes(g, ids, v, next, more);
        let t = topo(g, fresh);
        let a = view_from(g, v, next, more);
        let b = prefix_from(g, v, next);
        let view = view_from(g, v, removed, emitted);
        let prefix = prefix_from(g, v, removed);
        assert(view == t + a);
        assert(prefix == batch + b);
        assert forall|n: NodeId| v.contains(n.key) implies (#[trigger] view.contains(n)
            <==> prefix.contains(n)) by {
            lemma_covers_itself(g, ids, v, removed, emitted, n);
            lemma_in_sum(t, a, n);
            lemma_in_sum(batch, b, n);
            assert(t.to_set().contains(n) == fresh.contains(n));
        }
        assert forall|k: int| 0 <= k < prefix.len() implies v.contains((#[trigger] prefix[k]).key) by {
            if k < batch.len() {
                assert(prefix[k] == batch[k]);
            } else {
                assert(prefix[k] == b[k - batch.len()]);
            }
        }
    }
}

proof fn lemma_in_sum(a: Seq<NodeId>, b: Seq<NodeId>, n: NodeId)
    ensures
        (a + b).contains(n) <==> a.contains(n) || b.contains(n),
{
    let s = a + b;
    if a.contains(n) {
        assert(s[a.index_of(n)] == n);
    }
    if b.contains(n) {
        assert(s[a.len() + b.index_of(n)] == n);
    }
    if s.contains(n) {
        let k = s.index_of(n);
        if k < a.len() {
            assert(a[k] == n);
        } else {
            assert(b[k - a.len()] == n);
        }
    }
}

/// The view and the prefix confirm the same: the indexers' nodes in the confirmed view are
/// exactly those of the confirmed prefix, which has no others.
pub proof fn law_view_and_prefix(g: Deps, v: Seq<WriterKey>)
    requires
        causal(g),
        g.dom().finite(),
        g.dom().len() <= u64::MAX,
    ensures
        forall|n: NodeId|
            confirmed_view_of(g, Some(v)).contains(n) && v.contains(n.key) <==> #[trigger]
            prefix_from(g, v, Map::empty()).contains(n),
{
    let ids = choose|ids: Seq<NodeId>| delivered(g, ids);
    ids.unique_seq_to_set();
    lemma_same_nodes(g, ids, v, Map::empty(), Set::empty());
    let prefix = prefix_from(g, v, Map::empty());
    let view = confirmed_view_of(g, Some(v));
    assert forall|n: NodeId| view.contains(n) && v.contains(n.key) <==> #[trigger] prefix.contains(
        n,
    ) by {
        if prefix.contains(n) {
            let k = prefix.index_of(n);
            assert(v.contains(prefix[k].key));
        }
        if v.contains(n.key) {
            assert(view_from(g, v, Map::empty(), Set::empty()).contains(n) <==> prefix.contains(n));
        }
    }
}

} // verus!
