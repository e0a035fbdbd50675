//! What the words of the causal graph mean.
use vstd::prelude::*;
use super::consensus::{confirmed_view_of, order_of};
use super::graph::{
    causal, lemma_reaches_first, lemma_reaches_self, lemma_reaches_step, reaches, sees, Deps,
};
use super::ids::{id_lt, keys_in_order, sorted_keys, NodeId, WriterKey};
use super::laws::law_order;
use super::linearizer::{covered, first_missing, frontier_of, includes_in, length_in, new_deps, raised};
use super::progress::law_least_first;

verus! {

/// Ids are ordered by their keys, byte by byte, and ids of one writer by their numbers.
pub proof fn law_id_order(a: NodeId, b: NodeId)
    ensures
        id_lt(a, b) <==> (a.key == b.key && a.seq < b.seq) || exists|k: int|
            {
                &&& 0 <= k < 32
                &&& #[trigger] a.key@[k] < b.key@[k]
                &&& forall|j: int| 0 <= j < k ==> a.key@[j] == b.key@[j]
            },
{
    if exists|k: int|
        {
            &&& 0 <= k < 32
            &&& #[trigger] a.key@[k] < b.key@[k]
            &&& forall|j: int| 0 <= j < k ==> a.key@[j] == b.key@[j]
        } {
        let k = choose|k: int|
            {
                &&& 0 <= k < 32
                &&& #[trigger] a.key@[k] < b.key@[k]
                &&& forall|j: int| 0 <= j < k ==> a.key@[j] == b.key@[j]
            };
        assert(super::ids::first_less(a.key, b.key, k));
    }
    if super::ids::key_lt(a.key, b.key) {
        let k = choose|k: int| #[trigger] super::ids::first_less(a.key, b.key, k);
        assert(a.key@[k] < b.key@[k]);
    }
}

/// A node sees itself, and what the nodes that it depends on see, and nothing else.
pub proof fn law_sees(g: Deps, a: NodeId, b: NodeId)
    requires
        g.contains_key(a),
        forall|n: NodeId, d: NodeId| #[trigger]
            g.contains_key(n) && #[trigger] g[n].contains(d) ==> g.contains_key(d),
    ensures
        reaches(g, a, b) <==> a == b || exists|c: NodeId|
            #[trigger] g[a].contains(c) && reaches(g, c, b),
        sees(g, a, b) <==> reaches(g, a, b),
{
    lemma_reaches_self(g, a);
    if reaches(g, a, b) && a != b {
        let c = lemma_reaches_first(g, a, b);
        assert(g[a].contains(c));
    }
    if exists|c: NodeId| #[trigger] g[a].contains(c) && reaches(g, c, b) {
        let c = choose|c: NodeId| #[trigger] g[a].contains(c) && reaches(g, c, b);
        lemma_reaches_step(g, a, c, b);
    }
}

/// A head is missing if and only if it was not delivered, and the first one that is missing
/// is reported.
pub proof fn law_first_missing(g: Deps, heads: Seq<NodeId>)
    ensures
        match first_missing(g, heads) {
            Some(h) => exists|i: int|
                {
                    &&& 0 <= i < heads.len()
                    &&& #[trigger] heads[i] == h
                    &&& !g.contains_key(h)
                    &&& forall|j: int| 0 <= j < i ==> g.contains_key(#[trigger] heads[j])
                },
            None => forall|j: int| 0 <= j < heads.len() ==> g.contains_key(#[trigger] heads[j]),
        },
    decreases heads.len(),
{
    if heads.len() > 0 {
        let less = heads.drop_last();
        law_first_missing(g, less);
        match first_missing(g, less) {
            Some(h) => {
                let i = choose|i: int|
                    {
                        &&& 0 <= i < less.len()
                        &&& #[trigger] less[i] == h
                        &&& !g.contains_key(h)
                        &&& forall|j: int| 0 <= j < i ==> g.contains_key(#[trigger] less[j])
                    };
                assert(heads[i] == h);
                assert forall|j: int| 0 <= j < i implies g.contains_key(#[trigger] heads[j]) by {
                    assert(less[j] == heads[j]);
                }
            },
            None => {
                assert forall|j: int| 0 <= j < less.len() implies g.contains_key(
                    #[trigger] heads[j],
                ) by {
                    assert(less[j] == heads[j]);
                }
                assert(heads[heads.len() - 1] == heads.last());
            },
        }
    }
}

/// A node depends on the heads that it names and on its writer's node before it.
pub proof fn law_new_deps(node: NodeId, heads: Seq<NodeId>, d: NodeId)
    ensures
        new_deps(node, heads).contains(d) <==> heads.contains(d) || (d.key == node.key && d.seq + 1
            == node.seq),
{
}

/// The frontier is what no node depends on, each once and in order.
pub proof fn law_frontier_is(g: Deps, n: NodeId)
    requires
        g.dom().finite(),
    ensures
        super::ids::sorted_ids(frontier_of(g)),
        frontier_of(g).contains(n) <==> g.contains_key(n) && forall|m: NodeId| #[trigger]
            g.contains_key(m) ==> !g[m].contains(n),
{
    let s = Set::new(|n: NodeId| g.contains_key(n) && !covered(g, n));
    assert(s.subset_of(g.dom()));
    vstd::set_lib::lemma_set_subset_finite(g.dom(), s);
    super::ids::lemma_in_order_of(s);
    assert(frontier_of(g).to_set().contains(n) <==> s.contains(n));
}

/// A clock counts as many nodes of a writer as it says, none of one it does not name; raised
/// to a length it counts at least that many of that writer, and of the others as many as
/// before.
pub proof fn law_clock_counts(m: Map<WriterKey, u64>, key: WriterKey, other: WriterKey, n: u64)
    ensures
        !m.contains_key(key) ==> length_in(m, key) == 0,
        m.contains_key(key) ==> length_in(m, key) == m[key],
        includes_in(m, key, n as int) <==> 0 < n <= length_in(m, key),
        length_in(raised(m, key, n), key) >= n,
        length_in(raised(m, key, n), key) == n || length_in(raised(m, key, n), key) == length_in(
            m,
            key,
        ),
        length_in(raised(m, key, n), key) >= length_in(m, key),
        other != key ==> length_in(raised(m, key, n), other) == length_in(m, other),
{
}

/// What is not final comes after what is, and goes by least id: such a node comes before
/// another only if its id is the lesser, or something that the other depends on had not come
/// yet.
pub proof fn law_rest(g: Deps, voters: Option<Seq<WriterKey>>, i: int, j: int)
    requires
        causal(g),
        g.dom().finite(),
        confirmed_view_of(g, voters).len() <= i < j < order_of(g, voters).len(),
    ensures
        ({
            let s = order_of(g, voters);
            id_lt(s[i], s[j]) || exists|d: NodeId|
                #[trigger] g[s[j]].contains(d) && g.contains_key(d) && !s.take(i).contains(d)
        }),
{
    let view = confirmed_view_of(g, voters);
    let rest = g.dom().difference(view.to_set());
    let s = order_of(g, voters);
    let t = super::graph::topo(g, rest);
    let n = view.len() as int;
    law_order(g, voters);
    assert(s =~= view + t);
    law_least_first(g, rest, i - n, j - n);
    if !id_lt(s[i], s[j]) {
        let d = choose|d: NodeId|
            #[trigger] g[t[j - n]].contains(d) && rest.contains(d) && !t.take(i - n).contains(d);
        assert(g[s[j]].contains(d));
        assert(!s.take(i).contains(d)) by {
            if s.take(i).contains(d) {
                let k = s.take(i).index_of(d);
                if k < n {
                    assert(view[k] == d);
                } else {
                    assert(t.take(i - n)[k - n] == d);
                }
            }
        }
    }
}

/// The voters are the writers that were named, each once, in the order of their keys,
/// however many there are.
pub proof fn law_voters(named: Seq<WriterKey>)
    ensures
        sorted_keys(keys_in_order(named.to_set())),
        forall|w: WriterKey| #[trigger]
            keys_in_order(named.to_set()).contains(w) <==> named.contains(w),
    decreases named.len(),
{
    let v = super::ids::lemma_keys_exist(named);
    super::ids::lemma_keys_in_order(v);
    assert forall|w: WriterKey| #[trigger] v.contains(w) <==> named.contains(w) by {
        assert(v.to_set().contains(w) <==> named.to_set().contains(w));
    }
}

} // verus!
