//! What holds of every linearization.
use vstd::prelude::*;
use super::consensus::{
    confirmed_view_of, newly_covered, order_of, pending, raised_all, shift, view_from, Removed,
};
use super::graph::{
    causal, delivered, is_next, lemma_position, lemma_reaches_known, lemma_reaches_self,
    lemma_reaches_step, lemma_reaches_transitive, lemma_seen_len_meaning, lemma_topo_step, reaches,
    ready, seen_len, sees, topo, Deps,
};
use super::ids::{id_lt, lemma_id_total, lemma_id_transitive, NodeId, WriterKey};
use super::linearizer::{includes_in, length_in};

verus! {

/// Whether each node of `s` comes after everything it depends on, in `s` or in `done`.
pub open spec fn respects(g: Deps, done: Set<NodeId>, s: Seq<NodeId>) -> bool {
    forall|i: int, d: NodeId|
        0 <= i < s.len() && #[trigger] g[s[i]].contains(d) ==> done.contains(d) || s.take(
            i,
        ).contains(d)
}

/// Whether `s` holds everything its members depend on.
pub open spec fn closed_under(g: Deps, s: Set<NodeId>) -> bool {
    forall|n: NodeId, d: NodeId| s.contains(n) && #[trigger] g[n].contains(d) ==> s.contains(d)
}

/// In a causal graph some node of any non-empty set is ready.
proof fn lemma_some_ready(g: Deps, ids: Seq<NodeId>, rest: Set<NodeId>, p: int) -> (n: NodeId)
    requires
        delivered(g, ids),
        rest.subset_of(g.dom()),
        0 <= p < ids.len(),
        rest.contains(ids[p]),
    ensures
        ready(g, rest, n),
    decreases p,
{
    if ready(g, rest, ids[p]) {
        ids[p]
    } else {
        let d = choose|d: NodeId| #[trigger] g[ids[p]].contains(d) && rest.contains(d);
        let q = choose|q: int| 0 <= q < p && #[trigger] ids[q] == d;
        lemma_some_ready(g, ids, rest, q)
    }
}

/// Among finitely many ready nodes one has the least id.
proof fn lemma_least_ready(g: Deps, rest: Set<NodeId>, seen: Set<NodeId>, best: NodeId) -> (n: NodeId)
    requires
        rest.finite(),
        seen.subset_of(rest),
        ready(g, rest, best),
        forall|m: NodeId| #[trigger] ready(g, rest, m) && !seen.contains(m) ==> m == best || id_lt(best, m),
    ensures
        is_next(g, rest, n),
    decreases seen.len(),
{
    vstd::set_lib::lemma_set_subset_finite(rest, seen);
    if exists|m: NodeId| #[trigger] ready(g, rest, m) && seen.contains(m) && id_lt(m, best) {
        let m = choose|m: NodeId| #[trigger] ready(g, rest, m) && seen.contains(m) && id_lt(m, best);
        assert forall|x: NodeId| #[trigger] ready(g, rest, x) && !seen.remove(m).contains(x) implies x == m
            || id_lt(m, x) by {
            if x != m && x != best {
                lemma_id_transitive(m, best, x);
            }
        }
        lemma_least_ready(g, rest, seen.remove(m), m)
    } else {
        assert forall|m: NodeId| #[trigger] ready(g, rest, m) implies m == best || id_lt(best, m) by {
            lemma_id_total(m, best);
        }
        best
    }
}

/// Taking the ready node with the least id again and again lists every node of a set
/// once, each after what it depends on within the set.
pub proof fn law_topo(g: Deps, rest: Set<NodeId>)
    requires
        causal(g),
        rest.subset_of(g.dom()),
        rest.finite(),
    ensures
        topo(g, rest).no_duplicates(),
        topo(g, rest).to_set() == rest,
        forall|i: int, d: NodeId|
            0 <= i < topo(g, rest).len() && #[trigger] g[topo(g, rest)[i]].contains(d)
                && rest.contains(d) ==> topo(g, rest).take(i).contains(d),
    decreases rest.len(),
{
    let ids = choose|ids: Seq<NodeId>| delivered(g, ids);
    if rest.len() == 0 {
        assert(rest =~= Set::<NodeId>::empty());
        if exists|n: NodeId| is_next(g, rest, n) {
            let n = choose|n: NodeId| is_next(g, rest, n);
            assert(rest.contains(n));
        }
        assert(topo(g, rest).to_set() =~= rest);
    } else {
        let x = rest.choose();
        assert(rest.contains(x));
        let p = lemma_position(g, ids, x);
        let r = lemma_some_ready(g, ids, rest, p);
        let n = lemma_least_ready(g, rest, rest, r);
        lemma_topo_step(g, rest, n);
        let less = rest.remove(n);
        law_topo(g, less);
        let t = topo(g, less);
        let s = topo(g, rest);
        assert(s == seq![n] + t);
        assert forall|m: NodeId| s.to_set().contains(m) == rest.contains(m) by {
            if s.contains(m) {
                let k = choose|k: int| 0 <= k < s.len() && s[k] == m;
                if k > 0 {
                    assert(t[k - 1] == m);
                    assert(t.to_set().contains(m));
                }
            }
            if rest.contains(m) {
                if m == n {
                    assert(s[0] == m);
                } else {
                    assert(t.to_set().contains(m));
                    let k = choose|k: int| 0 <= k < t.len() && t[k] == m;
                    assert(s[k + 1] == m);
                }
            }
        }
        assert(s.to_set() =~= rest);
        assert forall|a: int, b: int| 0 <= a < b < s.len() implies s[a] != s[b] by {
            assert(s[b] == t[b - 1]);
            if a == 0 {
                assert(t.to_set().contains(t[b - 1]));
            } else {
                assert(s[a] == t[a - 1]);
            }
        }
        assert forall|i: int, d: NodeId| 0 <= i < s.len() && #[trigger] g[s[i]].contains(d)
            && rest.contains(d) implies s.take(i).contains(d) by {
            if i == 0 {
                assert(ready(g, rest, n));
            } else {
                assert(s[i] == t[i - 1]);
                if d == n {
                    assert(s.take(i)[0] == n);
                } else {
                    assert(less.contains(d));
                    assert(g[t[i - 1]].contains(d));
                    assert(t.take(i - 1).contains(d));
                    let w = t.take(i - 1);
                    let k = choose|k: int| 0 <= k < w.len() && w[k] == d;
                    assert(s.take(i)[k + 1] == d);
                }
            }
        }
    }
}

/// What is covered together with what is emitted holds all its dependencies.
proof fn lemma_covered_closed(g: Deps, batch: Seq<NodeId>, emitted: Set<NodeId>)
    requires
        causal(g),
        emitted.subset_of(g.dom()),
        closed_under(g, emitted),
    ensures
        newly_covered(g, batch, emitted).subset_of(g.dom()),
        newly_covered(g, batch, emitted).disjoint(emitted),
        closed_under(g, emitted.union(newly_covered(g, batch, emitted))),
{
    let f = newly_covered(g, batch, emitted);
    let ids = choose|ids: Seq<NodeId>| delivered(g, ids);
    assert forall|n: NodeId| f.contains(n) implies g.contains_key(n) by {
        let k = choose|k: int| 0 <= k < batch.len() && reaches(g, #[trigger] batch[k], n);
        lemma_reaches_known(g, batch[k], n);
    }
    let u = emitted.union(f);
    assert forall|n: NodeId, d: NodeId| u.contains(n) && #[trigger] g[n].contains(d) implies u.contains(
        d,
    ) by {
        if f.contains(n) {
            let k = choose|k: int| 0 <= k < batch.len() && reaches(g, #[trigger] batch[k], n);
            lemma_reaches_known(g, batch[k], n);
            let p = lemma_position(g, ids, n);
            assert(g[ids[p]].contains(d));
            let q = choose|q: int| 0 <= q < p && #[trigger] ids[q] == d;
            assert(ids.to_set().contains(d));
            lemma_reaches_self(g, d);
            lemma_reaches_step(g, n, d, d);
            lemma_reaches_transitive(g, batch[k], n, d);
        }
    }
}

proof fn lemma_view_from(g: Deps, v: Seq<WriterKey>, removed: Removed, emitted: Set<NodeId>)
    requires
        causal(g),
        g.dom().finite(),
        emitted.subset_of(g.dom()),
        closed_under(g, emitted),
    ensures
        ({
            let s = view_from(g, v, removed, emitted);
            &&& s.no_duplicates()
            &&& s.to_set().disjoint(emitted)
            &&& s.to_set().subset_of(g.dom())
            &&& closed_under(g, emitted.union(s.to_set()))
            &&& respects(g, emitted, s)
        }),
    decreases pending(g, v, removed),
{
    let s = view_from(g, v, removed, emitted);
    let batch = shift(g, v, removed);
    let next = raised_all(removed, batch);
    if batch.len() == 0 || pending(g, v, next) >= pending(g, v, removed) {
        assert(s =~= Seq::<NodeId>::empty());
        assert(emitted.union(s.to_set()) =~= emitted);
    } else {
        let f = newly_covered(g, batch, emitted);
        lemma_covered_closed(g, batch, emitted);
        vstd::set_lib::lemma_set_subset_finite(g.dom(), f);
        law_topo(g, f);
        let t = topo(g, f);
        let e = emitted.union(f);
        lemma_view_from(g, v, next, e);
        let r = view_from(g, v, next, e);
        assert(s == t + r);
        assert forall|m: NodeId| s.to_set().contains(m) == (f.contains(m) || r.to_set().contains(m)) by {
            if s.contains(m) {
                let k = choose|k: int| 0 <= k < s.len() && s[k] == m;
                if k < t.len() {
                    assert(t[k] == m);
                    assert(t.to_set().contains(m));
                } else {
                    assert(r[k - t.len()] == m);
                }
            }
            if f.contains(m) {
                assert(t.to_set().contains(m));
                let k = choose|k: int| 0 <= k < t.len() && t[k] == m;
                assert(s[k] == m);
            }
            if r.contains(m) {
                let k = choose|k: int| 0 <= k < r.len() && r[k] == m;
                assert(s[t.len() + k] == m);
            }
        }
        assert(emitted.union(s.to_set()) =~= e.union(r.to_set()));
        assert forall|a: int, b: int| 0 <= a < b < s.len() implies s[a] != s[b] by {
            if b < t.len() {
                assert(s[a] == t[a] && s[b] == t[b]);
            } else if a >= t.len() {
                assert(s[a] == r[a - t.len()] && s[b] == r[b - t.len()]);
            } else {
                assert(t.to_set().contains(t[a]));
                assert(r.to_set().contains(r[b - t.len()]));
            }
        }
        assert forall|i: int, d: NodeId| 0 <= i < s.len() && #[trigger] g[s[i]].contains(d) implies emitted.contains(
            d,
        ) || s.take(i).contains(d) by {
            if i < t.len() {
                assert(s[i] == t[i]);
                assert(t.to_set().contains(t[i]));
                assert(e.contains(s[i]));
                assert(g[t[i]].contains(d));
                if f.contains(d) {
                    assert(t.take(i).contains(d));
                    assert(t.take(i) =~= s.take(i));
                }
            } else {
                let j = i - t.len();
                assert(s[i] == r[j]);
                assert(g[r[j]].contains(d));
                if f.contains(d) {
                    assert(t.to_set().contains(d));
                    let k = choose|k: int| 0 <= k < t.len() && t[k] == d;
                    assert(s.take(i)[k] == d);
                } else if !emitted.contains(d) {
                    assert(r.take(j).contains(d));
                    let w = r.take(j);
                    let k = choose|k: int| 0 <= k < w.len() && w[k] == d;
                    assert(s.take(i)[t.len() + k] == d);
                }
            }
        }
    }
}

/// The linearization lists every delivered node exactly once, each after everything it
/// depends on, and starts with the confirmed view.
pub proof fn law_order(g: Deps, voters: Option<Seq<WriterKey>>)
    requires
        causal(g),
        g.dom().finite(),
    ensures
        order_of(g, voters).no_duplicates(),
        order_of(g, voters).to_set() == g.dom(),
        order_of(g, voters).len() == g.dom().len(),
        respects(g, Set::empty(), order_of(g, voters)),
        order_of(g, voters).take(confirmed_view_of(g, voters).len() as int) == confirmed_view_of(
            g,
            voters,
        ),
        confirmed_view_of(g, voters).len() <= g.dom().len(),
{
    let s = order_of(g, voters);
    let view = confirmed_view_of(g, voters);
    match voters {
        Some(v) => {
            lemma_view_from(g, v, Map::empty(), Set::empty());
            assert(Set::<NodeId>::empty().union(view.to_set()) =~= view.to_set());
        },
        None => {
            assert(view.to_set() =~= Set::<NodeId>::empty());
        },
    }
    let rest = g.dom().difference(view.to_set());
    vstd::set_lib::lemma_set_subset_finite(g.dom(), rest);
    law_topo(g, rest);
    let t = topo(g, rest);
    assert(s == view + t);
    assert forall|m: NodeId| s.to_set().contains(m) == g.dom().contains(m) by {
        if s.contains(m) {
            let k = choose|k: int| 0 <= k < s.len() && s[k] == m;
            if k < view.len() {
                assert(view[k] == m);
                assert(view.to_set().contains(m));
            } else {
                assert(t[k - view.len()] == m);
                assert(t.to_set().contains(m));
            }
        }
        if g.dom().contains(m) {
            if view.to_set().contains(m) {
                let k = choose|k: int| 0 <= k < view.len() && view[k] == m;
                assert(s[k] == m);
            } else {
                assert(t.to_set().contains(m));
                let k = choose|k: int| 0 <= k < t.len() && t[k] == m;
                assert(s[view.len() + k] == m);
            }
        }
    }
    assert(s.to_set() =~= g.dom());
    assert forall|a: int, b: int| 0 <= a < b < s.len() implies s[a] != s[b] by {
        if b < view.len() {
            assert(s[a] == view[a] && s[b] == view[b]);
        } else if a >= view.len() {
            assert(s[a] == t[a - view.len()] && s[b] == t[b - view.len()]);
        } else {
            assert(view.to_set().contains(view[a]));
            assert(t.to_set().contains(t[b - view.len()]));
        }
    }
    s.unique_seq_to_set();
    let ids = choose|ids: Seq<NodeId>| delivered(g, ids);
    assert forall|i: int, d: NodeId| 0 <= i < s.len() && #[trigger] g[s[i]].contains(d) implies Set::<
        NodeId,
    >::empty().contains(d) || s.take(i).contains(d) by {
        if i < view.len() {
            assert(s[i] == view[i]);
            assert(g[view[i]].contains(d));
            assert(view.take(i).contains(d));
            assert(view.take(i) =~= s.take(i));
        } else {
            let j = i - view.len();
            assert(s[i] == t[j]);
            assert(g[t[j]].contains(d));
            assert(s.to_set().contains(s[i]));
            let p = lemma_position(g, ids, s[i]);
            assert(g[ids[p]].contains(d));
            let q = choose|q: int| 0 <= q < p && #[trigger] ids[q] == d;
            assert(ids.to_set().contains(d));
            if rest.contains(d) {
                assert(t.take(j).contains(d));
                let w = t.take(j);
                let k = choose|k: int| 0 <= k < w.len() && w[k] == d;
                assert(s.take(i)[view.len() + k] == d);
            } else {
                assert(view.to_set().contains(d));
                let k = choose|k: int| 0 <= k < view.len() && view[k] == d;
                assert(s.take(i)[k] == d);
            }
        }
    }
    assert(s.take(view.len() as int) =~= view);
}

/// Two nodes delivered in either order leave the same graph, and so the same
/// linearization and the same confirmed view.
pub proof fn law_arrival_order(
    g: Deps,
    voters: Option<Seq<WriterKey>>,
    a: NodeId,
    da: Set<NodeId>,
    b: NodeId,
    db: Set<NodeId>,
)
    requires
        a != b,
    ensures
        g.insert(a, da).insert(b, db) == g.insert(b, db).insert(a, da),
        order_of(g.insert(a, da).insert(b, db), voters) == order_of(
            g.insert(b, db).insert(a, da),
            voters,
        ),
{
    assert(g.insert(a, da).insert(b, db) =~= g.insert(b, db).insert(a, da));
}

/// A node's clock includes `length` nodes of a writer exactly when the node sees the
/// last of them.
pub proof fn law_clock(
    g: Deps,
    ids: Seq<NodeId>,
    clock: Map<WriterKey, u64>,
    n: NodeId,
    key: WriterKey,
    length: u64,
)
    requires
        delivered(g, ids),
        ids.len() <= u64::MAX,
        length_in(clock, key) == seen_len(g, n, key),
        g.contains_key(n),
    ensures
        includes_in(clock, key, length as int) == (length > 0 && sees(
            g,
            n,
            NodeId { key, seq: (length - 1) as u64 },
        )),
{
    lemma_seen_len_meaning(g, ids, n, key);
    if length > 0 {
        let x = NodeId { key, seq: (length - 1) as u64 };
        assert(reaches(g, n, x) == (x.seq < seen_len(g, n, key)));
        lemma_reaches_self(g, n);
    }
}

/// Without indexers nothing is ever confirmed, and the linearization is the plain one.
pub proof fn law_no_indexers(g: Deps)
    ensures
        confirmed_view_of(g, None) == Seq::<NodeId>::empty(),
        order_of(g, None) == topo(g, g.dom()),
{
    let view = confirmed_view_of(g, None);
    assert(g.dom().difference(view.to_set()) =~= g.dom());
    assert(order_of(g, None) =~= topo(g, g.dom()));
}

} // verus!
