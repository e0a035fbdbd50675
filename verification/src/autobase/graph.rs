//! Causal graphs: what a node sees, and the order that respects it.
use vstd::prelude::*;
use super::ids::{id_lt, lemma_id_total, NodeId, WriterKey};

verus! {

/// A causal graph: each delivered node with the nodes it directly depends on.
pub type Deps = Map<NodeId, Set<NodeId>>;

/// Whether `p` follows dependencies from node to node.
pub open spec fn walks(g: Deps, p: Seq<NodeId>) -> bool {
    &&& p.len() > 0
    &&& forall|k: int| 0 <= k < p.len() ==> g.contains_key(#[trigger] p[k])
    &&& forall|k: int| 0 <= k < p.len() - 1 ==> g[#[trigger] p[k]].contains(p[k + 1])
}

/// Whether `b` is in the causal history of `a`, both delivered.
pub open spec fn reaches(g: Deps, a: NodeId, b: NodeId) -> bool {
    exists|p: Seq<NodeId>| #[trigger] walks(g, p) && p[0] == a && p.last() == b
}

/// Whether `a` causally sees `b`; a node sees itself.
pub open spec fn sees(g: Deps, a: NodeId, b: NodeId) -> bool {
    a == b || reaches(g, a, b)
}

/// Whether `ids` lists the nodes of `g`, each once and after everything it depends
/// on, every node depending on its writer's previous one.
pub open spec fn delivered(g: Deps, ids: Seq<NodeId>) -> bool {
    &&& ids.no_duplicates()
    &&& ids.to_set() == g.dom()
    &&& forall|p: int, d: NodeId|
        0 <= p < ids.len() && #[trigger] g[ids[p]].contains(d) ==> exists|q: int|
            0 <= q < p && #[trigger] ids[q] == d
    &&& forall|n: NodeId|
        #[trigger] g.contains_key(n) && n.seq > 0 ==> g[n].contains(
            NodeId { key: n.key, seq: (n.seq - 1) as u64 },
        )
}

/// Whether the nodes of `g` can be delivered one after the other.
pub open spec fn causal(g: Deps) -> bool {
    exists|ids: Seq<NodeId>| delivered(g, ids)
}

/// Whether the nodes of `key` in `g` are numbers `0..n`.
pub open spec fn is_log_len(g: Deps, key: WriterKey, n: u64) -> bool {
    forall|s: u64| (#[trigger] g.contains_key(NodeId { key, seq: s })) == (s < n)
}

/// How many nodes of `key` there are in `g`, as its log has no gaps.
pub open spec fn log_len(g: Deps, key: WriterKey) -> u64 {
    choose|n: u64| is_log_len(g, key, n)
}

/// Whether the nodes of `key` that `a` sees are numbers `0..n`.
pub open spec fn is_seen_len(g: Deps, a: NodeId, key: WriterKey, n: u64) -> bool {
    forall|s: u64| (#[trigger] reaches(g, a, NodeId { key, seq: s })) == (s < n)
}

/// How many nodes of `key` the node `a` sees.
pub open spec fn seen_len(g: Deps, a: NodeId, key: WriterKey) -> u64 {
    choose|n: u64| is_seen_len(g, a, key, n)
}

pub proof fn lemma_reaches_self(g: Deps, a: NodeId)
    requires
        g.contains_key(a),
    ensures
        reaches(g, a, a),
{
    let p = seq![a];
    assert(walks(g, p) && p[0] == a && p.last() == a);
}

/// A step and then a walk is a walk.
pub proof fn lemma_reaches_step(g: Deps, a: NodeId, c: NodeId, b: NodeId)
    requires
        g.contains_key(a),
        g[a].contains(c),
        reaches(g, c, b),
    ensures
        reaches(g, a, b),
{
    let p = choose|p: Seq<NodeId>| #[trigger] walks(g, p) && p[0] == c && p.last() == b;
    let q = seq![a] + p;
    assert forall|k: int| 0 <= k < q.len() implies g.contains_key(#[trigger] q[k]) by {
        if k > 0 {
            assert(q[k] == p[k - 1]);
        }
    }
    assert forall|k: int| 0 <= k < q.len() - 1 implies g[#[trigger] q[k]].contains(q[k + 1]) by {
        assert(q[k + 1] == p[k]);
        if k > 0 {
            assert(q[k] == p[k - 1]);
        }
    }
    assert(walks(g, q) && q[0] == a && q.last() == b);
}

/// A walk to another node takes a first step.
pub proof fn lemma_reaches_first(g: Deps, a: NodeId, b: NodeId) -> (c: NodeId)
    requires
        reaches(g, a, b),
        a != b,
    ensures
        g.contains_key(a),
        g.contains_key(b),
        g[a].contains(c),
        reaches(g, c, b),
{
    let p = choose|p: Seq<NodeId>| #[trigger] walks(g, p) && p[0] == a && p.last() == b;
    let q = p.skip(1);
    assert(p[p.len() - 1] == b);
    assert forall|k: int| 0 <= k < q.len() implies g.contains_key(#[trigger] q[k]) by {
        assert(q[k] == p[k + 1]);
    }
    assert forall|k: int| 0 <= k < q.len() - 1 implies g[#[trigger] q[k]].contains(q[k + 1]) by {
        assert(q[k] == p[k + 1] && q[k + 1] == p[k + 2]);
    }
    assert(q[0] == p[1]);
    assert(walks(g, q) && q.last() == b);
    p[1]
}

pub proof fn lemma_reaches_known(g: Deps, a: NodeId, b: NodeId)
    requires
        reaches(g, a, b),
    ensures
        g.contains_key(a),
        g.contains_key(b),
{
    let p = choose|p: Seq<NodeId>| #[trigger] walks(g, p) && p[0] == a && p.last() == b;
    assert(p[p.len() - 1] == b);
}

pub proof fn lemma_reaches_transitive(g: Deps, a: NodeId, b: NodeId, c: NodeId)
    requires
        reaches(g, a, b),
        reaches(g, b, c),
    ensures
        reaches(g, a, c),
{
    let p = choose|p: Seq<NodeId>| #[trigger] walks(g, p) && p[0] == a && p.last() == b;
    let q = choose|q: Seq<NodeId>| #[trigger] walks(g, q) && q[0] == b && q.last() == c;
    let r = p + q.skip(1);
    assert forall|k: int| 0 <= k < r.len() implies g.contains_key(#[trigger] r[k]) by {
        if k >= p.len() {
            assert(r[k] == q[k - p.len() + 1]);
        }
    }
    assert forall|k: int| 0 <= k < r.len() - 1 implies g[#[trigger] r[k]].contains(r[k + 1]) by {
        if k >= p.len() {
            let m = k - p.len() + 1;
            assert(r[k] == q[m] && r[k + 1] == q[m + 1]);
        } else if k == p.len() - 1 {
            assert(r[k] == q[0] && r[k + 1] == q[1]);
        } else {
            assert(r[k] == p[k] && r[k + 1] == p[k + 1]);
        }
    }
    if q.len() == 1 {
        assert(r =~= p);
    } else {
        assert(r.last() == q.last());
    }
    assert(walks(g, r) && r[0] == a && r.last() == c);
}

/// The position of a delivered node.
pub proof fn lemma_position(g: Deps, ids: Seq<NodeId>, a: NodeId) -> (p: int)
    requires
        delivered(g, ids),
        g.contains_key(a),
    ensures
        0 <= p < ids.len(),
        ids[p] == a,
{
    assert(ids.to_set().contains(a));
    choose|p: int| 0 <= p < ids.len() && ids[p] == a
}

/// What a node sees was delivered before it.
pub proof fn lemma_reaches_back(g: Deps, ids: Seq<NodeId>, p: int, q: int)
    requires
        delivered(g, ids),
        0 <= p < ids.len(),
        0 <= q < ids.len(),
        reaches(g, ids[p], ids[q]),
    ensures
        q <= p,
    decreases p,
{
    if ids[p] == ids[q] {
        assert(p == q);
    } else {
        let c = lemma_reaches_first(g, ids[p], ids[q]);
        let r = choose|r: int| 0 <= r < p && #[trigger] ids[r] == c;
        lemma_reaches_back(g, ids, r, q);
    }
}

/// Two nodes that see each other are one node.
pub proof fn lemma_antisymmetric(g: Deps, a: NodeId, b: NodeId)
    requires
        causal(g),
        reaches(g, a, b),
        reaches(g, b, a),
    ensures
        a == b,
{
    let ids = choose|ids: Seq<NodeId>| delivered(g, ids);
    lemma_reaches_known(g, a, b);
    let p = lemma_position(g, ids, a);
    let q = lemma_position(g, ids, b);
    lemma_reaches_back(g, ids, p, q);
    lemma_reaches_back(g, ids, q, p);
}

/// A node that is there has all the earlier nodes of its writer in its history.
pub proof fn lemma_sees_own(g: Deps, ids: Seq<NodeId>, n: NodeId, s: u64)
    requires
        delivered(g, ids),
        g.contains_key(n),
        s <= n.seq,
    ensures
        reaches(g, n, NodeId { key: n.key, seq: s }),
        g.contains_key(NodeId { key: n.key, seq: s }),
    decreases n.seq - s,
{
    if s == n.seq {
        lemma_reaches_self(g, n);
    } else {
        let m = NodeId { key: n.key, seq: (n.seq - 1) as u64 };
        assert(g[n].contains(m));
        let p = lemma_position(g, ids, n);
        assert(g[ids[p]].contains(m));
        let q = choose|q: int| 0 <= q < p && #[trigger] ids[q] == m;
        assert(ids.contains(m));
        assert(ids.to_set().contains(m));
        lemma_sees_own(g, ids, m, s);
        lemma_reaches_step(g, n, m, NodeId { key: n.key, seq: s });
    }
}

/// A node stands no earlier than its `seq` among the delivered.
pub proof fn lemma_seq_bound(g: Deps, ids: Seq<NodeId>, p: int)
    requires
        delivered(g, ids),
        0 <= p < ids.len(),
    ensures
        ids[p].seq <= p,
    decreases p,
{
    let n = ids[p];
    assert(ids.to_set().contains(n));
    assert(g.contains_key(n));
    if n.seq > 0 {
        let m = NodeId { key: n.key, seq: (n.seq - 1) as u64 };
        assert(g[ids[p]].contains(m));
        let q = choose|q: int| 0 <= q < p && #[trigger] ids[q] == m;
        lemma_seq_bound(g, ids, q);
    }
}

/// The length of a writer's log is known from its last node.
pub proof fn lemma_log_len(g: Deps, ids: Seq<NodeId>, key: WriterKey, n: u64)
    requires
        delivered(g, ids),
        n > 0 ==> g.contains_key(NodeId { key, seq: (n - 1) as u64 }),
        forall|s: u64| s >= n ==> !g.contains_key(NodeId { key, seq: s }),
    ensures
        forall|s: u64| (#[trigger] g.contains_key(NodeId { key, seq: s })) == (s < n),
        log_len(g, key) == n,
{
    assert forall|s: u64| (#[trigger] g.contains_key(NodeId { key, seq: s })) == (s < n) by {
        if s < n {
            lemma_sees_own(g, ids, NodeId { key, seq: (n - 1) as u64 }, s);
        }
    }
    let m = log_len(g, key);
    assert(is_log_len(g, key, n));
    assert(is_log_len(g, key, m));
    if m < n {
        assert(g.contains_key(NodeId { key, seq: m }));
    } else if n < m {
        assert(g.contains_key(NodeId { key, seq: n }));
    }
}

/// How much of a writer a node sees is known from the last node it sees.
pub proof fn lemma_seen_len(g: Deps, ids: Seq<NodeId>, a: NodeId, key: WriterKey, n: u64)
    requires
        delivered(g, ids),
        n > 0 ==> reaches(g, a, NodeId { key, seq: (n - 1) as u64 }),
        forall|s: u64| s >= n ==> !reaches(g, a, NodeId { key, seq: s }),
    ensures
        forall|s: u64| (#[trigger] reaches(g, a, NodeId { key, seq: s })) == (s < n),
        seen_len(g, a, key) == n,
{
    assert forall|s: u64| (#[trigger] reaches(g, a, NodeId { key, seq: s })) == (s < n) by {
        if s < n {
            let last = NodeId { key, seq: (n - 1) as u64 };
            lemma_reaches_known(g, a, last);
            lemma_sees_own(g, ids, last, s);
            lemma_reaches_transitive(g, a, last, NodeId { key, seq: s });
        }
    }
    let m = seen_len(g, a, key);
    assert(is_seen_len(g, a, key, n));
    assert(is_seen_len(g, a, key, m));
    if m < n {
        assert(reaches(g, a, NodeId { key, seq: m }));
    } else if n < m {
        assert(reaches(g, a, NodeId { key, seq: n }));
    }
}

/// In a causal graph [`log_len`] is the length of the log.
pub proof fn lemma_log_len_meaning(g: Deps, ids: Seq<NodeId>, key: WriterKey)
    requires
        delivered(g, ids),
        ids.len() <= u64::MAX,
    ensures
        forall|s: u64| (#[trigger] g.contains_key(NodeId { key, seq: s })) == (s < log_len(g, key)),
{
    let n = lemma_log_end(g, ids, key, ids.len() as u64);
    lemma_log_len(g, ids, key, n);
}

proof fn lemma_log_end(g: Deps, ids: Seq<NodeId>, key: WriterKey, top: u64) -> (n: u64)
    requires
        delivered(g, ids),
        ids.len() <= u64::MAX,
        top <= ids.len(),
        forall|s: u64| s >= top ==> !g.contains_key(NodeId { key, seq: s }) || s >= top,
        forall|s: u64| s >= top && s < ids.len() ==> !g.contains_key(NodeId { key, seq: s }),
    ensures
        n > 0 ==> g.contains_key(NodeId { key, seq: (n - 1) as u64 }),
        forall|s: u64| s >= n ==> !g.contains_key(NodeId { key, seq: s }),
    decreases top,
{
    assert forall|s: u64| s >= ids.len() implies !g.contains_key(NodeId { key, seq: s }) by {
        let x = NodeId { key, seq: s };
        if g.contains_key(x) {
            let p = lemma_position(g, ids, x);
            lemma_seq_bound(g, ids, p);
        }
    }
    if top == 0 {
        0
    } else if g.contains_key(NodeId { key, seq: (top - 1) as u64 }) {
        top
    } else {
        lemma_log_end(g, ids, key, (top - 1) as u64)
    }
}

/// In a causal graph [`seen_len`] says exactly which nodes of a writer are seen.
pub proof fn lemma_seen_len_meaning(g: Deps, ids: Seq<NodeId>, a: NodeId, key: WriterKey)
    requires
        delivered(g, ids),
        ids.len() <= u64::MAX,
    ensures
        forall|s: u64|
            (#[trigger] reaches(g, a, NodeId { key, seq: s })) == (s < seen_len(g, a, key)),
        seen_len(g, a, key) <= log_len(g, key),
{
    lemma_log_len_meaning(g, ids, key);
    let n = lemma_seen_end(g, ids, a, key, log_len(g, key));
    lemma_seen_len(g, ids, a, key, n);
}

proof fn lemma_seen_end(g: Deps, ids: Seq<NodeId>, a: NodeId, key: WriterKey, top: u64) -> (n: u64)
    requires
        delivered(g, ids),
        forall|s: u64| s >= top ==> !reaches(g, a, NodeId { key, seq: s }) || g.contains_key(
            NodeId { key, seq: s },
        ),
        top <= log_len(g, key),
        forall|s: u64| (#[trigger] g.contains_key(NodeId { key, seq: s })) == (s < log_len(g, key)),
        forall|s: u64| top <= s < log_len(g, key) ==> !reaches(g, a, NodeId { key, seq: s }),
    ensures
        n <= top,
        n > 0 ==> reaches(g, a, NodeId { key, seq: (n - 1) as u64 }),
        forall|s: u64| s >= n ==> !reaches(g, a, NodeId { key, seq: s }),
    decreases top,
{
    assert forall|s: u64| s >= log_len(g, key) implies !reaches(g, a, NodeId { key, seq: s }) by {
        let x = NodeId { key, seq: s };
        if reaches(g, a, x) {
            lemma_reaches_known(g, a, x);
        }
    }
    if top == 0 {
        0
    } else if reaches(g, a, NodeId { key, seq: (top - 1) as u64 }) {
        top
    } else {
        lemma_seen_end(g, ids, a, key, (top - 1) as u64)
    }
}

/// Whether nothing that `n` depends on is still waiting in `rest`.
pub open spec fn ready(g: Deps, rest: Set<NodeId>, n: NodeId) -> bool {
    rest.contains(n) && forall|d: NodeId| #[trigger] g[n].contains(d) ==> !rest.contains(d)
}

/// The ready node with the least id.
pub open spec fn is_next(g: Deps, rest: Set<NodeId>, n: NodeId) -> bool {
    ready(g, rest, n) && forall|m: NodeId| #[trigger] ready(g, rest, m) ==> m == n || id_lt(n, m)
}

/// The order in which the nodes of `rest` come out when at each step the ready node
/// with the least id is taken.
pub open spec fn topo(g: Deps, rest: Set<NodeId>) -> Seq<NodeId>
    decreases rest.len(),
    via topo_decreases
{
    if rest.finite() && exists|n: NodeId| is_next(g, rest, n) {
        let n = choose|n: NodeId| is_next(g, rest, n);
        seq![n] + topo(g, rest.remove(n))
    } else {
        Seq::empty()
    }
}

#[via_fn]
proof fn topo_decreases(g: Deps, rest: Set<NodeId>) {
    if rest.finite() && exists|n: NodeId| is_next(g, rest, n) {
        let n = choose|n: NodeId| is_next(g, rest, n);
        assert(rest.contains(n));
    }
}

pub proof fn lemma_next_unique(g: Deps, rest: Set<NodeId>, a: NodeId, b: NodeId)
    requires
        is_next(g, rest, a),
        is_next(g, rest, b),
    ensures
        a == b,
{
    lemma_id_total(a, b);
}

/// One step of [`topo`].
pub proof fn lemma_topo_step(g: Deps, rest: Set<NodeId>, n: NodeId)
    requires
        rest.finite(),
        is_next(g, rest, n),
    ensures
        topo(g, rest) == seq![n] + topo(g, rest.remove(n)),
{
    let m = choose|m: NodeId| is_next(g, rest, m);
    lemma_next_unique(g, rest, m, n);
}

} // verus!
