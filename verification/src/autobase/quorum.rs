//! Quorum degrees.
use vstd::prelude::*;
use super::consensus::majority_of;
use super::graph::{
    causal, delivered, lemma_position, lemma_reaches_back, lemma_reaches_known,
    lemma_reaches_self, reaches, Deps,
};
use super::ids::{has_key, NodeId, WriterKey};
use super::Linearizer;
use crate::bytes::same_32;

verus! {

/// Whether node `n` witnesses a quorum of degree `k` over `target`. Degree 0 is seeing
/// it; degree `k + 1` takes a majority of voters that each have a node witnessing degree
/// `k` in the history of `n`, its own writer counting as one.
pub open spec fn witnesses(g: Deps, v: Seq<WriterKey>, target: NodeId, n: NodeId, k: nat) -> bool
    decreases k, 0nat,
{
    if k == 0 {
        reaches(g, n, target)
    } else {
        witnesses(g, v, target, n, (k - 1) as nat) && count_votes(
            g,
            v,
            v,
            target,
            n,
            (k - 1) as nat,
        ) + (if v.contains(n.key) {
            1nat
        } else {
            0
        }) >= majority_of(v)
    }
}

/// Whether the history of `n` holds a node of `voter` that witnesses degree `k`.
pub open spec fn vouches(
    g: Deps,
    v: Seq<WriterKey>,
    voter: WriterKey,
    target: NodeId,
    n: NodeId,
    k: nat,
) -> bool
    decreases k, 1nat,
{
    exists|u: NodeId| u.key == voter && #[trigger] reaches(g, n, u) && witnesses(g, v, target, u, k)
}

/// How many voters of `s` other than the writer of `n` vouch for degree `k`.
pub open spec fn count_votes(
    g: Deps,
    v: Seq<WriterKey>,
    s: Seq<WriterKey>,
    target: NodeId,
    n: NodeId,
    k: nat,
) -> nat
    decreases k, s.len() + 2,
{
    if s.len() == 0 {
        0
    } else {
        count_votes(g, v, s.drop_last(), target, n, k) + if s.last() != n.key && vouches(
            g,
            v,
            s.last(),
            target,
            n,
            k,
        ) {
            1nat
        } else {
            0
        }
    }
}

/// Whether `k` is the highest degree that any node witnesses over `target`.
pub open spec fn is_degree(g: Deps, v: Seq<WriterKey>, target: NodeId, k: nat) -> bool {
    &&& exists|n: NodeId| g.contains_key(n) && #[trigger] witnesses(g, v, target, n, k)
    &&& forall|n: NodeId, j: nat| j > k ==> !#[trigger] witnesses(g, v, target, n, j)
}

/// Whether the degree over `target` has no bound: a sole voter vouches for itself at
/// every level once one of its nodes sees `target`.
pub open spec fn unbounded(g: Deps, v: Seq<WriterKey>, target: NodeId) -> bool {
    v.len() == 1 && exists|n: NodeId| n.key == v[0] && #[trigger] reaches(g, n, target)
}

pub proof fn lemma_witness_down(g: Deps, v: Seq<WriterKey>, target: NodeId, n: NodeId, k: nat, j: nat)
    requires
        witnesses(g, v, target, n, k),
        j <= k,
    ensures
        witnesses(g, v, target, n, j),
        reaches(g, n, target),
    decreases k,
{
    if j < k {
        lemma_witness_down(g, v, target, n, (k - 1) as nat, j);
    } else if k > 0 {
        lemma_witness_down(g, v, target, n, (k - 1) as nat, 0);
    }
}

/// One level up, unfolded.
proof fn lemma_witness_up(g: Deps, v: Seq<WriterKey>, target: NodeId, n: NodeId, k: nat)
    ensures
        witnesses(g, v, target, n, k + 1) == (witnesses(g, v, target, n, k) && count_votes(
            g,
            v,
            v,
            target,
            n,
            k,
        ) + (if v.contains(n.key) {
            1nat
        } else {
            0
        }) >= majority_of(v)),
{
    assert(((k + 1) - 1) as nat == k);
}

/// Whether `row` says what the node at `a` sees.
spec fn row_is(g: Deps, ids: Seq<NodeId>, row: Seq<bool>, a: int) -> bool {
    &&& row.len() == ids.len()
    &&& forall|b: int| 0 <= b < ids.len() ==> #[trigger] row[b] == reaches(g, ids[a], ids[b])
}

/// Whether each of `rows` says what its node sees.
spec fn rows_are(g: Deps, ids: Seq<NodeId>, rows: Seq<Vec<bool>>) -> bool {
    forall|a: int| 0 <= a < rows.len() ==> row_is(g, ids, (#[trigger] rows[a])@, a)
}

proof fn lemma_no_votes(
    g: Deps,
    v: Seq<WriterKey>,
    s: Seq<WriterKey>,
    target: NodeId,
    n: NodeId,
    k: nat,
)
    requires
        forall|u: NodeId| u.key != n.key && #[trigger] reaches(g, n, u) ==> !witnesses(g, v, target, u, k),
    ensures
        count_votes(g, v, s, target, n, k) == 0,
    decreases s.len(),
{
    if s.len() > 0 {
        lemma_no_votes(g, v, s.drop_last(), target, n, k);
        if s.last() != n.key {
            assert(!vouches(g, v, s.last(), target, n, k));
        }
    }
}

impl Linearizer {
    /// The quorum degree achieved over `target`: the highest degree any node in the DAG
    /// witnesses over it. `0` when quorum is disabled, the target is unknown, or not
    /// even a single quorum has formed.
    pub fn quorum_degree(&self, target: &NodeId) -> (r: usize)
        requires
            self.wf(),
            self.voters() matches Some(v) ==> !unbounded(self.graph(), v, *target),
        ensures
            match self.voters() {
                None => r == 0,
                Some(v) => if self.graph().contains_key(*target) {
                    is_degree(self.graph(), v, *target, r as nat)
                } else {
                    r == 0
                },
            },
    {
        let ghost g = self.graph();
        let ghost ids = self.ids@;
        let v: &Vec<WriterKey> = match &self.indexers {
            None => return 0,
            Some(v) => v,
        };
        let majority: usize = v.len() / 2 + 1;
        let t: usize = match self.find(target) {
            None => return 0,
            Some(t) => t,
        };
        let mut rows: Vec<Vec<bool>> = Vec::new();
        let mut level: Vec<bool> = Vec::new();
        let mut p: usize = 0;
        while p < self.ids.len()
            invariant
                self.wf(),
                g == self.graph(),
                ids == self.ids@,
                t < ids.len(),
                ids[t as int] == *target,
                p <= ids.len(),
                rows@.len() == p,
                level@.len() == p,
                rows_are(g, ids, rows@),
                forall|a: int|
                    0 <= a < p ==> #[trigger] level@[a]
                        == witnesses(g, v@, *target, ids[a], 0),
            decreases self.ids.len() - p,
        {
            let row: Vec<bool> = self.history(p);
            let ghost before = rows@;
            level.push(row[t]);
            rows.push(row);
            proof {
                assert(rows_are(g, ids, rows@)) by {
                    assert forall|a: int| 0 <= a < rows@.len() implies row_is(
                        g,
                        ids,
                        (#[trigger] rows@[a])@,
                        a,
                    ) by {
                        if a < p {
                            assert(rows@[a] == before[a]);
                        }
                    }
                }
            }
            p = p + 1;
        }
        let mut degree: usize = 0;
        proof {
            self.lemma_at(t as int);
            lemma_reaches_self(g, *target);
            assert(witnesses(g, v@, *target, *target, 0));
        }
        loop
            invariant
                self.wf(),
                g == self.graph(),
                ids == self.ids@,
                self.voters() == Some(v@),
                majority == majority_of(v@),
                !unbounded(g, v@, *target),
                degree <= ids.len(),
                g.contains_key(*target),
                rows@.len() == ids.len(),
                level@.len() == ids.len(),
                rows_are(g, ids, rows@),
                forall|a: int|
                    0 <= a < ids.len() ==> #[trigger] level@[a] == witnesses(
                        g,
                        v@,
                        *target,
                        ids[a],
                        degree as nat,
                    ),
                forall|a: int| 0 <= a < degree ==> !#[trigger] level@[a],
                exists|n: NodeId|
                    g.contains_key(n) && #[trigger] witnesses(g, v@, *target, n, degree as nat),
            decreases ids.len() - degree,
        {
            let ghost k = degree as nat;
            let mut next: Vec<bool> = Vec::new();
            let mut any: bool = false;
            let mut q: usize = 0;
            while q < self.ids.len()
                invariant
                    self.wf(),
                    g == self.graph(),
                    ids == self.ids@,
                    self.voters() == Some(v@),
                    majority == majority_of(v@),
                    k == degree,
                    q <= ids.len(),
                    rows@.len() == ids.len(),
                    level@.len() == ids.len(),
                    next@.len() == q,
                    rows_are(g, ids, rows@),
                    forall|a: int|
                        0 <= a < ids.len() ==> #[trigger] level@[a] == witnesses(
                            g,
                            v@,
                            *target,
                            ids[a],
                            k,
                        ),
                    forall|a: int|
                        0 <= a < q ==> #[trigger] next@[a] == witnesses(
                            g,
                            v@,
                            *target,
                            ids[a],
                            k + 1,
                        ),
                    any == exists|a: int| 0 <= a < q && #[trigger] next@[a],
                decreases self.ids.len() - q,
            {
                let mut up: bool = false;
                if level[q] {
                    let own: usize = if has_key(v, &self.ids[q].key) {
                        1
                    } else {
                        0
                    };
                    let votes: usize = self.votes(v, &rows, &level, q, Ghost(*target), Ghost(k));
                    up = votes >= majority || votes + own >= majority;
                }
                let ghost before = next@;
                next.push(up);
                proof {
                    assert(level@[q as int] == witnesses(g, v@, *target, ids[q as int], k));
                    lemma_witness_up(g, v@, *target, ids[q as int], k);
                    assert(up == witnesses(g, v@, *target, ids[q as int], k + 1));
                    assert(next@[q as int] == up);
                    if any {
                        let a = choose|a: int| 0 <= a < q && #[trigger] before[a];
                        assert(next@[a]);
                    }
                }
                any = any || up;
                q = q + 1;
            }
            proof {
                let up = k + 1;
                assert forall|n: NodeId| #[trigger] witnesses(g, v@, *target, n, up) implies exists|
                    a: int,
                |
                    0 <= a < ids.len() && #[trigger] next@[a] && ids[a] == n by {
                    lemma_witness_down(g, v@, *target, n, k + 1, 0);
                    lemma_reaches_known(g, n, *target);
                    let a = lemma_position(g, ids, n);
                    assert(next@[a]);
                }
            }
            if !any {
                proof {
                    assert forall|n: NodeId, j: nat| j > k implies !#[trigger] witnesses(
                        g,
                        v@,
                        *target,
                        n,
                        j,
                    ) by {
                        if witnesses(g, v@, *target, n, j) {
                            lemma_witness_down(g, v@, *target, n, j, k + 1);
                            let a = choose|a: int|
                                0 <= a < ids.len() && #[trigger] next@[a] && ids[a] == n;
                        }
                    }
                }
                return degree;
            }
            proof {
                // The first node of a level has nobody to vouch for it but itself.
                let a = choose|a: int| 0 <= a < ids.len() && #[trigger] next@[a];
                assert(level@[a]) by {
                    assert(witnesses(g, v@, *target, ids[a], k + 1));
                }
                assert(degree < ids.len());
                assert forall|a: int| 0 <= a < degree + 1 implies !#[trigger] next@[a] by {
                    if next@[a] {
                        assert(witnesses(g, v@, *target, ids[a], k + 1));
                        assert(level@[a]);
                        assert forall|u: NodeId| u.key != ids[a].key && #[trigger] reaches(
                            g,
                            ids[a],
                            u,
                        ) implies !witnesses(g, v@, *target, u, k) by {
                            lemma_reaches_known(g, ids[a], u);
                            let b = lemma_position(g, ids, u);
                            lemma_reaches_back(g, ids, a, b);
                            assert(b < a);
                            assert(!level@[b]);
                        }
                        lemma_no_votes(g, v@, v@, *target, ids[a], k);
                        lemma_witness_up(g, v@, *target, ids[a], k);
                        lemma_witness_down(g, v@, *target, ids[a], k, 0);
                        if v@.contains(ids[a].key) && v@.len() == 1 {
                            let z = choose|z: int| 0 <= z < v@.len() && v@[z] == ids[a].key;
                            assert(ids[a].key == v@[0]);
                            assert(unbounded(g, v@, *target));
                        }
                        if v@.contains(ids[a].key) {
                            assert(v@.len() >= 1);
                        }
                    }
                }
                assert(witnesses(g, v@, *target, ids[a], k + 1));
                self.lemma_at(a);
            }
            level = next;
            degree = degree + 1;
        }
    }

    /// How many voters other than the writer of the node at `p` vouch for the level.
    fn votes(
        &self,
        v: &Vec<WriterKey>,
        rows: &Vec<Vec<bool>>,
        level: &Vec<bool>,
        p: usize,
        Ghost(target): Ghost<NodeId>,
        Ghost(k): Ghost<nat>,
    ) -> (n: usize)
        requires
            self.wf(),
            p < self.ids@.len(),
            rows@.len() == self.ids@.len(),
            level@.len() == self.ids@.len(),
            rows_are(self.graph(), self.ids@, rows@),
            forall|a: int|
                0 <= a < self.ids@.len() ==> #[trigger] level@[a] == witnesses(
                    self.graph(),
                    v@,
                    target,
                    self.ids@[a],
                    k,
                ),
        ensures
            n == count_votes(self.graph(), v@, v@, target, self.ids@[p as int], k),
            n <= v@.len(),
    {
        let ghost g = self.graph();
        let ghost ids = self.ids@;
        let mut n: usize = 0;
        let mut i: usize = 0;
        assert(v@.take(0) =~= Seq::<WriterKey>::empty());
        while i < v.len()
            invariant
                self.wf(),
                g == self.graph(),
                ids == self.ids@,
                p < ids.len(),
                rows@.len() == ids.len(),
                level@.len() == ids.len(),
                rows_are(g, ids, rows@),
                forall|a: int|
                    0 <= a < ids.len() ==> #[trigger] level@[a] == witnesses(
                        g,
                        v@,
                        target,
                        ids[a],
                        k,
                    ),
                i <= v.len(),
                n <= i,
                n == count_votes(g, v@, v@.take(i as int), target, ids[p as int], k),
            decreases v.len() - i,
        {
            proof {
                assert(v@.take(i + 1).drop_last() =~= v@.take(i as int));
                assert(row_is(g, ids, rows@[p as int]@, p as int));
            }
            if !same_32(&v[i], &self.ids[p].key) {
                let mut found: bool = false;
                let mut q: usize = 0;
                while q < self.ids.len()
                    invariant
                        self.wf(),
                        g == self.graph(),
                        ids == self.ids@,
                        p < ids.len(),
                        i < v@.len(),
                        rows@.len() == ids.len(),
                        rows@[p as int]@.len() == ids.len(),
                        level@.len() == ids.len(),
                        q <= ids.len(),
                        rows_are(g, ids, rows@),
                        forall|a: int|
                            0 <= a < ids.len() ==> #[trigger] level@[a] == witnesses(
                                g,
                                v@,
                                target,
                                ids[a],
                                k,
                            ),
                        found ==> vouches(g, v@, v@[i as int], target, ids[p as int], k),
                        !found ==> forall|b: int|
                            0 <= b < q && (#[trigger] ids[b]).key == v@[i as int] ==> !(reaches(
                                g,
                                ids[p as int],
                                ids[b],
                            ) && witnesses(g, v@, target, ids[b], k)),
                    decreases self.ids.len() - q,
                {
                    proof {
                        assert(row_is(g, ids, rows@[p as int]@, p as int));
                        assert(rows@[p as int]@[q as int] == reaches(g, ids[p as int], ids[q as int]));
                        assert(level@[q as int] == witnesses(g, v@, target, ids[q as int], k));
                    }
                    if rows[p][q] && level[q] && same_32(&self.ids[q].key, &v[i]) {
                        found = true;
                    }
                    q = q + 1;
                }
                proof {
                    if vouches(g, v@, v@[i as int], target, ids[p as int], k) && !found {
                        let u = choose|u: NodeId|
                            u.key == v@[i as int] && #[trigger] reaches(g, ids[p as int], u)
                                && witnesses(g, v@, target, u, k);
                        lemma_reaches_known(g, ids[p as int], u);
                        let b = lemma_position(g, ids, u);
                        assert(ids[b].key == v@[i as int]);
                    }
                }
                if found {
                    n = n + 1;
                }
            }
            i = i + 1;
        }
        assert(v@.take(i as int) =~= v@);
        n
    }
}

/// Whether `voter` has a node in the history of `n` that sees `target`: `n` itself, or one
/// of degree at least `d - 1`.
pub open spec fn backs(
    g: Deps,
    target: NodeId,
    deg: spec_fn(NodeId) -> nat,
    n: NodeId,
    d: nat,
    voter: WriterKey,
) -> bool {
    exists|u: NodeId|
        u.key == voter && #[trigger] reaches(g, n, u) && reaches(g, u, target) && (u == n || deg(u)
            + 1 >= d)
}

/// How many of `s` back degree `d` of a node.
pub open spec fn count_backers(
    g: Deps,
    s: Seq<WriterKey>,
    target: NodeId,
    deg: spec_fn(NodeId) -> nat,
    n: NodeId,
    d: nat,
) -> nat
    decreases s.len(),
{
    if s.len() == 0 {
        0
    } else {
        count_backers(g, s.drop_last(), target, deg, n, d) + if backs(
            g,
            target,
            deg,
            n,
            d,
            s.last(),
        ) {
            1nat
        } else {
            0
        }
    }
}

/// Whether a majority of the voters back degree `d` of a node.
pub open spec fn backed(
    g: Deps,
    v: Seq<WriterKey>,
    target: NodeId,
    deg: spec_fn(NodeId) -> nat,
    n: NodeId,
    d: nat,
) -> bool {
    count_backers(g, v, target, deg, n, d) >= majority_of(v)
}

/// Whether `deg` gives each node that sees `target` the largest degree that a majority of
/// the voters back, or none.
pub open spec fn degrees(
    g: Deps,
    v: Seq<WriterKey>,
    target: NodeId,
    deg: spec_fn(NodeId) -> nat,
) -> bool {
    forall|n: NodeId| #[trigger]
        reaches(g, n, target) ==> {
            &&& deg(n) > 0 ==> backed(g, v, target, deg, n, deg(n))
            &&& forall|e: nat| e > deg(n) ==> !#[trigger] backed(g, v, target, deg, n, e)
        }
}

/// Whoever backs a degree backs the one below it.
proof fn lemma_backers_down(
    g: Deps,
    s: Seq<WriterKey>,
    target: NodeId,
    deg: spec_fn(NodeId) -> nat,
    n: NodeId,
    d: nat,
    e: nat,
)
    requires
        e <= d,
    ensures
        count_backers(g, s, target, deg, n, d) <= count_backers(g, s, target, deg, n, e),
    decreases s.len(),
{
    if s.len() > 0 {
        lemma_backers_down(g, s.drop_last(), target, deg, n, d, e);
        if backs(g, target, deg, n, d, s.last()) {
            let u = choose|u: NodeId|
                u.key == s.last() && #[trigger] reaches(g, n, u) && reaches(g, u, target) && (u == n
                    || deg(u) + 1 >= d);
            assert(u.key == s.last() && reaches(g, n, u));
            assert(backs(g, target, deg, n, e, s.last()));
        }
    }
}

/// The voters that back degree `k + 1` of a node are those that vouch for `k` in its
/// history, and its own writer.
proof fn lemma_backers_are_votes(
    g: Deps,
    v: Seq<WriterKey>,
    s: Seq<WriterKey>,
    target: NodeId,
    deg: spec_fn(NodeId) -> nat,
    n: NodeId,
    k: nat,
)
    requires
        s.no_duplicates(),
        reaches(g, n, target),
        reaches(g, n, n),
        forall|u: NodeId, j: nat| #[trigger]
            reaches(g, n, u) && u != n ==> (#[trigger] witnesses(g, v, target, u, j) == (reaches(
                g,
                u,
                target,
            ) && deg(u) >= j)),
    ensures
        count_backers(g, s, target, deg, n, k + 1) == count_votes(g, v, s, target, n, k) + (
        if s.contains(n.key) {
            1nat
        } else {
            0
        }),
    decreases s.len(),
{
    if s.len() > 0 {
        let less = s.drop_last();
        let w = s.last();
        assert(less.no_duplicates());
        lemma_backers_are_votes(g, v, less, target, deg, n, k);
        assert(s[s.len() - 1] == w);
        assert(!less.contains(w)) by {
            if less.contains(w) {
                assert(s[less.index_of(w)] == s[s.len() - 1]);
            }
        }
        if w == n.key {
            assert(n.key == w && reaches(g, n, n) && reaches(g, n, target));
            assert(backs(g, target, deg, n, k + 1, w));
        } else {
            assert(s.contains(n.key) == less.contains(n.key)) by {
                if s.contains(n.key) {
                    assert(less[s.index_of(n.key)] == n.key);
                }
                if less.contains(n.key) {
                    assert(s[less.index_of(n.key)] == n.key);
                }
            }
            if backs(g, target, deg, n, k + 1, w) {
                let u = choose|u: NodeId|
                    u.key == w && #[trigger] reaches(g, n, u) && reaches(g, u, target) && (u == n
                        || deg(u) + 1 >= k + 1);
                assert(witnesses(g, v, target, u, k));
                assert(vouches(g, v, w, target, n, k));
            }
            if vouches(g, v, w, target, n, k) {
                let u = choose|u: NodeId|
                    u.key == w && #[trigger] reaches(g, n, u) && witnesses(g, v, target, u, k);
                assert(reaches(g, u, target) && deg(u) >= k);
                assert(backs(g, target, deg, n, k + 1, w));
            }
        }
    }
}

/// A node witnesses just the degrees up to its own.
proof fn lemma_witnesses_degree(
    g: Deps,
    ids: Seq<NodeId>,
    v: Seq<WriterKey>,
    target: NodeId,
    deg: spec_fn(NodeId) -> nat,
    p: int,
    k: nat,
)
    requires
        delivered(g, ids),
        v.no_duplicates(),
        degrees(g, v, target, deg),
        0 <= p < ids.len(),
    ensures
        witnesses(g, v, target, ids[p], k) == (reaches(g, ids[p], target) && deg(ids[p]) >= k),
    decreases p, k,
{
    let n = ids[p];
    assert(ids.to_set().contains(n));
    assert(g.contains_key(n));
    if reaches(g, n, target) {
        if k > 0 {
            let j = (k - 1) as nat;
            lemma_reaches_self(g, n);
            assert forall|u: NodeId, i: nat| #[trigger]
                reaches(g, n, u) && u != n implies (#[trigger] witnesses(g, v, target, u, i) == (
            reaches(g, u, target) && deg(u) >= i)) by {
                lemma_reaches_known(g, n, u);
                let q = lemma_position(g, ids, u);
                lemma_reaches_back(g, ids, p, q);
                lemma_witnesses_degree(g, ids, v, target, deg, q, i);
            }
            lemma_backers_are_votes(g, v, v, target, deg, n, j);
            lemma_witnesses_degree(g, ids, v, target, deg, p, j);
            assert(j + 1 == k);
            if deg(n) >= k {
                assert(backed(g, v, target, deg, n, deg(n)));
                lemma_backers_down(g, v, target, deg, n, deg(n), k);
            } else {
                assert(!backed(g, v, target, deg, n, k));
            }
            lemma_witness_up(g, v, target, n, j);
        }
    } else {
        if witnesses(g, v, target, n, k) {
            lemma_witness_down(g, v, target, n, k, 0);
        }
    }
}

/// The quorum degree is the highest degree of a node: where `deg` gives each node that sees
/// `target` the largest degree that a majority of the voters back, the degree over `target`
/// is the maximum of those.
pub proof fn law_quorum_degree(
    g: Deps,
    v: Seq<WriterKey>,
    target: NodeId,
    deg: spec_fn(NodeId) -> nat,
    k: nat,
)
    requires
        causal(g),
        v.no_duplicates(),
        degrees(g, v, target, deg),
        is_degree(g, v, target, k),
    ensures
        exists|n: NodeId| #[trigger] reaches(g, n, target) && deg(n) == k,
        forall|n: NodeId| #[trigger] reaches(g, n, target) ==> deg(n) <= k,
{
    let ids = choose|ids: Seq<NodeId>| delivered(g, ids);
    let n = choose|n: NodeId| g.contains_key(n) && #[trigger] witnesses(g, v, target, n, k);
    let p = lemma_position(g, ids, n);
    lemma_witnesses_degree(g, ids, v, target, deg, p, k);
    assert forall|m: NodeId| #[trigger] reaches(g, m, target) implies deg(m) <= k by {
        lemma_reaches_known(g, m, target);
        let q = lemma_position(g, ids, m);
        lemma_witnesses_degree(g, ids, v, target, deg, q, deg(m));
        assert(witnesses(g, v, target, m, deg(m)));
    }
    assert(reaches(g, n, target) && deg(n) == k);
}

} // verus!
