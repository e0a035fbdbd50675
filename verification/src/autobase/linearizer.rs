//! The linearizer: delivery, history, clocks and order.
use vstd::prelude::*;
use super::graph::{
    delivered, is_next, lemma_log_len, lemma_position, lemma_reaches_first, lemma_reaches_known,
    lemma_reaches_self, lemma_reaches_step, lemma_seen_len, lemma_seq_bound, lemma_topo_step,
    log_len, reaches, ready, seen_len, sees, topo, Deps,
};
use super::ids::{
    id_less, id_lt, in_order, insert_id, insert_key, key_less, key_lt, keys_in_order, lemma_id_total,
    lemma_id_transitive, lemma_in_order, lemma_key_asymmetric, lemma_key_irreflexive, lemma_key_total,
    lemma_key_transitive, lemma_keys_in_order, same_id, sorted_ids, sorted_keys, NodeId, WriterKey,
};
use super::{at_positions, flagged, Linearizer};
use crate::bytes::same_32;

verus! {

/// A vector clock over the DAG: for each writer, how many of that writer's nodes lie
/// in some node's causal history (absent means none).
#[derive(Debug, PartialEq, Eq)]
pub struct Clock {
    lengths: Vec<(WriterKey, u64)>,
}

/// A clock's length for `key`, `0` if unseen.
pub open spec fn length_in(m: Map<WriterKey, u64>, key: WriterKey) -> u64 {
    if m.contains_key(key) {
        m[key]
    } else {
        0
    }
}

/// Whether a clock has seen at least `length` nodes of `key`; `false` for no nodes.
pub open spec fn includes_in(m: Map<WriterKey, u64>, key: WriterKey, length: int) -> bool {
    length > 0 && length_in(m, key) >= length
}

/// `m` with the length of `key` raised to at least `length`.
pub open spec fn raised(m: Map<WriterKey, u64>, key: WriterKey, length: u64) -> Map<
    WriterKey,
    u64,
> {
    m.insert(
        key,
        if length > length_in(m, key) {
            length
        } else {
            length_in(m, key)
        },
    )
}

/// The pairs of a clock as a map.
pub open spec fn pairs_map(s: Seq<(WriterKey, u64)>) -> Map<WriterKey, u64>
    decreases s.len(),
{
    if s.len() == 0 {
        Map::empty()
    } else {
        pairs_map(s.drop_last()).insert(s.last().0, s.last().1)
    }
}

/// Whether the keys of the pairs go up strictly.
pub open spec fn pairs_sorted(s: Seq<(WriterKey, u64)>) -> bool {
    forall|i: int, j: int| 0 <= i < j < s.len() ==> key_lt((#[trigger] s[i]).0, (#[trigger] s[j]).0)
}

pub proof fn lemma_pairs(s: Seq<(WriterKey, u64)>)
    requires
        pairs_sorted(s),
    ensures
        forall|k: int|
            0 <= k < s.len() ==> pairs_map(s).contains_key((#[trigger] s[k]).0) && pairs_map(
                s,
            )[s[k].0] == s[k].1,
        forall|key: WriterKey| #[trigger]
            pairs_map(s).contains_key(key) ==> exists|k: int| 0 <= k < s.len() && s[k].0 == key,
        pairs_map(s).dom().finite(),
        pairs_map(s).len() == s.len(),
    decreases s.len(),
{
    if s.len() > 0 {
        let t = s.drop_last();
        assert(pairs_sorted(t)) by {
            assert forall|i: int, j: int| 0 <= i < j < t.len() implies key_lt(
                (#[trigger] t[i]).0,
                (#[trigger] t[j]).0,
            ) by {
                assert(t[i] == s[i] && t[j] == s[j]);
            }
        }
        lemma_pairs(t);
        let last = s.len() - 1;
        assert(!pairs_map(t).contains_key(s.last().0)) by {
            if pairs_map(t).contains_key(s.last().0) {
                let k = choose|k: int| 0 <= k < t.len() && t[k].0 == s.last().0;
                assert(key_lt(s[k].0, s[last].0));
                lemma_key_irreflexive(s[last].0);
            }
        }
        assert forall|k: int| 0 <= k < s.len() implies pairs_map(s).contains_key(
            (#[trigger] s[k]).0,
        ) && pairs_map(s)[s[k].0] == s[k].1 by {
            if k < last {
                assert(t[k] == s[k]);
                assert(key_lt(s[k].0, s[last].0));
                lemma_key_asymmetric(s[k].0, s[last].0);
            }
        }
        assert forall|key: WriterKey| #[trigger] pairs_map(s).contains_key(key) implies exists|
            k: int,
        |
            0 <= k < s.len() && s[k].0 == key by {
            if key == s.last().0 {
                assert(s[last].0 == key);
            } else {
                let k = choose|k: int| 0 <= k < t.len() && t[k].0 == key;
                assert(s[k].0 == key);
            }
        }
    }
}

impl View for Clock {
    type V = Map<WriterKey, u64>;

    closed spec fn view(&self) -> Map<WriterKey, u64> {
        pairs_map(self.lengths@)
    }
}

impl Clone for Clock {
    fn clone(&self) -> (r: Self)
        ensures
            r@ == self@,
            r.wf() == self.wf(),
    {
        let mut lengths: Vec<(WriterKey, u64)> = Vec::new();
        let mut i: usize = 0;
        while i < self.lengths.len()
            invariant
                i <= self.lengths.len(),
                lengths@ == self.lengths@.take(i as int),
            decreases self.lengths.len() - i,
        {
            lengths.push(self.lengths[i]);
            i = i + 1;
            assert(lengths@ =~= self.lengths@.take(i as int));
        }
        assert(lengths@ =~= self.lengths@);
        Clock { lengths }
    }
}

impl Default for Clock {
    fn default() -> (c: Self)
        ensures
            c.wf(),
            c@ == Map::<WriterKey, u64>::empty(),
    {
        Clock { lengths: Vec::new() }
    }
}

impl Clock {
    /// Each writer stands once, in ascending key order.
    pub closed spec fn wf(&self) -> bool {
        pairs_sorted(self.lengths@)
    }

    /// Nodes of `key` seen (`0` if unseen).
    pub fn get(&self, key: &WriterKey) -> (n: u64)
        requires
            self.wf(),
        ensures
            n == length_in(self@, *key),
    {
        proof {
            lemma_pairs(self.lengths@);
        }
        let mut i: usize = 0;
        while i < self.lengths.len()
            invariant
                i <= self.lengths.len(),
                self.wf(),
                forall|j: int| 0 <= j < i ==> (#[trigger] self.lengths@[j]).0 != *key,
            decreases self.lengths.len() - i,
        {
            if same_32(&self.lengths[i].0, key) {
                proof {
                    lemma_pairs(self.lengths@);
                    assert(self.lengths@[i as int].0 == *key);
                }
                return self.lengths[i].1;
            }
            i = i + 1;
        }
        0
    }

    /// Has this clock seen at least `length` nodes of `key`? `length == 0` is `false`.
    pub fn includes(&self, key: &WriterKey, length: u64) -> (r: bool)
        requires
            self.wf(),
        ensures
            r == includes_in(self@, *key, length as int),
    {
        length > 0 && self.get(key) >= length
    }

    /// Number of writers this clock has seen at least one node from.
    pub fn writers(&self) -> (n: usize)
        requires
            self.wf(),
        ensures
            n == self@.len(),
    {
        proof {
            lemma_pairs(self.lengths@);
        }
        self.lengths.len()
    }

    /// `(key, length)` pairs in ascending key order.
    pub fn iter(&self) -> (v: Vec<(WriterKey, u64)>)
        requires
            self.wf(),
        ensures
            pairs_sorted(v@),
            pairs_map(v@) == self@,
    {
        self.clone().lengths
    }

    /// Raise `key`'s length to at least `length`.
    pub(crate) fn raise(&mut self, key: WriterKey, length: u64)
        requires
            old(self).wf(),
        ensures
            final(self).wf(),
            final(self)@ == raised(old(self)@, key, length),
    {
        let ghost before = self.lengths@;
        let mut i: usize = 0;
        proof {
            lemma_pairs(before);
        }
        while i < self.lengths.len() && key_less(&self.lengths[i].0, &key)
            invariant
                i <= self.lengths.len(),
                self.lengths@ == before,
                forall|j: int| 0 <= j < i ==> key_lt((#[trigger] self.lengths@[j]).0, key),
            decreases self.lengths.len() - i,
        {
            i = i + 1;
        }
        if i < self.lengths.len() && same_32(&self.lengths[i].0, &key) {
            assert(before[i as int].0 == key);
            if length > self.lengths[i].1 {
                self.lengths.set(i, (key, length));
            }
            proof {
                let now = self.lengths@;
                assert forall|a: int, b: int| 0 <= a < b < now.len() implies key_lt(
                    (#[trigger] now[a]).0,
                    (#[trigger] now[b]).0,
                ) by {
                    assert(now[a].0 == before[a].0 && now[b].0 == before[b].0);
                    assert(key_lt(before[a].0, before[b].0));
                }
                lemma_pairs(now);
                assert forall|k: int| 0 <= k < before.len() implies exists|j: int|
                    0 <= j < now.len() && (#[trigger] now[j]).0 == (#[trigger] before[k]).0 by {
                    assert(now[k].0 == before[k].0);
                }
                assert(now[i as int].0 == key);
                lemma_same_map(now, raised(pairs_map(before), key, length), before, key);
            }
            return ;
        }
        self.lengths.insert(i, (key, length));
        proof {
            let now = self.lengths@;
            let n = i as int;
            assert(now == before.insert(n, (key, length)));
            if n < before.len() {
                lemma_key_total(before[n].0, key);
            }
            assert forall|a: int, b: int| 0 <= a < b < now.len() implies key_lt(
                (#[trigger] now[a]).0,
                (#[trigger] now[b]).0,
            ) by {
                if b < n {
                    assert(key_lt(before[a].0, before[b].0));
                } else if a < n && b == n {
                } else if a < n && b > n {
                    assert(now[b] == before[b - 1]);
                    assert(key_lt(before[a].0, before[b - 1].0));
                } else if a == n {
                    assert(now[b] == before[b - 1]);
                    if b - 1 > n {
                        assert(key_lt(before[n].0, before[b - 1].0));
                        lemma_key_transitive(key, before[n].0, before[b - 1].0);
                    }
                } else {
                    assert(now[a] == before[a - 1] && now[b] == before[b - 1]);
                    assert(key_lt(before[a - 1].0, before[b - 1].0));
                }
            }
            assert(!pairs_map(before).contains_key(key)) by {
                if pairs_map(before).contains_key(key) {
                    let k = choose|k: int| 0 <= k < before.len() && before[k].0 == key;
                    if k < n {
                        assert(key_lt(before[k].0, key));
                        lemma_key_irreflexive(key);
                    } else if k > n {
                        assert(key_lt(before[n].0, before[k].0));
                        lemma_key_asymmetric(key, before[n].0);
                    }
                }
            }
            lemma_pairs(now);
            assert forall|k: int| 0 <= k < before.len() implies exists|j: int|
                0 <= j < now.len() && (#[trigger] now[j]).0 == (#[trigger] before[k]).0 by {
                if k < n {
                    assert(now[k].0 == before[k].0);
                } else {
                    assert(now[k + 1].0 == before[k].0);
                }
            }
            assert(now[n].0 == key);
            lemma_same_map(now, raised(pairs_map(before), key, length), before, key);
        }
    }
}

/// Sorted pairs that agree with a map pair by pair make that map.
proof fn lemma_same_map(
    now: Seq<(WriterKey, u64)>,
    want: Map<WriterKey, u64>,
    before: Seq<(WriterKey, u64)>,
    key: WriterKey,
)
    requires
        pairs_sorted(now),
        pairs_sorted(before),
        want.dom() == pairs_map(before).dom().insert(key),
        forall|k: int| 0 <= k < now.len() ==> want.contains_key((#[trigger] now[k]).0) && want[now[k].0] == now[k].1,
        forall|k: int|
            0 <= k < before.len() ==> exists|j: int|
                0 <= j < now.len() && (#[trigger] now[j]).0 == (#[trigger] before[k]).0,
        exists|j: int| 0 <= j < now.len() && (#[trigger] now[j]).0 == key,
    ensures
        pairs_map(now) == want,
{
    lemma_pairs(now);
    lemma_pairs(before);
    assert forall|w: WriterKey| #[trigger] pairs_map(now).contains_key(w) == want.contains_key(w) by {
        if pairs_map(now).contains_key(w) {
            let k = choose|k: int| 0 <= k < now.len() && now[k].0 == w;
            assert(want.contains_key(now[k].0));
        }
        if want.contains_key(w) && w != key {
            assert(pairs_map(before).contains_key(w));
            let k = choose|k: int| 0 <= k < before.len() && before[k].0 == w;
            let j = choose|j: int| 0 <= j < now.len() && (#[trigger] now[j]).0 == before[k].0;
            assert(pairs_map(now).contains_key(now[j].0));
        }
    }
    assert forall|w: WriterKey| #[trigger] pairs_map(now).contains_key(w) implies pairs_map(now)[w]
        == want[w] by {
        let k = choose|k: int| 0 <= k < now.len() && now[k].0 == w;
        assert(want[now[k].0] == now[k].1);
    }
    assert(pairs_map(now) =~= want);
}

/// Why a node could not be added: each is a violation of causal delivery, which
/// promises that a node arrives only after everything it references.
#[derive(Debug, Clone, PartialEq, Eq)]
pub enum AddError {
    /// A node already exists at this id.
    Duplicate(NodeId),
    /// `seq` skips ahead of the writer's log: its predecessor must arrive first.
    Gap { writer: WriterKey, expected: u64, got: u64 },
    /// A referenced causal head has not been delivered yet.
    MissingHead(NodeId),
}

/// The direct dependencies of a new node: the heads it references and its writer's
/// previous node.
pub open spec fn new_deps(node: NodeId, heads: Seq<NodeId>) -> Set<NodeId> {
    if node.seq > 0 {
        heads.to_set().insert(NodeId { key: node.key, seq: (node.seq - 1) as u64 })
    } else {
        heads.to_set()
    }
}

/// The nodes with no dependencies, in ascending order.
pub open spec fn tails_of(g: Deps) -> Seq<NodeId> {
    in_order(Set::new(|n: NodeId| g.contains_key(n) && g[n] == Set::<NodeId>::empty()))
}

/// Whether some node depends on `n`.
pub open spec fn covered(g: Deps, n: NodeId) -> bool {
    exists|m: NodeId| #[trigger] g.contains_key(m) && g[m].contains(n)
}

/// The nodes that no other depends on, in ascending order: what a new node has to build
/// on to see everything.
pub open spec fn frontier_of(g: Deps) -> Seq<NodeId> {
    in_order(Set::new(|n: NodeId| g.contains_key(n) && !covered(g, n)))
}

/// The first of `heads` that is not in `g`.
pub open spec fn first_missing(g: Deps, heads: Seq<NodeId>) -> Option<NodeId>
    decreases heads.len(),
{
    if heads.len() == 0 {
        None
    } else {
        match first_missing(g, heads.drop_last()) {
            Some(h) => Some(h),
            None => if g.contains_key(heads.last()) {
                None
            } else {
                Some(heads.last())
            },
        }
    }
}

impl Default for Linearizer {
    fn default() -> (l: Self)
        ensures
            l.wf(),
            l.graph() == Map::<NodeId, Set<NodeId>>::empty(),
            l.voters() is None,
    {
        Linearizer::new()
    }
}

impl Linearizer {
    pub fn new() -> (l: Self)
        ensures
            l.wf(),
            l.graph() == Map::<NodeId, Set<NodeId>>::empty(),
            l.voters() is None,
    {
        let l: Linearizer = Linearizer { ids: Vec::new(), deps: Vec::new(), indexers: None };
        assert(l.graph() =~= Map::<NodeId, Set<NodeId>>::empty());
        assert(l.ids@.to_set() =~= l.graph().dom());
        l
    }

    /// Designate the indexers: the writers whose references count as votes toward
    /// quorums. Without them nothing is ever confirmed.
    pub fn with_indexers(indexers: Vec<WriterKey>) -> (l: Self)
        ensures
            l.wf(),
            l.graph() == Map::<NodeId, Set<NodeId>>::empty(),
            l.voters() == Some(keys_in_order(indexers@.to_set())),
    {
        let mut v: Vec<WriterKey> = Vec::new();
        let mut i: usize = 0;
        assert(indexers@.take(0).to_set() =~= v@.to_set());
        while i < indexers.len()
            invariant
                i <= indexers.len(),
                sorted_keys(v@),
                v@.to_set() == indexers@.take(i as int).to_set(),
            decreases indexers.len() - i,
        {
            insert_key(&mut v, indexers[i]);
            i = i + 1;
            proof {
                let t = indexers@.take(i as int);
                assert(t =~= indexers@.take(i - 1).push(indexers@[i - 1]));
                assert forall|k: WriterKey| v@.to_set().contains(k) == t.to_set().contains(k) by {
                    let less = indexers@.take(i - 1);
                    if less.contains(k) {
                        let j = choose|j: int| 0 <= j < less.len() && less[j] == k;
                        assert(t[j] == k);
                    }
                    assert(t[i - 1] == indexers@[i - 1]);
                    if t.contains(k) && k != indexers@[i - 1] {
                        let j = choose|j: int| 0 <= j < t.len() && t[j] == k;
                        assert(less[j] == k);
                    }
                    assert(less.to_set().contains(k) == less.contains(k));
                }
                assert(v@.to_set() =~= t.to_set());
            }
        }
        proof {
            assert(indexers@.take(i as int) =~= indexers@);
            lemma_keys_in_order(v@);
        }
        let mut l: Linearizer = Linearizer::new();
        let ghost g = l.graph();
        l.indexers = Some(v);
        assert(l.graph() == g);
        l
    }

    /// Number of nodes currently in the DAG.
    pub fn len(&self) -> (n: usize)
        requires
            self.wf(),
        ensures
            n == self.graph().dom().len(),
    {
        proof {
            self.lemma_wf();
        }
        self.ids.len()
    }

    pub fn is_empty(&self) -> (b: bool)
        requires
            self.wf(),
        ensures
            b == (self.graph().dom().len() == 0),
    {
        proof {
            self.lemma_wf();
        }
        self.ids.len() == 0
    }

    /// Where a node stands among the delivered.
    pub(super) fn find(&self, id: &NodeId) -> (r: Option<usize>)
        ensures
            match r {
                Some(p) => p < self.ids@.len() && self.ids@[p as int] == *id
                    && self.graph().contains_key(*id),
                None => !self.graph().contains_key(*id) && !self.ids@.contains(*id),
            },
    {
        let mut p: usize = 0;
        while p < self.ids.len()
            invariant
                p <= self.ids.len(),
                forall|q: int| 0 <= q < p ==> self.ids@[q] != *id,
            decreases self.ids.len() - p,
        {
            if same_id(&self.ids[p], id) {
                assert(self.ids@.contains(*id)) by {
                    assert(self.ids@[p as int] == *id);
                }
                return Some(p);
            }
            p = p + 1;
        }
        None
    }

    /// Whether a node at `id` has been delivered.
    pub fn contains(&self, id: &NodeId) -> (b: bool)
        ensures
            b == self.graph().contains_key(*id),
    {
        self.find(id).is_some()
    }

    /// Number of nodes writer `key` has: the next expected `seq`.
    pub fn indexer_length(&self, key: &WriterKey) -> (n: u64)
        requires
            self.wf(),
        ensures
            n == log_len(self.graph(), *key),
            forall|s: u64|
                (#[trigger] self.graph().contains_key(NodeId { key: *key, seq: s })) == (s < n),
    {
        let mut n: u64 = 0;
        let mut p: usize = 0;
        while p < self.ids.len()
            invariant
                p <= self.ids.len(),
                self.wf(),
                n > 0 ==> self.graph().contains_key(NodeId { key: *key, seq: (n - 1) as u64 }),
                forall|q: int|
                    0 <= q < p && (#[trigger] self.ids@[q]).key == *key ==> self.ids@[q].seq < n,
            decreases self.ids.len() - p,
        {
            proof {
                lemma_seq_bound(self.graph(), self.ids@, p as int);
                self.lemma_at(p as int);
            }
            if same_32(&self.ids[p].key, key) && self.ids[p].seq >= n {
                n = self.ids[p].seq + 1;
                assert(self.ids@[p as int] == NodeId { key: *key, seq: (n - 1) as u64 });
            }
            p = p + 1;
        }
        proof {
            assert forall|s: u64| s >= n implies !self.graph().contains_key(
                NodeId { key: *key, seq: s },
            ) by {
                let x = NodeId { key: *key, seq: s };
                if self.graph().contains_key(x) {
                    let q = lemma_position(self.graph(), self.ids@, x);
                    assert(self.ids@[q].key == *key);
                }
            }
            lemma_log_len(self.graph(), self.ids@, *key, n);
        }
        n
    }

    /// Add `node`, referencing `heads` (the other writers' heads it saw). The
    /// same-writer predecessor is added as a dependency automatically.
    ///
    /// Enforces causal delivery: rejects a duplicate, a seq gap, or a head that has not
    /// been delivered.
    #[verifier::rlimit(40)]
    pub fn add(&mut self, node: NodeId, heads: &[NodeId]) -> (r: Result<(), AddError>)
        requires
            old(self).wf(),
        ensures
            final(self).wf(),
            final(self).voters() == old(self).voters(),
            ({
                let g = old(self).graph();
                let expected = log_len(g, node.key);
                if g.contains_key(node) {
                    r == Err::<(), AddError>(AddError::Duplicate(node)) && final(self).graph() == g
                } else if node.seq != expected {
                    r == Err::<(), AddError>(
                        AddError::Gap { writer: node.key, expected, got: node.seq },
                    ) && final(self).graph() == g
                } else {
                    match first_missing(g, heads@) {
                        Some(h) => r == Err::<(), AddError>(AddError::MissingHead(h))
                            && final(self).graph() == g,
                        None => r == Ok::<(), AddError>(()) && final(self).graph() == g.insert(
                            node,
                            new_deps(node, heads@),
                        ),
                    }
                }
            }),
    {
        if self.contains(&node) {
            return Err(AddError::Duplicate(node));
        }
        let expected: u64 = self.indexer_length(&node.key);
        if node.seq != expected {
            return Err(AddError::Gap { writer: node.key, expected, got: node.seq });
        }
        let ghost g = self.graph();
        let ghost ids = self.ids@;
        let mut positions: Vec<usize> = Vec::new();
        let mut k: usize = 0;
        assert(heads@.take(0) =~= Seq::<NodeId>::empty());
        while k < heads.len()
            invariant
                k <= heads.len(),
                self.wf(),
                *self == *old(self),
                g == self.graph(),
                !g.contains_key(node),
                node.seq == log_len(g, node.key),
                ids == self.ids@,
                first_missing(g, heads@.take(k as int)) is None,
                positions@.len() == k,
                forall|j: int|
                    0 <= j < k ==> #[trigger] positions@[j] < ids.len() && ids[positions@[j] as int]
                        == heads@[j],
            decreases heads.len() - k,
        {
            proof {
                assert(heads@.take(k + 1).drop_last() =~= heads@.take(k as int));
            }
            match self.find(&heads[k]) {
                None => {
                    proof {
                        lemma_first_missing(g, heads@, k + 1);
                    }
                    return Err(AddError::MissingHead(heads[k]));
                },
                Some(p) => positions.push(p),
            }
            k = k + 1;
        }
        assert(heads@.take(k as int) =~= heads@);
        if node.seq > 0 {
            match self.find(&NodeId::new(node.key, node.seq - 1)) {
                Some(p) => positions.push(p),
                None => {},
            }
            assert(g.contains_key(NodeId { key: node.key, seq: (node.seq - 1) as u64 }));
        }
        let ghost want = new_deps(node, heads@);
        proof {
            assert forall|d: NodeId| at_positions(ids, positions@).contains(d) == want.contains(
                d,
            ) by {
                if at_positions(ids, positions@).contains(d) {
                    let j = choose|j: int|
                        0 <= j < positions@.len() && ids[#[trigger] positions@[j] as int] == d;
                    if j < heads@.len() {
                        assert(heads@.contains(d)) by {
                            assert(heads@[j] == d);
                        }
                    }
                }
                if heads@.contains(d) {
                    let j = choose|j: int| 0 <= j < heads@.len() && heads@[j] == d;
                    assert(ids[positions@[j] as int] == d);
                }
                if node.seq > 0 && d == (NodeId { key: node.key, seq: (node.seq - 1) as u64 }) {
                    let j = positions@.len() - 1;
                    assert(ids[positions@[j] as int] == d);
                }
            }
            assert(at_positions(ids, positions@) =~= want);
            assert forall|j: int| 0 <= j < positions@.len() implies #[trigger] positions@[j]
                < ids.len() by {}
        }
        self.ids.push(node);
        self.deps.push(positions);
        proof {
            let h = g.insert(node, want);
            let now = self.ids@;
            let n = ids.len() as int;
            assert(now == ids.push(node));
            assert(!ids.contains(node));
            assert(now.no_duplicates()) by {
                assert forall|a: int, b: int| 0 <= a < b < now.len() implies now[a] != now[b] by {
                    if b == n {
                        assert(ids.contains(ids[a]));
                    }
                }
            }
            assert forall|p: int| 0 <= p < n implies at_positions(now, self.deps@[p]@)
                == at_positions(ids, self.deps@[p]@) by {
                lemma_positions_grow(ids, now, self.deps@[p]@, p);
            }
            lemma_positions_grow(ids, now, self.deps@[n]@, n);
            assert forall|x: NodeId| self.graph().contains_key(x) == h.contains_key(x) by {
                if ids.contains(x) {
                    let j = choose|j: int| 0 <= j < ids.len() && ids[j] == x;
                    assert(now[j] == x);
                }
                assert(now[n] == node);
                if now.contains(x) && x != node {
                    let j = choose|j: int| 0 <= j < now.len() && now[j] == x;
                    assert(ids[j] == x);
                }
            }
            assert forall|x: NodeId| #[trigger] self.graph().contains_key(x) implies self.graph()[x]
                == h[x] by {
                let q = now.index_of(x);
                assert(now[q] == x && 0 <= q < now.len());
                if x == node {
                    assert(q == n);
                } else {
                    assert(ids[q] == x);
                    old(self).lemma_at(q);
                    assert(self.deps@[q] == old(self).deps@[q]);
                }
            }
            assert(self.graph() =~= h);
            assert(delivered(h, now)) by {
                assert forall|x: NodeId| now.to_set().contains(x) == h.dom().contains(x) by {
                    assert(self.graph().contains_key(x) == now.contains(x));
                }
                assert(now.to_set() =~= h.dom());
                assert forall|p: int, d: NodeId| 0 <= p < now.len()
                    && #[trigger] h[now[p]].contains(d) implies exists|q: int|
                    0 <= q < p && #[trigger] now[q] == d by {
                    if p < n {
                        assert(now[p] == ids[p]);
                        assert(ids.contains(ids[p]));
                        assert(g[ids[p]].contains(d));
                        let q = choose|q: int| 0 <= q < p && #[trigger] ids[q] == d;
                        assert(now[q] == d);
                    } else {
                        assert(at_positions(ids, self.deps@[n]@).contains(d));
                        let j = choose|j: int|
                            0 <= j < self.deps@[n]@.len() && ids[#[trigger] self.deps@[n]@[j] as int]
                                == d;
                        let q = self.deps@[n]@[j] as int;
                        assert(now[q] == d);
                    }
                }
            }
            assert forall|p: int, j: int| 0 <= p < self.deps@.len() && 0 <= j
                < self.deps@[p]@.len() implies #[trigger] self.deps@[p]@[j] < p by {
                if p < n {
                    assert(self.deps@[p] == old(self).deps@[p]);
                }
            }
        }
        Ok(())
    }

    /// Which nodes lie in the causal history of the node at `p`.
    pub(super) fn history(&self, p: usize) -> (v: Vec<bool>)
        requires
            self.wf(),
            p < self.ids@.len(),
        ensures
            v@.len() == self.ids@.len(),
            forall|q: int|
                0 <= q < v@.len() ==> #[trigger] v@[q] == reaches(
                    self.graph(),
                    self.ids@[p as int],
                    self.ids@[q],
                ),
    {
        let ghost g = self.graph();
        let ghost ids = self.ids@;
        let mut v: Vec<bool> = Vec::new();
        let mut i: usize = 0;
        while i < self.ids.len()
            invariant
                i <= self.ids.len(),
                v@.len() == i,
                forall|q: int| 0 <= q < i ==> v@[q] == (q == p),
            decreases self.ids.len() - i,
        {
            v.push(i == p);
            i = i + 1;
        }
        let mut k: usize = p + 1;
        proof {
            self.lemma_at(p as int);
            lemma_reaches_self(g, ids[p as int]);
        }
        while k > 0
            invariant
                self.wf(),
                g == self.graph(),
                ids == self.ids@,
                p < ids.len(),
                k <= p + 1,
                v@.len() == ids.len(),
                v@[p as int],
                forall|q: int| 0 <= q < v@.len() && #[trigger] v@[q] ==> q <= p && reaches(g, ids[p as int], ids[q]),
                forall|q: int, j: int|
                    k <= q < v@.len() && v@[q] && 0 <= j < self.deps@[q]@.len()
                        ==> v@[#[trigger] self.deps@[q]@[j] as int],
            decreases k,
        {
            k = k - 1;
            if v[k] {
                let ghost before = v@;
                let mut j: usize = 0;
                while j < self.deps[k].len()
                    invariant
                        self.wf(),
                        g == self.graph(),
                        ids == self.ids@,
                        p < ids.len(),
                        k <= p,
                        k < ids.len(),
                        j <= self.deps@[k as int]@.len(),
                        v@.len() == ids.len(),
                        before.len() == ids.len(),
                        before[k as int],
                        reaches(g, ids[p as int], ids[k as int]),
                        v@[p as int],
                        forall|q: int| 0 <= q < v@.len() && before[q] ==> #[trigger] v@[q],
                        forall|q: int| k <= q < v@.len() ==> #[trigger] v@[q] == before[q],
                        forall|q: int|
                            0 <= q < v@.len() && #[trigger] v@[q] ==> q <= p && reaches(
                                g,
                                ids[p as int],
                                ids[q],
                            ),
                        forall|m: int|
                            0 <= m < j ==> v@[#[trigger] self.deps@[k as int]@[m] as int],
                    decreases self.deps@[k as int]@.len() - j,
                {
                    let d: usize = self.deps[k][j];
                    proof {
                        assert(self.deps@[k as int]@[j as int] < k);
                        self.lemma_at(k as int);
                        self.lemma_at(d as int);
                        assert(ids[self.deps@[k as int]@[j as int] as int] == ids[d as int]);
                        assert(g[ids[k as int]].contains(ids[d as int]));
                        lemma_reaches_self(g, ids[d as int]);
                        lemma_reaches_step(g, ids[k as int], ids[d as int], ids[d as int]);
                        super::graph::lemma_reaches_transitive(
                            g,
                            ids[p as int],
                            ids[k as int],
                            ids[d as int],
                        );
                    }
                    v.set(d, true);
                    j = j + 1;
                }
            }
        }
        proof {
            assert forall|q: int| 0 <= q < v@.len() && reaches(g, ids[p as int], ids[q]) implies #[trigger] v@[q] by {
                self.lemma_closed(v@, p as int, q);
            }
        }
        v
    }

    /// A set of positions that is closed under dependencies holds the whole history of
    /// each of its members.
    proof fn lemma_closed(&self, v: Seq<bool>, p: int, q: int)
        requires
            self.wf(),
            v.len() == self.ids@.len(),
            0 <= p < v.len(),
            0 <= q < v.len(),
            v[p],
            forall|a: int, j: int|
                0 <= a < v.len() && v[a] && 0 <= j < self.deps@[a]@.len()
                    ==> v[#[trigger] self.deps@[a]@[j] as int],
            reaches(self.graph(), self.ids@[p], self.ids@[q]),
        ensures
            v[q],
        decreases p,
    {
        if self.ids@[p] == self.ids@[q] {
            assert(p == q);
        } else {
            let c = lemma_reaches_first(self.graph(), self.ids@[p], self.ids@[q]);
            self.lemma_at(p);
            let j = choose|j: int|
                0 <= j < self.deps@[p]@.len() && self.ids@[#[trigger] self.deps@[p]@[j] as int] == c;
            let r = self.deps@[p]@[j] as int;
            assert(r < p);
            assert(v[r]);
            self.lemma_closed(v, r, q);
        }
    }

    /// Does node `a` causally see node `b`, that is, is `b` in `a`'s causal history
    /// (a node sees itself)?
    pub fn sees(&self, a: &NodeId, b: &NodeId) -> (r: bool)
        requires
            self.wf(),
        ensures
            r == sees(self.graph(), *a, *b),
    {
        if same_id(a, b) {
            return true;
        }
        proof {
            if reaches(self.graph(), *a, *b) {
                lemma_reaches_known(self.graph(), *a, *b);
            }
        }
        match (self.find(a), self.find(b)) {
            (Some(p), Some(q)) => {
                let h: Vec<bool> = self.history(p);
                h[q]
            },
            _ => false,
        }
    }

    /// The vector [`Clock`] of `node`: for every writer, the count of its nodes in
    /// `node`'s causal history. Empty for an unknown node.
    pub fn clock(&self, node: &NodeId) -> (c: Clock)
        requires
            self.wf(),
        ensures
            c.wf(),
            forall|key: WriterKey| length_in(c@, key) == #[trigger] seen_len(
                self.graph(),
                *node,
                key,
            ),
            forall|key: WriterKey| #[trigger] c@.contains_key(key) == (seen_len(
                self.graph(),
                *node,
                key,
            ) > 0),
    {
        let ghost g = self.graph();
        let mut c: Clock = Clock::default();
        let p: usize = match self.find(node) {
            None => {
                proof {
                    assert forall|key: WriterKey| #[trigger] seen_len(g, *node, key) == 0 by {
                        assert forall|s: u64| !reaches(g, *node, NodeId { key, seq: s }) by {
                            if reaches(g, *node, NodeId { key, seq: s }) {
                                lemma_reaches_known(g, *node, NodeId { key, seq: s });
                            }
                        }
                        lemma_seen_len(g, self.ids@, *node, key, 0);
                    }
                }
                return c;
            },
            Some(p) => p,
        };
        let h: Vec<bool> = self.history(p);
        let mut q: usize = 0;
        while q < self.ids.len()
            invariant
                self.wf(),
                g == self.graph(),
                p < self.ids@.len(),
                self.ids@[p as int] == *node,
                q <= self.ids.len(),
                h@.len() == self.ids@.len(),
                forall|q: int|
                    0 <= q < h@.len() ==> #[trigger] h@[q] == reaches(g, *node, self.ids@[q]),
                c.wf(),
                forall|key: WriterKey| #[trigger]
                    c@.contains_key(key) ==> c@[key] > 0 && reaches(
                        g,
                        *node,
                        NodeId { key, seq: (c@[key] - 1) as u64 },
                    ),
                forall|i: int|
                    0 <= i < q && h@[i] ==> (#[trigger] self.ids@[i]).seq < length_in(
                        c@,
                        self.ids@[i].key,
                    ),
            decreases self.ids.len() - q,
        {
            if h[q] {
                let id: NodeId = self.ids[q];
                proof {
                    lemma_seq_bound(g, self.ids@, q as int);
                }
                let ghost before = c@;
                c.raise(id.key, id.seq + 1);
                proof {
                    assert forall|key: WriterKey| #[trigger] c@.contains_key(key) implies c@[key]
                        > 0 && reaches(g, *node, NodeId { key, seq: (c@[key] - 1) as u64 }) by {
                        if key == id.key {
                            if id.seq + 1 > length_in(before, key) {
                                assert(NodeId { key, seq: (c@[key] - 1) as u64 } == id);
                            } else {
                                assert(before.contains_key(key));
                            }
                        } else {
                            assert(before.contains_key(key));
                        }
                    }
                    assert forall|i: int| 0 <= i < q + 1 && h@[i] implies (
                    #[trigger] self.ids@[i]).seq < length_in(c@, self.ids@[i].key) by {
                        if i < q {
                            assert(self.ids@[i].seq < length_in(before, self.ids@[i].key));
                        }
                    }
                }
            }
            q = q + 1;
        }
        proof {
            assert forall|key: WriterKey| length_in(c@, key) == #[trigger] seen_len(g, *node, key)
                && c@.contains_key(key) == (seen_len(g, *node, key) > 0) by {
                let n = length_in(c@, key);
                assert forall|s: u64| s >= n implies !reaches(g, *node, NodeId { key, seq: s }) by {
                    let x = NodeId { key, seq: s };
                    if reaches(g, *node, x) {
                        lemma_reaches_known(g, *node, x);
                        let i = lemma_position(g, self.ids@, x);
                        assert(h@[i]);
                        assert(self.ids@[i].seq < length_in(c@, self.ids@[i].key));
                    }
                }
                if n > 0 {
                    assert(c@.contains_key(key));
                }
                lemma_seen_len(g, self.ids@, *node, key, n);
            }
        }
        c
    }

    /// The flagged nodes in the order in which they come out when at each step the
    /// ready one with the least id is taken.
    pub(super) fn topo_key_order(&self, flags: Vec<bool>) -> (out: Vec<NodeId>)
        requires
            self.wf(),
            flags@.len() == self.ids@.len(),
        ensures
            out@ == topo(self.graph(), flagged(self.ids@, flags@)),
    {
        let ghost g = self.graph();
        let ghost ids = self.ids@;
        let ghost start = flagged(ids, flags@);
        let mut rest: Vec<bool> = flags;
        let mut out: Vec<NodeId> = Vec::new();
        let ghost mut left: nat = ids.len();
        proof {
            assert(out@ + topo(g, start) =~= topo(g, start));
            lemma_flagged(ids, rest@);
        }
        loop
            invariant
                self.wf(),
                g == self.graph(),
                ids == self.ids@,
                rest@.len() == ids.len(),
                out@ + topo(g, flagged(ids, rest@)) == topo(g, start),
            ensures
                out@ == topo(g, start),
            decreases flagged(ids, rest@).len(),
        {
            proof {
                lemma_flagged(ids, rest@);
            }
            let mut best: Option<usize> = None;
            let mut p: usize = 0;
            while p < self.ids.len()
                invariant
                    self.wf(),
                    g == self.graph(),
                    ids == self.ids@,
                    p <= ids.len(),
                    rest@.len() == ids.len(),
                    match best {
                        Some(b) => b < ids.len() && ready(g, flagged(ids, rest@), ids[b as int])
                            && forall|q: int|
                            0 <= q < p && ready(g, flagged(ids, rest@), #[trigger] ids[q])
                                ==> ids[q] == ids[b as int] || id_lt(ids[b as int], ids[q]),
                        None => forall|q: int|
                            0 <= q < p ==> !ready(g, flagged(ids, rest@), #[trigger] ids[q]),
                    },
                decreases self.ids.len() - p,
            {
                let is_ready: bool = self.is_ready(&rest, p);
                if is_ready {
                    let better: bool = match best {
                        None => true,
                        Some(b) => id_less(&self.ids[p], &self.ids[b]),
                    };
                    proof {
                        match best {
                            Some(b) => {
                                lemma_id_total(ids[p as int], ids[b as int]);
                                assert forall|q: int| 0 <= q < p && ready(
                                    g,
                                    flagged(ids, rest@),
                                    #[trigger] ids[q],
                                ) && better implies ids[q] == ids[p as int] || id_lt(
                                    ids[p as int],
                                    ids[q],
                                ) by {
                                    if ids[q] != ids[b as int] {
                                        lemma_id_transitive(
                                            ids[p as int],
                                            ids[b as int],
                                            ids[q],
                                        );
                                    }
                                }
                            },
                            None => {},
                        }
                    }
                    if better {
                        best = Some(p);
                    }
                }
                p = p + 1;
            }
            match best {
                None => {
                    proof {
                        let s = flagged(ids, rest@);
                        if exists|n: NodeId| is_next(g, s, n) {
                            let n = choose|n: NodeId| is_next(g, s, n);
                            let q = choose|q: int|
                                0 <= q < ids.len() && rest@[q] && #[trigger] ids[q] == n;
                            assert(!ready(g, s, ids[q]));
                        }
                        assert(out@ =~= out@ + Seq::<NodeId>::empty());
                    }
                    break;
                },
                Some(b) => {
                    let n: NodeId = self.ids[b];
                    let ghost s = flagged(ids, rest@);
                    let ghost before = out@;
                    let ghost old_rest = rest@;
                    proof {
                        assert forall|m: NodeId| #[trigger] ready(g, s, m) implies m == n || id_lt(
                            n,
                            m,
                        ) by {
                            let q = choose|q: int|
                                0 <= q < ids.len() && rest@[q] && #[trigger] ids[q] == m;
                            assert(ready(g, s, ids[q]));
                        }
                        assert(is_next(g, s, n));
                        lemma_topo_step(g, s, n);
                    }
                    out.push(n);
                    rest.set(b, false);
                    proof {
                        lemma_unflag(ids, old_rest, b as int);
                        assert(before + (seq![n] + topo(g, s.remove(n))) =~= out@ + topo(
                            g,
                            s.remove(n),
                        ));
                    }
                },
            }
        }
        out
    }

    /// Whether nothing the node at `p` depends on is still flagged.
    fn is_ready(&self, rest: &Vec<bool>, p: usize) -> (r: bool)
        requires
            self.wf(),
            rest@.len() == self.ids@.len(),
            p < self.ids@.len(),
        ensures
            r == ready(self.graph(), flagged(self.ids@, rest@), self.ids@[p as int]),
    {
        let ghost g = self.graph();
        let ghost ids = self.ids@;
        proof {
            self.lemma_at(p as int);
        }
        if !rest[p] {
            proof {
                if flagged(ids, rest@).contains(ids[p as int]) {
                    let q = choose|q: int|
                        0 <= q < ids.len() && rest@[q] && #[trigger] ids[q] == ids[p as int];
                    assert(q == p);
                }
            }
            return false;
        }
        let mut j: usize = 0;
        while j < self.deps[p].len()
            invariant
                self.wf(),
                ids == self.ids@,
                rest@.len() == ids.len(),
                p < ids.len(),
                g == self.graph(),
                g[ids[p as int]] == at_positions(ids, self.deps@[p as int]@),
                j <= self.deps@[p as int]@.len(),
                forall|m: int|
                    0 <= m < j ==> !rest@[#[trigger] self.deps@[p as int]@[m] as int],
            decreases self.deps@[p as int]@.len() - j,
        {
            let d: usize = self.deps[p][j];
            assert(self.deps@[p as int]@[j as int] < p);
            if rest[d] {
                proof {
                    assert(ids[self.deps@[p as int]@[j as int] as int] == ids[d as int]);
                    assert(g[ids[p as int]].contains(ids[d as int]));
                    assert(flagged(ids, rest@).contains(ids[d as int]));
                }
                return false;
            }
            j = j + 1;
        }
        proof {
            assert(flagged(ids, rest@).contains(ids[p as int]));
            assert forall|d: NodeId| #[trigger] g[ids[p as int]].contains(d) implies !flagged(
                ids,
                rest@,
            ).contains(d) by {
                let m = choose|m: int|
                    0 <= m < self.deps@[p as int]@.len()
                        && ids[#[trigger] self.deps@[p as int]@[m] as int] == d;
                let at = self.deps@[p as int]@[m] as int;
                assert(at < p);
                if flagged(ids, rest@).contains(d) {
                    let q = choose|q: int|
                        0 <= q < ids.len() && rest@[q] && #[trigger] ids[q] == d;
                    assert(q == at);
                }
            }
        }
        true
    }

    /// Pure key-tiebreak linearization over all nodes: at each step the causally-ready
    /// node with the least id.
    pub fn plain_order(&self) -> (out: Vec<NodeId>)
        requires
            self.wf(),
        ensures
            out@ == topo(self.graph(), self.graph().dom()),
    {
        let mut flags: Vec<bool> = Vec::new();
        let mut i: usize = 0;
        while i < self.ids.len()
            invariant
                i <= self.ids.len(),
                flags@.len() == i,
                forall|q: int| 0 <= q < i ==> flags@[q],
            decreases self.ids.len() - i,
        {
            flags.push(true);
            i = i + 1;
        }
        proof {
            assert forall|n: NodeId| flagged(self.ids@, flags@).contains(n)
                == self.graph().dom().contains(n) by {
                if self.ids@.contains(n) {
                    let q = choose|q: int| 0 <= q < self.ids@.len() && self.ids@[q] == n;
                    assert(flags@[q] && self.ids@[q] == n);
                }
            }
            assert(flagged(self.ids@, flags@) =~= self.graph().dom());
        }
        self.topo_key_order(flags)
    }

    /// Tails: the nodes with no dependencies, in ascending order.
    pub fn tails(&self) -> (out: Vec<NodeId>)
        requires
            self.wf(),
        ensures
            sorted_ids(out@),
            forall|n: NodeId| #[trigger]
                out@.contains(n) <==> self.graph().contains_key(n) && self.graph()[n]
                    == Set::<NodeId>::empty(),
            out@ == tails_of(self.graph()),
    {
        let mut out: Vec<NodeId> = Vec::new();
        let mut p: usize = 0;
        let ghost g = self.graph();
        while p < self.ids.len()
            invariant
                self.wf(),
                g == self.graph(),
                p <= self.ids.len(),
                sorted_ids(out@),
                forall|n: NodeId| #[trigger]
                    out@.to_set().contains(n) ==> g.contains_key(n) && g[n] == Set::<
                        NodeId,
                    >::empty(),
                forall|q: int|
                    0 <= q < p && g[#[trigger] self.ids@[q]] == Set::<NodeId>::empty()
                        ==> out@.to_set().contains(self.ids@[q]),
            decreases self.ids.len() - p,
        {
            proof {
                self.lemma_at(p as int);
                let s = at_positions(self.ids@, self.deps@[p as int]@);
                if self.deps@[p as int]@.len() == 0 {
                    assert(s =~= Set::<NodeId>::empty());
                } else {
                    let d = self.deps@[p as int]@[0];
                    assert(s.contains(self.ids@[self.deps@[p as int]@[0] as int]));
                }
            }
            if self.deps[p].len() == 0 {
                insert_id(&mut out, self.ids[p]);
            }
            p = p + 1;
        }
        proof {
            assert forall|n: NodeId| #[trigger] out@.contains(n) <==> g.contains_key(n) && g[n] == Set::<
                NodeId,
            >::empty() by {
                assert(out@.to_set().contains(n) == out@.contains(n));
                if g.contains_key(n) && g[n] == Set::<NodeId>::empty() {
                    let q = lemma_position(g, self.ids@, n);
                    assert(out@.to_set().contains(self.ids@[q]));
                }
            }
            assert(out@.to_set() =~= Set::new(
                |n: NodeId| g.contains_key(n) && g[n] == Set::<NodeId>::empty(),
            ));
            lemma_in_order(out@);
        }
        out
    }

    /// The nodes that no other depends on: what a new node has to build on to see
    /// everything.
    pub fn frontier(&self) -> (out: Vec<NodeId>)
        requires
            self.wf(),
        ensures
            sorted_ids(out@),
            forall|n: NodeId| #[trigger]
                out@.contains(n) <==> self.graph().contains_key(n) && !covered(self.graph(), n),
            out@ == frontier_of(self.graph()),
    {
        let ghost g = self.graph();
        let mut out: Vec<NodeId> = Vec::new();
        let mut p: usize = 0;
        while p < self.ids.len()
            invariant
                self.wf(),
                g == self.graph(),
                p <= self.ids.len(),
                sorted_ids(out@),
                forall|n: NodeId| #[trigger]
                    out@.to_set().contains(n) ==> g.contains_key(n) && !covered(g, n),
                forall|q: int|
                    0 <= q < p && !covered(g, #[trigger] self.ids@[q]) ==> out@.to_set().contains(
                        self.ids@[q],
                    ),
            decreases self.ids.len() - p,
        {
            let is_covered: bool = self.is_covered(p);
            proof {
                self.lemma_at(p as int);
            }
            if !is_covered {
                insert_id(&mut out, self.ids[p]);
            }
            p = p + 1;
        }
        proof {
            assert forall|n: NodeId| #[trigger] out@.contains(n) <==> g.contains_key(n) && !covered(
                g,
                n,
            ) by {
                assert(out@.to_set().contains(n) == out@.contains(n));
                if g.contains_key(n) && !covered(g, n) {
                    let q = lemma_position(g, self.ids@, n);
                    assert(out@.to_set().contains(self.ids@[q]));
                }
            }
            assert(out@.to_set() =~= Set::new(
                |n: NodeId| g.contains_key(n) && !covered(g, n),
            ));
            lemma_in_order(out@);
        }
        out
    }

    /// Whether some node depends on the node at position `p`.
    fn is_covered(&self, p: usize) -> (b: bool)
        requires
            self.wf(),
            p < self.arrivals().len(),
        ensures
            b == covered(self.graph(), self.arrivals()[p as int]),
    {
        let ghost g = self.graph();
        let ghost n = self.ids@[p as int];
        let mut q: usize = 0;
        while q < self.ids.len()
            invariant
                self.wf(),
                g == self.graph(),
                n == self.ids@[p as int],
                p < self.ids.len(),
                q <= self.ids.len(),
                forall|k: int| 0 <= k < q ==> !g[#[trigger] self.ids@[k]].contains(n),
            decreases self.ids.len() - q,
        {
            proof {
                self.lemma_at(q as int);
            }
            let mut j: usize = 0;
            while j < self.deps[q].len()
                invariant
                    self.wf(),
                    q < self.ids.len(),
                    p < self.ids.len(),
                    n == self.ids@[p as int],
                    g == self.graph(),
                    g.contains_key(self.ids@[q as int]),
                    g[self.ids@[q as int]] == at_positions(self.ids@, self.deps@[q as int]@),
                    j <= self.deps@[q as int]@.len(),
                    forall|k: int|
                        0 <= k < j ==> self.ids@[#[trigger] self.deps@[q as int]@[k] as int] != n,
                decreases self.deps@[q as int]@.len() - j,
            {
                if self.deps[q][j] == p {
                    assert(self.ids@[self.deps@[q as int]@[j as int] as int] == n);
                    assert(g[self.ids@[q as int]].contains(n));
                    return true;
                }
                proof {
                    let d = self.deps@[q as int]@[j as int] as int;
                    assert(self.ids@[d] != n) by {
                        if self.ids@[d] == n {
                            assert(d == p);
                        }
                    }
                }
                j = j + 1;
            }
            q = q + 1;
        }
        proof {
            if covered(g, n) {
                let m = choose|m: NodeId| #[trigger] g.contains_key(m) && g[m].contains(n);
                let k = lemma_position(g, self.ids@, m);
                assert(g[self.ids@[k]].contains(n));
            }
        }
        false
    }

    /// Majority of the indexer set (`n / 2 + 1`), or `None` when quorum is disabled.
    pub(super) fn majority(&self) -> (m: Option<usize>)
        ensures
            match m {
                Some(m) => self.voters() matches Some(v) && m == v.len() / 2 + 1,
                None => self.voters() is None,
            },
    {
        match &self.indexers {
            None => None,
            Some(v) => Some(v.len() / 2 + 1),
        }
    }
}

proof fn lemma_first_missing(g: Deps, heads: Seq<NodeId>, k: int)
    requires
        0 <= k <= heads.len(),
        first_missing(g, heads.take(k)) is Some,
    ensures
        first_missing(g, heads) == first_missing(g, heads.take(k)),
    decreases heads.len(),
{
    if k == heads.len() {
        assert(heads.take(k) =~= heads);
    } else {
        let t = heads.drop_last();
        assert(t.take(k) =~= heads.take(k));
        lemma_first_missing(g, t, k);
    }
}

proof fn lemma_positions_grow(a: Seq<NodeId>, b: Seq<NodeId>, positions: Seq<usize>, p: int)
    requires
        p <= a.len() <= b.len(),
        forall|k: int| 0 <= k < a.len() ==> a[k] == b[k],
        forall|j: int| 0 <= j < positions.len() ==> #[trigger] positions[j] < p,
    ensures
        at_positions(a, positions) == at_positions(b, positions),
{
    assert forall|d: NodeId| at_positions(a, positions).contains(d) == at_positions(
        b,
        positions,
    ).contains(d) by {
        if at_positions(a, positions).contains(d) {
            let j = choose|j: int| 0 <= j < positions.len() && a[#[trigger] positions[j] as int] == d;
            assert(b[positions[j] as int] == d);
        }
        if at_positions(b, positions).contains(d) {
            let j = choose|j: int| 0 <= j < positions.len() && b[#[trigger] positions[j] as int] == d;
            assert(a[positions[j] as int] == d);
        }
    }
    assert(at_positions(a, positions) =~= at_positions(b, positions));
}

/// The flagged nodes are finitely many.
pub(super) proof fn lemma_flagged(ids: Seq<NodeId>, flags: Seq<bool>)
    ensures
        flagged(ids, flags).finite(),
        flagged(ids, flags).subset_of(ids.to_set()),
{
    assert forall|n: NodeId| flagged(ids, flags).contains(n) implies ids.to_set().contains(n) by {
        let p = choose|p: int| 0 <= p < ids.len() && flags[p] && #[trigger] ids[p] == n;
        assert(ids.contains(n));
    }
    vstd::set_lib::lemma_set_subset_finite(ids.to_set(), flagged(ids, flags));
}

proof fn lemma_unflag(ids: Seq<NodeId>, flags: Seq<bool>, b: int)
    requires
        ids.no_duplicates(),
        flags.len() == ids.len(),
        0 <= b < ids.len(),
        flags[b] || flagged(ids, flags).contains(ids[b]),
    ensures
        flagged(ids, flags.update(b, false)) == flagged(ids, flags).remove(ids[b]),
        flagged(ids, flags).contains(ids[b]),
{
    let now = flags.update(b, false);
    if flags[b] {
        assert(ids[b] == ids[b]);
    }
    assert forall|n: NodeId| flagged(ids, now).contains(n) == flagged(ids, flags).remove(
        ids[b],
    ).contains(n) by {
        if flagged(ids, now).contains(n) {
            let p = choose|p: int| 0 <= p < ids.len() && now[p] && #[trigger] ids[p] == n;
            assert(flags[p] && ids[p] == n);
            assert(p != b);
        }
        if flagged(ids, flags).contains(n) && n != ids[b] {
            let p = choose|p: int| 0 <= p < ids.len() && flags[p] && #[trigger] ids[p] == n;
            assert(now[p] && ids[p] == n);
        }
    }
    assert(flagged(ids, now) =~= flagged(ids, flags).remove(ids[b]));
}

} // verus!
