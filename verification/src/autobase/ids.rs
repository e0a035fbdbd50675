//! Writer keys, node ids and their order.
use vstd::prelude::*;
use crate::bytes::same_32;

verus! {

/// A writer's 32-byte public key.
pub type WriterKey = [u8; 32];

/// A node's stable id: its writer and its place in that writer's log. Ordered by key,
/// then by `seq`.
#[derive(Clone, Copy, Debug, PartialEq, Eq, PartialOrd, Ord, Hash)]
pub struct NodeId {
    pub key: WriterKey,
    pub seq: u64,
}

impl NodeId {
    pub fn new(key: WriterKey, seq: u64) -> (id: Self)
        ensures
            id == (NodeId { key, seq }),
    {
        NodeId { key, seq }
    }
}

/// `a` comes before `b` byte by byte.
pub open spec fn key_lt(a: WriterKey, b: WriterKey) -> bool {
    exists|k: int| #[trigger] first_less(a, b, k)
}

/// `a` and `b` first differ at `k`, where `a` is less.
pub open spec fn first_less(a: WriterKey, b: WriterKey, k: int) -> bool {
    0 <= k < 32 && a@[k] < b@[k] && forall|j: int| 0 <= j < k ==> a@[j] == b@[j]
}

/// The order of node ids: key, then `seq`.
pub open spec fn id_lt(a: NodeId, b: NodeId) -> bool {
    key_lt(a.key, b.key) || (a.key == b.key && a.seq < b.seq)
}

pub proof fn lemma_key_irreflexive(a: WriterKey)
    ensures
        !key_lt(a, a),
{
}

pub proof fn lemma_key_total(a: WriterKey, b: WriterKey)
    ensures
        a == b || key_lt(a, b) || key_lt(b, a),
{
    if a != b {
        if a@ =~= b@ {
            assert(a =~= b);
        }
        let k = lemma_first_difference(a, b, 0);
        if a@[k] < b@[k] {
            assert(first_less(a, b, k));
        } else {
            assert(first_less(b, a, k));
        }
    }
}

proof fn lemma_first_difference(a: WriterKey, b: WriterKey, from: int) -> (k: int)
    requires
        0 <= from <= 32,
        a@ != b@,
        forall|j: int| 0 <= j < from ==> a@[j] == b@[j],
    ensures
        0 <= k < 32,
        a@[k] != b@[k],
        forall|j: int| 0 <= j < k ==> a@[j] == b@[j],
    decreases 32 - from,
{
    if from == 32 {
        assert(a@ =~= b@);
        0
    } else if a@[from] != b@[from] {
        from
    } else {
        lemma_first_difference(a, b, from + 1)
    }
}

pub proof fn lemma_key_asymmetric(a: WriterKey, b: WriterKey)
    requires
        key_lt(a, b),
    ensures
        !key_lt(b, a),
        a != b,
{
    let k = choose|k: int| #[trigger] first_less(a, b, k);
    if key_lt(b, a) {
        let m = choose|m: int| #[trigger] first_less(b, a, m);
        if k < m {
            assert(a@[k] == b@[k]);
        } else if m < k {
            assert(a@[m] == b@[m]);
        }
    }
}

pub proof fn lemma_key_transitive(a: WriterKey, b: WriterKey, c: WriterKey)
    requires
        key_lt(a, b),
        key_lt(b, c),
    ensures
        key_lt(a, c),
{
    let k = choose|k: int| #[trigger] first_less(a, b, k);
    let m = choose|m: int| #[trigger] first_less(b, c, m);
    let j = if k < m {
        k
    } else {
        m
    };
    assert(first_less(a, c, j));
}

pub proof fn lemma_id_total(a: NodeId, b: NodeId)
    ensures
        a == b || id_lt(a, b) || id_lt(b, a),
        !id_lt(a, a),
        id_lt(a, b) ==> !id_lt(b, a) && a != b,
{
    lemma_key_total(a.key, b.key);
    lemma_key_irreflexive(a.key);
    if key_lt(a.key, b.key) {
        lemma_key_asymmetric(a.key, b.key);
    }
    if key_lt(b.key, a.key) {
        lemma_key_asymmetric(b.key, a.key);
    }
}

pub proof fn lemma_id_transitive(a: NodeId, b: NodeId, c: NodeId)
    requires
        id_lt(a, b),
        id_lt(b, c),
    ensures
        id_lt(a, c),
{
    if key_lt(a.key, b.key) && key_lt(b.key, c.key) {
        lemma_key_transitive(a.key, b.key, c.key);
    }
}

/// Whether `a` comes before `b`.
pub fn key_less(a: &WriterKey, b: &WriterKey) -> (r: bool)
    ensures
        r == key_lt(*a, *b),
{
    let mut i: usize = 0;
    while i < 32
        invariant
            i <= 32,
            forall|j: int| 0 <= j < i ==> a@[j] == b@[j],
        decreases 32 - i,
    {
        if a[i] < b[i] {
            assert(first_less(*a, *b, i as int));
            return true;
        }
        if a[i] > b[i] {
            proof {
                assert(first_less(*b, *a, i as int));
                lemma_key_asymmetric(*b, *a);
            }
            return false;
        }
        i = i + 1;
    }
    proof {
        assert(a@ =~= b@);
        assert(*a =~= *b);
        lemma_key_irreflexive(*a);
    }
    false
}

/// Whether `a` comes before `b`.
pub fn id_less(a: &NodeId, b: &NodeId) -> (r: bool)
    ensures
        r == id_lt(*a, *b),
{
    if same_32(&a.key, &b.key) {
        proof {
            lemma_key_irreflexive(a.key);
        }
        a.seq < b.seq
    } else {
        key_less(&a.key, &b.key)
    }
}

/// Whether two ids are equal.
pub fn same_id(a: &NodeId, b: &NodeId) -> (r: bool)
    ensures
        r == (*a == *b),
{
    a.seq == b.seq && same_32(&a.key, &b.key)
}

/// Strictly ascending ids.
pub open spec fn sorted_ids(s: Seq<NodeId>) -> bool {
    forall|i: int, j: int| 0 <= i < j < s.len() ==> id_lt(#[trigger] s[i], #[trigger] s[j])
}

/// Strictly ascending keys.
pub open spec fn sorted_keys(s: Seq<WriterKey>) -> bool {
    forall|i: int, j: int| 0 <= i < j < s.len() ==> key_lt(#[trigger] s[i], #[trigger] s[j])
}

/// The members of a set of ids in ascending order.
pub open spec fn in_order(s: Set<NodeId>) -> Seq<NodeId> {
    choose|v: Seq<NodeId>| sorted_ids(v) && v.to_set() == s
}

/// The members of a set of keys in ascending order.
pub open spec fn keys_in_order(s: Set<WriterKey>) -> Seq<WriterKey> {
    choose|v: Seq<WriterKey>| sorted_keys(v) && v.to_set() == s
}

/// An ascending sequence is the one that [`in_order`] names for its members.
pub proof fn lemma_in_order(v: Seq<NodeId>)
    requires
        sorted_ids(v),
    ensures
        in_order(v.to_set()) == v,
{
    let w = in_order(v.to_set());
    assert(sorted_ids(w) && w.to_set() == v.to_set());
    lemma_sorted_unique(v, w);
}

/// A node has a place in an ascending sequence that it is not in.
proof fn lemma_sorted_insert(w: Seq<NodeId>, x: NodeId) -> (v: Seq<NodeId>)
    requires
        sorted_ids(w),
        !w.contains(x),
    ensures
        sorted_ids(v),
        v.to_set() == w.to_set().insert(x),
    decreases w.len(),
{
    if w.len() == 0 || id_lt(w.last(), x) {
        let v = w.push(x);
        assert forall|i: int, j: int| 0 <= i < j < v.len() implies id_lt(
            #[trigger] v[i],
            #[trigger] v[j],
        ) by {
            if j == w.len() && i < w.len() - 1 {
                assert(id_lt(w[i], w[w.len() - 1]));
                lemma_id_transitive(w[i], w.last(), x);
            }
        }
        assert forall|y: NodeId| v.to_set().contains(y) == w.to_set().insert(x).contains(y) by {
            if w.contains(y) {
                assert(v[w.index_of(y)] == y);
            }
            assert(v[w.len() as int] == x);
            if v.contains(y) && y != x {
                assert(w[v.index_of(y)] == y);
            }
        }
        assert(v.to_set() =~= w.to_set().insert(x));
        v
    } else {
        let less = w.drop_last();
        let last = w.last();
        assert(w[w.len() - 1] == last);
        if less.contains(x) {
            assert(w[less.index_of(x)] == x);
        }
        lemma_id_total(last, x);
        let u = lemma_sorted_insert(less, x);
        let v = u.push(last);
        assert forall|i: int, j: int| 0 <= i < j < v.len() implies id_lt(
            #[trigger] v[i],
            #[trigger] v[j],
        ) by {
            if j == u.len() {
                assert(u.to_set().contains(u[i]));
                if u[i] != x {
                    let k = less.index_of(u[i]);
                    assert(id_lt(w[k], w[w.len() - 1]));
                }
            }
        }
        assert forall|y: NodeId| v.to_set().contains(y) == w.to_set().insert(x).contains(y) by {
            assert(u.to_set().contains(y) == less.to_set().insert(x).contains(y));
            if less.contains(y) {
                assert(w[less.index_of(y)] == y);
            }
            if w.contains(y) && y != last {
                assert(less[w.index_of(y)] == y);
            }
            if u.contains(y) {
                assert(v[u.index_of(y)] == y);
            }
            assert(v[u.len() as int] == last);
            if v.contains(y) && y != last {
                assert(u[v.index_of(y)] == y);
            }
        }
        assert(v.to_set() =~= w.to_set().insert(x));
        v
    }
}

proof fn lemma_sorted_exists(s: Set<NodeId>) -> (v: Seq<NodeId>)
    requires
        s.finite(),
    ensures
        sorted_ids(v),
        v.to_set() == s,
    decreases s.len(),
{
    if s.len() == 0 {
        let v = Seq::<NodeId>::empty();
        assert(v.to_set() =~= s);
        v
    } else {
        let x = s.choose();
        let w = lemma_sorted_exists(s.remove(x));
        assert(!w.contains(x)) by {
            assert(!w.to_set().contains(x));
        }
        assert(s.remove(x).insert(x) =~= s);
        lemma_sorted_insert(w, x)
    }
}

/// The ascending sequence of a finite set has its members.
pub proof fn lemma_in_order_of(s: Set<NodeId>)
    requires
        s.finite(),
    ensures
        sorted_ids(in_order(s)),
        in_order(s).to_set() == s,
{
    let v = lemma_sorted_exists(s);
    assert(sorted_ids(v) && v.to_set() == s);
}

proof fn lemma_sorted_unique(a: Seq<NodeId>, b: Seq<NodeId>)
    requires
        sorted_ids(a),
        sorted_ids(b),
        a.to_set() == b.to_set(),
    ensures
        a == b,
    decreases a.len(),
{
    if a.len() == 0 {
        if b.len() > 0 {
            assert(b.to_set().contains(b[0]));
            assert(a.contains(b[0]));
        }
        assert(a =~= b);
    } else {
        assert(a.to_set().contains(a.last()));
        assert(b.contains(a.last()));
        let k = choose|k: int| 0 <= k < b.len() && b[k] == a.last();
        assert(b.to_set().contains(b.last()));
        assert(a.contains(b.last()));
        let l = choose|l: int| 0 <= l < a.len() && a[l] == b.last();
        lemma_id_total(a.last(), b.last());
        if k < b.len() - 1 {
            assert(id_lt(b[k], b[b.len() - 1]));
            assert(id_lt(a[l], a[a.len() - 1]) || l == a.len() - 1);
        }
        assert(a.last() == b.last());
        let x = a.drop_last();
        let y = b.drop_last();
        assert forall|v: NodeId| x.to_set().contains(v) == y.to_set().contains(v) by {
            if x.contains(v) {
                let i = choose|i: int| 0 <= i < x.len() && x[i] == v;
                assert(id_lt(a[i], a[a.len() - 1]));
                lemma_id_total(v, a.last());
                assert(a.contains(v)) by {
                    assert(a[i] == v);
                }
                assert(a.to_set().contains(v));
                assert(b.contains(v));
                let j = choose|j: int| 0 <= j < b.len() && b[j] == v;
                assert(y[j] == v);
            }
            if y.contains(v) {
                let i = choose|i: int| 0 <= i < y.len() && y[i] == v;
                assert(id_lt(b[i], b[b.len() - 1]));
                lemma_id_total(v, b.last());
                assert(b.contains(v)) by {
                    assert(b[i] == v);
                }
                assert(b.to_set().contains(v));
                assert(a.contains(v));
                let j = choose|j: int| 0 <= j < a.len() && a[j] == v;
                assert(x[j] == v);
            }
        }
        assert(x.to_set() =~= y.to_set());
        lemma_sorted_unique(x, y);
        assert(a =~= x.push(a.last()));
        assert(b =~= y.push(b.last()));
    }
}

/// Keys can be put in order.
pub proof fn lemma_keys_exist(named: Seq<WriterKey>) -> (v: Seq<WriterKey>)
    ensures
        sorted_keys(v),
        v.to_set() == named.to_set(),
{
    let f = |k: WriterKey| NodeId { key: k, seq: 0 };
    let ids = named.map_values(f);
    let s = lemma_sorted_exists(ids.to_set());
    let v = s.map_values(|n: NodeId| n.key);
    assert forall|i: int| 0 <= i < s.len() implies (#[trigger] s[i]).seq == 0 by {
        assert(s.to_set().contains(s[i]));
        assert(ids.contains(s[i]));
        assert(ids[ids.index_of(s[i])] == s[i]);
    }
    assert forall|i: int, j: int| 0 <= i < j < v.len() implies key_lt(
        #[trigger] v[i],
        #[trigger] v[j],
    ) by {
        assert(id_lt(s[i], s[j]));
        assert(s[i].seq == 0 && s[j].seq == 0);
    }
    assert forall|k: WriterKey| #[trigger] v.to_set().contains(k) <==> named.to_set().contains(k) by {
        if v.contains(k) {
            let i = v.index_of(k);
            assert(s.to_set().contains(s[i]));
            assert(ids.contains(s[i]));
            let j = ids.index_of(s[i]);
            assert(named[j] == k);
        }
        if named.contains(k) {
            let j = named.index_of(k);
            assert(ids[j] == f(k));
            assert(ids.to_set().contains(f(k)));
            assert(s.to_set().contains(f(k)));
            let i = s.index_of(f(k));
            assert(v[i] == k);
        }
    }
    assert(v.to_set() =~= named.to_set());
    v
}

/// An ascending sequence of keys is the one that [`keys_in_order`] names.
pub proof fn lemma_keys_in_order(v: Seq<WriterKey>)
    requires
        sorted_keys(v),
    ensures
        keys_in_order(v.to_set()) == v,
{
    let w = keys_in_order(v.to_set());
    assert(sorted_keys(w) && w.to_set() == v.to_set());
    let f = |k: WriterKey| NodeId { key: k, seq: 0 };
    let a = v.map_values(f);
    let b = w.map_values(f);
    assert forall|i: NodeId| a.to_set().contains(i) == b.to_set().contains(i) by {
        if a.contains(i) {
            let k = choose|k: int| 0 <= k < a.len() && a[k] == i;
            assert(v.to_set().contains(v[k]));
            assert(w.contains(v[k]));
            let j = choose|j: int| 0 <= j < w.len() && w[j] == v[k];
            assert(b[j] == i);
        }
        if b.contains(i) {
            let k = choose|k: int| 0 <= k < b.len() && b[k] == i;
            assert(w.to_set().contains(w[k]));
            assert(v.contains(w[k]));
            let j = choose|j: int| 0 <= j < v.len() && v[j] == w[k];
            assert(a[j] == i);
        }
    }
    assert(a.to_set() =~= b.to_set());
    lemma_sorted_unique(a, b);
    assert forall|k: int| 0 <= k < v.len() implies v[k] == w[k] by {
        assert(a[k].key == v[k]);
        assert(b[k].key == w[k]);
    }
    assert(v.len() == a.len() && w.len() == b.len());
    assert(v =~= w);
}

/// Put `x` into its place among ascending ids, unless it is there.
pub fn insert_id(v: &mut Vec<NodeId>, x: NodeId)
    requires
        sorted_ids(old(v)@),
    ensures
        sorted_ids(final(v)@),
        final(v)@.to_set() == old(v)@.to_set().insert(x),
{
    let ghost before = v@;
    let mut i: usize = 0;
    while i < v.len() && id_less(&v[i], &x)
        invariant
            i <= v.len(),
            v@ == before,
            forall|j: int| 0 <= j < i ==> id_lt(#[trigger] v@[j], x),
        decreases v.len() - i,
    {
        i = i + 1;
    }
    if i < v.len() && same_id(&v[i], &x) {
        proof {
            assert(before.contains(x)) by {
                assert(before[i as int] == x);
            }
            assert(before.to_set() =~= before.to_set().insert(x));
        }
        return ;
    }
    v.insert(i, x);
    proof {
        assert(v@ == before.insert(i as int, x));
        assert forall|a: int, b: int| 0 <= a < b < v@.len() implies id_lt(
            #[trigger] v@[a],
            #[trigger] v@[b],
        ) by {
            let n = i as int;
            if n < before.len() {
                lemma_id_total(before[n], x);
            }
            if b < n {
            } else if a < n && b > n {
                assert(v@[b] == before[b - 1]);
                assert(id_lt(before[a], before[b - 1]));
            } else if a == n {
                assert(v@[b] == before[b - 1]);
                if b - 1 > n {
                    assert(id_lt(before[n], before[b - 1]));
                    lemma_id_transitive(x, before[n], before[b - 1]);
                }
            } else if a > n {
                assert(v@[a] == before[a - 1] && v@[b] == before[b - 1]);
            }
        }
        assert forall|y: NodeId| v@.to_set().contains(y) == before.to_set().insert(x).contains(
            y,
        ) by {
            if v@.contains(y) {
                let k = choose|k: int| 0 <= k < v@.len() && v@[k] == y;
                if k < i {
                    assert(before[k] == y);
                } else if k > i {
                    assert(before[k - 1] == y);
                }
            }
            if before.contains(y) {
                let k = choose|k: int| 0 <= k < before.len() && before[k] == y;
                if k < i {
                    assert(v@[k] == y);
                } else {
                    assert(v@[k + 1] == y);
                }
            }
            assert(v@[i as int] == x);
        }
        assert(v@.to_set() =~= before.to_set().insert(x));
    }
}

/// Put `x` into its place among ascending keys, unless it is there.
pub fn insert_key(v: &mut Vec<WriterKey>, x: WriterKey)
    requires
        sorted_keys(old(v)@),
    ensures
        sorted_keys(final(v)@),
        final(v)@.to_set() == old(v)@.to_set().insert(x),
{
    let ghost before = v@;
    let mut i: usize = 0;
    while i < v.len() && key_less(&v[i], &x)
        invariant
            i <= v.len(),
            v@ == before,
            forall|j: int| 0 <= j < i ==> key_lt(#[trigger] v@[j], x),
        decreases v.len() - i,
    {
        i = i + 1;
    }
    if i < v.len() && same_32(&v[i], &x) {
        proof {
            assert(before.contains(x)) by {
                assert(before[i as int] == x);
            }
            assert(before.to_set() =~= before.to_set().insert(x));
        }
        return ;
    }
    v.insert(i, x);
    proof {
        assert(v@ == before.insert(i as int, x));
        assert forall|a: int, b: int| 0 <= a < b < v@.len() implies key_lt(
            #[trigger] v@[a],
            #[trigger] v@[b],
        ) by {
            let n = i as int;
            if n < before.len() {
                lemma_key_total(before[n], x);
            }
            if b < n {
            } else if a < n && b > n {
                assert(v@[b] == before[b - 1]);
                assert(key_lt(before[a], before[b - 1]));
            } else if a == n {
                assert(v@[b] == before[b - 1]);
                if b - 1 > n {
                    assert(key_lt(before[n], before[b - 1]));
                    lemma_key_transitive(x, before[n], before[b - 1]);
                }
            } else if a > n {
                assert(v@[a] == before[a - 1] && v@[b] == before[b - 1]);
            }
        }
        assert forall|y: WriterKey| v@.to_set().contains(y) == before.to_set().insert(x).contains(
            y,
        ) by {
            if v@.contains(y) {
                let k = choose|k: int| 0 <= k < v@.len() && v@[k] == y;
                if k < i {
                    assert(before[k] == y);
                } else if k > i {
                    assert(before[k - 1] == y);
                }
            }
            if before.contains(y) {
                let k = choose|k: int| 0 <= k < before.len() && before[k] == y;
                if k < i {
                    assert(v@[k] == y);
                } else {
                    assert(v@[k + 1] == y);
                }
            }
            assert(v@[i as int] == x);
        }
        assert(v@.to_set() =~= before.to_set().insert(x));
    }
}

/// Whether `k` is among ascending keys.
pub fn has_key(v: &Vec<WriterKey>, k: &WriterKey) -> (r: bool)
    ensures
        r == v@.contains(*k),
{
    let mut i: usize = 0;
    while i < v.len()
        invariant
            i <= v.len(),
            forall|j: int| 0 <= j < i ==> v@[j] != *k,
        decreases v.len() - i,
    {
        if same_32(&v[i], k) {
            assert(v@[i as int] == *k);
            return true;
        }
        i = i + 1;
    }
    false
}

/// Whether `x` is among `v`.
pub fn has_id(v: &[NodeId], x: &NodeId) -> (r: bool)
    ensures
        r == v@.contains(*x),
{
    let mut i: usize = 0;
    while i < v.len()
        invariant
            i <= v.len(),
            forall|j: int| 0 <= j < i ==> v@[j] != *x,
        decreases v.len() - i,
    {
        if same_id(&v[i], x) {
            assert(v@[i as int] == *x);
            return true;
        }
        i = i + 1;
    }
    false
}

} // verus!
