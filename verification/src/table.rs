//! Walking a table in key order.
use std::collections::BTreeMap;
use vstd::prelude::*;

verus! {

/// Whether `s` goes up strictly.
pub open spec fn ascending(s: Seq<u64>) -> bool {
    forall|i: int, j: int| 0 <= i < j < s.len() ==> s[i] < s[j]
}

/// The keys of `m` in ascending order.
pub open spec fn keys_of<V>(m: Map<u64, V>) -> Seq<u64> {
    choose|s: Seq<u64>| ascending(s) && s.to_set() == m.dom()
}

/// Two ascending sequences over the same numbers are one sequence.
pub proof fn lemma_ascending_unique(a: Seq<u64>, b: Seq<u64>)
    requires
        ascending(a),
        ascending(b),
        a.to_set() == b.to_set(),
    ensures
        a == b,
    decreases a.len(),
{
    if a.len() == 0 {
        if b.len() > 0 {
            assert(b.to_set().contains(b[0]));
            assert(a.contains(b[0]));
        }
        assert(a =~= b);
    } else {
        assert(a.to_set().contains(a.last()));
        assert(b.contains(a.last()));
        let k = choose|k: int| 0 <= k < b.len() && b[k] == a.last();
        assert(b.to_set().contains(b.last()));
        assert(a.contains(b.last()));
        let l = choose|l: int| 0 <= l < a.len() && a[l] == b.last();
        assert(a.last() == b.last());
        let x = a.drop_last();
        let y = b.drop_last();
        assert forall|v: u64| x.to_set().contains(v) == y.to_set().contains(v) by {
            if x.contains(v) {
                let i = choose|i: int| 0 <= i < x.len() && x[i] == v;
                assert(a[i] == v && a[i] < a.last());
                assert(a.to_set().contains(v));
                assert(b.contains(v));
                let j = choose|j: int| 0 <= j < b.len() && b[j] == v;
                assert(y[j] == v);
            }
            if y.contains(v) {
                let i = choose|i: int| 0 <= i < y.len() && y[i] == v;
                assert(b[i] == v && b[i] < b.last());
                assert(b.to_set().contains(v));
                assert(a.contains(v));
                let j = choose|j: int| 0 <= j < a.len() && a[j] == v;
                assert(x[j] == v);
            }
        }
        assert(x.to_set() =~= y.to_set());
        lemma_ascending_unique(x, y);
        assert(a =~= x.push(a.last()));
        assert(b =~= y.push(b.last()));
    }
}

/// An ascending sequence over the keys of `m` is the one that `keys_of` names.
pub proof fn lemma_keys_of<V>(m: Map<u64, V>, s: Seq<u64>)
    requires
        ascending(s),
        s.to_set() == m.dom(),
    ensures
        keys_of(m) == s,
{
    let k = keys_of(m);
    assert(ascending(k) && k.to_set() == m.dom());
    lemma_ascending_unique(k, s);
}

/// A finite set of numbers has a largest one.
proof fn lemma_largest(s: Set<u64>) -> (top: u64)
    requires
        s.finite(),
        !s.is_empty(),
    ensures
        s.contains(top),
        forall|x: u64| s.contains(x) ==> x <= top,
    decreases s.len(),
{
    let x = s.choose();
    let rest = s.remove(x);
    if rest.is_empty() {
        assert forall|y: u64| s.contains(y) implies y <= x by {
            if y != x {
                assert(rest.contains(y));
            }
        }
        x
    } else {
        let y = lemma_largest(rest);
        assert forall|z: u64| s.contains(z) implies z <= y || z <= x by {
            if z != x {
                assert(rest.contains(z));
            }
        }
        if x <= y {
            y
        } else {
            x
        }
    }
}

proof fn lemma_sorted_exists(s: Set<u64>) -> (keys: Seq<u64>)
    requires
        s.finite(),
    ensures
        ascending(keys),
        keys.to_set() == s,
        keys.len() == s.len(),
    decreases s.len(),
{
    if s.is_empty() {
        let keys = Seq::<u64>::empty();
        assert(keys.to_set() =~= s);
        keys
    } else {
        let top = lemma_largest(s);
        let rest = lemma_sorted_exists(s.remove(top));
        let keys = rest.push(top);
        assert forall|x: u64| keys.to_set().contains(x) == s.contains(x) by {
            if s.contains(x) && x != top {
                assert(rest.to_set().contains(x));
                let i = choose|i: int| 0 <= i < rest.len() && rest[i] == x;
                assert(keys[i] == x);
            }
            if keys.contains(x) {
                let i = choose|i: int| 0 <= i < keys.len() && keys[i] == x;
                if i < rest.len() {
                    assert(rest[i] == x);
                    assert(rest.to_set().contains(x));
                }
            }
            assert(keys[rest.len() as int] == top);
        }
        assert(keys.to_set() =~= s);
        assert forall|i: int, j: int| 0 <= i < j < keys.len() implies keys[i] < keys[j] by {
            if j == rest.len() {
                assert(rest.to_set().contains(rest[i]));
            }
        }
        keys
    }
}

/// A finite map has its keys in ascending order.
pub proof fn lemma_keys_exist<V>(m: Map<u64, V>)
    requires
        m.dom().finite(),
    ensures
        ascending(keys_of(m)),
        keys_of(m).to_set() == m.dom(),
        keys_of(m).len() == m.dom().len(),
{
    let keys = lemma_sorted_exists(m.dom());
    lemma_keys_of(m, keys);
}

/// The keys of a table in ascending order.
pub fn sorted_keys<V>(m: &BTreeMap<u64, V>) -> (keys: Vec<u64>)
    ensures
        keys@ == keys_of(m@),
        ascending(keys@),
        keys@.to_set() == m@.dom(),
        keys@.len() == m@.len(),
{
    broadcast use vstd::std_specs::btree::group_btree_axioms;
    broadcast use vstd::laws_cmp::group_laws_cmp;

    let mut keys: Vec<u64> = Vec::new();
    let ghost all = vstd::std_specs::iter::IteratorSpec::remaining(&m.keys()).unref();
    for k in it: m.keys()
        invariant
            keys@ == all.take(it.index()),
            all == it.seq().unref(),
    {
        keys.push(*k);
        assert(keys@ =~= all.take(it.index() + 1));
    }
    assert(keys@ =~= all);
    proof {
        let r = vstd::std_specs::iter::IteratorSpec::remaining(&m.keys());
        assert(vstd::laws_cmp::obeys_cmp::<u64>());
        assert(vstd::laws_cmp::obeys_cmp::<&u64>());
        assert(vstd::std_specs::btree::increasing_seq(r));
        assert forall|i: int, j: int| 0 <= i < j < keys@.len() implies keys@[i] < keys@[j] by {
            assert(vstd::std_specs::cmp::OrdSpec::cmp_spec(&r[i], &r[j]) is Less);
        }
        lemma_keys_of(m@, keys@);
    }
    keys
}

/// The keys of a table are walked upwards, each of them once and no other.
pub proof fn law_walked_upwards<V>(m: Map<u64, V>, k: u64)
    requires
        m.dom().finite(),
    ensures
        keys_of(m).contains(k) <==> m.contains_key(k),
        keys_of(m).len() == m.dom().len(),
        forall|i: int, j: int|
            0 <= i < j < keys_of(m).len() ==> #[trigger] keys_of(m)[i] < #[trigger] keys_of(m)[j],
{
    let s = lemma_sorted_exists(m.dom());
    lemma_keys_of(m, s);
    assert(s.to_set().contains(k) <==> m.dom().contains(k));
}

} // verus!
