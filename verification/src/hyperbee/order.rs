//! Sorted pairs: putting in, dropping, and looking up within a stretch of them.
use vstd::prelude::*;
use super::shape::{after, before, lemma_weave_at, lemma_weave_pair, weave};
use crate::bytemap::{
    bytes_lt, keyed_by, lemma_insert, lemma_lookup, lemma_lt_irreflexive, lemma_lt_total,
    lemma_lt_transitive, lemma_remove, lemma_update, map_of, sorted, Pairs,
};

verus! {

/// `s` with `v` under `k`, in its place.
#[verifier::opaque]
pub open spec fn put_in(s: Pairs, k: Seq<u8>, v: Seq<u8>) -> Pairs
    decreases s.len(),
{
    if s.len() == 0 {
        seq![(k, v)]
    } else if bytes_lt(s[0].0, k) {
        seq![s[0]] + put_in(s.skip(1), k, v)
    } else if s[0].0 == k {
        seq![(k, v)] + s.skip(1)
    } else {
        seq![(k, v)] + s
    }
}

/// `s` without what is under `k`.
#[verifier::opaque]
pub open spec fn drop_from(s: Pairs, k: Seq<u8>) -> Pairs
    decreases s.len(),
{
    if s.len() == 0 {
        s
    } else if bytes_lt(s[0].0, k) {
        seq![s[0]] + drop_from(s.skip(1), k)
    } else if s[0].0 == k {
        s.skip(1)
    } else {
        s
    }
}

/// Whether every key is less than `k`.
pub open spec fn all_lt(s: Pairs, k: Seq<u8>) -> bool {
    forall|i: int| 0 <= i < s.len() ==> bytes_lt((#[trigger] s[i]).0, k)
}

/// Whether every key is greater than `k`.
pub open spec fn all_gt(s: Pairs, k: Seq<u8>) -> bool {
    forall|i: int| 0 <= i < s.len() ==> bytes_lt(k, (#[trigger] s[i]).0)
}

proof fn lemma_skip_lt(s: Pairs, k: Seq<u8>)
    requires
        all_lt(s, k),
        s.len() > 0,
    ensures
        all_lt(s.skip(1), k),
{
    assert forall|i: int| 0 <= i < s.skip(1).len() implies bytes_lt((#[trigger] s.skip(1)[i]).0, k) by {
        assert(s.skip(1)[i] == s[i + 1]);
    }
}

proof fn lemma_put_after(a: Pairs, x: Pairs, k: Seq<u8>, v: Seq<u8>)
    requires
        all_lt(a, k),
    ensures
        put_in(a + x, k, v) == a + put_in(x, k, v),
        drop_from(a + x, k) == a + drop_from(x, k),
    decreases a.len(),
{
    reveal(put_in);
    reveal(drop_from);
    if a.len() == 0 {
        assert(a + x =~= x);
        assert(a + put_in(x, k, v) =~= put_in(x, k, v));
        assert(a + drop_from(x, k) =~= drop_from(x, k));
    } else {
        lemma_skip_lt(a, k);
        lemma_put_after(a.skip(1), x, k, v);
        assert((a + x)[0] == a[0]);
        assert((a + x).skip(1) =~= a.skip(1) + x);
        assert(seq![a[0]] + (a.skip(1) + put_in(x, k, v)) =~= a + put_in(x, k, v));
        assert(seq![a[0]] + (a.skip(1) + drop_from(x, k)) =~= a + drop_from(x, k));
    }
}

proof fn lemma_put_before(m: Pairs, z: Pairs, k: Seq<u8>, v: Seq<u8>)
    requires
        all_gt(z, k),
    ensures
        put_in(m + z, k, v) == put_in(m, k, v) + z,
        drop_from(m + z, k) == drop_from(m, k) + z,
    decreases m.len(),
{
    reveal(put_in);
    reveal(drop_from);
    if m.len() == 0 {
        assert(m + z =~= z);
        if z.len() > 0 {
            assert(bytes_lt(k, z[0].0));
            lemma_lt_total(k, z[0].0);
        }
        assert(put_in(m, k, v) + z =~= seq![(k, v)] + z);
        assert(drop_from(m, k) + z =~= z);
        if z.len() == 0 {
            assert(seq![(k, v)] + z =~= seq![(k, v)]);
        }
    } else {
        lemma_put_before(m.skip(1), z, k, v);
        assert((m + z)[0] == m[0]);
        assert((m + z).skip(1) =~= m.skip(1) + z);
        if bytes_lt(m[0].0, k) {
            assert(seq![m[0]] + (put_in(m.skip(1), k, v) + z) =~= put_in(m, k, v) + z);
            assert(seq![m[0]] + (drop_from(m.skip(1), k) + z) =~= drop_from(m, k) + z);
        } else if m[0].0 == k {
            assert(seq![(k, v)] + (m.skip(1) + z) =~= put_in(m, k, v) + z);
        } else {
            assert(seq![(k, v)] + (m + z) =~= put_in(m, k, v) + z);
        }
    }
}

/// Between smaller and greater keys, putting in and dropping touch the middle alone.
pub proof fn lemma_put_between(a: Pairs, m: Pairs, z: Pairs, k: Seq<u8>, v: Seq<u8>)
    requires
        all_lt(a, k),
        all_gt(z, k),
    ensures
        put_in(a + m + z, k, v) == a + put_in(m, k, v) + z,
        drop_from(a + m + z, k) == a + drop_from(m, k) + z,
{
    reveal(put_in);
    reveal(drop_from);
    lemma_put_after(a, m + z, k, v);
    lemma_put_before(m, z, k, v);
    assert(a + m + z =~= a + (m + z));
    assert(a + (put_in(m, k, v) + z) =~= a + put_in(m, k, v) + z);
    assert(a + (drop_from(m, k) + z) =~= a + drop_from(m, k) + z);
}

/// Replacing and dropping the one pair between smaller and greater keys.
pub proof fn lemma_put_at(a: Pairs, e: (Seq<u8>, Seq<u8>), z: Pairs, v: Seq<u8>)
    requires
        all_lt(a, e.0),
        all_gt(z, e.0),
    ensures
        put_in(a + seq![e] + z, e.0, v) == a + seq![(e.0, v)] + z,
        drop_from(a + seq![e] + z, e.0) == a + z,
{
    reveal(put_in);
    reveal(drop_from);
    lemma_put_between(a, seq![e], z, e.0, v);
    lemma_lt_irreflexive(e.0);
    assert(seq![e].skip(1) =~= Seq::empty());
    assert(put_in(seq![e], e.0, v) =~= seq![(e.0, v)]);
    assert(drop_from(seq![e], e.0) =~= Seq::empty());
    assert(a + drop_from(seq![e], e.0) + z =~= a + z);
}

/// What sorted pairs say of a stretch of them and of what is around it.
pub proof fn lemma_sorted_parts(a: Pairs, m: Pairs, z: Pairs)
    requires
        sorted(a + m + z),
    ensures
        sorted(a),
        sorted(m),
        sorted(z),
        sorted(a + m),
        sorted(m + z),
        forall|i: int| 0 <= i < m.len() ==> all_lt(a, (#[trigger] m[i]).0),
        forall|i: int| 0 <= i < m.len() ==> all_gt(z, (#[trigger] m[i]).0),
        forall|i: int, j: int|
            0 <= i < a.len() && 0 <= j < z.len() ==> bytes_lt(
                (#[trigger] a[i]).0,
                (#[trigger] z[j]).0,
            ),
{
    let s = a + m + z;
    let p = a.len();
    let q = a.len() + m.len();
    assert forall|i: int, j: int| 0 <= i < j < a.len() implies bytes_lt(
        (#[trigger] a[i]).0,
        (#[trigger] a[j]).0,
    ) by {
        assert(s[i] == a[i] && s[j] == a[j]);
    }
    assert forall|i: int, j: int| 0 <= i < j < m.len() implies bytes_lt(
        (#[trigger] m[i]).0,
        (#[trigger] m[j]).0,
    ) by {
        assert(s[p + i] == m[i] && s[p + j] == m[j]);
    }
    assert forall|i: int, j: int| 0 <= i < j < z.len() implies bytes_lt(
        (#[trigger] z[i]).0,
        (#[trigger] z[j]).0,
    ) by {
        assert(s[q + i] == z[i] && s[q + j] == z[j]);
    }
    let am = a + m;
    assert forall|i: int, j: int| 0 <= i < j < am.len() implies bytes_lt(
        (#[trigger] am[i]).0,
        (#[trigger] am[j]).0,
    ) by {
        assert(s[i] == am[i] && s[j] == am[j]);
    }
    let mz = m + z;
    assert forall|i: int, j: int| 0 <= i < j < mz.len() implies bytes_lt(
        (#[trigger] mz[i]).0,
        (#[trigger] mz[j]).0,
    ) by {
        assert(s[p + i] == mz[i] && s[p + j] == mz[j]);
    }
    assert forall|i: int| 0 <= i < m.len() implies all_lt(a, (#[trigger] m[i]).0) && all_gt(
        z,
        m[i].0,
    ) by {
        assert(s[p + i] == m[i]);
        assert forall|j: int| 0 <= j < a.len() implies bytes_lt((#[trigger] a[j]).0, m[i].0) by {
            assert(s[j] == a[j]);
        }
        assert forall|j: int| 0 <= j < z.len() implies bytes_lt(m[i].0, (#[trigger] z[j]).0) by {
            assert(s[q + j] == z[j]);
        }
    }
    assert forall|i: int, j: int| 0 <= i < a.len() && 0 <= j < z.len() implies bytes_lt(
        (#[trigger] a[i]).0,
        (#[trigger] z[j]).0,
    ) by {
        assert(s[i] == a[i] && s[q + j] == z[j]);
    }
}

/// The stretch between smaller and greater keys decides what is under `k`.
pub proof fn lemma_find_between(a: Pairs, m: Pairs, z: Pairs, k: Seq<u8>)
    requires
        sorted(a + m + z),
        all_lt(a, k),
        all_gt(z, k),
    ensures
        keyed_by(a + m + z, k) == keyed_by(m, k),
        keyed_by(m, k) ==> map_of(a + m + z)[k] == map_of(m)[k],
{
    let s = a + m + z;
    lemma_sorted_parts(a, m, z);
    lemma_lt_irreflexive(k);
    if keyed_by(s, k) {
        let i = choose|i: int| 0 <= i < s.len() && (#[trigger] s[i]).0 == k;
        if i < a.len() {
            assert(bytes_lt(a[i].0, k));
        } else if i >= a.len() + m.len() {
            assert(bytes_lt(k, z[i - a.len() - m.len()].0));
        } else {
            assert(m[i - a.len()].0 == k);
        }
    }
    if keyed_by(m, k) {
        let i = choose|i: int| 0 <= i < m.len() && (#[trigger] m[i]).0 == k;
        assert(s[a.len() + i] == m[i]);
        lemma_lookup(m, i);
        lemma_lookup(s, a.len() + i);
    }
}

/// Putting in is inserting into the map, dropping is removing from it; both keep the
/// order.
pub proof fn lemma_put_map(s: Pairs, k: Seq<u8>, v: Seq<u8>)
    requires
        sorted(s),
    ensures
        sorted(put_in(s, k, v)),
        map_of(put_in(s, k, v)) == map_of(s).insert(k, v),
        sorted(drop_from(s, k)),
        map_of(drop_from(s, k)) == map_of(s).remove(k),
        !keyed_by(s, k) ==> drop_from(s, k) == s,
{
    reveal(put_in);
    reveal(drop_from);
    let i = lemma_place(s, k, 0);
    let a = s.take(i);
    let z = s.skip(i);
    assert(s =~= a + z);
    lemma_put_after(a, z, k, v);
    if i < s.len() && s[i].0 == k {
        lemma_update(s, i, v);
        lemma_remove(s, i);
        lemma_lt_irreflexive(k);
        assert(z[0] == s[i]);
        assert(a + put_in(z, k, v) =~= s.update(i, (k, v)));
        assert(a + drop_from(z, k) =~= s.remove(i));
    } else {
        lemma_insert(s, i, k, v);
        if z.len() > 0 {
            assert(z[0] == s[i]);
            lemma_lt_total(k, z[0].0);
        }
        assert(a + put_in(z, k, v) =~= s.insert(i, (k, v)));
        assert(a + drop_from(z, k) =~= s);
        assert(!keyed_by(s, k)) by {
            if keyed_by(s, k) {
                let j = choose|j: int| 0 <= j < s.len() && (#[trigger] s[j]).0 == k;
                lemma_lt_irreflexive(k);
                if j < i {
                    assert(bytes_lt(s[j].0, k));
                } else {
                    assert(bytes_lt(k, s[j].0));
                }
            }
        }
        assert(map_of(s).remove(k) =~= map_of(s));
    }
}

/// How many keys come before `k`.
proof fn lemma_place(s: Pairs, k: Seq<u8>, from: int) -> (i: int)
    requires
        sorted(s),
        0 <= from <= s.len(),
        forall|j: int| 0 <= j < from ==> bytes_lt((#[trigger] s[j]).0, k),
    ensures
        0 <= i <= s.len(),
        all_lt(s.take(i), k),
        forall|j: int| 0 <= j < i ==> bytes_lt((#[trigger] s[j]).0, k),
        i < s.len() && s[i].0 != k ==> forall|j: int|
            i <= j < s.len() ==> bytes_lt(k, (#[trigger] s[j]).0),
        i < s.len() ==> !bytes_lt(s[i].0, k),
    decreases s.len() - from,
{
    if from < s.len() && bytes_lt(s[from].0, k) {
        lemma_place(s, k, from + 1)
    } else {
        assert forall|j: int| 0 <= j < s.take(from).len() implies bytes_lt(
            (#[trigger] s.take(from)[j]).0,
            k,
        ) by {
            assert(s.take(from)[j] == s[j]);
        }
        if from < s.len() && s[from].0 != k {
            lemma_lt_total(s[from].0, k);
            assert forall|j: int| from <= j < s.len() implies bytes_lt(k, (#[trigger] s[j]).0) by {
                if j > from {
                    assert(bytes_lt(s[from].0, s[j].0));
                    lemma_lt_transitive(k, s[from].0, s[j].0);
                }
            }
        }
        from
    }
}

/// What is around the child in which `k` belongs.
pub proof fn lemma_around(entries: Pairs, kids: Seq<Pairs>, i: int, k: Seq<u8>)
    requires
        sorted(weave(entries, kids)),
        0 <= i <= entries.len(),
        i > 0 ==> bytes_lt(entries[i - 1].0, k),
        i < entries.len() ==> bytes_lt(k, entries[i].0),
    ensures
        all_lt(before(entries, kids, i), k),
        all_gt(after(entries, kids, i), k),
        sorted(kids[i]),
{
    reveal(weave);
    let b = before(entries, kids, i);
    let a = after(entries, kids, i);
    lemma_weave_at(entries, kids, i);
    lemma_sorted_parts(b, kids[i], a);
    if i > 0 {
        let last = b.len() - 1;
        assert(b[last] == entries[i - 1]);
        assert forall|j: int| 0 <= j < b.len() implies bytes_lt((#[trigger] b[j]).0, k) by {
            if j < last {
                assert(bytes_lt(b[j].0, b[last].0));
                lemma_lt_transitive(b[j].0, b[last].0, k);
            }
        }
    }
    if i < entries.len() {
        assert(a[0] == entries[i]);
        assert forall|j: int| 0 <= j < a.len() implies bytes_lt(k, (#[trigger] a[j]).0) by {
            if j > 0 {
                assert(bytes_lt(a[0].0, a[j].0));
                lemma_lt_transitive(k, a[0].0, a[j].0);
            }
        }
    }
}

/// What is around entry `i`.
pub proof fn lemma_around_entry(entries: Pairs, kids: Seq<Pairs>, i: int)
    requires
        sorted(weave(entries, kids)),
        0 <= i < entries.len(),
    ensures
        weave(entries, kids) == (before(entries, kids, i) + kids[i]) + seq![entries[i]] + (kids[i
            + 1] + after(entries, kids, i + 1)),
        all_lt(before(entries, kids, i) + kids[i], entries[i].0),
        all_gt(kids[i + 1] + after(entries, kids, i + 1), entries[i].0),
        sorted(kids[i]),
        sorted(kids[i + 1]),
{
    reveal(weave);
    let b = before(entries, kids, i);
    let a = after(entries, kids, i + 1);
    lemma_weave_pair(entries, kids, i);
    let l = b + kids[i];
    let r = kids[i + 1] + a;
    let e = seq![entries[i]];
    assert(b + (kids[i] + e + kids[i + 1]) + a =~= l + e + r);
    lemma_sorted_parts(l, e, r);
    assert(e[0] == entries[i]);
    assert(all_lt(l, e[0].0));
    assert(all_gt(r, e[0].0));
    assert(b + kids[i] + Seq::empty() =~= l);
    lemma_sorted_parts(b, kids[i], Seq::empty());
    assert(Seq::empty() + kids[i + 1] + a =~= r);
    lemma_sorted_parts(Seq::empty(), kids[i + 1], a);
}

/// Entries of a sorted node are sorted.
pub proof fn lemma_entries_sorted(entries: Pairs, kids: Seq<Pairs>)
    requires
        sorted(weave(entries, kids)),
    ensures
        sorted(entries),
{
    reveal(weave);
    assert forall|i: int, j: int| 0 <= i < j < entries.len() implies bytes_lt(
        (#[trigger] entries[i]).0,
        (#[trigger] entries[j]).0,
    ) by {
        lemma_around_entry(entries, kids, i);
        lemma_in_after(entries, kids, i + 1, j);
        let r = kids[i + 1] + after(entries, kids, i + 1);
        let a = after(entries, kids, i + 1);
        let m = choose|m: int| 0 <= m < a.len() && a[m] == entries[j];
        assert(r[kids[i + 1].len() + m] == entries[j]);
    }
}

proof fn lemma_in_after(entries: Pairs, kids: Seq<Pairs>, i: int, j: int)
    requires
        0 <= i <= j < entries.len(),
    ensures
        exists|m: int|
            0 <= m < after(entries, kids, i).len() && #[trigger] after(entries, kids, i)[m]
                == entries[j],
    decreases entries.len() - i,
{
    let a = after(entries, kids, i);
    if i == j {
        assert(a[0] == entries[j]);
    } else {
        lemma_in_after(entries, kids, i + 1, j);
        let rest = after(entries, kids, i + 1);
        let m = choose|m: int| 0 <= m < rest.len() && #[trigger] rest[m] == entries[j];
        assert(a[1 + kids[i + 1].len() + m] == rest[m]);
    }
}

} // verus!
