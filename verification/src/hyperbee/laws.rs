//! What holds of what is read after what was written.
use vstd::prelude::*;
use super::order::{drop_from, lemma_put_map, put_in};
use super::range::{kept, lemma_kept_push, selected, value_at, within, Bounds};
use crate::bytemap::{bytes_lt, keyed_by, lemma_insert, lemma_listed_unique, map_of, sorted, Pairs};

verus! {

/// What was put under a key is read back, and every other key reads as before.
pub proof fn law_put(s: Pairs, k: Seq<u8>, v: Seq<u8>, j: Seq<u8>)
    requires
        sorted(s),
    ensures
        sorted(put_in(s, k, v)),
        value_at(put_in(s, k, v), k) == Some(v),
        j != k ==> value_at(put_in(s, k, v), j) == value_at(s, j),
{
    lemma_put_map(s, k, v);
}

/// A deleted key reads as missing, and every other key reads as before.
pub proof fn law_del(s: Pairs, k: Seq<u8>, j: Seq<u8>)
    requires
        sorted(s),
    ensures
        sorted(drop_from(s, k)),
        value_at(drop_from(s, k), k) == None::<Seq<u8>>,
        j != k ==> value_at(drop_from(s, k), j) == value_at(s, j),
{
    lemma_put_map(s, k, k);
}

/// Deleting a key that was just put in, and was missing before, undoes it.
pub proof fn law_put_del(s: Pairs, k: Seq<u8>, v: Seq<u8>)
    requires
        sorted(s),
        !map_of(s).contains_key(k),
    ensures
        drop_from(put_in(s, k, v), k) == s,
{
    let t = put_in(s, k, v);
    lemma_put_map(s, k, v);
    lemma_put_map(t, k, v);
    assert(map_of(drop_from(t, k)) =~= map_of(s));
    lemma_listed_unique(drop_from(t, k), s);
}

/// The pairs do not depend on the order in which two different keys were put in.
pub proof fn law_put_order(s: Pairs, k: Seq<u8>, v: Seq<u8>, j: Seq<u8>, w: Seq<u8>)
    requires
        sorted(s),
        j != k,
    ensures
        put_in(put_in(s, k, v), j, w) == put_in(put_in(s, j, w), k, v),
{
    lemma_put_map(s, k, v);
    lemma_put_map(s, j, w);
    lemma_put_map(put_in(s, k, v), j, w);
    lemma_put_map(put_in(s, j, w), k, v);
    let a = put_in(put_in(s, k, v), j, w);
    let b = put_in(put_in(s, j, w), k, v);
    assert(map_of(a) =~= map_of(b));
    lemma_listed_unique(a, b);
}

/// Reading a range gives the pairs within the bounds, all of them, in key order.
pub proof fn law_range(s: Pairs, b: Bounds, k: Seq<u8>)
    requires
        sorted(s),
    ensures
        sorted(kept(s, b)),
        value_at(kept(s, b), k) == if within(b, k) {
            value_at(s, k)
        } else {
            None
        },
    decreases s.len(),
{
    if s.len() == 0 {
        reveal(Seq::filter);
        assert(!keyed_by(kept(s, b), k));
        assert(!keyed_by(s, k));
    } else {
        let t = s.drop_last();
        let e = s.last();
        assert(s =~= t.push(e));
        assert(sorted(t)) by {
            assert forall|i: int, j: int| 0 <= i < j < t.len() implies bytes_lt(
                (#[trigger] t[i]).0,
                (#[trigger] t[j]).0,
            ) by {
                assert(t[i] == s[i] && t[j] == s[j]);
            }
        }
        law_range(t, b, k);
        law_range(t, b, e.0);
        lemma_kept_push(t, e, b);
        assert(t.push(e) =~= t.insert(t.len() as int, e));
        assert forall|j: int| 0 <= j < t.len() implies bytes_lt((#[trigger] t[j]).0, e.0) by {
            assert(t[j] == s[j]);
        }
        lemma_insert(t, t.len() as int, e.0, e.1);
        if within(b, e.0) {
            let u = kept(t, b);
            lemma_kept_from(t, b);
            assert forall|j: int| 0 <= j < u.len() implies bytes_lt((#[trigger] u[j]).0, e.0) by {
                assert(t.contains(u[j]));
            }
            assert(u.push(e) =~= u.insert(u.len() as int, e));
            lemma_insert(u, u.len() as int, e.0, e.1);
        }
    }
}

proof fn lemma_kept_from(s: Pairs, b: Bounds)
    ensures
        forall|i: int| 0 <= i < kept(s, b).len() ==> s.contains(#[trigger] kept(s, b)[i]),
    decreases s.len(),
{
    if s.len() == 0 {
        reveal(Seq::filter);
    } else {
        let t = s.drop_last();
        let e = s.last();
        lemma_kept_from(t, b);
        assert(s =~= t.push(e));
        lemma_kept_push(t, e, b);
        assert forall|i: int| 0 <= i < kept(s, b).len() implies s.contains(
            #[trigger] kept(s, b)[i],
        ) by {
            if i < kept(t, b).len() {
                assert(kept(s, b)[i] == kept(t, b)[i]);
                assert(t.contains(kept(t, b)[i]));
                let j = choose|j: int| 0 <= j < t.len() && t[j] == kept(t, b)[i];
                assert(s[j] == t[j]);
            } else {
                assert(s[s.len() - 1] == e);
            }
        }
    }
}

/// Reading backwards gives the same pairs the other way round, and a limit cuts what is
/// read short without changing what comes first.
pub proof fn law_reverse_and_limit(s: Pairs, b: Bounds)
    ensures
        selected(s, Bounds { reverse: true, limit: None, ..b }) == selected(
            s,
            Bounds { reverse: false, limit: None, ..b },
        ).reverse(),
        b.limit matches Some(n) ==> {
            let whole = selected(s, Bounds { limit: None, ..b });
            selected(s, b) == if n < whole.len() {
                whole.take(n as int)
            } else {
                whole
            }
        },
{
    let p = |e: (Seq<u8>, Seq<u8>)| within(b, e.0);
    let x = Bounds { reverse: true, limit: None, ..b };
    let y = Bounds { reverse: false, limit: None, ..b };
    let z = Bounds { limit: None, ..b };
    assert(p =~= (|e: (Seq<u8>, Seq<u8>)| within(x, e.0)));
    assert(p =~= (|e: (Seq<u8>, Seq<u8>)| within(y, e.0)));
    assert(p =~= (|e: (Seq<u8>, Seq<u8>)| within(z, e.0)));
}

} // verus!
