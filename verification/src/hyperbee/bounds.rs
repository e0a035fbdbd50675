//! What bounds on keys mean, and what reading within them gives.
use vstd::prelude::*;
use super::laws::law_range;
use super::range::{kept, selected, value_at, within, Bounds};
use super::sub::{scoped, starts};
use crate::bytemap::{
    bytes_lt, keyed_by, lemma_lookup, lemma_lt_irreflexive, lemma_lt_total, place_of, sorted,
    Pairs,
};

verus! {

/// Whether `a` and `b` are the same up to `n`, and there `a` ends or has the lesser byte.
pub open spec fn parts_at(a: Seq<u8>, b: Seq<u8>, n: int) -> bool {
    &&& 0 <= n <= a.len()
    &&& n < b.len()
    &&& forall|j: int| 0 <= j < n ==> a[j] == b[j]
    &&& n < a.len() ==> a[n] < b[n]
}

/// Whether `a` comes before `b` in the order of byte strings.
pub open spec fn precedes(a: Seq<u8>, b: Seq<u8>) -> bool {
    exists|n: int| #[trigger] parts_at(a, b, n)
}

/// Keys are ordered byte by byte, and a key comes before those that go on from it.
pub proof fn law_bytes_order(a: Seq<u8>, b: Seq<u8>)
    ensures
        bytes_lt(a, b) <==> precedes(a, b),
    decreases a.len(),
{
    if b.len() == 0 {
    } else if a.len() == 0 {
        assert(parts_at(a, b, 0));
    } else if a[0] != b[0] {
        if a[0] < b[0] {
            assert(parts_at(a, b, 0));
        }
        if precedes(a, b) {
            let n = choose|n: int| #[trigger] parts_at(a, b, n);
            if n > 0 {
                assert(a[0] == b[0]);
            }
        }
    } else {
        let x = a.skip(1);
        let y = b.skip(1);
        law_bytes_order(x, y);
        if precedes(x, y) {
            let n = choose|n: int| #[trigger] parts_at(x, y, n);
            assert forall|j: int| 0 <= j < n + 1 implies a[j] == b[j] by {
                if j > 0 {
                    assert(x[j - 1] == y[j - 1]);
                }
            }
            assert(parts_at(a, b, n + 1));
        }
        if precedes(a, b) {
            let n = choose|n: int| #[trigger] parts_at(a, b, n);
            assert(n > 0);
            assert forall|j: int| 0 <= j < n - 1 implies x[j] == y[j] by {
                assert(a[j + 1] == b[j + 1]);
            }
            assert(parts_at(x, y, n - 1));
        }
    }
}

/// Whether every bound that is set holds of a key.
pub open spec fn holds_all(b: Bounds, k: Seq<u8>) -> bool {
    &&& b.gt matches Some(g) ==> precedes(g, k)
    &&& b.gte matches Some(g) ==> g == k || precedes(g, k)
    &&& b.lt matches Some(l) ==> precedes(k, l)
    &&& b.lte matches Some(l) ==> k == l || precedes(k, l)
}

/// A key is read if and only if it is there and every bound that is set holds of it, in the
/// order of byte strings.
pub proof fn law_bounds(s: Pairs, b: Bounds, k: Seq<u8>)
    requires
        sorted(s),
    ensures
        within(b, k) <==> holds_all(b, k),
        value_at(kept(s, b), k) == if holds_all(b, k) {
            value_at(s, k)
        } else {
            None
        },
{
    law_range(s, b, k);
    let e = Seq::<u8>::empty();
    let gt = b.gt.unwrap_or(e);
    let gte = b.gte.unwrap_or(e);
    let lt = b.lt.unwrap_or(e);
    let lte = b.lte.unwrap_or(e);
    law_bytes_order(gt, k);
    law_bytes_order(gte, k);
    law_bytes_order(k, lt);
    law_bytes_order(k, lte);
    lemma_lt_total(gte, k);
    lemma_lt_total(lte, k);
    lemma_lt_irreflexive(k);
}

/// What is read from a key on is what is not read before it, and what is read after a key is
/// what is not read up to it.
pub proof fn law_bounds_part(s: Pairs, g: Seq<u8>, k: Seq<u8>)
    requires
        sorted(s),
    ensures
        ({
            let open = Bounds {
                gt: None,
                gte: None,
                lt: None,
                lte: None,
                reverse: false,
                limit: None,
            };
            let there = value_at(s, k) is Some;
            let from = value_at(kept(s, Bounds { gte: Some(g), ..open }), k) is Some;
            let before = value_at(kept(s, Bounds { lt: Some(g), ..open }), k) is Some;
            let after = value_at(kept(s, Bounds { gt: Some(g), ..open }), k) is Some;
            let upto = value_at(kept(s, Bounds { lte: Some(g), ..open }), k) is Some;
            &&& from <==> there && !before
            &&& after <==> there && !upto
            &&& value_at(kept(s, open), k) == value_at(s, k)
        }),
{
    let open = Bounds { gt: None, gte: None, lt: None, lte: None, reverse: false, limit: None };
    law_bounds(s, open, k);
    law_bounds(s, Bounds { gte: Some(g), ..open }, k);
    law_bounds(s, Bounds { lt: Some(g), ..open }, k);
    law_bounds(s, Bounds { gt: Some(g), ..open }, k);
    law_bounds(s, Bounds { lte: Some(g), ..open }, k);
    law_bytes_order(g, k);
    law_bytes_order(k, g);
    lemma_lt_total(g, k);
}

/// The value under a key is that of the pair with that key.
pub proof fn law_value_at(s: Pairs, k: Seq<u8>, v: Seq<u8>)
    requires
        sorted(s),
    ensures
        value_at(s, k) == Some(v) <==> s.contains((k, v)),
{
    if s.contains((k, v)) {
        let i = s.index_of((k, v));
        lemma_lookup(s, i);
    }
    if value_at(s, k) == Some(v) {
        let i = place_of(s, k);
        assert(keyed_by(s, k));
        lemma_lookup(s, i);
        assert(s[i] == (k, v));
    }
}

proof fn lemma_kept(s: Pairs, b: Bounds)
    requires
        sorted(s),
    ensures
        sorted(kept(s, b)),
        forall|e: (Seq<u8>, Seq<u8>)| #[trigger]
            kept(s, b).contains(e) <==> s.contains(e) && holds_all(b, e.0),
{
    law_range(s, b, Seq::empty());
    assert forall|e: (Seq<u8>, Seq<u8>)| #[trigger] kept(s, b).contains(e) <==> s.contains(e)
        && holds_all(b, e.0) by {
        law_bounds(s, b, e.0);
        law_value_at(s, e.0, e.1);
        law_value_at(kept(s, b), e.0, e.1);
    }
}

/// Whether a key is read before another.
pub open spec fn read_before(reverse: bool, a: Seq<u8>, b: Seq<u8>) -> bool {
    if reverse {
        precedes(b, a)
    } else {
        precedes(a, b)
    }
}

/// What reading a range gives: pairs that are there and whose keys every bound holds of, in
/// key order or the other way round, no more of them than the limit; and whatever such pair
/// is not read would come after all that are, the limit being reached.
pub proof fn law_selected(s: Pairs, b: Bounds)
    requires
        sorted(s),
    ensures
        ({
            let out = selected(s, b);
            &&& forall|i: int|
                0 <= i < out.len() ==> s.contains(#[trigger] out[i]) && holds_all(b, out[i].0)
            &&& forall|i: int, j: int|
                0 <= i < j < out.len() ==> read_before(
                    b.reverse,
                    (#[trigger] out[i]).0,
                    (#[trigger] out[j]).0,
                )
            &&& b.limit matches Some(n) ==> out.len() <= n
            &&& forall|e: (Seq<u8>, Seq<u8>)| #[trigger]
                s.contains(e) && holds_all(b, e.0) && !out.contains(e) ==> {
                    &&& b.limit == Some(out.len() as usize)
                    &&& forall|i: int|
                        0 <= i < out.len() ==> read_before(b.reverse, (#[trigger] out[i]).0, e.0)
                }
        }),
{
    let all = kept(s, b);
    let turned = if b.reverse {
        all.reverse()
    } else {
        all
    };
    let out = selected(s, b);
    let n = all.len() as int;
    lemma_kept(s, b);
    assert forall|i: int, j: int| 0 <= i < j < n implies read_before(
        b.reverse,
        (#[trigger] turned[i]).0,
        (#[trigger] turned[j]).0,
    ) by {
        if b.reverse {
            law_bytes_order(all[n - 1 - j].0, all[n - 1 - i].0);
            assert(turned[i] == all[n - 1 - i] && turned[j] == all[n - 1 - j]);
        } else {
            law_bytes_order(all[i].0, all[j].0);
        }
    }
    assert(out.len() <= n && out =~= turned.take(out.len() as int));
    assert forall|i: int| 0 <= i < out.len() implies s.contains(#[trigger] out[i]) && holds_all(
        b,
        out[i].0,
    ) by {
        assert(out[i] == turned[i]);
        if b.reverse {
            assert(all.contains(all[n - 1 - i]));
        } else {
            assert(all.contains(all[i]));
        }
    }
    assert forall|e: (Seq<u8>, Seq<u8>)| #[trigger] s.contains(e) && holds_all(b, e.0)
        && !out.contains(e) implies {
        &&& b.limit == Some(out.len() as usize)
        &&& forall|i: int|
            0 <= i < out.len() ==> read_before(b.reverse, (#[trigger] out[i]).0, e.0)
    } by {
        assert(all.contains(e));
        let k = all.index_of(e);
        let at = if b.reverse {
            n - 1 - k
        } else {
            k
        };
        assert(turned[at] == e);
        if at < out.len() {
            assert(out[at] == e);
        }
        assert forall|i: int| 0 <= i < out.len() implies read_before(
            b.reverse,
            (#[trigger] out[i]).0,
            e.0,
        ) by {
            assert(out[i] == turned[i]);
        }
    }
}

/// A database under a prefix reads, under each key, what the tree holds under the prefix and
/// that key.
pub proof fn law_sub_reads(s: Pairs, p: Seq<u8>, k: Seq<u8>)
    requires
        sorted(s),
    ensures
        sorted(scoped(s, p)),
        value_at(scoped(s, p), k) == value_at(s, p + k),
{
    super::sub::lemma_scoped_map(s, p);
}

/// A key begins with a prefix if and only if it is the prefix and something after it.
pub proof fn law_starts(k: Seq<u8>, p: Seq<u8>)
    ensures
        starts(k, p) <==> exists|rest: Seq<u8>| k == #[trigger] (p + rest),
{
    if starts(k, p) {
        assert(k =~= p + k.skip(p.len() as int));
    }
    if exists|rest: Seq<u8>| k == #[trigger] (p + rest) {
        let rest = choose|rest: Seq<u8>| k == #[trigger] (p + rest);
        assert(k.take(p.len() as int) =~= p);
    }
}

} // verus!
