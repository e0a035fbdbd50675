//! Databases within a tree, each under a prefix of its own.
use vstd::prelude::*;
use super::btree::lemma_pairs_sorted;
use super::node::pairs_view;
use super::order::{all_lt, drop_from, lemma_put_map, put_in};
use super::range::{
    bytes_in, dealt, kept, lemma_kept_push, selected, value_at, within, Bounds, Range,
};
use super::{Error, Hyperbee};
use crate::bytemap::{bytes_lt, lemma_insert, lemma_listed_unique, map_of, sorted, Pairs};
use crate::bytes::{copy_of, copy_range, put_all};
use crate::storage::Store;

verus! {

/// Whether a key begins with a prefix.
pub open spec fn starts(k: Seq<u8>, p: Seq<u8>) -> bool {
    p.len() <= k.len() && k.take(p.len() as int) == p
}

/// The least key that is greater than every key that begins with a prefix: the prefix up
/// to its last byte that is not the greatest, that byte plus one. There is none if every
/// byte is the greatest.
pub open spec fn successor(p: Seq<u8>) -> Option<Seq<u8>>
    decreases p.len(),
{
    if p.len() == 0 {
        None
    } else if p.last() < 0xff {
        Some(p.drop_last().push((p.last() + 1) as u8))
    } else {
        successor(p.drop_last())
    }
}

/// A pair with `n` bytes off its key.
pub open spec fn cut(n: nat) -> spec_fn((Seq<u8>, Seq<u8>)) -> (Seq<u8>, Seq<u8>) {
    |e: (Seq<u8>, Seq<u8>)| (e.0.skip(n as int), e.1)
}

/// The pairs under a prefix, with the prefix off their keys.
pub open spec fn scoped(s: Pairs, p: Seq<u8>) -> Pairs {
    s.filter(|e: (Seq<u8>, Seq<u8>)| starts(e.0, p)).map_values(cut(p.len()))
}

/// Bounds on keys under a prefix, as bounds on keys.
pub open spec fn prefixed(b: Bounds, p: Seq<u8>) -> Bounds {
    Bounds {
        gt: match b.gt {
            Some(g) => Some(p + g),
            None => None,
        },
        gte: match b.gte {
            Some(g) => Some(p + g),
            None => if b.gt is Some {
                None
            } else {
                Some(p)
            },
        },
        lt: match b.lt {
            Some(l) => Some(p + l),
            None => if b.lte is Some {
                None
            } else {
                successor(p)
            },
        },
        lte: match b.lte {
            Some(l) => Some(p + l),
            None => None,
        },
        reverse: b.reverse,
        limit: b.limit,
    }
}

// ---- order and prefixes

/// A prefix in common does not change the order.
proof fn lemma_lt_prefix(p: Seq<u8>, x: Seq<u8>, y: Seq<u8>)
    ensures
        bytes_lt(p + x, p + y) == bytes_lt(x, y),
    decreases p.len(),
{
    if p.len() == 0 {
        assert(p + x =~= x);
        assert(p + y =~= y);
    } else {
        assert((p + x).skip(1) =~= p.skip(1) + x);
        assert((p + y).skip(1) =~= p.skip(1) + y);
        lemma_lt_prefix(p.skip(1), x, y);
    }
}

/// Whether a key that does not begin with a prefix comes before those that do.
spec fn below(k: Seq<u8>, p: Seq<u8>) -> bool
    decreases p.len(),
{
    p.len() > 0 && (k.len() == 0 || k[0] < p[0] || (k[0] == p[0] && below(k.skip(1), p.skip(1))))
}

proof fn lemma_starts_skip(k: Seq<u8>, p: Seq<u8>)
    requires
        k.len() > 0,
        p.len() > 0,
        k[0] == p[0],
    ensures
        starts(k, p) == starts(k.skip(1), p.skip(1)),
{
    if p.len() <= k.len() {
        assert(k.take(p.len() as int).skip(1) =~= k.skip(1).take(p.len() - 1));
        if k.skip(1).take(p.len() - 1) == p.skip(1) {
            assert(k.take(p.len() as int) =~= seq![k[0]] + k.skip(1).take(p.len() - 1));
            assert(p =~= seq![p[0]] + p.skip(1));
        }
    }
}

/// A key that does not begin with a prefix comes before all that do, or after all.
proof fn lemma_outside(k: Seq<u8>, p: Seq<u8>, a: Seq<u8>)
    requires
        !starts(k, p),
    ensures
        bytes_lt(k, p + a) == below(k, p),
        bytes_lt(p + a, k) == !below(k, p),
    decreases p.len(),
{
    if p.len() == 0 {
        assert(k.take(0) =~= p);
    } else if k.len() > 0 && k[0] == p[0] {
        lemma_starts_skip(k, p);
        assert((p + a).skip(1) =~= p.skip(1) + a);
        lemma_outside(k.skip(1), p.skip(1), a);
    }
}

proof fn lemma_successor_front(h: u8, t: Seq<u8>)
    ensures
        successor(seq![h] + t) == match successor(t) {
            Some(u) => Some(seq![h] + u),
            None => if h < 0xff {
                Some(seq![(h + 1) as u8])
            } else {
                None
            },
        },
    decreases t.len(),
{
    let p = seq![h] + t;
    if t.len() == 0 {
        assert(p.drop_last() =~= Seq::empty());
        if h < 0xff {
            assert(p.drop_last().push((h + 1) as u8) =~= seq![(h + 1) as u8]);
        }
    } else {
        assert(p.drop_last() =~= seq![h] + t.drop_last());
        if t.last() < 0xff {
            assert(p.drop_last().push((t.last() + 1) as u8) =~= seq![h] + t.drop_last().push(
                (t.last() + 1) as u8,
            ));
        } else {
            lemma_successor_front(h, t.drop_last());
        }
    }
}

/// A key is less than the successor of a prefix if it begins with the prefix, or comes
/// before those that do.
proof fn lemma_successor(k: Seq<u8>, p: Seq<u8>)
    ensures
        match successor(p) {
            Some(s) => bytes_lt(k, s) == (starts(k, p) || below(k, p)),
            None => starts(k, p) || below(k, p),
        },
    decreases p.len(),
{
    if p.len() == 0 {
        assert(k.take(0) =~= p);
    } else {
        let t = p.skip(1);
        assert(p =~= seq![p[0]] + t);
        lemma_successor_front(p[0], t);
        if k.len() > 0 && k[0] == p[0] {
            lemma_starts_skip(k, p);
            lemma_successor(k.skip(1), t);
        }
        if k.len() > 0 && p.len() <= k.len() && k[0] != p[0] {
            assert(k.take(p.len() as int)[0] == k[0]);
        }
        assert(k.len() == 0 || k[0] != p[0] ==> !starts(k, p));
        match successor(t) {
            Some(u) => {
                let s = seq![p[0]] + u;
                assert(s.skip(1) =~= u);
                assert(s[0] == p[0]);
                assert(bytes_lt(k, s) == (starts(k, p) || below(k, p)));
            },
            None => {
                if p[0] < 0xff {
                    let s = seq![(p[0] + 1) as u8];
                    assert(!bytes_lt(k.skip(1), s.skip(1)));
                    assert(bytes_lt(k, s) == (starts(k, p) || below(k, p)));
                }
            },
        }
    }
}

/// The successor of a prefix is the least key greater than all that begin with it: a key
/// is less than it just if it begins with the prefix or is less than the prefix itself.
/// Where there is none, every key is either.
pub proof fn law_successor(k: Seq<u8>, p: Seq<u8>)
    ensures
        match successor(p) {
            Some(s) => bytes_lt(k, s) == (starts(k, p) || bytes_lt(k, p)),
            None => starts(k, p) || bytes_lt(k, p),
        },
{
    lemma_successor(k, p);
    assert(p + Seq::empty() =~= p);
    if !starts(k, p) {
        lemma_outside(k, p, Seq::empty());
    }
}

/// Bounds under a prefix admit what begins with it and has the rest within the bounds.
proof fn lemma_prefixed(b: Bounds, p: Seq<u8>, k: Seq<u8>)
    ensures
        within(prefixed(b, p), k) == (starts(k, p) && within(b, k.skip(p.len() as int))),
{
    let e = Seq::<u8>::empty();
    assert(p + e =~= p);
    lemma_successor(k, p);
    let gt = b.gt.unwrap_or(e);
    let gte = b.gte.unwrap_or(e);
    let lt = b.lt.unwrap_or(e);
    let lte = b.lte.unwrap_or(e);
    if starts(k, p) {
        let x = k.skip(p.len() as int);
        assert(k =~= p + x);
        lemma_lt_prefix(p, gt, x);
        lemma_lt_prefix(p, x, gte);
        lemma_lt_prefix(p, x, lt);
        lemma_lt_prefix(p, lte, x);
        lemma_lt_prefix(p, x, e);
    } else {
        lemma_outside(k, p, gt);
        lemma_outside(k, p, gte);
        lemma_outside(k, p, lt);
        lemma_outside(k, p, lte);
        lemma_outside(k, p, e);
    }
}

// ---- pairs under a prefix

proof fn lemma_scoped_push(s: Pairs, e: (Seq<u8>, Seq<u8>), p: Seq<u8>)
    ensures
        scoped(s.push(e), p) == if starts(e.0, p) {
            scoped(s, p).push((e.0.skip(p.len() as int), e.1))
        } else {
            scoped(s, p)
        },
{
    reveal(Seq::filter);
    assert(s.push(e).drop_last() =~= s);
    let f = |e: (Seq<u8>, Seq<u8>)| starts(e.0, p);
    if starts(e.0, p) {
        assert(s.push(e).filter(f) =~= s.filter(f).push(e));
        assert(s.filter(f).push(e).map_values(cut(p.len())) =~= s.filter(f).map_values(
            cut(p.len()),
        ).push((e.0.skip(p.len() as int), e.1)));
    }
}

/// Taking what is within prefixed bounds and cutting the prefix off is taking what is
/// within the bounds under the prefix.
proof fn lemma_scoped_kept(s: Pairs, b: Bounds, p: Seq<u8>)
    ensures
        kept(s, prefixed(b, p)).map_values(cut(p.len())) == kept(scoped(s, p), b),
        forall|i: int|
            0 <= i < kept(s, prefixed(b, p)).len() ==> (#[trigger] kept(s, prefixed(
                b,
                p,
            ))[i]).0.len() >= p.len(),
    decreases s.len(),
{
    let c = prefixed(b, p);
    let n = cut(p.len());
    if s.len() == 0 {
        reveal(Seq::filter);
        assert(kept(s, c).map_values(n) =~= kept(scoped(s, p), b));
    } else {
        let t = s.drop_last();
        let e = s.last();
        lemma_scoped_kept(t, b, p);
        assert(s =~= t.push(e));
        lemma_kept_push(t, e, c);
        lemma_scoped_push(t, e, p);
        lemma_prefixed(b, p, e.0);
        let x = (e.0.skip(p.len() as int), e.1);
        if starts(e.0, p) {
            lemma_kept_push(scoped(t, p), x, b);
        }
        if within(c, e.0) {
            assert(kept(t, c).push(e).map_values(n) =~= kept(t, c).map_values(n).push(x));
        }
    }
}

/// Dealing pairs out and cutting their keys can be done in either order.
proof fn lemma_dealt_cut(s: Pairs, reverse: bool, limit: Option<usize>, n: nat)
    ensures
        dealt(s, reverse, limit).map_values(cut(n)) == dealt(s.map_values(cut(n)), reverse, limit),
        forall|i: int|
            0 <= i < dealt(s, reverse, limit).len() ==> s.contains(
                #[trigger] dealt(s, reverse, limit)[i],
            ),
{
    assert(dealt(s, reverse, limit).map_values(cut(n)) =~= dealt(
        s.map_values(cut(n)),
        reverse,
        limit,
    ));
    assert forall|i: int| 0 <= i < dealt(s, reverse, limit).len() implies s.contains(
        #[trigger] dealt(s, reverse, limit)[i],
    ) by {
        let j = if reverse {
            s.len() - 1 - i
        } else {
            i
        };
        assert(dealt(s, reverse, limit)[i] == s[j]);
    }
}

proof fn lemma_scoped_lt(s: Pairs, p: Seq<u8>, x: Seq<u8>)
    requires
        all_lt(s, p + x),
    ensures
        all_lt(scoped(s, p), x),
    decreases s.len(),
{
    if s.len() == 0 {
        reveal(Seq::filter);
    } else {
        let t = s.drop_last();
        let e = s.last();
        assert(s =~= t.push(e));
        assert forall|i: int| 0 <= i < t.len() implies bytes_lt((#[trigger] t[i]).0, p + x) by {
            assert(t[i] == s[i]);
        }
        lemma_scoped_lt(t, p, x);
        lemma_scoped_push(t, e, p);
        if starts(e.0, p) {
            let y = e.0.skip(p.len() as int);
            assert(e.0 =~= p + y);
            lemma_lt_prefix(p, y, x);
        }
    }
}

/// What the pairs under a prefix are, as a map.
pub open spec fn under(m: Map<Seq<u8>, Seq<u8>>, p: Seq<u8>) -> Map<Seq<u8>, Seq<u8>> {
    Map::new(|k: Seq<u8>| m.contains_key(p + k), |k: Seq<u8>| m[p + k])
}

/// The pairs under a prefix are in key order, and hold what is under the prefix.
pub proof fn lemma_scoped_map(s: Pairs, p: Seq<u8>)
    requires
        sorted(s),
    ensures
        sorted(scoped(s, p)),
        map_of(scoped(s, p)) == under(map_of(s), p),
    decreases s.len(),
{
    if s.len() == 0 {
        reveal(Seq::filter);
        assert(map_of(scoped(s, p)) =~= under(map_of(s), p));
    } else {
        let t = s.drop_last();
        let e = s.last();
        assert(s =~= t.push(e));
        assert(all_lt(t, e.0)) by {
            assert forall|i: int| 0 <= i < t.len() implies bytes_lt((#[trigger] t[i]).0, e.0) by {
                assert(t[i] == s[i]);
            }
        }
        assert(sorted(t)) by {
            assert forall|i: int, j: int| 0 <= i < j < t.len() implies bytes_lt(
                (#[trigger] t[i]).0,
                (#[trigger] t[j]).0,
            ) by {
                assert(t[i] == s[i] && t[j] == s[j]);
            }
        }
        lemma_scoped_map(t, p);
        lemma_scoped_push(t, e, p);
        assert(t.push(e) =~= t.insert(t.len() as int, e));
        lemma_insert(t, t.len() as int, e.0, e.1);
        if starts(e.0, p) {
            let y = e.0.skip(p.len() as int);
            let u = scoped(t, p);
            assert(e.0 =~= p + y);
            lemma_scoped_lt(t, p, y);
            assert(u.push((y, e.1)) =~= u.insert(u.len() as int, (y, e.1)));
            lemma_insert(u, u.len() as int, y, e.1);
            assert(under(map_of(s), p) =~= under(map_of(t), p).insert(y, e.1)) by {
                assert forall|k: Seq<u8>| (p + k == p + y) == (k == y) by {
                    assert((p + k).skip(p.len() as int) =~= k);
                    assert((p + y).skip(p.len() as int) =~= y);
                }
            }
        } else {
            assert(under(map_of(s), p) =~= under(map_of(t), p)) by {
                assert forall|k: Seq<u8>| p + k != e.0 by {
                    assert((p + k).take(p.len() as int) =~= p);
                }
            }
        }
    }
}

/// A write under a prefix is a write to the pairs under it, and to no pairs under a prefix
/// that neither begins with it nor is the beginning of it.
pub proof fn law_sub_put(s: Pairs, p: Seq<u8>, k: Seq<u8>, v: Seq<u8>, q: Seq<u8>)
    requires
        sorted(s),
    ensures
        scoped(put_in(s, p + k, v), p) == put_in(scoped(s, p), k, v),
        !starts(p, q) && !starts(q, p) ==> scoped(put_in(s, p + k, v), q) == scoped(s, q),
{
    let t = put_in(s, p + k, v);
    lemma_put_map(s, p + k, v);
    lemma_scoped_map(s, p);
    lemma_scoped_map(t, p);
    lemma_put_map(scoped(s, p), k, v);
    lemma_same_tail(p, k);
    assert(under(map_of(t), p) =~= under(map_of(s), p).insert(k, v));
    lemma_listed_unique(scoped(t, p), put_in(scoped(s, p), k, v));
    if !starts(p, q) && !starts(q, p) {
        lemma_scoped_map(s, q);
        lemma_scoped_map(t, q);
        lemma_apart(p, k, q);
        assert(under(map_of(t), q) =~= under(map_of(s), q));
        lemma_listed_unique(scoped(t, q), scoped(s, q));
    }
}

/// A deletion under a prefix is one from the pairs under it, and from no pairs under a
/// prefix that neither begins with it nor is the beginning of it.
pub proof fn law_sub_del(s: Pairs, p: Seq<u8>, k: Seq<u8>, q: Seq<u8>)
    requires
        sorted(s),
    ensures
        scoped(drop_from(s, p + k), p) == drop_from(scoped(s, p), k),
        !starts(p, q) && !starts(q, p) ==> scoped(drop_from(s, p + k), q) == scoped(s, q),
{
    let t = drop_from(s, p + k);
    lemma_put_map(s, p + k, k);
    lemma_scoped_map(s, p);
    lemma_scoped_map(t, p);
    lemma_put_map(scoped(s, p), k, k);
    lemma_same_tail(p, k);
    assert(under(map_of(t), p) =~= under(map_of(s), p).remove(k));
    lemma_listed_unique(scoped(t, p), drop_from(scoped(s, p), k));
    if !starts(p, q) && !starts(q, p) {
        lemma_scoped_map(s, q);
        lemma_scoped_map(t, q);
        lemma_apart(p, k, q);
        assert(under(map_of(t), q) =~= under(map_of(s), q));
        lemma_listed_unique(scoped(t, q), scoped(s, q));
    }
}

proof fn lemma_same_tail(p: Seq<u8>, k: Seq<u8>)
    ensures
        forall|j: Seq<u8>| (#[trigger] (p + j) == p + k) == (j == k),
{
    assert forall|j: Seq<u8>| (#[trigger] (p + j) == p + k) == (j == k) by {
        assert((p + j).skip(p.len() as int) =~= j);
        assert((p + k).skip(p.len() as int) =~= k);
    }
}

proof fn lemma_apart(p: Seq<u8>, k: Seq<u8>, q: Seq<u8>)
    requires
        !starts(p, q),
        !starts(q, p),
    ensures
        forall|j: Seq<u8>| #[trigger] (q + j) != p + k,
{
    assert forall|j: Seq<u8>| #[trigger] (q + j) != p + k by {
        if q + j == p + k {
            let a = q + j;
            if p.len() <= q.len() {
                assert(q.take(p.len() as int) =~= a.take(p.len() as int));
                assert((p + k).take(p.len() as int) =~= p);
            } else {
                assert(p.take(q.len() as int) =~= (p + k).take(q.len() as int));
                assert(a.take(q.len() as int) =~= q);
            }
        }
    }
}

/// A part of a tree under a prefix: keys go in and out without it.
pub struct Sub<'a, S> {
    pub bee: &'a mut Hyperbee<S>,
    pub prefix: Vec<u8>,
}

/// A key under a prefix.
fn under_prefix(prefix: &Vec<u8>, key: &[u8]) -> (k: Vec<u8>)
    ensures
        k@ == prefix@ + key@,
{
    let mut k: Vec<u8> = copy_of(prefix.as_slice());
    put_all(&mut k, key);
    k
}

/// A bound under a prefix.
fn bound_under(prefix: &Vec<u8>, b: &Option<Vec<u8>>) -> (r: Option<Vec<u8>>)
    ensures
        bytes_in(r) == match bytes_in(*b) {
            Some(x) => Some(prefix@ + x),
            None => None,
        },
{
    match b {
        Some(x) => Some(under_prefix(prefix, x.as_slice())),
        None => None,
    }
}

/// The least key greater than every key that begins with `prefix`, if there is one.
fn prefix_successor(prefix: &[u8]) -> (r: Option<Vec<u8>>)
    ensures
        bytes_in(r) == successor(prefix@),
{
    let mut p: Vec<u8> = copy_of(prefix);
    while p.len() > 0
        invariant
            successor(p@) == successor(prefix@),
        decreases p.len(),
    {
        let at: usize = p.len() - 1;
        let last: u8 = p[at];
        let ghost had = p@;
        if last < 0xff {
            p.set(at, last + 1);
            assert(p@ =~= had.drop_last().push((last + 1) as u8));
            return Some(p);
        }
        let gone: Option<u8> = p.pop();
        assert(p@ =~= had.drop_last());
    }
    None
}

impl<S: Store> Hyperbee<S> {
    /// The part of the tree under `prefix`. Parts under different prefixes live side by
    /// side in one tree.
    pub fn sub<'a>(&'a mut self, prefix: &[u8]) -> (r: Sub<'a, S>)
        ensures
            r.now() == *old(self),
            r.prefix@ == prefix@,
            *final(self) == *final(r.bee),
    {
        Sub { bee: self, prefix: copy_of(prefix) }
    }
}

impl<S: Store> Sub<'_, S> {
    /// The tree as it is now.
    pub open spec fn now(&self) -> Hyperbee<S> {
        *self.bee
    }

    /// What is under the prefix, in key order, the prefix off the keys.
    pub open spec fn pairs(&self) -> Pairs {
        scoped(self.now().pairs(), self.prefix@)
    }

    /// Put `value` under `key`.
    pub fn put(&mut self, key: &[u8], value: &[u8]) -> (r: Result<(), Error<S>>)
        requires
            old(self).now().wf(),
            old(self).now().spare(old(self).prefix@.len() + key@.len() + value@.len()),
        ensures
            final(self).prefix@ == old(self).prefix@,
            *final(final(self).bee) == *final(old(self).bee),
            match r {
                Ok(()) => {
                    &&& final(self).now().wf()
                    &&& final(self).now().pairs() == put_in(
                        old(self).now().pairs(),
                        old(self).prefix@ + key@,
                        value@,
                    )
                    &&& final(self).pairs() == put_in(old(self).pairs(), key@, value@)
                },
                Err(e) => e is Storage && !S::sure() && final(self).now().stalled(&old(self).now()),
            },
    {
        let k: Vec<u8> = under_prefix(&self.prefix, key);
        proof {
            lemma_pairs_sorted(&self.now());
            law_sub_put(self.now().pairs(), self.prefix@, key@, value@, self.prefix@);
        }
        self.bee.put(k.as_slice(), value)
    }

    /// The value for `key`, if there is one.
    pub fn get(&self, key: &[u8]) -> (r: Result<Option<Vec<u8>>, Error<S>>)
        requires
            self.now().sound(),
        ensures
            match r {
                Ok(v) => bytes_in(v) == value_at(self.pairs(), key@),
                Err(e) => e is Storage && !S::sure() && self.now().log().tree.length > 0,
            },
    {
        let k: Vec<u8> = under_prefix(&self.prefix, key);
        proof {
            lemma_pairs_sorted(&self.now());
            lemma_scoped_map(self.now().pairs(), self.prefix@);
        }
        self.bee.get(k.as_slice())
    }

    /// Delete `key`, and say whether it was there.
    pub fn del(&mut self, key: &[u8]) -> (r: Result<bool, Error<S>>)
        requires
            old(self).now().wf(),
            old(self).now().spare(0),
        ensures
            final(self).prefix@ == old(self).prefix@,
            *final(final(self).bee) == *final(old(self).bee),
            match r {
                Ok(b) => {
                    &&& b == map_of(old(self).pairs()).contains_key(key@)
                    &&& final(self).now().wf()
                    &&& final(self).now().pairs() == drop_from(
                        old(self).now().pairs(),
                        old(self).prefix@ + key@,
                    )
                    &&& final(self).pairs() == drop_from(old(self).pairs(), key@)
                },
                Err(e) => {
                    &&& e is Storage
                    &&& !S::sure()
                    &&& old(self).now().log().tree.length > 0
                    &&& final(self).now().stalled(&old(self).now())
                },
            },
    {
        let k: Vec<u8> = under_prefix(&self.prefix, key);
        proof {
            lemma_pairs_sorted(&self.now());
            lemma_scoped_map(self.now().pairs(), self.prefix@);
            law_sub_del(self.now().pairs(), self.prefix@, key@, self.prefix@);
        }
        self.bee.del(k.as_slice())
    }

    /// The pairs under the prefix within bounds. The bounds are on keys without the
    /// prefix, and so are the keys that come out.
    pub fn range(&self, bounds: &Range) -> (r: Result<Vec<(Vec<u8>, Vec<u8>)>, Error<S>>)
        requires
            self.now().sound(),
        ensures
            match r {
                Ok(v) => pairs_view(v@) == selected(self.pairs(), bounds@),
                Err(e) => e is Storage && !S::sure() && self.now().log().tree.length > 0,
            },
    {
        let n: usize = self.prefix.len();
        let gte: Option<Vec<u8>> = match &bounds.gte {
            Some(g) => Some(under_prefix(&self.prefix, g.as_slice())),
            None => if bounds.gt.is_some() {
                None
            } else {
                Some(copy_of(self.prefix.as_slice()))
            },
        };
        let lt: Option<Vec<u8>> = match &bounds.lt {
            Some(l) => Some(under_prefix(&self.prefix, l.as_slice())),
            None => if bounds.lte.is_some() {
                None
            } else {
                prefix_successor(self.prefix.as_slice())
            },
        };
        let full: Range = Range {
            gt: bound_under(&self.prefix, &bounds.gt),
            gte,
            lt,
            lte: bound_under(&self.prefix, &bounds.lte),
            reverse: bounds.reverse,
            limit: bounds.limit,
        };
        let ghost all = self.now().pairs();
        let ghost p = self.prefix@;
        proof {
            assert(full@ == prefixed(bounds@, p));
            lemma_scoped_kept(all, bounds@, p);
            lemma_dealt_cut(kept(all, full@), bounds@.reverse, bounds@.limit, p.len());
        }
        let found: Vec<(Vec<u8>, Vec<u8>)> = match self.bee.range(&full) {
            Ok(v) => v,
            Err(e) => return Err(e),
        };
        let ghost list = pairs_view(found@);
        proof {
            assert forall|i: int| 0 <= i < list.len() implies (#[trigger] list[i]).0.len()
                >= p.len() by {
                assert(kept(all, full@).contains(list[i]));
            }
        }
        let mut out: Vec<(Vec<u8>, Vec<u8>)> = Vec::new();
        let mut i: usize = 0;
        while i < found.len()
            invariant
                i <= found@.len(),
                n == p.len(),
                list == pairs_view(found@),
                forall|i: int| 0 <= i < list.len() ==> (#[trigger] list[i]).0.len() >= p.len(),
                out@.len() == i,
                forall|j: int|
                    0 <= j < i ==> #[trigger] pairs_view(out@)[j] == cut(p.len())(list[j]),
            decreases found.len() - i,
        {
            assert(list[i as int].0.len() >= p.len());
            let k: &Vec<u8> = &found[i].0;
            let short: Vec<u8> = copy_range(k.as_slice(), n, k.len());
            let ghost had = out@;
            proof {
                assert(short@ =~= k@.skip(n as int));
            }
            out.push((short, copy_of(found[i].1.as_slice())));
            proof {
                assert forall|j: int| 0 <= j < i + 1 implies #[trigger] pairs_view(out@)[j] == cut(
                    p.len(),
                )(list[j]) by {
                    if j < i {
                        assert(pairs_view(out@)[j] == pairs_view(had)[j]);
                    }
                }
            }
            i = i + 1;
        }
        assert(pairs_view(out@) =~= list.map_values(cut(p.len())));
        Ok(out)
    }

    /// The version of the whole tree.
    pub fn version(&self) -> (v: u64)
        ensures
            v == self.now().log().tree.length,
    {
        self.bee.version()
    }
}

} // verus!
