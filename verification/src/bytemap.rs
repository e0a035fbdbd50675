//! Byte strings in order, and a map from byte strings to byte strings that keeps its
//! keys in that order.
use vstd::prelude::*;
use crate::bytes::{copy_of, same_bytes};

verus! {

/// The lexicographic order of byte strings.
pub open spec fn bytes_lt(a: Seq<u8>, b: Seq<u8>) -> bool
    decreases a.len(),
{
    if b.len() == 0 {
        false
    } else if a.len() == 0 {
        true
    } else if a[0] != b[0] {
        a[0] < b[0]
    } else {
        bytes_lt(a.skip(1), b.skip(1))
    }
}

pub proof fn lemma_lt_irreflexive(a: Seq<u8>)
    ensures
        !bytes_lt(a, a),
    decreases a.len(),
{
    if a.len() > 0 {
        lemma_lt_irreflexive(a.skip(1));
    }
}

pub proof fn lemma_lt_transitive(a: Seq<u8>, b: Seq<u8>, c: Seq<u8>)
    requires
        bytes_lt(a, b),
        bytes_lt(b, c),
    ensures
        bytes_lt(a, c),
    decreases a.len(),
{
    if a.len() > 0 && a[0] == b[0] && b[0] == c[0] {
        lemma_lt_transitive(a.skip(1), b.skip(1), c.skip(1));
    }
}

pub proof fn lemma_lt_total(a: Seq<u8>, b: Seq<u8>)
    ensures
        a == b || bytes_lt(a, b) || bytes_lt(b, a),
        !(bytes_lt(a, b) && bytes_lt(b, a)),
        bytes_lt(a, b) ==> a != b,
    decreases a.len(),
{
    if a.len() == 0 || b.len() == 0 {
        if a.len() == 0 && b.len() == 0 {
            assert(a =~= b);
        }
    } else if a[0] == b[0] {
        lemma_lt_total(a.skip(1), b.skip(1));
        if a.skip(1) == b.skip(1) {
            assert(a =~= seq![a[0]] + a.skip(1));
            assert(b =~= seq![b[0]] + b.skip(1));
        }
        if bytes_lt(a, b) {
            assert(a.skip(1) != b.skip(1));
        }
    }
}

/// Whether `a` comes before `b`.
pub fn bytes_less(a: &[u8], b: &[u8]) -> (r: bool)
    ensures
        r == bytes_lt(a@, b@),
{
    let mut i: usize = 0;
    assert(a@.skip(0) =~= a@);
    assert(b@.skip(0) =~= b@);
    loop
        invariant
            i <= a.len(),
            i <= b.len(),
            bytes_lt(a@, b@) == bytes_lt(a@.skip(i as int), b@.skip(i as int)),
        decreases a.len() - i,
    {
        if i >= b.len() {
            return false;
        }
        if i >= a.len() {
            return true;
        }
        if a[i] != b[i] {
            return a[i] < b[i];
        }
        proof {
            assert(a@.skip(i as int).skip(1) =~= a@.skip(i + 1));
            assert(b@.skip(i as int).skip(1) =~= b@.skip(i + 1));
        }
        i = i + 1;
    }
}

/// Keys with their values.
pub type Pairs = Seq<(Seq<u8>, Seq<u8>)>;

/// Whether the keys go up strictly.
pub open spec fn sorted(s: Pairs) -> bool {
    forall|i: int, j: int| 0 <= i < j < s.len() ==> bytes_lt((#[trigger] s[i]).0, (#[trigger] s[j]).0)
}

/// Whether `k` is among the keys.
pub open spec fn keyed_by(s: Pairs, k: Seq<u8>) -> bool {
    exists|i: int| 0 <= i < s.len() && (#[trigger] s[i]).0 == k
}

/// A place of `k` among the keys.
pub open spec fn place_of(s: Pairs, k: Seq<u8>) -> int {
    choose|i: int| 0 <= i < s.len() && (#[trigger] s[i]).0 == k
}

/// The map that pairs with distinct keys stand for.
pub open spec fn map_of(s: Pairs) -> Map<Seq<u8>, Seq<u8>> {
    Map::new(
        |k: Seq<u8>| keyed_by(s, k),
        |k: Seq<u8>| s[place_of(s, k)].1,
    )
}

/// The pairs of a map in key order.
pub open spec fn listed(m: Map<Seq<u8>, Seq<u8>>) -> Pairs {
    choose|s: Pairs| sorted(s) && map_of(s) == m
}

pub proof fn lemma_lookup(s: Pairs, i: int)
    requires
        sorted(s),
        0 <= i < s.len(),
    ensures
        map_of(s).contains_key(s[i].0),
        map_of(s)[s[i].0] == s[i].1,
{
    let k = s[i].0;
    assert(keyed_by(s, k));
    let j = place_of(s, k);
    assert(0 <= j < s.len() && s[j].0 == k);
    if i < j {
        lemma_lt_irreflexive(k);
        assert(bytes_lt(s[i].0, s[j].0));
    } else if j < i {
        lemma_lt_irreflexive(k);
        assert(bytes_lt(s[j].0, s[i].0));
    }
}

/// Two sorted lists of one map are one list.
pub proof fn lemma_listed_unique(a: Pairs, b: Pairs)
    requires
        sorted(a),
        sorted(b),
        map_of(a) == map_of(b),
    ensures
        a == b,
    decreases a.len(),
{
    if a.len() == 0 {
        if b.len() > 0 {
            lemma_lookup(b, 0);
            assert(keyed_by(a, b[0].0));
        }
        assert(a =~= b);
    } else {
        let n = a.len() - 1;
        lemma_lookup(a, n);
        assert(map_of(b).contains_key(a[n].0));
        let k = choose|k: int| 0 <= k < b.len() && (#[trigger] b[k]).0 == a[n].0;
        let m = b.len() - 1;
        lemma_lookup(b, m);
        assert(map_of(a).contains_key(b[m].0));
        let l = choose|l: int| 0 <= l < a.len() && (#[trigger] a[l]).0 == b[m].0;
        if k < m {
            assert(bytes_lt(b[k].0, b[m].0));
            if l < n {
                assert(bytes_lt(a[l].0, a[n].0));
                lemma_lt_total(a[n].0, b[m].0);
            } else {
                lemma_lt_irreflexive(a[n].0);
            }
        }
        assert(a[n] == b[m]);
        let x = a.drop_last();
        let y = b.drop_last();
        lemma_drop_last(a);
        lemma_drop_last(b);
        lemma_listed_unique(x, y);
        assert(a =~= x.push(a[n]));
        assert(b =~= y.push(b[m]));
    }
}

/// What a sorted list loses with its last pair.
proof fn lemma_drop_last(s: Pairs)
    requires
        sorted(s),
        s.len() > 0,
    ensures
        sorted(s.drop_last()),
        map_of(s.drop_last()) == map_of(s).remove(s.last().0),
{
    let t = s.drop_last();
    let last = s.last().0;
    assert forall|i: int, j: int| 0 <= i < j < t.len() implies bytes_lt(
        (#[trigger] t[i]).0,
        (#[trigger] t[j]).0,
    ) by {
        assert(bytes_lt(s[i].0, s[j].0));
    }
    let u = map_of(s).remove(last);
    assert forall|k: Seq<u8>| #[trigger] map_of(t).contains_key(k) == u.contains_key(k) by {
        if keyed_by(t, k) {
            let i = choose|i: int| 0 <= i < t.len() && (#[trigger] t[i]).0 == k;
            assert(s[i].0 == k);
            assert(bytes_lt(s[i].0, s[s.len() - 1].0));
            lemma_lt_irreflexive(k);
        }
        if keyed_by(s, k) && k != last {
            let i = choose|i: int| 0 <= i < s.len() && (#[trigger] s[i]).0 == k;
            assert(t[i].0 == k);
        }
    }
    assert forall|k: Seq<u8>| #[trigger] map_of(t).contains_key(k) implies map_of(t)[k] == u[k] by {
        let i = choose|i: int| 0 <= i < t.len() && (#[trigger] t[i]).0 == k;
        lemma_lookup(t, i);
        lemma_lookup(s, i);
    }
    assert(map_of(t) =~= u);
}

/// A sorted list is the list of its map.
pub proof fn lemma_listed(s: Pairs)
    requires
        sorted(s),
    ensures
        listed(map_of(s)) == s,
{
    let t = listed(map_of(s));
    assert(sorted(s) && map_of(s) == map_of(s));
    assert(sorted(t) && map_of(t) == map_of(s));
    lemma_listed_unique(s, t);
}

/// Putting a new pair in its place.
pub proof fn lemma_insert(s: Pairs, i: int, k: Seq<u8>, v: Seq<u8>)
    requires
        sorted(s),
        0 <= i <= s.len(),
        forall|j: int| 0 <= j < i ==> bytes_lt((#[trigger] s[j]).0, k),
        forall|j: int| i <= j < s.len() ==> bytes_lt(k, (#[trigger] s[j]).0),
    ensures
        sorted(s.insert(i, (k, v))),
        map_of(s.insert(i, (k, v))) == map_of(s).insert(k, v),
{
    let t = s.insert(i, (k, v));
    assert forall|a: int, b: int| 0 <= a < b < t.len() implies bytes_lt(
        (#[trigger] t[a]).0,
        (#[trigger] t[b]).0,
    ) by {
        let x = if a < i {
            a
        } else {
            a - 1
        };
        let y = if b < i {
            b
        } else {
            b - 1
        };
        if a == i {
            assert(t[b] == s[y]);
        } else if b == i {
            assert(t[a] == s[x]);
        } else {
            assert(t[a] == s[x] && t[b] == s[y]);
            assert(bytes_lt(s[x].0, s[y].0));
        }
    }
    let u = map_of(s).insert(k, v);
    assert forall|q: Seq<u8>| #[trigger] map_of(t).contains_key(q) == u.contains_key(q) by {
        if keyed_by(t, q) && q != k {
            let a = choose|a: int| 0 <= a < t.len() && (#[trigger] t[a]).0 == q;
            let x = if a < i {
                a
            } else {
                a - 1
            };
            assert(s[x].0 == q);
        }
        if keyed_by(s, q) {
            let x = choose|x: int| 0 <= x < s.len() && (#[trigger] s[x]).0 == q;
            let a = if x < i {
                x
            } else {
                x + 1
            };
            assert(t[a].0 == q);
        }
        assert(t[i].0 == k);
    }
    assert forall|q: Seq<u8>| #[trigger] map_of(t).contains_key(q) implies map_of(t)[q] == u[q] by {
        let a = choose|a: int| 0 <= a < t.len() && (#[trigger] t[a]).0 == q;
        lemma_lookup(t, a);
        if a != i {
            let x = if a < i {
                a
            } else {
                a - 1
            };
            assert(s[x] == t[a]);
            lemma_lookup(s, x);
            lemma_lt_irreflexive(k);
            if x < i {
                assert(bytes_lt(s[x].0, k));
            } else {
                assert(bytes_lt(k, s[x].0));
            }
        }
    }
    assert(map_of(t) =~= u);
}

/// Replacing the value of a pair.
pub proof fn lemma_update(s: Pairs, i: int, v: Seq<u8>)
    requires
        sorted(s),
        0 <= i < s.len(),
    ensures
        sorted(s.update(i, (s[i].0, v))),
        map_of(s.update(i, (s[i].0, v))) == map_of(s).insert(s[i].0, v),
{
    let k = s[i].0;
    let t = s.update(i, (k, v));
    assert forall|a: int, b: int| 0 <= a < b < t.len() implies bytes_lt(
        (#[trigger] t[a]).0,
        (#[trigger] t[b]).0,
    ) by {
        assert(bytes_lt(s[a].0, s[b].0));
    }
    let u = map_of(s).insert(k, v);
    assert forall|q: Seq<u8>| #[trigger] map_of(t).contains_key(q) == u.contains_key(q) by {
        if keyed_by(t, q) {
            let a = choose|a: int| 0 <= a < t.len() && (#[trigger] t[a]).0 == q;
            assert(s[a].0 == q);
        }
        if keyed_by(s, q) {
            let a = choose|a: int| 0 <= a < s.len() && (#[trigger] s[a]).0 == q;
            assert(t[a].0 == q);
        }
        assert(t[i].0 == k);
    }
    assert forall|q: Seq<u8>| #[trigger] map_of(t).contains_key(q) implies map_of(t)[q] == u[q] by {
        let a = choose|a: int| 0 <= a < t.len() && (#[trigger] t[a]).0 == q;
        lemma_lookup(t, a);
        if a != i {
            lemma_lookup(s, a);
            lemma_lt_irreflexive(k);
            if a < i {
                assert(bytes_lt(s[a].0, s[i].0));
            } else {
                assert(bytes_lt(s[i].0, s[a].0));
            }
        }
    }
    assert(map_of(t) =~= u);
}

/// Taking a pair out.
pub proof fn lemma_remove(s: Pairs, i: int)
    requires
        sorted(s),
        0 <= i < s.len(),
    ensures
        sorted(s.remove(i)),
        map_of(s.remove(i)) == map_of(s).remove(s[i].0),
{
    let k = s[i].0;
    let t = s.remove(i);
    assert forall|j: int| 0 <= j < i implies bytes_lt((#[trigger] t[j]).0, k) by {
        assert(t[j] == s[j]);
        assert(bytes_lt(s[j].0, s[i].0));
    }
    assert forall|j: int| i <= j < t.len() implies bytes_lt(k, (#[trigger] t[j]).0) by {
        assert(t[j] == s[j + 1]);
        assert(bytes_lt(s[i].0, s[j + 1].0));
    }
    assert forall|a: int, b: int| 0 <= a < b < t.len() implies bytes_lt(
        (#[trigger] t[a]).0,
        (#[trigger] t[b]).0,
    ) by {
        let x = if a < i {
            a
        } else {
            a + 1
        };
        let y = if b < i {
            b
        } else {
            b + 1
        };
        assert(t[a] == s[x] && t[b] == s[y]);
        assert(bytes_lt(s[x].0, s[y].0));
    }
    lemma_insert(t, i, k, s[i].1);
    assert(t.insert(i, (k, s[i].1)) =~= s);
    assert(!keyed_by(t, k)) by {
        if keyed_by(t, k) {
            let a = choose|a: int| 0 <= a < t.len() && (#[trigger] t[a]).0 == k;
            lemma_lt_irreflexive(k);
            if a < i {
                assert(bytes_lt(t[a].0, k));
            } else {
                assert(bytes_lt(k, t[a].0));
            }
        }
    }
    assert(map_of(t) =~= map_of(s).remove(k));
}

/// A map from byte strings to byte strings, in key order.
#[derive(Debug, PartialEq, Eq)]
pub struct ByteMap {
    pairs: Vec<(Vec<u8>, Vec<u8>)>,
}

impl View for ByteMap {
    type V = Map<Seq<u8>, Seq<u8>>;

    closed spec fn view(&self) -> Map<Seq<u8>, Seq<u8>> {
        map_of(self.pairs())
    }
}

impl Clone for ByteMap {
    fn clone(&self) -> (r: Self)
        ensures
            r@ == self@,
            r.wf() == self.wf(),
    {
        let mut pairs: Vec<(Vec<u8>, Vec<u8>)> = Vec::new();
        let mut i: usize = 0;
        while i < self.pairs.len()
            invariant
                i <= self.pairs.len(),
                pairs@.len() == i,
                forall|j: int|
                    0 <= j < i ==> (#[trigger] pairs@[j]).0@ == self.pairs@[j].0@ && pairs@[j].1@
                        == self.pairs@[j].1@,
            decreases self.pairs.len() - i,
        {
            let k: Vec<u8> = copy_of(self.pairs[i].0.as_slice());
            let v: Vec<u8> = copy_of(self.pairs[i].1.as_slice());
            pairs.push((k, v));
            i = i + 1;
        }
        let r: ByteMap = ByteMap { pairs };
        assert(r.pairs() =~= self.pairs());
        r
    }
}

impl Default for ByteMap {
    fn default() -> (r: Self)
        ensures
            r.wf(),
            r@ == Map::<Seq<u8>, Seq<u8>>::empty(),
    {
        ByteMap::new()
    }
}

impl ByteMap {
    /// The pairs, in order.
    pub closed spec fn pairs(&self) -> Pairs {
        Seq::new(self.pairs@.len(), |i: int| (self.pairs@[i].0@, self.pairs@[i].1@))
    }

    /// The keys go up strictly.
    pub closed spec fn wf(&self) -> bool {
        sorted(self.pairs())
    }

    /// What well-formedness says of the pairs.
    pub proof fn lemma_wf(&self)
        requires
            self.wf(),
        ensures
            sorted(self.pairs()),
            self@ == map_of(self.pairs()),
            self.pairs() == listed(self@),
    {
        lemma_listed(self.pairs());
    }

    /// An empty map.
    pub fn new() -> (m: Self)
        ensures
            m.wf(),
            m@ == Map::<Seq<u8>, Seq<u8>>::empty(),
    {
        let m: ByteMap = ByteMap { pairs: Vec::new() };
        assert(m@ =~= Map::<Seq<u8>, Seq<u8>>::empty());
        m
    }

    /// How many keys there are.
    pub fn len(&self) -> (n: usize)
        ensures
            n == self.pairs().len(),
    {
        self.pairs.len()
    }

    /// Whether there is no key.
    pub fn is_empty(&self) -> (b: bool)
        ensures
            b == (self@ == Map::<Seq<u8>, Seq<u8>>::empty()),
    {
        proof {
            if self.pairs@.len() == 0 {
                assert(self@ =~= Map::<Seq<u8>, Seq<u8>>::empty());
            } else {
                assert(self.pairs()[0].0 == self.pairs@[0].0@);
                assert(keyed_by(self.pairs(), self.pairs()[0].0));
                assert(self@.contains_key(self.pairs()[0].0));
            }
        }
        self.pairs.len() == 0
    }

    /// The pair at place `i`.
    pub fn pair(&self, i: usize) -> (p: (&Vec<u8>, &Vec<u8>))
        requires
            i < self.pairs().len(),
        ensures
            (p.0@, p.1@) == self.pairs()[i as int],
    {
        (&self.pairs[i].0, &self.pairs[i].1)
    }

    /// How many keys come before `key`.
    fn place(&self, key: &[u8]) -> (i: usize)
        requires
            self.wf(),
        ensures
            i <= self.pairs().len(),
            forall|j: int| 0 <= j < i ==> bytes_lt((#[trigger] self.pairs()[j]).0, key@),
            forall|j: int|
                i <= j < self.pairs().len() ==> !bytes_lt((#[trigger] self.pairs()[j]).0, key@),
    {
        let mut i: usize = 0;
        while i < self.pairs.len() && bytes_less(self.pairs[i].0.as_slice(), key)
            invariant
                i <= self.pairs.len(),
                self.pairs().len() == self.pairs.len(),
                forall|j: int| 0 <= j < i ==> bytes_lt((#[trigger] self.pairs()[j]).0, key@),
            decreases self.pairs.len() - i,
        {
            i = i + 1;
        }
        proof {
            assert forall|j: int| i <= j < self.pairs().len() implies !bytes_lt(
                (#[trigger] self.pairs()[j]).0,
                key@,
            ) by {
                if j > i {
                    assert(bytes_lt(self.pairs()[i as int].0, self.pairs()[j].0));
                    if bytes_lt(self.pairs()[j].0, key@) {
                        lemma_lt_transitive(self.pairs()[i as int].0, self.pairs()[j].0, key@);
                    }
                }
            }
        }
        i
    }

    /// The value under `key`, if there is one.
    pub fn get(&self, key: &[u8]) -> (r: Option<&Vec<u8>>)
        requires
            self.wf(),
        ensures
            match r {
                Some(v) => self@.contains_key(key@) && v@ == self@[key@],
                None => !self@.contains_key(key@),
            },
    {
        let i: usize = self.place(key);
        if i < self.pairs.len() && same_bytes(self.pairs[i].0.as_slice(), key) {
            proof {
                lemma_lookup(self.pairs(), i as int);
            }
            return Some(&self.pairs[i].1);
        }
        proof {
            self.lemma_absent(key@, i as int);
        }
        None
    }

    /// A key that is not at its place is not there.
    proof fn lemma_absent(&self, key: Seq<u8>, i: int)
        requires
            self.wf(),
            0 <= i <= self.pairs().len(),
            forall|j: int| 0 <= j < i ==> bytes_lt((#[trigger] self.pairs()[j]).0, key),
            forall|j: int|
                i <= j < self.pairs().len() ==> !bytes_lt((#[trigger] self.pairs()[j]).0, key),
            i < self.pairs().len() ==> self.pairs()[i].0 != key,
        ensures
            !self@.contains_key(key),
            forall|j: int|
                i <= j < self.pairs().len() ==> bytes_lt(key, (#[trigger] self.pairs()[j]).0),
    {
        let s = self.pairs();
        assert forall|j: int| i <= j < s.len() implies bytes_lt(key, (#[trigger] s[j]).0) by {
            lemma_lt_total(key, s[i].0);
            if j > i {
                assert(bytes_lt(s[i].0, s[j].0));
                lemma_lt_transitive(key, s[i].0, s[j].0);
            }
        }
        if keyed_by(s, key) {
            let j = choose|j: int| 0 <= j < s.len() && (#[trigger] s[j]).0 == key;
            lemma_lt_irreflexive(key);
            if j < i {
                assert(bytes_lt(s[j].0, key));
            } else {
                assert(bytes_lt(key, s[j].0));
            }
        }
    }

    /// Put `value` under `key`.
    pub fn insert(&mut self, key: Vec<u8>, value: Vec<u8>)
        requires
            old(self).wf(),
        ensures
            final(self).wf(),
            final(self)@ == old(self)@.insert(key@, value@),
    {
        let i: usize = self.place(key.as_slice());
        let ghost s = self.pairs();
        let ghost k = key@;
        let ghost v = value@;
        if i < self.pairs.len() && same_bytes(self.pairs[i].0.as_slice(), key.as_slice()) {
            self.pairs.set(i, (key, value));
            proof {
                lemma_update(s, i as int, v);
                assert(self.pairs() =~= s.update(i as int, (s[i as int].0, v)));
            }
        } else {
            proof {
                self.lemma_absent(k, i as int);
                lemma_insert(s, i as int, k, v);
            }
            self.pairs.insert(i, (key, value));
            assert(self.pairs() =~= s.insert(i as int, (k, v)));
        }
    }

    /// Drop what is under `key`.
    pub fn remove(&mut self, key: &[u8])
        requires
            old(self).wf(),
        ensures
            final(self).wf(),
            final(self)@ == old(self)@.remove(key@),
    {
        let i: usize = self.place(key);
        let ghost s = self.pairs();
        if i < self.pairs.len() && same_bytes(self.pairs[i].0.as_slice(), key) {
            proof {
                lemma_remove(s, i as int);
            }
            self.pairs.remove(i);
            assert(self.pairs() =~= s.remove(i as int));
        } else {
            proof {
                self.lemma_absent(key@, i as int);
                assert(self@.remove(key@) =~= self@);
            }
        }
    }
}

/// A map is listed in the order of its keys, each of them once with its value, and no other.
pub proof fn law_listed(s: Pairs, k: Seq<u8>, v: Seq<u8>)
    requires
        sorted(s),
    ensures
        listed(map_of(s)) == s,
        s.contains((k, v)) <==> map_of(s).contains_key(k) && map_of(s)[k] == v,
        forall|i: int, j: int|
            0 <= i < j < s.len() ==> bytes_lt((#[trigger] s[i]).0, (#[trigger] s[j]).0),
{
    lemma_listed(s);
    if s.contains((k, v)) {
        lemma_lookup(s, s.index_of((k, v)));
    }
    if map_of(s).contains_key(k) {
        let i = place_of(s, k);
        assert(s[i].0 == k);
        assert(s[i] == (k, map_of(s)[k]));
    }
}

} // verus!
