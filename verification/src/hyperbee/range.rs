//! Reading ranges of keys, past versions, and writing under a condition.
use vstd::prelude::*;
use super::btree::lemma_child;
use super::node::{copy_entry, pairs_view, Node};
use super::order::{drop_from, put_in};
use super::shape::{before, kids, lemma_block, lemma_weave_bare, listing, spread, weave};
use super::{Error, Hyperbee};
use crate::bytemap::{bytes_less, bytes_lt, map_of, Pairs};
use crate::bytes::{copy_of, same_bytes};
use crate::storage::Store;

verus! {

broadcast use super::stalled::group_stalled;

/// Bounds on the keys to read, and how. A bound that is not set is open. Keys are
/// compared bytewise.
#[derive(Debug)]
pub struct Range {
    pub gt: Option<Vec<u8>>,
    pub gte: Option<Vec<u8>>,
    pub lt: Option<Vec<u8>>,
    pub lte: Option<Vec<u8>>,
    pub reverse: bool,
    pub limit: Option<usize>,
}

/// What a [`Range`] says.
pub ghost struct Bounds {
    pub gt: Option<Seq<u8>>,
    pub gte: Option<Seq<u8>>,
    pub lt: Option<Seq<u8>>,
    pub lte: Option<Seq<u8>>,
    pub reverse: bool,
    pub limit: Option<usize>,
}

/// The bytes of a bound, or of a value, that may be there.
pub open spec fn bytes_in(b: Option<Vec<u8>>) -> Option<Seq<u8>> {
    match b {
        Some(v) => Some(v@),
        None => None,
    }
}

impl View for Range {
    type V = Bounds;

    open spec fn view(&self) -> Bounds {
        Bounds {
            gt: bytes_in(self.gt),
            gte: bytes_in(self.gte),
            lt: bytes_in(self.lt),
            lte: bytes_in(self.lte),
            reverse: self.reverse,
            limit: self.limit,
        }
    }
}

impl Default for Range {
    fn default() -> (r: Self)
        ensures
            r@ == (Bounds {
                gt: None,
                gte: None,
                lt: None,
                lte: None,
                reverse: false,
                limit: None,
            }),
    {
        Range { gt: None, gte: None, lt: None, lte: None, reverse: false, limit: None }
    }
}

/// Copy bytes that may be there.
pub(crate) fn copy_bound(b: &Option<Vec<u8>>) -> (r: Option<Vec<u8>>)
    ensures
        bytes_in(r) == bytes_in(*b),
{
    match b {
        Some(v) => Some(copy_of(v.as_slice())),
        None => None,
    }
}

impl Clone for Range {
    fn clone(&self) -> (r: Self)
        ensures
            r@ == self@,
    {
        Range {
            gt: copy_bound(&self.gt),
            gte: copy_bound(&self.gte),
            lt: copy_bound(&self.lt),
            lte: copy_bound(&self.lte),
            reverse: self.reverse,
            limit: self.limit,
        }
    }
}

/// Whether a key is within bounds.
pub open spec fn within(b: Bounds, k: Seq<u8>) -> bool {
    &&& b.gt matches Some(g) ==> bytes_lt(g, k)
    &&& b.gte matches Some(g) ==> !bytes_lt(k, g)
    &&& b.lt matches Some(l) ==> bytes_lt(k, l)
    &&& b.lte matches Some(l) ==> !bytes_lt(l, k)
}

/// The pairs whose keys are within bounds.
pub open spec fn kept(s: Pairs, b: Bounds) -> Pairs {
    s.filter(|e: (Seq<u8>, Seq<u8>)| within(b, e.0))
}

/// Pairs in the order in which they are read, as many as are to be read.
pub open spec fn dealt(s: Pairs, reverse: bool, limit: Option<usize>) -> Pairs {
    let turned = if reverse {
        s.reverse()
    } else {
        s
    };
    match limit {
        Some(n) if n < turned.len() => turned.take(n as int),
        _ => turned,
    }
}

/// What reading `b` of `s` gives: the pairs within the bounds, last first if reversed,
/// at most as many as the limit says.
pub open spec fn selected(s: Pairs, b: Bounds) -> Pairs {
    dealt(kept(s, b), b.reverse, b.limit)
}

/// One more pair to choose from.
pub(crate) proof fn lemma_kept_push(s: Pairs, e: (Seq<u8>, Seq<u8>), b: Bounds)
    ensures
        kept(s.push(e), b) == if within(b, e.0) {
            kept(s, b).push(e)
        } else {
            kept(s, b)
        },
{
    reveal(Seq::filter);
    assert(s.push(e).drop_last() =~= s);
}

impl Range {
    /// Whether `key` is within the bounds.
    pub fn contains(&self, key: &[u8]) -> (r: bool)
        ensures
            r == within(self@, key@),
    {
        let above: bool = match &self.gt {
            Some(g) => bytes_less(g.as_slice(), key),
            None => true,
        };
        let not_below: bool = match &self.gte {
            Some(g) => !bytes_less(key, g.as_slice()),
            None => true,
        };
        let below: bool = match &self.lt {
            Some(l) => bytes_less(key, l.as_slice()),
            None => true,
        };
        let not_above: bool = match &self.lte {
            Some(l) => !bytes_less(l.as_slice(), key),
            None => true,
        };
        above && not_below && below && not_above
    }

    /// The pairs among `pairs` that reading this range gives, in order.
    pub fn select(&self, pairs: Vec<(Vec<u8>, Vec<u8>)>) -> (r: Vec<(Vec<u8>, Vec<u8>)>)
        ensures
            pairs_view(r@) == selected(pairs_view(pairs@), self@),
    {
        let ghost list = pairs_view(pairs@);
        let mut out: Vec<(Vec<u8>, Vec<u8>)> = Vec::new();
        let mut i: usize = 0;
        proof {
            reveal(Seq::filter);
            assert(list.take(0) =~= Seq::empty());
            assert(pairs_view(out@) =~= kept(list.take(0), self@));
        }
        while i < pairs.len()
            invariant
                i <= pairs@.len(),
                list == pairs_view(pairs@),
                pairs_view(out@) == kept(list.take(i as int), self@),
            decreases pairs.len() - i,
        {
            proof {
                assert(list.take(i + 1) =~= list.take(i as int).push(list[i as int]));
                lemma_kept_push(list.take(i as int), list[i as int], self@);
            }
            let ghost had = out@;
            if self.contains(pairs[i].0.as_slice()) {
                out.push(copy_entry(&pairs[i]));
                assert(pairs_view(out@) =~= pairs_view(had).push(list[i as int]));
            }
            i = i + 1;
        }
        assert(list.take(i as int) =~= list);
        let ghost full = pairs_view(out@);
        if self.reverse {
            let mut turned: Vec<(Vec<u8>, Vec<u8>)> = Vec::new();
            let mut left: usize = out.len();
            while left > 0
                invariant
                    left <= out@.len(),
                    full == pairs_view(out@),
                    turned@.len() + left == full.len(),
                    forall|j: int|
                        0 <= j < turned@.len() ==> #[trigger] pairs_view(turned@)[j]
                            == full[full.len() - 1 - j],
                decreases left,
            {
                left = left - 1;
                let ghost had = turned@;
                turned.push(copy_entry(&out[left]));
                assert forall|j: int| 0 <= j < turned@.len() implies #[trigger] pairs_view(
                    turned@,
                )[j] == full[full.len() - 1 - j] by {
                    if j < had.len() {
                        assert(pairs_view(turned@)[j] == pairs_view(had)[j]);
                    }
                }
            }
            assert(pairs_view(turned@) =~= full.reverse());
            out = turned;
        }
        match self.limit {
            Some(n) => {
                if n < out.len() {
                    let ghost had = out@;
                    out.truncate(n);
                    assert(pairs_view(out@) =~= pairs_view(had).take(n as int));
                }
            },
            None => {},
        }
        out
    }
}

/// The value under a key, if there is one.
pub open spec fn value_at(s: Pairs, k: Seq<u8>) -> Option<Seq<u8>> {
    if map_of(s).contains_key(k) {
        Some(map_of(s)[k])
    } else {
        None
    }
}

/// The bytes that a slice holds, if it is there.
pub open spec fn slice_in(b: Option<&[u8]>) -> Option<Seq<u8>> {
    match b {
        Some(v) => Some(v@),
        None => None,
    }
}

/// Whether two values, either of which may be missing, are the same.
fn same_value(a: &Option<Vec<u8>>, b: Option<&[u8]>) -> (r: bool)
    ensures
        r == (bytes_in(*a) == slice_in(b)),
{
    match (a, b) {
        (Some(x), Some(y)) => same_bytes(x.as_slice(), y),
        (None, None) => true,
        _ => false,
    }
}

impl<S: Store> Hyperbee<S> {
    /// The block of the root as of a version, if there was one.
    fn root_at(&self, version: u64) -> (r: Option<u64>)
        ensures
            match r {
                Some(s) => version > 0 && s < self.log().tree.length && self.pairs_at(version) == listing(
                    self.nodes(),
                    s,
                ),
                None => self.pairs_at(version) == Seq::<(Seq<u8>, Seq<u8>)>::empty(),
            },
    {
        let len: u64 = self.version();
        let v: u64 = if version < len {
            version
        } else {
            len
        };
        if v == 0 {
            None
        } else {
            Some(v - 1)
        }
    }

    /// The value for `key` as of a past version, if there was one.
    pub fn get_at(&self, version: u64, key: &[u8]) -> (r: Result<Option<Vec<u8>>, Error<S>>)
        requires
            self.sound(),
        ensures
            match r {
                Ok(v) => bytes_in(v) == value_at(self.pairs_at(version), key@),
                Err(e) => e is Storage && !S::sure() && version > 0 && self.log().tree.length > 0,
            },
    {
        match self.root_at(version) {
            Some(s) => self.get_from(s, key),
            None => Ok(None),
        }
    }

    /// Put `value` under `key` only if the value there is `expected`, `None` meaning that
    /// there is none; and say whether it was.
    pub fn put_cas(&mut self, key: &[u8], value: &[u8], expected: Option<&[u8]>) -> (r: Result<
        bool,
        Error<S>,
    >)
        requires
            old(self).wf(),
            old(self).spare(key@.len() + value@.len()),
        ensures
            match r {
                Ok(b) => {
                    &&& b == (value_at(old(self).pairs(), key@) == slice_in(expected))
                    &&& !b ==> *final(self) == *old(self)
                    &&& final(self).wf()
                    &&& b ==> final(self).pairs() == put_in(old(self).pairs(), key@, value@)
                    &&& b ==> map_of(final(self).pairs()) == map_of(old(self).pairs()).insert(
                        key@,
                        value@,
                    )
                    &&& b ==> old(self).log().tree.length < final(self).log().tree.length
                    &&& forall|v: u64|
                        v <= old(self).log().tree.length ==> #[trigger] final(self).pairs_at(v)
                            == old(self).pairs_at(v)
                },
                Err(e) => e is Storage && !S::sure() && final(self).stalled(old(self)),
            },
    {
        let now: Option<Vec<u8>> = match self.get(key) {
            Ok(v) => v,
            Err(e) => return Err(e),
        };
        if !same_value(&now, expected) {
            return Ok(false);
        }
        match self.put(key, value) {
            Ok(()) => Ok(true),
            Err(e) => Err(e),
        }
    }

    /// Delete `key` only if the value there is `expected`; and say whether it was there
    /// and was deleted.
    pub fn del_cas(&mut self, key: &[u8], expected: Option<&[u8]>) -> (r: Result<bool, Error<S>>)
        requires
            old(self).wf(),
            old(self).spare(0),
        ensures
            match r {
                Ok(b) => {
                    &&& b == (expected is Some && value_at(old(self).pairs(), key@) == slice_in(
                        expected,
                    ))
                    &&& !b ==> *final(self) == *old(self)
                    &&& final(self).wf()
                    &&& b ==> final(self).pairs() == drop_from(old(self).pairs(), key@)
                    &&& b ==> map_of(final(self).pairs()) == map_of(old(self).pairs()).remove(
                        key@,
                    )
                    &&& b ==> old(self).log().tree.length < final(self).log().tree.length
                    &&& forall|v: u64|
                        v <= old(self).log().tree.length ==> #[trigger] final(self).pairs_at(v)
                            == old(self).pairs_at(v)
                },
                Err(e) => {
                    &&& e is Storage
                    &&& !S::sure()
                    &&& old(self).log().tree.length > 0
                    &&& final(self).stalled(old(self))
                },
            },
    {
        let now: Option<Vec<u8>> = match self.get(key) {
            Ok(v) => v,
            Err(e) => return Err(e),
        };
        if !same_value(&now, expected) {
            return Ok(false);
        }
        self.del(key)
    }

    /// Everything below block `seq`, in order, after what `out` holds.
    fn collect(&self, seq: u64, out: &mut Vec<(Vec<u8>, Vec<u8>)>) -> (r: Result<(), Error<S>>)
        requires
            self.sound(),
            seq < self.log().tree.length,
        ensures
            match r {
                Ok(()) => pairs_view(final(out)@) == pairs_view(old(out)@) + listing(
                    self.nodes(),
                    seq,
                ),
                Err(e) => e is Storage && !S::sure(),
            },
        decreases seq,
    {
        let ghost f = self.nodes();
        let ghost len = self.log().tree.length;
        let ghost had = pairs_view(out@);
        let mut node: Node = match self.node(seq) {
            Ok(n) => n,
            Err(e) => return Err(e),
        };
        let ghost n = node@;
        let ghost q = kids(f, n);
        proof {
            lemma_block(f, len, seq);
        }
        if node.is_leaf() {
            let ghost list = out@;
            let ghost more = node.entries@;
            out.append(&mut node.entries);
            proof {
                lemma_weave_bare(n.entries, q);
                assert(pairs_view(list + more) =~= pairs_view(list) + pairs_view(more));
            }
            return Ok(());
        }
        let mut i: usize = 0;
        proof {
            lemma_child(f, len, seq, 0);
            assert(had + before(n.entries, q, 0) =~= had);
        }
        while i < node.entries.len()
            invariant
                self.sound(),
                f == self.nodes(),
                len == self.log().tree.length,
                seq < len,
                n == f[seq],
                node@ == n,
                !n.is_leaf(),
                n.children.len() == n.entries.len() + 1,
                q == kids(f, n),
                i <= n.entries.len(),
                pairs_view(out@) == had + before(n.entries, q, i as int),
            decreases node.entries.len() - i,
        {
            proof {
                lemma_child(f, len, seq, i as int);
            }
            match self.collect(node.children[i], out) {
                Ok(()) => {},
                Err(e) => return Err(e),
            }
            let ghost list = out@;
            out.push(copy_entry(&node.entries[i]));
            proof {
                assert(pairs_view(out@) =~= pairs_view(list).push(n.entries[i as int]));
                assert((had + before(n.entries, q, i as int) + q[i as int]).push(
                    n.entries[i as int],
                ) =~= had + before(n.entries, q, i + 1));
            }
            i = i + 1;
        }
        proof {
            reveal(weave);
            lemma_child(f, len, seq, i as int);
            assert(had + before(n.entries, q, i as int) + q[i as int] =~= had + spread(f, n));
        }
        self.collect(node.children[i], out)
    }

    /// What reading a range below a root gives, or of nothing if there is no root.
    pub(crate) fn range_from(&self, root: Option<u64>, bounds: &Range) -> (r: Result<
        Vec<(Vec<u8>, Vec<u8>)>,
        Error<S>,
    >)
        requires
            self.sound(),
            root matches Some(s) ==> s < self.log().tree.length,
        ensures
            match r {
                Ok(v) => pairs_view(v@) == selected(
                    match root {
                        Some(s) => listing(self.nodes(), s),
                        None => Seq::empty(),
                    },
                    bounds@,
                ),
                Err(e) => e is Storage && !S::sure() && root is Some,
            },
    {
        let mut out: Vec<(Vec<u8>, Vec<u8>)> = Vec::new();
        assert(pairs_view(out@) =~= Seq::empty());
        match root {
            Some(s) => {
                match self.collect(s, &mut out) {
                    Ok(()) => {},
                    Err(e) => return Err(e),
                }
                assert(Seq::empty() + listing(self.nodes(), s) =~= listing(self.nodes(), s));
            },
            None => {},
        }
        Ok(bounds.select(out))
    }

    /// The pairs within bounds, in key order, or the other way round if that is asked
    /// for, and no more than the limit.
    pub fn range(&self, bounds: &Range) -> (r: Result<Vec<(Vec<u8>, Vec<u8>)>, Error<S>>)
        requires
            self.sound(),
        ensures
            match r {
                Ok(v) => pairs_view(v@) == selected(self.pairs(), bounds@),
                Err(e) => e is Storage && !S::sure() && self.log().tree.length > 0,
            },
    {
        self.range_from(self.root_seq(), bounds)
    }

    /// [`range`](Self::range) as of a past version.
    pub fn range_at(&self, version: u64, bounds: &Range) -> (r: Result<
        Vec<(Vec<u8>, Vec<u8>)>,
        Error<S>,
    >)
        requires
            self.sound(),
        ensures
            match r {
                Ok(v) => pairs_view(v@) == selected(self.pairs_at(version), bounds@),
                Err(e) => e is Storage && !S::sure() && version > 0 && self.log().tree.length > 0,
            },
    {
        self.range_from(self.root_at(version), bounds)
    }

    /// The first pair within bounds, in the order in which they are read, if there is one.
    pub fn peek(&self, bounds: &Range) -> (r: Result<Option<(Vec<u8>, Vec<u8>)>, Error<S>>)
        requires
            self.sound(),
        ensures
            match r {
                Ok(Some(e)) => {
                    let list = dealt(kept(self.pairs(), bounds@), bounds@.reverse, None);
                    list.len() > 0 && (e.0@, e.1@) == list[0]
                },
                Ok(None) => kept(self.pairs(), bounds@).len() == 0,
                Err(e) => e is Storage && !S::sure() && self.log().tree.length > 0,
            },
    {
        let mut one: Range = bounds.clone();
        one.limit = Some(1);
        proof {
            let p = |e: (Seq<u8>, Seq<u8>)| within(bounds@, e.0);
            let q = |e: (Seq<u8>, Seq<u8>)| within(one@, e.0);
            assert(p =~= q);
        }
        let mut list: Vec<(Vec<u8>, Vec<u8>)> = match self.range(&one) {
            Ok(v) => v,
            Err(e) => return Err(e),
        };
        if list.len() == 0 {
            assert(pairs_view(list@).len() == 0);
            return Ok(None);
        }
        let ghost got = pairs_view(list@);
        let e: (Vec<u8>, Vec<u8>) = list.remove(0);
        assert((e.0@, e.1@) == got[0]);
        Ok(Some(e))
    }

    /// A read-only view of the tree as of a past version.
    pub fn checkout(&self, version: u64) -> (c: Checkout<'_, S>)
        requires
            self.sound(),
        ensures
            c.wf(),
            c.pairs() == self.pairs_at(version),
            c.at() == if version < self.log().tree.length {
                version
            } else {
                self.log().tree.length
            },
    {
        let len: u64 = self.version();
        let v: u64 = if version < len {
            version
        } else {
            len
        };
        Checkout { bee: self, root: self.root_at(version), version: v }
    }
}

/// A read-only view of a tree as of a past version.
pub struct Checkout<'a, S> {
    bee: &'a Hyperbee<S>,
    root: Option<u64>,
    version: u64,
}

impl<S: Store> Checkout<'_, S> {
    /// Whether the view's root is a block of the tree.
    pub closed spec fn wf(&self) -> bool {
        &&& self.bee.sound()
        &&& self.root matches Some(s) ==> s < self.bee.log().tree.length && self.version > 0
    }

    /// What the tree held, in key order.
    pub closed spec fn pairs(&self) -> Pairs {
        match self.root {
            Some(s) => listing(self.bee.nodes(), s),
            None => Seq::empty(),
        }
    }

    /// The version of the view.
    pub closed spec fn at(&self) -> u64 {
        self.version
    }

    /// The version of the view.
    pub fn version(&self) -> (v: u64)
        ensures
            v == self.at(),
    {
        self.version
    }

    /// The value for `key` as of this version, if there was one.
    pub fn get(&self, key: &[u8]) -> (r: Result<Option<Vec<u8>>, Error<S>>)
        requires
            self.wf(),
        ensures
            match r {
                Ok(v) => bytes_in(v) == value_at(self.pairs(), key@),
                Err(e) => e is Storage && !S::sure() && self.at() > 0,
            },
    {
        match self.root {
            Some(s) => self.bee.get_from(s, key),
            None => Ok(None),
        }
    }

    /// The pairs within bounds as of this version.
    pub fn range(&self, bounds: &Range) -> (r: Result<Vec<(Vec<u8>, Vec<u8>)>, Error<S>>)
        requires
            self.wf(),
        ensures
            match r {
                Ok(v) => pairs_view(v@) == selected(self.pairs(), bounds@),
                Err(e) => e is Storage && !S::sure() && self.at() > 0,
            },
    {
        self.bee.range_from(self.root, bounds)
    }
}

} // verus!
