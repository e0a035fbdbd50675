//! B-tree nodes and their bytes.
//!
//! One block is one node: entry count, then key and value of each entry, each with its
//! length before it; child count, then the children. Counts, lengths and children are
//! varints.
use vstd::prelude::*;
use crate::bytemap::Pairs;
use crate::bytes::{copy_of, put_all};
use crate::codec::{varint, Codec, Error};

verus! {

/// A B-tree node: sorted `entries` and, for an internal node, the block numbers of its
/// `children`, one more than the entries. A leaf has no children.
#[derive(Debug, PartialEq, Eq)]
pub struct Node {
    pub entries: Vec<(Vec<u8>, Vec<u8>)>,
    pub children: Vec<u64>,
}

/// What a [`Node`] holds.
#[verifier::ext_equal]
pub ghost struct NodeView {
    pub entries: Pairs,
    pub children: Seq<u64>,
}

/// What pairs of byte vectors hold.
pub open spec fn pairs_view(s: Seq<(Vec<u8>, Vec<u8>)>) -> Pairs {
    s.map_values(|e: (Vec<u8>, Vec<u8>)| (e.0@, e.1@))
}

impl View for Node {
    type V = NodeView;

    open spec fn view(&self) -> NodeView {
        NodeView { entries: pairs_view(self.entries@), children: self.children@ }
    }
}

impl NodeView {
    /// Whether the node has no children.
    pub open spec fn is_leaf(self) -> bool {
        self.children.len() == 0
    }
}

/// Copy an entry.
pub(crate) fn copy_entry(e: &(Vec<u8>, Vec<u8>)) -> (r: (Vec<u8>, Vec<u8>))
    ensures
        r.0@ == e.0@,
        r.1@ == e.1@,
{
    (copy_of(e.0.as_slice()), copy_of(e.1.as_slice()))
}

impl Node {
    /// Whether the node has no children.
    pub fn is_leaf(&self) -> (b: bool)
        ensures
            b == self@.is_leaf(),
    {
        self.children.len() == 0
    }
}

/// A length and that many bytes.
pub open spec fn field(b: Seq<u8>) -> Seq<u8> {
    varint::encoding(b.len()) + b
}

/// The bytes of entries.
pub open spec fn entries_bytes(s: Pairs) -> Seq<u8>
    decreases s.len(),
{
    if s.len() == 0 {
        Seq::empty()
    } else {
        field(s[0].0) + (field(s[0].1) + entries_bytes(s.skip(1)))
    }
}

/// The bytes of children.
pub open spec fn children_bytes(c: Seq<u64>) -> Seq<u8>
    decreases c.len(),
{
    if c.len() == 0 {
        Seq::empty()
    } else {
        varint::encoding(c[0] as nat) + children_bytes(c.skip(1))
    }
}

/// The bytes of a node.
pub open spec fn node_bytes(n: NodeView) -> Seq<u8> {
    varint::encoding(n.entries.len()) + (entries_bytes(n.entries) + (varint::encoding(
        n.children.len(),
    ) + children_bytes(n.children)))
}

/// The field that starts `s`, and what follows it.
pub open spec fn split_field(s: Seq<u8>) -> Result<(Seq<u8>, Seq<u8>), Error> {
    match varint::parse(s) {
        Err(e) => Err(e),
        Ok((n, used)) => if s.len() - used < n {
            Err(Error::Eof)
        } else {
            Ok((s.subrange(used as int, used + n), s.skip(used + n)))
        },
    }
}

/// `acc` with the `n` entries that start `s`, and what follows them.
pub open spec fn split_entries(s: Seq<u8>, n: nat, acc: Pairs) -> Result<(Pairs, Seq<u8>), Error>
    decreases n,
{
    if n == 0 {
        Ok((acc, s))
    } else {
        match split_field(s) {
            Err(e) => Err(e),
            Ok((k, s1)) => match split_field(s1) {
                Err(e) => Err(e),
                Ok((v, s2)) => split_entries(s2, (n - 1) as nat, acc.push((k, v))),
            },
        }
    }
}

/// `acc` with the `n` children that start `s`.
pub open spec fn split_children(s: Seq<u8>, n: nat, acc: Seq<u64>) -> Result<Seq<u64>, Error>
    decreases n,
{
    if n == 0 {
        Ok(acc)
    } else {
        match varint::parse(s) {
            Err(e) => Err(e),
            Ok((c, used)) => split_children(s.skip(used as int), (n - 1) as nat, acc.push(c)),
        }
    }
}

/// The node that bytes stand for; what follows it is not read.
pub open spec fn parsed_node(s: Seq<u8>) -> Result<NodeView, Error> {
    match varint::parse(s) {
        Err(e) => Err(e),
        Ok((n, used)) => match split_entries(s.skip(used as int), n as nat, Seq::empty()) {
            Err(e) => Err(e),
            Ok((entries, s1)) => match varint::parse(s1) {
                Err(e) => Err(e),
                Ok((m, used1)) => match split_children(
                    s1.skip(used1 as int),
                    m as nat,
                    Seq::empty(),
                ) {
                    Err(e) => Err(e),
                    Ok(children) => Ok(NodeView { entries, children }),
                },
            },
        },
    }
}

/// Length-prefixed encoding of a [`Node`].
#[derive(Clone, Copy, Default)]
pub struct NodeCodec;

fn write_field(out: &mut Vec<u8>, b: &[u8])
    ensures
        final(out)@ == old(out)@ + field(b@),
{
    varint::write(out, b.len() as u64);
    put_all(out, b);
    assert(out@ =~= old(out)@ + field(b@));
}

fn read_field(b: &mut &[u8]) -> (r: Result<Vec<u8>, Error>)
    ensures
        match split_field(old(b)@) {
            Ok((f, rest)) => r matches Ok(v) && v@ == f && final(b)@ == rest,
            Err(e) => r == Err::<Vec<u8>, Error>(e),
        },
{
    let ghost s = b@;
    proof {
        varint::lemma_parse_used(s);
    }
    let n: u64 = match varint::read(b) {
        Ok(n) => n,
        Err(e) => return Err(e),
    };
    if (b.len() as u64) < n {
        return Err(Error::Eof);
    }
    let ghost used = (varint::parse(s)->Ok_0).1;
    let ghost mid = b@;
    let (head, rest) = b.split_at(n as usize);
    let v: Vec<u8> = copy_of(head);
    *b = rest;
    proof {
        assert(v@ =~= s.subrange(used as int, used + n));
        assert(b@ =~= s.skip(used + n));
    }
    Ok(v)
}

impl Codec<Node> for NodeCodec {
    open spec fn encoding(&self, value: &Node) -> Seq<u8> {
        node_bytes(value@)
    }

    open spec fn decodes(&self, bytes: Seq<u8>, value: &Node) -> bool {
        parsed_node(bytes) == Ok::<NodeView, Error>(value@)
    }

    open spec fn refusal(&self, bytes: Seq<u8>) -> Option<Error> {
        match parsed_node(bytes) {
            Ok(_) => None,
            Err(e) => Some(e),
        }
    }

    fn encode_into(&self, node: &Node, out: &mut Vec<u8>) {
        let ghost start = out@;
        let ghost entries = node@.entries;
        let ghost children = node@.children;
        let ghost tail = varint::encoding(children.len()) + children_bytes(children);
        varint::write(out, node.entries.len() as u64);
        let mut i: usize = 0;
        proof {
            assert(entries.skip(0) =~= entries);
            assert(start + node_bytes(node@) =~= out@ + (entries_bytes(entries.skip(0)) + tail));
        }
        while i < node.entries.len()
            invariant
                i <= node.entries.len(),
                entries == node@.entries,
                start + node_bytes(node@) == out@ + (entries_bytes(entries.skip(i as int)) + tail),
            decreases node.entries.len() - i,
        {
            let ghost before = out@;
            write_field(out, node.entries[i].0.as_slice());
            write_field(out, node.entries[i].1.as_slice());
            proof {
                let rest = entries.skip(i as int);
                assert(rest[0] == entries[i as int]);
                assert(rest.skip(1) =~= entries.skip(i + 1));
                assert(before + (entries_bytes(rest) + tail) =~= out@ + (entries_bytes(
                    entries.skip(i + 1),
                ) + tail));
            }
            i = i + 1;
        }
        proof {
            assert(entries.skip(i as int) =~= Seq::empty());
        }
        varint::write(out, node.children.len() as u64);
        let mut j: usize = 0;
        proof {
            assert(children.skip(0) =~= children);
            assert(start + node_bytes(node@) =~= out@ + children_bytes(children.skip(0)));
        }
        while j < node.children.len()
            invariant
                j <= node.children.len(),
                children == node@.children,
                start + node_bytes(node@) == out@ + children_bytes(children.skip(j as int)),
            decreases node.children.len() - j,
        {
            let ghost before = out@;
            varint::write(out, node.children[j]);
            proof {
                let rest = children.skip(j as int);
                assert(rest.skip(1) =~= children.skip(j + 1));
                assert(before + children_bytes(rest) =~= out@ + children_bytes(
                    children.skip(j + 1),
                ));
            }
            j = j + 1;
        }
        proof {
            assert(children.skip(j as int) =~= Seq::empty());
            assert(out@ =~= start + node_bytes(node@));
        }
    }

    fn decode(&self, bytes: &[u8]) -> (r: Result<Node, Error>) {
        let mut b: &[u8] = bytes;
        let n: u64 = match varint::read(&mut b) {
            Ok(n) => n,
            Err(e) => return Err(e),
        };
        let ghost s = b@;
        let mut entries: Vec<(Vec<u8>, Vec<u8>)> = Vec::new();
        let mut left: u64 = n;
        assert(pairs_view(entries@) =~= Seq::empty());
        while left > 0
            invariant
                split_entries(s, n as nat, Seq::empty()) == split_entries(
                    b@,
                    left as nat,
                    pairs_view(entries@),
                ),
                    varint::parse(bytes@) matches Ok(p) && p.0 == n && s == bytes@.skip(p.1 as int),
            decreases left,
        {
            let ghost before = pairs_view(entries@);
            let k: Vec<u8> = match read_field(&mut b) {
                Ok(k) => k,
                Err(e) => return Err(e),
            };
            let v: Vec<u8> = match read_field(&mut b) {
                Ok(v) => v,
                Err(e) => return Err(e),
            };
            let ghost pair = (k@, v@);
            entries.push((k, v));
            assert(pairs_view(entries@) =~= before.push(pair));
            left = left - 1;
        }
        let m: u64 = match varint::read(&mut b) {
            Ok(m) => m,
            Err(e) => return Err(e),
        };
        let ghost t = b@;
        let mut children: Vec<u64> = Vec::new();
        let mut more: u64 = m;
        while more > 0
            invariant
                split_children(t, m as nat, Seq::empty()) == split_children(
                    b@,
                    more as nat,
                    children@,
                ),
                split_children(t, m as nat, Seq::empty()) matches Err(e) ==> parsed_node(bytes@)
                    == Err::<NodeView, Error>(e),
            decreases more,
        {
            let c: u64 = match varint::read(&mut b) {
                Ok(c) => c,
                Err(e) => return Err(e),
            };
            children.push(c);
            more = more - 1;
        }
        let node: Node = Node { entries, children };
        assert(parsed_node(bytes@) matches Ok(v) && v =~= node@);
        Ok(node)
    }
}

/// A field and what follows it.
proof fn lemma_split_field(b: Seq<u8>, rest: Seq<u8>)
    requires
        b.len() <= u64::MAX,
    ensures
        split_field(field(b) + rest) == Ok::<(Seq<u8>, Seq<u8>), Error>((b, rest)),
{
    let s = field(b) + rest;
    let e = varint::encoding(b.len());
    varint::law_parse_encoding(b.len() as u64, b + rest);
    assert(s =~= e + (b + rest));
    assert(s.subrange(e.len() as int, (e.len() + b.len()) as int) =~= b);
    assert(s.skip((e.len() + b.len()) as int) =~= rest);
}

proof fn lemma_split_entries(list: Pairs, rest: Seq<u8>, acc: Pairs)
    requires
        small(list),
    ensures
        split_entries(entries_bytes(list) + rest, list.len(), acc) == Ok::<
            (Pairs, Seq<u8>),
            Error,
        >((acc + list, rest)),
    decreases list.len(),
{
    if list.len() == 0 {
        assert(entries_bytes(list) + rest =~= rest);
        assert(acc + list =~= acc);
    } else {
        let (k, v) = list[0];
        let after = entries_bytes(list.skip(1)) + rest;
        assert(entries_bytes(list) + rest =~= field(k) + (field(v) + after));
        lemma_split_field(k, field(v) + after);
        lemma_split_field(v, after);
        assert forall|i: int| 0 <= i < list.skip(1).len() implies (#[trigger] list.skip(
            1,
        )[i]).0.len() <= u64::MAX && list.skip(1)[i].1.len() <= u64::MAX by {
            assert(list.skip(1)[i] == list[i + 1]);
        }
        lemma_split_entries(list.skip(1), rest, acc.push((k, v)));
        assert(acc.push((k, v)) + list.skip(1) =~= acc + list);
    }
}

proof fn lemma_split_children(list: Seq<u64>, acc: Seq<u64>)
    ensures
        split_children(children_bytes(list), list.len(), acc) == Ok::<Seq<u64>, Error>(acc + list),
    decreases list.len(),
{
    if list.len() == 0 {
        assert(acc + list =~= acc);
    } else {
        let rest = children_bytes(list.skip(1));
        let e = varint::encoding(list[0] as nat);
        varint::law_parse_encoding(list[0], rest);
        assert((e + rest).skip(e.len() as int) =~= rest);
        lemma_split_children(list.skip(1), acc.push(list[0]));
        assert(acc.push(list[0]) + list.skip(1) =~= acc + list);
    }
}

/// Whether lengths fit in 64 bits, as those of byte strings in memory do.
pub open spec fn small(list: Pairs) -> bool {
    forall|i: int|
        0 <= i < list.len() ==> (#[trigger] list[i]).0.len() <= u64::MAX && list[i].1.len()
            <= u64::MAX
}

/// Decoding an encoded node gives it back.
pub proof fn law_node(n: NodeView)
    requires
        small(n.entries),
        n.entries.len() <= u64::MAX,
        n.children.len() <= u64::MAX,
    ensures
        parsed_node(node_bytes(n)) == Ok::<NodeView, Error>(n),
{
    let s = node_bytes(n);
    let c = varint::encoding(n.children.len()) + children_bytes(n.children);
    let e = varint::encoding(n.entries.len());
    varint::law_parse_encoding(n.entries.len() as u64, entries_bytes(n.entries) + c);
    assert(s.skip(e.len() as int) =~= entries_bytes(n.entries) + c);
    lemma_split_entries(n.entries, c, Seq::empty());
    assert(Seq::<(Seq<u8>, Seq<u8>)>::empty() + n.entries =~= n.entries);
    let m = varint::encoding(n.children.len());
    varint::law_parse_encoding(n.children.len() as u64, children_bytes(n.children));
    assert(c.skip(m.len() as int) =~= children_bytes(n.children));
    lemma_split_children(n.children, Seq::empty());
    assert(Seq::<u64>::empty() + n.children =~= n.children);
}

/// How many entries a node that is stored has at most.
pub const MAX_KEYS: usize = 8;

/// The larger of two numbers.
pub open spec fn larger(a: nat, b: nat) -> nat {
    if a >= b {
        a
    } else {
        b
    }
}

/// What a full node of pairs like this one takes at most.
pub open spec fn pair_bulk(e: (Seq<u8>, Seq<u8>)) -> nat {
    (8 * (e.0.len() + e.1.len() + 20)) as nat
}

/// What the entries of a node take at most, if they are among these pairs.
pub open spec fn bulk(s: Pairs) -> nat
    decreases s.len(),
{
    if s.len() == 0 {
        0
    } else {
        larger(bulk(s.drop_last()), pair_bulk(s.last()))
    }
}

pub proof fn lemma_bulk_append(a: Pairs, b: Pairs)
    ensures
        bulk(a + b) == larger(bulk(a), bulk(b)),
    decreases b.len(),
{
    if b.len() == 0 {
        assert(a + b =~= a);
    } else {
        assert((a + b).drop_last() =~= a + b.drop_last());
        lemma_bulk_append(a, b.drop_last());
    }
}

pub proof fn lemma_bulk_one(e: (Seq<u8>, Seq<u8>))
    ensures
        bulk(seq![e]) == pair_bulk(e),
{
    assert(seq![e].drop_last() =~= Seq::empty());
    assert(bulk(seq![e].drop_last()) == 0);
}

proof fn lemma_entries_size(s: Pairs)
    requires
        small(s),
    ensures
        8 * entries_bytes(s).len() <= s.len() * bulk(s),
    decreases s.len(),
{
    if s.len() > 0 {
        let rest = s.skip(1);
        assert(small(rest)) by {
            assert forall|i: int| 0 <= i < rest.len() implies (#[trigger] rest[i]).0.len()
                <= u64::MAX && rest[i].1.len() <= u64::MAX by {
                assert(rest[i] == s[i + 1]);
            }
        }
        lemma_entries_size(rest);
        assert(s =~= seq![s[0]] + rest);
        lemma_bulk_append(seq![s[0]], rest);
        lemma_bulk_one(s[0]);
        varint::lemma_encoding_len(s[0].0.len() as u64);
        varint::lemma_encoding_len(s[0].1.len() as u64);
        let n = rest.len();
        let w = bulk(s);
        assert(n * bulk(rest) <= n * w) by (nonlinear_arith)
            requires
                bulk(rest) <= w,
        ;
        assert(s.len() * w == n * w + w) by (nonlinear_arith)
            requires
                s.len() == n + 1,
        ;
    }
}

proof fn lemma_children_size(c: Seq<u64>)
    ensures
        children_bytes(c).len() <= 10 * c.len(),
    decreases c.len(),
{
    if c.len() > 0 {
        varint::lemma_encoding_len(c[0]);
        lemma_children_size(c.skip(1));
    }
}

/// How long the bytes of a node can be.
pub proof fn lemma_node_size(n: NodeView)
    requires
        small(n.entries),
        n.entries.len() <= MAX_KEYS,
        n.children.len() <= u64::MAX,
    ensures
        node_bytes(n).len() <= bulk(n.entries) + 10 * n.children.len() + 20,
{
    lemma_entries_size(n.entries);
    let k = n.entries.len();
    let w = bulk(n.entries);
    assert(k * w <= 8 * w) by (nonlinear_arith)
        requires
            k <= 8,
    ;
    lemma_children_size(n.children);
    varint::lemma_encoding_len(n.entries.len() as u64);
    varint::lemma_encoding_len(n.children.len() as u64);
}

} // verus!
