//! What one log entry says: an operation and the nodes it was made on top of.
use vstd::prelude::*;
use crate::autobase::{NodeId, WriterKey};
use crate::bytes::{array32, copy_of, get_32, lemma_array32, put_all};
use crate::codec::{varint, Codec, Error};

verus! {

/// The content of one log entry: the bytes of a single block stand for it.
///
/// `heads` are the nodes that the writer had seen and builds on; they order the entry.
/// `payload` is the operation itself, opaque here.
#[derive(Debug, PartialEq, Eq)]
pub struct Entry {
    pub heads: Vec<NodeId>,
    pub payload: Vec<u8>,
}

/// What an [`Entry`] says.
#[verifier::ext_equal]
pub ghost struct EntryView {
    pub heads: Seq<NodeId>,
    pub payload: Seq<u8>,
}

impl View for Entry {
    type V = EntryView;

    open spec fn view(&self) -> EntryView {
        EntryView { heads: self.heads@, payload: self.payload@ }
    }
}

/// Copy node ids.
pub(crate) fn copy_ids(ids: &[NodeId]) -> (v: Vec<NodeId>)
    ensures
        v@ == ids@,
{
    let mut v: Vec<NodeId> = Vec::new();
    let mut i: usize = 0;
    while i < ids.len()
        invariant
            i <= ids@.len(),
            v@ == ids@.take(i as int),
        decreases ids@.len() - i,
    {
        v.push(ids[i]);
        assert(v@ =~= ids@.take(i + 1));
        i = i + 1;
    }
    assert(ids@.take(i as int) =~= ids@);
    v
}

impl Clone for Entry {
    fn clone(&self) -> (r: Self)
        ensures
            r@ == self@,
    {
        Entry { heads: copy_ids(self.heads.as_slice()), payload: copy_of(self.payload.as_slice()) }
    }
}

impl Default for Entry {
    fn default() -> (r: Self)
        ensures
            r@ == (EntryView { heads: Seq::empty(), payload: Seq::empty() }),
    {
        Entry { heads: Vec::new(), payload: Vec::new() }
    }
}

impl Entry {
    pub fn new(heads: Vec<NodeId>, payload: Vec<u8>) -> (e: Self)
        ensures
            e.heads == heads,
            e.payload == payload,
    {
        Entry { heads, payload }
    }
}

/// The format version of an [`Entry`].
pub const ENTRY_V1: u64 = 1;

/// The bytes of node ids: each one's key, then its place in the log.
pub open spec fn ids_bytes(s: Seq<NodeId>) -> Seq<u8>
    decreases s.len(),
{
    if s.len() == 0 {
        Seq::empty()
    } else {
        s[0].key@ + (varint::encoding(s[0].seq as nat) + ids_bytes(s.skip(1)))
    }
}

/// The bytes of an entry: the version, the heads after their number, the payload after
/// its length.
pub open spec fn entry_bytes(e: EntryView) -> Seq<u8> {
    varint::encoding(ENTRY_V1 as nat) + (varint::encoding(e.heads.len()) + (ids_bytes(e.heads) + (
    varint::encoding(e.payload.len()) + e.payload)))
}

/// `acc` with the `n` node ids that start `s`, and what follows them.
pub open spec fn split_ids(s: Seq<u8>, n: nat, acc: Seq<NodeId>) -> Result<
    (Seq<NodeId>, Seq<u8>),
    Error,
>
    decreases n,
{
    if n == 0 {
        Ok((acc, s))
    } else if s.len() < 32 {
        Err(Error::Eof)
    } else {
        match varint::parse(s.skip(32)) {
            Err(e) => Err(e),
            Ok((seq, used)) => split_ids(
                s.skip(32).skip(used as int),
                (n - 1) as nat,
                acc.push(NodeId { key: array32(s.take(32)), seq }),
            ),
        }
    }
}

/// The entry that bytes stand for. Any version is read alike, and what follows the
/// payload is not read.
pub open spec fn parsed_entry(s: Seq<u8>) -> Result<EntryView, Error> {
    match varint::parse(s) {
        Err(e) => Err(e),
        Ok((version, a)) => match varint::parse(s.skip(a as int)) {
            Err(e) => Err(e),
            Ok((n, b)) => match split_ids(s.skip(a as int).skip(b as int), n as nat, Seq::empty()) {
                Err(e) => Err(e),
                Ok((heads, t)) => match varint::parse(t) {
                    Err(e) => Err(e),
                    Ok((len, c)) => if t.len() - c < len {
                        Err(Error::Eof)
                    } else {
                        Ok(EntryView { heads, payload: t.subrange(c as int, c + len) })
                    },
                },
            },
        },
    }
}

/// The encoding of an [`Entry`]: versioned, and tolerant of what a newer writer adds.
#[derive(Clone, Copy, Debug, Default)]
pub struct EntryCodec;

impl Codec<Entry> for EntryCodec {
    open spec fn encoding(&self, value: &Entry) -> Seq<u8> {
        entry_bytes(value@)
    }

    open spec fn decodes(&self, bytes: Seq<u8>, value: &Entry) -> bool {
        parsed_entry(bytes) == Ok::<EntryView, Error>(value@)
    }

    open spec fn refusal(&self, bytes: Seq<u8>) -> Option<Error> {
        match parsed_entry(bytes) {
            Ok(_) => None,
            Err(e) => Some(e),
        }
    }

    fn encode_into(&self, value: &Entry, out: &mut Vec<u8>) {
        let ghost start = out@;
        let ghost heads = value@.heads;
        let ghost tail = varint::encoding(value@.payload.len()) + value@.payload;
        varint::write(out, ENTRY_V1);
        varint::write(out, value.heads.len() as u64);
        let mut i: usize = 0;
        proof {
            assert(heads.skip(0) =~= heads);
            assert(start + entry_bytes(value@) =~= out@ + (ids_bytes(heads.skip(0)) + tail));
        }
        while i < value.heads.len()
            invariant
                i <= value.heads.len(),
                heads == value.heads@,
                start + entry_bytes(value@) == out@ + (ids_bytes(heads.skip(i as int)) + tail),
            decreases value.heads.len() - i,
        {
            let ghost before = out@;
            put_all(out, &value.heads[i].key);
            varint::write(out, value.heads[i].seq);
            proof {
                let rest = heads.skip(i as int);
                assert(rest[0] == heads[i as int]);
                assert(rest.skip(1) =~= heads.skip(i + 1));
                assert(before + (ids_bytes(rest) + tail) =~= out@ + (ids_bytes(heads.skip(i + 1))
                    + tail));
            }
            i = i + 1;
        }
        proof {
            assert(heads.skip(i as int) =~= Seq::empty());
        }
        varint::write(out, value.payload.len() as u64);
        put_all(out, value.payload.as_slice());
        assert(out@ =~= start + entry_bytes(value@));
    }

    fn decode(&self, bytes: &[u8]) -> (r: Result<Entry, Error>) {
        let mut b: &[u8] = bytes;
        let version: u64 = match varint::read(&mut b) {
            Ok(v) => v,
            Err(e) => return Err(e),
        };
        let n: u64 = match varint::read(&mut b) {
            Ok(n) => n,
            Err(e) => return Err(e),
        };
        let ghost s = b@;
        let mut heads: Vec<NodeId> = Vec::new();
        let mut left: u64 = n;
        while left > 0
            invariant
                split_ids(s, n as nat, Seq::empty()) == split_ids(b@, left as nat, heads@),
                split_ids(s, n as nat, Seq::empty()) matches Err(e) ==> parsed_entry(bytes@) == Err::<
                    EntryView,
                    Error,
                >(e),
            decreases left,
        {
            if b.len() < 32 {
                return Err(Error::Eof);
            }
            let key: WriterKey = get_32(b, 0);
            let (front, rest) = b.split_at(32);
            proof {
                assert(b@.subrange(0, 32) =~= b@.take(32));
                assert(rest@ =~= b@.skip(32));
            }
            b = rest;
            let seq: u64 = match varint::read(&mut b) {
                Ok(v) => v,
                Err(e) => return Err(e),
            };
            heads.push(NodeId { key, seq });
            left = left - 1;
        }
        let ghost t = b@;
        let len: u64 = match varint::read(&mut b) {
            Ok(v) => v,
            Err(e) => return Err(e),
        };
        proof {
            varint::lemma_parse_used(t);
        }
        if (b.len() as u64) < len {
            return Err(Error::Eof);
        }
        let (payload, rest) = b.split_at(len as usize);
        let ghost c = varint::parse(t)->Ok_0.1;
        assert(payload@ =~= t.subrange(c as int, c + len));
        let e: Entry = Entry { heads, payload: copy_of(payload) };
        assert(parsed_entry(bytes@) matches Ok(v) && v =~= e@);
        Ok(e)
    }
}

proof fn lemma_split_ids(list: Seq<NodeId>, rest: Seq<u8>, acc: Seq<NodeId>)
    ensures
        split_ids(ids_bytes(list) + rest, list.len(), acc) == Ok::<(Seq<NodeId>, Seq<u8>), Error>(
            (acc + list, rest),
        ),
    decreases list.len(),
{
    if list.len() == 0 {
        assert(ids_bytes(list) + rest =~= rest);
        assert(acc + list =~= acc);
    } else {
        let after = ids_bytes(list.skip(1)) + rest;
        let s = ids_bytes(list) + rest;
        let v = varint::encoding(list[0].seq as nat);
        assert(s =~= list[0].key@ + (v + after));
        assert(s.take(32) =~= list[0].key@);
        assert(s.skip(32) =~= v + after);
        lemma_array32(list[0].key);
        varint::law_parse_encoding(list[0].seq, after);
        assert((v + after).skip(v.len() as int) =~= after);
        lemma_split_ids(list.skip(1), rest, acc.push(list[0]));
        assert(acc.push(list[0]) + list.skip(1) =~= acc + list);
    }
}

/// Decoding an encoded entry gives it back, whatever follows it.
pub proof fn law_entry(e: EntryView, rest: Seq<u8>)
    requires
        e.heads.len() <= u64::MAX,
        e.payload.len() <= u64::MAX,
    ensures
        parsed_entry(entry_bytes(e) + rest) == Ok::<EntryView, Error>(e),
{
    let s = entry_bytes(e) + rest;
    let a = varint::encoding(ENTRY_V1 as nat);
    let b = varint::encoding(e.heads.len());
    let c = varint::encoding(e.payload.len());
    let t = c + (e.payload + rest);
    assert(s =~= a + (b + (ids_bytes(e.heads) + t)));
    varint::law_parse_encoding(ENTRY_V1, b + (ids_bytes(e.heads) + t));
    assert(s.skip(a.len() as int) =~= b + (ids_bytes(e.heads) + t));
    varint::law_parse_encoding(e.heads.len() as u64, ids_bytes(e.heads) + t);
    assert(s.skip(a.len() as int).skip(b.len() as int) =~= ids_bytes(e.heads) + t);
    lemma_split_ids(e.heads, t, Seq::empty());
    assert(Seq::<NodeId>::empty() + e.heads =~= e.heads);
    varint::law_parse_encoding(e.payload.len() as u64, e.payload + rest);
    assert(t.subrange(c.len() as int, (c.len() + e.payload.len()) as int) =~= e.payload);
}

} // verus!
