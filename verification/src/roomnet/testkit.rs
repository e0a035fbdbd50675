//! Small projections: a key/value map, and a count.
use vstd::prelude::*;
use super::projection::Projection;
use crate::autobase::NodeId;
use crate::bytemap::ByteMap;
use crate::bytes::{copy_of, put_all};
use crate::codec::varint;

verus! {

pub const OP_PUT: u8 = 0;

pub const OP_DEL: u8 = 1;

/// The bytes of an operation that puts `value` under `key`.
pub open spec fn put_op(key: Seq<u8>, value: Seq<u8>) -> Seq<u8> {
    seq![OP_PUT] + (varint::encoding(key.len()) + (key + value))
}

/// The bytes of an operation that removes `key`.
pub open spec fn del_op(key: Seq<u8>) -> Seq<u8> {
    seq![OP_DEL] + key
}

/// The map after an operation, if it is one.
pub open spec fn kv_after(m: Map<Seq<u8>, Seq<u8>>, op: Seq<u8>) -> Option<
    Map<Seq<u8>, Seq<u8>>,
> {
    let rest = op.skip(1);
    if op.len() == 0 {
        None
    } else if op[0] == OP_PUT {
        match varint::parse(rest) {
            Err(_) => None,
            Ok((n, used)) => if rest.len() - used < n {
                None
            } else {
                Some(m.insert(rest.subrange(used as int, used + n), rest.skip(used + n)))
            },
        }
    } else if op[0] == OP_DEL {
        Some(m.remove(rest))
    } else {
        None
    }
}

/// An operation that puts `value` under `key`.
pub fn put(key: &[u8], value: &[u8]) -> (out: Vec<u8>)
    ensures
        out@ == put_op(key@, value@),
{
    let mut out: Vec<u8> = Vec::new();
    out.push(OP_PUT);
    varint::write(&mut out, key.len() as u64);
    put_all(&mut out, key);
    put_all(&mut out, value);
    assert(out@ =~= put_op(key@, value@));
    out
}

/// An operation that removes `key`.
pub fn del(key: &[u8]) -> (out: Vec<u8>)
    ensures
        out@ == del_op(key@),
{
    let mut out: Vec<u8> = Vec::new();
    out.push(OP_DEL);
    put_all(&mut out, key);
    assert(out@ =~= del_op(key@));
    out
}

/// A key/value map: the last write in the order wins.
#[derive(Debug, PartialEq, Eq)]
pub struct KvProjection {
    state: ByteMap,
}

impl KvProjection {
    /// An empty map.
    pub fn new() -> (p: Self)
        ensures
            p.wf(),
            p.model() == Map::<Seq<u8>, Seq<u8>>::empty(),
    {
        KvProjection { state: ByteMap::new() }
    }
}

impl Default for KvProjection {
    fn default() -> (p: Self)
        ensures
            p.wf(),
            p.model() == Map::<Seq<u8>, Seq<u8>>::empty(),
    {
        KvProjection::new()
    }
}

impl Clone for KvProjection {
    fn clone(&self) -> (p: Self)
        ensures
            self.wf() ==> p.wf() && p.model() == self.model(),
    {
        KvProjection { state: self.state.clone() }
    }
}

/// The operation is malformed.
#[derive(Debug)]
pub struct KvError;

impl Projection for KvProjection {
    type State = ByteMap;

    type Error = KvError;

    type Model = Map<Seq<u8>, Seq<u8>>;

    closed spec fn wf(&self) -> bool {
        self.state.wf()
    }

    closed spec fn model(&self) -> Map<Seq<u8>, Seq<u8>> {
        self.state@
    }

    open spec fn sound(state: &ByteMap) -> bool {
        state.wf()
    }

    open spec fn meaning(state: &ByteMap) -> Map<Seq<u8>, Seq<u8>> {
        state@
    }

    open spec fn applied(m: Map<Seq<u8>, Seq<u8>>, node: NodeId, payload: Seq<u8>) -> Map<
        Seq<u8>,
        Seq<u8>,
    > {
        match kv_after(m, payload) {
            Some(n) => n,
            None => m,
        }
    }

    open spec fn accepts(m: Map<Seq<u8>, Seq<u8>>, node: NodeId, payload: Seq<u8>) -> bool {
        kv_after(m, payload) is Some
    }

    fn apply(&mut self, _node: NodeId, payload: &[u8]) -> (r: Result<(), KvError>) {
        if payload.len() == 0 {
            return Err(KvError);
        }
        let tag: u8 = payload[0];
        let (front, tail) = payload.split_at(1);
        let mut rest: &[u8] = tail;
        assert(rest@ =~= payload@.skip(1));
        let ghost all = rest@;
        if tag == OP_PUT {
            let n: u64 = match varint::read(&mut rest) {
                Ok(n) => n,
                Err(_) => return Err(KvError),
            };
            proof {
                varint::lemma_parse_used(all);
            }
            if (rest.len() as u64) < n {
                return Err(KvError);
            }
            let (key, value) = rest.split_at(n as usize);
            proof {
                let used = varint::parse(all)->Ok_0.1;
                assert(key@ =~= all.subrange(used as int, used + n));
                assert(value@ =~= all.skip(used + n));
            }
            self.state.insert(copy_of(key), copy_of(value));
        } else if tag == OP_DEL {
            self.state.remove(rest);
        } else {
            return Err(KvError);
        }
        Ok(())
    }

    fn snapshot(&self) -> (s: &ByteMap) {
        &self.state
    }

    fn reset_to(&mut self, checkpoint: &ByteMap) {
        self.state = checkpoint.clone();
    }
}

/// Putting is putting, removing is removing.
pub proof fn law_kv(m: Map<Seq<u8>, Seq<u8>>, key: Seq<u8>, value: Seq<u8>)
    requires
        key.len() <= u64::MAX,
    ensures
        kv_after(m, put_op(key, value)) == Some(m.insert(key, value)),
        kv_after(m, del_op(key)) == Some(m.remove(key)),
{
    let e = varint::encoding(key.len());
    let rest = put_op(key, value).skip(1);
    assert(rest =~= e + (key + value));
    varint::law_parse_encoding(key.len() as u64, key + value);
    assert(rest.subrange(e.len() as int, (e.len() + key.len()) as int) =~= key);
    assert(rest.skip((e.len() + key.len()) as int) =~= value);
    assert(del_op(key).skip(1) =~= key);
}

/// How many operations were applied, whatever they are.
#[derive(Clone, Debug, Default)]
pub struct CounterProjection {
    n: u64,
}

/// No error: a count takes every operation.
pub type Never = core::convert::Infallible;

impl Projection for CounterProjection {
    type State = u64;

    type Error = Never;

    type Model = u64;

    open spec fn wf(&self) -> bool {
        true
    }

    closed spec fn model(&self) -> u64 {
        self.n
    }

    open spec fn sound(state: &u64) -> bool {
        true
    }

    open spec fn meaning(state: &u64) -> u64 {
        *state
    }

    open spec fn applied(m: u64, node: NodeId, payload: Seq<u8>) -> u64 {
        if m == u64::MAX {
            0
        } else {
            (m + 1) as u64
        }
    }

    open spec fn accepts(m: u64, node: NodeId, payload: Seq<u8>) -> bool {
        true
    }

    fn apply(&mut self, _node: NodeId, _payload: &[u8]) -> (r: Result<(), Never>) {
        self.n = self.n.wrapping_add(1);
        Ok(())
    }

    fn snapshot(&self) -> (s: &u64) {
        &self.n
    }

    fn reset_to(&mut self, checkpoint: &u64) {
        self.n = *checkpoint;
    }
}

} // verus!
