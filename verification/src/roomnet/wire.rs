//! The bytes of a [`SyncMessage`].
use vstd::prelude::*;
use super::sync::{proof_view, Message, ProofView, SyncMessage};
use crate::autobase::WriterKey;
use crate::bytes::{array32, copy_of, get_32, get_64, lemma_array32, put_all};
use crate::codec::varint;
use crate::hypercore::SignedHead;
use crate::identity::{sig_of, Sig};
use crate::merkle::{Node, Proof};

verus! {

/// Why a buffer is no message.
#[derive(Debug, PartialEq, Eq)]
pub enum WireError {
    /// Ran out of bytes mid-value.
    Eof,
    /// A varint did not end.
    Varint,
    /// No message has this tag.
    BadTag(u64),
}

pub const T_HEAD: u64 = 0;

pub const T_HAVE: u64 = 1;

pub const T_WANT: u64 = 2;

pub const T_BLOCK: u64 = 3;

// ---- what is written

pub open spec fn head_form(h: SignedHead) -> Seq<u8> {
    varint::encoding(h.fork as nat) + (varint::encoding(h.length as nat) + (h.root@ + h.sig@@))
}

pub open spec fn node_form(n: Node) -> Seq<u8> {
    varint::encoding(n.index as nat) + (n.hash@ + varint::encoding(n.size as nat))
}

pub open spec fn list_form(s: Seq<Node>) -> Seq<u8>
    decreases s.len(),
{
    if s.len() == 0 {
        Seq::empty()
    } else {
        node_form(s[0]) + list_form(s.skip(1))
    }
}

pub open spec fn nodes_form(s: Seq<Node>) -> Seq<u8> {
    varint::encoding(s.len()) + list_form(s)
}

pub open spec fn proof_form(p: ProofView) -> Seq<u8> {
    varint::encoding(p.block as nat) + (varint::encoding(p.leaf_size as nat) + (nodes_form(
        p.siblings,
    ) + nodes_form(p.roots)))
}

/// The bytes of a message: its tag, the writer, and what the message says of it.
pub open spec fn message_form(m: Message) -> Seq<u8> {
    match m {
        Message::Head { writer, head } => varint::encoding(T_HEAD as nat) + (writer@ + head_form(
            head,
        )),
        Message::Have { writer, length } => varint::encoding(T_HAVE as nat) + (writer@
            + varint::encoding(length as nat)),
        Message::Want { writer, start, end } => varint::encoding(T_WANT as nat) + (writer@ + (
        varint::encoding(start as nat) + varint::encoding(end as nat))),
        Message::Block { writer, head, index, bytes, inclusion } => varint::encoding(
            T_BLOCK as nat,
        ) + (writer@ + (head_form(head) + (varint::encoding(index as nat) + (varint::encoding(
            bytes.len(),
        ) + (bytes + proof_form(inclusion)))))),
    }
}

// ---- what is read: a value, and what follows it

pub open spec fn take_u64(s: Seq<u8>) -> Result<(u64, Seq<u8>), WireError> {
    match varint::parse(s) {
        Ok((v, used)) => Ok((v, s.skip(used as int))),
        Err(_) => Err(WireError::Varint),
    }
}

pub open spec fn take_32(s: Seq<u8>) -> Result<([u8; 32], Seq<u8>), WireError> {
    if s.len() < 32 {
        Err(WireError::Eof)
    } else {
        Ok((array32(s.take(32)), s.skip(32)))
    }
}

pub open spec fn take_sig(s: Seq<u8>) -> Result<(Sig, Seq<u8>), WireError> {
    if s.len() < 64 {
        Err(WireError::Eof)
    } else {
        Ok((sig_of(s.take(64)), s.skip(64)))
    }
}

pub open spec fn take_head(s: Seq<u8>) -> Result<(SignedHead, Seq<u8>), WireError> {
    match take_u64(s) {
        Err(e) => Err(e),
        Ok((fork, s1)) => match take_u64(s1) {
            Err(e) => Err(e),
            Ok((length, s2)) => match take_32(s2) {
                Err(e) => Err(e),
                Ok((root, s3)) => match take_sig(s3) {
                    Err(e) => Err(e),
                    Ok((sig, s4)) => Ok((SignedHead { fork, length, root, sig }, s4)),
                },
            },
        },
    }
}

pub open spec fn take_node(s: Seq<u8>) -> Result<(Node, Seq<u8>), WireError> {
    match take_u64(s) {
        Err(e) => Err(e),
        Ok((index, s1)) => match take_32(s1) {
            Err(e) => Err(e),
            Ok((hash, s2)) => match take_u64(s2) {
                Err(e) => Err(e),
                Ok((size, s3)) => Ok((Node { index, hash, size }, s3)),
            },
        },
    }
}

/// `acc` with the `n` nodes that start `s`, and what follows them.
pub open spec fn take_list(s: Seq<u8>, n: nat, acc: Seq<Node>) -> Result<
    (Seq<Node>, Seq<u8>),
    WireError,
>
    decreases n,
{
    if n == 0 {
        Ok((acc, s))
    } else {
        match take_node(s) {
            Err(e) => Err(e),
            Ok((x, s1)) => take_list(s1, (n - 1) as nat, acc.push(x)),
        }
    }
}

pub open spec fn take_nodes(s: Seq<u8>) -> Result<(Seq<Node>, Seq<u8>), WireError> {
    match take_u64(s) {
        Err(e) => Err(e),
        Ok((n, s1)) => take_list(s1, n as nat, Seq::empty()),
    }
}

pub open spec fn take_proof(s: Seq<u8>) -> Result<(ProofView, Seq<u8>), WireError> {
    match take_u64(s) {
        Err(e) => Err(e),
        Ok((block, s1)) => match take_u64(s1) {
            Err(e) => Err(e),
            Ok((leaf_size, s2)) => match take_nodes(s2) {
                Err(e) => Err(e),
                Ok((siblings, s3)) => match take_nodes(s3) {
                    Err(e) => Err(e),
                    Ok((roots, s4)) => Ok((ProofView { block, leaf_size, siblings, roots }, s4)),
                },
            },
        },
    }
}

/// Length-prefixed bytes.
pub open spec fn take_bytes(s: Seq<u8>) -> Result<(Seq<u8>, Seq<u8>), WireError> {
    match take_u64(s) {
        Err(e) => Err(e),
        Ok((n, s1)) => if s1.len() < n {
            Err(WireError::Eof)
        } else {
            Ok((s1.take(n as int), s1.skip(n as int)))
        },
    }
}

pub open spec fn take_block(writer: WriterKey, s: Seq<u8>) -> Result<Message, WireError> {
    match take_head(s) {
        Err(e) => Err(e),
        Ok((head, s1)) => match take_u64(s1) {
            Err(e) => Err(e),
            Ok((index, s2)) => match take_bytes(s2) {
                Err(e) => Err(e),
                Ok((bytes, s3)) => match take_proof(s3) {
                    Err(e) => Err(e),
                    Ok((inclusion, s4)) => Ok(
                        Message::Block { writer, head, index, bytes, inclusion },
                    ),
                },
            },
        },
    }
}

pub open spec fn take_want(writer: WriterKey, s: Seq<u8>) -> Result<Message, WireError> {
    match take_u64(s) {
        Err(e) => Err(e),
        Ok((start, s1)) => match take_u64(s1) {
            Err(e) => Err(e),
            Ok((end, s2)) => Ok(Message::Want { writer, start, end }),
        },
    }
}

/// What a message with a tag says of a writer.
pub open spec fn take_rest(tag: u64, writer: WriterKey, s: Seq<u8>) -> Result<Message, WireError> {
    if tag == T_HEAD {
        match take_head(s) {
            Err(e) => Err(e),
            Ok((head, s1)) => Ok(Message::Head { writer, head }),
        }
    } else if tag == T_HAVE {
        match take_u64(s) {
            Err(e) => Err(e),
            Ok((length, s1)) => Ok(Message::Have { writer, length }),
        }
    } else if tag == T_WANT {
        take_want(writer, s)
    } else if tag == T_BLOCK {
        take_block(writer, s)
    } else {
        Err(WireError::BadTag(tag))
    }
}

/// The message that bytes stand for; what follows it is not read.
pub open spec fn parsed_message(s: Seq<u8>) -> Result<Message, WireError> {
    match take_u64(s) {
        Err(e) => Err(e),
        Ok((tag, s1)) => match take_32(s1) {
            Err(e) => Err(e),
            Ok((writer, s2)) => take_rest(tag, writer, s2),
        },
    }
}

// ---- writing

fn wr_head(out: &mut Vec<u8>, h: &SignedHead)
    ensures
        final(out)@ == old(out)@ + head_form(*h),
{
    varint::write(out, h.fork);
    varint::write(out, h.length);
    put_all(out, &h.root);
    put_all(out, &h.sig.to_bytes());
    assert(out@ =~= old(out)@ + head_form(*h));
}

fn wr_node(out: &mut Vec<u8>, n: &Node)
    ensures
        final(out)@ == old(out)@ + node_form(*n),
{
    varint::write(out, n.index);
    put_all(out, &n.hash);
    varint::write(out, n.size);
    assert(out@ =~= old(out)@ + node_form(*n));
}

fn wr_nodes(out: &mut Vec<u8>, ns: &[Node])
    ensures
        final(out)@ == old(out)@ + nodes_form(ns@),
{
    let ghost start = out@;
    varint::write(out, ns.len() as u64);
    let mut i: usize = 0;
    proof {
        assert(ns@.skip(0) =~= ns@);
        assert(start + nodes_form(ns@) =~= out@ + list_form(ns@.skip(0)));
    }
    while i < ns.len()
        invariant
            i <= ns@.len(),
            start + nodes_form(ns@) == out@ + list_form(ns@.skip(i as int)),
        decreases ns@.len() - i,
    {
        let ghost before = out@;
        wr_node(out, &ns[i]);
        proof {
            let rest = ns@.skip(i as int);
            assert(rest.skip(1) =~= ns@.skip(i + 1));
            assert(before + list_form(rest) =~= out@ + list_form(ns@.skip(i + 1)));
        }
        i = i + 1;
    }
    proof {
        assert(ns@.skip(i as int) =~= Seq::empty());
        assert(out@ =~= start + nodes_form(ns@));
    }
}

fn wr_proof(out: &mut Vec<u8>, p: &Proof)
    ensures
        final(out)@ == old(out)@ + proof_form(proof_view(*p)),
{
    varint::write(out, p.block);
    varint::write(out, p.leaf_size);
    wr_nodes(out, p.siblings.as_slice());
    wr_nodes(out, p.roots.as_slice());
    assert(out@ =~= old(out)@ + proof_form(proof_view(*p)));
}

/// The bytes of a message.
pub fn encode(m: &SyncMessage) -> (out: Vec<u8>)
    ensures
        out@ == message_form(m@),
{
    let mut out: Vec<u8> = Vec::new();
    match m {
        SyncMessage::Head { writer, head } => {
            varint::write(&mut out, T_HEAD);
            put_all(&mut out, writer);
            wr_head(&mut out, head);
        },
        SyncMessage::Have { writer, length } => {
            varint::write(&mut out, T_HAVE);
            put_all(&mut out, writer);
            varint::write(&mut out, *length);
        },
        SyncMessage::Want { writer, start, end } => {
            varint::write(&mut out, T_WANT);
            put_all(&mut out, writer);
            varint::write(&mut out, *start);
            varint::write(&mut out, *end);
        },
        SyncMessage::Block { writer, head, index, bytes, proof } => {
            varint::write(&mut out, T_BLOCK);
            put_all(&mut out, writer);
            wr_head(&mut out, head);
            varint::write(&mut out, *index);
            varint::write(&mut out, bytes.len() as u64);
            put_all(&mut out, bytes.as_slice());
            wr_proof(&mut out, proof);
        },
    }
    assert(out@ =~= message_form(m@));
    out
}

// ---- reading

fn rd_u64(b: &mut &[u8]) -> (r: Result<u64, WireError>)
    ensures
        match take_u64(old(b)@) {
            Ok((v, rest)) => r == Ok::<u64, WireError>(v) && final(b)@ == rest,
            Err(e) => r == Err::<u64, WireError>(e),
        },
{
    match varint::read(b) {
        Ok(v) => Ok(v),
        Err(_) => Err(WireError::Varint),
    }
}

fn rd_32(b: &mut &[u8]) -> (r: Result<[u8; 32], WireError>)
    ensures
        match take_32(old(b)@) {
            Ok((v, rest)) => r == Ok::<[u8; 32], WireError>(v) && final(b)@ == rest,
            Err(e) => r == Err::<[u8; 32], WireError>(e),
        },
{
    let s: &[u8] = *b;
    if s.len() < 32 {
        return Err(WireError::Eof);
    }
    let a: [u8; 32] = get_32(s, 0);
    let (front, rest) = s.split_at(32);
    proof {
        assert(s@.subrange(0, 32) =~= s@.take(32));
        assert(rest@ =~= s@.skip(32));
    }
    *b = rest;
    Ok(a)
}

fn rd_sig(b: &mut &[u8]) -> (r: Result<Sig, WireError>)
    ensures
        match take_sig(old(b)@) {
            Ok((v, rest)) => r == Ok::<Sig, WireError>(v) && final(b)@ == rest,
            Err(e) => r == Err::<Sig, WireError>(e),
        },
{
    let s: &[u8] = *b;
    if s.len() < 64 {
        return Err(WireError::Eof);
    }
    let a: [u8; 64] = get_64(s, 0);
    let (front, rest) = s.split_at(64);
    proof {
        assert(s@.subrange(0, 64) =~= s@.take(64));
        assert(rest@ =~= s@.skip(64));
    }
    *b = rest;
    Ok(Sig::from_bytes(&a))
}

fn rd_head(b: &mut &[u8]) -> (r: Result<SignedHead, WireError>)
    ensures
        match take_head(old(b)@) {
            Ok((v, rest)) => r == Ok::<SignedHead, WireError>(v) && final(b)@ == rest,
            Err(e) => r == Err::<SignedHead, WireError>(e),
        },
{
    let fork: u64 = match rd_u64(b) {
        Ok(v) => v,
        Err(e) => return Err(e),
    };
    let length: u64 = match rd_u64(b) {
        Ok(v) => v,
        Err(e) => return Err(e),
    };
    let root: [u8; 32] = match rd_32(b) {
        Ok(v) => v,
        Err(e) => return Err(e),
    };
    let sig: Sig = match rd_sig(b) {
        Ok(v) => v,
        Err(e) => return Err(e),
    };
    Ok(SignedHead { fork, length, root, sig })
}

fn rd_node(b: &mut &[u8]) -> (r: Result<Node, WireError>)
    ensures
        match take_node(old(b)@) {
            Ok((v, rest)) => r == Ok::<Node, WireError>(v) && final(b)@ == rest,
            Err(e) => r == Err::<Node, WireError>(e),
        },
{
    let index: u64 = match rd_u64(b) {
        Ok(v) => v,
        Err(e) => return Err(e),
    };
    let hash: [u8; 32] = match rd_32(b) {
        Ok(v) => v,
        Err(e) => return Err(e),
    };
    let size: u64 = match rd_u64(b) {
        Ok(v) => v,
        Err(e) => return Err(e),
    };
    Ok(Node { index, hash, size })
}

fn rd_nodes(b: &mut &[u8]) -> (r: Result<Vec<Node>, WireError>)
    ensures
        match take_nodes(old(b)@) {
            Ok((v, rest)) => r matches Ok(x) && x@ == v && final(b)@ == rest,
            Err(e) => r == Err::<Vec<Node>, WireError>(e),
        },
{
    let ghost whole = b@;
    let n: u64 = match rd_u64(b) {
        Ok(v) => v,
        Err(e) => return Err(e),
    };
    let ghost s = b@;
    let mut v: Vec<Node> = Vec::new();
    let mut left: u64 = n;
    while left > 0
        invariant
            take_nodes(whole) == take_list(s, n as nat, Seq::empty()),
            take_list(s, n as nat, Seq::empty()) == take_list(b@, left as nat, v@),
            whole == old(b)@,
        decreases left,
    {
        let x: Node = match rd_node(b) {
            Ok(x) => x,
            Err(e) => return Err(e),
        };
        v.push(x);
        left = left - 1;
    }
    Ok(v)
}

fn rd_proof(b: &mut &[u8]) -> (r: Result<Proof, WireError>)
    ensures
        match take_proof(old(b)@) {
            Ok((v, rest)) => r matches Ok(x) && proof_view(x) == v && final(b)@ == rest,
            Err(e) => r == Err::<Proof, WireError>(e),
        },
{
    let block: u64 = match rd_u64(b) {
        Ok(v) => v,
        Err(e) => return Err(e),
    };
    let leaf_size: u64 = match rd_u64(b) {
        Ok(v) => v,
        Err(e) => return Err(e),
    };
    let siblings: Vec<Node> = match rd_nodes(b) {
        Ok(v) => v,
        Err(e) => return Err(e),
    };
    let roots: Vec<Node> = match rd_nodes(b) {
        Ok(v) => v,
        Err(e) => return Err(e),
    };
    Ok(Proof { block, leaf_size, siblings, roots })
}

fn rd_bytes(b: &mut &[u8]) -> (r: Result<Vec<u8>, WireError>)
    ensures
        match take_bytes(old(b)@) {
            Ok((v, rest)) => r matches Ok(x) && x@ == v && final(b)@ == rest,
            Err(e) => r == Err::<Vec<u8>, WireError>(e),
        },
{
    let n: u64 = match rd_u64(b) {
        Ok(v) => v,
        Err(e) => return Err(e),
    };
    let s: &[u8] = *b;
    if (s.len() as u64) < n {
        return Err(WireError::Eof);
    }
    let (front, rest) = s.split_at(n as usize);
    proof {
        assert(front@ =~= s@.take(n as int));
        assert(rest@ =~= s@.skip(n as int));
    }
    *b = rest;
    Ok(copy_of(front))
}

/// The message that bytes stand for.
pub fn decode(bytes: &[u8]) -> (r: Result<SyncMessage, WireError>)
    ensures
        match parsed_message(bytes@) {
            Ok(m) => r matches Ok(x) && x@ == m,
            Err(e) => r == Err::<SyncMessage, WireError>(e),
        },
{
    let mut b: &[u8] = bytes;
    let tag: u64 = match rd_u64(&mut b) {
        Ok(v) => v,
        Err(e) => return Err(e),
    };
    let writer: WriterKey = match rd_32(&mut b) {
        Ok(v) => v,
        Err(e) => return Err(e),
    };
    if tag == T_HEAD {
        match rd_head(&mut b) {
            Ok(head) => Ok(SyncMessage::Head { writer, head }),
            Err(e) => Err(e),
        }
    } else if tag == T_HAVE {
        match rd_u64(&mut b) {
            Ok(length) => Ok(SyncMessage::Have { writer, length }),
            Err(e) => Err(e),
        }
    } else if tag == T_WANT {
        let start: u64 = match rd_u64(&mut b) {
            Ok(v) => v,
            Err(e) => return Err(e),
        };
        match rd_u64(&mut b) {
            Ok(end) => Ok(SyncMessage::Want { writer, start, end }),
            Err(e) => Err(e),
        }
    } else if tag == T_BLOCK {
        let head: SignedHead = match rd_head(&mut b) {
            Ok(v) => v,
            Err(e) => return Err(e),
        };
        let index: u64 = match rd_u64(&mut b) {
            Ok(v) => v,
            Err(e) => return Err(e),
        };
        let data: Vec<u8> = match rd_bytes(&mut b) {
            Ok(v) => v,
            Err(e) => return Err(e),
        };
        match rd_proof(&mut b) {
            Ok(proof) => Ok(SyncMessage::Block { writer, head, index, bytes: data, proof }),
            Err(e) => Err(e),
        }
    } else {
        Err(WireError::BadTag(tag))
    }
}

// ---- reading back what was written

proof fn lemma_u64(v: u64, rest: Seq<u8>)
    ensures
        take_u64(varint::encoding(v as nat) + rest) == Ok::<(u64, Seq<u8>), WireError>((v, rest)),
{
    let e = varint::encoding(v as nat);
    varint::law_parse_encoding(v, rest);
    assert((e + rest).skip(e.len() as int) =~= rest);
}

proof fn lemma_32(a: [u8; 32], rest: Seq<u8>)
    ensures
        take_32(a@ + rest) == Ok::<([u8; 32], Seq<u8>), WireError>((a, rest)),
{
    lemma_array32(a);
    assert((a@ + rest).take(32) =~= a@);
    assert((a@ + rest).skip(32) =~= rest);
}

proof fn lemma_head(h: SignedHead, rest: Seq<u8>)
    ensures
        take_head(head_form(h) + rest) == Ok::<(SignedHead, Seq<u8>), WireError>((h, rest)),
{
    let a = varint::encoding(h.fork as nat);
    let b = varint::encoding(h.length as nat);
    let g = h.sig@@;
    assert(head_form(h) + rest =~= a + (b + (h.root@ + (g + rest))));
    lemma_u64(h.fork, b + (h.root@ + (g + rest)));
    lemma_u64(h.length, h.root@ + (g + rest));
    lemma_32(h.root, g + rest);
    Sig::lemma_of(h.sig);
    assert((g + rest).take(64) =~= g);
    assert((g + rest).skip(64) =~= rest);
}

proof fn lemma_node(n: Node, rest: Seq<u8>)
    ensures
        take_node(node_form(n) + rest) == Ok::<(Node, Seq<u8>), WireError>((n, rest)),
{
    let a = varint::encoding(n.index as nat);
    let b = varint::encoding(n.size as nat);
    assert(node_form(n) + rest =~= a + (n.hash@ + (b + rest)));
    lemma_u64(n.index, n.hash@ + (b + rest));
    lemma_32(n.hash, b + rest);
    lemma_u64(n.size, rest);
}

proof fn lemma_list(s: Seq<Node>, rest: Seq<u8>, acc: Seq<Node>)
    ensures
        take_list(list_form(s) + rest, s.len(), acc) == Ok::<(Seq<Node>, Seq<u8>), WireError>(
            (acc + s, rest),
        ),
    decreases s.len(),
{
    if s.len() == 0 {
        assert(list_form(s) + rest =~= rest);
        assert(acc + s =~= acc);
    } else {
        let after = list_form(s.skip(1)) + rest;
        assert(list_form(s) + rest =~= node_form(s[0]) + after);
        lemma_node(s[0], after);
        lemma_list(s.skip(1), rest, acc.push(s[0]));
        assert(acc.push(s[0]) + s.skip(1) =~= acc + s);
    }
}

proof fn lemma_nodes(s: Seq<Node>, rest: Seq<u8>)
    requires
        s.len() <= u64::MAX,
    ensures
        take_nodes(nodes_form(s) + rest) == Ok::<(Seq<Node>, Seq<u8>), WireError>((s, rest)),
{
    let a = varint::encoding(s.len());
    assert(nodes_form(s) + rest =~= a + (list_form(s) + rest));
    lemma_u64(s.len() as u64, list_form(s) + rest);
    lemma_list(s, rest, Seq::empty());
    assert(Seq::<Node>::empty() + s =~= s);
}

proof fn lemma_proof(p: ProofView, rest: Seq<u8>)
    requires
        p.siblings.len() <= u64::MAX,
        p.roots.len() <= u64::MAX,
    ensures
        take_proof(proof_form(p) + rest) == Ok::<(ProofView, Seq<u8>), WireError>((p, rest)),
{
    let a = varint::encoding(p.block as nat);
    let b = varint::encoding(p.leaf_size as nat);
    let x = nodes_form(p.siblings);
    let y = nodes_form(p.roots);
    assert(proof_form(p) + rest =~= a + (b + (x + (y + rest))));
    lemma_u64(p.block, b + (x + (y + rest)));
    lemma_u64(p.leaf_size, x + (y + rest));
    lemma_nodes(p.siblings, y + rest);
    lemma_nodes(p.roots, rest);
}

proof fn lemma_bytes(v: Seq<u8>, rest: Seq<u8>)
    requires
        v.len() <= u64::MAX,
    ensures
        take_bytes(varint::encoding(v.len()) + (v + rest)) == Ok::<
            (Seq<u8>, Seq<u8>),
            WireError,
        >((v, rest)),
{
    lemma_u64(v.len() as u64, v + rest);
    assert((v + rest).take(v.len() as int) =~= v);
    assert((v + rest).skip(v.len() as int) =~= rest);
}

/// The tag and the writer that start a message.
proof fn lemma_front(tag: u64, writer: WriterKey, t: Seq<u8>)
    ensures
        parsed_message(varint::encoding(tag as nat) + (writer@ + t)) == take_rest(tag, writer, t),
{
    lemma_u64(tag, writer@ + t);
    lemma_32(writer, t);
}

/// What follows the writer in a message.
spec fn rest_form(m: Message) -> Seq<u8> {
    match m {
        Message::Head { writer, head } => head_form(head),
        Message::Have { writer, length } => varint::encoding(length as nat),
        Message::Want { writer, start, end } => varint::encoding(start as nat) + varint::encoding(
            end as nat,
        ),
        Message::Block { writer, head, index, bytes, inclusion } => head_form(head) + (
        varint::encoding(index as nat) + (varint::encoding(bytes.len()) + (bytes + proof_form(
            inclusion,
        )))),
    }
}

proof fn lemma_parts(tag: Seq<u8>, writer: Seq<u8>, t: Seq<u8>, rest: Seq<u8>)
    ensures
        (tag + (writer + t)) + rest == tag + (writer + (t + rest)),
{
    assert((tag + (writer + t)) + rest =~= tag + (writer + (t + rest)));
}

proof fn lemma_want(writer: WriterKey, start: u64, end: u64, rest: Seq<u8>)
    ensures
        take_want(
            writer,
            (varint::encoding(start as nat) + varint::encoding(end as nat)) + rest,
        ) == Ok::<Message, WireError>(Message::Want { writer, start, end }),
{
    let a = varint::encoding(start as nat);
    let b = varint::encoding(end as nat);
    assert((a + b) + rest =~= a + (b + rest));
    lemma_u64(start, varint::encoding(end as nat) + rest);
    lemma_u64(end, rest);
}

proof fn lemma_block(
    writer: WriterKey,
    head: SignedHead,
    index: u64,
    bytes: Seq<u8>,
    inclusion: ProofView,
    rest: Seq<u8>,
)
    requires
        bytes.len() <= u64::MAX,
        inclusion.siblings.len() <= u64::MAX,
        inclusion.roots.len() <= u64::MAX,
    ensures
        take_block(
            writer,
            head_form(head) + (varint::encoding(index as nat) + (varint::encoding(bytes.len()) + (
            bytes + (proof_form(inclusion) + rest)))),
        ) == Ok::<Message, WireError>(Message::Block { writer, head, index, bytes, inclusion }),
{
    let w = proof_form(inclusion) + rest;
    let v = varint::encoding(bytes.len()) + (bytes + w);
    let u = varint::encoding(index as nat) + v;
    lemma_head(head, u);
    lemma_u64(index, v);
    lemma_bytes(bytes, w);
    lemma_proof(inclusion, rest);
}

/// Decoding an encoded message gives it back, whatever follows it.
pub proof fn law_wire(m: Message, rest: Seq<u8>)
    requires
        m matches Message::Block { bytes, inclusion, .. } ==> bytes.len() <= u64::MAX
            && inclusion.siblings.len() <= u64::MAX && inclusion.roots.len() <= u64::MAX,
    ensures
        parsed_message(message_form(m) + rest) == Ok::<Message, WireError>(m),
{
    let t = rest_form(m);
    match m {
        Message::Head { writer, head } => {
            lemma_parts(varint::encoding(T_HEAD as nat), writer@, t, rest);
            lemma_front(T_HEAD, writer, t + rest);
            lemma_head(head, rest);
        },
        Message::Have { writer, length } => {
            lemma_parts(varint::encoding(T_HAVE as nat), writer@, t, rest);
            lemma_front(T_HAVE, writer, t + rest);
            lemma_u64(length, rest);
        },
        Message::Want { writer, start, end } => {
            lemma_parts(varint::encoding(T_WANT as nat), writer@, t, rest);
            lemma_front(T_WANT, writer, t + rest);
            lemma_want(writer, start, end, rest);
        },
        Message::Block { writer, head, index, bytes, inclusion } => {
            lemma_parts(varint::encoding(T_BLOCK as nat), writer@, t, rest);
            lemma_front(T_BLOCK, writer, t + rest);
            lemma_block_form(head, index, bytes, inclusion, rest);
            lemma_block(writer, head, index, bytes, inclusion, rest);
        },
    }
}

proof fn lemma_block_form(
    head: SignedHead,
    index: u64,
    bytes: Seq<u8>,
    inclusion: ProofView,
    rest: Seq<u8>,
)
    ensures
        (head_form(head) + (varint::encoding(index as nat) + (varint::encoding(bytes.len()) + (bytes
            + proof_form(inclusion))))) + rest == head_form(head) + (varint::encoding(index as nat)
            + (varint::encoding(bytes.len()) + (bytes + (proof_form(inclusion) + rest)))),
{
    let a = head_form(head);
    let b = varint::encoding(index as nat);
    let c = varint::encoding(bytes.len());
    let d = proof_form(inclusion);
    assert((a + (b + (c + (bytes + d)))) + rest =~= a + (b + (c + (bytes + (d + rest)))));
}

// ---- what follows a value does not matter to reading it

proof fn lemma_more_u64(s: Seq<u8>, more: Seq<u8>)
    ensures
        take_u64(s) matches Ok(p) ==> take_u64(s + more) == Ok::<(u64, Seq<u8>), WireError>(
            (p.0, p.1 + more),
        ),
{
    varint::lemma_parse_more(s, more);
    varint::lemma_parse_used(s);
    if let Ok((v, used)) = varint::parse(s) {
        assert((s + more).skip(used as int) =~= s.skip(used as int) + more);
    }
}

proof fn lemma_more_32(s: Seq<u8>, more: Seq<u8>)
    ensures
        take_32(s) matches Ok(p) ==> take_32(s + more) == Ok::<([u8; 32], Seq<u8>), WireError>(
            (p.0, p.1 + more),
        ),
{
    if s.len() >= 32 {
        assert((s + more).take(32) =~= s.take(32));
        assert((s + more).skip(32) =~= s.skip(32) + more);
    }
}

proof fn lemma_more_head(s: Seq<u8>, more: Seq<u8>)
    ensures
        take_head(s) matches Ok(p) ==> take_head(s + more) == Ok::<
            (SignedHead, Seq<u8>),
            WireError,
        >((p.0, p.1 + more)),
{
    lemma_more_u64(s, more);
    if let Ok((fork, s1)) = take_u64(s) {
        lemma_more_u64(s1, more);
        if let Ok((length, s2)) = take_u64(s1) {
            lemma_more_32(s2, more);
            if let Ok((root, s3)) = take_32(s2) {
                if s3.len() >= 64 {
                    assert((s3 + more).take(64) =~= s3.take(64));
                    assert((s3 + more).skip(64) =~= s3.skip(64) + more);
                }
            }
        }
    }
}

proof fn lemma_more_node(s: Seq<u8>, more: Seq<u8>)
    ensures
        take_node(s) matches Ok(p) ==> take_node(s + more) == Ok::<(Node, Seq<u8>), WireError>(
            (p.0, p.1 + more),
        ),
{
    lemma_more_u64(s, more);
    if let Ok((index, s1)) = take_u64(s) {
        lemma_more_32(s1, more);
        if let Ok((hash, s2)) = take_32(s1) {
            lemma_more_u64(s2, more);
        }
    }
}

proof fn lemma_more_list(s: Seq<u8>, n: nat, acc: Seq<Node>, more: Seq<u8>)
    ensures
        take_list(s, n, acc) matches Ok(p) ==> take_list(s + more, n, acc) == Ok::<
            (Seq<Node>, Seq<u8>),
            WireError,
        >((p.0, p.1 + more)),
    decreases n,
{
    if n > 0 {
        lemma_more_node(s, more);
        if let Ok((x, s1)) = take_node(s) {
            lemma_more_list(s1, (n - 1) as nat, acc.push(x), more);
        }
    }
}

proof fn lemma_more_nodes(s: Seq<u8>, more: Seq<u8>)
    ensures
        take_nodes(s) matches Ok(p) ==> take_nodes(s + more) == Ok::<
            (Seq<Node>, Seq<u8>),
            WireError,
        >((p.0, p.1 + more)),
{
    lemma_more_u64(s, more);
    if let Ok((n, s1)) = take_u64(s) {
        lemma_more_list(s1, n as nat, Seq::empty(), more);
    }
}

proof fn lemma_more_proof(s: Seq<u8>, more: Seq<u8>)
    ensures
        take_proof(s) matches Ok(p) ==> take_proof(s + more) == Ok::<
            (ProofView, Seq<u8>),
            WireError,
        >((p.0, p.1 + more)),
{
    lemma_more_u64(s, more);
    if let Ok((block, s1)) = take_u64(s) {
        lemma_more_u64(s1, more);
        if let Ok((leaf_size, s2)) = take_u64(s1) {
            lemma_more_nodes(s2, more);
            if let Ok((siblings, s3)) = take_nodes(s2) {
                lemma_more_nodes(s3, more);
            }
        }
    }
}

proof fn lemma_more_bytes(s: Seq<u8>, more: Seq<u8>)
    ensures
        take_bytes(s) matches Ok(p) ==> take_bytes(s + more) == Ok::<
            (Seq<u8>, Seq<u8>),
            WireError,
        >((p.0, p.1 + more)),
{
    lemma_more_u64(s, more);
    if let Ok((n, s1)) = take_u64(s) {
        if s1.len() >= n {
            assert((s1 + more).take(n as int) =~= s1.take(n as int));
            assert((s1 + more).skip(n as int) =~= s1.skip(n as int) + more);
        }
    }
}

/// What is cut off from what a block message says leaves nothing to read.
proof fn lemma_cut_block(
    writer: WriterKey,
    head: SignedHead,
    index: u64,
    bytes: Seq<u8>,
    inclusion: ProofView,
    s: Seq<u8>,
    more: Seq<u8>,
)
    requires
        bytes.len() <= u64::MAX,
        inclusion.siblings.len() <= u64::MAX,
        inclusion.roots.len() <= u64::MAX,
        more.len() > 0,
        s + more == head_form(head) + (varint::encoding(index as nat) + (varint::encoding(
            bytes.len(),
        ) + (bytes + proof_form(inclusion)))),
    ensures
        take_block(writer, s) is Err,
{
    let w = proof_form(inclusion);
    let v = varint::encoding(bytes.len()) + (bytes + w);
    let u = varint::encoding(index as nat) + v;
    lemma_head(head, u);
    lemma_u64(index, v);
    lemma_bytes(bytes, w);
    lemma_proof(inclusion, Seq::empty());
    assert(w + Seq::<u8>::empty() =~= w);
    lemma_more_head(s, more);
    if let Ok((_, s1)) = take_head(s) {
        assert(s1 + more == u);
        lemma_more_u64(s1, more);
        if let Ok((_, s2)) = take_u64(s1) {
            assert(s2 + more == v);
            lemma_more_bytes(s2, more);
            if let Ok((_, s3)) = take_bytes(s2) {
                assert(s3 + more == w);
                lemma_more_proof(s3, more);
                if let Ok((_, s4)) = take_proof(s3) {
                    assert((s4 + more).len() == 0);
                }
            }
        }
    }
}

/// What is cut off from what a message says of its writer leaves nothing to read.
proof fn lemma_cut_rest(m: Message, tag: u64, writer: WriterKey, s: Seq<u8>, more: Seq<u8>)
    requires
        m matches Message::Block { bytes, inclusion, .. } ==> bytes.len() <= u64::MAX
            && inclusion.siblings.len() <= u64::MAX && inclusion.roots.len() <= u64::MAX,
        tag == match m {
            Message::Head { .. } => T_HEAD,
            Message::Have { .. } => T_HAVE,
            Message::Want { .. } => T_WANT,
            Message::Block { .. } => T_BLOCK,
        },
        s + more == rest_form(m),
        more.len() > 0,
    ensures
        take_rest(tag, writer, s) is Err,
{
    let none = Seq::<u8>::empty();
    match m {
        Message::Head { head, .. } => {
            lemma_head(head, none);
            assert(head_form(head) + none =~= head_form(head));
            lemma_more_head(s, more);
            if let Ok((_, s1)) = take_head(s) {
                assert((s1 + more).len() == 0);
            }
        },
        Message::Have { length, .. } => {
            let a = varint::encoding(length as nat);
            lemma_u64(length, none);
            assert(a + none =~= a);
            lemma_more_u64(s, more);
            if let Ok((_, s1)) = take_u64(s) {
                assert((s1 + more).len() == 0);
            }
        },
        Message::Want { start, end, .. } => {
            let b = varint::encoding(end as nat);
            lemma_u64(start, b);
            lemma_u64(end, none);
            assert(b + none =~= b);
            lemma_more_u64(s, more);
            if let Ok((_, s1)) = take_u64(s) {
                lemma_more_u64(s1, more);
                if let Ok((_, s2)) = take_u64(s1) {
                    assert((s2 + more).len() == 0);
                }
            }
        },
        Message::Block { head, index, bytes, inclusion, .. } => {
            lemma_cut_block(writer, head, index, bytes, inclusion, s, more);
        },
    }
}

/// A message that is cut short is no message: no proper prefix of an encoded message
/// decodes.
pub proof fn law_cut_short(m: Message, k: int)
    requires
        m matches Message::Block { bytes, inclusion, .. } ==> bytes.len() <= u64::MAX
            && inclusion.siblings.len() <= u64::MAX && inclusion.roots.len() <= u64::MAX,
        0 <= k < message_form(m).len(),
    ensures
        parsed_message(message_form(m).take(k)) is Err,
{
    let all = message_form(m);
    let s = all.take(k);
    let more = all.skip(k);
    let t = rest_form(m);
    let (tag, writer) = match m {
        Message::Head { writer, .. } => (T_HEAD, writer),
        Message::Have { writer, .. } => (T_HAVE, writer),
        Message::Want { writer, .. } => (T_WANT, writer),
        Message::Block { writer, .. } => (T_BLOCK, writer),
    };
    assert(s + more =~= all);
    assert(all == varint::encoding(tag as nat) + (writer@ + t));
    lemma_u64(tag, writer@ + t);
    lemma_32(writer, t);
    lemma_more_u64(s, more);
    if let Ok((got, s1)) = take_u64(s) {
        assert(s1 + more == writer@ + t);
        lemma_more_32(s1, more);
        if let Ok((w, s2)) = take_32(s1) {
            lemma_cut_rest(m, tag, w, s2, more);
        }
    }
}

} // verus!
