//! The bytes of a log's metadata.
//!
//! `[fork]`, then a head tag, `0` for none or `1` followed by
//! `[fork][length][root][signature]`, then a prologue tag, `0` for none or `1` followed
//! by `[length][hash]`; integers are 64-bit little-endian.
use vstd::prelude::*;
use crate::bytes::{array32, get_32, get_64, get_u64, le64, le_value, lemma_array32, lemma_le64, put_all, put_u64};
use crate::hypercore::{Prologue, SignedHead};
use crate::identity::{sig_of, Sig};

verus! {

/// The bytes of an optional head.
pub open spec fn head_field(head: Option<SignedHead>) -> Seq<u8> {
    match head {
        Some(h) => seq![1u8] + (le64(h.fork) + (le64(h.length) + (h.root@ + h.sig@@))),
        None => seq![0u8],
    }
}

/// The bytes of an optional prologue.
pub open spec fn prologue_field(prologue: Option<Prologue>) -> Seq<u8> {
    match prologue {
        Some(p) => seq![1u8] + (le64(p.length) + p.hash@),
        None => seq![0u8],
    }
}

/// The bytes of a log's metadata.
pub open spec fn meta_bytes(
    fork: u64,
    head: Option<SignedHead>,
    prologue: Option<Prologue>,
) -> Seq<u8> {
    le64(fork) + (head_field(head) + prologue_field(prologue))
}

/// The head whose bytes start at `at`.
pub open spec fn head_at(s: Seq<u8>, at: int) -> SignedHead {
    SignedHead {
        fork: le_value(s.subrange(at, at + 8)) as u64,
        length: le_value(s.subrange(at + 8, at + 16)) as u64,
        root: array32(s.subrange(at + 16, at + 48)),
        sig: sig_of(s.subrange(at + 48, at + 112)),
    }
}

/// The prologue whose tag is at `at` and which ends the bytes.
pub open spec fn parsed_prologue(s: Seq<u8>, at: int) -> Option<Option<Prologue>> {
    if s.len() == at + 1 && s[at] == 0 {
        Some(None)
    } else if s.len() == at + 41 && s[at] == 1 {
        Some(
            Some(
                Prologue {
                    length: le_value(s.subrange(at + 1, at + 9)) as u64,
                    hash: array32(s.subrange(at + 9, at + 41)),
                },
            ),
        )
    } else {
        None
    }
}

/// Fork, head and prologue that bytes stand for.
pub open spec fn parsed_meta(s: Seq<u8>) -> Option<
    (u64, Option<SignedHead>, Option<Prologue>),
> {
    if s.len() < 9 {
        None
    } else {
        let fork = le_value(s.subrange(0, 8)) as u64;
        if s[8] == 0 {
            match parsed_prologue(s, 9) {
                Some(p) => Some((fork, None, p)),
                None => None,
            }
        } else if s[8] == 1 && s.len() >= 121 {
            match parsed_prologue(s, 121) {
                Some(p) => Some((fork, Some(head_at(s, 9)), p)),
                None => None,
            }
        } else {
            None
        }
    }
}

/// Write metadata out.
pub(crate) fn encode_meta(
    fork: u64,
    head: &Option<SignedHead>,
    prologue: &Option<Prologue>,
) -> (out: Vec<u8>)
    ensures
        out@ == meta_bytes(fork, *head, *prologue),
{
    let mut out: Vec<u8> = Vec::new();
    put_u64(&mut out, fork);
    match head {
        Some(h) => {
            let sig: [u8; 64] = h.sig.to_bytes();
            out.push(1);
            put_u64(&mut out, h.fork);
            put_u64(&mut out, h.length);
            put_all(&mut out, &h.root);
            put_all(&mut out, &sig);
        },
        None => {
            out.push(0);
        },
    }
    match prologue {
        Some(p) => {
            out.push(1);
            put_u64(&mut out, p.length);
            put_all(&mut out, &p.hash);
        },
        None => {
            out.push(0);
        },
    }
    assert(out@ =~= meta_bytes(fork, *head, *prologue));
    out
}

/// Read the prologue whose tag is at `at`.
fn decode_prologue(s: &[u8], at: usize) -> (r: Option<Option<Prologue>>)
    requires
        at <= s.len(),
    ensures
        r == parsed_prologue(s@, at as int),
{
    if s.len() - at == 1 && s[at] == 0 {
        Some(None)
    } else if s.len() - at == 41 && s[at] == 1 {
        let length: u64 = get_u64(s, at + 1);
        let hash: [u8; 32] = get_32(s, at + 9);
        Some(Some(Prologue { length, hash }))
    } else {
        None
    }
}

/// Read metadata back; `None` on a malformed or truncated buffer, or one with trailing
/// bytes.
pub(crate) fn decode_meta(s: &[u8]) -> (r: Option<(u64, Option<SignedHead>, Option<Prologue>)>)
    ensures
        r == parsed_meta(s@),
{
    if s.len() < 9 {
        return None;
    }
    let fork: u64 = get_u64(s, 0);
    if s[8] == 0 {
        match decode_prologue(s, 9) {
            Some(p) => Some((fork, None, p)),
            None => None,
        }
    } else if s[8] == 1 && s.len() >= 121 {
        let sig: [u8; 64] = get_64(s, 57);
        let head: SignedHead = SignedHead {
            fork: get_u64(s, 9),
            length: get_u64(s, 17),
            root: get_32(s, 25),
            sig: Sig::from_bytes(&sig),
        };
        match decode_prologue(s, 121) {
            Some(p) => Some((fork, Some(head), p)),
            None => None,
        }
    } else {
        None
    }
}

proof fn lemma_prologue(s: Seq<u8>, at: int, p: Option<Prologue>)
    requires
        0 <= at <= s.len(),
        s.skip(at) == prologue_field(p),
    ensures
        parsed_prologue(s, at) == Some(p),
{
    let t = prologue_field(p);
    assert(t == s.skip(at));
    assert(s[at] == t[0]);
    match p {
        None => {},
        Some(q) => {
            lemma_le64(q.length);
            assert(s.subrange(at + 1, at + 9) =~= t.subrange(1, 9));
            assert(t.subrange(1, 9) =~= le64(q.length));
            assert(s.subrange(at + 9, at + 41) =~= t.subrange(9, 41));
            assert(t.subrange(9, 41) =~= q.hash@);
            lemma_array32(q.hash);
        },
    }
}

/// Reading written metadata gives it back.
pub proof fn law_meta(fork: u64, head: Option<SignedHead>, prologue: Option<Prologue>)
    ensures
        parsed_meta(meta_bytes(fork, head, prologue)) == Some((fork, head, prologue)),
{
    let s = meta_bytes(fork, head, prologue);
    lemma_le64(fork);
    assert(s.subrange(0, 8) =~= le64(fork));
    let p = prologue_field(prologue);
    assert(p.len() >= 1);
    match head {
        None => {
            assert(s[8] == 0);
            assert(s.skip(9) =~= p);
            lemma_prologue(s, 9, prologue);
        },
        Some(h) => {
            lemma_le64(h.fork);
            lemma_le64(h.length);
            assert(s[8] == 1);
            assert(s.subrange(9, 17) =~= le64(h.fork));
            assert(s.subrange(17, 25) =~= le64(h.length));
            assert(s.subrange(25, 57) =~= h.root@);
            assert(s.subrange(57, 121) =~= h.sig@@);
            lemma_array32(h.root);
            Sig::lemma_of(h.sig);
            assert(s.skip(121) =~= p);
            lemma_prologue(s, 121, prologue);
        },
    }
}

} // verus!
