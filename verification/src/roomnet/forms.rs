//! The bytes of messages and entries, part by part.
use vstd::prelude::*;
use super::driver::{frame_of, parsed_frame};
use super::entry::{entry_bytes, ids_bytes, parsed_entry, EntryView};
use super::server::RoomId;
use super::sync::{Message, ProofView};
use super::wire::{
    head_form, list_form, message_form, nodes_form, parsed_message, proof_form, WireError,
};
use crate::autobase::NodeId;
use crate::bytes::array32;
use crate::codec::forms::law_varint;
use crate::codec::varint;
use crate::hypercore::SignedHead;
use crate::merkle::Node;

verus! {

/// A head is its fork, its length, its root and its signature.
pub proof fn law_head_form(h: SignedHead)
    ensures
        head_form(h) == varint::encoding(h.fork as nat) + varint::encoding(h.length as nat)
            + h.root@ + h.sig@@,
{
    assert(head_form(h) =~= varint::encoding(h.fork as nat) + varint::encoding(h.length as nat)
        + h.root@ + h.sig@@);
}

/// Nodes of a tree are each one's index, hash and size, one after the other, after their
/// number; a proof is its block, the size of that, and two such lists.
pub proof fn law_proof_form(p: ProofView, s: Seq<Node>, n: Node)
    ensures
        nodes_form(s) == varint::encoding(s.len()) + list_form(s),
        list_form(Seq::empty()) == Seq::<u8>::empty(),
        list_form(seq![n] + s) == varint::encoding(n.index as nat) + n.hash@ + varint::encoding(
            n.size as nat,
        ) + list_form(s),
        proof_form(p) == varint::encoding(p.block as nat) + varint::encoding(p.leaf_size as nat)
            + nodes_form(p.siblings) + nodes_form(p.roots),
{
    assert((seq![n] + s).skip(1) =~= s);
    assert(list_form(seq![n] + s) =~= varint::encoding(n.index as nat) + n.hash@
        + varint::encoding(n.size as nat) + list_form(s));
    assert(proof_form(p) =~= varint::encoding(p.block as nat) + varint::encoding(
        p.leaf_size as nat,
    ) + nodes_form(p.siblings) + nodes_form(p.roots));
}

/// A message is one byte that tells its kind, the writer, and then what it says.
pub proof fn law_message_bytes(m: Message)
    ensures
        match m {
            Message::Head { writer, head } => message_form(m) == seq![0u8] + writer@ + head_form(
                head,
            ),
            Message::Have { writer, length } => message_form(m) == seq![1u8] + writer@
                + varint::encoding(length as nat),
            Message::Want { writer, start, end } => message_form(m) == seq![2u8] + writer@
                + varint::encoding(start as nat) + varint::encoding(end as nat),
            Message::Block { writer, head, index, bytes, inclusion } => message_form(m) == seq![
                3u8,
            ] + writer@ + head_form(head) + varint::encoding(index as nat) + varint::encoding(
                bytes.len(),
            ) + bytes + proof_form(inclusion),
        },
{
    law_varint(0);
    law_varint(1);
    law_varint(2);
    law_varint(3);
    match m {
        Message::Head { writer, head } => {
            assert(message_form(m) =~= seq![0u8] + writer@ + head_form(head));
        },
        Message::Have { writer, length } => {
            assert(message_form(m) =~= seq![1u8] + writer@ + varint::encoding(length as nat));
        },
        Message::Want { writer, start, end } => {
            assert(message_form(m) =~= seq![2u8] + writer@ + varint::encoding(start as nat)
                + varint::encoding(end as nat));
        },
        Message::Block { writer, head, index, bytes, inclusion } => {
            assert(message_form(m) =~= seq![3u8] + writer@ + head_form(head) + varint::encoding(
                index as nat,
            ) + varint::encoding(bytes.len()) + bytes + proof_form(inclusion));
        },
    }
}

/// What is read tells its kind by the number it starts with and names the writer that
/// follows it. A number that tells no kind is refused under itself, a writer that is cut
/// short as such, and what starts with no number for that.
pub proof fn law_message_read(s: Seq<u8>)
    ensures
        match varint::parse(s) {
            Err(_) => parsed_message(s) == Err::<Message, WireError>(WireError::Varint),
            Ok((tag, used)) => if s.len() - used < 32 {
                parsed_message(s) == Err::<Message, WireError>(WireError::Eof)
            } else if tag > 3 {
                parsed_message(s) == Err::<Message, WireError>(WireError::BadTag(tag))
            } else {
                parsed_message(s) matches Ok(m) ==> match m {
                    Message::Head { writer, .. } => tag == 0 && writer == array32(
                        s.skip(used as int).take(32),
                    ),
                    Message::Have { writer, .. } => tag == 1 && writer == array32(
                        s.skip(used as int).take(32),
                    ),
                    Message::Want { writer, .. } => tag == 2 && writer == array32(
                        s.skip(used as int).take(32),
                    ),
                    Message::Block { writer, .. } => tag == 3 && writer == array32(
                        s.skip(used as int).take(32),
                    ),
                }
            },
        },
{
    varint::lemma_parse_used(s);
}

/// An entry is its version, the nodes it builds on after their number, and the payload after
/// its length; a node is its writer and its place in that writer's log.
pub proof fn law_entry_bytes(e: EntryView, n: NodeId, s: Seq<NodeId>)
    ensures
        entry_bytes(e) == seq![1u8] + varint::encoding(e.heads.len()) + ids_bytes(e.heads)
            + varint::encoding(e.payload.len()) + e.payload,
        ids_bytes(Seq::empty()) == Seq::<u8>::empty(),
        ids_bytes(seq![n] + s) == n.key@ + varint::encoding(n.seq as nat) + ids_bytes(s),
{
    law_varint(1);
    assert((seq![n] + s).skip(1) =~= s);
    assert(ids_bytes(seq![n] + s) =~= n.key@ + varint::encoding(n.seq as nat) + ids_bytes(s));
    assert(entry_bytes(e) =~= seq![1u8] + varint::encoding(e.heads.len()) + ids_bytes(e.heads)
        + varint::encoding(e.payload.len()) + e.payload);
}

/// Entries of any version are read alike.
pub proof fn law_any_version(v: u64, w: u64, rest: Seq<u8>)
    ensures
        parsed_entry(varint::encoding(v as nat) + rest) == parsed_entry(
            varint::encoding(w as nat) + rest,
        ),
{
    let a = varint::encoding(v as nat);
    let b = varint::encoding(w as nat);
    varint::law_parse_encoding(v, rest);
    varint::law_parse_encoding(w, rest);
    assert((a + rest).skip(a.len() as int) =~= rest);
    assert((b + rest).skip(b.len() as int) =~= rest);
}

/// A frame is the room and then the message, and so it is read: what is shorter than a room's
/// id is none, nor is what holds no message after it.
pub proof fn law_frame_bytes(room: RoomId, m: Message, s: Seq<u8>)
    ensures
        frame_of(room, m) == room@ + message_form(m),
        s.len() < 32 ==> parsed_frame(s) is None,
        s.len() >= 32 ==> (parsed_frame(s) is Some <==> parsed_message(s.skip(32)) is Ok),
        parsed_frame(s) matches Some(f) ==> f.0 == array32(s.take(32)) && parsed_message(s.skip(32))
            == Ok::<Message, WireError>(f.1),
{
}

} // verus!
