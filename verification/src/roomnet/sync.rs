//! What peers say to one another.
use vstd::prelude::*;
use crate::autobase::WriterKey;
use crate::hypercore::SignedHead;
use crate::merkle::{Node, Proof};

verus! {

/// How peers tell one another what they have of each writer's log, and hand its blocks
/// over. No message looks into a payload.
///
/// A block carries the signed head and the proof that ties it to that head, so a block
/// that was asked for and one that was not are handled alike.
#[derive(Clone, Debug, PartialEq, Eq)]
pub enum SyncMessage {
    /// `writer`'s log has come to `head.length` blocks.
    Head { writer: WriterKey, head: SignedHead },
    /// The sender has `length` blocks of `writer`'s log.
    Have { writer: WriterKey, length: u64 },
    /// The sender would like `writer`'s blocks from `start` up to, not including, `end`.
    Want { writer: WriterKey, start: u64, end: u64 },
    /// `writer`'s block at `index`; `bytes` stand for an entry.
    Block { writer: WriterKey, head: SignedHead, index: u64, bytes: Vec<u8>, proof: Proof },
}

/// What an inclusion proof says.
#[verifier::ext_equal]
pub ghost struct ProofView {
    pub block: u64,
    pub leaf_size: u64,
    pub siblings: Seq<Node>,
    pub roots: Seq<Node>,
}

/// What a [`SyncMessage`] says.
pub ghost enum Message {
    Head { writer: WriterKey, head: SignedHead },
    Have { writer: WriterKey, length: u64 },
    Want { writer: WriterKey, start: u64, end: u64 },
    Block { writer: WriterKey, head: SignedHead, index: u64, bytes: Seq<u8>, inclusion: ProofView },
}

/// What an inclusion proof says.
pub open spec fn proof_view(p: Proof) -> ProofView {
    ProofView { block: p.block, leaf_size: p.leaf_size, siblings: p.siblings@, roots: p.roots@ }
}

impl View for SyncMessage {
    type V = Message;

    open spec fn view(&self) -> Message {
        match *self {
            SyncMessage::Head { writer, head } => Message::Head { writer, head },
            SyncMessage::Have { writer, length } => Message::Have { writer, length },
            SyncMessage::Want { writer, start, end } => Message::Want { writer, start, end },
            SyncMessage::Block { writer, head, index, bytes, proof } => Message::Block {
                writer,
                head,
                index,
                bytes: bytes@,
                inclusion: proof_view(proof),
            },
        }
    }
}

} // verus!
