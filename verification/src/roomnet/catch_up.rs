//! How a room that hears of blocks it lacks comes to have them.
use vstd::prelude::*;
use super::laws::law_served_is_taken;
use super::projection::Projection;
use super::room::{
    asked, hands_over, inbound_outcome, proof_of, served, Error, Fanout, Outbound, PeerId, Room,
    RoomError, RoomView,
};
use super::store::StoreFactory;
use super::sync::{proof_view, SyncMessage};
use crate::autobase::WriterKey;
use crate::hypercore::laws::law_replicate;
use crate::hypercore::writer::stored_blocks;
use crate::identity::PublicKey;
use crate::merkle::laws::{holds, law_empty};
use crate::storage::Store;

verus! {

/// Whoever is heard to have more blocks of another writer's log than are here, however many
/// more, is asked for all of those that are missing, by one request, and nobody else is;
/// nothing is asked for on hearing of no more, nor of the log that is written here.
pub proof fn law_asked<M>(v: RoomView<M>, from: PeerId, writer: WriterKey, length: u64)
    ensures
        ({
            let have = if writer == v.key {
                v.local.tree.length
            } else if v.remotes.contains_key(writer) {
                v.remotes[writer].tree.length
            } else {
                0
            };
            let out = asked(v, from, writer, length);
            if writer != v.key && have < length {
                &&& out.len() == 1
                &&& out[0].to == Fanout::Peer(from)
                &&& out[0].msg == SyncMessage::Want { writer, start: have, end: length }
            } else {
                out.len() == 0
            }
        }),
{
}

/// As many blocks are served as were asked for and are there, of the log that is written here
/// and of no other.
pub proof fn law_served<M>(v: RoomView<M>, writer: WriterKey, start: u64, end: u64)
    ensures
        ({
            let n = served(v, writer, start, end);
            &&& n >= 0
            &&& n > 0 ==> writer == v.key && start + n <= end && start + n <= v.local.tree.length
            &&& writer == v.key && start < end && start < v.local.tree.length ==> n > 0 && (start
                + n == end || start + n == v.local.tree.length)
        }),
{
}

/// Whether a room's replica of a log, or the lack of one, is of the log's first blocks.
pub open spec fn keeps_up<M>(
    b: RoomView<M>,
    w: WriterKey,
    public: PublicKey,
    blocks: Seq<Seq<u8>>,
) -> bool {
    b.remotes.contains_key(w) ==> {
        &&& b.remotes[w].public == public
        &&& b.remotes[w].tree.length <= blocks.len()
        &&& holds(b.remotes[w].tree, blocks.take(b.remotes[w].tree.length as int))
    }
}

/// Whether taking in a message got as far as the block's being stored.
pub open spec fn stored<SE, PE>(r: Result<Vec<Outbound>, Error<SE, PE>>) -> bool {
    r matches Err(e) ==> e is Projection || e is Codec
}

/// One block that the writer serves is one more block of its log here.
proof fn lemma_next_block<F: StoreFactory, P: Projection, G: StoreFactory, Q: Projection>(
    a: Room<F, P>,
    was: Room<G, Q>,
    now: Room<G, Q>,
    from: PeerId,
    msg: SyncMessage,
    r: Result<Vec<Outbound>, RoomError<G, Q>>,
)
    requires
        a.unbroken(),
        a@.local.public@ == a@.key,
        a@.local.head matches Some(h) && h.signed_by(a@.local.public),
        was@.key != a@.key,
        keeps_up(
            was@,
            a@.key,
            a@.local.public,
            stored_blocks(a@.local.contents, a@.local.tree.length as nat),
        ),
        was@.length_of(a@.key) < a@.local.tree.length,
        hands_over(a, was@.length_of(a@.key), msg@),
        inbound_outcome::<G, Q>(was, now, from, msg, r),
        stored(r),
    ensures
        now@.key == was@.key,
        now@.length_of(a@.key) == was@.length_of(a@.key) + 1,
        keeps_up(
            now@,
            a@.key,
            a@.local.public,
            stored_blocks(a@.local.contents, a@.local.tree.length as nat),
        ),
{
    let w = a@.key;
    let log = a@.local;
    let blocks = stored_blocks(log.contents, log.tree.length as nat);
    let i = was@.length_of(w);
    if let SyncMessage::Block { writer, head, index, bytes, proof: p } = msg {
        let x = now@.remotes[w];
        let m = was@.replica(w, x.public, was.stored(w));
        assert(msg@ == super::room::block_with(w, log, i, bytes@));
        assert(writer == w && index == i && head == log.head->0);
        assert(proof_view(p) == proof_of(log.tree, i));
        assert(log.block(i) == Some(bytes@));
        PublicKey::lemma_bytes(x.public, log.public);
        assert(m.public == log.public) by {
            if !was@.remotes.contains_key(w) {
                match r {
                    Ok(_) => {},
                    Err(_) => {},
                }
            }
        }
        assert(m.tree.length == i);
        assert(holds(m.tree, blocks.take(i as int))) by {
            if !was@.remotes.contains_key(w) {
                law_empty();
                assert(blocks.take(0) =~= Seq::<Seq<u8>>::empty());
            }
        }
        law_served_is_taken(a@, m, i, p);
        crate::merkle::flat::lemma_leaf(i as nat);
        assert(log.tree.nodes.contains_key((2 * i) as u64));
        let top = crate::merkle::laws::lemma_path(log.tree, blocks, (2 * i) as u64);
        law_replicate(m, log, blocks, p);
        assert(blocks[i as int] == bytes@);
        assert(x.tree == m.tree.appended(bytes@));
        assert(now@.remotes.contains_key(w));
    }
}

/// What a message makes known: that its sender has so many blocks of a writer's log.
pub open spec fn advertises(msg: SyncMessage, writer: WriterKey, length: u64) -> bool {
    match msg {
        SyncMessage::Have { writer: w, length: n } => w == writer && n == length,
        SyncMessage::Head { writer: w, head } => w == writer && head.length == length,
        _ => false,
    }
}

/// A peer that makes known that it has more blocks of another writer's log than the room,
/// however many more, is asked for all that are missing, by one request to that peer and to
/// nobody else. Nothing is asked for otherwise, and the room does not change.
pub proof fn law_hears<F: StoreFactory, P: Projection>(
    was: Room<F, P>,
    now: Room<F, P>,
    from: PeerId,
    msg: SyncMessage,
    writer: WriterKey,
    length: u64,
    r: Result<Vec<Outbound>, RoomError<F, P>>,
)
    requires
        advertises(msg, writer, length),
        inbound_outcome::<F, P>(was, now, from, msg, r),
    ensures
        now == was,
        r matches Ok(out) && {
            let have = if was@.remotes.contains_key(writer) {
                was@.remotes[writer].tree.length
            } else {
                0
            };
            if writer != was@.key && have < length {
                &&& out@.len() == 1
                &&& out@[0].to == Fanout::Peer(from)
                &&& out@[0].msg == SyncMessage::Want { writer, start: have, end: length }
            } else {
                out@.len() == 0
            }
        },
{
    law_asked(was@, from, writer, length);
}

/// Whoever asks for blocks gets them, in their order, from the room that writes the log,
/// those that are there, and nobody else gets any; the room does not change. On a store
/// that never fails a room that has all its blocks answers.
pub proof fn law_serves<F: StoreFactory, P: Projection>(
    was: Room<F, P>,
    now: Room<F, P>,
    from: PeerId,
    writer: WriterKey,
    start: u64,
    end: u64,
    r: Result<Vec<Outbound>, RoomError<F, P>>,
)
    requires
        inbound_outcome::<F, P>(was, now, from, SyncMessage::Want { writer, start, end }, r),
    ensures
        now == was,
        writer != was@.key ==> (r matches Ok(out) && out@.len() == 0),
        was.unbroken() && F::Store::sure() ==> r is Ok,
        r matches Ok(out) ==> {
            &&& writer == was@.key && start < end && end <= was@.local.tree.length ==> start
                + out@.len() == end
            &&& writer == was@.key && start < was@.local.tree.length < end ==> start + out@.len()
                == was@.local.tree.length
            &&& start >= end || start >= was@.local.tree.length ==> out@.len() == 0
            &&& forall|j: int|
                0 <= j < out@.len() ==> {
                    &&& (#[trigger] out@[j]).to == Fanout::Peer(from)
                    &&& out@[j].msg matches SyncMessage::Block {
                        writer: w,
                        head,
                        index,
                        bytes,
                        proof: p,
                    } && {
                        &&& w == was@.key
                        &&& index == start + j
                        &&& head == was@.local.head->0
                        &&& was.intact() ==> was@.local.block(index) == Some(bytes@)
                        &&& proof_view(p) == proof_of(was@.local.tree, index)
                    }
                }
        },
{
    law_served(was@, writer, start, end);
    if was.unbroken() {
        assert forall|i: u64| i < was@.local.tree.length implies #[trigger] was@.local.block(
            i,
        ) is Some by {
            assert(was@.local.has(i));
        }
    }
}

/// A room catches up. It hears that a writer has more blocks than it has of the writer's
/// log, however many more; it asks, and what it asks for the writer's room serves, all of
/// it; and once it has taken that in, it has as much of the log as it heard of, block for
/// block, as long as its own stores take the blocks.
pub proof fn law_catch_up<F: StoreFactory, P: Projection, G: StoreFactory, Q: Projection>(
    a: Room<F, P>,
    still: Room<F, P>,
    b: Room<G, Q>,
    peer: PeerId,
    from: PeerId,
    news: SyncMessage,
    length: u64,
    asks: Result<Vec<Outbound>, RoomError<G, Q>>,
    gets: Result<Vec<Outbound>, RoomError<F, P>>,
    rooms: Seq<Room<G, Q>>,
    results: Seq<Result<Vec<Outbound>, RoomError<G, Q>>>,
)
    requires
        a.unbroken(),
        a@.local.public@ == a@.key,
        a@.local.head matches Some(h) && h.signed_by(a@.local.public),
        b@.key != a@.key,
        keeps_up(
            b@,
            a@.key,
            a@.local.public,
            stored_blocks(a@.local.contents, a@.local.tree.length as nat),
        ),
        b@.length_of(a@.key) < length <= a@.local.tree.length,
        advertises(news, a@.key, length),
        inbound_outcome::<G, Q>(b, rooms[0], from, news, asks),
        asks matches Ok(out) && (out@.len() == 1 ==> inbound_outcome::<F, P>(
            a,
            still,
            peer,
            out@[0].msg,
            gets,
        )),
        gets matches Ok(out) && {
            &&& rooms.len() == out@.len() + 1
            &&& results.len() == out@.len()
            &&& forall|j: int|
                0 <= j < results.len() ==> stored(#[trigger] results[j]) && inbound_outcome::<G, Q>(
                    rooms[j],
                    rooms[j + 1],
                    from,
                    out@[j].msg,
                    results[j],
                )
        },
    ensures
        asks matches Ok(out) && out@.len() == 1 && out@[0].to == Fanout::Peer(from),
        gets matches Ok(out) && out@.len() == length - b@.length_of(a@.key),
        rooms.last()@.remotes.contains_key(a@.key),
        rooms.last()@.remotes[a@.key].tree.length == length,
        holds(
            rooms.last()@.remotes[a@.key].tree,
            stored_blocks(a@.local.contents, length as nat),
        ),
        length == a@.local.tree.length ==> rooms.last()@.remotes[a@.key].tree == a@.local.tree,
{
    let w = a@.key;
    let blocks = stored_blocks(a@.local.contents, a@.local.tree.length as nat);
    let start = b@.length_of(w);
    law_hears(b, rooms[0], from, news, w, length, asks);
    law_serves(a, still, peer, w, start, length, gets);
    let out = gets->Ok_0;
    let sent = Seq::new(out@.len(), |j: int| out@[j].msg);
    assert forall|j: int| 0 <= j < sent.len() implies hands_over(
        a,
        (rooms[0]@.length_of(w) + j) as u64,
        (#[trigger] sent[j])@,
    ) by {
        assert(out@[j].to == Fanout::Peer(peer));
    }
    assert forall|j: int| 0 <= j < sent.len() implies inbound_outcome::<G, Q>(
        rooms[j],
        rooms[j + 1],
        from,
        #[trigger] sent[j],
        results[j],
    ) by {
        assert(stored(results[j]));
    }
    lemma_catch_up(a, rooms, from, sent, results, sent.len() as int);
    let v = rooms.last()@;
    let m = v.remotes[w];
    assert(v.length_of(w) == length);
    assert(blocks.take(length as int) =~= stored_blocks(a@.local.contents, length as nat));
    if length == a@.local.tree.length {
        assert(blocks.take(length as int) =~= blocks);
        crate::merkle::laws::law_one_tree(m.tree, a@.local.tree, blocks);
    }
}

proof fn lemma_catch_up<F: StoreFactory, P: Projection, G: StoreFactory, Q: Projection>(
    a: Room<F, P>,
    rooms: Seq<Room<G, Q>>,
    from: PeerId,
    sent: Seq<SyncMessage>,
    results: Seq<Result<Vec<Outbound>, RoomError<G, Q>>>,
    k: int,
)
    requires
        0 <= k <= sent.len(),
        a.unbroken(),
        a@.local.public@ == a@.key,
        a@.local.head matches Some(h) && h.signed_by(a@.local.public),
        rooms.len() == sent.len() + 1,
        results.len() == sent.len(),
        rooms[0]@.key != a@.key,
        keeps_up(
            rooms[0]@,
            a@.key,
            a@.local.public,
            stored_blocks(a@.local.contents, a@.local.tree.length as nat),
        ),
        rooms[0]@.length_of(a@.key) + sent.len() <= a@.local.tree.length,
        forall|j: int|
            0 <= j < sent.len() ==> hands_over(
                a,
                (rooms[0]@.length_of(a@.key) + j) as u64,
                (#[trigger] sent[j])@,
            ),
        forall|j: int|
            0 <= j < sent.len() ==> inbound_outcome::<G, Q>(
                rooms[j],
                rooms[j + 1],
                from,
                #[trigger] sent[j],
                results[j],
            ),
        forall|j: int| 0 <= j < results.len() ==> stored(#[trigger] results[j]),
    ensures
        rooms[k]@.key == rooms[0]@.key,
        rooms[k]@.length_of(a@.key) == rooms[0]@.length_of(a@.key) + k,
        keeps_up(
            rooms[k]@,
            a@.key,
            a@.local.public,
            stored_blocks(a@.local.contents, a@.local.tree.length as nat),
        ),
    decreases k,
{
    if k > 0 {
        lemma_catch_up(a, rooms, from, sent, results, k - 1);
        assert(hands_over(a, (rooms[0]@.length_of(a@.key) + (k - 1)) as u64, sent[k - 1]@));
        assert(inbound_outcome::<G, Q>(
            rooms[k - 1],
            rooms[k - 1 + 1],
            from,
            sent[k - 1],
            results[k - 1],
        ));
        assert(stored(results[k - 1]));
        lemma_next_block(a, rooms[k - 1], rooms[k], from, sent[k - 1], results[k - 1]);
    }
}

} // verus!
