//! What polls hand out over the life of a room, and a driver writes over its run.
use vstd::prelude::*;
use super::driver::{obeyed, took_in, Command, Inbound, Next};
use super::laws::law_contiguous;
use super::projection::Projection;
use super::room::{
    advanced, append_outcome, fresh, inbound_outcome, refusal, Error, Outbound, PeerId, Room,
    RoomError, RoomView,
};
use super::server::{RoomId, RoomServer};
use super::store::StoreFactory;
use super::sync::SyncMessage;
use crate::autobase::NodeId;

verus! {

/// Whether the operations that polls have handed out, by the versions `out` they came
/// with, and those that wait for the next one are numbered on from `base`, up to the count
/// of those folded.
pub open spec fn issued<M>(base: nat, out: Seq<u64>, v: RoomView<M>) -> bool {
    &&& base + out.len() + v.queue.len() == v.folded
    &&& forall|i: int| 0 <= i < out.len() ==> #[trigger] out[i] == base + i + 1
    &&& forall|i: int|
        0 <= i < v.queue.len() ==> (#[trigger] v.queue[i]).2 == base + out.len() + i + 1
}

/// The versions in a queue.
pub open spec fn versions(queue: Seq<(NodeId, Seq<u8>, u64)>) -> Seq<u64> {
    queue.map_values(|q: (NodeId, Seq<u8>, u64)| q.2)
}

/// Nothing has been handed out of a room in which nothing waits.
pub proof fn law_issued_none<M>(v: RoomView<M>)
    requires
        v.queue.len() == 0,
    ensures
        issued(v.folded, Seq::empty(), v),
{
}

/// What becomes final is numbered on from what has been handed out, unless the projection
/// refuses an operation.
pub proof fn law_issued_more<P: Projection>(base: nat, out: Seq<u64>, v: RoomView<P::Model>)
    requires
        issued(base, out, v),
        refusal::<P>(v) is None,
        v.folded + fresh(v).len() <= u64::MAX,
    ensures
        issued(base, out, advanced::<P>(v)),
{
    let w = advanced::<P>(v);
    assert forall|i: int| 0 <= i < w.queue.len() implies (#[trigger] w.queue[i]).2 == base
        + out.len() + i + 1 by {
        if i < v.queue.len() {
            assert(w.queue[i] == v.queue[i]);
        } else {
            law_contiguous::<P>(v, i - v.queue.len());
        }
    }
}

/// Polls hand out every final operation once: the versions of a poll go on where those
/// before left off, up to the count of those folded, and a further poll hands out nothing.
pub proof fn law_issued_polled<M>(base: nat, out: Seq<u64>, v: RoomView<M>)
    requires
        issued(base, out, v),
    ensures
        issued(base, out + versions(v.queue), RoomView { queue: Seq::empty(), ..v }),
        base + (out + versions(v.queue)).len() == v.folded,
{
    let all = out + versions(v.queue);
    assert forall|i: int| 0 <= i < all.len() implies #[trigger] all[i] == base + i + 1 by {
        if i >= out.len() {
            assert(all[i] == v.queue[i - out.len()].2);
        }
    }
}

/// Writing keeps the numbering, whatever it ends in but a refusal by the projection.
pub proof fn law_append_issued<F: StoreFactory, P: Projection>(
    base: nat,
    out: Seq<u64>,
    was: Room<F, P>,
    now: Room<F, P>,
    op: Seq<u8>,
    r: Result<Vec<Outbound>, RoomError<F, P>>,
)
    requires
        issued(base, out, was@),
        append_outcome::<F, P>(was, now, op, r),
        !refused(r),
    ensures
        issued(base, out, now@),
{
    let w = was@.wrote(op);
    now.lemma_folded();
    if now@.folded != was@.folded || now@.queue != was@.queue {
        assert(refusal::<P>(w) is None);
        law_issued_more::<P>(base, out, w);
    }
}

/// Taking in a message keeps the numbering, whatever it ends in but a refusal by the
/// projection.
pub proof fn law_inbound_issued<F: StoreFactory, P: Projection>(
    base: nat,
    out: Seq<u64>,
    was: Room<F, P>,
    now: Room<F, P>,
    from: PeerId,
    msg: SyncMessage,
    r: Result<Vec<Outbound>, RoomError<F, P>>,
)
    requires
        issued(base, out, was@),
        inbound_outcome::<F, P>(was, now, from, msg, r),
        !refused(r),
    ensures
        issued(base, out, now@),
{
    now.lemma_folded();
    if let SyncMessage::Block { writer, head, index, bytes, proof: p } = msg {
        let x = now@.remotes[writer];
        let m = was@.replica(writer, x.public, was.stored(writer));
        let known = was@.with_replica(writer, m);
        let node = NodeId { key: writer, seq: index };
        if r is Ok && writer != was@.key && m.takes(head, index, bytes@, p) {
            let e = super::entry::parsed_entry(bytes@)->Ok_0;
            let w = known.with_replica(writer, x).took(node, e);
            law_issued_more::<P>(base, out, w);
        }
    }
}

/// Whether an operation ended in a refusal by the projection.
pub open spec fn refused<SE, PE>(r: Result<Vec<Outbound>, Error<SE, PE>>) -> bool {
    r matches Err(e) && e is Projection
}

/// What is done to a room.
pub ghost enum Step<F: StoreFactory, P: Projection> {
    /// An operation is written.
    Write(Seq<u8>, Result<Vec<Outbound>, RoomError<F, P>>),
    /// A message is taken in.
    TakeIn(PeerId, SyncMessage, Result<Vec<Outbound>, RoomError<F, P>>),
    /// What has become final is asked for.
    Poll,
}

/// What a step does, none of them ending in a refusal by the projection.
pub open spec fn stepped<F: StoreFactory, P: Projection>(
    was: Room<F, P>,
    now: Room<F, P>,
    step: Step<F, P>,
) -> bool {
    match step {
        Step::Write(op, r) => append_outcome::<F, P>(was, now, op, r) && !refused(r),
        Step::TakeIn(from, msg, r) => inbound_outcome::<F, P>(was, now, from, msg, r) && !refused(
            r,
        ),
        Step::Poll => now@ == (RoomView { queue: Seq::empty(), ..was@ }),
    }
}

/// The versions that the polls among steps hand out.
pub open spec fn handed<F: StoreFactory, P: Projection>(
    rooms: Seq<Room<F, P>>,
    steps: Seq<Step<F, P>>,
) -> Seq<u64>
    decreases steps.len(),
{
    if steps.len() == 0 {
        Seq::empty()
    } else {
        let before = handed(rooms, steps.drop_last());
        if steps.last() is Poll {
            before + versions(rooms[steps.len() - 1]@.queue)
        } else {
            before
        }
    }
}

/// Over any history of a room the polls hand out every operation that has become final,
/// once and in order: their versions are the numbers that follow the count of those final at
/// the start, none left out, up to the count of those final at the last poll.
pub proof fn law_history<F: StoreFactory, P: Projection>(
    rooms: Seq<Room<F, P>>,
    steps: Seq<Step<F, P>>,
)
    requires
        rooms.len() == steps.len() + 1,
        rooms[0]@.queue.len() == 0,
        forall|i: int|
            0 <= i < steps.len() ==> stepped(rooms[i], rooms[i + 1], #[trigger] steps[i]),
    ensures
        issued(rooms[0]@.folded, handed(rooms, steps), rooms.last()@),
        steps.len() > 0 && steps.last() is Poll ==> {
            &&& rooms[0]@.folded + handed(rooms, steps).len() == rooms.last()@.folded
            &&& rooms.last()@.queue.len() == 0
        },
    decreases steps.len(),
{
    let base = rooms[0]@.folded;
    if steps.len() == 0 {
        law_issued_none(rooms[0]@);
    } else {
        let less = steps.drop_last();
        let some = rooms.drop_last();
        let was = rooms[steps.len() - 1];
        let now = rooms[steps.len() as int];
        assert forall|i: int| 0 <= i < less.len() implies stepped(
            some[i],
            some[i + 1],
            #[trigger] less[i],
        ) by {
            assert(less[i] == steps[i]);
        }
        law_history(some, less);
        lemma_handed_same(rooms, some, less);
        let out = handed(rooms, less);
        assert(stepped(rooms[steps.len() - 1], rooms[steps.len() - 1 + 1], steps[steps.len() - 1]));
        match steps.last() {
            Step::Write(op, r) => {
                law_append_issued(base, out, was, now, op, r);
            },
            Step::TakeIn(from, msg, r) => {
                law_inbound_issued(base, out, was, now, from, msg, r);
            },
            Step::Poll => {
                law_issued_polled(base, out, was@);
            },
        }
    }
}

proof fn lemma_handed_same<F: StoreFactory, P: Projection>(
    a: Seq<Room<F, P>>,
    b: Seq<Room<F, P>>,
    steps: Seq<Step<F, P>>,
)
    requires
        steps.len() <= a.len(),
        steps.len() <= b.len(),
        forall|i: int| 0 <= i < steps.len() ==> a[i] == #[trigger] b[i],
    ensures
        handed(a, steps) == handed(b, steps),
    decreases steps.len(),
{
    if steps.len() > 0 {
        lemma_handed_same(a, b, steps.drop_last());
        assert(a[steps.len() - 1] == b[steps.len() - 1]);
    }
}

/// What a driver does to its rooms.
pub ghost enum Turn {
    /// A command is obeyed.
    Obey(Option<Command>, Next),
    /// A message is handed to its room.
    TakeIn(Inbound, Seq<Outbound>),
    /// What has become final in a room is written.
    Settle(RoomId),
}

/// What a turn does, no room's projection refusing an operation in it.
pub open spec fn turned<F: StoreFactory, P: Projection>(
    was: RoomServer<F, P>,
    now: RoomServer<F, P>,
    turn: Turn,
) -> bool {
    match turn {
        Turn::Obey(cmd, n) => {
            &&& obeyed(was, now, cmd, n)
            &&& cmd matches Some(Command::Append(id, op)) ==> was.map().contains_key(
                id,
            ) ==> forall|r: Result<Vec<Outbound>, RoomError<F, P>>|
                refused(r) ==> !#[trigger] append_outcome::<F, P>(
                    was.map()[id],
                    now.map()[id],
                    op@,
                    r,
                )
        },
        Turn::TakeIn(inbound, out) => {
            &&& took_in(was, now, inbound, out)
            &&& was.map().contains_key(inbound.room) ==> forall|r: Result<Vec<Outbound>, RoomError<F, P>>|
                refused(r) ==> !#[trigger] inbound_outcome::<F, P>(
                    was.map()[inbound.room],
                    now.map()[inbound.room],
                    inbound.from,
                    inbound.msg,
                    r,
                )
        },
        Turn::Settle(id) => {
            &&& was.map().contains_key(id)
            &&& now.map() == was.map().insert(id, now.map()[id])
            &&& now.map()[id]@ == (RoomView { queue: Seq::empty(), ..was.map()[id]@ })
        },
    }
}

/// The versions of a room that a driver writes over some turns.
pub open spec fn written_of<F: StoreFactory, P: Projection>(
    servers: Seq<RoomServer<F, P>>,
    turns: Seq<Turn>,
    id: RoomId,
) -> Seq<u64>
    decreases turns.len(),
{
    if turns.len() == 0 {
        Seq::empty()
    } else {
        let before = written_of(servers, turns.drop_last(), id);
        if turns.last() == Turn::Settle(id) {
            before + versions(servers[turns.len() - 1].map()[id]@.queue)
        } else {
            before
        }
    }
}

/// How many operations of a room were final when it was opened.
pub open spec fn final_at_first<F: StoreFactory, P: Projection>(
    servers: Seq<RoomServer<F, P>>,
    id: RoomId,
) -> nat
    decreases servers.len(),
{
    if servers.len() == 0 {
        0
    } else if servers.len() > 1 && servers.drop_last().last().map().contains_key(id) {
        final_at_first(servers.drop_last(), id)
    } else {
        servers.last().map()[id]@.folded
    }
}

/// Over the run of a driver that has not had a room, the versions that it writes of the room
/// are the numbers that follow the count of operations that were final when the room was
/// opened, from one on if nothing was, each once and in order; and as many as have become
/// final but for those that wait for the next turn.
pub proof fn law_run<F: StoreFactory, P: Projection>(
    servers: Seq<RoomServer<F, P>>,
    turns: Seq<Turn>,
    id: RoomId,
)
    requires
        servers.len() == turns.len() + 1,
        !servers[0].map().contains_key(id),
        forall|i: int|
            0 <= i < turns.len() ==> turned(servers[i], servers[i + 1], #[trigger] turns[i]),
    ensures
        ({
            let out = written_of(servers, turns, id);
            if servers.last().map().contains_key(id) {
                issued(final_at_first(servers, id), out, servers.last().map()[id]@)
            } else {
                out.len() == 0
            }
        }),
    decreases turns.len(),
{
    if turns.len() > 0 {
        let less = turns.drop_last();
        let some = servers.drop_last();
        let was = servers[turns.len() - 1];
        let now = servers[turns.len() as int];
        assert forall|i: int| 0 <= i < less.len() implies turned(
            some[i],
            some[i + 1],
            #[trigger] less[i],
        ) by {
            assert(less[i] == turns[i]);
        }
        law_run(some, less, id);
        lemma_written_same(servers, some, less, id);
        assert(some.last() == was);
        let base = final_at_first(some, id);
        let out = written_of(servers, less, id);
        assert(turned(
            servers[turns.len() - 1],
            servers[turns.len() - 1 + 1],
            turns[turns.len() - 1],
        ));
        match turns.last() {
            Turn::Obey(cmd, n) => {
                lemma_obeyed(base, out, was, now, cmd, n, id);
            },
            Turn::TakeIn(inbound, sent) => {
                if inbound.room == id && was.map().contains_key(id) {
                    let r = choose|r: Result<Vec<Outbound>, RoomError<F, P>>| #[trigger]
                        inbound_outcome::<F, P>(
                            was.map()[id],
                            now.map()[id],
                            inbound.from,
                            inbound.msg,
                            r,
                        );
                    law_inbound_issued(
                        base,
                        out,
                        was.map()[id],
                        now.map()[id],
                        inbound.from,
                        inbound.msg,
                        r,
                    );
                }
            },
            Turn::Settle(room) => {
                if room == id {
                    law_issued_polled(base, out, was.map()[id]@);
                }
            },
        }
    }
}

/// Obeying a command keeps the numbering of a room that is there, and starts that of one
/// that is opened.
proof fn lemma_obeyed<F: StoreFactory, P: Projection>(
    base: nat,
    out: Seq<u64>,
    was: RoomServer<F, P>,
    now: RoomServer<F, P>,
    cmd: Option<Command>,
    n: Next,
    id: RoomId,
)
    requires
        turned(was, now, Turn::Obey(cmd, n)),
        if was.map().contains_key(id) {
            issued(base, out, was.map()[id]@)
        } else {
            out.len() == 0
        },
    ensures
        if was.map().contains_key(id) {
            now.map().contains_key(id) && issued(base, out, now.map()[id]@)
        } else if now.map().contains_key(id) {
            issued(now.map()[id]@.folded, out, now.map()[id]@)
        } else {
            true
        },
{
    match cmd {
        Some(Command::Append(room, op)) => {
            if room == id && was.map().contains_key(id) && was.map()[id]@.has_room(op@) {
                let r = choose|r: Result<Vec<Outbound>, RoomError<F, P>>| #[trigger]
                    append_outcome::<F, P>(was.map()[id], now.map()[id], op@, r);
                law_append_issued(base, out, was.map()[id], now.map()[id], op@, r);
            }
        },
        Some(Command::Host(room)) | Some(Command::JoinRemote(room, _)) => {
            if room == id && !was.map().contains_key(id) && now.map().contains_key(id) {
                assert(now.map()[id]@.queue.len() == 0);
                assert(out =~= Seq::empty());
                law_issued_none(now.map()[id]@);
            }
        },
        _ => {},
    }
}

proof fn lemma_written_same<F: StoreFactory, P: Projection>(
    a: Seq<RoomServer<F, P>>,
    b: Seq<RoomServer<F, P>>,
    turns: Seq<Turn>,
    id: RoomId,
)
    requires
        turns.len() <= a.len(),
        turns.len() <= b.len(),
        forall|i: int| 0 <= i < turns.len() ==> a[i] == #[trigger] b[i],
    ensures
        written_of(a, turns, id) == written_of(b, turns, id),
    decreases turns.len(),
{
    if turns.len() > 0 {
        lemma_written_same(a, b, turns.drop_last(), id);
        assert(a[turns.len() - 1] == b[turns.len() - 1]);
    }
}

} // verus!
