//! What a driver decides: how messages are framed, whom they go to, what commands do, what
//! is kept of what has become final, and when rooms are announced. The network and the
//! clock are the driver's own.
use core::time::Duration;
use vstd::prelude::*;
use super::config::Origin;
use super::projection::Projection;
use super::room::{
    append_outcome, inbound_outcome, Fanout, Finalized, Outbound, PeerId, Room, RoomError, RoomView,
};
use super::server::{new_room, no_room, RoomId, RoomServer};
use super::store::StoreFactory;
use super::sync::{Message, SyncMessage};
use super::wire::{decode, encode, law_wire, message_form, parsed_message};
use crate::autobase::ids::{insert_key, keys_in_order, lemma_keys_in_order, sorted_keys};
use crate::bytes::{array32, get_32, lemma_array32, put_all};

verus! {

/// The protocol's name on the network.
pub open spec fn alpn_bytes() -> Seq<u8> {
    seq![114u8, 111, 111, 109, 110, 101, 116, 47, 115, 121, 110, 99, 47, 48]
}

/// The largest frame that is taken, unless it is set otherwise.
pub const MAX_MESSAGE_BYTES: usize = 0x100_0000;

/// Settings of the network.
#[derive(Clone, Debug)]
pub struct IrohConfig {
    /// The protocol's name.
    pub alpn: Vec<u8>,
    /// The seed of the node's key, which is also the key it writes with.
    pub seed: [u8; 32],
    /// The port to listen at; `None` means any.
    pub bind_port: Option<u16>,
    /// The peers to start with.
    pub bootstrap: Vec<[u8; 32]>,
    /// The largest frame that is taken.
    pub max_message_bytes: usize,
}

impl Default for IrohConfig {
    fn default() -> (c: Self)
        ensures
            c.alpn@ == alpn_bytes(),
            c.seed@ == Seq::new(32, |i: int| 0u8),
            c.bind_port is None,
            c.bootstrap@ == Seq::<[u8; 32]>::empty(),
            c.max_message_bytes == MAX_MESSAGE_BYTES,
    {
        let c: IrohConfig = IrohConfig {
            alpn: vec![114u8, 111, 111, 109, 110, 101, 116, 47, 115, 121, 110, 99, 47, 48],
            seed: [0u8; 32],
            bind_port: None,
            bootstrap: Vec::new(),
            max_message_bytes: MAX_MESSAGE_BYTES,
        };
        assert(c.alpn@ =~= alpn_bytes());
        assert(c.seed@ =~= Seq::new(32, |i: int| 0u8));
        c
    }
}

/// A message that came in: for which room, from whom.
#[derive(Clone, Debug)]
pub struct Inbound {
    pub room: RoomId,
    pub from: PeerId,
    pub msg: SyncMessage,
}

/// What a driver is told to do.
#[derive(Clone, Debug)]
pub enum Command {
    /// Host a room.
    Host(RoomId),
    /// Pull a room, from a peer that has it.
    JoinRemote(RoomId, PeerId),
    /// Write an operation to a room.
    Append(RoomId, Vec<u8>),
    /// Stop.
    Shutdown,
}

/// The span of time of so many milliseconds.
pub uninterp spec fn duration_of_millis(ms: u64) -> Duration;

/// `core::time::Duration::from_millis`: a span of time from the number of its
/// milliseconds, and from nothing else.
#[verifier::external_body]
fn millis(ms: u64) -> (d: Duration)
    ensures
        d == duration_of_millis(ms),
{
    Duration::from_millis(ms)
}

/// How often a driver does what.
#[derive(Clone, Copy, Debug)]
pub struct DriverOpts {
    /// The time between two rounds.
    pub poll_interval: Duration,
    /// Rooms are announced every so many rounds.
    pub announce_every_ticks: u64,
}

impl Default for DriverOpts {
    fn default() -> (o: Self)
        ensures
            o.poll_interval == duration_of_millis(50),
            o.announce_every_ticks == 40,
    {
        DriverOpts { poll_interval: millis(50), announce_every_ticks: 40 }
    }
}

impl DriverOpts {
    /// Whether rooms are announced in a round.
    pub fn announces(&self, tick: u64) -> (b: bool)
        requires
            self.announce_every_ticks > 0,
        ensures
            b == (tick % self.announce_every_ticks == 0),
    {
        tick % self.announce_every_ticks == 0
    }
}

/// The bytes of a message for a room: the room's id, then the message.
pub open spec fn frame_of(room: RoomId, m: Message) -> Seq<u8> {
    room@ + message_form(m)
}

/// What a frame says, if it is one.
pub open spec fn parsed_frame(s: Seq<u8>) -> Option<(RoomId, Message)> {
    if s.len() < 32 {
        None
    } else {
        match parsed_message(s.skip(32)) {
            Ok(m) => Some((array32(s.take(32)), m)),
            Err(_) => None,
        }
    }
}

/// The bytes of a message for a room.
pub fn frame(room: &RoomId, msg: &SyncMessage) -> (out: Vec<u8>)
    ensures
        out@ == frame_of(*room, msg@),
{
    let mut out: Vec<u8> = Vec::new();
    put_all(&mut out, room);
    let bytes: Vec<u8> = encode(msg);
    put_all(&mut out, bytes.as_slice());
    assert(out@ =~= frame_of(*room, msg@));
    out
}

/// The message in a frame, and the room it is for. What is no frame is passed over.
pub fn unframe(buf: &[u8]) -> (r: Option<(RoomId, SyncMessage)>)
    ensures
        match r {
            Some((room, m)) => parsed_frame(buf@) == Some((room, m@)),
            None => parsed_frame(buf@) is None,
        },
{
    if buf.len() < 32 {
        return None;
    }
    let room: RoomId = get_32(buf, 0);
    let (front, rest) = buf.split_at(32);
    proof {
        assert(buf@.subrange(0, 32) =~= buf@.take(32));
        assert(rest@ =~= buf@.skip(32));
    }
    match decode(rest) {
        Ok(m) => Some((room, m)),
        Err(_) => None,
    }
}

/// A frame says what it was made of.
pub proof fn law_frame(room: RoomId, m: Message)
    requires
        m matches Message::Block { bytes, inclusion, .. } ==> bytes.len() <= u64::MAX
            && inclusion.siblings.len() <= u64::MAX && inclusion.roots.len() <= u64::MAX,
    ensures
        parsed_frame(frame_of(room, m)) == Some((room, m)),
{
    let s = frame_of(room, m);
    assert(s.take(32) =~= room@);
    assert(s.skip(32) =~= message_form(m) + Seq::empty());
    lemma_array32(room);
    law_wire(m, Seq::empty());
}

/// The peers that are known, in ascending order.
#[derive(Clone, Debug)]
pub struct Peers {
    list: Vec<PeerId>,
}

impl Peers {
    /// The peers, in ascending order.
    pub closed spec fn ids(&self) -> Seq<PeerId> {
        self.list@
    }

    /// Each peer is known once.
    pub open spec fn wf(&self) -> bool {
        sorted_keys(self.ids())
    }

    /// These peers.
    pub fn new(bootstrap: &[PeerId]) -> (p: Self)
        ensures
            p.wf(),
            p.ids() == keys_in_order(bootstrap@.to_set()),
    {
        let mut p: Peers = Peers { list: Vec::new() };
        let mut i: usize = 0;
        assert(p.ids().to_set() =~= bootstrap@.take(0).to_set());
        while i < bootstrap.len()
            invariant
                i <= bootstrap@.len(),
                p.wf(),
                p.ids().to_set() == bootstrap@.take(i as int).to_set(),
            decreases bootstrap@.len() - i,
        {
            p.add_peer(bootstrap[i]);
            proof {
                let less = bootstrap@.take(i as int);
                let more = bootstrap@.take(i + 1);
                assert(more =~= less.push(bootstrap@[i as int]));
                assert forall|k: PeerId| more.to_set().contains(k) == less.to_set().insert(
                    bootstrap@[i as int],
                ).contains(k) by {
                    if less.contains(k) {
                        let j = choose|j: int| 0 <= j < less.len() && less[j] == k;
                        assert(more[j] == k);
                    }
                    assert(more[i as int] == bootstrap@[i as int]);
                }
                assert(more.to_set() =~= less.to_set().insert(bootstrap@[i as int]));
            }
            i = i + 1;
        }
        proof {
            assert(bootstrap@.take(i as int) =~= bootstrap@);
            lemma_keys_in_order(p.ids());
        }
        p
    }

    /// Know one more peer.
    pub fn add_peer(&mut self, id: PeerId)
        requires
            old(self).wf(),
        ensures
            final(self).wf(),
            final(self).ids().to_set() == old(self).ids().to_set().insert(id),
            final(self).ids() == keys_in_order(old(self).ids().to_set().insert(id)),
    {
        insert_key(&mut self.list, id);
        proof {
            lemma_keys_in_order(self.list@);
        }
    }

    /// The peers, in ascending order.
    pub fn peers(&self) -> (v: Vec<PeerId>)
        ensures
            v@ == self.ids(),
    {
        let mut v: Vec<PeerId> = Vec::new();
        let mut i: usize = 0;
        while i < self.list.len()
            invariant
                i <= self.list@.len(),
                v@ == self.list@.take(i as int),
            decreases self.list@.len() - i,
        {
            v.push(self.list[i]);
            assert(v@ =~= self.list@.take(i + 1));
            i = i + 1;
        }
        assert(self.list@.take(i as int) =~= self.list@);
        v
    }

    /// The peers that a message goes to. Clients are no peers.
    pub fn targets(&self, to: &Fanout) -> (v: Vec<PeerId>)
        ensures
            v@ == match *to {
                Fanout::Gossip => self.ids(),
                Fanout::Peer(p) => seq![p],
                Fanout::Clients => Seq::empty(),
            },
    {
        match to {
            Fanout::Gossip => self.peers(),
            Fanout::Peer(p) => {
                let mut v: Vec<PeerId> = Vec::new();
                v.push(*p);
                v
            },
            Fanout::Clients => Vec::new(),
        }
    }
}

/// What handing a message to its room does: no other room is changed, and what the room
/// answers is sent; nothing is, if it fails on the message.
pub open spec fn took_in<F: StoreFactory, P: Projection>(
    was: RoomServer<F, P>,
    now: RoomServer<F, P>,
    inbound: Inbound,
    out: Seq<Outbound>,
) -> bool {
    if was.map().contains_key(inbound.room) {
        let before = was.map()[inbound.room];
        let after = now.map()[inbound.room];
        &&& now.map() == was.map().insert(inbound.room, after)
        &&& exists|r: Result<Vec<Outbound>, RoomError<F, P>>|
            {
                &&& #[trigger] inbound_outcome::<F, P>(before, after, inbound.from, inbound.msg, r)
                &&& r matches Ok(o) ==> out == o@
                &&& r is Err ==> out == Seq::<Outbound>::empty()
            }
    } else {
        now == was && out == Seq::<Outbound>::empty()
    }
}

/// Hand a message to the room it is for. Says what to send; a message for a room that is
/// not here, and one that the room fails on, is answered with nothing.
pub fn take_in<F: StoreFactory, P: Projection>(server: &mut RoomServer<F, P>, inbound: Inbound) -> (
    out: Vec<Outbound>)
    requires
        old(server).wf(),
    ensures
        final(server).wf(),
        final(server).same_settings(old(server)),
        took_in(*old(server), *final(server), inbound, out@),
{
    match server.get_mut(inbound.room) {
        Some(room) => {
            let r: Result<Vec<Outbound>, RoomError<F, P>> = room.on_inbound(
                inbound.from,
                inbound.msg,
            );
            match r {
                Ok(o) => o,
                Err(_) => Vec::new(),
            }
        },
        None => Vec::new(),
    }
}

/// What a driver is to do after a command.
#[derive(Clone, Debug)]
pub enum Next {
    /// Send these, each for its room.
    Send(Vec<(RoomId, Outbound)>),
    /// Stop.
    Stop,
}

/// Messages of one room.
pub open spec fn addressed(room: RoomId, out: Seq<Outbound>) -> Seq<(RoomId, Outbound)> {
    out.map_values(|o: Outbound| (room, o))
}

/// What a room announces: how far the log that is written in it has come.
pub open spec fn announced<M>(v: RoomView<M>) -> Seq<Outbound> {
    match v.local.head {
        Some(head) => seq![
            Outbound { msg: SyncMessage::Head { writer: v.key, head }, to: Fanout::Gossip },
        ],
        None => Seq::empty(),
    }
}

/// Address messages to a room.
fn address(room: RoomId, out: Vec<Outbound>) -> (v: Vec<(RoomId, Outbound)>)
    ensures
        v@ == addressed(room, out@),
{
    let mut v: Vec<(RoomId, Outbound)> = Vec::new();
    let mut rest: Vec<Outbound> = out;
    let ghost all = addressed(room, out@);
    assert(v@ + addressed(room, rest@) =~= all);
    while rest.len() > 0
        invariant
            v@ + addressed(room, rest@) == all,
        decreases rest@.len(),
    {
        let ghost had = addressed(room, rest@);
        let ghost was = v@;
        let o: Outbound = rest.remove(0);
        v.push((room, o));
        proof {
            assert(had =~= seq![(room, o)] + addressed(room, rest@));
            assert(v@ + addressed(room, rest@) =~= was + had);
        }
    }
    assert(v@ + addressed(room, rest@) =~= v@);
    v
}

/// What a command to have a room does: the room is there as it was or newly opened, and is
/// announced; where it could not be opened, nothing is done.
pub open spec fn had<F: StoreFactory, P: Projection>(
    was: RoomServer<F, P>,
    now: RoomServer<F, P>,
    room: RoomId,
    origin: Origin,
    n: Next,
) -> bool {
    &&& now.wf()
    &&& now.same_settings(&was)
    &&& n matches Next::Send(v) && if was.map().contains_key(room) {
        now.map() == was.map() && v@ == addressed(room, announced(was.map()[room]@))
    } else if now.map().contains_key(room) {
        let x = now.map()[room];
        &&& new_room(was, origin, x)
        &&& now.map() == was.map().insert(room, x)
        &&& v@ == addressed(room, announced(x@))
    } else {
        &&& exists|e: RoomError<F, P>| #[trigger] no_room(was, origin, e)
        &&& now == was
        &&& v@ == Seq::<(RoomId, Outbound)>::empty()
    }
}

/// What a command to write does: a room that is here and has room for it writes it, and
/// what the room sends is sent; else nothing is done.
pub open spec fn appended<F: StoreFactory, P: Projection>(
    was: RoomServer<F, P>,
    now: RoomServer<F, P>,
    room: RoomId,
    op: Seq<u8>,
    n: Next,
) -> bool {
    let there = was.map().contains_key(room);
    let before = was.map()[room];
    if there && before@.has_room(op) {
        let after = now.map()[room];
        &&& now.map() == was.map().insert(room, after)
        &&& now.same_settings(&was)
        &&& now.wf()
        &&& exists|r: Result<Vec<Outbound>, RoomError<F, P>>|
            {
                &&& #[trigger] append_outcome::<F, P>(before, after, op, r)
                &&& n matches Next::Send(v) && v@ == match r {
                    Ok(out) => addressed(room, out@),
                    Err(_) => Seq::empty(),
                }
            }
    } else {
        &&& now.map() == was.map()
        &&& now.same_settings(&was)
        &&& now.wf()
        &&& n matches Next::Send(v) && v@ == Seq::<(RoomId, Outbound)>::empty()
    }
}

/// What doing what a command says does to the rooms.
pub open spec fn obeyed<F: StoreFactory, P: Projection>(
    was: RoomServer<F, P>,
    now: RoomServer<F, P>,
    cmd: Option<Command>,
    n: Next,
) -> bool {
    match cmd {
        None | Some(Command::Shutdown) => n is Stop && now == was,
        Some(Command::Host(room)) => had(was, now, room, Origin::Original, n),
        Some(Command::JoinRemote(room, _)) => had(
            was,
            now,
            room,
            Origin::Replicated { delete_on_stale_after: was.patience() },
            n,
        ),
        Some(Command::Append(room, op)) => appended(was, now, room, op@, n),
    }
}

/// Do what a command says. The end of the commands is a command to stop.
pub fn obey<F: StoreFactory + Default, P: Projection + Clone>(
    server: &mut RoomServer<F, P>,
    peers: &mut Peers,
    cmd: Option<Command>,
) -> (n: Next)
    requires
        old(server).wf(),
        old(peers).wf(),
    ensures
        final(peers).wf(),
        final(server).wf(),
        obeyed(*old(server), *final(server), cmd, n),
        match cmd {
            Some(Command::JoinRemote(_, origin)) => final(peers).ids() == keys_in_order(
                old(peers).ids().to_set().insert(origin),
            ),
            _ => *final(peers) == *old(peers),
        },
{
    let ghost was = server.map();
    match cmd {
        None => Next::Stop,
        Some(Command::Shutdown) => Next::Stop,
        Some(Command::Host(room)) => {
            let out: Vec<Outbound> = match server.host(room) {
                Ok(x) => x.announce(),
                Err(_) => Vec::new(),
            };
            proof {
                if was.contains_key(room) {
                    assert(server.map() =~= was);
                }
                assert(addressed(room, Seq::empty()) =~= Seq::empty());
            }
            Next::Send(address(room, out))
        },
        Some(Command::JoinRemote(room, origin)) => {
            peers.add_peer(origin);
            let out: Vec<Outbound> = match server.join_remote(room) {
                Ok(x) => x.announce(),
                Err(_) => Vec::new(),
            };
            proof {
                if was.contains_key(room) {
                    assert(server.map() =~= was);
                }
                assert(addressed(room, Seq::empty()) =~= Seq::empty());
            }
            Next::Send(address(room, out))
        },
        Some(Command::Append(room, op)) => {
            let out: Vec<Outbound> = match server.get_mut(room) {
                Some(x) => if x.has_room(op.as_slice()) {
                    let r: Result<Vec<Outbound>, RoomError<F, P>> = x.local_append(op.as_slice());
                    assert(x.wf());
                    match r {
                        Ok(out) => out,
                        Err(_) => Vec::new(),
                    }
                } else {
                    Vec::new()
                },
                None => Vec::new(),
            };
            proof {
                if was.contains_key(room) && !was[room]@.has_room(op@) {
                    assert(server.map() =~= was);
                }
                assert(addressed(room, Seq::empty()) =~= Seq::empty());
            }
            Next::Send(address(room, out))
        },
    }
}

/// Take what has become final in a room: one version for each operation, in order, each to
/// be kept with the view of what is final.
pub fn settle<F: StoreFactory, P: Projection>(room: &mut Room<F, P>) -> (v: Vec<
    (u64, &P::State),
>)
    requires
        old(room).wf(),
    ensures
        final(room).wf(),
        final(room).intact() == old(room).intact(),
        final(room)@ == (RoomView { queue: Seq::empty(), ..old(room)@ }),
        v@.len() == old(room)@.queue.len(),
        forall|i: int|
            0 <= i < v@.len() ==> (#[trigger] v@[i]).0 == old(room)@.queue[i].2 && P::sound(
                v@[i].1,
            ) && P::meaning(v@[i].1) == old(room)@.settled,
{
    let done: Vec<Finalized> = room.poll_finalized();
    let state: &P::State = room.snapshot_finalized();
    let mut v: Vec<(u64, &P::State)> = Vec::new();
    let mut i: usize = 0;
    while i < done.len()
        invariant
            i <= done@.len(),
            v@.len() == i,
            forall|k: int|
                0 <= k < v@.len() ==> (#[trigger] v@[k]).0 == done@[k].version && v@[k].1 == state,
        decreases done@.len() - i,
    {
        v.push((done[i].version, state));
        i = i + 1;
    }
    v
}

} // verus!
