//! What a server and its driver do with rooms, part by part.
use vstd::prelude::*;
use super::config::Origin;
use super::dag::mentions;
use super::driver::{addressed, announced, obeyed, took_in, Command, Inbound, Next};
use super::effects::{law_open_reports, votes_of};
use super::entry::parsed_entry;
use super::laws::up_to_date;
use super::projection::Projection;
use super::room::resume::{kept_nodes, legible, log_nodes, others, writers_of};
use super::room::{Fanout, Outbound, Room, RoomView};
use super::server::{dropped, evicts, in_id_order, kept, new_room, RoomId, RoomServer};
use super::store::{digit, digit_value, hex_of, pair_value, StoreFactory};
use super::sync::SyncMessage;
use super::testkit::{del_op, kv_after, put_op, CounterProjection, KvProjection};
use crate::autobase::{NodeId, WriterKey};
use crate::codec::forms::law_varint;
use crate::codec::varint;
use crate::hypercore::restore::stored_from;
use crate::identity::ed25519_public;

verus! {

/// A room that a server has just opened is written with the server's key, counts the votes
/// of exactly the server's indexers, comes from where it was said to, and has its views up to
/// date from what views start from.
pub proof fn law_new_room<F: StoreFactory, P: Projection>(
    s: RoomServer<F, P>,
    origin: Origin,
    r: Room<F, P>,
)
    requires
        new_room(s, origin, r),
    ensures
        r.wf(),
        r@.key@ == ed25519_public(s.seed()@),
        r@.origin == origin,
        votes_of(r@.dag.voters, s.voters()),
        up_to_date::<P>(r@, s.template()),
        r@.queue.len() == 0,
        r@.activity == 0,
{
    let factory = choose|factory: F| #[trigger]
        super::server::server_opens(
            s,
            origin,
            r@.local.public,
            factory,
            Ok::<Room<F, P>, super::room::RoomError<F, P>>(r),
        );
    law_open_reports::<F, P>(
        s.seed(),
        s.voters(),
        origin,
        r@.local.public,
        s.template(),
        factory,
        r,
    );
}

/// What is kept and what is dropped of rooms: each is one or the other, as it is flagged.
proof fn lemma_kept_or_dropped<R>(s: Seq<(RoomId, R)>, flags: Seq<bool>, i: int)
    requires
        flags.len() >= s.len(),
        0 <= i < s.len(),
        in_id_order(s),
    ensures
        kept(s, flags).contains(s[i]) <==> !flags[i],
        dropped(s, flags).contains(s[i].0) <==> flags[i],
        forall|x: (RoomId, R)| #[trigger] kept(s, flags).contains(x) ==> s.contains(x),
        forall|k: RoomId| #[trigger]
            dropped(s, flags).contains(k) ==> exists|j: int|
                0 <= j < s.len() && (#[trigger] s[j]).0 == k,
    decreases s.len(),
{
    let less = s.drop_last();
    let n = s.len() - 1;
    assert(in_id_order(less)) by {
        assert forall|a: int, b: int| 0 <= a < b < less.len() implies crate::autobase::ids::key_lt(
            (#[trigger] less[a]).0,
            (#[trigger] less[b]).0,
        ) by {
            assert(less[a] == s[a] && less[b] == s[b]);
        }
    }
    let a = kept(less, flags);
    let b = dropped(less, flags);
    if less.len() > 0 {
        let j = if i < n {
            i
        } else {
            0
        };
        lemma_kept_or_dropped(less, flags, j);
    } else {
        assert(!a.contains(s[i]));
        assert(!b.contains(s[i].0));
    }
    assert forall|x: (RoomId, R)| a.contains(x) implies s.contains(x) by {
        assert(less.contains(x));
        let j = choose|j: int| 0 <= j < less.len() && less[j] == x;
        assert(s[j] == x);
    }
    assert forall|k: RoomId| b.contains(k) implies exists|j: int|
        0 <= j < n && (#[trigger] s[j]).0 == k by {
        let j = choose|j: int| 0 <= j < less.len() && (#[trigger] less[j]).0 == k;
        assert(s[j].0 == k);
    }
    let last = s[n];
    crate::autobase::ids::lemma_key_irreflexive(last.0);
    if a.contains(last) {
        let j = choose|j: int| 0 <= j < less.len() && less[j] == last;
        assert(s[j].0 == last.0);
    }
    if b.contains(last.0) {
        let j = choose|j: int| 0 <= j < n && (#[trigger] s[j]).0 == last.0;
        assert(crate::autobase::ids::key_lt(s[j].0, s[n].0));
    }
    if flags[n] {
        assert(b.push(last.0)[b.len() as int] == last.0);
        assert forall|k: RoomId| b.contains(k) implies #[trigger] b.push(last.0).contains(k) by {
            assert(b.push(last.0)[b.index_of(k)] == k);
        }
        if i < n {
            assert(s[i].0 != last.0) by {
                assert(crate::autobase::ids::key_lt(s[i].0, s[n].0));
            }
            assert(dropped(s, flags).contains(s[i].0) <==> b.contains(s[i].0));
        }
    } else {
        assert(a.push(last)[a.len() as int] == last);
        assert forall|x: (RoomId, R)| a.contains(x) implies #[trigger] a.push(last).contains(x) by {
            assert(a.push(last)[a.index_of(x)] == x);
        }
        if i < n {
            assert(s[i].0 != last.0) by {
                assert(crate::autobase::ids::key_lt(s[i].0, s[n].0));
            }
            assert(kept(s, flags).contains(s[i]) <==> a.contains(s[i]));
        }
    }
    assert forall|k: RoomId| #[trigger] dropped(s, flags).contains(k) implies exists|j: int|
        0 <= j < s.len() && (#[trigger] s[j]).0 == k by {
        if b.contains(k) {
            let j = choose|j: int| 0 <= j < n && (#[trigger] s[j]).0 == k;
            assert(s[j].0 == k);
        } else {
            assert(s[n].0 == k);
        }
    }
}

/// A room that is hosted here is never dropped, a replicated one exactly if it is stale; and
/// the ids that are reported are those of the rooms that are gone.
pub proof fn law_evicted<F: StoreFactory, P: Projection, T: Fn(&Room<F, P>) -> bool>(
    s: Seq<(RoomId, Room<F, P>)>,
    flags: Seq<bool>,
    is_stale: T,
    i: int,
)
    requires
        evicts(s, flags, is_stale),
        in_id_order(s),
        0 <= i < s.len(),
    ensures
        kept(s, flags).contains(s[i]) <==> !dropped(s, flags).contains(s[i].0),
        s[i].1@.origin is Original ==> kept(s, flags).contains(s[i]),
        !is_stale.ensures((&s[i].1,), true) ==> kept(s, flags).contains(s[i]),
        s[i].1@.origin is Replicated && !is_stale.ensures((&s[i].1,), false) ==> dropped(
            s,
            flags,
        ).contains(s[i].0),
        forall|x: (RoomId, Room<F, P>)| #[trigger] kept(s, flags).contains(x) ==> s.contains(x),
{
    lemma_kept_or_dropped(s, flags, i);
    assert(flags[i] == flags[i]);
}

/// A message changes the room that it is for and no other, and one for a room that is not
/// here changes none and is not answered.
pub proof fn law_for_its_room<F: StoreFactory, P: Projection>(
    was: RoomServer<F, P>,
    now: RoomServer<F, P>,
    inbound: Inbound,
    out: Seq<Outbound>,
    other: RoomId,
)
    requires
        took_in(was, now, inbound, out),
    ensures
        other != inbound.room ==> now.map().contains_key(other) == was.map().contains_key(other)
            && now.map()[other] == was.map()[other],
        now.map().contains_key(inbound.room) == was.map().contains_key(inbound.room),
        !was.map().contains_key(inbound.room) ==> now == was && out.len() == 0,
        inbound.msg is Have || inbound.msg is Want || inbound.msg is Head ==> now.map()[inbound.room]
            == was.map()[inbound.room],
{
}

/// A room announces the head of the log that is written in it, to all peers; without a head
/// it is silent.
pub proof fn law_announced<M>(v: RoomView<M>)
    ensures
        v.local.head is None <==> announced(v).len() == 0,
        v.local.head matches Some(h) ==> announced(v).len() == 1 && announced(v)[0].to
            == Fanout::Gossip && announced(v)[0].msg == (SyncMessage::Head {
            writer: v.key,
            head: h,
        }),
{
}

/// What is sent for a room is what the room sends, in its order, under the room's id.
pub proof fn law_addressed(room: RoomId, out: Seq<Outbound>, i: int)
    ensures
        addressed(room, out).len() == out.len(),
        0 <= i < out.len() ==> addressed(room, out)[i] == (room, out[i]),
{
}

/// A command changes no room but the one it names: a command to have a room takes nothing
/// away from one that is here, and says how far it has come; a command to write to a room
/// that is not here, and one to stop, change none.
pub proof fn law_obeyed<F: StoreFactory, P: Projection>(
    was: RoomServer<F, P>,
    now: RoomServer<F, P>,
    cmd: Option<Command>,
    n: Next,
    other: RoomId,
)
    requires
        obeyed(was, now, cmd, n),
    ensures
        n is Stop <==> cmd is None || cmd == Some(Command::Shutdown),
        n is Stop ==> now == was,
        match cmd {
            Some(Command::Host(room)) => {
                &&& other != room ==> now.map().contains_key(other) == was.map().contains_key(
                    other,
                ) && now.map()[other] == was.map()[other]
                &&& was.map().contains_key(room) ==> now.map() == was.map()
                &&& now.map().contains_key(room) ==> (n matches Next::Send(v) && v@ == addressed(
                    room,
                    announced(now.map()[room]@),
                ))
                &&& !was.map().contains_key(room) && now.map().contains_key(room)
                    ==> now.map()[room]@.origin is Original && votes_of(
                    now.map()[room]@.dag.voters,
                    was.voters(),
                )
            },
            Some(Command::JoinRemote(room, _)) => {
                &&& other != room ==> now.map().contains_key(other) == was.map().contains_key(
                    other,
                ) && now.map()[other] == was.map()[other]
                &&& was.map().contains_key(room) ==> now.map() == was.map()
                &&& now.map().contains_key(room) ==> (n matches Next::Send(v) && v@ == addressed(
                    room,
                    announced(now.map()[room]@),
                ))
                &&& !was.map().contains_key(room) && now.map().contains_key(room)
                    ==> now.map()[room]@.origin == (Origin::Replicated {
                    delete_on_stale_after: was.patience(),
                }) && votes_of(now.map()[room]@.dag.voters, was.voters())
            },
            Some(Command::Append(room, op)) => {
                &&& other != room ==> now.map().contains_key(other) == was.map().contains_key(
                    other,
                ) && now.map()[other] == was.map()[other]
                &&& !was.map().contains_key(room) ==> now.map() == was.map() && (
                n matches Next::Send(v) && v@.len() == 0)
            },
            _ => true,
        },
{
    if let Some(Command::Host(room)) = cmd {
        if !was.map().contains_key(room) && now.map().contains_key(room) {
            law_new_room(was, Origin::Original, now.map()[room]);
        }
    }
    if let Some(Command::JoinRemote(room, _)) = cmd {
        if !was.map().contains_key(room) && now.map().contains_key(room) {
            law_new_room(
                was,
                Origin::Replicated { delete_on_stale_after: was.patience() },
                now.map()[room],
            );
        }
    }
}

/// The logs that are taken up beside the one that is written here are those that were kept of
/// other writers, each once.
pub proof fn law_others(kept: Seq<WriterKey>, own: WriterKey, w: WriterKey)
    ensures
        others(kept, own).contains(w) <==> kept.contains(w) && w != own,
        others(kept, own).no_duplicates(),
    decreases kept.len(),
{
    if kept.len() == 0 {
        assert(!kept.contains(w));
    } else {
        let rest = kept.drop_last();
        let less = others(rest, own);
        law_others(rest, own, w);
        if kept.contains(w) && w != kept.last() {
            assert(rest[kept.index_of(w)] == w);
        }
        if rest.contains(w) {
            assert(kept[rest.index_of(w)] == w);
        }
        assert(kept[kept.len() - 1] == kept.last());
        let more = less.push(kept.last());
        if less.contains(w) {
            assert(more[less.index_of(w)] == w);
        }
        assert(more[less.len() as int] == kept.last());
        if more.contains(w) {
            let i = more.index_of(w);
            if i < less.len() {
                assert(less[i] == w);
            }
        }
    }
}

/// The writers whose logs are taken up are the one that writes here, and the others.
pub proof fn law_writers<F: StoreFactory>(factory: F, own: WriterKey, w: WriterKey)
    ensures
        writers_of(factory, own).contains(w) <==> w == own || factory.kept().contains(w),
        writers_of(factory, own)[0] == own,
{
    law_others(factory.kept(), own, w);
    let all = writers_of(factory, own);
    let rest = others(factory.kept(), own);
    assert(all[0] == own);
    if rest.contains(w) {
        assert(all[1 + rest.index_of(w)] == w);
    }
    if all.contains(w) && w != own {
        assert(rest[all.index_of(w) - 1] == w);
    }
}

/// Every kept block of a writer's log is one node, in its place, with what its bytes say; and
/// blocks are legible if each stands for an entry.
pub proof fn law_log_nodes(w: WriterKey, blocks: Seq<Seq<u8>>, i: int)
    requires
        blocks.len() <= u64::MAX,
    ensures
        log_nodes(w, blocks).len() == blocks.len(),
        0 <= i < blocks.len() ==> {
            let n = log_nodes(w, blocks)[i];
            &&& n.0.key == w
            &&& n.0.seq == i
            &&& parsed_entry(blocks[i]) matches Ok(e) ==> n.1 == e
        },
        legible(blocks) <==> forall|k: int|
            0 <= k < blocks.len() ==> parsed_entry(#[trigger] blocks[k]) is Ok,
{
}

/// The kept nodes are those of the kept blocks of every log that is taken up.
pub proof fn law_kept_nodes<F: StoreFactory>(factory: F, writers: Seq<WriterKey>, n: NodeId)
    ensures
        mentions(kept_nodes(factory, writers), n) <==> writers.contains(n.key) && n.seq
            < stored_from(factory.stored(n.key), 0).len() && n.seq <= u64::MAX,
    decreases writers.len(),
{
    if writers.len() == 0 {
        assert(!mentions(kept_nodes(factory, writers), n));
    } else {
        let less = writers.drop_last();
        let w = writers.last();
        law_kept_nodes(factory, less, n);
        let a = kept_nodes(factory, less);
        let blocks = stored_from(factory.stored(w), 0);
        let b = log_nodes(w, blocks);
        let all = kept_nodes(factory, writers);
        crate::hypercore::restore::lemma_stored_end(factory.stored(w), 0);
        if less.contains(n.key) {
            assert(writers[less.index_of(n.key)] == n.key);
        }
        if writers.contains(n.key) && n.key != w {
            assert(less[writers.index_of(n.key)] == n.key);
        }
        assert(writers[writers.len() - 1] == w);
        if mentions(all, n) {
            let j = choose|j: int| 0 <= j < all.len() && (#[trigger] all[j]).0 == n;
            if j < a.len() {
                assert(a[j].0 == n);
            } else {
                assert(all[j] == b[j - a.len()]);
            }
        }
        if mentions(a, n) {
            let j = choose|j: int| 0 <= j < a.len() && (#[trigger] a[j]).0 == n;
            assert(all[j].0 == n);
        }
        if n.key == w && n.seq < blocks.len() {
            assert(b[n.seq as int].0 == n);
            assert(all[a.len() + n.seq].0 == n);
        }
    }
}

/// A file is named by its key's bytes, two digits each, the high one first, in lower case.
pub proof fn law_hex(s: Seq<u8>, i: int, c: u8, v: int)
    ensures
        hex_of(s).len() == 2 * s.len(),
        0 <= i < s.len() ==> hex_of(s)[2 * i] == digit(s[i] as int / 16) && hex_of(s)[2 * i + 1]
            == digit(s[i] as int % 16),
        0 <= v < 10 ==> digit(v) == 0x30 + v,
        10 <= v < 16 ==> digit(v) == 0x61 + (v - 10),
        0x30 <= c <= 0x39 ==> digit_value(c) == Some((c - 0x30) as u8),
        0x61 <= c <= 0x66 ==> digit_value(c) == Some((c - 0x61 + 10) as u8),
        0x41 <= c <= 0x46 ==> digit_value(c) == Some((c - 0x41 + 10) as u8),
        c < 0x30 || 0x39 < c < 0x41 || 0x46 < c < 0x61 || 0x66 < c ==> digit_value(c) is None,
{
    if 0 <= i < s.len() {
        assert((2 * i) / 2 == i && (2 * i) % 2 == 0);
        assert((2 * i + 1) / 2 == i && (2 * i + 1) % 2 == 1);
    }
}

/// Two characters stand for a byte if the second is a digit, and the first is one or a plus
/// sign.
pub proof fn law_hex_pair(a: u8, b: u8)
    ensures
        match (digit_value(a), digit_value(b)) {
            (Some(x), Some(y)) => pair_value(a, b) == Some((16 * x + y) as u8),
            (None, Some(y)) => pair_value(a, b) == if a == 0x2b {
                Some(y)
            } else {
                None
            },
            (_, None) => pair_value(a, b) is None,
        },
{
}

/// The bytes of operations on pairs: one byte that tells which, then the key, after its
/// length where a value follows it.
pub proof fn law_op_bytes(key: Seq<u8>, value: Seq<u8>)
    ensures
        put_op(key, value) == seq![0u8] + varint::encoding(key.len()) + key + value,
        del_op(key) == seq![1u8] + key,
        key.len() < 128 ==> put_op(key, value) == seq![0u8, key.len() as u8] + key + value,
{
    law_varint(key.len());
    assert(put_op(key, value) =~= seq![0u8] + varint::encoding(key.len()) + key + value);
    if key.len() < 128 {
        assert(put_op(key, value) =~= seq![0u8, key.len() as u8] + key + value);
    }
}

/// What is no operation changes nothing and is refused: what has no bytes, or begins with
/// another byte than the two. One that removes is always taken.
pub proof fn law_kv_refuses(m: Map<Seq<u8>, Seq<u8>>, op: Seq<u8>, n: NodeId)
    ensures
        op.len() == 0 ==> kv_after(m, op) is None,
        op.len() > 0 && op[0] > 1 ==> kv_after(m, op) is None,
        op.len() > 0 && op[0] == 1 ==> kv_after(m, op) == Some(m.remove(op.skip(1))),
        KvProjection::accepts(m, n, op) <==> kv_after(m, op) is Some,
        kv_after(m, op) matches Some(x) ==> KvProjection::applied(m, n, op) == x,
        kv_after(m, op) is None ==> KvProjection::applied(m, n, op) == m,
{
}

/// A count goes up by one with every operation, whatever it is, and takes every one.
pub proof fn law_counter(m: u64, n: NodeId, op: Seq<u8>)
    ensures
        m < u64::MAX ==> CounterProjection::applied(m, n, op) == m + 1,
        CounterProjection::applied(u64::MAX, n, op) == 0,
        CounterProjection::accepts(m, n, op),
{
}

} // verus!
