//! A server of rooms.
//!
//! It hosts rooms of its own, and pulls rooms of others on demand.
use core::time::Duration;
use vstd::prelude::*;
use super::config::{Origin, RoomConfig, ServerConfig};
use super::projection::Projection;
use super::room::resume::open_outcome;
use super::room::{opened, Room, RoomError};
use super::store::StoreFactory;
use crate::autobase::ids::{
    key_less, key_lt, lemma_key_irreflexive, lemma_key_total, lemma_key_transitive,
};
use crate::autobase::WriterKey;
use crate::bytes::same_32;
use crate::identity::{ed25519_public, PublicKey, SecretKey};

verus! {

/// What names a room.
pub type RoomId = [u8; 32];

/// The rooms of a node.
pub struct RoomServer<F: StoreFactory, P: Projection> {
    identity_seed: [u8; 32],
    indexers: Vec<WriterKey>,
    replica_stale_after: Option<Duration>,
    rooms: Vec<(RoomId, Room<F, P>)>,
    projection: P,
}

/// Whether rooms are in ascending order of their ids.
pub open spec fn in_id_order<R>(s: Seq<(RoomId, R)>) -> bool {
    forall|i: int, j: int| 0 <= i < j < s.len() ==> key_lt((#[trigger] s[i]).0, (#[trigger] s[j]).0)
}

/// Whether a room is among rooms.
pub open spec fn has_room<R>(s: Seq<(RoomId, R)>, id: RoomId) -> bool {
    exists|i: int| 0 <= i < s.len() && (#[trigger] s[i]).0 == id
}

/// Where a room is among rooms.
pub open spec fn room_at<R>(s: Seq<(RoomId, R)>, id: RoomId) -> int {
    choose|i: int| 0 <= i < s.len() && (#[trigger] s[i]).0 == id
}

/// Rooms by their ids.
pub open spec fn room_map<R>(s: Seq<(RoomId, R)>) -> Map<RoomId, R> {
    Map::new(|id: RoomId| has_room(s, id), |id: RoomId| s[room_at(s, id)].1)
}

/// A room is where it is.
pub proof fn lemma_room_at<R>(s: Seq<(RoomId, R)>, i: int)
    requires
        in_id_order(s),
        0 <= i < s.len(),
    ensures
        room_map(s).contains_key(s[i].0),
        room_map(s)[s[i].0] == s[i].1,
        room_at(s, s[i].0) == i,
{
    let id = s[i].0;
    assert(has_room(s, id));
    let j = room_at(s, id);
    lemma_key_irreflexive(id);
    if i < j {
        assert(key_lt(s[i].0, s[j].0));
    } else if j < i {
        assert(key_lt(s[j].0, s[i].0));
    }
}

proof fn lemma_room_update<R>(s: Seq<(RoomId, R)>, i: int, r: R)
    requires
        in_id_order(s),
        0 <= i < s.len(),
    ensures
        in_id_order(s.update(i, (s[i].0, r))),
        room_map(s.update(i, (s[i].0, r))) == room_map(s).insert(s[i].0, r),
{
    let t = s.update(i, (s[i].0, r));
    assert forall|a: int, b: int| 0 <= a < b < t.len() implies key_lt(
        (#[trigger] t[a]).0,
        (#[trigger] t[b]).0,
    ) by {
        assert(t[a].0 == s[a].0 && t[b].0 == s[b].0);
    }
    lemma_room_at(t, i);
    lemma_room_at(s, i);
    assert forall|id: RoomId| #[trigger] room_map(t).contains_key(id) == room_map(s).insert(
        s[i].0,
        r,
    ).contains_key(id) && (room_map(t).contains_key(id) ==> room_map(t)[id] == room_map(s).insert(
        s[i].0,
        r,
    )[id]) by {
        if has_room(s, id) {
            let j = room_at(s, id);
            assert(t[j].0 == s[j].0);
            lemma_room_at(s, j);
            lemma_room_at(t, j);
        }
        if has_room(t, id) {
            let j = room_at(t, id);
            assert(t[j].0 == s[j].0);
            lemma_room_at(s, j);
            lemma_room_at(t, j);
        }
    }
    assert(room_map(t) =~= room_map(s).insert(s[i].0, r));
}

proof fn lemma_room_insert<R>(s: Seq<(RoomId, R)>, i: int, id: RoomId, r: R)
    requires
        in_id_order(s),
        0 <= i <= s.len(),
        forall|j: int| 0 <= j < i ==> key_lt((#[trigger] s[j]).0, id),
        forall|j: int| i <= j < s.len() ==> key_lt(id, (#[trigger] s[j]).0),
    ensures
        in_id_order(s.insert(i, (id, r))),
        room_map(s.insert(i, (id, r))) == room_map(s).insert(id, r),
        !has_room(s, id),
{
    let t = s.insert(i, (id, r));
    assert forall|a: int, b: int| 0 <= a < b < t.len() implies key_lt(
        (#[trigger] t[a]).0,
        (#[trigger] t[b]).0,
    ) by {
        let x = if a < i {
            a
        } else {
            a - 1
        };
        let y = if b < i {
            b
        } else {
            b - 1
        };
        if a != i {
            assert(t[a] == s[x]);
        }
        if b != i {
            assert(t[b] == s[y]);
        }
    }
    lemma_key_irreflexive(id);
    lemma_room_at(t, i);
    assert forall|k: RoomId| #[trigger] room_map(t).contains_key(k) == room_map(s).insert(
        id,
        r,
    ).contains_key(k) && (room_map(t).contains_key(k) ==> room_map(t)[k] == room_map(s).insert(
        id,
        r,
    )[k]) by {
        if has_room(s, k) {
            let j = room_at(s, k);
            let l = if j < i {
                j
            } else {
                j + 1
            };
            assert(t[l] == s[j]);
            lemma_room_at(s, j);
            lemma_room_at(t, l);
        }
        if has_room(t, k) && k != id {
            let l = room_at(t, k);
            let j = if l < i {
                l
            } else {
                l - 1
            };
            assert(s[j] == t[l]);
        }
    }
    assert(room_map(t) =~= room_map(s).insert(id, r));
}

/// Whatever a room becomes, the others stay.
proof fn lemma_any_update<R>(s: Seq<(RoomId, R)>, i: int)
    requires
        in_id_order(s),
        0 <= i < s.len(),
    ensures
        forall|e: (RoomId, R)|
            e.0 == s[i].0 ==> {
                &&& in_id_order(#[trigger] s.update(i, e))
                &&& room_map(s.update(i, e)) == room_map(s).insert(e.0, e.1)
            },
{
    assert forall|e: (RoomId, R)| e.0 == s[i].0 implies {
        &&& in_id_order(#[trigger] s.update(i, e))
        &&& room_map(s.update(i, e)) == room_map(s).insert(e.0, e.1)
    } by {
        lemma_room_update(s, i, e.1);
    }
}

/// Copy keys.
fn copy_keys(keys: &Vec<WriterKey>) -> (v: Vec<WriterKey>)
    ensures
        v@ == keys@,
{
    let mut v: Vec<WriterKey> = Vec::new();
    let mut i: usize = 0;
    while i < keys.len()
        invariant
            i <= keys@.len(),
            v@ == keys@.take(i as int),
        decreases keys@.len() - i,
    {
        v.push(keys[i]);
        assert(v@ =~= keys@.take(i + 1));
        i = i + 1;
    }
    assert(keys@.take(i as int) =~= keys@);
    v
}

impl<F: StoreFactory, P: Projection> RoomServer<F, P> {
    /// The rooms, by their ids.
    pub closed spec fn map(&self) -> Map<RoomId, Room<F, P>> {
        room_map(self.rooms@)
    }

    /// The rooms, in ascending order of their ids.
    pub closed spec fn listed(&self) -> Seq<(RoomId, Room<F, P>)> {
        self.rooms@
    }

    /// The seed of the key that writes in every room.
    pub closed spec fn seed(&self) -> [u8; 32] {
        self.identity_seed
    }

    /// The voters of every room.
    pub closed spec fn voters(&self) -> Seq<WriterKey> {
        self.indexers@
    }

    /// How long a replicated room may be without activity.
    pub closed spec fn patience(&self) -> Option<Duration> {
        self.replica_stale_after
    }

    /// What the views of a new room start from.
    pub closed spec fn template(&self) -> P::Model {
        self.projection.model()
    }

    /// Whether the rooms are in order and the template can be used.
    pub closed spec fn parts(&self) -> bool {
        in_id_order(self.rooms@) && self.projection.wf()
    }

    /// The server's invariant: every room's.
    pub open spec fn wf(&self) -> bool {
        &&& self.parts()
        &&& in_id_order(self.listed())
        &&& self.map() == room_map(self.listed())
        &&& forall|id: RoomId| #[trigger] self.map().contains_key(id) ==> self.map()[id].wf()
    }

    /// Whether everything but the rooms is the same.
    pub open spec fn same_settings(&self, other: &Self) -> bool {
        &&& self.seed() == other.seed()
        &&& self.voters() == other.voters()
        &&& self.patience() == other.patience()
        &&& self.template() == other.template()
    }

    /// A server without rooms. `projection` is what the views of every room start from.
    pub fn open(cfg: ServerConfig, projection: P) -> (s: Self)
        requires
            projection.wf(),
        ensures
            s.wf(),
            s.map() == Map::<RoomId, Room<F, P>>::empty(),
            s.seed() == cfg.identity_seed,
            s.voters() == cfg.indexers@,
            s.patience() == cfg.replica_stale_after,
            s.template() == projection.model(),
    {
        let s: RoomServer<F, P> = RoomServer {
            identity_seed: cfg.identity_seed,
            indexers: cfg.indexers,
            replica_stale_after: cfg.replica_stale_after,
            rooms: Vec::new(),
            projection,
        };
        assert(s.map() =~= Map::<RoomId, Room<F, P>>::empty());
        s
    }

    /// Where a room is, or belongs.
    fn place(&self, id: &RoomId) -> (r: (bool, usize))
        requires
            in_id_order(self.rooms@),
        ensures
            r.1 <= self.rooms@.len(),
            r.0 ==> r.1 < self.rooms@.len() && self.rooms@[r.1 as int].0 == *id,
            !r.0 ==> {
                &&& forall|j: int| 0 <= j < r.1 ==> key_lt((#[trigger] self.rooms@[j]).0, *id)
                &&& forall|j: int|
                    r.1 <= j < self.rooms@.len() ==> key_lt(*id, (#[trigger] self.rooms@[j]).0)
            },
            r.0 == has_room(self.rooms@, *id),
    {
        let mut i: usize = 0;
        while i < self.rooms.len()
            invariant
                i <= self.rooms@.len(),
                in_id_order(self.rooms@),
                forall|j: int| 0 <= j < i ==> key_lt((#[trigger] self.rooms@[j]).0, *id),
            decreases self.rooms@.len() - i,
        {
            if same_32(&self.rooms[i].0, id) {
                return (true, i);
            }
            if !key_less(&self.rooms[i].0, id) {
                proof {
                    lemma_key_total(self.rooms@[i as int].0, *id);
                    assert forall|j: int| i <= j < self.rooms@.len() implies key_lt(
                        *id,
                        (#[trigger] self.rooms@[j]).0,
                    ) by {
                        if j > i {
                            lemma_key_transitive(
                                *id,
                                self.rooms@[i as int].0,
                                self.rooms@[j].0,
                            );
                        }
                    }
                    lemma_key_irreflexive(*id);
                }
                return (false, i);
            }
            i = i + 1;
        }
        proof {
            lemma_key_irreflexive(*id);
        }
        (false, i)
    }

    /// A room, if it is here.
    pub fn get(&self, room: RoomId) -> (r: Option<&Room<F, P>>)
        requires
            self.wf(),
        ensures
            match r {
                Some(x) => self.map().contains_key(room) && *x == self.map()[room],
                None => !self.map().contains_key(room),
            },
    {
        let (found, i) = self.place(&room);
        if found {
            proof {
                lemma_room_at(self.rooms@, i as int);
            }
            Some(&self.rooms[i].1)
        } else {
            None
        }
    }

    /// A room to work with, if it is here.
    pub fn get_mut(&mut self, room: RoomId) -> (r: Option<&mut Room<F, P>>)
        requires
            old(self).wf(),
        ensures
            match r {
                Some(x) => {
                    &&& old(self).map().contains_key(room)
                    &&& *x == old(self).map()[room]
                    &&& final(self).map() == old(self).map().insert(room, *final(x))
                    &&& final(self).same_settings(old(self))
                    &&& final(x).wf() ==> final(self).wf()
                },
                None => !old(self).map().contains_key(room) && *final(self) == *old(self),
            },
    {
        let (found, i) = self.place(&room);
        if found {
            proof {
                lemma_room_at(self.rooms@, i as int);
                lemma_any_update(self.rooms@, i as int);
            }
            Some(&mut self.rooms[i].1)
        } else {
            None
        }
    }
}

/// What opening a room gives that the server asks for, with stores from `factory`.
pub open spec fn server_opens<F: StoreFactory, P: Projection>(
    s: RoomServer<F, P>,
    origin: Origin,
    public: PublicKey,
    factory: F,
    r: Result<Room<F, P>, RoomError<F, P>>,
) -> bool {
    &&& public@@ == ed25519_public(s.seed()@)
    &&& open_outcome::<F, P>(
        opened(
            s.seed(),
            s.voters(),
            origin,
            public,
            factory.stored(public@),
            s.template(),
        ),
        factory,
        r,
    )
}

/// Whether a room is one that the server has just opened.
pub open spec fn new_room<F: StoreFactory, P: Projection>(
    s: RoomServer<F, P>,
    origin: Origin,
    r: Room<F, P>,
) -> bool {
    exists|factory: F| #[trigger]
        server_opens(
            s,
            origin,
            r@.local.public,
            factory,
            Ok::<Room<F, P>, RoomError<F, P>>(r),
        )
}

/// Whether a room could not be opened.
pub open spec fn no_room<F: StoreFactory, P: Projection>(
    s: RoomServer<F, P>,
    origin: Origin,
    e: RoomError<F, P>,
) -> bool {
    exists|public: PublicKey, factory: F| #[trigger]
        server_opens(s, origin, public, factory, Err::<Room<F, P>, RoomError<F, P>>(e))
}

/// The rooms that are not flagged.
pub open spec fn kept<R>(s: Seq<(RoomId, R)>, flags: Seq<bool>) -> Seq<(RoomId, R)>
    decreases s.len(),
{
    if s.len() == 0 {
        s
    } else {
        let less = kept(s.drop_last(), flags);
        if flags[s.len() - 1] {
            less
        } else {
            less.push(s.last())
        }
    }
}

/// The ids of the rooms that are flagged.
pub open spec fn dropped<R>(s: Seq<(RoomId, R)>, flags: Seq<bool>) -> Seq<RoomId>
    decreases s.len(),
{
    if s.len() == 0 {
        Seq::empty()
    } else {
        let less = dropped(s.drop_last(), flags);
        if flags[s.len() - 1] {
            less.push(s.last().0)
        } else {
            less
        }
    }
}

/// Whether exactly the replicated rooms that were held stale are flagged.
pub open spec fn evicts<F: StoreFactory, P: Projection, T: Fn(&Room<F, P>) -> bool>(
    s: Seq<(RoomId, Room<F, P>)>,
    flags: Seq<bool>,
    is_stale: T,
) -> bool {
    &&& flags.len() == s.len()
    &&& forall|i: int|
        0 <= i < s.len() ==> if #[trigger] flags[i] {
            s[i].1@.origin is Replicated && is_stale.ensures((&s[i].1,), true)
        } else {
            s[i].1@.origin is Original || is_stale.ensures((&s[i].1,), false)
        }
}

/// What is kept is in order and was there.
proof fn lemma_kept<R>(s: Seq<(RoomId, R)>, flags: Seq<bool>)
    requires
        in_id_order(s),
    ensures
        in_id_order(kept(s, flags)),
        forall|i: int| 0 <= i < kept(s, flags).len() ==> s.contains(#[trigger] kept(s, flags)[i]),
    decreases s.len(),
{
    if s.len() > 0 {
        let t = s.drop_last();
        let e = s.last();
        assert(in_id_order(t)) by {
            assert forall|a: int, b: int| 0 <= a < b < t.len() implies key_lt(
                (#[trigger] t[a]).0,
                (#[trigger] t[b]).0,
            ) by {
                assert(t[a] == s[a] && t[b] == s[b]);
            }
        }
        lemma_kept(t, flags);
        let less = kept(t, flags);
        let k = kept(s, flags);
        assert forall|i: int| 0 <= i < k.len() implies s.contains(#[trigger] k[i]) by {
            if i < less.len() {
                assert(t.contains(less[i]));
                let j = choose|j: int| 0 <= j < t.len() && t[j] == less[i];
                assert(s[j] == k[i]);
            } else {
                assert(s[s.len() - 1] == k[i]);
            }
        }
        assert forall|a: int, b: int| 0 <= a < b < k.len() implies key_lt(
            (#[trigger] k[a]).0,
            (#[trigger] k[b]).0,
        ) by {
            if b < less.len() {
                assert(k[a] == less[a] && k[b] == less[b]);
            } else {
                assert(k[a] == less[a]);
                assert(t.contains(less[a]));
                let j = choose|j: int| 0 <= j < t.len() && t[j] == less[a];
                assert(s[j] == k[a]);
                assert(key_lt(s[j].0, s[s.len() - 1].0));
            }
        }
    }
}

/// Flags after the first ones do not matter.
proof fn lemma_kept_flags<R>(s: Seq<(RoomId, R)>, a: Seq<bool>, b: Seq<bool>)
    requires
        forall|i: int| 0 <= i < s.len() ==> a[i] == b[i],
    ensures
        kept(s, a) == kept(s, b),
        dropped(s, a) == dropped(s, b),
    decreases s.len(),
{
    if s.len() > 0 {
        lemma_kept_flags(s.drop_last(), a, b);
    }
}

impl<F: StoreFactory, P: Projection> RoomServer<F, P> {
    /// The rooms, in ascending order of their ids.
    pub fn rooms(&self) -> (v: Vec<(RoomId, &Room<F, P>)>)
        ensures
            v@.len() == self.listed().len(),
            forall|i: int|
                0 <= i < v@.len() ==> (#[trigger] v@[i]).0 == self.listed()[i].0 && *v@[i].1
                    == self.listed()[i].1,
    {
        let mut v: Vec<(RoomId, &Room<F, P>)> = Vec::new();
        let mut i: usize = 0;
        while i < self.rooms.len()
            invariant
                i <= self.rooms@.len(),
                v@.len() == i,
                forall|j: int|
                    0 <= j < i ==> (#[trigger] v@[j]).0 == self.rooms@[j].0 && *v@[j].1
                        == self.rooms@[j].1,
            decreases self.rooms@.len() - i,
        {
            v.push((self.rooms[i].0, &self.rooms[i].1));
            i = i + 1;
        }
        v
    }

    /// Drop the replicated rooms that `is_stale` holds stale. Original rooms are never
    /// dropped. Returns the ids of the rooms that were.
    pub fn evict_stale<T: Fn(&Room<F, P>) -> bool>(&mut self, is_stale: T) -> (ids: Vec<RoomId>)
        requires
            old(self).wf(),
            forall|r: &Room<F, P>| is_stale.requires((r,)),
        ensures
            final(self).wf(),
            final(self).same_settings(old(self)),
            exists|flags: Seq<bool>|
                #![trigger kept(old(self).listed(), flags)]
                evicts(old(self).listed(), flags, is_stale) && final(self).listed() == kept(
                    old(self).listed(),
                    flags,
                ) && ids@ == dropped(old(self).listed(), flags),
    {
        let ghost s = self.rooms@;
        let ghost mut flags: Seq<bool> = Seq::empty();
        let mut ids: Vec<RoomId> = Vec::new();
        let mut i: usize = 0;
        let ghost mut k: int = 0;
        proof {
            assert(s.take(0) =~= Seq::empty());
            assert(self.rooms@.skip(0) =~= s.skip(0));
        }
        while i < self.rooms.len()
            invariant
                s == old(self).rooms@,
                in_id_order(s),
                forall|r: &Room<F, P>| is_stale.requires((r,)),
                self.identity_seed == old(self).identity_seed,
                self.indexers == old(self).indexers,
                self.replica_stale_after == old(self).replica_stale_after,
                self.projection == old(self).projection,
                0 <= k <= s.len(),
                i <= self.rooms@.len(),
                flags.len() == k,
                self.rooms@.take(i as int) == kept(s.take(k), flags),
                self.rooms@.skip(i as int) == s.skip(k),
                ids@ == dropped(s.take(k), flags),
                forall|j: int|
                    0 <= j < k ==> if #[trigger] flags[j] {
                        s[j].1@.origin is Replicated && is_stale.ensures((&s[j].1,), true)
                    } else {
                        s[j].1@.origin is Original || is_stale.ensures((&s[j].1,), false)
                    },
            decreases s.len() - k,
        {
            let ghost rooms = self.rooms@;
            let ghost was = flags;
            proof {
                assert(rooms[i as int] == rooms.skip(i as int)[0]);
                assert(s.skip(k).len() == s.len() - k);
                assert(s.skip(k)[0] == s[k]);
                assert(s.take(k + 1).drop_last() =~= s.take(k));
                assert(s.skip(k).skip(1) =~= s.skip(k + 1));
            }
            let stale: bool = match self.rooms[i].1.origin() {
                Origin::Replicated { .. } => is_stale(&self.rooms[i].1),
                Origin::Original => false,
            };
            proof {
                flags = was.push(stale);
                lemma_kept_flags(s.take(k), was, flags);
            }
            if stale {
                ids.push(self.rooms[i].0);
                let gone: (RoomId, Room<F, P>) = self.rooms.remove(i);
                proof {
                    assert(self.rooms@.take(i as int) =~= rooms.take(i as int));
                    assert(self.rooms@.skip(i as int) =~= rooms.skip(i as int).skip(1));
                }
            } else {
                i = i + 1;
                proof {
                    assert(rooms.take(i as int) =~= rooms.take(i - 1).push(rooms[i - 1]));
                    assert(rooms.skip(i as int) =~= rooms.skip(i - 1).skip(1));
                }
            }
            proof {
                k = k + 1;
            }
        }
        proof {
            assert(self.rooms@.skip(i as int).len() == 0);
            assert(s.take(k) =~= s);
            assert(self.rooms@.take(i as int) =~= self.rooms@);
            lemma_kept(s, flags);
            assert(evicts(s, flags, is_stale));
            assert(self.listed() == kept(old(self).listed(), flags));
            assert forall|id: RoomId| #[trigger] self.map().contains_key(id) implies self.map()[id].wf() by {
                let j = room_at(self.rooms@, id);
                assert(s.contains(kept(s, flags)[j]));
                let p = choose|p: int| 0 <= p < s.len() && s[p] == self.rooms@[j];
                lemma_room_at(s, p);
                assert(old(self).map().contains_key(s[p].0));
            }
        }
        ids
    }
}

impl<F: StoreFactory + Default, P: Projection + Clone> RoomServer<F, P> {
    /// The key that writes in every room.
    fn mint_identity(&self) -> (k: SecretKey)
        ensures
            k@ == self.seed(),
    {
        SecretKey::from_seed(&self.identity_seed)
    }

    /// Where a room is, one that is opened now if there is none.
    fn ensure_room(&mut self, room: RoomId, origin: Origin) -> (r: Result<usize, RoomError<F, P>>)
        requires
            old(self).wf(),
        ensures
            match r {
                Ok(i) => {
                    &&& final(self).wf()
                    &&& final(self).same_settings(old(self))
                    &&& i < final(self).listed().len()
                    &&& final(self).listed()[i as int].0 == room
                    &&& if old(self).map().contains_key(room) {
                        *final(self) == *old(self)
                    } else {
                        let x = final(self).map()[room];
                        new_room(*old(self), origin, x) && final(self).map()
                            == old(self).map().insert(room, x)
                    }
                },
                Err(e) => {
                    &&& no_room(*old(self), origin, e)
                    &&& !old(self).map().contains_key(room)
                    &&& *final(self) == *old(self)
                },
            },
    {
        let (found, i) = self.place(&room);
        if found {
            return Ok(i);
        }
        let cfg: RoomConfig = RoomConfig {
            identity: self.mint_identity(),
            indexers: copy_keys(&self.indexers),
            origin,
        };
        let mut projection: P = self.projection.clone();
        projection.reset_to(self.projection.snapshot());
        let ghost key = cfg.identity;
        let factory: F = F::default();
        let ghost shops = factory;
        let ghost was = *self;
        let x: Room<F, P> = match Room::open(cfg, factory, projection) {
            Ok(x) => x,
            Err(e) => {
                assert(server_opens(
                    was,
                    origin,
                    choose|p: PublicKey| #[trigger] key.owns(p),
                    shops,
                    Err::<Room<F, P>, RoomError<F, P>>(e),
                ));
                return Err(e);
            },
        };
        assert(server_opens(
            was,
            origin,
            x@.local.public,
            shops,
            Ok::<Room<F, P>, RoomError<F, P>>(x),
        ));
        let ghost had = self.rooms@;
        self.rooms.insert(i, (room, x));
        proof {
            lemma_room_insert(had, i as int, room, x);
            lemma_room_at(self.rooms@, i as int);
        }
        Ok(i)
    }

    /// Host a room, opening it if it is not here. It is never dropped on its own.
    pub fn host(&mut self, room: RoomId) -> (r: Result<&mut Room<F, P>, RoomError<F, P>>)
        requires
            old(self).wf(),
        ensures
            match r {
                Ok(x) => {
                    &&& if old(self).map().contains_key(room) {
                        *x == old(self).map()[room]
                    } else {
                        new_room(*old(self), Origin::Original, *x)
                    }
                    &&& final(self).map() == old(self).map().insert(room, *final(x))
                    &&& final(self).same_settings(old(self))
                    &&& final(x).wf() ==> final(self).wf()
                },
                Err(e) => {
                    &&& no_room(*old(self), Origin::Original, e)
                    &&& !old(self).map().contains_key(room)
                    &&& *final(self) == *old(self)
                },
            },
    {
        match self.ensure_room(room, Origin::Original) {
            Ok(i) => {
                proof {
                    lemma_room_at(self.rooms@, i as int);
                    lemma_any_update(self.rooms@, i as int);
                    lemma_insert_twice(old(self).map(), room);
                }
                Ok(&mut self.rooms[i].1)
            },
            Err(e) => Err(e),
        }
    }

    /// Pull a room of another node, opening a replica of it if it is not here. A driver
    /// connects to the room's home; the room then asks for what it lacks. It may be
    /// dropped after some time without activity.
    pub fn join_remote(&mut self, room: RoomId) -> (r: Result<&mut Room<F, P>, RoomError<F, P>>)
        requires
            old(self).wf(),
        ensures
            match r {
                Ok(x) => {
                    &&& if old(self).map().contains_key(room) {
                        *x == old(self).map()[room]
                    } else {
                        new_room(
                            *old(self),
                            Origin::Replicated { delete_on_stale_after: old(self).patience() },
                            *x,
                        )
                    }
                    &&& final(self).map() == old(self).map().insert(room, *final(x))
                    &&& final(self).same_settings(old(self))
                    &&& final(x).wf() ==> final(self).wf()
                },
                Err(e) => {
                    &&& no_room(*old(self), Origin::Replicated { delete_on_stale_after: old(self).patience() }, e)
                    &&& !old(self).map().contains_key(room)
                    &&& *final(self) == *old(self)
                },
            },
    {
        let origin: Origin = Origin::Replicated { delete_on_stale_after: self.replica_stale_after };
        match self.ensure_room(room, origin) {
            Ok(i) => {
                proof {
                    lemma_room_at(self.rooms@, i as int);
                    lemma_any_update(self.rooms@, i as int);
                    lemma_insert_twice(old(self).map(), room);
                }
                Ok(&mut self.rooms[i].1)
            },
            Err(e) => Err(e),
        }
    }
}

/// Only the last of two insertions counts.
proof fn lemma_insert_twice<R>(m: Map<RoomId, R>, id: RoomId)
    ensures
        forall|a: R, b: R| #[trigger] m.insert(id, a).insert(id, b) == m.insert(id, b),
{
    assert forall|a: R, b: R| #[trigger] m.insert(id, a).insert(id, b) == m.insert(id, b) by {
        assert(m.insert(id, a).insert(id, b) =~= m.insert(id, b));
    }
}

} // verus!
