//! Rooms that are opened again on what their stores have kept.
use std::cell::RefCell;
use std::collections::{BTreeMap, VecDeque};
use std::convert::Infallible;
use std::rc::Rc;

use hypercore_rs::codec::Bytes;
use hypercore_rs::hypercore::{Error as LogError, Hypercore, Replica};
use hypercore_rs::identity::SecretKey;
use hypercore_rs::roomnet::store::hex;
use hypercore_rs::roomnet::testkit::{put, KvProjection};
use hypercore_rs::roomnet::{
    CachedFactory, Error, Fanout, MemStoreFactory, Outbound, PeerId, Projection, Room, RoomConfig,
    StoreFactory, SyncMessage, WriterKey,
};
use hypercore_rs::storage::{LogStore, MemoryStore, Store, SyncFile};

type Bytes1 = Rc<RefCell<Vec<u8>>>;

/// A file that outlives those who have it open.
struct Shared(Bytes1);

impl SyncFile for Shared {
    type Error = Infallible;

    fn size(&self) -> Result<u64, Infallible> {
        Ok(self.0.borrow().len() as u64)
    }

    fn read_at(&self, offset: u64, buf: &mut [u8]) -> Result<(), Infallible> {
        let at = offset as usize;
        buf.copy_from_slice(&self.0.borrow()[at..at + buf.len()]);
        Ok(())
    }

    fn write_at(&mut self, offset: u64, buf: &[u8]) -> Result<(), Infallible> {
        let mut data = self.0.borrow_mut();
        let end = offset as usize + buf.len();
        if data.len() < end {
            data.resize(end, 0);
        }
        data[offset as usize..end].copy_from_slice(buf);
        Ok(())
    }

    fn truncate(&mut self, size: u64) -> Result<(), Infallible> {
        self.0.borrow_mut().truncate(size as usize);
        Ok(())
    }

    fn flush(&mut self) -> Result<(), Infallible> {
        Ok(())
    }
}

/// A directory that outlives the factories over it: a file for each writer.
#[derive(Clone, Default)]
struct Directory(Rc<RefCell<BTreeMap<WriterKey, Bytes1>>>);

impl StoreFactory for Directory {
    type Store = LogStore<Shared>;
    type OpenError = Infallible;

    fn open(&mut self, writer: WriterKey) -> Result<Self::Store, Infallible> {
        let file = self.0.borrow_mut().entry(writer).or_default().clone();
        LogStore::open(Shared(file))
    }

    fn known_writers(&self) -> Vec<WriterKey> {
        self.0.borrow().keys().copied().collect()
    }
}

enum Tgt {
    All,
    One(PeerId),
}

fn push(q: &mut VecDeque<(Tgt, PeerId, SyncMessage)>, from: PeerId, o: Outbound) {
    match o.to {
        Fanout::Gossip => q.push_back((Tgt::All, from, o.msg)),
        Fanout::Peer(p) => q.push_back((Tgt::One(p), from, o.msg)),
        Fanout::Clients => {}
    }
}

/// Announce every room's head, then deliver until nothing is left to send.
fn converge<F, P>(rooms: &mut [(PeerId, &mut Room<F, P>)])
where
    F: StoreFactory,
    P: Projection + Clone,
{
    let mut q: VecDeque<(Tgt, PeerId, SyncMessage)> = VecDeque::new();
    for (id, r) in rooms.iter() {
        for o in r.announce() {
            push(&mut q, *id, o);
        }
    }
    while let Some((tgt, from, msg)) = q.pop_front() {
        for i in 0..rooms.len() {
            let deliver = match tgt {
                Tgt::All => rooms[i].0 != from,
                Tgt::One(p) => rooms[i].0 == p,
            };
            if deliver {
                let id = rooms[i].0;
                match rooms[i].1.on_inbound(from, msg.clone()) {
                    Ok(outs) => {
                        for o in outs {
                            push(&mut q, id, o);
                        }
                    }
                    Err(_) => panic!("a message was refused"),
                }
            }
        }
    }
}

fn key(n: u8) -> SecretKey {
    SecretKey::from_seed(&[n; 32])
}

fn opened<F: StoreFactory>(n: u8, idx: &[WriterKey], f: F) -> Room<F, KvProjection> {
    match Room::open(RoomConfig::original(key(n), idx.to_vec()), f, KvProjection::new()) {
        Ok(r) => r,
        Err(_) => panic!("the room was not opened"),
    }
}

#[test]
fn two_writers_resume_from_disk_without_peers() {
    let ak = key(1).public().to_bytes();
    let bk = key(2).public().to_bytes();
    let idx = vec![ak, bk];
    let dir_a = Directory::default();
    let dir_b = Directory::default();

    let (order, finalized, live, finalized_len) = {
        let mut ra = opened(1, &idx, dir_a.clone());
        let mut rb = opened(2, &idx, dir_b.clone());

        for round in 0..6u8 {
            ra.local_append(&put(b"a", &[round])).unwrap();
            converge(&mut [(ak, &mut ra), (bk, &mut rb)]);
            rb.local_append(&put(b"b", &[round])).unwrap();
            converge(&mut [(ak, &mut ra), (bk, &mut rb)]);
        }

        assert!(ra.finalized_len() > 0, "finality advanced before restart");
        (
            ra.order(),
            ra.snapshot_finalized().clone(),
            ra.snapshot_live().clone(),
            ra.finalized_len(),
        )
    };

    let mut ra2 = opened(1, &idx, dir_a.clone());
    assert_eq!(ra2.order(), order, "order recovered from disk");
    assert_eq!(ra2.snapshot_finalized(), &finalized, "finalized state recovered from disk");
    assert_eq!(ra2.snapshot_live(), &live, "live state recovered from disk");
    assert_eq!(ra2.finalized_len(), finalized_len, "finalized depth recovered");
    assert!(ra2.poll_finalized().is_empty(), "resume must not re-emit finalized deltas");
    assert_eq!(ra2.last_activity(), 0);
    assert_eq!(ra2.logs(bk, 0, 100).unwrap().len(), 6, "the other log is here too");
}

#[test]
fn a_resumed_room_goes_on() {
    let ak = key(1).public().to_bytes();
    let bk = key(2).public().to_bytes();
    let idx = vec![ak, bk];
    let dir_a = Directory::default();

    let mut rb = opened(2, &idx, MemStoreFactory);
    {
        let mut ra = opened(1, &idx, MemStoreFactory);
        rb.local_append(&put(b"b", b"0")).unwrap();
        ra.local_append(&put(b"lost", b"0")).unwrap();
    }
    let head = {
        let mut ra = opened(1, &idx, dir_a.clone());
        ra.local_append(&put(b"a", b"1")).unwrap();
        ra.announce()
    };
    let mut ra = opened(1, &idx, dir_a.clone());
    let again = ra.announce();
    assert_eq!(head.len(), 1);
    match (&head[0].msg, &again[0].msg) {
        (SyncMessage::Head { head: x, .. }, SyncMessage::Head { head: y, .. }) => {
            assert_eq!((x.fork, x.length, x.root), (y.fork, y.length, y.root));
            assert_eq!(x.sig.to_bytes(), y.sig.to_bytes(), "the very same head");
        }
        _ => panic!("a head was expected"),
    }
    ra.local_append(&put(b"a", b"2")).unwrap();
    assert_eq!(ra.logs(ak, 0, 9).unwrap().len(), 2);
    assert_eq!(ra.snapshot_live().get(b"a".as_slice()).map(Vec::as_slice), Some(b"2".as_slice()));
    assert!(ra.order().len() == 2);
    rb.local_append(&put(b"b", b"1")).unwrap();
    assert_eq!(rb.order().len(), 2);
}

/// Hand every block of `from`'s own log to `to`.
fn hand_over<A: StoreFactory, B: StoreFactory>(
    from: &mut Room<A, KvProjection>,
    to: &mut Room<B, KvProjection>,
) {
    let (fk, tk) = (from.local_key(), to.local_key());
    let want = SyncMessage::Want { writer: fk, start: 0, end: u64::MAX };
    let blocks = match from.on_inbound(tk, want) {
        Ok(b) => b,
        Err(_) => panic!("its own log is served"),
    };
    for o in blocks {
        if to.on_inbound(fk, o.msg).is_err() {
            panic!("the block was refused");
        }
    }
}

#[test]
fn what_waited_waits_again() {
    let idx: Vec<WriterKey> = (1..4u8).map(|n| key(n).public().to_bytes()).collect();
    let dir = Directory::default();
    let mut ra = opened(1, &idx, MemStoreFactory);
    let mut rb = opened(2, &idx, MemStoreFactory);
    ra.local_append(&put(b"a", b"1")).unwrap();
    hand_over(&mut ra, &mut rb);
    rb.local_append(&put(b"b", b"1")).unwrap();

    {
        let mut rc = opened(3, &idx, dir.clone());
        rc.local_append(&put(b"c", b"1")).unwrap();
        hand_over(&mut rb, &mut rc);
        assert_eq!(rc.order().len(), 1, "the block waits for what it builds on");
    }
    let mut rc = opened(3, &idx, dir.clone());
    assert_eq!(rc.order().len(), 1, "and waits again");
    assert_eq!(rc.logs(idx[1], 0, 9).unwrap().len(), 1, "it is here all the same");
    hand_over(&mut ra, &mut rc);
    assert_eq!(rc.order().len(), 3);
    assert_eq!(rc.snapshot_live().get(b"b".as_slice()).map(Vec::as_slice), Some(b"1".as_slice()));
}

#[test]
fn single_writer_resumes_from_disk() {
    let ak = key(3).public().to_bytes();
    let dir = Directory::default();

    let (finalized, finalized_len) = {
        let mut r = opened(3, &[ak], dir.clone());
        for i in 0..8u8 {
            r.local_append(&put(b"k", &[i])).unwrap();
        }
        assert!(r.finalized_len() > 0, "a self-indexer finalizes a prefix");
        (r.snapshot_finalized().clone(), r.finalized_len())
    };

    let mut r2 = opened(3, &[ak], dir.clone());
    assert_eq!(r2.snapshot_finalized(), &finalized, "local writer state recovered from disk");
    assert_eq!(r2.finalized_len(), finalized_len);
    assert!(r2.poll_finalized().is_empty());
}

#[test]
fn room_recovers_from_the_disk_cache_when_the_implementor_store_is_lost() {
    let ak = key(9).public().to_bytes();
    let cache_dir = Directory::default();

    let (finalized, finalized_len) = {
        let f = CachedFactory::new(MemStoreFactory, cache_dir.clone());
        let mut room = opened(9, &[ak], f);
        for i in 0..8u8 {
            room.local_append(&put(b"k", &[i])).unwrap();
        }
        assert!(room.finalized_len() > 0);
        (room.snapshot_finalized().clone(), room.finalized_len())
    };

    let f2 = CachedFactory::new(MemStoreFactory, cache_dir.clone());
    let r2 = opened(9, &[ak], f2);
    assert_eq!(
        r2.snapshot_finalized(),
        &finalized,
        "recovered from the local disk cache even though the implementor store was empty"
    );
    assert_eq!(r2.finalized_len(), finalized_len);
}

#[test]
fn nothing_kept_opens_an_empty_room() {
    let ak = key(4).public().to_bytes();
    let r = opened(4, &[ak], MemStoreFactory);
    assert_eq!(r.local_key(), ak);
    assert!(r.order().is_empty());
    assert_eq!(r.finalized_len(), 0);
    assert!(r.snapshot_live().is_empty());
    assert!(r.announce().is_empty());
    let both = CachedFactory::new(Directory::default(), Directory::default());
    assert!(both.known_writers().is_empty());
}

#[test]
fn a_cached_factory_names_the_writers_of_both() {
    let (x, y) = (Directory::default(), Directory::default());
    x.clone().open([1; 32]).unwrap().put(0, b"x").unwrap();
    y.clone().open([1; 32]).unwrap().put(0, b"y").unwrap();
    y.clone().open([2; 32]).unwrap().put(0, b"z").unwrap();
    let mut both = CachedFactory::new(x, y);
    assert_eq!(both.known_writers(), vec![[1; 32], [1; 32], [2; 32]]);
    assert_eq!(both.open([1; 32]).unwrap().get(0).unwrap(), Some(b"x".to_vec()), "the first wins");
    assert_eq!(both.open([2; 32]).unwrap().get(0).unwrap(), Some(b"z".to_vec()));
}

#[test]
fn what_cannot_be_taken_up_is_refused() {
    let ak = key(5).public().to_bytes();
    let open = |d: &Directory| {
        Room::open(RoomConfig::original(key(5), vec![ak]), d.clone(), KvProjection::new())
    };

    let d = Directory::default();
    let mut no_key = [0u8; 32];
    no_key[0] = 2;
    d.clone().open(no_key).unwrap();
    match open(&d) {
        Err(Error::BadWriterKey) => {}
        _ => panic!("{} is no key", String::from_utf8(hex(&no_key)).unwrap()),
    }

    let d = Directory::default();
    d.clone().open(ak).unwrap().put(0, &[0xff]).unwrap();
    match open(&d) {
        Err(Error::Hypercore(LogError::Codec(_))) => {}
        _ => panic!("a block that is no entry"),
    }

    let idx = vec![ak];
    let d = Directory::default();
    let bk = key(6).public().to_bytes();
    {
        let mut ra = opened(5, &idx, d.clone());
        let mut rb = opened(6, &idx, MemStoreFactory);
        rb.local_append(&put(b"b", b"0")).unwrap();
        let wants = ra.on_inbound(bk, rb.announce().remove(0).msg).unwrap();
        assert_eq!(wants.len(), 1);
        for o in rb.on_inbound(ak, wants[0].msg.clone()).unwrap() {
            ra.on_inbound(bk, o.msg).unwrap();
        }
        ra.local_append(&put(b"a", b"0")).unwrap();
        assert_eq!(ra.order().len(), 2);
    }
    d.0.borrow_mut().remove(&bk);
    match open(&d) {
        Err(Error::Hypercore(LogError::Corrupt)) => {}
        _ => panic!("the node written here lacks what it builds on"),
    }

    let d = Directory::default();
    {
        let mut r = opened(5, &idx, d.clone());
        for i in 0..8u8 {
            r.local_append(&put(b"k", &[i])).unwrap();
        }
    }
    match Room::open(RoomConfig::original(key(5), idx.clone()), d.clone(), Picky) {
        Err(Error::Projection(())) => {}
        _ => panic!("the projection refuses what is final"),
    }
}

/// Refuses everything.
#[derive(Clone)]
struct Picky;

impl Projection for Picky {
    type State = ();
    type Error = ();
    type Model = ();

    fn apply(&mut self, _node: hypercore_rs::roomnet::NodeId, _payload: &[u8]) -> Result<(), ()> {
        Err(())
    }

    fn snapshot(&self) -> &() {
        &()
    }

    fn reset_to(&mut self, _state: &()) {}
}

#[test]
fn a_log_is_taken_up_as_it_was() {
    let mut core = Hypercore::<Vec<u8>, _, _>::new(key(7), Bytes, MemoryStore::new());
    let file: Bytes1 = Rc::default();
    let mut kept = LogStore::open(Shared(file.clone())).unwrap();
    for (i, v) in [b"one".to_vec(), b"".to_vec(), b"three".to_vec()].iter().enumerate() {
        core.append(v).unwrap();
        kept.put(i as u64, &core.block(i as u64).unwrap().unwrap()).unwrap();
    }
    kept.put(4, b"after a gap").unwrap();

    let store = LogStore::open(Shared(file.clone())).unwrap();
    let mut again = Hypercore::<Vec<u8>, _, _>::new(key(7), Bytes, store);
    assert_eq!(again.len(), 0);
    again.restore().unwrap();
    assert_eq!(again.len(), 3, "up to the gap");
    assert_eq!(again.get(2).unwrap(), Some(b"three".to_vec()));
    assert_eq!(again.head().unwrap().sig.to_bytes(), core.head().unwrap().sig.to_bytes());
    assert_eq!(again.contiguous_length(), 3);
    assert!(again.verify_head());

    let store = LogStore::open(Shared(file)).unwrap();
    let mut replica = Replica::<Vec<u8>, _, _>::new(key(7).public(), Bytes, store);
    replica.restore().unwrap();
    assert_eq!(replica.len(), 3);
    assert_eq!(replica.root_hash(), core.head().unwrap().root);
    assert!(replica.verified_head().is_none(), "the head has to come again");
    assert_eq!(replica.get(0).unwrap(), Some(b"one".to_vec()));
}
