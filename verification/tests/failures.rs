//! What is left in order once a store has failed.
use std::cell::RefCell;
use std::collections::BTreeMap;
use std::rc::Rc;

use hypercore_rs::codec::Bytes;
use hypercore_rs::hyperbee::{Hyperbee, Range};
use hypercore_rs::hypercore::{Error, Hypercore, Replica};
use hypercore_rs::identity::SecretKey;
use hypercore_rs::roomnet::testkit::{put, KvProjection};
use hypercore_rs::roomnet::{
    Error as RoomError, Fanout, Room, RoomConfig, StoreFactory, SyncMessage, WriterKey,
};
use hypercore_rs::storage::{MemoryStore, Store};

/// What a store holds, and how many more puts and gets it lets pass.
#[derive(Default)]
struct Shelf {
    map: BTreeMap<u64, Vec<u8>>,
    puts: Option<u64>,
    deaf: bool,
}

#[derive(Clone, Default)]
struct Frail(Rc<RefCell<Shelf>>);

impl Frail {
    fn fail_after(&self, puts: u64) {
        self.0.borrow_mut().puts = Some(puts);
    }

    fn heal(&self) {
        self.0.borrow_mut().puts = None;
        self.0.borrow_mut().deaf = false;
    }

    fn keys(&self) -> Vec<u64> {
        self.0.borrow().map.keys().copied().collect()
    }
}

impl Store for Frail {
    type Error = &'static str;

    fn put(&mut self, key: u64, value: &[u8]) -> Result<(), &'static str> {
        let mut s = self.0.borrow_mut();
        if s.puts == Some(0) {
            return Err("full");
        }
        s.puts = s.puts.map(|n| n - 1);
        s.map.insert(key, value.to_vec());
        Ok(())
    }

    fn get(&self, key: u64) -> Result<Option<Vec<u8>>, &'static str> {
        if self.0.borrow().deaf {
            return Err("deaf");
        }
        Ok(self.0.borrow().map.get(&key).cloned())
    }

    fn delete(&mut self, key: u64) -> Result<(), &'static str> {
        self.0.borrow_mut().map.remove(&key);
        Ok(())
    }

    fn len(&self) -> Result<u64, &'static str> {
        Ok(self.0.borrow().map.len() as u64)
    }
}

impl StoreFactory for Frail {
    type Store = Frail;
    type OpenError = &'static str;

    fn open(&mut self, _writer: WriterKey) -> Result<Frail, &'static str> {
        Ok(self.clone())
    }

    fn known_writers(&self) -> Vec<WriterKey> {
        Vec::new()
    }
}

fn key(n: u8) -> SecretKey {
    SecretKey::from_seed(&[n; 32])
}

type Core = Hypercore<Vec<u8>, Bytes, Frail>;

#[test]
fn a_failed_commit_is_taken_back() {
    let shelf = Frail::default();
    let mut core = Core::new(key(1), Bytes, shelf.clone());
    core.append(&b"a".to_vec()).unwrap();
    let head = core.head().unwrap().clone();
    let mut batch = core.batch();
    for v in [b"b", b"c", b"d"] {
        core.stage(&mut batch, &v.to_vec());
    }
    shelf.fail_after(2);
    assert_eq!(core.commit(batch), Err(Error::Storage("full")));
    assert_eq!((core.len(), core.fork(), core.contiguous_length()), (1, 0, 1));
    assert_eq!(core.head().unwrap().root, head.root);
    assert!(core.has(0) && !core.has(1) && !core.has(2));
    assert!(core.verify_head());
    assert_eq!(shelf.keys(), vec![0], "what was written is gone again");

    let mut stale = core.batch();
    core.stage(&mut stale, &b"late".to_vec());
    shelf.heal();
    core.append(&b"b".to_vec()).unwrap();
    shelf.fail_after(0);
    assert_eq!(core.commit(stale), Ok(None), "the store is not asked");
    let empty = core.batch();
    assert_eq!(core.commit(empty), Ok(Some(2)), "nor for nothing");
}

#[test]
fn a_log_goes_on_after_its_store_failed() {
    let shelf = Frail::default();
    let mut core = Core::new(key(1), Bytes, shelf.clone());
    core.append(&b"a".to_vec()).unwrap();
    shelf.fail_after(0);
    assert_eq!(core.append(&b"b".to_vec()), Err(Error::Storage("full")));
    assert_eq!(core.persist(), Err(Error::Storage("full")));
    assert!(core.has(0) && !core.has(1) && core.verify_head());
    assert_eq!(core.get(0), Ok(Some(b"a".to_vec())));
    shelf.0.borrow_mut().deaf = true;
    assert_eq!(core.get(0), Err(Error::Storage("deaf")));
    assert_eq!(core.get(1), Ok(None), "the store is not asked");
    assert!(core.snapshot().is_err());
    shelf.heal();
    assert_eq!(core.append(&b"c".to_vec()), Ok(1));
    assert_eq!(core.get(1), Ok(Some(b"c".to_vec())));

    let none = Core::new(key(1), Bytes, shelf.clone());
    shelf.0.borrow_mut().deaf = true;
    assert_eq!(none.snapshot().unwrap().length(), 0, "there is nothing to read");
    shelf.heal();

    let spare = Frail::default();
    let mut copy: Replica<Vec<u8>, Bytes, Frail> =
        Replica::new(key(1).public(), Bytes, spare.clone());
    let give = |copy: &mut Replica<Vec<u8>, Bytes, Frail>, i: u64| {
        let head = core.head().unwrap().clone();
        let bytes = core.block(i).unwrap().unwrap();
        copy.add_block(&head, i, &bytes, &core.inclusion_proof(i).unwrap())
    };
    assert_eq!(give(&mut copy, 0), Ok(true));
    spare.fail_after(0);
    assert_eq!(give(&mut copy, 1), Err(Error::Storage("full")));
    assert_eq!(give(&mut copy, 0), Ok(false), "not the next one");
    assert_eq!((copy.len(), copy.verified_head().is_none()), (1, true));
    spare.heal();
    assert_eq!(give(&mut copy, 1), Ok(true));
    assert_eq!(copy.root_hash(), core.head().unwrap().root);
}

#[test]
fn a_room_goes_on_after_its_store_failed() {
    let shelf = Frail::default();
    let mine = key(1).public().to_bytes();
    let mut r = Room::open(
        RoomConfig::original(key(1), vec![mine]),
        shelf.clone(),
        KvProjection::new(),
    )
    .unwrap();
    r.local_append(&put(b"a", b"1")).unwrap();
    let (order, done) = (r.order(), r.finalized_len());
    shelf.fail_after(0);
    assert!(matches!(
        r.local_append(&put(b"b", b"2")),
        Err(RoomError::Hypercore(Error::Storage("full")))
    ));
    assert_eq!((r.order(), r.finalized_len()), (order, done));
    assert_eq!(r.snapshot_live().len(), 1);
    assert_eq!(r.poll_finalized().len(), done);
    assert!(r.poll_finalized().is_empty());

    shelf.0.borrow_mut().deaf = true;
    let want = |start: u64, end: u64| SyncMessage::Want { writer: mine, start, end };
    assert!(r.on_inbound([7; 32], want(0, 1)).is_err());
    assert!(r.on_inbound([7; 32], want(1, 9)).unwrap().is_empty(), "there is nothing to serve");
    assert!(r.logs(mine, 0, 1).is_err());
    assert!(r.logs(mine, 1, 9).unwrap().is_empty());
    let have = SyncMessage::Have { writer: [9; 32], length: 3 };
    assert_eq!(r.on_inbound([7; 32], have).unwrap().len(), 1);

    shelf.0.borrow_mut().puts = None;
    assert!(r.local_append(&put(b"c", b"3")).is_err(), "the block cannot be read back");
    assert_eq!(r.order().len(), 2, "but it is written");
    shelf.heal();
    let out = r.local_append(&put(b"d", b"4")).unwrap();
    assert!(matches!(out[1].to, Fanout::Clients));
    assert_eq!(r.order().len(), 3);
    assert_eq!(r.logs(mine, 0, 9).unwrap().len(), 3);
    assert_eq!(r.on_inbound([7; 32], want(0, 9)).unwrap().len(), 3);
}

#[test]
fn an_empty_tree_does_not_ask_its_store() {
    let shelf = Frail::default();
    let mut b = Hyperbee::new(key(1), shelf.clone());
    shelf.0.borrow_mut().deaf = true;
    assert_eq!(b.get(b"k").unwrap(), None);
    assert_eq!(b.get_at(5, b"k").unwrap(), None);
    assert!(!b.del(b"k").unwrap());
    assert!(b.range(&Range::default()).unwrap().is_empty());
    assert_eq!(b.checkout(0).get(b"k").unwrap(), None);
    shelf.heal();
    b.put(b"k", b"v").unwrap();
    shelf.0.borrow_mut().deaf = true;
    assert!(b.get(b"k").is_err());
    assert_eq!(b.get_at(0, b"k").unwrap(), None, "nothing is read of the first version");
}

#[test]
fn a_failed_put_leaves_the_past_of_a_tree_alone() {
    let shelf = Frail::default();
    let mut b = Hyperbee::new(key(1), shelf.clone());
    for i in 0..40u8 {
        b.put(&[i], &[i]).unwrap();
    }
    let then = b.version();
    let held = b.range(&Range::default()).unwrap();
    shelf.fail_after(1);
    assert!(b.put(&[40], &[40]).is_err());
    assert!(b.version() >= then);
    assert_eq!(b.range_at(then, &Range::default()).unwrap(), held);
    assert_eq!(b.get_at(then, &[7]).unwrap(), Some(vec![7]));
    assert_eq!(b.checkout(then).get(&[40]).unwrap(), None);
}

#[test]
fn a_prologue_is_not_half_copied_unnoticed() {
    let mut source = Core::new(key(1), Bytes, Frail::default());
    for v in [b"a", b"b", b"c"] {
        source.append(&v.to_vec()).unwrap();
    }
    let prologue = source.prologue_at(3).unwrap();
    let shelf = Frail::default();
    let mut core = Core::with_prologue(key(2), Bytes, shelf.clone(), prologue);
    shelf.fail_after(2);
    assert_eq!(core.copy_prologue(&source), Err(Error::Storage("full")));
    assert!(core.head().is_none() && !core.verify_prologue());
    let kept: Hypercore<Vec<u8>, Bytes, MemoryStore> =
        Hypercore::new(key(3), Bytes, MemoryStore::new());
    assert_eq!(kept.prologue_at(1), None);
}
