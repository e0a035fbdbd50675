//! Signed logs: writing, reading, proofs, replicas.
use std::cell::RefCell;
use std::collections::BTreeMap;
use std::rc::Rc;

use hypercore_rs::codec::{Bytes, Codec, Error as CodecError};
use hypercore_rs::hypercore::{
    conflicting_heads, verify_block, ByteStreamOptions, Error, ForkProof, Hypercore, Prologue,
    ReadStreamOptions, Replica, Truncation,
};
use hypercore_rs::identity::SecretKey;
use hypercore_rs::storage::{MemoryStore, Store, TeeStore};

type Core = Hypercore<Vec<u8>, Bytes, MemoryStore>;
type Copy = Replica<Vec<u8>, Bytes, MemoryStore>;

fn key(n: u8) -> SecretKey {
    SecretKey::from_seed(&[n; 32])
}

fn core_of(blocks: &[&[u8]]) -> Core {
    let mut core = Core::new(key(1), Bytes, MemoryStore::new());
    for b in blocks {
        core.append(&b.to_vec()).unwrap();
    }
    core
}

fn copy() -> Copy {
    Copy::new(key(1).public(), Bytes, MemoryStore::new())
}

fn give(core: &Core, copy: &mut Copy, i: u64) -> bool {
    let head = core.head().unwrap().clone();
    let bytes = core.block(i).unwrap().unwrap();
    let inclusion = core.inclusion_proof(i).unwrap();
    copy.add_block(&head, i, &bytes, &inclusion).unwrap()
}

#[test]
fn what_is_appended_is_read() {
    let mut core = core_of(&[]);
    assert!(core.is_empty());
    assert!(core.head().is_none());
    assert!(core.verify_head());
    assert_eq!(core.append(&b"one".to_vec()).unwrap(), 0);
    assert_eq!(core.append(&b"".to_vec()).unwrap(), 1);
    assert_eq!(core.append(&b"three".to_vec()).unwrap(), 2);
    assert_eq!(core.len(), 3);
    assert_eq!(core.get(0).unwrap(), Some(b"one".to_vec()));
    assert_eq!(core.get(1).unwrap(), Some(b"".to_vec()));
    assert_eq!(core.get(2).unwrap(), Some(b"three".to_vec()));
    assert_eq!(core.get(3).unwrap(), None);
    let total: u64 = (0..3).map(|i| core.block(i).unwrap().unwrap().len() as u64).sum();
    assert_eq!(core.byte_length(), total);
    assert!(core.verify_head());
    assert_eq!(core.head().unwrap().length, 3);
    assert_eq!(core.public_key().to_bytes(), key(1).public().to_bytes());
}

#[test]
fn the_head_is_signed_over_fork_length_and_root() {
    let core = core_of(&[b"a", b"b"]);
    let h = core.head().unwrap();
    let mut m = vec![0xC0u8];
    m.extend_from_slice(&h.fork.to_le_bytes());
    m.extend_from_slice(&h.length.to_le_bytes());
    m.extend_from_slice(&h.root);
    assert!(core.public_key().verify(&m, &h.sig));
    assert_eq!(key(1).sign(&m).to_bytes(), h.sig.to_bytes());
}

#[test]
fn any_block_verifies_and_no_other_does() {
    let core = core_of(&[b"a", b"bb", b"ccc", b"dddd", b"e"]);
    let public = core.public_key();
    let head = core.head().unwrap().clone();
    for i in 0..5u64 {
        let bytes = core.block(i).unwrap().unwrap();
        let p = core.inclusion_proof(i).unwrap();
        assert!(verify_block(&public, &head, i, &bytes, &p));
        assert!(!verify_block(&public, &head, i, b"forged", &p));
        assert!(!verify_block(&public, &head, (i + 1) % 5, &bytes, &p));
        assert!(!verify_block(&key(2).public(), &head, i, &bytes, &p));
        let mut other = head.clone();
        other.length += 1;
        assert!(!verify_block(&public, &other, i, &bytes, &p), "the head is signed");
    }
    assert!(core.inclusion_proof(5).is_none());
}

#[test]
fn a_batch_is_its_appends() {
    let each = core_of(&[b"x", b"a", b"b", b"c"]);
    let mut core = core_of(&[b"x"]);
    let mut batch = core.batch();
    assert!(batch.is_empty());
    assert_eq!(batch.base(), 1);
    for v in [b"a", b"b", b"c"] {
        core.stage(&mut batch, &v.to_vec());
    }
    assert_eq!((batch.staged(), batch.length()), (3, 4));
    assert_eq!(core.len(), 1, "staging writes nothing");
    assert_eq!(core.batch_get(&batch, 0).unwrap(), Some(b"x".to_vec()));
    assert_eq!(core.batch_get(&batch, 2).unwrap(), Some(b"b".to_vec()));
    assert_eq!(core.batch_get(&batch, 4).unwrap(), None);
    assert_eq!(core.commit(batch).unwrap(), Some(4));
    assert_eq!(core.head().unwrap().sig.to_bytes(), each.head().unwrap().sig.to_bytes());

    let mut stale = core.batch();
    core.stage(&mut stale, &b"late".to_vec());
    core.append(&b"first".to_vec()).unwrap();
    assert_eq!(core.commit(stale).unwrap(), None, "the log moved on");
    assert_eq!(core.len(), 5);
    let empty = core.batch();
    assert_eq!(core.commit(empty).unwrap(), Some(5));
}

#[test]
fn a_truncated_log_is_the_log_of_fewer_blocks_under_the_next_fork() {
    let mut core = core_of(&[b"a", b"b", b"c"]);
    assert_eq!(core.truncate(1), Some(Truncation { from: 3, to: 1 }));
    assert_eq!(core.last_truncation(), Some(Truncation { from: 3, to: 1 }));
    assert_eq!((core.len(), core.fork()), (1, 1));
    assert_eq!(core.head().unwrap().root, core_of(&[b"a"]).head().unwrap().root);
    assert_eq!(core.head().unwrap().fork, 1);
    assert_eq!(core.get(1).unwrap(), None);
    assert!(core.verify_head());
    assert_eq!(core.truncate(1), None, "nothing to drop");
    core.append(&b"B".to_vec()).unwrap();
    assert_eq!(core.last_truncation(), None);
    assert_eq!(core.get(1).unwrap(), Some(b"B".to_vec()));
}

#[test]
fn cleared_blocks_are_absent_and_still_authenticated() {
    let mut core = core_of(&[b"a", b"b", b"c", b"d"]);
    assert_eq!(core.contiguous_length(), 4);
    let root = core.head().unwrap().root;
    assert_eq!(core.clear(1, 3).unwrap(), 2);
    assert_eq!(core.clear(1, 3).unwrap(), 0);
    assert!(core.has(0) && !core.has(1) && !core.has(2) && core.has(3) && !core.has(4));
    assert_eq!(core.contiguous_length(), 1);
    assert_eq!(core.get(1).unwrap(), None);
    assert_eq!(core.block(2).unwrap(), None);
    assert_eq!(core.get(3).unwrap(), Some(b"d".to_vec()));
    assert_eq!(core.head().unwrap().root, root);
    assert!(core.inclusion_proof(1).is_some());
}

#[test]
fn seeking_finds_the_block_of_a_byte() {
    let core = core_of(&[b"a", b"bbbb", b"cc"]);
    let mut at = 0u64;
    for i in 0..3u64 {
        let n = core.block(i).unwrap().unwrap().len() as u64;
        for o in 0..n {
            assert_eq!(core.seek(at + o), (i, o));
        }
        at += n;
    }
    assert_eq!(core.seek(at), (3, 0));
    assert_eq!(core.seek(at + 7), (3, 7));
}

#[test]
fn streams_walk_a_range() {
    let mut core = core_of(&[b"a", b"b", b"c", b"d", b"e"]);
    let walk = |core: &Core, o: ReadStreamOptions| {
        let mut s = core.read_stream(o);
        let mut out = Vec::new();
        while let Some(v) = s.next() {
            out.push(v.unwrap());
        }
        out.concat()
    };
    assert_eq!(walk(&core, ReadStreamOptions::default()), b"abcde");
    let part = ReadStreamOptions { start: 1, end: Some(4), ..Default::default() };
    assert_eq!(walk(&core, part), b"bcd");
    assert_eq!(walk(&core, ReadStreamOptions { reverse: true, ..part }), b"dcb");
    assert_eq!(walk(&core, ReadStreamOptions { start: 9, ..Default::default() }), b"");
    core.clear(2, 3).unwrap();
    assert_eq!(walk(&core, part), b"bd", "an absent block is passed over");

    let each = core.block(0).unwrap().unwrap().len() as u64;
    let bytes = |o: ByteStreamOptions| {
        let mut s = core.byte_stream(o);
        let mut n = 0;
        while let Some(b) = s.next() {
            assert_eq!(b.unwrap().len() as u64, each);
            n += 1;
        }
        n
    };
    assert_eq!(bytes(ByteStreamOptions::default()), 4);
    assert_eq!(bytes(ByteStreamOptions { byte_offset: 0, byte_length: Some(each + 1) }), 2);
    assert_eq!(bytes(ByteStreamOptions { byte_offset: 3 * each, byte_length: None }), 2);
}

#[test]
fn a_snapshot_stays_as_it_was() {
    let mut core = core_of(&[b"a", b"b", b"c"]);
    let snap = core.snapshot().unwrap();
    core.truncate(1);
    core.append(&b"other".to_vec()).unwrap();
    assert_eq!((snap.length(), snap.fork()), (3, 0));
    assert_eq!(snap.get(1).unwrap(), Some(b"b".to_vec()));
    assert_eq!(snap.get(3).unwrap(), None);
    assert_eq!(snap.root_hash(), core_of(&[b"a", b"b", b"c"]).head().unwrap().root);
    assert_eq!(snap.head().unwrap().length, 3);
    assert!(!snap.is_empty());
    let p = snap.inclusion_proof(2).unwrap();
    let head = snap.head().unwrap().clone();
    assert!(verify_block(&core.public_key(), &head, 2, snap.block(2).unwrap(), &p));
    assert_eq!(snap.signed_length(&core), 1, "the prefix they still share");
}

#[test]
fn what_is_persisted_can_be_opened() {
    let mut store = MemoryStore::new();
    let mut core = core_of(&[b"a", b"b", b"c"]);
    core.clear(1, 2).unwrap();
    core.truncate(2);
    core.set_user_data(b"name", b"value").unwrap();
    core.persist().unwrap();
    assert_eq!(core.get_user_data(b"name").unwrap(), Some(b"value".to_vec()));
    assert_eq!(core.get_user_data(b"other").unwrap(), None);
    core.set_user_data(b"name", b"new").unwrap();
    assert_eq!(core.get_user_data(b"name").unwrap(), Some(b"new".to_vec()));

    match Core::open(key(1), Bytes, MemoryStore::new()) {
        Err(Error::NotPersisted) => {}
        _ => panic!("nothing was persisted"),
    }
    store.put(u64::MAX, b"junk").unwrap();
    store.put(u64::MAX - 1, b"junk").unwrap();
    store.put(u64::MAX - 2, b"junk").unwrap();
    match Core::open(key(1), Bytes, store) {
        Err(Error::Corrupt) => {}
        _ => panic!("the metadata is junk"),
    }
}

#[test]
fn a_log_is_opened_under_its_own_key_only() {
    let file = |k: u8| {
        let kept = Kept::default();
        let tee = TeeStore::new(MemoryStore::new(), kept.clone());
        let mut core = Hypercore::<Vec<u8>, _, _>::new(key(1), Bytes, tee);
        core.append(&b"a".to_vec()).unwrap();
        core.append(&b"b".to_vec()).unwrap();
        core.persist().unwrap();
        Hypercore::<Vec<u8>, _, _>::open(key(k), Bytes, kept)
    };
    match file(1) {
        Ok(mut core) => {
            assert_eq!(core.len(), 2);
            assert_eq!(core.get(1).unwrap(), Some(b"b".to_vec()));
            assert!(core.verify_head());
            assert_eq!(core.append(&b"c".to_vec()).unwrap(), 2);
        }
        Err(_) => panic!("the log was persisted"),
    }
    match file(2) {
        Err(Error::Corrupt) => {}
        _ => panic!("another key"),
    }
}

/// A store that outlives its log.
#[derive(Clone, Default)]
struct Kept(Rc<RefCell<BTreeMap<u64, Vec<u8>>>>);

impl Store for Kept {
    type Error = ();

    fn put(&mut self, key: u64, value: &[u8]) -> Result<(), ()> {
        self.0.borrow_mut().insert(key, value.to_vec());
        Ok(())
    }

    fn get(&self, key: u64) -> Result<Option<Vec<u8>>, ()> {
        Ok(self.0.borrow().get(&key).cloned())
    }

    fn delete(&mut self, key: u64) -> Result<(), ()> {
        self.0.borrow_mut().remove(&key);
        Ok(())
    }

    fn len(&self) -> Result<u64, ()> {
        Ok(self.0.borrow().len() as u64)
    }
}

#[test]
fn a_prologue_is_taken_from_any_log_that_has_it() {
    let source = core_of(&[b"a", b"b", b"c"]);
    let prologue: Prologue = source.prologue_at(2).unwrap();
    assert_eq!(prologue.length, 2);
    assert_eq!(prologue.hash, core_of(&[b"a", b"b"]).head().unwrap().root);
    assert!(source.prologue_at(4).is_none());

    let mut core = Core::with_prologue(key(2), Bytes, MemoryStore::new(), prologue);
    assert_eq!(core.prologue(), Some(&prologue));
    assert!(!core.verify_prologue());
    let wrong = core_of(&[b"x", b"b"]);
    assert_eq!(core.copy_prologue(&wrong), Err(Error::PrologueMismatch));
    assert!(core.is_empty());
    assert_eq!(core.copy_prologue(&source), Ok(2));
    assert!(core.verify_prologue());
    assert_eq!(core.get(1).unwrap(), Some(b"b".to_vec()));
    assert!(core.verify_head(), "signed under the new key");
    core.append(&b"mine".to_vec()).unwrap();
    assert_eq!(core.truncate(1), None, "the committed prefix stays");
    assert!(core.truncate(2).is_some());
    assert_eq!(core.copy_prologue(&source), Err(Error::PrologueMismatch), "there are blocks");

    let mut plain = core_of(&[]);
    assert_eq!(plain.copy_prologue(&source), Err(Error::NoPrologue));
}

#[test]
fn a_purged_log_is_empty() {
    let mut core = core_of(&[b"a", b"b"]);
    core.persist().unwrap();
    core.purge().unwrap();
    assert!(core.is_empty());
    assert!(core.head().is_none());
    assert_eq!(core.get(0).unwrap(), None);
    assert_eq!(core.append(&b"again".to_vec()).unwrap(), 0);
}

#[test]
fn a_replica_takes_the_next_block_of_its_log_only() {
    let core = core_of(&[b"a", b"b", b"c"]);
    let mut r = copy();
    assert!(r.is_empty());
    assert!(!give(&core, &mut r, 1), "out of order");
    assert!(give(&core, &mut r, 0));
    assert!(!give(&core, &mut r, 0), "twice");
    assert!(r.verified_head().is_none());
    assert!(give(&core, &mut r, 1));
    assert!(give(&core, &mut r, 2));
    assert_eq!(r.verified_head(), core.head());
    assert_eq!(r.root_hash(), core.head().unwrap().root);
    assert_eq!(r.get(1).unwrap(), Some(b"b".to_vec()));
    assert_eq!(r.get(3).unwrap(), None);

    let mut other = Copy::new(key(2).public(), Bytes, MemoryStore::new());
    assert!(!give(&core, &mut other, 0), "another author");
}

#[test]
fn a_replica_knows_an_extension_from_a_rewrite() {
    let mut core = core_of(&[b"a", b"b"]);
    let mut r = copy();
    give(&core, &mut r, 0);
    give(&core, &mut r, 1);
    core.append(&b"c".to_vec()).unwrap();
    let up = core.upgrade_proof(2, 3).unwrap();
    assert!(r.verify_upgrade(core.head().unwrap(), &up));

    let mut forged = core_of(&[b"a", b"B", b"c"]);
    let bad = forged.upgrade_proof(2, 3).unwrap();
    assert!(!r.verify_upgrade(forged.head().unwrap(), &bad));

    forged.truncate(1);
    forged.append(&b"new".to_vec()).unwrap();
    let head = forged.head().unwrap().clone();
    let shared = forged.upgrade_proof(1, 2).unwrap();
    assert!(r.verify_reorg(&head, 1, Some(&shared)));
    assert!(!r.verify_reorg(&head, 2, Some(&shared)));
    assert!(r.reorg(&head, 1, Some(&shared)));
    assert_eq!(r.len(), 1);
    assert!(give(&forged, &mut r, 1));
    assert_eq!(r.get(1).unwrap(), Some(b"new".to_vec()));
    assert_eq!(r.verified_head(), Some(&head));
}

#[test]
fn two_histories_at_one_fork_are_evidence() {
    let a = core_of(&[b"a", b"x"]);
    let b = core_of(&[b"a", b"y", b"z"]);
    let evidence = |i: u64| ForkProof {
        index: i,
        head_a: a.head().unwrap().clone(),
        data_a: a.block(i).unwrap().unwrap(),
        proof_a: a.inclusion_proof(i).unwrap(),
        head_b: b.head().unwrap().clone(),
        data_b: b.block(i).unwrap().unwrap(),
        proof_b: b.inclusion_proof(i).unwrap(),
    };
    assert!(evidence(1).verify(&key(1).public()));
    assert!(!evidence(0).verify(&key(1).public()), "they agree there");
    assert!(!evidence(1).verify(&key(2).public()));

    let c = core_of(&[b"a", b"y"]);
    let (ha, hc) = (a.head().unwrap(), c.head().unwrap());
    assert!(conflicting_heads(&key(1).public(), ha, hc));
    assert!(!conflicting_heads(&key(1).public(), ha, ha));
    assert!(!conflicting_heads(&key(1).public(), ha, b.head().unwrap()), "other lengths");
    let mut d = core_of(&[b"a", b"y", b"z"]);
    d.truncate(2);
    assert!(!conflicting_heads(&key(1).public(), ha, d.head().unwrap()), "another fork");
}

/// Encodes any number and decodes none.
#[derive(Clone, Copy)]
struct OneWay;

impl Codec<u8> for OneWay {
    fn encode_into(&self, value: &u8, out: &mut Vec<u8>) {
        out.push(*value);
    }

    fn decode(&self, _bytes: &[u8]) -> Result<u8, CodecError> {
        Err(CodecError::Eof)
    }
}

#[test]
fn a_block_that_does_not_decode_is_an_error() {
    let mut core = Hypercore::<u8, _, _>::new(key(1), OneWay, MemoryStore::new());
    core.append(&7).unwrap();
    assert_eq!(core.block(0).unwrap(), Some(vec![7]));
    assert_eq!(core.get(0), Err(Error::Codec(CodecError::Eof)));
}

#[test]
fn a_walk_from_inside_a_block_goes_to_the_end() {
    let core = core_of(&[b"abcd", b""]);
    let from = |byte_offset: u64, byte_length: Option<u64>| {
        let mut s = core.byte_stream(ByteStreamOptions { byte_offset, byte_length });
        let mut out = Vec::new();
        while let Some(b) = s.next() {
            out.push(b.unwrap());
        }
        assert!(s.next().is_none(), "an ended walk stays so");
        out
    };
    let (first, second) = (vec![4u8, 97, 98, 99, 100], vec![0u8]);
    assert_eq!(from(4, None), vec![first.clone(), second.clone()]);
    assert_eq!(from(4, Some(1)), vec![first.clone()]);
    assert_eq!(from(4, Some(2)), vec![first.clone(), second.clone()]);
    assert_eq!(from(5, None), vec![second]);
    assert!(from(6, None).is_empty());
    assert!(from(u64::MAX, None).is_empty());
    assert!(from(0, Some(0)).is_empty());
    assert_eq!(from(1, Some(u64::MAX)).len(), 2);
}

#[test]
fn a_source_that_lacks_a_block_of_the_prologue_leaves_the_log_alone() {
    let mut source = core_of(&[b"a", b"b", b"c"]);
    let prologue = source.prologue_at(3).unwrap();
    assert_eq!(source.clear(1, 2), Ok(1));
    let mut core = Core::with_prologue(key(2), Bytes, MemoryStore::new(), prologue);
    assert_eq!(core.copy_prologue(&source), Err(Error::PrologueMismatch));
    assert_eq!(core.len(), 0);
    assert!(core.head().is_none());
    assert_eq!(core.get(0), Ok(None));
    assert_eq!(core.prologue(), Some(&prologue));
    assert_eq!(core.copy_prologue(&core_of(&[b"a", b"b", b"c", b"d"])), Ok(3));
    assert!(core.verify_prologue());
}

#[test]
fn a_verified_head_is_that_of_a_prefix() {
    let mut core = core_of(&[b"a"]);
    let mut c = copy();
    assert!(c.verified_head().is_none());
    assert!(give(&core, &mut c, 0));
    let h = c.verified_head().unwrap();
    assert_eq!((h.length, h.root), (1, c.root_hash()));
    core.append(&b"b".to_vec()).unwrap();
    core.append(&b"c".to_vec()).unwrap();
    assert!(give(&core, &mut c, 1));
    let h = c.verified_head().unwrap();
    assert_eq!((h.length, c.len()), (1, 2), "the new head is of more than there is");
    assert_eq!(h.root, core_of(&[b"a"]).head().unwrap().root);
    assert!(give(&core, &mut c, 2));
    let h = c.verified_head().unwrap();
    assert_eq!((h.length, h.root), (3, c.root_hash()));
}

#[test]
fn every_block_of_a_snapshot_verifies() {
    let mut core = core_of(&[b"a", b"b", b"c", b"d", b"e"]);
    core.clear(3, 4).unwrap();
    let snap = core.snapshot().unwrap();
    core.truncate(0);
    let head = snap.head().unwrap().clone();
    for i in [0u64, 1, 2, 4] {
        let p = snap.inclusion_proof(i).unwrap();
        let data = snap.block(i).unwrap();
        assert!(verify_block(&key(1).public(), &head, i, data, &p));
        assert!(!verify_block(&key(1).public(), &head, i, b"other", &p));
    }
    assert!(snap.block(3).is_none());
}
