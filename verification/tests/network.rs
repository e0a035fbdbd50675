//! Messages on the wire, frames, peers, and what a room answers.
use std::convert::Infallible;

use hypercore_rs::codec::{Codec, Error as CodecError};
use hypercore_rs::hypercore::SignedHead;
use hypercore_rs::identity::{SecretKey, Sig};
use hypercore_rs::merkle::{Node, Proof};
use hypercore_rs::roomnet::driver::{frame, obey, settle, take_in, unframe, Next, Peers};
use hypercore_rs::roomnet::store::{hex, unhex};
use hypercore_rs::roomnet::testkit::{del, put, CounterProjection, KvProjection};
use hypercore_rs::roomnet::wire::{decode, encode, WireError};
use hypercore_rs::roomnet::{
    Command, DriverOpts, Entry, EntryCodec, Error, Fanout, Inbound, IrohConfig, MemStoreFactory, NodeId,
    Projection, Room, RoomConfig, RoomServer, ServerConfig, SyncMessage,
};

fn key(n: u8) -> SecretKey {
    SecretKey::from_seed(&[n; 32])
}

fn room(n: u8) -> Room<MemStoreFactory, KvProjection> {
    let mine = key(n).public().to_bytes();
    Room::open(RoomConfig::original(key(n), vec![mine]), MemStoreFactory, KvProjection::new())
        .unwrap()
}

fn head() -> SignedHead {
    SignedHead { fork: 1, length: 300, root: [3; 32], sig: Sig::from_bytes(&[4; 64]) }
}

#[test]
fn messages_have_these_bytes() {
    let have = SyncMessage::Have { writer: [9; 32], length: 300 };
    let mut expect = vec![1u8];
    expect.extend_from_slice(&[9; 32]);
    expect.extend_from_slice(&[0xac, 0x02]);
    assert_eq!(encode(&have), expect);

    let want = SyncMessage::Want { writer: [9; 32], start: 0, end: 127 };
    let mut expect = vec![2u8];
    expect.extend_from_slice(&[9; 32]);
    expect.extend_from_slice(&[0, 127]);
    assert_eq!(encode(&want), expect);

    let said = SyncMessage::Head { writer: [9; 32], head: head() };
    let mut expect = vec![0u8];
    expect.extend_from_slice(&[9; 32]);
    expect.extend_from_slice(&[1, 0xac, 0x02]);
    expect.extend_from_slice(&[3; 32]);
    expect.extend_from_slice(&[4; 64]);
    assert_eq!(encode(&said), expect);
}

#[test]
fn what_is_encoded_is_decoded() {
    let node = |i: u64| Node { index: i, hash: [i as u8; 32], size: 10 * i };
    let messages = vec![
        SyncMessage::Head { writer: [1; 32], head: head() },
        SyncMessage::Have { writer: [2; 32], length: u64::MAX },
        SyncMessage::Want { writer: [3; 32], start: 5, end: 1 << 40 },
        SyncMessage::Block {
            writer: [4; 32],
            head: head(),
            index: 7,
            bytes: b"payload".to_vec(),
            proof: Proof { block: 7, leaf_size: 9, siblings: vec![node(1), node(9)], roots: vec![node(3)] },
        },
        SyncMessage::Block {
            writer: [4; 32],
            head: head(),
            index: 0,
            bytes: vec![],
            proof: Proof { block: 0, leaf_size: 0, siblings: vec![], roots: vec![] },
        },
    ];
    for m in messages {
        let bytes = encode(&m);
        assert_eq!(encode(&decode(&bytes).unwrap()), bytes);
        let mut longer = bytes.clone();
        longer.extend_from_slice(b"more");
        assert_eq!(encode(&decode(&longer).unwrap()), bytes, "what follows is left alone");
        for n in 0..bytes.len() {
            assert!(decode(&bytes[..n]).is_err(), "cut at {}", n);
        }
        let (r, again) = unframe(&frame(&[8; 32], &m)).unwrap();
        assert_eq!((r, encode(&again)), ([8; 32], bytes));
    }
}

#[test]
fn what_is_no_message_is_refused() {
    assert!(matches!(decode(&[]), Err(WireError::Varint)));
    assert!(matches!(decode(&[1, 2, 3]), Err(WireError::Eof)));
    assert!(matches!(decode(&[4]), Err(WireError::Eof)), "a writer comes first");
    assert!(matches!(decode(&[4; 33]), Err(WireError::BadTag(4))));
    let mut far = vec![0xac, 0x02];
    far.extend_from_slice(&[0; 32]);
    assert!(matches!(decode(&far), Err(WireError::BadTag(300))));
    assert!(matches!(decode(&[0xff; 11]), Err(WireError::Varint)));
    assert!(unframe(&[0; 31]).is_none());
    assert!(unframe(&[0; 32]).is_none());
    assert!(unframe(&[4; 65]).is_none());
}

#[test]
fn entries_have_these_bytes() {
    let e = Entry::new(vec![NodeId::new([7; 32], 3)], b"op".to_vec());
    let mut expect = vec![1u8, 1];
    expect.extend_from_slice(&[7; 32]);
    expect.extend_from_slice(&[3, 2, b'o', b'p']);
    assert_eq!(EntryCodec.encode(&e), expect);
    assert_eq!(EntryCodec.decode(&expect[..20]), Err(CodecError::Eof));
    assert_eq!(EntryCodec.decode(&[]), Err(CodecError::Eof));
    assert_eq!(EntryCodec.decode(&[0xff; 11]), Err(CodecError::BadVarint));
}

#[test]
fn file_names_are_hex() {
    let mut k = [0u8; 32];
    k[0] = 0xab;
    k[31] = 0x0f;
    let name = hex(&k);
    assert_eq!(name.len(), 64);
    assert_eq!(&name[..4], b"ab00");
    assert_eq!(&name[60..], b"000f");
    assert_eq!(unhex(&name), Some(k));
    assert_eq!(unhex(&name[..63]), None);
    let mut wrong = name.clone();
    wrong[5] = b'g';
    assert_eq!(unhex(&wrong), None);
}

#[test]
fn gossip_goes_to_all_peers_and_mail_to_one() {
    let mut p = Peers::new(&[[2; 32], [1; 32], [2; 32]]);
    p.add_peer([3; 32]);
    p.add_peer([1; 32]);
    let mut all = p.peers();
    all.sort();
    assert_eq!(all, vec![[1; 32], [2; 32], [3; 32]]);
    assert_eq!(p.targets(&Fanout::Gossip), p.peers());
    assert_eq!(p.targets(&Fanout::Peer([9; 32])), vec![[9; 32]]);
    assert!(p.targets(&Fanout::Clients).is_empty());
}

#[test]
fn a_driver_has_these_defaults() {
    let c = IrohConfig::default();
    assert_eq!(c.alpn, b"roomnet/sync/0".to_vec());
    assert_eq!(c.max_message_bytes, 16 * 1024 * 1024);
    assert_eq!((c.seed, c.bind_port, c.bootstrap.len()), ([0; 32], None, 0));
    let o = DriverOpts::default();
    assert_eq!((o.poll_interval, o.announce_every_ticks), (std::time::Duration::from_millis(50), 40));
    assert!(o.announces(0) && !o.announces(39) && o.announces(80));
}

#[test]
fn a_room_asks_for_what_it_lacks_and_serves_its_own() {
    let (mut a, mut b) = (room(1), room(2));
    let (ak, bk) = (a.local_key(), b.local_key());
    for i in 0..3u8 {
        a.local_append(&put(b"k", &[i])).unwrap();
    }
    let out = b.on_inbound(ak, a.announce().remove(0).msg).unwrap();
    assert_eq!(out.len(), 1);
    match (&out[0].msg, &out[0].to) {
        (SyncMessage::Want { writer, start, end }, Fanout::Peer(p)) => {
            assert_eq!((*writer, *start, *end, *p), (ak, 0, 3, ak));
        }
        _ => panic!("a request was expected"),
    }
    let have = SyncMessage::Have { writer: ak, length: 2 };
    assert_eq!(b.on_inbound(ak, have.clone()).unwrap().len(), 1);
    assert!(a.on_inbound(bk, have).unwrap().is_empty(), "its own log");

    let blocks = a
        .on_inbound(bk, SyncMessage::Want { writer: ak, start: 1, end: 99 })
        .unwrap();
    assert_eq!(blocks.len(), 2);
    assert!(b.on_inbound(ak, blocks[0].msg.clone()).unwrap().is_empty(), "not the next one");
    let other = SyncMessage::Want { writer: bk, start: 0, end: 9 };
    assert!(a.on_inbound(bk, other).unwrap().is_empty(), "no proofs for other logs");

    let all = a.on_inbound(bk, SyncMessage::Want { writer: ak, start: 0, end: 3 }).unwrap();
    for o in all {
        let passed = b.on_inbound(ak, o.msg).unwrap();
        assert_eq!(passed.len(), 1);
        assert!(matches!(passed[0].to, Fanout::Clients));
    }
    assert_eq!(b.order(), a.order());
    assert_eq!(b.logs(ak, 1, 2).unwrap().len(), 1);
    assert_eq!(b.logs(ak, 1, 2).unwrap()[0].payload, put(b"k", &[1]));
    assert!(b.logs([0; 32], 0, 9).unwrap().is_empty());
    assert_eq!(b.last_activity(), 3);
    b.local_append(&put(b"k", b"mine")).unwrap();
    assert_eq!(b.logs(bk, 0, 1).unwrap()[0].heads, vec![NodeId::new(ak, 2)], "the latest it saw");
    assert_eq!(b.order().last(), Some(&NodeId::new(bk, 0)));
    assert!(b.on_inbound(ak, SyncMessage::Have { writer: ak, length: 3 }).unwrap().is_empty());
}

#[test]
fn a_block_of_no_writer_is_an_error() {
    let mut b = room(2);
    let mut no_key = [0u8; 32];
    no_key[0] = 2;
    let block = SyncMessage::Block {
        writer: no_key,
        head: head(),
        index: 0,
        bytes: vec![],
        proof: Proof { block: 0, leaf_size: 0, siblings: vec![], roots: vec![] },
    };
    assert!(matches!(b.on_inbound([0; 32], block), Err(Error::BadWriterKey)));
}

#[test]
fn a_block_that_is_no_entry_is_an_error() {
    let mut core = hypercore_rs::hypercore::Hypercore::<Vec<u8>, _, _>::new(
        key(3),
        hypercore_rs::codec::Bytes,
        hypercore_rs::storage::MemoryStore::new(),
    );
    core.append(&vec![0xff]).unwrap();
    let block = SyncMessage::Block {
        writer: key(3).public().to_bytes(),
        head: core.head().unwrap().clone(),
        index: 0,
        bytes: core.block(0).unwrap().unwrap(),
        proof: core.inclusion_proof(0).unwrap(),
    };
    let mut b = room(2);
    assert!(matches!(b.on_inbound([0; 32], block), Err(Error::Codec(_))));
}

#[test]
fn an_operation_that_is_refused_is_an_error_once_it_is_final() {
    let mut a = room(1);
    let mut refused = false;
    for _ in 0..8 {
        match a.local_append(b"") {
            Ok(_) => {}
            Err(Error::Projection(_)) => refused = true,
            Err(_) => panic!("nothing else fails"),
        }
    }
    assert!(refused);
    assert_eq!(a.finalized_len(), 0);
    assert_eq!(a.order().len(), 8, "they stand in the log all the same");
}

#[test]
fn a_server_takes_in_for_the_rooms_it_has() {
    let mine = key(1).public().to_bytes();
    let cfg = ServerConfig { identity_seed: [1; 32], indexers: vec![mine], replica_stale_after: None };
    let mut s: RoomServer<MemStoreFactory, KvProjection> = RoomServer::open(cfg, KvProjection::new());
    s.host([5; 32]).unwrap().local_append(&put(b"k", b"v")).unwrap();
    assert_eq!(s.rooms().len(), 1);
    assert_eq!(s.rooms()[0].0, [5; 32]);
    let want = |room: [u8; 32]| Inbound {
        room,
        from: [7; 32],
        msg: SyncMessage::Want { writer: mine, start: 0, end: 1 },
    };
    assert_eq!(take_in(&mut s, want([5; 32])).len(), 1);
    assert!(take_in(&mut s, want([6; 32])).is_empty());
    assert!(s.get([6; 32]).is_none());
    assert_eq!(s.get([5; 32]).unwrap().order().len(), 1);
    assert!(s.get_mut([5; 32]).unwrap().local_append(&del(b"k")).is_ok());
}

#[test]
fn a_counter_counts_operations() {
    let mut c = CounterProjection::default();
    let r: Result<(), Infallible> = c.apply(NodeId::new([0; 32], 0), b"anything");
    assert!(r.is_ok());
    c.apply(NodeId::new([0; 32], 1), b"").unwrap();
    assert_eq!(*c.snapshot(), 2);
    c.reset_to(&7);
    assert_eq!(*c.snapshot(), 7);
}

#[test]
fn a_driver_does_what_it_is_told() {
    let mine = key(1).public().to_bytes();
    let cfg = ServerConfig { identity_seed: [1; 32], indexers: vec![mine], replica_stale_after: None };
    let mut s: RoomServer<MemStoreFactory, KvProjection> = RoomServer::open(cfg, KvProjection::new());
    let mut p = Peers::new(&[[1; 32]]);
    let sent = |n: Next| match n {
        Next::Send(v) => v,
        Next::Stop => panic!("it was not told to stop"),
    };

    let none = sent(obey(&mut s, &mut p, Some(Command::Append([5; 32], put(b"k", b"v")))));
    assert!(none.is_empty(), "there is no such room");
    let new = sent(obey(&mut s, &mut p, Some(Command::Host([5; 32]))));
    assert!(new.is_empty(), "an empty log has nothing to announce");
    assert_eq!(s.rooms().len(), 1);
    assert_eq!(p.peers(), vec![[1; 32]]);

    let out = sent(obey(&mut s, &mut p, Some(Command::Append([5; 32], put(b"k", b"v")))));
    assert!(!out.is_empty());
    assert!(out.iter().all(|o| o.0 == [5; 32]));
    assert_eq!(s.get([5; 32]).unwrap().order().len(), 1);

    let again = sent(obey(&mut s, &mut p, Some(Command::Host([5; 32]))));
    assert_eq!(again.len(), 1);
    assert!(matches!(&again[0].1.msg, SyncMessage::Head { writer, head } if *writer == mine && head.length == 1));

    assert!(sent(obey(&mut s, &mut p, Some(Command::JoinRemote([6; 32], [9; 32])))).is_empty());
    assert_eq!(s.rooms().len(), 2);
    assert!(p.peers().contains(&[9; 32]));

    assert!(matches!(obey(&mut s, &mut p, Some(Command::Shutdown)), Next::Stop));
    assert!(matches!(obey(&mut s, &mut p, None), Next::Stop));
    assert_eq!((s.rooms().len(), p.peers().len()), (2, 2));
}

#[test]
fn what_is_final_is_handed_out_once_and_numbered() {
    let mut a = room(1);
    let mut out: Vec<u64> = Vec::new();
    for i in 0..4u8 {
        a.local_append(&put(&[i], b"v")).unwrap();
        if i % 2 == 0 {
            out.extend(settle(&mut a).iter().map(|v| v.0));
        } else {
            out.extend(a.poll_finalized().iter().map(|f| f.version));
        }
        assert_eq!(out.len(), a.finalized_len());
    }
    assert!(!out.is_empty());
    assert_eq!(out, (1..=a.finalized_len() as u64).collect::<Vec<_>>());
    let size = a.snapshot_finalized().len();
    a.local_append(&put(b"one", b"more")).unwrap();
    for (_, state) in settle(&mut a) {
        assert!(state.len() > size, "each with what is final now");
    }
    assert!(settle(&mut a).is_empty());
}
