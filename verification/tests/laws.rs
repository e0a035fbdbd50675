//! What holds across several calls, on concrete values.
use std::collections::BTreeMap;
use std::time::Duration;

use hypercore_rs::autobase::{Linearizer, NodeId};
use hypercore_rs::bytemap::ByteMap;
use hypercore_rs::codec::{frame, read_tagged, unframe, varint, write_tagged, Bytes, Codec, Error, U64};
use hypercore_rs::hyperbee::{Hyperbee, Range};
use hypercore_rs::identity::SecretKey;
use hypercore_rs::merkle::{flat, MerkleTree};
use hypercore_rs::roomnet::{Origin, RoomConfig};
use hypercore_rs::storage::opfs::{decode_map, encode_map};
use hypercore_rs::storage::{Bitfield, LogStore, MemFile, MemoryStore, Store};

fn bee() -> Hyperbee<MemoryStore> {
    Hyperbee::new(SecretKey::from_seed(&[7; 32]), MemoryStore::new())
}

fn pairs(b: &Hyperbee<MemoryStore>) -> Vec<(Vec<u8>, Vec<u8>)> {
    b.range(&Range::default()).unwrap()
}

#[test]
fn numbers_have_these_bytes() {
    for (v, expect) in [
        (0u64, vec![0u8]),
        (127, vec![127]),
        (128, vec![0x80, 1]),
        (300, vec![0xac, 2]),
        (u64::MAX, vec![255, 255, 255, 255, 255, 255, 255, 255, 255, 1]),
    ] {
        let mut out = Vec::new();
        varint::write(&mut out, v);
        assert_eq!(out, expect);
        let mut rest = out.as_slice();
        assert_eq!(varint::read(&mut rest), Ok(v));
        assert!(rest.is_empty());
        assert_eq!(U64.decode(&U64.encode(&v)), Ok(v));
    }
    let mut long: &[u8] = &[0xff; 11];
    assert_eq!(varint::read(&mut long), Err(Error::BadVarint));
    let mut cut: &[u8] = &[0x80];
    assert_eq!(varint::read(&mut cut), Err(Error::Eof));
}

#[test]
fn frames_and_tags_come_back() {
    let framed = frame(300, b"body");
    assert_eq!(framed, b"\xac\x02body".to_vec());
    assert_eq!(unframe(&framed), Ok((300, &b"body"[..])));
    let mut out = Vec::new();
    write_tagged(&mut out, 5, b"abc");
    write_tagged(&mut out, 6, b"");
    assert_eq!(out, vec![5, 3, b'a', b'b', b'c', 6, 0]);
    let mut rest = out.as_slice();
    assert_eq!(read_tagged(&mut rest), Ok((5, &b"abc"[..])));
    assert_eq!(read_tagged(&mut rest), Ok((6, &b""[..])));
    let mut cut: &[u8] = &[5, 3, b'a'];
    assert_eq!(read_tagged(&mut cut), Err(Error::Eof));
    assert_eq!(Bytes.decode(&Bytes.encode(&b"xyz".to_vec())), Ok(b"xyz".to_vec()));
}

#[test]
fn a_byte_map_keeps_the_last_value_in_key_order() {
    let mut m = ByteMap::new();
    m.insert(b"b".to_vec(), b"1".to_vec());
    m.insert(b"a".to_vec(), b"2".to_vec());
    m.insert(b"b".to_vec(), b"3".to_vec());
    assert_eq!(m.len(), 2);
    assert_eq!(m.get(b"b"), Some(&b"3".to_vec()));
    assert_eq!(m.pair(0).0, &b"a".to_vec());
    m.remove(b"a");
    assert_eq!(m.get(b"a"), None);
    assert!(!m.is_empty());
}

#[test]
fn a_map_survives_its_file() {
    let mut m = BTreeMap::new();
    assert!(encode_map(&m).is_empty());
    m.insert(1u64, b"xy".to_vec());
    m.insert(u64::MAX, vec![]);
    let bytes = encode_map(&m);
    let mut expect = 1u64.to_le_bytes().to_vec();
    expect.extend_from_slice(&[2, 0, 0, 0, b'x', b'y']);
    expect.extend_from_slice(&u64::MAX.to_le_bytes());
    expect.extend_from_slice(&[0, 0, 0, 0]);
    assert_eq!(bytes, expect);
    assert_eq!(decode_map(&bytes), m);
    let cut = decode_map(&bytes[..bytes.len() - 1]);
    assert_eq!(cut.len(), 1, "an entry that is cut off is dropped");
    assert_eq!(cut[&1], b"xy".to_vec());
}

#[test]
fn a_log_store_forgets_a_record_that_was_cut_off() {
    let mut s = LogStore::open(MemFile::new()).unwrap();
    s.put(1, b"one").unwrap();
    let whole = s.file_len();
    s.put(2, b"two").unwrap();
    let bytes = s.into_file().bytes().to_vec();
    for n in whole as usize..bytes.len() {
        let again = LogStore::open(MemFile::from_bytes(bytes[..n].to_vec())).unwrap();
        assert_eq!(again.len().unwrap(), 1);
        assert_eq!(again.get(1).unwrap(), Some(b"one".to_vec()));
        assert_eq!(again.file_len(), whole);
    }
}

#[test]
fn a_bitfield_finds_the_nearest_bits() {
    let mut f = Bitfield::new();
    assert!(f.is_blank());
    f.set_range(10, 20, true);
    assert_eq!(f.first_set(0), Some(10));
    assert_eq!(f.first_unset(10), Some(20));
    assert_eq!(f.last_set(u64::MAX), Some(19));
    assert_eq!(f.last_unset(19), Some(9));
    assert_eq!(f.first_set(20), None);
    assert_eq!(f.count(0, 15, true), 5);
    assert_eq!(f.count(0, 15, false), 10);
    f.set_range(10, 20, false);
    assert_eq!(f.first_set(0), None);
    let again = Bitfield::deserialize(&f.serialize()).unwrap();
    assert_eq!(again.first_set(0), None);
}

#[test]
fn flat_indices_are_a_binary_tree() {
    assert_eq!(flat::index(0, 3), 6);
    assert_eq!(flat::index(1, 1), 5);
    assert_eq!(flat::index(2, 0), 3);
    assert_eq!((flat::depth(3), flat::offset(3)), (2, 0));
    assert_eq!(flat::parent(0), 1);
    assert_eq!(flat::sibling(0), 2);
    assert_eq!(flat::full_roots(14), vec![3, 9, 12]);
}

#[test]
fn two_trees_of_the_same_blocks_are_the_same() {
    let grow = |blocks: &[&[u8]]| {
        let mut t = MerkleTree::new();
        for b in blocks {
            t.append(b);
        }
        t
    };
    let mut a = grow(&[b"a", b"b", b"c", b"d", b"e"]);
    let b = grow(&[b"a", b"b", b"c"]);
    assert_eq!(a.lowest_common_ancestor(&b), 3);
    assert_ne!(a.root_hash(), b.root_hash());
    a.truncate(3);
    assert_eq!(a.root_hash(), b.root_hash());
    assert_eq!(a.serialize(), b.serialize());
    assert_eq!(grow(&[b"a", b"x", b"c"]).lowest_common_ancestor(&b), 1);
}

#[test]
fn a_pair_is_read_until_it_is_dropped() {
    let mut b = bee();
    b.put(b"k", b"v").unwrap();
    b.put(b"l", b"w").unwrap();
    assert_eq!(b.get(b"k").unwrap(), Some(b"v".to_vec()));
    assert_eq!(b.del(b"k").unwrap(), true);
    assert_eq!(b.del(b"k").unwrap(), false);
    assert_eq!(b.get(b"k").unwrap(), None);
    assert_eq!(b.get(b"l").unwrap(), Some(b"w".to_vec()));
}

#[test]
fn the_order_of_puts_does_not_matter() {
    let (mut x, mut y) = (bee(), bee());
    for i in 0..40u8 {
        x.put(&[i], &[i, i]).unwrap();
        y.put(&[39 - i], &[39 - i, 39 - i]).unwrap();
    }
    assert_eq!(pairs(&x), pairs(&y));
    assert_eq!(pairs(&x).len(), 40);
}

#[test]
fn a_range_is_the_pairs_within_it() {
    let mut b = bee();
    for i in 0..20u8 {
        b.put(&[i], b"").unwrap();
    }
    let keys = |r: Range| b.range(&r).unwrap().into_iter().map(|p| p.0[0]).collect::<Vec<u8>>();
    let some = || Range { gt: Some(vec![3]), lte: Some(vec![7]), ..Default::default() };
    assert_eq!(keys(some()), vec![4, 5, 6, 7]);
    assert_eq!(keys(Range { reverse: true, ..some() }), vec![7, 6, 5, 4]);
    assert_eq!(keys(Range { reverse: true, limit: Some(2), ..some() }), vec![7, 6]);
    assert_eq!(keys(Range { limit: Some(0), ..some() }), Vec::<u8>::new());
    assert_eq!(keys(Range { gte: Some(vec![18]), ..Default::default() }), vec![18, 19]);
    assert_eq!(keys(Range { lt: Some(vec![2]), ..Default::default() }), vec![0, 1]);
}

#[test]
fn a_sub_sees_its_own_keys_only() {
    let mut b = bee();
    b.put(b"a", b"outside").unwrap();
    {
        let mut s = b.sub(b"u/");
        s.put(b"x", b"1").unwrap();
        s.put(b"y", b"2").unwrap();
        assert_eq!(s.get(b"x").unwrap(), Some(b"1".to_vec()));
        assert_eq!(s.get(b"a").unwrap(), None);
        assert_eq!(
            s.range(&Range::default()).unwrap(),
            vec![(b"x".to_vec(), b"1".to_vec()), (b"y".to_vec(), b"2".to_vec())],
            "keys without the prefix"
        );
        let last = Range { gt: Some(b"x".to_vec()), ..Default::default() };
        assert_eq!(s.range(&last).unwrap().len(), 1);
        assert_eq!(s.del(b"y").unwrap(), true);
        assert!(s.version() > 0);
    }
    assert_eq!(b.get(b"u/x").unwrap(), Some(b"1".to_vec()));
    assert_eq!(b.get(b"u/y").unwrap(), None);
    assert_eq!(b.get(b"a").unwrap(), Some(b"outside".to_vec()));
    b.put(b"u0", b"behind").unwrap();
    b.put(&[0xff, 0xff, 1], b"top").unwrap();
    assert_eq!(b.sub(b"u/").range(&Range::default()).unwrap().len(), 1);
    assert_eq!(b.sub(&[0xff, 0xff]).range(&Range::default()).unwrap().len(), 1, "no key is after it");
    assert_eq!(b.sub(b"").range(&Range::default()).unwrap().len(), 4);
}

#[test]
fn a_past_version_stays_as_it_was() {
    let mut b = bee();
    b.put(b"k", b"1").unwrap();
    let then = b.version();
    b.put(b"k", b"2").unwrap();
    b.del(b"k").unwrap();
    assert_eq!(b.get_at(then, b"k").unwrap(), Some(b"1".to_vec()));
    assert_eq!(b.get_at(0, b"k").unwrap(), None);
    let c = b.checkout(then);
    assert_eq!(c.version(), then);
    assert_eq!(c.get(b"k").unwrap(), Some(b"1".to_vec()));
    assert_eq!(c.range(&Range::default()).unwrap().len(), 1);
    assert_eq!(b.checkout(999).version(), b.version());
    assert!(b.range_at(then, &Range::default()).unwrap().len() == 1);
}

#[test]
fn what_is_final_only_grows_at_its_end() {
    let (x, y) = ([1u8; 32], [2u8; 32]);
    let mut lin = Linearizer::with_indexers(vec![x, y]);
    let mut was: Vec<NodeId> = Vec::new();
    let mut top: Vec<NodeId> = Vec::new();
    for i in 0..6u64 {
        for k in [x, y] {
            let node = NodeId::new(k, i);
            lin.add(node, &top).unwrap();
            top = vec![node];
            let fin = lin.finalized();
            assert_eq!(fin[..was.len()], was[..]);
            assert_eq!(lin.order()[..fin.len()], fin[..]);
            was = fin;
        }
    }
    assert!(!was.is_empty());
    assert_eq!(lin.tails(), vec![NodeId::new(x, 0)], "where it all began");
    assert_eq!(lin.frontier(), top, "what nothing builds on yet");
    lin.add(NodeId::new([3; 32], 0), &[]).unwrap();
    assert_eq!(lin.frontier(), vec![top[0], NodeId::new([3; 32], 0)]);
    assert_eq!(lin.tails().len(), 2);
}

#[test]
fn a_branch_nobody_had_seen_can_take_finality_back() {
    let (a, b, x) = ([1u8; 32], [2u8; 32], [3u8; 32]);
    let mut lin = Linearizer::with_indexers(vec![a, b]);
    let a0 = NodeId::new(a, 0);
    let x0 = NodeId::new(x, 0);
    lin.add(a0, &[]).unwrap();
    lin.add(x0, &[]).unwrap();
    lin.add(NodeId::new(b, 0), &[a0]).unwrap();
    assert_eq!(lin.finalized(), vec![a0]);
    lin.add(NodeId::new(a, 1), &[a0, x0]).unwrap();
    assert!(lin.finalized().is_empty(), "its second node also builds on what never saw the first");
}

#[test]
fn a_config_says_where_a_room_comes_from() {
    let after = Some(Duration::from_secs(5));
    let c = RoomConfig::replicated(SecretKey::from_seed(&[1; 32]), vec![[3; 32]], after);
    assert_eq!(c.indexers, vec![[3; 32]]);
    assert!(matches!(c.origin, Origin::Replicated { delete_on_stale_after } if delete_on_stale_after == after));
    let o = RoomConfig::original(SecretKey::from_seed(&[1; 32]), vec![]);
    assert!(matches!(o.origin, Origin::Original));
}

#[test]
fn a_proof_with_an_altered_root_is_refused() {
    let mut t = MerkleTree::new();
    t.append(b"a");
    t.append(b"b");
    let mut p = t.inclusion_proof(0).unwrap();
    assert!(p.verify(b"a", &t.root_hash()));
    p.roots[0].hash[0] ^= 0xff;
    assert!(!p.verify(b"a", &t.root_hash()), "the root over the block");
    t.append(b"c");
    let mut p = t.inclusion_proof(0).unwrap();
    for k in 0..2 {
        p.roots[k].size += 1;
        assert!(!p.verify(b"a", &t.root_hash()));
        p.roots[k].size -= 1;
    }
    assert!(p.verify(b"a", &t.root_hash()));
}

#[test]
fn roots_are_as_many_as_the_ones_of_a_length() {
    for n in [0u64, 1, 2, 3, 7, 8, 100, 1000, 1 << 40, (1 << 63) - 1] {
        let roots = flat::full_roots(2 * n);
        assert_eq!(roots.len(), n.count_ones() as usize);
        let mut at = 0u64;
        let mut size = u64::MAX;
        for r in roots {
            let (first, end) = flat::block_range(r);
            assert_eq!(first, at);
            assert!((end - first).is_power_of_two() && end - first < size);
            size = end - first;
            at = end;
        }
        assert_eq!(at, n);
    }
    assert_eq!(flat::full_roots(14), vec![3, 9, 12]);
}

#[test]
fn a_range_proof_holds_what_lies_beside_the_range() {
    let mut t = MerkleTree::new();
    for i in 0..11u8 {
        t.append(&[i]);
    }
    for start in 0..11u64 {
        for end in start + 1..=11 {
            for n in &t.range_proof(start, end).unwrap().nodes {
                let (first, last) = flat::block_range(n.index);
                assert!(last <= start || end <= first);
            }
        }
        let one = t.range_proof(start, start + 1).unwrap();
        assert_eq!(one.nodes, t.inclusion_proof(start).unwrap().siblings);
    }
    assert!(t.range_proof(0, 11).unwrap().nodes.is_empty());
    let mid: Vec<u64> = t.range_proof(3, 6).unwrap().nodes.iter().map(|n| n.index).collect();
    assert_eq!(mid, vec![4, 1, 13], "depth by depth");
}

#[test]
fn a_damaged_tree_is_healed_node_by_node() {
    let mut whole = MerkleTree::new();
    for i in 0..6u8 {
        whole.append(&[i]);
    }
    let root = whole.root_hash();
    let mut t = whole.clone();
    for i in [0u64, 1, 3, 8] {
        assert!(t.remove_node(i));
    }
    for i in [8u64, 3, 1, 0] {
        assert!(!t.is_intact());
        assert!(t.recover_node(&whole.node_proof(i).unwrap(), &root));
    }
    assert!(t.is_intact());
    assert_eq!(t.serialize(), whole.serialize());
}

#[test]
fn appending_leaves_what_was_there() {
    let mut t = MerkleTree::new();
    let mut was = Vec::new();
    for i in 0..9u8 {
        t.append(&[i; 3]);
        was.push(t.root_hash());
        for n in 1..=t.len() {
            assert_eq!(t.prefix_root_hash(n), Some(was[n as usize - 1]));
        }
    }
    assert_eq!(t.prefix_root_hash(u64::MAX), None);
    assert!(t.prefix_roots(u64::MAX).is_none());
    assert!(t.upgrade_proof(1, u64::MAX).is_none());
}

#[test]
fn a_reorganized_tree_is_the_one_it_follows() {
    let grown = |blocks: &[&[u8]]| {
        let mut t = MerkleTree::new();
        for b in blocks {
            t.append(b);
        }
        t
    };
    let mut t = grown(&[b"a", b"b", b"c", b"d", b"e"]);
    let u = grown(&[b"a", b"b", b"c", b"x"]);
    assert_eq!(t.lowest_common_ancestor(&u), 3);
    assert_eq!(t.prefix_root_hash(3), u.prefix_root_hash(3));
    assert_ne!(t.prefix_root_hash(4), u.prefix_root_hash(4));
    assert_eq!(t.reorg(&u), 3);
    assert_eq!(t.serialize(), u.serialize());
}

#[test]
fn what_is_confirmed_of_indexers_is_the_confirmed_prefix() {
    let (x, y, z) = ([1u8; 32], [2u8; 32], [3u8; 32]);
    let mut lin = Linearizer::with_indexers(vec![x, y]);
    let mut top: Vec<NodeId> = Vec::new();
    let mut seen = 0;
    for i in 0..6u64 {
        for k in [z, x, y] {
            let node = NodeId::new(k, i);
            lin.add(node, &top).unwrap();
            top = vec![node];
            let mut theirs: Vec<NodeId> = lin.confirmed_view();
            seen = theirs.len();
            theirs.retain(|n| n.key != z);
            let mut prefix = lin.confirmed_prefix();
            theirs.sort();
            prefix.sort();
            assert_eq!(theirs, prefix);
        }
    }
    assert!(seen > lin.confirmed_prefix().len(), "others' nodes are in the view as well");
}

#[test]
fn altered_roots_are_noticed_by_range_and_node_proofs() {
    let mut t = MerkleTree::new();
    let blocks: Vec<Vec<u8>> = (0..7u8).map(|i| vec![i; 2]).collect();
    for b in &blocks {
        t.append(b);
    }
    let root = t.root_hash();
    let range = t.range_proof(1, 3).unwrap();
    let node = t.node_proof(1).unwrap();
    assert!(range.verify(&blocks[1..3], &root));
    assert!(node.verify(&root).is_some());
    for k in 0..3 {
        let mut bad = range.clone();
        bad.roots[k].hash[0] ^= 0xff;
        assert!(!bad.verify(&blocks[1..3], &root));
        let mut bad = node.clone();
        bad.roots[k].size += 1;
        assert_eq!(bad.verify(&root), None);
    }
}

#[test]
fn a_tree_read_back_from_bytes_grows_like_any_other() {
    let mut t = MerkleTree::new();
    for i in 0..5u8 {
        t.append(&[i; 3]);
    }
    let mut u = MerkleTree::deserialize(&t.serialize()).unwrap();
    let (len, bytes) = (u.len(), u.byte_length());
    assert_eq!(u.append(b"more"), len);
    assert_eq!((u.len(), u.byte_length()), (len + 1, bytes + 4));
    assert!(u.is_intact());
    assert_eq!(u.prefix_root_hash(5), Some(t.root_hash()));
    assert!(u.inclusion_proof(len).unwrap().verify(b"more", &u.root_hash()));
}
