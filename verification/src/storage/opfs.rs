//! The layout of a whole store in one file: `[key: u64 LE][len: u32 LE][bytes]` per
//! entry, in key order. A browser host keeps its store this way in the origin's private
//! file system, rewriting the file on every mutation.
use std::collections::BTreeMap;
use vstd::prelude::*;
use crate::bytes::{
    copy_range, get_u32, get_u64, le32, le64, le_value, lemma_le32, lemma_le64, put_all, put_u32,
    put_u64,
};
use crate::storage::Contents;
use crate::table::{keys_of, lemma_keys_exist, lemma_keys_of, sorted_keys};

verus! {

broadcast use vstd::std_specs::btree::group_btree_axioms;

/// A failure of the private file system, in words.
#[derive(Debug, Clone)]
pub struct OpfsError(pub String);

/// Bytes of an entry before its value: key and length.
pub const ENTRY_HDR: usize = 12;

/// What a table holds.
pub open spec fn held(map: Map<u64, Vec<u8>>) -> Contents {
    map.map_values(|v: Vec<u8>| v@)
}

/// An entry's bytes.
pub open spec fn entry(key: u64, value: Seq<u8>) -> Seq<u8> {
    le64(key) + le32(value.len() as u32) + value
}

/// The entries of `keys`, in order.
pub open spec fn entries(m: Contents, keys: Seq<u64>) -> Seq<u8>
    decreases keys.len(),
{
    if keys.len() == 0 {
        Seq::empty()
    } else {
        entries(m, keys.drop_last()) + entry(keys.last(), m[keys.last()])
    }
}

/// The length of the whole entry at `pos`, if one is there.
pub open spec fn entry_len(s: Seq<u8>, pos: int) -> Option<nat> {
    if pos + ENTRY_HDR > s.len() {
        None
    } else {
        let n = ENTRY_HDR as nat + le_value(s.subrange(pos + 8, pos + 12));
        if pos + n > s.len() {
            None
        } else {
            Some(n)
        }
    }
}

/// What is held once the entries from `pos` on are added to `m`, and where the last
/// whole entry ends.
pub open spec fn loaded(s: Seq<u8>, pos: int, m: Contents) -> (Contents, int)
    decreases s.len() - pos,
{
    match entry_len(s, pos) {
        None => (m, pos),
        Some(n) => loaded(
            s,
            pos + n,
            m.insert(
                le_value(s.subrange(pos, pos + 8)) as u64,
                s.subrange(pos + ENTRY_HDR, pos + n),
            ),
        ),
    }
}

proof fn lemma_entry(key: u64, value: Seq<u8>)
    requires
        value.len() <= u32::MAX,
    ensures
        entry(key, value).len() == ENTRY_HDR + value.len(),
        entry(key, value).subrange(0, 8) == le64(key),
        entry(key, value).subrange(8, 12) == le32(value.len() as u32),
        entry(key, value).subrange(12, ENTRY_HDR + value.len()) == value,
        le_value(le64(key)) == key,
        le_value(le32(value.len() as u32)) == value.len(),
{
    lemma_le64(key);
    lemma_le32(value.len() as u32);
    let e = entry(key, value);
    assert(e.subrange(0, 8) =~= le64(key));
    assert(e.subrange(8, 12) =~= le32(value.len() as u32));
    assert(e.subrange(12, ENTRY_HDR + value.len()) =~= value);
}

pub proof fn lemma_loaded_append(s: Seq<u8>, pos: int, m: Contents, key: u64, value: Seq<u8>)
    requires
        0 <= pos <= s.len(),
        loaded(s, pos, m).1 == s.len(),
        value.len() <= u32::MAX,
    ensures
        loaded(s + entry(key, value), pos, m) == (
            loaded(s, pos, m).0.insert(key, value),
            (s + entry(key, value)).len() as int,
        ),
    decreases s.len() - pos,
{
    let e = entry(key, value);
    let t = s + e;
    lemma_entry(key, value);
    match entry_len(s, pos) {
        Some(n) => {
            assert(t.subrange(pos + 8, pos + 12) =~= s.subrange(pos + 8, pos + 12));
            assert(t.subrange(pos, pos + 8) =~= s.subrange(pos, pos + 8));
            assert(t.subrange(pos + ENTRY_HDR, pos + n) =~= s.subrange(pos + ENTRY_HDR, pos + n));
            assert(entry_len(t, pos) == Some(n));
            let next = m.insert(
                le_value(s.subrange(pos, pos + 8)) as u64,
                s.subrange(pos + ENTRY_HDR, pos + n),
            );
            lemma_loaded_append(s, pos + n, next, key, value);
        },
        None => {
            assert(pos == s.len());
            let n = (ENTRY_HDR + value.len()) as nat;
            assert(t.subrange(pos, pos + 8) =~= e.subrange(0, 8));
            assert(t.subrange(pos + 8, pos + 12) =~= e.subrange(8, 12));
            assert(entry_len(t, pos) == Some(n));
            assert(t.subrange(pos + ENTRY_HDR, pos + n) =~= e.subrange(12, n as int));
            let after = m.insert(key, value);
            assert(entry_len(t, pos + n) is None);
            assert(loaded(t, pos + n, after) == (after, pos + n));
        },
    }
}

proof fn lemma_loaded_entries(m: Contents, keys: Seq<u64>)
    requires
        forall|j: int|
            0 <= j < keys.len() ==> m.contains_key(#[trigger] keys[j]) && m[keys[j]].len()
                <= u32::MAX,
    ensures
        loaded(entries(m, keys), 0, Map::empty()) == (
            m.restrict(keys.to_set()),
            entries(m, keys).len() as int,
        ),
    decreases keys.len(),
{
    if keys.len() == 0 {
        assert(m.restrict(keys.to_set()) =~= Map::<u64, Seq<u8>>::empty());
        assert(entry_len(entries(m, keys), 0) is None);
    } else {
        let rest = keys.drop_last();
        let k = keys.last();
        assert forall|j: int| 0 <= j < rest.len() implies m.contains_key(#[trigger] rest[j])
            && m[rest[j]].len() <= u32::MAX by {
            assert(rest[j] == keys[j]);
        }
        lemma_loaded_entries(m, rest);
        assert(m.contains_key(keys[keys.len() - 1]));
        lemma_loaded_append(entries(m, rest), 0, Map::empty(), k, m[k]);
        assert forall|x: u64| keys.to_set().contains(x) == rest.to_set().insert(k).contains(x) by {
            if keys.contains(x) {
                let j = choose|j: int| 0 <= j < keys.len() && keys[j] == x;
                if j < rest.len() {
                    assert(rest[j] == x);
                }
            }
            if rest.contains(x) {
                let j = choose|j: int| 0 <= j < rest.len() && rest[j] == x;
                assert(keys[j] == x);
            }
            assert(keys[keys.len() - 1] == k);
        }
        assert(keys.to_set() =~= rest.to_set().insert(k));
        assert(m.restrict(keys.to_set()) =~= m.restrict(rest.to_set()).insert(k, m[k]));
    }
}

/// Loading a written store gives it back.
pub proof fn law_decode_encode(m: Contents)
    requires
        m.dom().finite(),
        forall|k: u64| #[trigger] m.contains_key(k) ==> m[k].len() <= u32::MAX,
    ensures
        loaded(entries(m, keys_of(m)), 0, Map::empty()).0 == m,
{
    let keys = keys_of(m);
    lemma_keys_exist(m);
    assert forall|j: int| 0 <= j < keys.len() implies m.contains_key(#[trigger] keys[j])
        && m[keys[j]].len() <= u32::MAX by {
        assert(keys.contains(keys[j]));
        assert(keys.to_set().contains(keys[j]));
        assert(m.contains_key(keys[j]));
    }
    lemma_loaded_entries(m, keys);
    assert(m.restrict(keys.to_set()) =~= m);
}

/// Write a store out, in key order.
pub fn encode_map(map: &BTreeMap<u64, Vec<u8>>) -> (out: Vec<u8>)
    requires
        forall|k: u64| #[trigger] map@.contains_key(k) ==> map@[k]@.len() <= u32::MAX,
    ensures
        out@ == entries(held(map@), keys_of(held(map@))),
{
    let keys: Vec<u64> = sorted_keys(map);
    let ghost m = held(map@);
    proof {
        assert(m.dom() =~= map@.dom());
        lemma_keys_of(m, keys@);
        assert(keys@.take(0) =~= Seq::<u64>::empty());
    }
    let mut out: Vec<u8> = Vec::new();
    let mut i: usize = 0;
    while i < keys.len()
        invariant
            i <= keys.len(),
            m == held(map@),
            keys@.to_set() == map@.dom(),
            forall|k: u64| #[trigger] map@.contains_key(k) ==> map@[k]@.len() <= u32::MAX,
            out@ == entries(m, keys@.take(i as int)),
        decreases keys.len() - i,
    {
        proof {
            assert(keys@.contains(keys@[i as int]));
            assert(keys@.to_set().contains(keys@[i as int]));
            assert(map@.contains_key(keys@[i as int]));
            assert(keys@.take(i + 1).drop_last() =~= keys@.take(i as int));
        }
        let ghost before = out@;
        match map.get(&keys[i]) {
            None => {},
            Some(v) => {
                put_u64(&mut out, keys[i]);
                put_u32(&mut out, v.len() as u32);
                put_all(&mut out, v.as_slice());
                assert(out@ =~= before + entry(keys@[i as int], v@));
            },
        }
        i = i + 1;
    }
    assert(keys@.take(i as int) =~= keys@);
    out
}

/// Load a store; a partial trailing entry is dropped.
pub fn decode_map(b: &[u8]) -> (map: BTreeMap<u64, Vec<u8>>)
    ensures
        held(map@) == loaded(b@, 0, Map::empty()).0,
{
    let mut map: BTreeMap<u64, Vec<u8>> = BTreeMap::new();
    let mut pos: usize = 0;
    assert(held(map@) =~= Map::<u64, Seq<u8>>::empty());
    while b.len() - pos >= ENTRY_HDR
        invariant
            pos <= b.len(),
            loaded(b@, 0, Map::empty()) == loaded(b@, pos as int, held(map@)),
        decreases b.len() - pos,
    {
        let key: u64 = get_u64(b, pos);
        let len: u32 = get_u32(b, pos + 8);
        if b.len() - pos - ENTRY_HDR < len as usize {
            return map;
        }
        let next: usize = pos + ENTRY_HDR + len as usize;
        let value: Vec<u8> = copy_range(b, pos + ENTRY_HDR, next);
        let ghost before = held(map@);
        map.insert(key, value);
        assert(held(map@) =~= before.insert(key, b@.subrange(pos + ENTRY_HDR, next as int)));
        pos = next;
    }
    map
}

} // verus!
