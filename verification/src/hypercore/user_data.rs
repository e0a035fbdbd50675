//! App-defined metadata as bytes: `[count]` then per entry `[key length][key][value
//! length][value]`, all lengths 64-bit little-endian, in key order.
use vstd::prelude::*;
use crate::bytemap::{listed, lemma_listed, lemma_lookup, map_of, sorted, ByteMap, Pairs};
use crate::bytes::{copy_range, get_u64, le64, le_value, lemma_le64, put_all, put_u64};

verus! {

/// A length and that many bytes.
pub open spec fn field(b: Seq<u8>) -> Seq<u8> {
    le64(b.len() as u64) + b
}

/// Keys and values, in order.
pub open spec fn pairs_bytes(s: Pairs) -> Seq<u8>
    decreases s.len(),
{
    if s.len() == 0 {
        Seq::empty()
    } else {
        field(s[0].0) + (field(s[0].1) + pairs_bytes(s.skip(1)))
    }
}

/// The bytes of a map.
pub open spec fn data_bytes(m: Map<Seq<u8>, Seq<u8>>) -> Seq<u8> {
    le64(listed(m).len() as u64) + pairs_bytes(listed(m))
}

/// The field at `at` and where it ends, if it is whole.
pub open spec fn field_at(s: Seq<u8>, at: int) -> Option<(Seq<u8>, int)> {
    if at + 8 > s.len() {
        None
    } else {
        let n = le_value(s.subrange(at, at + 8));
        if at + 8 + n > s.len() {
            None
        } else {
            Some((s.subrange(at + 8, at + 8 + n), at + 8 + n))
        }
    }
}

/// `m` with the `n` entries from `at` on, which end the bytes.
pub open spec fn load(s: Seq<u8>, at: int, n: nat, m: Map<Seq<u8>, Seq<u8>>) -> Option<
    Map<Seq<u8>, Seq<u8>>,
>
    decreases n,
{
    if n == 0 {
        if at == s.len() {
            Some(m)
        } else {
            None
        }
    } else {
        match field_at(s, at) {
            None => None,
            Some(k) => match field_at(s, k.1) {
                None => None,
                Some(v) => load(s, v.1, (n - 1) as nat, m.insert(k.0, v.0)),
            },
        }
    }
}

/// The map that bytes stand for.
pub open spec fn parsed_data(s: Seq<u8>) -> Option<Map<Seq<u8>, Seq<u8>>> {
    if s.len() < 8 {
        None
    } else {
        load(s, 8, le_value(s.subrange(0, 8)), Map::empty())
    }
}

/// Write a map out.
pub(crate) fn encode_user_data(map: &ByteMap) -> (out: Vec<u8>)
    requires
        map.wf(),
    ensures
        out@ == data_bytes(map@),
{
    let ghost all = map.pairs();
    proof {
        map.lemma_wf();
        assert(all.skip(0) =~= all);
    }
    let mut out: Vec<u8> = Vec::new();
    put_u64(&mut out, map.len() as u64);
    let mut i: usize = 0;
    assert(data_bytes(map@) =~= out@ + pairs_bytes(all.skip(0)));
    while i < map.len()
        invariant
            i <= all.len(),
            all == map.pairs(),
            data_bytes(map@) == out@ + pairs_bytes(all.skip(i as int)),
        decreases all.len() - i,
    {
        let p: (&Vec<u8>, &Vec<u8>) = map.pair(i);
        let ghost before = out@;
        put_u64(&mut out, p.0.len() as u64);
        put_all(&mut out, p.0.as_slice());
        put_u64(&mut out, p.1.len() as u64);
        put_all(&mut out, p.1.as_slice());
        proof {
            let rest = all.skip(i as int);
            assert(rest.skip(1) =~= all.skip(i + 1));
            assert(rest[0] == all[i as int]);
            assert(out@ =~= before + (field(p.0@) + field(p.1@)));
            assert(out@ + pairs_bytes(all.skip(i + 1)) =~= before + pairs_bytes(rest));
        }
        i = i + 1;
    }
    assert(all.skip(i as int) =~= Seq::empty());
    assert(out@ + pairs_bytes(all.skip(i as int)) =~= out@);
    out
}

/// Read a field.
fn read_field(s: &[u8], at: usize) -> (r: Option<(Vec<u8>, usize)>)
    requires
        at <= s.len(),
    ensures
        match r {
            Some(f) => field_at(s@, at as int) == Some((f.0@, f.1 as int)) && f.1 <= s.len(),
            None => field_at(s@, at as int) is None,
        },
{
    if s.len() - at < 8 {
        return None;
    }
    let n: u64 = get_u64(s, at);
    let left: u64 = (s.len() - at - 8) as u64;
    if n > left {
        return None;
    }
    let end: usize = at + 8 + n as usize;
    Some((copy_range(s, at + 8, end), end))
}

/// Read a map back; `None` on a malformed or truncated buffer.
pub(crate) fn decode_user_data(s: &[u8]) -> (r: Option<ByteMap>)
    ensures
        match r {
            Some(m) => m.wf() && parsed_data(s@) == Some(m@),
            None => parsed_data(s@) is None,
        },
{
    if s.len() < 8 {
        return None;
    }
    let count: u64 = get_u64(s, 0);
    let mut map: ByteMap = ByteMap::new();
    let mut at: usize = 8;
    let mut left: u64 = count;
    while left > 0
        invariant
            at <= s.len(),
            map.wf(),
            parsed_data(s@) == load(s@, at as int, left as nat, map@),
        decreases left,
    {
        let k: (Vec<u8>, usize) = match read_field(s, at) {
            Some(k) => k,
            None => return None,
        };
        let v: (Vec<u8>, usize) = match read_field(s, k.1) {
            Some(v) => v,
            None => return None,
        };
        map.insert(k.0, v.0);
        at = v.1;
        left = left - 1;
    }
    if at != s.len() {
        return None;
    }
    Some(map)
}

/// `m` with pairs put in, in order.
spec fn filled(m: Map<Seq<u8>, Seq<u8>>, s: Pairs) -> Map<Seq<u8>, Seq<u8>>
    decreases s.len(),
{
    if s.len() == 0 {
        m
    } else {
        filled(m.insert(s[0].0, s[0].1), s.skip(1))
    }
}

proof fn lemma_field(s: Seq<u8>, at: int, b: Seq<u8>, rest: Seq<u8>)
    requires
        0 <= at <= s.len(),
        s.skip(at) == field(b) + rest,
        b.len() <= u64::MAX,
    ensures
        field_at(s, at) == Some((b, at + 8 + b.len())),
        at + 8 + b.len() <= s.len(),
        s.skip(at + 8 + b.len()) == rest,
{
    lemma_le64(b.len() as u64);
    let t = field(b) + rest;
    assert(t == s.skip(at));
    assert(t.len() == s.len() - at);
    assert(s.subrange(at, at + 8) =~= t.subrange(0, 8));
    assert(t.subrange(0, 8) =~= le64(b.len() as u64));
    assert(s.subrange(at + 8, at + 8 + b.len()) =~= t.subrange(8, 8 + b.len() as int));
    assert(t.subrange(8, 8 + b.len() as int) =~= b);
    assert(s.skip(at + 8 + b.len()) =~= t.skip(8 + b.len() as int));
    assert(t.skip(8 + b.len() as int) =~= rest);
}

proof fn lemma_load(s: Seq<u8>, at: int, list: Pairs, m: Map<Seq<u8>, Seq<u8>>)
    requires
        0 <= at <= s.len(),
        s.skip(at) == pairs_bytes(list),
        forall|i: int|
            0 <= i < list.len() ==> (#[trigger] list[i]).0.len() <= u64::MAX && list[i].1.len()
                <= u64::MAX,
    ensures
        load(s, at, list.len(), m) == Some(filled(m, list)),
    decreases list.len(),
{
    if list.len() == 0 {
        assert(s.skip(at).len() == 0);
    } else {
        let (k, v) = list[0];
        let rest = pairs_bytes(list.skip(1));
        lemma_field(s, at, k, field(v) + rest);
        let mid = at + 8 + k.len();
        lemma_field(s, mid, v, rest);
        let end = mid + 8 + v.len();
        assert forall|i: int| 0 <= i < list.skip(1).len() implies (#[trigger] list.skip(
            1,
        )[i]).0.len() <= u64::MAX && list.skip(1)[i].1.len() <= u64::MAX by {
            assert(list.skip(1)[i] == list[i + 1]);
        }
        lemma_load(s, end, list.skip(1), m.insert(k, v));
    }
}

/// Filling in sorted pairs from place `i` on completes the map of those before it.
proof fn lemma_filled(list: Pairs, i: int)
    requires
        sorted(list),
        0 <= i <= list.len(),
    ensures
        filled(map_of(list.take(i)), list.skip(i)) == map_of(list),
    decreases list.len() - i,
{
    if i == list.len() {
        assert(list.take(i) =~= list);
        assert(list.skip(i).len() == 0);
    } else {
        let less = list.take(i);
        let more = list.take(i + 1);
        lemma_filled(list, i + 1);
        assert(list.skip(i).skip(1) =~= list.skip(i + 1));
        assert(more.drop_last() =~= less);
        lemma_take_sorted(list, i);
        lemma_take_sorted(list, i + 1);
        let u = map_of(less).insert(list[i].0, list[i].1);
        assert forall|k: Seq<u8>| #[trigger] map_of(more).contains_key(k) == u.contains_key(k) by {
            if crate::bytemap::keyed_by(more, k) {
                let j = choose|j: int| 0 <= j < more.len() && (#[trigger] more[j]).0 == k;
                if j < i {
                    assert(less[j].0 == k);
                }
            }
            if crate::bytemap::keyed_by(less, k) {
                let j = choose|j: int| 0 <= j < less.len() && (#[trigger] less[j]).0 == k;
                assert(more[j].0 == k);
            }
            assert(more[i].0 == list[i].0);
        }
        assert forall|k: Seq<u8>| #[trigger] map_of(more).contains_key(k) implies map_of(more)[k]
            == u[k] by {
            let j = choose|j: int| 0 <= j < more.len() && (#[trigger] more[j]).0 == k;
            lemma_lookup(more, j);
            if j < i {
                assert(less[j] == more[j]);
                lemma_lookup(less, j);
                crate::bytemap::lemma_lt_irreflexive(k);
                assert(crate::bytemap::bytes_lt(list[j].0, list[i].0));
            }
        }
        assert(map_of(more) =~= u);
        assert(list.skip(i)[0] == list[i]);
    }
}

proof fn lemma_take_sorted(list: Pairs, i: int)
    requires
        sorted(list),
        0 <= i <= list.len(),
    ensures
        sorted(list.take(i)),
{
    let t = list.take(i);
    assert forall|a: int, b: int| 0 <= a < b < t.len() implies crate::bytemap::bytes_lt(
        (#[trigger] t[a]).0,
        (#[trigger] t[b]).0,
    ) by {
        assert(crate::bytemap::bytes_lt(list[a].0, list[b].0));
    }
}

/// Reading written metadata gives it back.
pub proof fn law_user_data(list: Pairs)
    requires
        sorted(list),
        list.len() <= u64::MAX,
        forall|i: int|
            0 <= i < list.len() ==> (#[trigger] list[i]).0.len() <= u64::MAX && list[i].1.len()
                <= u64::MAX,
    ensures
        parsed_data(data_bytes(map_of(list))) == Some(map_of(list)),
{
    let s = data_bytes(map_of(list));
    lemma_listed(list);
    lemma_le64(list.len() as u64);
    assert(s.subrange(0, 8) =~= le64(list.len() as u64));
    assert(s.skip(8) =~= pairs_bytes(list));
    lemma_load(s, 8, list, Map::empty());
    assert(list.take(0) =~= Seq::empty());
    assert(map_of(list.take(0)) =~= Map::<Seq<u8>, Seq<u8>>::empty());
    assert(list.skip(0) =~= list);
    lemma_filled(list, 0);
}

} // verus!
