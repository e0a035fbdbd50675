//! Log-structured `u64`-keyed store over a synchronous random-access file.
//!
//! Each mutation appends a record `[key: u64 LE][kind: u8][len: u32 LE][value]` to the
//! end of the file. An in-memory index maps `key -> (value offset, length)`; a read
//! seeks and reads the value; a delete appends a tombstone. When dead bytes exceed half
//! the file, [`compact`](LogStore::compact) rewrites it with only the live records.
use std::collections::BTreeMap;
use vstd::prelude::*;
use crate::bytes::{get_u32, get_u64, le32, le64, le_value, lemma_le32, lemma_le64, put_all, put_u32, put_u64};
use crate::storage::{Contents, Store};
use crate::table::{ascending, keys_of, lemma_keys_of, sorted_keys};

verus! {

broadcast use vstd::std_specs::btree::group_btree_axioms;

/// Bytes of a record before its value: key, kind and length.
pub const HDR: usize = 13;

/// The kind of a record that sets a value.
pub const KIND_PUT: u8 = 0;

/// The kind of a record that drops one.
pub const KIND_DEL: u8 = 1;

/// A file up to this size is not compacted of itself.
pub const MIN_COMPACT: u64 = 4096;

/// A file's bytes after `data` is written at `offset`; a gap is filled with zeroes.
pub open spec fn written(image: Seq<u8>, offset: int, data: Seq<u8>) -> Seq<u8> {
    Seq::new(
        if offset + data.len() > image.len() {
            (offset + data.len()) as nat
        } else {
            image.len()
        },
        |i: int|
            if offset <= i < offset + data.len() {
                data[i - offset]
            } else if i < image.len() {
                image[i]
            } else {
                0
            },
    )
}

/// A synchronous random-access byte file: the minimal interface that the log needs.
///
/// An operation that fails promises nothing of the file that it leaves behind.
pub trait SyncFile {
    /// What an operation fails with.
    type Error: core::fmt::Debug;

    /// The file's bytes.
    open spec fn image(&self) -> Seq<u8> {
        arbitrary()
    }

    /// Whether no operation ever fails.
    open spec fn sure() -> bool {
        false
    }

    /// The file's length.
    fn size(&self) -> (r: Result<u64, Self::Error>)
        ensures
            r matches Ok(n) ==> n == self.image().len(),
            Self::sure() ==> r is Ok,
    ;

    /// Read `buf.len()` bytes starting at `offset`. A file that never fails is not read from
    /// past its end.
    fn read_at(&self, offset: u64, buf: &mut [u8]) -> (r: Result<(), Self::Error>)
        requires
            Self::sure() ==> offset <= self.image().len(),
        ensures
            final(buf)@.len() == old(buf)@.len(),
            r is Ok && offset + old(buf)@.len() <= self.image().len() ==> final(buf)@ == self.image().subrange(
                offset as int,
                offset + old(buf)@.len(),
            ),
            Self::sure() ==> r is Ok,
    ;

    /// Write `buf` at `offset`; a gap before it is filled with zeroes. A file that never fails
    /// is not written so far past its end that memory could not hold it.
    fn write_at(&mut self, offset: u64, buf: &[u8]) -> (r: Result<(), Self::Error>)
        requires
            Self::sure() ==> offset <= old(self).image().len() || offset + buf@.len()
                <= usize::MAX,
        ensures
            r is Ok ==> offset + buf@.len() <= u64::MAX && final(self).image() == written(
                old(self).image(),
                offset as int,
                buf@,
            ),
            Self::sure() ==> r is Ok,
    ;

    /// Cut the file to `size` bytes, if it has as many.
    fn truncate(&mut self, size: u64) -> (r: Result<(), Self::Error>)
        ensures
            r is Ok && size <= old(self).image().len() ==> final(self).image() == old(self).image().take(size as int),
            Self::sure() ==> r is Ok,
    ;

    /// Make what was written durable.
    fn flush(&mut self) -> (r: Result<(), Self::Error>)
        ensures
            r is Ok ==> final(self).image() == old(self).image(),
            Self::sure() ==> r is Ok,
    ;
}

/// A record's bytes.
pub open spec fn record(key: u64, kind: u8, value: Seq<u8>) -> Seq<u8> {
    le64(key) + seq![kind] + le32(value.len() as u32) + value
}

/// The length of the whole record at `pos`, if one is there: its header and value lie
/// within the bytes and its kind is known.
pub open spec fn record_len(s: Seq<u8>, pos: int) -> Option<nat> {
    if pos + HDR > s.len() {
        None
    } else {
        let n = HDR as nat + le_value(s.subrange(pos + 9, pos + 13));
        if pos + n > s.len() || (s[pos + 8] != KIND_PUT && s[pos + 8] != KIND_DEL) {
            None
        } else {
            Some(n)
        }
    }
}

/// What is held once the record at `pos`, `n` bytes long, is applied to `m`.
pub open spec fn applied(m: Contents, s: Seq<u8>, pos: int, n: nat) -> Contents {
    let key = le_value(s.subrange(pos, pos + 8)) as u64;
    if s[pos + 8] == KIND_PUT {
        m.insert(key, s.subrange(pos + HDR, pos + n))
    } else {
        m.remove(key)
    }
}

/// What is held once the records from `pos` on are applied to `m`, and where the last
/// whole record ends.
pub open spec fn replay(s: Seq<u8>, pos: int, m: Contents) -> (Contents, int)
    decreases s.len() - pos,
{
    match record_len(s, pos) {
        None => (m, pos),
        Some(n) => replay(s, pos + n, applied(m, s, pos, n)),
    }
}

/// What a file with these bytes holds.
pub open spec fn replayed(s: Seq<u8>) -> Contents {
    replay(s, 0, Map::empty()).0
}

/// Whether every record from `pos` on that drops a value carries none itself.
pub open spec fn bare(s: Seq<u8>, pos: int) -> bool
    decreases s.len() - pos,
{
    match record_len(s, pos) {
        None => true,
        Some(n) => (s[pos + 8] == KIND_DEL ==> n == HDR) && bare(s, pos + n),
    }
}

/// The lengths of what is held.
pub open spec fn sizes(m: Contents) -> Map<u64, nat> {
    m.map_values(|v: Seq<u8>| v.len())
}

/// The bytes that the records of values of these lengths take.
pub open spec fn live_bytes(m: Map<u64, nat>) -> nat
    decreases m.dom().len(),
    when m.dom().finite()
{
    if m.dom().is_empty() {
        0
    } else {
        let k = m.dom().choose();
        HDR as nat + m[k] + live_bytes(m.remove(k))
    }
}

/// One put record per key, in order.
pub open spec fn records(m: Contents, keys: Seq<u64>) -> Seq<u8>
    decreases keys.len(),
{
    if keys.len() == 0 {
        Seq::empty()
    } else {
        records(m, keys.drop_last()) + record(keys.last(), KIND_PUT, m[keys.last()])
    }
}

proof fn lemma_live_remove(m: Map<u64, nat>, k: u64)
    requires
        m.dom().finite(),
        m.contains_key(k),
    ensures
        live_bytes(m) == HDR + m[k] + live_bytes(m.remove(k)),
    decreases m.dom().len(),
{
    let c = m.dom().choose();
    assert(m.dom().contains(c));
    if c != k {
        let less = m.remove(c);
        lemma_live_remove(less, k);
        lemma_live_remove(m.remove(k), c);
        assert(m.remove(k).remove(c) =~= m.remove(c).remove(k));
    }
}

pub proof fn lemma_live_insert(m: Map<u64, nat>, k: u64, n: nat)
    requires
        m.dom().finite(),
    ensures
        live_bytes(m.insert(k, n)) == HDR + n + live_bytes(m.remove(k)),
        !m.contains_key(k) ==> live_bytes(m.remove(k)) == live_bytes(m),
        m.contains_key(k) ==> live_bytes(m) == HDR + m[k] + live_bytes(m.remove(k)),
{
    let more = m.insert(k, n);
    lemma_live_remove(more, k);
    assert(more.remove(k) =~= m.remove(k));
    if m.contains_key(k) {
        lemma_live_remove(m, k);
    } else {
        assert(m.remove(k) =~= m);
    }
}

/// A record's fields can be read back.
proof fn lemma_record(key: u64, kind: u8, value: Seq<u8>)
    ensures
        record(key, kind, value).len() == HDR + value.len(),
        record(key, kind, value).subrange(0, 8) == le64(key),
        record(key, kind, value)[8] == kind,
        record(key, kind, value).subrange(9, 13) == le32(value.len() as u32),
        record(key, kind, value).subrange(13, HDR + value.len()) == value,
        le_value(le64(key)) == key,
        value.len() <= u32::MAX ==> le_value(le32(value.len() as u32)) == value.len(),
{
    lemma_le64(key);
    lemma_le32(value.len() as u32);
    let r = record(key, kind, value);
    assert(r.subrange(0, 8) =~= le64(key));
    assert(r.subrange(9, 13) =~= le32(value.len() as u32));
    assert(r.subrange(13, HDR + value.len()) =~= value);
}

/// Bytes that are all whole records, followed by one more record.
pub proof fn lemma_replay_append(
    s: Seq<u8>,
    pos: int,
    m: Contents,
    key: u64,
    kind: u8,
    value: Seq<u8>,
)
    requires
        0 <= pos <= s.len(),
        replay(s, pos, m).1 == s.len(),
        value.len() <= u32::MAX,
        kind == KIND_PUT || kind == KIND_DEL,
    ensures
        replay(s + record(key, kind, value), pos, m) == (
            if kind == KIND_PUT {
                replay(s, pos, m).0.insert(key, value)
            } else {
                replay(s, pos, m).0.remove(key)
            },
            (s + record(key, kind, value)).len() as int,
        ),
        bare(s, pos) && (kind == KIND_PUT || value.len() == 0) ==> bare(
            s + record(key, kind, value),
            pos,
        ),
    decreases s.len() - pos,
{
    let r = record(key, kind, value);
    let t = s + r;
    lemma_record(key, kind, value);
    match record_len(s, pos) {
        Some(n) => {
            assert(t.subrange(pos + 9, pos + 13) =~= s.subrange(pos + 9, pos + 13));
            assert(record_len(t, pos) == Some(n));
            assert(t.subrange(pos, pos + 8) =~= s.subrange(pos, pos + 8));
            assert(t.subrange(pos + HDR, pos + n) =~= s.subrange(pos + HDR, pos + n));
            assert(applied(m, t, pos, n) == applied(m, s, pos, n));
            lemma_replay_append(s, pos + n, applied(m, s, pos, n), key, kind, value);
        },
        None => {
            assert(pos == s.len());
            assert(t.subrange(pos, pos + 8) =~= r.subrange(0, 8));
            assert(t.subrange(pos + 9, pos + 13) =~= r.subrange(9, 13));
            assert(t[pos + 8] == r[8]);
            let n = (HDR + value.len()) as nat;
            assert(record_len(t, pos) == Some(n));
            assert(t.subrange(pos + HDR, pos + n) =~= r.subrange(13, HDR + value.len()));
            let after = applied(m, t, pos, n);
            assert(record_len(t, pos + n) is None);
            assert(replay(t, pos + n, after) == (after, pos + n));
            assert(bare(t, pos + n));
        },
    }
}

/// A file of one record per key replays to those keys.
proof fn lemma_replay_records(m: Contents, keys: Seq<u64>)
    requires
        forall|j: int| 0 <= j < keys.len() ==> m[#[trigger] keys[j]].len() <= u32::MAX,
        forall|j: int| 0 <= j < keys.len() ==> m.contains_key(#[trigger] keys[j]),
    ensures
        replay(records(m, keys), 0, Map::empty()) == (
            m.restrict(keys.to_set()),
            records(m, keys).len() as int,
        ),
        bare(records(m, keys), 0),
    decreases keys.len(),
{
    if keys.len() == 0 {
        assert(m.restrict(keys.to_set()) =~= Map::<u64, Seq<u8>>::empty());
        assert(record_len(records(m, keys), 0) is None);
    } else {
        let rest = keys.drop_last();
        let k = keys.last();
        assert forall|j: int| 0 <= j < rest.len() implies m[#[trigger] rest[j]].len() <= u32::MAX
            && m.contains_key(rest[j]) by {
            assert(rest[j] == keys[j]);
        }
        lemma_replay_records(m, rest);
        assert(m[keys[keys.len() - 1]].len() <= u32::MAX);
        assert(m.contains_key(keys[keys.len() - 1]));
        lemma_replay_append(records(m, rest), 0, Map::empty(), k, KIND_PUT, m[k]);
        assert(keys =~= rest.push(k));
        assert forall|x: u64| keys.to_set().contains(x) == rest.to_set().insert(k).contains(x) by {
            if keys.contains(x) {
                let j = choose|j: int| 0 <= j < keys.len() && keys[j] == x;
                if j < rest.len() {
                    assert(rest[j] == x);
                }
            }
            if rest.contains(x) {
                let j = choose|j: int| 0 <= j < rest.len() && rest[j] == x;
                assert(keys[j] == x);
            }
            assert(keys[keys.len() - 1] == k);
        }
        assert(keys.to_set() =~= rest.to_set().insert(k));
        assert(m.restrict(keys.to_set()) =~= m.restrict(rest.to_set()).insert(k, m[k]));
    }
}

/// How long a file of one record per key is.
proof fn lemma_records_len(m: Contents, keys: Seq<u64>)
    requires
        ascending(keys),
        forall|j: int| 0 <= j < keys.len() ==> m[#[trigger] keys[j]].len() <= u32::MAX,
    ensures
        keys.to_set().subset_of(m.dom()) ==> records(m, keys).len() == live_bytes(
            sizes(m.restrict(keys.to_set())),
        ),
    decreases keys.len(),
{
    if keys.len() == 0 {
        assert(sizes(m.restrict(keys.to_set())).dom() =~= Set::<u64>::empty());
    } else if keys.to_set().subset_of(m.dom()) {
        let rest = keys.drop_last();
        let k = keys.last();
        assert forall|j: int| 0 <= j < rest.len() implies m[#[trigger] rest[j]].len() <= u32::MAX by {
            assert(rest[j] == keys[j]);
        }
        assert(m[keys[keys.len() - 1]].len() <= u32::MAX);
        lemma_records_len(m, rest);
        lemma_record(k, KIND_PUT, m[k]);
        assert forall|x: u64| keys.to_set().contains(x) == rest.to_set().insert(k).contains(x) by {
            if keys.contains(x) {
                let j = choose|j: int| 0 <= j < keys.len() && keys[j] == x;
                if j < rest.len() {
                    assert(rest[j] == x);
                }
            }
            if rest.contains(x) {
                let j = choose|j: int| 0 <= j < rest.len() && rest[j] == x;
                assert(keys[j] == x);
            }
            assert(keys[keys.len() - 1] == k);
        }
        assert(keys.to_set() =~= rest.to_set().insert(k));
        let part = m.restrict(rest.to_set());
        assert(rest.to_set().subset_of(m.dom())) by {
            assert forall|x: u64| rest.to_set().contains(x) implies m.dom().contains(x) by {
                assert(keys.to_set().contains(x));
            }
        }
        assert(sizes(m.restrict(keys.to_set())) =~= sizes(part).insert(k, m[k].len()));
        assert(sizes(part).dom() =~= rest.to_set());
        if part.contains_key(k) {
            let j = choose|j: int| 0 <= j < rest.len() && rest[j] == k;
            assert(keys[j] == k && keys[keys.len() - 1] == k);
        }
        lemma_live_insert(sizes(part), k, m[k].len());
    }
}

/// A log-structured store over a [`SyncFile`].
pub struct LogStore<F: SyncFile> {
    file: F,
    index: BTreeMap<u64, (u64, u32)>,
    end: u64,
    dead: u64,
    /// Whether no operation has failed.
    fine: Ghost<bool>,
}

/// A record's bytes.
fn encode_record(key: u64, kind: u8, value: &[u8]) -> (r: Vec<u8>)
    ensures
        r@ == record(key, kind, value@),
{
    let mut r: Vec<u8> = Vec::new();
    put_u64(&mut r, key);
    r.push(kind);
    put_u32(&mut r, value.len() as u32);
    put_all(&mut r, value);
    assert(r@ =~= record(key, kind, value@));
    r
}

/// What an index over a file's bytes holds.
pub open spec fn indexed(index: Map<u64, (u64, u32)>, image: Seq<u8>) -> Contents {
    index.map_values(|e: (u64, u32)| image.subrange(e.0 as int, e.0 + e.1))
}

/// The lengths of what an index refers to.
pub open spec fn index_sizes(index: Map<u64, (u64, u32)>) -> Map<u64, nat> {
    index.map_values(|e: (u64, u32)| e.1 as nat)
}

/// Whether every entry of an index lies in the first `end` bytes.
pub open spec fn index_within(index: Map<u64, (u64, u32)>, end: int) -> bool {
    forall|k: u64| #[trigger] index.contains_key(k) ==> index[k].0 + index[k].1 <= end
}

/// The index reads the same from any file that begins alike.
proof fn lemma_indexed_prefix(index: Map<u64, (u64, u32)>, a: Seq<u8>, b: Seq<u8>, end: int)
    requires
        index_within(index, end),
        end <= a.len(),
        end <= b.len(),
        a.take(end) == b.take(end),
    ensures
        indexed(index, a) == indexed(index, b),
{
    let x = indexed(index, a);
    let y = indexed(index, b);
    assert forall|k: u64| #[trigger] x.contains_key(k) implies x[k] == y[k] by {
        assert(index.contains_key(k));
        let lo = index[k].0 as int;
        let hi = index[k].0 + index[k].1;
        assert(a.subrange(lo, hi) =~= a.take(end).subrange(lo, hi));
        assert(b.subrange(lo, hi) =~= b.take(end).subrange(lo, hi));
    }
    assert(x =~= y);
}

/// An index within its file reads values of the lengths it says.
proof fn lemma_index_sizes(index: Map<u64, (u64, u32)>, image: Seq<u8>)
    requires
        index_within(index, image.len() as int),
    ensures
        sizes(indexed(index, image)) == index_sizes(index),
{
    let x = sizes(indexed(index, image));
    let y = index_sizes(index);
    assert forall|k: u64| #[trigger] x.contains_key(k) implies x[k] == y[k] by {
        assert(index.contains_key(k));
    }
    assert(x =~= y);
}

impl<F: SyncFile> LogStore<F> {
    /// The backing file's bytes.
    pub closed spec fn image(&self) -> Seq<u8> {
        self.file.image()
    }

    /// The length of the log.
    pub closed spec fn length(&self) -> nat {
        self.end as nat
    }

    /// The bytes that dead records take.
    pub closed spec fn waste(&self) -> nat {
        self.dead as nat
    }

    /// Whether the file holds the log and nothing else: no operation has failed.
    pub open spec fn faithful(&self) -> bool {
        &&& replay(self.image(), 0, Map::empty()) == (self.contents(), self.image().len() as int)
        &&& self.length() == self.image().len()
    }

    /// Whether every byte of the log is live or known to be dead.
    pub open spec fn tight(&self) -> bool {
        &&& bare(self.image(), 0)
        &&& self.waste() + live_bytes(sizes(self.contents())) == self.length()
    }

    /// Whether dead bytes are at most half of a file that is worth compacting.
    pub open spec fn settled(&self) -> bool {
        self.length() <= MIN_COMPACT || 2 * self.waste() <= self.length()
    }

    /// Open over `file`, replaying its records to rebuild the index. A partial trailing
    /// record, as an interrupted write leaves it, is dropped, and so is what follows a
    /// record of an unknown kind: the file is cut to the last complete record.
    pub fn open(file: F) -> (r: Result<Self, F::Error>)
        requires
            file.image().len() <= usize::MAX,
        ensures
            r matches Ok(s) ==> {
                &&& s.wf()
                &&& s.intact()
                &&& s.faithful()
                &&& s.contents() == replayed(file.image())
                &&& s.image() == file.image().take(replay(file.image(), 0, Map::empty()).1)
                &&& bare(file.image(), 0) ==> s.tight()
            },
            F::sure() ==> r is Ok,
    {
        let mut file: F = file;
        let ghost first = file.image();
        let size: u64 = match file.size() {
            Ok(n) => n,
            Err(e) => return Err(e),
        };
        let mut buf: Vec<u8> = vec![0u8; size as usize];
        if size > 0 {
            match file.read_at(0, buf.as_mut_slice()) {
                Ok(()) => {},
                Err(e) => return Err(e),
            }
        }
        assert(buf@ =~= first);
        let mut index: BTreeMap<u64, (u64, u32)> = BTreeMap::new();
        let mut dead: u64 = 0;
        let mut pos: usize = 0;
        let mut whole: bool = true;
        proof {
            assert(indexed(index@, first) =~= Map::<u64, Seq<u8>>::empty());
        }
        while whole && buf.len() - pos >= HDR
            invariant
                buf@ == first,
                pos <= buf.len(),
                index_within(index@, pos as int),
                index@.dom().finite(),
                dead + live_bytes(index_sizes(index@)) <= pos,
                bare(first, 0) ==> dead + live_bytes(index_sizes(index@)) == pos && bare(
                    first,
                    pos as int,
                ),
                !whole ==> record_len(first, pos as int) is None,
                replay(first, 0, Map::empty()) == replay(
                    first,
                    pos as int,
                    indexed(index@, first),
                ),
            decreases
                    buf.len() - pos + if whole {
                        1int
                    } else {
                        0
                    },
        {
            let ghost m = indexed(index@, first);
            let key: u64 = get_u64(buf.as_slice(), pos);
            let kind: u8 = buf[pos + 8];
            let len: u32 = get_u32(buf.as_slice(), pos + 9);
            let ghost was_sizes = index_sizes(index@);
            proof {
                assert(m.dom() =~= index@.dom());
                assert(was_sizes.dom() =~= index@.dom());
            }
            if buf.len() - pos - HDR < len as usize {
                whole = false;
            } else if kind == KIND_PUT {
                let at: u64 = (pos + HDR) as u64;
                proof {
                    lemma_live_insert(was_sizes, key, len as nat);
                    assert(record_len(first, pos as int) == Some((HDR + len) as nat));
                }
                match index.insert(key, (at, len)) {
                    Some(was) => {
                        dead = dead + (HDR as u64 + was.1 as u64);
                    },
                    None => {},
                }
                proof {
                    assert(indexed(index@, first) =~= m.insert(
                        key,
                        first.subrange(pos + HDR, pos + HDR + len),
                    ));
                    assert(index_sizes(index@) =~= was_sizes.insert(key, len as nat));
                }
                pos = pos + HDR + len as usize;
            } else if kind == KIND_DEL {
                proof {
                    lemma_live_insert(was_sizes, key, 0);
                    assert(record_len(first, pos as int) == Some((HDR + len) as nat));
                }
                match index.remove(&key) {
                    Some(was) => {
                        dead = dead + (HDR as u64 + was.1 as u64);
                    },
                    None => {},
                }
                dead = dead + HDR as u64;
                proof {
                    assert(indexed(index@, first) =~= m.remove(key));
                    assert(index_sizes(index@) =~= was_sizes.remove(key));
                }
                pos = pos + HDR + len as usize;
            } else {
                whole = false;
            }
        }
        proof {
            assert(record_len(first, pos as int) is None);
        }
        let end: u64 = pos as u64;
        if end < size {
            match file.truncate(end) {
                Ok(()) => {},
                Err(e) => return Err(e),
            }
        }
        let s: LogStore<F> = LogStore { file, index, end, dead, fine: Ghost(true) };
        proof {
            assert(s.image() =~= first.take(pos as int));
            assert(first.take(pos as int).take(pos as int) =~= first.take(pos as int));
            lemma_indexed_prefix(index@, first, s.image(), pos as int);
            lemma_replay_prefix(first, 0, Map::empty());
            lemma_index_sizes(index@, s.image());
        }
        Ok(s)
    }
}

/// The bytes up to the last whole record replay alike, to their end.
proof fn lemma_replay_prefix(s: Seq<u8>, pos: int, m: Contents)
    requires
        0 <= pos <= s.len(),
    ensures
        pos <= replay(s, pos, m).1 <= s.len(),
        replay(s.take(replay(s, pos, m).1), pos, m) == replay(s, pos, m),
        bare(s, pos) ==> bare(s.take(replay(s, pos, m).1), pos),
    decreases s.len() - pos,
{
    match record_len(s, pos) {
        None => {
            assert(record_len(s.take(pos), pos) is None);
        },
        Some(n) => {
            let next = applied(m, s, pos, n);
            lemma_replay_prefix(s, pos + n, next);
            let t = s.take(replay(s, pos, m).1);
            assert(t.subrange(pos + 9, pos + 13) =~= s.subrange(pos + 9, pos + 13));
            assert(t.subrange(pos, pos + 8) =~= s.subrange(pos, pos + 8));
            assert(t.subrange(pos + HDR, pos + n) =~= s.subrange(pos + HDR, pos + n));
            assert(record_len(t, pos) == Some(n));
            assert(applied(m, t, pos, n) == next);
        },
    }
}

impl<F: SyncFile> Store for LogStore<F> {
    type Error = F::Error;

    closed spec fn wf(&self) -> bool {
        &&& F::sure() || self.fine@ ==> self.end <= self.file.image().len()
        &&& index_within(self.index@, self.end as int)
        &&& self.index@.dom().finite()
        &&& self.dead + live_bytes(index_sizes(self.index@)) <= self.end
    }

    closed spec fn intact(&self) -> bool {
        self.fine@
    }

    closed spec fn contents(&self) -> Contents {
        indexed(self.index@, self.file.image())
    }

    open spec fn count(&self) -> nat {
        self.contents().dom().len()
    }

    open spec fn fits(n: nat) -> bool {
        n <= u32::MAX
    }

    open spec fn sure() -> bool {
        F::sure()
    }

    fn put(&mut self, key: u64, value: &[u8]) -> (r: Result<(), F::Error>)
        ensures
            r is Ok ==> final(self).settled(),
            r is Ok && old(self).intact() && Self::fits(value@.len()) && old(self).faithful()
                ==> final(self).faithful(),
            r is Ok && old(self).intact() && Self::fits(value@.len()) && old(self).faithful()
                && old(self).tight() ==> final(self).tight(),
    {
        let len: u32 = value.len() as u32;
        proof {
            let n = value.len() as u64;
            assert((n as u32) as u64 <= n) by (bit_vector);
        }
        let rec: Vec<u8> = encode_record(key, KIND_PUT, value);
        let ghost m = self.contents();
        let ghost image = self.file.image();
        let ghost was_sizes = index_sizes(self.index@);
        proof {
            lemma_record(key, KIND_PUT, value@);
            assert(was_sizes.dom() =~= self.index@.dom());
            lemma_live_insert(was_sizes, key, len as nat);
        }
        match self.file.write_at(self.end, rec.as_slice()) {
            Ok(()) => {},
            Err(e) => {
                self.fine = Ghost(false);
                return Err(e);
            },
        }
        proof {
            if old(self).intact() {
                assert(image.take(self.end as int) =~= self.file.image().take(self.end as int));
                lemma_indexed_prefix(self.index@, image, self.file.image(), self.end as int);
                lemma_index_sizes(self.index@, image);
            }
            assert(self.file.image().subrange(self.end + HDR, self.end + rec@.len())
                =~= rec@.subrange(HDR as int, HDR + value@.len()));
            if old(self).intact() && old(self).faithful() && Self::fits(value@.len()) {
                assert(self.file.image() =~= image + rec@);
                lemma_replay_append(image, 0, Map::empty(), key, KIND_PUT, value@);
            }
        }
        let at: u64 = self.end + HDR as u64;
        match self.index.insert(key, (at, len)) {
            Some(was) => {
                self.dead = self.dead + (HDR as u64 + was.1 as u64);
            },
            None => {},
        }
        self.end = self.end + rec.len() as u64;
        proof {
            assert(index_sizes(self.index@) =~= was_sizes.insert(key, len as nat));
            lemma_index_sizes(self.index@, self.file.image());
            if old(self).intact() {
                assert(self.contents() =~= m.insert(key, self.contents()[key]));
                if Self::fits(value@.len()) {
                    assert(self.contents()[key] == value@);
                }
            }
        }
        match self.file.flush() {
            Ok(()) => {},
            Err(e) => {
                self.fine = Ghost(false);
                return Err(e);
            },
        }
        self.maybe_compact()
    }

    fn get(&self, key: u64) -> (r: Result<Option<Vec<u8>>, F::Error>) {
        match self.index.get(&key) {
            None => Ok(None),
            Some(e) => {
                assert(self.index@.contains_key(key));
                match self.read_entry(e.0, e.1) {
                    Ok(v) => Ok(Some(v)),
                    Err(e) => Err(e),
                }
            },
        }
    }

    fn delete(&mut self, key: u64) -> (r: Result<(), F::Error>)
        ensures
            r is Ok && old(self).settled() ==> final(self).settled(),
            r is Ok && old(self).intact() && old(self).faithful() ==> final(self).faithful(),
            r is Ok && old(self).intact() && old(self).faithful() && old(self).tight() ==> final(self).tight(),
    {
        let ghost m = self.contents();
        let ghost image = self.file.image();
        let ghost was_sizes = index_sizes(self.index@);
        proof {
            lemma_record(key, KIND_DEL, Seq::empty());
            assert(was_sizes.dom() =~= self.index@.dom());
            lemma_live_insert(was_sizes, key, 0);
        }
        match self.index.remove(&key) {
            None => {
                assert(self.index@ =~= old(self).index@);
                assert(m.remove(key) =~= m);
            },
            Some(was) => {
                assert(index_sizes(self.index@) =~= was_sizes.remove(key));
                let empty: [u8; 0] = [];
                let rec: Vec<u8> = encode_record(key, KIND_DEL, &empty);
                assert(empty@ =~= Seq::<u8>::empty());
                match self.file.write_at(self.end, rec.as_slice()) {
                    Ok(()) => {},
                    Err(e) => {
                        self.fine = Ghost(false);
                        return Err(e);
                    },
                }
                proof {
                    if old(self).intact() {
                        assert(image.take(self.end as int) =~= self.file.image().take(
                            self.end as int,
                        ));
                        lemma_indexed_prefix(self.index@, image, self.file.image(), self.end as int);
                        lemma_index_sizes(old(self).index@, image);
                    }
                    if old(self).intact() && old(self).faithful() {
                        assert(self.file.image() =~= image + rec@);
                        lemma_replay_append(
                            image,
                            0,
                            Map::empty(),
                            key,
                            KIND_DEL,
                            Seq::<u8>::empty(),
                        );
                    }
                }
                self.end = self.end + rec.len() as u64;
                self.dead = self.dead + (HDR as u64 + was.1 as u64 + HDR as u64);
                proof {
                    lemma_index_sizes(self.index@, self.file.image());
                    if old(self).intact() {
                        assert(self.contents() =~= m.remove(key));
                    }
                }
                match self.file.flush() {
                    Ok(()) => {},
                    Err(e) => {
                        self.fine = Ghost(false);
                        return Err(e);
                    },
                }
                match self.maybe_compact() {
                    Ok(()) => {},
                    Err(e) => {
                        self.fine = Ghost(false);
                        return Err(e);
                    },
                }
            },
        }
        Ok(())
    }

    fn len(&self) -> (r: Result<u64, F::Error>)
        ensures
            r is Ok,
    {
        assert(self.contents().dom() =~= self.index@.dom());
        Ok(self.index.len() as u64)
    }
}

impl<F: SyncFile> LogStore<F> {
    /// Current length of the log in bytes.
    pub fn file_len(&self) -> (n: u64)
        ensures
            n == self.length(),
    {
        self.end
    }

    /// Read the value that an entry of the index refers to.
    fn read_entry(&self, off: u64, len: u32) -> (r: Result<Vec<u8>, F::Error>)
        requires
            self.wf(),
            off + len <= self.end,
        ensures
            match r {
                Ok(v) => v@.len() == len && (self.intact() ==> v@ == self.image().subrange(
                    off as int,
                    off + len,
                )),
                Err(_) => !F::sure(),
            },
    {
        let mut v: Vec<u8> = vec![0u8; len as usize];
        if len > 0 {
            match self.file.read_at(off, v.as_mut_slice()) {
                Ok(()) => {},
                Err(e) => return Err(e),
            }
        }
        proof {
            if self.intact() {
                assert(v@ =~= self.image().subrange(off as int, off + len));
            }
        }
        Ok(v)
    }

    /// Rewrite the file with only the live records, in key order, reclaiming dead space.
    pub fn compact(&mut self) -> (r: Result<(), F::Error>)
        requires
            old(self).wf(),
        ensures
            final(self).wf(),
            final(self).intact() ==> old(self).intact(),
            r is Ok ==> {
                &&& final(self).faithful()
                &&& final(self).tight()
                &&& final(self).settled()
                &&& final(self).waste() == 0
            },
            r is Err ==> !final(self).intact(),
            r is Ok && old(self).intact() ==> {
                &&& final(self).intact()
                &&& final(self).contents() == old(self).contents()
                &&& final(self).image() == records(
                    old(self).contents(),
                    keys_of(old(self).contents()),
                )
            },
            F::sure() ==> r is Ok,
    {
        let ghost was = self.contents();
        let keys: Vec<u64> = sorted_keys(&self.index);
        let mut fresh: Vec<u8> = Vec::new();
        let mut index: BTreeMap<u64, (u64, u32)> = BTreeMap::new();
        let mut i: usize = 0;
        let ghost mut m: Contents = Map::empty();
        proof {
            assert(keys@.take(0) =~= Seq::<u64>::empty());
            assert(indexed(index@, fresh@) =~= m);
            assert(keys@.take(0).to_set() =~= Set::<u64>::empty());
        }
        while i < keys.len()
            invariant
                i <= keys.len(),
                self.wf(),
                *self == *old(self),
                was == self.contents(),
                ascending(keys@),
                keys@.to_set() == self.index@.dom(),
                m.dom() == keys@.take(i as int).to_set(),
                forall|k: u64| #[trigger] m.contains_key(k) ==> m[k].len() == self.index@[k].1,
                self.intact() ==> forall|k: u64| #[trigger]
                    m.contains_key(k) ==> m[k] == was[k],
                fresh@ == records(m, keys@.take(i as int)),
                index_within(index@, fresh@.len() as int),
                index@.dom().finite(),
                indexed(index@, fresh@) == m,
            decreases keys.len() - i,
        {
            let key: u64 = keys[i];
            proof {
                assert(keys@.contains(key));
                assert(keys@.to_set().contains(key));
                assert(self.index@.contains_key(key));
            }
            let value: Vec<u8> = match self.index.get(&key) {
                Some(e) => match self.read_entry(e.0, e.1) {
                    Ok(v) => v,
                    Err(e) => {
                        self.fine = Ghost(false);
                        return Err(e);
                    },
                },
                None => Vec::new(),
            };
            assert(value@.len() == self.index@[key].1);
            let rec: Vec<u8> = encode_record(key, KIND_PUT, value.as_slice());
            proof {
                lemma_record(key, KIND_PUT, value@);
            }
            let ghost before = fresh@;
            put_all(&mut fresh, rec.as_slice());
            let at: u64 = (fresh.len() - value.len()) as u64;
            let ghost shorter = index@;
            let ghost less_m = m;
            index.insert(key, (at, value.len() as u32));
            proof {
                let less = keys@.take(i as int);
                let more = keys@.take(i + 1);
                m = m.insert(key, value@);
                assert(more.drop_last() =~= less);
                assert(!less.contains(key)) by {
                    if less.contains(key) {
                        let j = choose|j: int| 0 <= j < less.len() && less[j] == key;
                        assert(keys@[j] == keys@[i as int]);
                    }
                }
                lemma_records_same(less_m, m, less, key);
                assert(fresh@ == records(m, more));
                assert(before.take(before.len() as int) =~= fresh@.take(before.len() as int));
                lemma_indexed_prefix(shorter, before, fresh@, before.len() as int);
                assert(fresh@.subrange(at as int, at + value@.len()) =~= rec@.subrange(
                    HDR as int,
                    HDR + value@.len(),
                ));
                assert(more =~= less.push(key));
                lemma_push_set(less, key);
                assert(indexed(index@, fresh@) =~= m);
                assert(m.dom() =~= more.to_set());
            }
            i = i + 1;
        }
        proof {
            assert(keys@.take(i as int) =~= keys@);
            if self.intact() {
                assert(m =~= was);
            }
            lemma_keys_of(m, keys@);
            assert(m.restrict(keys@.to_set()) =~= m);
            assert forall|j: int| 0 <= j < keys@.len() implies m[#[trigger] keys@[j]].len()
                <= u32::MAX && m.contains_key(keys@[j]) by {
                assert(keys@.contains(keys@[j]));
                assert(keys@.to_set().contains(keys@[j]));
                assert(m.contains_key(keys@[j]));
            }
            lemma_replay_records(m, keys@);
            lemma_records_len(m, keys@);
            lemma_index_sizes(index@, fresh@);
        }
        match self.file.truncate(0) {
            Ok(()) => {},
            Err(e) => {
                self.fine = Ghost(false);
                return Err(e);
            },
        }
        if fresh.len() > 0 {
            match self.file.write_at(0, fresh.as_slice()) {
                Ok(()) => {},
                Err(e) => {
                    self.fine = Ghost(false);
                    return Err(e);
                },
            }
        }
        assert(self.file.image() =~= fresh@);
        match self.file.flush() {
            Ok(()) => {},
            Err(e) => {
                self.fine = Ghost(false);
                return Err(e);
            },
        }
        self.index = index;
        self.end = fresh.len() as u64;
        self.dead = 0;
        Ok(())
    }

    /// Compact once dead bytes exceed half of a file that is worth it.
    fn maybe_compact(&mut self) -> (r: Result<(), F::Error>)
        requires
            old(self).wf(),
        ensures
            final(self).wf(),
            r is Ok ==> final(self).settled(),
            r is Err ==> !final(self).intact(),
            final(self).intact() ==> old(self).intact(),
            r is Ok && old(self).intact() ==> {
                &&& final(self).intact()
                &&& final(self).contents() == old(self).contents()
                &&& old(self).faithful() ==> final(self).faithful()
                &&& old(self).tight() ==> final(self).tight()
            },
            F::sure() ==> r is Ok,
    {
        if self.end > MIN_COMPACT && self.dead > self.end / 2 {
            return self.compact();
        }
        Ok(())
    }

    /// Consume the store, returning the backing file.
    pub fn into_file(self) -> (f: F)
        ensures
            f.image() == self.image(),
    {
        self.file
    }
}

/// Records do not depend on values under other keys.
proof fn lemma_records_same(a: Contents, b: Contents, keys: Seq<u64>, key: u64)
    requires
        !keys.contains(key),
        forall|k: u64| k != key ==> a[k] == #[trigger] b[k],
    ensures
        records(a, keys) == records(b, keys),
    decreases keys.len(),
{
    if keys.len() > 0 {
        let rest = keys.drop_last();
        assert(keys[keys.len() - 1] != key);
        assert(!rest.contains(key)) by {
            if rest.contains(key) {
                let j = choose|j: int| 0 <= j < rest.len() && rest[j] == key;
                assert(keys[j] == key);
            }
        }
        lemma_records_same(a, b, rest, key);
    }
}

proof fn lemma_push_set(s: Seq<u64>, k: u64)
    ensures
        s.push(k).to_set() == s.to_set().insert(k),
{
    let t = s.push(k);
    assert forall|x: u64| t.to_set().contains(x) == s.to_set().insert(k).contains(x) by {
        if t.contains(x) {
            let j = choose|j: int| 0 <= j < t.len() && t[j] == x;
            if j < s.len() {
                assert(s[j] == x);
            }
        }
        if s.contains(x) {
            let j = choose|j: int| 0 <= j < s.len() && s[j] == x;
            assert(t[j] == x);
        }
        assert(t[s.len() as int] == k);
    }
    assert(t.to_set() =~= s.to_set().insert(k));
}

/// Opening the file that a store wrote gives back what the store held.
pub proof fn law_reopen<F: SyncFile>(s: &LogStore<F>)
    requires
        s.faithful(),
    ensures
        replayed(s.image()) == s.contents(),
{
}

/// A store in which nothing failed keeps its file within twice the live records, or
/// within the size that is not worth compacting.
pub proof fn law_bounded<F: SyncFile>(s: &LogStore<F>)
    requires
        s.faithful(),
        s.tight(),
        s.settled(),
    ensures
        s.image().len() <= MIN_COMPACT || s.image().len() <= 2 * live_bytes(sizes(s.contents())),
{
}

/// What follows the last whole record of a file is not read: a write that was cut short
/// loses that write alone.
pub proof fn law_partial_tail(s: Seq<u8>, tail: Seq<u8>)
    requires
        replay(s, 0, Map::empty()).1 == s.len(),
        record_len(s + tail, s.len() as int) is None,
    ensures
        replay(s + tail, 0, Map::empty()) == replay(s, 0, Map::empty()),
{
    lemma_partial_tail(s, tail, 0, Map::empty());
}

proof fn lemma_partial_tail(s: Seq<u8>, tail: Seq<u8>, pos: int, m: Contents)
    requires
        0 <= pos <= s.len(),
        replay(s, pos, m).1 == s.len(),
        record_len(s + tail, s.len() as int) is None,
    ensures
        replay(s + tail, pos, m) == replay(s, pos, m),
    decreases s.len() - pos,
{
    let t = s + tail;
    match record_len(s, pos) {
        None => {},
        Some(n) => {
            assert(t.subrange(pos + 9, pos + 13) =~= s.subrange(pos + 9, pos + 13));
            assert(t.subrange(pos, pos + 8) =~= s.subrange(pos, pos + 8));
            assert(t.subrange(pos + HDR, pos + n) =~= s.subrange(pos + HDR, pos + n));
            assert(record_len(t, pos) == Some(n));
            lemma_partial_tail(s, tail, pos + n, applied(m, s, pos, n));
        },
    }
}

/// A file in memory.
#[derive(Debug, Default)]
pub struct MemFile {
    data: Vec<u8>,
}

impl Clone for MemFile {
    fn clone(&self) -> (r: Self)
        ensures
            r.image() == self.image(),
    {
        MemFile { data: crate::bytes::copy_of(self.data.as_slice()) }
    }
}

impl MemFile {
    /// An empty file.
    pub fn new() -> (f: Self)
        ensures
            f.image() == Seq::<u8>::empty(),
    {
        MemFile { data: Vec::new() }
    }

    /// A file with these bytes.
    pub fn from_bytes(data: Vec<u8>) -> (f: Self)
        ensures
            f.image() == data@,
    {
        MemFile { data }
    }

    /// The file's bytes.
    pub fn bytes(&self) -> (b: &[u8])
        ensures
            b@ == self.image(),
    {
        self.data.as_slice()
    }
}

impl SyncFile for MemFile {
    type Error = core::convert::Infallible;

    closed spec fn image(&self) -> Seq<u8> {
        self.data@
    }

    open spec fn sure() -> bool {
        true
    }

    fn size(&self) -> (r: Result<u64, core::convert::Infallible>)
    {
        Ok(self.data.len() as u64)
    }

    /// Past the end of the file nothing is read.
    fn read_at(&self, offset: u64, buf: &mut [u8]) -> (r: Result<(), core::convert::Infallible>)
        ensures
            forall|k: int|
                0 <= k < old(buf)@.len() ==> #[trigger] final(buf)@[k] == if offset + k
                    < self.image().len() {
                    self.image()[offset + k]
                } else {
                    old(buf)@[k]
                },
    {
        let held: usize = self.data.len();
        assert(offset <= held);
        let off: usize = offset as usize;
        let n: usize = if buf.len() < held - off {
            buf.len()
        } else {
            held - off
        };
        let mut i: usize = 0;
        while i < n
            invariant
                i <= n <= buf@.len(),
                buf@.len() == old(buf)@.len(),
                off == offset,
                off + n <= held,
                held == self.data@.len(),
                forall|k: int| 0 <= k < i ==> buf@[k] == self.data@[off + k],
                forall|k: int| i <= k < buf@.len() ==> buf@[k] == old(buf)@[k],
            decreases n - i,
        {
            buf[i] = self.data[off + i];
            i = i + 1;
        }
        proof {
            if offset + old(buf)@.len() <= self.image().len() {
                assert(buf@ =~= self.data@.subrange(off as int, off + buf@.len()));
            }
        }
        Ok(())
    }

    fn write_at(&mut self, offset: u64, buf: &[u8]) -> (r: Result<(), core::convert::Infallible>)
    {
        let ghost was = self.data@;
        let held: usize = self.data.len();
        assert(offset <= usize::MAX);
        let off: usize = offset as usize;
        while self.data.len() < off
            invariant
                off == offset,
                was.len() <= self.data@.len(),
                self.data@.len() <= off || self.data@ == was,
                self.data@ == written(was, self.data@.len() as int, Seq::empty()),
            decreases off - self.data@.len(),
        {
            self.data.push(0);
            assert(self.data@ =~= written(was, self.data@.len() as int, Seq::empty()));
        }
        assert(buf@.take(0) =~= Seq::<u8>::empty());
        assert(self.data@ =~= written(was, off as int, buf@.take(0)));
        let mut i: usize = 0;
        while i < buf.len()
            invariant
                i <= buf@.len(),
                off == offset,
                self.data@ == written(was, off as int, buf@.take(i as int)),
            decreases buf@.len() - i,
        {
            let held: usize = self.data.len();
            assert(off + i <= held);
            let at: usize = off + i;
            if at < held {
                self.data.set(at, buf[i]);
            } else {
                self.data.push(buf[i]);
            }
            i = i + 1;
            assert(self.data@ =~= written(was, off as int, buf@.take(i as int)));
        }
        assert(buf@.take(i as int) =~= buf@);
        let total: usize = self.data.len();
        assert(off + buf@.len() <= total);
        Ok(())
    }

    /// A larger size leaves the file as it is.
    fn truncate(&mut self, size: u64) -> (r: Result<(), core::convert::Infallible>)
        ensures
            size > old(self).image().len() ==> final(self).image() == old(self).image(),
    {
        if size < self.data.len() as u64 {
            self.data.truncate(size as usize);
        } else {
            assert(size == self.data@.len() ==> self.data@.take(size as int) =~= self.data@);
        }
        Ok(())
    }

    fn flush(&mut self) -> (r: Result<(), core::convert::Infallible>)
    {
        Ok(())
    }
}

} // verus!
