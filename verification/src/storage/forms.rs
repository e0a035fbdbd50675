//! What stores write, byte by byte, and what is read back.
use vstd::prelude::*;
use super::bitfield::{
    bit_in, count_in, field_bytes, live, live_keys, pages_bytes, parsed_field, word_bit,
    words_bytes, Pages,
};
use super::log::{
    lemma_live_insert, lemma_replay_append, live_bytes, record, record_len, replay, replayed,
    sizes, written, LogStore, SyncFile,
};
use super::opfs::{entries, entry, entry_len, lemma_loaded_append, loaded};
use super::tee::TeeStore;
use super::{Contents, Store};
use crate::bytes::{le32, le64, le_value};
use crate::table::keys_of;

verus! {

/// Bit `i` of a field is bit `i % 64` of a word of 64 bits, in a page of 512 words; a page
/// that is not there has none set.
pub proof fn law_field_bit(pages: Pages, i: u64)
    ensures
        !pages.contains_key((i / 32_768) as u64) ==> !bit_in(pages, i),
        pages.contains_key((i / 32_768) as u64) ==> bit_in(pages, i) == word_bit(
            pages[(i / 32_768) as u64][(i % 32_768 / 64) as int],
            (i % 64) as u64,
        ),
{
    assert(i % 32_768 % 64 == i % 64) by (nonlinear_arith)
        requires
            i >= 0,
    ;
}

/// Counting bits adds up over what is counted, one for every bit that has the value, and
/// every bit has one value or the other.
pub proof fn law_count_bits(pages: Pages, lo: int, hi: int, value: bool)
    requires
        0 <= lo <= hi < u64::MAX,
    ensures
        count_in(pages, lo, lo, value) == 0,
        bit_in(pages, hi as u64) == value ==> count_in(pages, lo, hi + 1, value) == count_in(
            pages,
            lo,
            hi,
            value,
        ) + 1,
        bit_in(pages, hi as u64) != value ==> count_in(pages, lo, hi + 1, value) == count_in(
            pages,
            lo,
            hi,
            value,
        ),
        count_in(pages, lo, hi, true) + count_in(pages, lo, hi, false) == hi - lo,
    decreases hi - lo,
{
    if lo < hi {
        law_count_bits(pages, lo, hi - 1, value);
    }
}

/// A stored field is the number of its pages that have a bit set, and those pages: the
/// number of each, and its words.
pub proof fn law_field_bytes(pages: Pages, keys: Seq<u64>, k: u64, words: Seq<u64>, w: u64)
    ensures
        ({
            let kept = live_keys(pages, keys_of(pages));
            field_bytes(pages) == le64(kept.len() as u64) + pages_bytes(pages, kept)
        }),
        pages_bytes(pages, Seq::empty()) == Seq::<u8>::empty(),
        pages_bytes(pages, keys.push(k)) == pages_bytes(pages, keys) + le64(k) + words_bytes(
            pages[k],
        ),
        words_bytes(Seq::empty()) == Seq::<u8>::empty(),
        words_bytes(words.push(w)) == words_bytes(words) + le64(w),
        live_keys(pages, keys.push(k)) == if live(pages[k]) {
            live_keys(pages, keys).push(k)
        } else {
            live_keys(pages, keys)
        },
{
    assert(keys.push(k).drop_last() =~= keys);
    assert(words.push(w).drop_last() =~= words);
    assert(pages_bytes(pages, keys.push(k)) =~= pages_bytes(pages, keys) + le64(k) + words_bytes(
        pages[k],
    ));
}

/// Bytes stand for a field if and only if they are as long as the number of pages that they
/// give asks for.
pub proof fn law_field_read(s: Seq<u8>)
    ensures
        parsed_field(s) is Some <==> s.len() >= 8 && s.len() == 8 + 4104 * le_value(
            s.subrange(0, 8),
        ),
{
}

/// Writing to a file replaces the bytes from an offset on, leaves the others, and fills what
/// lies between the end and the offset with zeroes.
pub proof fn law_file_written(image: Seq<u8>, offset: int, data: Seq<u8>, i: int)
    requires
        offset >= 0,
    ensures
        ({
            let now = written(image, offset, data);
            &&& now.len() >= image.len()
            &&& now.len() >= offset + data.len()
            &&& now.len() == image.len() || now.len() == offset + data.len()
            &&& 0 <= i < data.len() ==> now[offset + i] == data[i]
            &&& 0 <= i < image.len() && (i < offset || i >= offset + data.len()) ==> now[i]
                == image[i]
            &&& image.len() <= i < offset && i < now.len() ==> now[i] == 0
        }),
{
}

/// A record is the key, one byte that tells whether it sets or drops, the length of the
/// value, and the value.
pub proof fn law_log_record(key: u64, value: Seq<u8>)
    ensures
        record(key, 0, value) == le64(key) + seq![0u8] + le32(value.len() as u32) + value,
        record(key, 1, value) == le64(key) + seq![1u8] + le32(value.len() as u32) + value,
{
}

/// What is there is a record if and only if all of it is there and its kind is one of the
/// two.
pub proof fn law_log_record_len(s: Seq<u8>, pos: int)
    requires
        0 <= pos <= s.len(),
    ensures
        ({
            let whole = pos + 13 <= s.len() && pos + 13 + le_value(s.subrange(pos + 9, pos + 13))
                <= s.len() && s[pos + 8] <= 1;
            match record_len(s, pos) {
                Some(n) => whole && n == 13 + le_value(s.subrange(pos + 9, pos + 13)),
                None => !whole,
            }
        }),
{
}

/// A file that ends in a whole record, and to which a record is added, holds what it held
/// with that value set, or dropped; and an empty file holds nothing.
pub proof fn law_log_grows(s: Seq<u8>, key: u64, value: Seq<u8>)
    requires
        replay(s, 0, Map::empty()).1 == s.len(),
        value.len() <= u32::MAX,
    ensures
        replayed(Seq::empty()) == Map::<u64, Seq<u8>>::empty(),
        replayed(s + record(key, 0, value)) == replayed(s).insert(key, value),
        replayed(s + record(key, 1, Seq::empty())) == replayed(s).remove(key),
        replay(s + record(key, 0, value), 0, Map::empty()).1 == (s + record(key, 0, value)).len(),
        replay(s + record(key, 1, Seq::empty()), 0, Map::empty()).1 == (s + record(
            key,
            1,
            Seq::empty(),
        )).len(),
{
    lemma_replay_append(s, 0, Map::empty(), key, 0, value);
    lemma_replay_append(s, 0, Map::empty(), key, 1, Seq::empty());
}

/// The live records of a log take their headers and their values, and nothing else.
pub proof fn law_live_bytes(m: Map<u64, nat>, k: u64, n: nat)
    requires
        m.dom().finite(),
        !m.contains_key(k),
    ensures
        live_bytes(Map::empty()) == 0,
        live_bytes(m.insert(k, n)) == live_bytes(m) + 13 + n,
{
    lemma_live_insert(m, k, n);
}

/// The lengths of what is held are those of the values.
pub proof fn law_sizes(m: Contents, k: u64)
    ensures
        sizes(m).contains_key(k) == m.contains_key(k),
        m.contains_key(k) ==> sizes(m)[k] == m[k].len(),
{
}

/// A log in which nothing failed is, after a write, no larger than what is not worth
/// compacting, or no more than half of it is dead.
pub proof fn law_log_settled<F: SyncFile>(s: &LogStore<F>)
    requires
        s.faithful(),
        s.tight(),
    ensures
        s.settled() <==> s.image().len() <= 4096 || s.image().len() <= 2 * live_bytes(
            sizes(s.contents()),
        ),
{
}

/// A store in one file is one entry for each key, in key order: the key, the length of the
/// value, and the value.
pub proof fn law_entry_bytes(m: Contents, keys: Seq<u64>, k: u64)
    ensures
        entries(m, Seq::empty()) == Seq::<u8>::empty(),
        entries(m, keys.push(k)) == entries(m, keys) + le64(k) + le32(m[k].len() as u32) + m[k],
{
    assert(keys.push(k).drop_last() =~= keys);
    assert(entries(m, keys.push(k)) =~= entries(m, keys) + le64(k) + le32(m[k].len() as u32)
        + m[k]);
}

/// What is there is an entry if and only if all of it is there; one more entry at the end is
/// one more value held, in place of what was under its key.
pub proof fn law_entry_read(s: Seq<u8>, pos: int, key: u64, value: Seq<u8>)
    requires
        0 <= pos <= s.len(),
        value.len() <= u32::MAX,
    ensures
        match entry_len(s, pos) {
            Some(n) => pos + n <= s.len() && n == 12 + le_value(s.subrange(pos + 8, pos + 12)),
            None => pos + 12 > s.len() || pos + 12 + le_value(s.subrange(pos + 8, pos + 12))
                > s.len(),
        },
        loaded(s, 0, Map::empty()).1 == s.len() ==> loaded(
            s + entry(key, value),
            0,
            Map::empty(),
        ).0 == loaded(s, 0, Map::empty()).0.insert(key, value),
{
    if loaded(s, 0, Map::empty()).1 == s.len() {
        lemma_loaded_append(s, 0, Map::empty(), key, value);
    }
}

/// A tee holds what either side does; where both do, what the first does; and counts the
/// first side's values, or, where that is empty, the second's.
pub proof fn law_tee<P: Store, C: Store>(t: &TeeStore<P, C>, k: u64)
    ensures
        t.contents().contains_key(k) <==> t.first().contents().contains_key(k)
            || t.second().contents().contains_key(k),
        t.first().contents().contains_key(k) ==> t.contents()[k] == t.first().contents()[k],
        !t.first().contents().contains_key(k) && t.second().contents().contains_key(k)
            ==> t.contents()[k] == t.second().contents()[k],
        t.first().count() > 0 ==> t.count() == t.first().count(),
        t.first().count() == 0 ==> t.count() == t.second().count(),
{
}

} // verus!
