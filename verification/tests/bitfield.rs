//! Sparse bitfields.
use std::collections::HashSet;

use hypercore_rs::storage::bitfield::{BITS_PER_PAGE, WORDS_PER_PAGE};
use hypercore_rs::storage::Bitfield;

struct SplitMix64(u64);
impl SplitMix64 {
    fn next(&mut self) -> u64 {
        self.0 = self.0.wrapping_add(0x9E37_79B9_7F4A_7C15);
        let mut z = self.0;
        z = (z ^ (z >> 30)).wrapping_mul(0xBF58_476D_1CE4_E5B9);
        z = (z ^ (z >> 27)).wrapping_mul(0x94D0_49BB_1331_11EB);
        z ^ (z >> 31)
    }
}

#[test]
fn set_and_get() {
    let mut b = Bitfield::new();

    assert!(!b.get(42));
    b.set(42, true);
    assert!(b.get(42));

    assert!(!b.get(42_000_000));
    b.set(42_000_000, true);
    assert!(b.get(42_000_000));
    b.set(42_000_000, false);
    assert!(!b.get(42_000_000));
    assert!(b.get(42));
}

#[test]
fn huge_sparse_index() {
    let mut b = Bitfield::new();
    b.set(7_995_511_118_690_925, true);
    assert!(b.get(7_995_511_118_690_925));
    assert!(!b.get(7_995_511_118_690_924));
    assert!(!b.get(0));
}

#[test]
fn random_set_and_gets_match_a_reference_set() {
    let mut b = Bitfield::new();
    let mut oracle: HashSet<u64> = HashSet::new();
    let mut rng = SplitMix64(0x5EED_1234_ABCD_0001);

    let pick = |rng: &mut SplitMix64| rng.next() % (1u64 << 40);

    for _ in 0..200 {
        let idx = pick(&mut rng);
        b.set(idx, true);
        oracle.insert(idx);
    }
    for _ in 0..500 {
        let idx = pick(&mut rng);
        assert_eq!(b.get(idx), oracle.contains(&idx), "mismatch at {idx}");
    }
    for &idx in &oracle {
        assert!(b.get(idx), "set index {idx} read back false");
    }
}

#[test]
fn count_set_and_unset() {
    let mut b = Bitfield::new();
    for &(start, end) in &[(0, 2), (5, 6), (7, 9), (13, 14), (16, 19), (20, 25)] {
        b.set_range(start, end, true);
    }
    assert_eq!(b.count(3, 18, true), 8);
    assert_eq!(b.count(3, 18, false), 10);
    assert_eq!(b.count(3, 0, true), 0);
}

#[test]
fn find_first_all_zeroes() {
    let b = Bitfield::new();
    assert_eq!(b.find_first(false, 0), Some(0));
    assert_eq!(b.find_first(true, 0), None);

    for &p in &[
        1u64 << 15,
        (1 << 15) - 1,
        (1 << 15) + 1,
        1 << 16,
        (1 << 16) - 1,
        (1 << 16) + 1,
        1 << 21,
        (1 << 21) - 1,
        (1 << 21) + 1,
        1 << 22,
        (1 << 22) - 1,
        (1 << 22) + 1,
    ] {
        assert_eq!(b.find_first(false, p), Some(p), "first unset from {p}");
    }
}

#[test]
fn find_first_all_ones() {
    let mut b = Bitfield::new();
    b.set_range(0, 1 << 24, true);

    assert_eq!(b.find_first(true, 0), Some(0));
    assert_eq!(b.find_first(true, 1 << 24), None);
    assert_eq!(b.find_first(false, 0), Some(1 << 24));
    assert_eq!(b.find_first(false, 1 << 24), Some(1 << 24));

    for &p in &[
        1u64 << 15,
        (1 << 15) - 1,
        (1 << 15) + 1,
        1 << 16,
        (1 << 16) - 1,
        (1 << 16) + 1,
        1 << 21,
        (1 << 21) - 1,
        (1 << 21) + 1,
        1 << 22,
        (1 << 22) - 1,
        (1 << 22) + 1,
    ] {
        assert_eq!(b.find_first(true, p), Some(p), "first set from {p}");
    }
}

#[test]
fn find_last_all_zeroes() {
    let b = Bitfield::new();
    assert_eq!(b.find_last(false, 0), Some(0));
    assert_eq!(b.find_last(true, 0), None);

    for &p in &[
        1u64 << 15,
        (1 << 15) - 1,
        (1 << 15) + 1,
        1 << 16,
        (1 << 16) - 1,
        (1 << 16) + 1,
        1 << 21,
        (1 << 21) - 1,
        (1 << 21) + 1,
        1 << 22,
        (1 << 22) - 1,
        (1 << 22) + 1,
    ] {
        assert_eq!(b.find_last(false, p), Some(p), "last unset up to {p}");
    }
}

#[test]
fn find_last_all_ones() {
    let mut b = Bitfield::new();
    b.set_range(0, 1 << 24, true);

    assert_eq!(b.find_last(false, 0), None);
    assert_eq!(b.find_last(false, 1 << 24), Some(1 << 24));
    assert_eq!(b.find_last(true, 0), Some(0));
    assert_eq!(b.find_last(true, 1 << 24), Some((1 << 24) - 1));

    for &p in &[
        1u64 << 15,
        (1 << 15) - 1,
        (1 << 15) + 1,
        1 << 16,
        (1 << 16) - 1,
        (1 << 16) + 1,
        1 << 21,
        (1 << 21) - 1,
        (1 << 21) + 1,
        1 << 22,
        (1 << 22) - 1,
        (1 << 22) + 1,
    ] {
        assert_eq!(b.find_last(true, p), Some(p), "last set up to {p}");
    }
}

#[test]
fn last_unset_around_page_boundary() {
    let mut b = Bitfield::new();
    b.set(32767, true);
    b.set(32768, true);

    assert_eq!(b.last_unset(32768), Some(32766));
    assert_eq!(b.last_unset(32769), Some(32769));
}

#[test]
fn set_range_on_page_boundary() {
    let mut b = Bitfield::new();
    b.set_range(2032, 2058, true);
    assert_eq!(b.find_first(true, 2048), Some(2048));
}

#[test]
fn set_false_range_on_absent_page() {
    let mut b = Bitfield::new();
    b.set_range(32769, 32780, false);
    assert!(b.is_blank(), "clearing absent pages allocates nothing");
    assert!(!b.get(32770));
}

#[test]
fn last_bits_in_segment_then_find_first() {
    let mut b = Bitfield::new();
    b.set(2097150, true);
    assert_eq!(b.find_first(false, 2097150), Some(2097151));

    b.set(2097151, true);
    assert_eq!(b.find_first(false, 2097150), Some(2097152));
    assert_eq!(b.find_first(false, 2097151), Some(2097152));
}

#[test]
fn set_range_over_multiple_pages() {
    let mut b = Bitfield::new();
    b.set_range(32768, 32769, true);
    assert!(!b.get(0));
    assert!(b.get(32768));
    assert!(!b.get(32769));

    b.set_range(0, 32768 * 2, false);
    b.set_range(32768, 32768 * 2 + 1, true);
    assert!(!b.get(0));
    assert!(b.get(32768));
    assert!(b.get(32768 * 2));
    assert!(!b.get(32768 * 2 + 1));
}

#[test]
fn count_matches_brute_force() {
    let mut b = Bitfield::new();
    b.set_range(10, 20, true);
    b.set_range(32760, 32790, true);
    b.set(40000, true);

    for &(start, len) in &[(0u64, 50), (15, 30), (32750, 60), (0, 40010), (39990, 30)] {
        let mut set = 0;
        for i in start..start + len {
            if b.get(i) {
                set += 1;
            }
        }
        assert_eq!(b.count(start, len, true), set, "set count [{start},{len})");
        assert_eq!(
            b.count(start, len, false),
            len - set,
            "unset count [{start},{len})"
        );
    }
}

#[test]
fn find_matches_brute_force() {
    let mut b = Bitfield::new();
    for &i in &[3u64, 4, 5, 100, 32767, 32768, 32769, 70000] {
        b.set(i, true);
    }
    let max_probe = 70_010u64;

    let brute_first = |value: bool, pos: u64| -> Option<u64> {
        (pos..=max_probe + BITS_PER_PAGE).find(|&i| b.get(i) == value)
    };
    let brute_last = |value: bool, pos: u64| -> Option<u64> {
        (0..=pos).rev().find(|&i| b.get(i) == value)
    };

    for pos in [0u64, 2, 3, 6, 99, 101, 32766, 32767, 32768, 32770, 69999, 70000, 70001] {
        for value in [true, false] {
            assert_eq!(
                b.find_first(value, pos),
                brute_first(value, pos),
                "find_first({value}, {pos})"
            );
            assert_eq!(
                b.find_last(value, pos),
                brute_last(value, pos),
                "find_last({value}, {pos})"
            );
        }
    }
}

#[test]
fn serialize_round_trip_preserves_every_query() {
    let mut b = Bitfield::new();
    for i in [0u64, 1, 63, 64, 65, 32_767, 32_768, 100_000, 8_000_000_000] {
        b.set(i, true);
    }
    b.set_range(500, 1200, true);

    let restored = Bitfield::deserialize(&b.serialize()).expect("round-trips");

    for i in (0..1300u64)
        .chain([32_766, 32_767, 32_768, 32_769, 99_999, 100_000, 100_001])
        .chain([7_999_999_999, 8_000_000_000, 8_000_000_001])
    {
        assert_eq!(b.get(i), restored.get(i), "get({i})");
    }
    for pos in [0u64, 100, 500, 1199, 1200, 32_768, 100_000, 8_000_000_000] {
        for value in [true, false] {
            assert_eq!(b.find_first(value, pos), restored.find_first(value, pos));
            assert_eq!(b.find_last(value, pos), restored.find_last(value, pos));
        }
    }
    assert_eq!(b.count(0, 9_000_000_000, true), restored.count(0, 9_000_000_000, true));
}

#[test]
fn serialize_skips_all_zero_pages_but_keeps_semantics() {
    let mut b = Bitfield::new();
    b.set(40_000, true);
    b.set(40_000, false);
    b.set(5, true);
    let one_live_page = 8 + (8 + WORDS_PER_PAGE as usize * 8);
    assert_eq!(b.serialize().len(), one_live_page, "the all-zero page is not emitted");
    let restored = Bitfield::deserialize(&b.serialize()).unwrap();
    assert!(restored.get(5));
    assert!(!restored.get(40_000));
    assert_eq!(restored.count(0, 100_000, true), 1);
}

#[test]
fn bitfield_deserialize_rejects_malformed_buffers() {
    assert!(Bitfield::deserialize(&[]).is_none());
    assert!(Bitfield::deserialize(&[1, 0, 0, 0, 0, 0, 0, 0]).is_none());
    let mut b = Bitfield::new();
    b.set(7, true);
    let mut bytes = b.serialize();
    bytes.push(0xff);
    assert!(Bitfield::deserialize(&bytes).is_none());
}
