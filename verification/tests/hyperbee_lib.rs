//! The ordered store: reading and writing.
use hypercore_rs::hyperbee::{Hyperbee, Range};
use hypercore_rs::identity::SecretKey;
use hypercore_rs::storage::MemoryStore;

fn bee() -> Hyperbee<MemoryStore> {
    Hyperbee::new(SecretKey::from_seed(&[7; 32]), MemoryStore::new())
}

#[test]
fn lib_put_get_roundtrip_and_overwrite() {
    let mut b = bee();
    assert!(b.is_empty());
    assert_eq!(b.get(b"missing").unwrap(), None);

    for (k, v) in [(&b"foo"[..], &b"1"[..]), (b"bar", b"2"), (b"baz", b"3")] {
        b.put(k, v).unwrap();
    }
    assert_eq!(b.version(), 3, "copy-on-write: each put appends a fresh rewritten leaf block; latest is the root");
    assert_eq!(b.get(b"foo").unwrap().as_deref(), Some(&b"1"[..]));
    assert_eq!(b.get(b"bar").unwrap().as_deref(), Some(&b"2"[..]));
    assert_eq!(b.get(b"nope").unwrap(), None);

    b.put(b"foo", b"updated").unwrap();
    assert_eq!(b.get(b"foo").unwrap().as_deref(), Some(&b"updated"[..]));
}

#[test]
fn lib_in_order_after_unsorted_inserts_and_splits() {
    let mut b = bee();
    let key = |i: u32| format!("{i:02}").into_bytes();
    for i in (0..20u32).rev() {
        b.put(&key(i), &key(i)).unwrap();
    }
    let all = b.range(&Range::default()).unwrap();
    let keys: Vec<Vec<u8>> = all.into_iter().map(|(k, _)| k).collect();
    let expect: Vec<Vec<u8>> = (0..20).map(key).collect();
    assert_eq!(keys, expect, "B-tree yields sorted order across splits");
    for i in 0..20 {
        assert_eq!(b.get(&key(i)).unwrap(), Some(key(i)));
    }
    assert!(b.version() > 1, "splits appended multiple blocks");
}

#[test]
fn lib_exhaustive_range_matches_reference() {
    let key = |i: u32| format!("{i:02}").into_bytes();
    for n in 1..=25u32 {
        let mut b = bee();
        for i in (0..n).rev() {
            b.put(&key(i), &key(i)).unwrap();
        }
        let all: Vec<Vec<u8>> = (0..n).map(key).collect();

        for a in 0..n {
            for c in 0..n {
                for &use_gt in &[false, true] {
                    for &use_lt in &[false, true] {
                        for &reverse in &[false, true] {
                            let lo = key(a);
                            let hi = key(c);
                            let bounds = Range {
                                gt: if use_gt { Some(lo.clone()) } else { None },
                                gte: if !use_gt { Some(lo.clone()) } else { None },
                                lt: if use_lt { Some(hi.clone()) } else { None },
                                lte: if !use_lt { Some(hi.clone()) } else { None },
                                reverse,
                                limit: None,
                            };
                            let mut expect: Vec<Vec<u8>> = all
                                .iter()
                                .filter(|k| {
                                    let k = k.as_slice();
                                    (if use_gt { k > &lo[..] } else { k >= &lo[..] })
                                        && (if use_lt { k < &hi[..] } else { k <= &hi[..] })
                                })
                                .cloned()
                                .collect();
                            if reverse {
                                expect.reverse();
                            }
                            let got: Vec<Vec<u8>> = b
                                .range(&bounds)
                                .unwrap()
                                .into_iter()
                                .map(|(k, _)| k)
                                .collect();
                            assert_eq!(
                                got, expect,
                                "n={n} a={a} c={c} gt={use_gt} lt={use_lt} rev={reverse}"
                            );
                        }
                    }
                }
            }
        }
    }
}

#[test]
fn lib_range_limit_and_open_bounds() {
    let mut b = bee();
    let key = |i: u32| format!("{i:02}").into_bytes();
    for i in 0..10u32 {
        b.put(&key(i), &key(i)).unwrap();
    }
    let first3 = b
        .range(&Range {
            limit: Some(3),
            ..Default::default()
        })
        .unwrap();
    assert_eq!(
        first3.iter().map(|(k, _)| k.clone()).collect::<Vec<_>>(),
        (0..3).map(key).collect::<Vec<_>>()
    );
    let desc = b
        .range(&Range {
            reverse: true,
            limit: Some(2),
            ..Default::default()
        })
        .unwrap();
    assert_eq!(
        desc.iter().map(|(k, _)| k.clone()).collect::<Vec<_>>(),
        vec![key(9), key(8)]
    );
}
