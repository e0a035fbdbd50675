//! Stores in record files.
use hypercore_rs::storage::log::HDR;
use hypercore_rs::storage::{LogStore, MemFile, Store, SyncFile};

/// What every store does: values are kept, replaced, dropped and counted.
fn run_contract<S: Store>(s: &mut S)
where
    S::Error: std::fmt::Debug,
{
    assert_eq!(s.len().unwrap(), 0);
    assert_eq!(s.get(0).unwrap(), None);
    s.put(0, b"zero").unwrap();
    s.put(u64::MAX, b"").unwrap();
    assert_eq!(s.get(0).unwrap().as_deref(), Some(&b"zero"[..]));
    assert_eq!(s.get(u64::MAX).unwrap().as_deref(), Some(&b""[..]), "empty is not missing");
    assert_eq!(s.len().unwrap(), 2);
    s.put(0, b"other").unwrap();
    assert_eq!(s.get(0).unwrap().as_deref(), Some(&b"other"[..]), "replaced");
    assert_eq!(s.len().unwrap(), 2);
    s.delete(0).unwrap();
    assert_eq!(s.get(0).unwrap(), None);
    assert_eq!(s.len().unwrap(), 1);
    s.delete(0).unwrap();
    assert_eq!(s.len().unwrap(), 1, "deleting what is not there changes nothing");
    assert_eq!(s.get(u64::MAX).unwrap().as_deref(), Some(&b""[..]));
}

#[test]
fn log_upholds_store_contract() {
    let mut s = LogStore::open(MemFile::new()).unwrap();
    run_contract(&mut s);
}

#[test]
fn persists_across_reopen() {
    let mut s = LogStore::open(MemFile::new()).unwrap();
    s.put(1, b"one").unwrap();
    s.put(2, b"two").unwrap();
    s.put(1, b"ONE").unwrap();
    s.delete(2).unwrap();

    let bytes = s.into_file().bytes().to_vec();
    let s2 = LogStore::open(MemFile::from_bytes(bytes)).unwrap();
    assert_eq!(s2.get(1).unwrap().as_deref(), Some(&b"ONE"[..]));
    assert_eq!(s2.get(2).unwrap(), None);
    assert_eq!(s2.len().unwrap(), 1);
}

#[test]
fn compaction_reclaims_space_and_preserves_values() {
    let mut s = LogStore::open(MemFile::new()).unwrap();
    let big = vec![b'x'; 256];
    for _ in 0..200 {
        for k in 0..4u64 {
            s.put(k, &big).unwrap();
        }
    }
    assert!(
        s.file_len() < 50_000,
        "auto-compaction must bound growth (got {})",
        s.file_len()
    );
    for k in 0..4u64 {
        assert_eq!(s.get(k).unwrap().unwrap(), big);
    }

    s.compact().unwrap();
    assert_eq!(s.file_len(), 4 * (HDR as u64 + 256));
    for k in 0..4u64 {
        assert_eq!(s.get(k).unwrap().unwrap(), big);
    }
    assert_eq!(s.len().unwrap(), 4);
}

#[test]
fn partial_trailing_record_is_dropped_on_open() {
    let mut s = LogStore::open(MemFile::new()).unwrap();
    s.put(1, b"good").unwrap();
    let mut bytes = s.into_file().bytes().to_vec();
    bytes.extend_from_slice(&[7, 0, 0, 0, 0, 0, 0, 0]);
    let s2 = LogStore::open(MemFile::from_bytes(bytes)).unwrap();
    assert_eq!(s2.get(1).unwrap().as_deref(), Some(&b"good"[..]));
    assert_eq!(s2.len().unwrap(), 1, "partial tail ignored");
}

#[test]
fn a_file_in_memory_fills_gaps_and_is_not_made_longer_by_cutting() {
    let mut f = MemFile::from_bytes(b"abc".to_vec());
    f.write_at(5, b"xy").unwrap();
    assert_eq!(f.bytes(), b"abc\0\0xy");
    f.truncate(9).unwrap();
    assert_eq!(f.size(), Ok(7));
    f.truncate(2).unwrap();
    assert_eq!(f.bytes(), b"ab");
    let mut buf = [9u8; 4];
    f.read_at(1, &mut buf).unwrap();
    assert_eq!(buf, [b'b', 9, 9, 9], "as far as there is something to read");
}
