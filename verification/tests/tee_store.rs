//! Stores that mirror one another.
use hypercore_rs::storage::{MemoryStore, Store, TeeStore};

/// What every store does: values are kept, replaced, dropped and counted.
fn run_contract<S: Store>(s: &mut S)
where
    S::Error: std::fmt::Debug,
{
    assert_eq!(s.len().unwrap(), 0);
    assert_eq!(s.get(0).unwrap(), None);
    s.put(0, b"zero").unwrap();
    s.put(u64::MAX, b"").unwrap();
    assert_eq!(s.get(0).unwrap().as_deref(), Some(&b"zero"[..]));
    assert_eq!(s.get(u64::MAX).unwrap().as_deref(), Some(&b""[..]), "empty is not missing");
    assert_eq!(s.len().unwrap(), 2);
    s.put(0, b"other").unwrap();
    assert_eq!(s.get(0).unwrap().as_deref(), Some(&b"other"[..]), "replaced");
    assert_eq!(s.len().unwrap(), 2);
    s.delete(0).unwrap();
    assert_eq!(s.get(0).unwrap(), None);
    assert_eq!(s.len().unwrap(), 1);
    s.delete(0).unwrap();
    assert_eq!(s.len().unwrap(), 1, "deleting what is not there changes nothing");
    assert_eq!(s.get(u64::MAX).unwrap().as_deref(), Some(&b""[..]));
}

#[test]
fn tee_upholds_store_contract() {
    run_contract(&mut TeeStore::new(MemoryStore::new(), MemoryStore::new()));
}

#[test]
fn writes_mirror_to_both_sides() {
    let mut tee = TeeStore::new(MemoryStore::new(), MemoryStore::new());
    tee.put(1, b"x").unwrap();
    tee.put(2, b"y").unwrap();
    tee.delete(2).unwrap();
    assert_eq!(tee.primary().get(1).unwrap().as_deref(), Some(&b"x"[..]));
    assert_eq!(tee.cache().get(1).unwrap().as_deref(), Some(&b"x"[..]), "mirrored to cache");
    assert_eq!(tee.cache().get(2).unwrap(), None, "delete mirrored to cache");
}

#[test]
fn recovers_from_cache_when_primary_is_empty() {
    let mut cache = MemoryStore::new();
    cache.put(5, b"survived").unwrap();
    let tee = TeeStore::new(MemoryStore::new(), cache);
    assert_eq!(
        tee.get(5).unwrap().as_deref(),
        Some(&b"survived"[..]),
        "read falls back to the local cache"
    );
}
