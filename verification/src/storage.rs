//! Pluggable random-access byte storage for logs.
//!
//! Content-blind: a store holds opaque bytes under `u64` keys, never a typed payload.
//! [`MemoryStore`] keeps them in memory, [`LogStore`] in an append-only record file
//! behind [`SyncFile`], and [`TeeStore`] mirrors one store into another.
use std::collections::BTreeMap;
use vstd::prelude::*;
use crate::bytes::copy_of;

pub mod bitfield;
pub mod forms;
pub mod log;
pub mod opfs;
pub mod tee;

pub use bitfield::Bitfield;
pub use log::{LogStore, MemFile, SyncFile};
pub use tee::{TeeError, TeeStore};

verus! {

broadcast use vstd::std_specs::btree::group_btree_axioms;

/// What a store holds.
pub type Contents = Map<u64, Seq<u8>>;

/// A `u64`-keyed store of byte strings.
///
/// A store keeps its promises until one of its operations fails: what it holds after
/// that is open, and so is what it goes on to give back. A `put` that fails may leave the
/// store intact; it then holds what it held. A `delete` that fails does not leave it so.
pub trait Store {
    /// What an operation fails with.
    type Error;

    /// The store's invariant.
    open spec fn wf(&self) -> bool {
        true
    }

    /// Whether the store holds what its operations left in it, and gives that back.
    open spec fn intact(&self) -> bool {
        true
    }

    /// What the store holds.
    open spec fn contents(&self) -> Contents {
        arbitrary()
    }

    /// What [`len`](Self::len) reports.
    open spec fn count(&self) -> nat {
        arbitrary()
    }

    /// Whether the store keeps values of `n` bytes whole.
    open spec fn fits(n: nat) -> bool {
        false
    }

    /// Whether no operation ever fails.
    open spec fn sure() -> bool {
        false
    }

    /// Keep `value` under `key`, in place of what was there.
    fn put(&mut self, key: u64, value: &[u8]) -> (r: Result<(), Self::Error>)
        requires
            old(self).wf(),
        ensures
            final(self).wf(),
            r is Ok && old(self).intact() ==> {
                &&& final(self).intact()
                &&& final(self).contents() == old(self).contents().insert(
                    key,
                    final(self).contents()[key],
                )
                &&& Self::fits(value@.len()) ==> final(self).contents()[key] == value@
            },
            r is Err && final(self).intact() ==> final(self).contents() == old(self).contents(),
            final(self).intact() ==> old(self).intact(),
            Self::sure() ==> r is Ok,
    ;

    /// The value under `key`, if there is one.
    fn get(&self, key: u64) -> (r: Result<Option<Vec<u8>>, Self::Error>)
        requires
            self.wf(),
        ensures
            match r {
                Ok(Some(v)) => self.intact() ==> self.contents().contains_key(key) && v@
                    == self.contents()[key],
                Ok(None) => self.intact() ==> !self.contents().contains_key(key),
                Err(_) => !Self::sure(),
            },
    ;

    /// Drop what is under `key`.
    fn delete(&mut self, key: u64) -> (r: Result<(), Self::Error>)
        requires
            old(self).wf(),
        ensures
            final(self).wf(),
            r is Ok && old(self).intact() ==> final(self).intact() && final(self).contents() == old(
                self,
            ).contents().remove(key),
            r is Err ==> !final(self).intact(),
            final(self).intact() ==> old(self).intact(),
            Self::sure() ==> r is Ok,
    ;

    /// How many keys hold a value.
    fn len(&self) -> (r: Result<u64, Self::Error>)
        requires
            self.wf(),
        ensures
            r matches Ok(n) ==> n == self.count(),
            Self::sure() ==> r is Ok,
    ;
}

/// A store in memory. It never fails.
#[derive(Debug, Default)]
pub struct MemoryStore {
    map: BTreeMap<u64, Vec<u8>>,
}

impl Clone for MemoryStore {
    fn clone(&self) -> (r: Self)
        ensures
            r.contents() == self.contents(),
            r.count() == self.count(),
    {
        MemoryStore { map: self.map.clone() }
    }
}

impl MemoryStore {
    /// An empty store.
    pub fn new() -> (s: Self)
        ensures
            s.wf(),
            s.intact(),
            s.contents() == Map::<u64, Seq<u8>>::empty(),
            s.count() == 0,
    {
        let s: MemoryStore = MemoryStore { map: BTreeMap::new() };
        assert(s.contents() =~= Map::<u64, Seq<u8>>::empty());
        s
    }
}

impl Store for MemoryStore {
    type Error = core::convert::Infallible;

    open spec fn wf(&self) -> bool {
        true
    }

    open spec fn intact(&self) -> bool {
        true
    }

    closed spec fn contents(&self) -> Contents {
        self.map@.map_values(|v: Vec<u8>| v@)
    }

    open spec fn count(&self) -> nat {
        self.contents().dom().len()
    }

    open spec fn fits(n: nat) -> bool {
        true
    }

    open spec fn sure() -> bool {
        true
    }

    fn put(&mut self, key: u64, value: &[u8]) -> (r: Result<(), core::convert::Infallible>)
    {
        self.map.insert(key, copy_of(value));
        assert(self.contents() =~= old(self).contents().insert(key, value@));
        Ok(())
    }

    fn get(&self, key: u64) -> (r: Result<Option<Vec<u8>>, core::convert::Infallible>)
    {
        match self.map.get(&key) {
            Some(v) => Ok(Some(copy_of(v.as_slice()))),
            None => Ok(None),
        }
    }

    fn delete(&mut self, key: u64) -> (r: Result<(), core::convert::Infallible>)
    {
        self.map.remove(&key);
        assert(self.contents() =~= old(self).contents().remove(key));
        Ok(())
    }

    fn len(&self) -> (r: Result<u64, core::convert::Infallible>)
    {
        assert(self.contents().dom() =~= self.map@.dom());
        Ok(self.map.len() as u64)
    }
}

} // verus!
