//! A write-through store combinator: mirror every write to a secondary "cache".
use vstd::prelude::*;
use crate::storage::{Contents, Store};

verus! {

/// Writes go to both the primary and the cache; reads come from the primary, falling
/// back to the cache when the primary lacks the key.
///
/// The primary is a consumer's real persistence and the cache an always-present local
/// copy. A fresh process that still has the local cache can recover a log even if the
/// primary is empty. `put` and `delete` keep the two in lockstep, so under normal
/// operation they hold the same data.
pub struct TeeStore<P, C> {
    primary: P,
    cache: C,
    /// Whether no write has reached the primary alone.
    level: Ghost<bool>,
}

/// Which side of a [`TeeStore`] produced an error.
#[derive(Debug, PartialEq, Eq)]
pub enum TeeError<PE, CE> {
    Primary(PE),
    Cache(CE),
}

impl<P, C> TeeStore<P, C> {
    /// The primary.
    pub closed spec fn first(&self) -> P {
        self.primary
    }

    /// The cache.
    pub closed spec fn second(&self) -> C {
        self.cache
    }

    /// Whether no write has reached the primary alone.
    pub closed spec fn level(&self) -> bool {
        self.level@
    }

    /// A tee over the two stores.
    pub fn new(primary: P, cache: C) -> (t: Self)
        ensures
            t.level(),
            t.first() == primary,
            t.second() == cache,
    {
        TeeStore { primary, cache, level: Ghost(true) }
    }

    /// The primary.
    pub fn primary(&self) -> (p: &P)
        ensures
            *p == self.first(),
    {
        &self.primary
    }

    /// The cache.
    pub fn cache(&self) -> (c: &C)
        ensures
            *c == self.second(),
    {
        &self.cache
    }
}

impl<P: Store, C: Store> Store for TeeStore<P, C> {
    type Error = TeeError<P::Error, C::Error>;

    open spec fn wf(&self) -> bool {
        self.first().wf() && self.second().wf()
    }

    open spec fn intact(&self) -> bool {
        self.level() && self.first().intact() && self.second().intact()
    }

    /// What either holds; where both do, what the primary holds.
    open spec fn contents(&self) -> Contents {
        self.second().contents().union_prefer_right(self.first().contents())
    }

    /// Normally the two agree; if the primary is empty, the cache's count lets a
    /// recovering reader see the local copy.
    open spec fn count(&self) -> nat {
        if self.first().count() > 0 {
            self.first().count()
        } else {
            self.second().count()
        }
    }

    open spec fn fits(n: nat) -> bool {
        P::fits(n) && C::fits(n)
    }

    open spec fn sure() -> bool {
        P::sure() && C::sure()
    }

    fn put(&mut self, key: u64, value: &[u8]) -> (r: Result<(), Self::Error>)
        ensures
            r is Ok && old(self).intact() && Self::fits(value@.len()) ==> final(
                self).first().contents() == old(self).first().contents().insert(key, value@)
                && final(self).second().contents() == old(self).second().contents().insert(
                key,
                value@,
            ),
    {
        match self.primary.put(key, value) {
            Ok(()) => {},
            Err(e) => return Err(TeeError::Primary(e)),
        }
        match self.cache.put(key, value) {
            Ok(()) => {},
            Err(e) => {
                self.level = Ghost(false);
                return Err(TeeError::Cache(e));
            },
        }
        proof {
            if old(self).intact() {
                assert(self.contents() =~= old(self).contents().insert(
                    key,
                    self.first().contents()[key],
                ));
            }
        }
        Ok(())
    }

    fn get(&self, key: u64) -> (r: Result<Option<Vec<u8>>, Self::Error>) {
        match self.primary.get(key) {
            Ok(Some(v)) => Ok(Some(v)),
            Ok(None) => match self.cache.get(key) {
                Ok(v) => Ok(v),
                Err(e) => Err(TeeError::Cache(e)),
            },
            Err(e) => Err(TeeError::Primary(e)),
        }
    }

    fn delete(&mut self, key: u64) -> (r: Result<(), Self::Error>)
        ensures
            r is Ok && old(self).intact() ==> final(self).first().contents() == old(self).first().contents().remove(key)
                && final(self).second().contents() == old(self).second().contents().remove(key),
    {
        match self.primary.delete(key) {
            Ok(()) => {},
            Err(e) => return Err(TeeError::Primary(e)),
        }
        match self.cache.delete(key) {
            Ok(()) => {},
            Err(e) => return Err(TeeError::Cache(e)),
        }
        proof {
            if old(self).intact() {
                assert(self.contents() =~= old(self).contents().remove(key));
            }
        }
        Ok(())
    }

    fn len(&self) -> (r: Result<u64, Self::Error>) {
        let p: u64 = match self.primary.len() {
            Ok(n) => n,
            Err(e) => return Err(TeeError::Primary(e)),
        };
        if p > 0 {
            Ok(p)
        } else {
            match self.cache.len() {
                Ok(n) => Ok(n),
                Err(e) => Err(TeeError::Cache(e)),
            }
        }
    }
}

/// The cache recovers the log: while the two sides hold the same, or the primary is
/// empty, what is read is what the cache holds.
pub proof fn law_recover<P: Store, C: Store>(t: &TeeStore<P, C>)
    requires
        t.first().contents() == t.second().contents() || t.first().contents()
            == Map::<u64, Seq<u8>>::empty(),
    ensures
        t.contents() == t.second().contents(),
{
    assert(t.contents() =~= t.second().contents());
}

} // verus!
