//! Walking over a log: decoded blocks of an index range, or encoded blocks of a byte
//! range. A block in range that is absent is skipped.
use vstd::prelude::*;
use super::{ByteStreamOptions, Error, Hypercore, Log, ReadStreamOptions};
use crate::codec::Codec;
use crate::merkle::Tree;
use crate::storage::Store;

verus! {

/// The decoded blocks of the index range `[lo, hi)`, from `lo` up or from `hi` down.
pub struct ReadStream<'a, T, C, S> {
    core: &'a Hypercore<T, C, S>,
    lo: u64,
    hi: u64,
    reverse: bool,
}

/// Whole encoded blocks from block `next` on, until the byte budget is used up.
pub struct ByteStream<'a, T, C, S> {
    core: &'a Hypercore<T, C, S>,
    next: u64,
    budget: u64,
}

/// Whether `i` is the first present block of `[lo, hi)`.
pub open spec fn first_present(log: Log, lo: u64, hi: u64, i: u64) -> bool {
    lo <= i < hi && log.has(i) && forall|k: u64| lo <= k < i ==> !#[trigger] log.has(k)
}

/// Whether `i` is the last present block of `[lo, hi)`.
pub open spec fn last_present(log: Log, lo: u64, hi: u64, i: u64) -> bool {
    lo <= i < hi && log.has(i) && forall|k: u64| i < k < hi ==> !#[trigger] log.has(k)
}

/// Whether no block of `[lo, hi)` is present.
pub open spec fn none_present(log: Log, lo: u64, hi: u64) -> bool {
    forall|k: u64| lo <= k < hi ==> !#[trigger] log.has(k)
}

/// The smaller of two numbers.
pub open spec fn least(a: u64, b: u64) -> u64 {
    if a <= b {
        a
    } else {
        b
    }
}

impl<T, C: Codec<T>, S: Store> Hypercore<T, C, S> {
    /// A walk over the decoded blocks in `[start, end)`, within the log; forward or in
    /// reverse. `live` is ignored.
    pub fn read_stream(&self, opts: ReadStreamOptions) -> (s: ReadStream<'_, T, C, S>)
        ensures
            s.log() == *self,
            s.backward() == opts.reverse,
            ({
                let end = match opts.end {
                    Some(e) => least(e, self@.tree.length),
                    None => self@.tree.length,
                };
                s.from() == least(opts.start, end) && s.upto() == end
            }),
    {
        let len: u64 = self.len();
        let hi: u64 = match opts.end {
            Some(e) => if e < len {
                e
            } else {
                len
            },
            None => len,
        };
        let lo: u64 = if opts.start < hi {
            opts.start
        } else {
            hi
        };
        ReadStream { core: self, lo, hi, reverse: opts.reverse }
    }

    /// A walk over whole encoded blocks that cover the byte range `[byte_offset,
    /// byte_offset + byte_length)`: from the block that `byte_offset` falls in, until the
    /// range is covered. The bytes of that block before the offset are walked as well, so
    /// they come on top of the length. A block without bytes is still emitted while there
    /// are bytes left to cover.
    pub fn byte_stream(&self, opts: ByteStreamOptions) -> (s: ByteStream<'_, T, C, S>)
        requires
            self.wf(),
            Tree::weight(self@.tree.roots_at(self@.tree.length as nat)) <= u64::MAX,
            self@.tree.seek_from(0, opts.byte_offset) is Some,
        ensures
            s.log() == *self,
            s.at() == (self@.tree.seek_from(0, opts.byte_offset)->0).0,
            ({
                let total = Tree::weight(self@.tree.roots_at(self@.tree.length as nat));
                let within = (self@.tree.seek_from(0, opts.byte_offset)->0).1;
                s.left() == match opts.byte_length {
                    Some(n) => if n == 0 {
                        0
                    } else if n + within <= u64::MAX {
                        n + within
                    } else {
                        u64::MAX as int
                    },
                    None => if opts.byte_offset < total {
                        total - (opts.byte_offset - within)
                    } else {
                        0
                    },
                }
            }),
    {
        let total: u64 = self.byte_length();
        let start: (u64, u64) = self.seek(opts.byte_offset);
        proof {
            self@.tree.lemma_seek_within(0, opts.byte_offset);
        }
        let budget: u64 = match opts.byte_length {
            Some(n) => if n == 0 {
                0
            } else {
                n.saturating_add(start.1)
            },
            None => if opts.byte_offset < total {
                let from: u64 = opts.byte_offset - start.1;
                total - from
            } else {
                0
            },
        };
        ByteStream { core: self, next: start.0, budget }
    }
}

impl<'a, T, C: Codec<T>, S: Store> ReadStream<'a, T, C, S> {
    /// The log that is walked.
    pub closed spec fn log(&self) -> Hypercore<T, C, S> {
        *self.core
    }

    /// Where the remaining range starts.
    pub closed spec fn from(&self) -> u64 {
        self.lo
    }

    /// Where the remaining range ends.
    pub closed spec fn upto(&self) -> u64 {
        self.hi
    }

    /// Whether the walk goes down.
    pub closed spec fn backward(&self) -> bool {
        self.reverse
    }

    /// The next present block of the range, decoded.
    pub fn next(&mut self) -> (r: Option<Result<T, Error<S::Error>>>)
        requires
            old(self).log().wf(),
        ensures
            final(self).log() == old(self).log(),
            final(self).backward() == old(self).backward(),
            match r {
                None => none_present(old(self).log()@, old(self).from(), old(self).upto())
                    && none_present(old(self).log()@, final(self).from(), final(self).upto()),
                Some(item) => {
                    let i = if old(self).backward() {
                        final(self).upto()
                    } else {
                        (final(self).from() - 1) as u64
                    };
                    &&& if old(self).backward() {
                        last_present(old(self).log()@, old(self).from(), old(self).upto(), i)
                            && final(self).from() == old(self).from()
                    } else {
                        final(self).from() > 0 && first_present(
                            old(self).log()@,
                            old(self).from(),
                            old(self).upto(),
                            i,
                        ) && final(self).upto() == old(self).upto()
                    }
                    &&& match item {
                        Ok(v) => old(self).log().read(i, Ok(Some(v))),
                        Err(e) => old(self).log().read(i, Err(e)),
                    }
                },
            },
    {
        while self.lo < self.hi
            invariant
                self.log() == old(self).log(),
                old(self).log().wf(),
                self.backward() == old(self).backward(),
                self.backward() ==> self.lo == old(self).lo && self.hi <= old(self).hi
                    && none_present(self.log()@, self.hi, old(self).hi),
                !self.backward() ==> self.hi == old(self).hi && self.lo >= old(self).lo
                    && none_present(self.log()@, old(self).lo, self.lo),
            decreases self.hi - self.lo,
        {
            let i: u64 = if self.reverse {
                self.hi - 1
            } else {
                self.lo
            };
            if self.reverse {
                self.hi = i;
            } else {
                self.lo = i + 1;
            }
            match self.core.get(i) {
                Ok(Some(v)) => {
                    assert(self.log().read(i, Ok(Some(v))));
                    return Some(Ok(v));
                },
                Ok(None) => {},
                Err(e) => {
                    assert(self.log().read(i, Err(e)));
                    return Some(Err(e));
                },
            }
        }
        None
    }
}

impl<'a, T, C: Codec<T>, S: Store> ByteStream<'a, T, C, S> {
    /// The log that is walked.
    pub closed spec fn log(&self) -> Hypercore<T, C, S> {
        *self.core
    }

    /// The next block to consider.
    pub closed spec fn at(&self) -> u64 {
        self.next
    }

    /// The bytes that are left to cover.
    pub closed spec fn left(&self) -> u64 {
        self.budget
    }

    /// The next present block, encoded, while the budget lasts.
    pub fn next(&mut self) -> (r: Option<Result<Vec<u8>, Error<S::Error>>>)
        requires
            old(self).log().wf(),
        ensures
            final(self).log() == old(self).log(),
            ({
                let log = old(self).log()@;
                match r {
                    None => {
                        &&& final(self).left() == old(self).left()
                        &&& if old(self).left() == 0 || old(self).at() >= log.tree.length {
                            final(self).at() == old(self).at()
                        } else {
                            none_present(log, old(self).at(), log.tree.length) && final(self).at()
                                == log.tree.length
                        }
                    },
                    Some(item) => {
                        &&& old(self).left() > 0
                        &&& final(self).at() > 0
                        &&& first_present(
                            log,
                            old(self).at(),
                            log.tree.length,
                            (final(self).at() - 1) as u64,
                        )
                        &&& match item {
                            Ok(b) => (old(self).log().intact() ==> log.block(
                                (final(self).at() - 1) as u64,
                            ) == Some(b@)) && final(self).left() == if b@.len() < old(
                                self,
                            ).left() {
                                old(self).left() - b@.len()
                            } else {
                                0
                            },
                            Err(Error::Corrupt) => (old(self).log().intact() ==> log.block(
                                (final(self).at() - 1) as u64,
                            ) is None) && final(self).left() == old(self).left(),
                            Err(e) => e is Storage && !S::sure() && final(self).left() == old(
                                self,
                            ).left(),
                        }
                    },
                }
            }),
    {
        while self.budget > 0 && self.next < self.core.len()
            invariant
                self.log() == old(self).log(),
                old(self).log().wf(),
                self.budget == old(self).budget,
                self.next >= old(self).next,
                self.next > old(self).next ==> old(self).budget > 0 && self.next
                    <= self.log()@.tree.length,
                none_present(self.log()@, old(self).next, self.next),
            decreases u64::MAX - self.next,
        {
            let i: u64 = self.next;
            self.next = i + 1;
            match self.core.block(i) {
                Ok(Some(b)) => {
                    let n: u64 = b.len() as u64;
                    self.budget = if n < self.budget {
                        self.budget - n
                    } else {
                        0
                    };
                    return Some(Ok(b));
                },
                Ok(None) => {},
                Err(e) => return Some(Err(e)),
            }
        }
        None
    }
}

} // verus!
