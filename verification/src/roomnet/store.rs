//! A store for each writer.
use vstd::prelude::*;
use crate::autobase::WriterKey;
use crate::storage::tee::{TeeError, TeeStore};
use crate::storage::{Contents, MemoryStore, Store};

verus! {

/// Hands out a store of its own to each writer's log. A log uses the whole key space of
/// its store, so two writers cannot share one.
pub trait StoreFactory {
    type Store: Store;

    /// What opening a store fails with.
    type OpenError;

    /// Whether opening a store never fails.
    open spec fn certain() -> bool {
        false
    }

    /// The writers whose stores outlive the factory.
    open spec fn kept(&self) -> Seq<WriterKey> {
        arbitrary()
    }

    /// What the store of a writer's log holds when it is opened.
    open spec fn stored(&self, writer: WriterKey) -> Contents {
        arbitrary()
    }

    /// Open the store of `writer`'s log, a new one or one that was kept. Other writers'
    /// stores are left alone.
    fn open(&mut self, writer: WriterKey) -> (r: Result<Self::Store, Self::OpenError>)
        ensures
            r matches Ok(s) ==> s.wf() && s.intact() && s.contents() == old(self).stored(writer),
            Self::certain() ==> r is Ok,
            forall|w: WriterKey| w != writer ==> #[trigger] final(self).stored(w) == old(
                self,
            ).stored(w),
    ;

    /// The writers whose stores were kept.
    fn known_writers(&self) -> (v: Vec<WriterKey>)
        ensures
            v@ == self.kept(),
    ;
}

/// A new store in memory for each writer. Nothing is kept.
#[derive(Clone, Copy, Debug, Default)]
pub struct MemStoreFactory;

impl StoreFactory for MemStoreFactory {
    type Store = MemoryStore;

    type OpenError = core::convert::Infallible;

    open spec fn certain() -> bool {
        true
    }

    open spec fn kept(&self) -> Seq<WriterKey> {
        Seq::empty()
    }

    open spec fn stored(&self, writer: WriterKey) -> Contents {
        Map::empty()
    }

    fn open(&mut self, _writer: WriterKey) -> (r: Result<MemoryStore, core::convert::Infallible>) {
        Ok(MemoryStore::new())
    }

    fn known_writers(&self) -> (v: Vec<WriterKey>) {
        Vec::new()
    }
}

/// Stores from one factory, each mirrored into one from another, which serves where the
/// first has lost what it had.
pub struct CachedFactory<F, C> {
    inner: F,
    cache: C,
}

impl<F, C> CachedFactory<F, C> {
    /// Where stores come from.
    pub closed spec fn first(&self) -> F {
        self.inner
    }

    /// Where their mirrors come from.
    pub closed spec fn second(&self) -> C {
        self.cache
    }

    /// Stores from `inner`, mirrored into those from `cache`.
    pub fn new(inner: F, cache: C) -> (f: Self)
        ensures
            f.first() == inner,
            f.second() == cache,
    {
        CachedFactory { inner, cache }
    }
}

impl<F: StoreFactory, C: StoreFactory> StoreFactory for CachedFactory<F, C> {
    type Store = TeeStore<F::Store, C::Store>;

    type OpenError = TeeError<F::OpenError, C::OpenError>;

    open spec fn certain() -> bool {
        F::certain() && C::certain()
    }

    open spec fn kept(&self) -> Seq<WriterKey> {
        self.first().kept() + self.second().kept()
    }

    open spec fn stored(&self, writer: WriterKey) -> Contents {
        self.second().stored(writer).union_prefer_right(self.first().stored(writer))
    }

    fn open(&mut self, writer: WriterKey) -> (r: Result<Self::Store, Self::OpenError>) {
        let cache: C::Store = match self.cache.open(writer) {
            Ok(s) => s,
            Err(e) => return Err(TeeError::Cache(e)),
        };
        match self.inner.open(writer) {
            Ok(s) => Ok(TeeStore::new(s, cache)),
            Err(e) => Err(TeeError::Primary(e)),
        }
    }

    fn known_writers(&self) -> (v: Vec<WriterKey>) {
        let mut v: Vec<WriterKey> = self.inner.known_writers();
        let more: Vec<WriterKey> = self.cache.known_writers();
        let mut i: usize = 0;
        assert(v@ + more@.take(0) =~= self.first().kept());
        while i < more.len()
            invariant
                i <= more@.len(),
                more@ == self.second().kept(),
                v@ == self.first().kept() + more@.take(i as int),
            decreases more@.len() - i,
        {
            v.push(more[i]);
            assert(more@.take(i + 1) =~= more@.take(i as int).push(more@[i as int]));
            i = i + 1;
        }
        assert(more@.take(i as int) =~= more@);
        v
    }
}

// ---- file names

/// The digit of four bits.
pub open spec fn digit(v: int) -> u8 {
    if v < 10 {
        (48 + v) as u8
    } else {
        (87 + v) as u8
    }
}

/// Two lowercase hexadecimal digits a byte.
pub open spec fn hex_of(s: Seq<u8>) -> Seq<u8> {
    Seq::new(
        2 * s.len(),
        |i: int|
            if i % 2 == 0 {
                digit(s[i / 2] as int / 16)
            } else {
                digit(s[i / 2] as int % 16)
            },
    )
}

/// What a hexadecimal digit of either case stands for.
pub open spec fn digit_value(c: u8) -> Option<u8> {
    if 48 <= c <= 57 {
        Some((c - 48) as u8)
    } else if 97 <= c <= 102 {
        Some((c - 87) as u8)
    } else if 65 <= c <= 70 {
        Some((c - 55) as u8)
    } else {
        None
    }
}

/// What two characters stand for: two digits, or a plus sign and one digit.
pub open spec fn pair_value(a: u8, b: u8) -> Option<u8> {
    match digit_value(b) {
        None => None,
        Some(y) => if a == 43 {
            Some(y)
        } else {
            match digit_value(a) {
                None => None,
                Some(x) => Some((16 * x + y) as u8),
            }
        },
    }
}

/// Whether 64 characters stand for a key.
pub open spec fn names_key(s: Seq<u8>, key: Seq<u8>) -> bool {
    &&& s.len() == 64
    &&& key.len() == 32
    &&& forall|i: int| 0 <= i < 32 ==> pair_value(s[2 * i], s[2 * i + 1]) == Some(#[trigger] key[i])
}

fn digit_char(v: u8) -> (c: u8)
    requires
        v < 16,
    ensures
        c == digit(v as int),
{
    if v < 10 {
        48 + v
    } else {
        87 + v
    }
}

/// The name of the file that keeps a writer's store: the key in hexadecimal, as ASCII.
pub fn hex(key: &WriterKey) -> (out: Vec<u8>)
    ensures
        out@ == hex_of(key@),
{
    let mut out: Vec<u8> = Vec::new();
    let mut i: usize = 0;
    while i < 32
        invariant
            i <= 32,
            out@ == hex_of(key@).take(2 * i as int),
        decreases 32 - i,
    {
        let b: u8 = key[i];
        let ghost had = out@;
        out.push(digit_char(b / 16));
        out.push(digit_char(b % 16));
        proof {
            assert(out@ =~= hex_of(key@).take(2 * i as int + 2)) by {
                assert forall|j: int| 0 <= j < 2 * i + 2 implies out@[j] == hex_of(key@)[j] by {
                    if j < 2 * i {
                        assert(out@[j] == had[j]);
                    } else if j == 2 * i {
                        assert(j / 2 == i && j % 2 == 0);
                    } else {
                        assert(j / 2 == i && j % 2 == 1);
                    }
                }
            }
        }
        i = i + 1;
    }
    assert(hex_of(key@).take(64) =~= hex_of(key@));
    out
}

fn char_digit(c: u8) -> (v: Option<u8>)
    ensures
        v == digit_value(c),
{
    if 48 <= c && c <= 57 {
        Some(c - 48)
    } else if 97 <= c && c <= 102 {
        Some(c - 87)
    } else if 65 <= c && c <= 70 {
        Some(c - 55)
    } else {
        None
    }
}

fn char_pair(a: u8, b: u8) -> (v: Option<u8>)
    ensures
        v == pair_value(a, b),
{
    match char_digit(b) {
        None => None,
        Some(y) => if a == 43 {
            Some(y)
        } else {
            match char_digit(a) {
                None => None,
                Some(x) => Some(16 * x + y),
            }
        },
    }
}

/// The key that a file name stands for, if it does.
pub fn unhex(name: &[u8]) -> (r: Option<WriterKey>)
    ensures
        match r {
            Some(key) => names_key(name@, key@),
            None => forall|key: WriterKey| !names_key(name@, #[trigger] key@),
        },
{
    if name.len() != 64 {
        return None;
    }
    let mut out: [u8; 32] = [0u8; 32];
    let mut i: usize = 0;
    while i < 32
        invariant
            i <= 32,
            name@.len() == 64,
            forall|j: int|
                0 <= j < i ==> pair_value(name@[2 * j], name@[2 * j + 1]) == Some(
                    #[trigger] out@[j],
                ),
        decreases 32 - i,
    {
        match char_pair(name[2 * i], name[2 * i + 1]) {
            Some(v) => {
                out[i] = v;
            },
            None => {
                proof {
                    assert forall|key: WriterKey| !names_key(name@, #[trigger] key@) by {
                        if names_key(name@, key@) {
                            assert(pair_value(name@[2 * i as int], name@[2 * i as int + 1]) == Some(
                                key@[i as int],
                            ));
                        }
                    }
                }
                return None;
            },
        }
        i = i + 1;
    }
    Some(out)
}

/// A key is what its file name stands for, and nothing else is.
pub proof fn law_file_name(key: WriterKey, other: WriterKey)
    ensures
        names_key(hex_of(key@), key@),
        names_key(hex_of(key@), other@) ==> other == key,
{
    let s = hex_of(key@);
    assert forall|i: int| 0 <= i < 32 implies pair_value(s[2 * i], s[2 * i + 1]) == Some(
        #[trigger] key@[i],
    ) by {
        assert((2 * i) / 2 == i && (2 * i) % 2 == 0);
        assert((2 * i + 1) / 2 == i && (2 * i + 1) % 2 == 1);
        let b = key@[i] as int;
        assert(b == 16 * (b / 16) + b % 16);
    }
    if names_key(s, other@) {
        assert forall|i: int| 0 <= i < 32 implies key@[i] == other@[i] by {
            assert(pair_value(s[2 * i], s[2 * i + 1]) == Some(key@[i]));
            assert(pair_value(s[2 * i], s[2 * i + 1]) == Some(other@[i]));
        }
        assert(key@ =~= other@);
        assert(key =~= other);
    }
}

} // verus!
