//! A sparse, growable bitfield: a presence map over `u64`-indexed blocks.
//!
//! The field is conceptually one bit per index, every one `false` until set. Storage
//! is paged and sparse: a single bit set at a huge index costs one 4 KiB page. A
//! missing page is the same as an all-`false` page, and clearing bits never makes one.
use std::collections::BTreeMap;
use vstd::prelude::*;
use crate::bytes::{get_u64, le64, le_value, lemma_le64, put_u64};
use crate::table::{ascending, keys_of, lemma_keys_exist, lemma_keys_of, sorted_keys};

verus! {

broadcast use vstd::std_specs::btree::group_btree_axioms;

/// Bits per page.
pub const BITS_PER_PAGE: u64 = 32_768;

/// 64-bit words per page.
pub const WORDS_PER_PAGE: usize = 512;

/// The page that holds the last 64-bit index.
pub const LAST_PAGE: u64 = 0x1_ffff_ffff_ffff;

/// Pages by number, each a sequence of words.
pub type Pages = Map<u64, Seq<u64>>;

/// Bit `b` of a word.
pub open spec fn word_bit(w: u64, b: u64) -> bool {
    (w >> b) & 1 == 1
}

/// Bit `b` of a page.
pub open spec fn page_bit(page: Seq<u64>, b: int) -> bool {
    word_bit(page[b / 64], (b % 64) as u64)
}

/// Bit `i` of a field.
pub open spec fn bit_in(pages: Pages, i: u64) -> bool {
    let p = (i / BITS_PER_PAGE) as u64;
    pages.contains_key(p) && page_bit(pages[p], (i % BITS_PER_PAGE) as int)
}

/// How many of the bits `[lo, hi)` equal `value`.
pub open spec fn count_in(pages: Pages, lo: int, hi: int, value: bool) -> nat
    decreases hi - lo,
{
    if lo >= hi {
        0
    } else {
        count_in(pages, lo, hi - 1, value) + if bit_in(pages, (hi - 1) as u64) == value {
            1nat
        } else {
            0
        }
    }
}

/// Whether a page has a bit set.
pub open spec fn live(page: Seq<u64>) -> bool {
    exists|k: int| 0 <= k < page.len() && #[trigger] page[k] != 0
}

/// Those of `keys` whose pages have a bit set, in order.
pub open spec fn live_keys(pages: Pages, keys: Seq<u64>) -> Seq<u64>
    decreases keys.len(),
{
    if keys.len() == 0 {
        Seq::empty()
    } else {
        let rest = live_keys(pages, keys.drop_last());
        if live(pages[keys.last()]) {
            rest.push(keys.last())
        } else {
            rest
        }
    }
}

/// The bytes of words, eight each.
pub open spec fn words_bytes(words: Seq<u64>) -> Seq<u8>
    decreases words.len(),
{
    if words.len() == 0 {
        Seq::empty()
    } else {
        words_bytes(words.drop_last()) + le64(words.last())
    }
}

/// The bytes of the pages under `keys`: number, then words.
pub open spec fn pages_bytes(pages: Pages, keys: Seq<u64>) -> Seq<u8>
    decreases keys.len(),
{
    if keys.len() == 0 {
        Seq::empty()
    } else {
        pages_bytes(pages, keys.drop_last()) + (le64(keys.last()) + words_bytes(
            pages[keys.last()],
        ))
    }
}

/// The bytes that stand for a field: how many pages have a bit set, then those pages.
pub open spec fn field_bytes(pages: Pages) -> Seq<u8> {
    let keys = live_keys(pages, keys_of(pages));
    le64(keys.len() as u64) + pages_bytes(pages, keys)
}

/// The words whose bytes start at `at`.
pub open spec fn words_at(s: Seq<u8>, at: int) -> Seq<u64> {
    Seq::new(
        WORDS_PER_PAGE as nat,
        |k: int| le_value(s.subrange(at + 8 * k, at + 8 * k + 8)) as u64,
    )
}

/// The first `n` pages of a stored field; of two with one number the later counts, and
/// one past the last 64-bit index holds no bit.
pub open spec fn pages_of(s: Seq<u8>, n: nat) -> Pages
    decreases n,
{
    if n == 0 {
        Map::empty()
    } else {
        let at = 8 + 4104 * (n - 1);
        let page = le_value(s.subrange(at, at + 8)) as u64;
        let rest = pages_of(s, (n - 1) as nat);
        if page <= LAST_PAGE {
            rest.insert(page, words_at(s, at + 8))
        } else {
            rest
        }
    }
}

/// The field that `s` stands for: a page count and exactly that many pages.
pub open spec fn parsed_field(s: Seq<u8>) -> Option<Pages> {
    if s.len() < 8 {
        None
    } else {
        let n = le_value(s.subrange(0, 8));
        if s.len() == 8 + 4104 * n {
            Some(pages_of(s, n))
        } else {
            None
        }
    }
}

/// A sparse bitfield over all 64-bit indices. All `false` by default.
#[derive(Debug, Default)]
pub struct Bitfield {
    pages: BTreeMap<u64, Vec<u64>>,
}

impl View for Bitfield {
    type V = Pages;

    closed spec fn view(&self) -> Pages {
        self.pages@.map_values(|v: Vec<u64>| v@)
    }
}

impl Clone for Bitfield {
    fn clone(&self) -> (r: Self)
        ensures
            r@ == self@,
            r.wf() == self.wf(),
    {
        let pages: BTreeMap<u64, Vec<u64>> = self.pages.clone();
        assert(pages@ == self.pages@);
        Bitfield { pages }
    }
}

/// A mask of the bits `[lo, hi)` of a word.
fn word_mask(lo: u64, hi: u64) -> (m: u64)
    requires
        lo <= hi <= 64,
    ensures
        forall|b: u64| b < 64 ==> #[trigger] word_bit(m, b) == (lo <= b < hi),
{
    let n: u64 = hi - lo;
    if n == 0 {
        assert forall|b: u64| b < 64 implies !#[trigger] word_bit(0, b) by {
            assert((0u64 >> b) & 1 == 0) by (bit_vector);
        }
        0
    } else if n == 64 {
        assert forall|b: u64| b < 64 implies #[trigger] word_bit(u64::MAX, b) by {
            assert((0xffff_ffff_ffff_ffffu64 >> b) & 1 == 1) by (bit_vector)
                requires
                    b < 64,
            ;
        }
        u64::MAX
    } else {
        proof {
            assert((1u64 << n) >= 1) by (bit_vector)
                requires
                    n < 64,
            ;
        }
        let m: u64 = ((1u64 << n) - 1) << lo;
        assert forall|b: u64| b < 64 implies #[trigger] word_bit(m, b) == (lo <= b < hi) by {
            assert((m >> b) & 1 == 1 <==> (lo <= b && b < hi)) by (bit_vector)
                requires
                    m == (((1u64 << n) - 1) as u64) << lo,
                    n == hi - lo,
                    lo <= hi,
                    hi <= 64,
                    0 < n,
                    n < 64,
                    b < 64,
            ;
        }
        m
    }
}

/// Whether bit `b` of `page` is set.
fn page_get(page: &Vec<u64>, b: u64) -> (r: bool)
    requires
        page@.len() == WORDS_PER_PAGE,
        b < BITS_PER_PAGE,
    ensures
        r == page_bit(page@, b as int),
{
    (page[(b / 64) as usize] >> (b % 64)) & 1 == 1
}

/// Set (or clear) bits `[lo, hi)` of a page.
fn page_set_range(page: &mut Vec<u64>, lo: u64, hi: u64, value: bool)
    requires
        old(page)@.len() == WORDS_PER_PAGE,
        lo <= hi <= BITS_PER_PAGE,
    ensures
        final(page)@.len() == WORDS_PER_PAGE,
        forall|b: int|
            0 <= b < BITS_PER_PAGE ==> #[trigger] page_bit(final(page)@, b) == if lo <= b < hi {
                value
            } else {
                page_bit(old(page)@, b)
            },
{
    let mut b: u64 = lo;
    while b < hi
        invariant
            page@.len() == WORDS_PER_PAGE,
            old(page)@.len() == WORDS_PER_PAGE,
            lo <= b <= hi <= BITS_PER_PAGE,
            forall|c: int|
                0 <= c < BITS_PER_PAGE ==> #[trigger] page_bit(page@, c) == if lo <= c < b {
                    value
                } else {
                    page_bit(old(page)@, c)
                },
        decreases hi - b,
    {
        let word: usize = (b / 64) as usize;
        let word_top: u64 = (word as u64 + 1) * 64;
        let top: u64 = if hi <= word_top {
            hi
        } else {
            word_top
        };
        let mask: u64 = word_mask(b % 64, top - word as u64 * 64);
        let ghost before = page@;
        let w: u64 = page[word];
        let now: u64 = if value {
            w | mask
        } else {
            w & !mask
        };
        page.set(word, now);
        proof {
            assert forall|c: int| 0 <= c < BITS_PER_PAGE implies #[trigger] page_bit(page@, c)
                == if lo <= c < top {
                value
            } else {
                page_bit(old(page)@, c)
            } by {
                assert(page_bit(before, c) == if lo <= c < b {
                    value
                } else {
                    page_bit(old(page)@, c)
                });
                if c / 64 == word {
                    let k = (c % 64) as u64;
                    assert(word_bit(mask, k) == (b % 64 <= k < top - word * 64));
                    lemma_masked(w, mask, k);
                }
            }
        }
        b = top;
    }
}

proof fn lemma_masked(w: u64, mask: u64, k: u64)
    requires
        k < 64,
    ensures
        word_bit(w | mask, k) == (word_bit(w, k) || word_bit(mask, k)),
        word_bit(w & !mask, k) == (word_bit(w, k) && !word_bit(mask, k)),
        word_bit(w & mask, k) == (word_bit(w, k) && word_bit(mask, k)),
        word_bit(!w, k) == !word_bit(w, k),
{
    assert(((w | mask) >> k) & 1 == 1 <==> ((w >> k) & 1 == 1 || (mask >> k) & 1 == 1))
        by (bit_vector);
    assert(((w & !mask) >> k) & 1 == 1 <==> ((w >> k) & 1 == 1 && !((mask >> k) & 1 == 1)))
        by (bit_vector)
        requires
            k < 64,
    ;
    assert(((w & mask) >> k) & 1 == 1 <==> ((w >> k) & 1 == 1 && (mask >> k) & 1 == 1))
        by (bit_vector);
    assert(((!w) >> k) & 1 == 1 <==> !((w >> k) & 1 == 1)) by (bit_vector)
        requires
            k < 64,
    ;
}

proof fn lemma_zero_word(w: u64)
    ensures
        w == 0 ==> forall|b: u64| b < 64 ==> !#[trigger] word_bit(w, b),
        w != 0 ==> exists|b: u64| b < 64 && #[trigger] word_bit(w, b),
{
    if w == 0 {
        assert forall|b: u64| b < 64 implies !#[trigger] word_bit(w, b) by {
            assert((0u64 >> b) & 1 == 0) by (bit_vector);
        }
    } else {
        vstd::std_specs::bits::axiom_u64_trailing_zeros(w);
        let t = vstd::std_specs::bits::u64_trailing_zeros(w) as u64;
        assert(word_bit(w, t));
    }
}

/// First offset in `[lo, BITS_PER_PAGE)` whose bit equals `value`, if any.
fn page_find_first(page: &Vec<u64>, value: bool, lo: u64) -> (r: Option<u64>)
    requires
        page@.len() == WORDS_PER_PAGE,
        lo <= BITS_PER_PAGE,
    ensures
        match r {
            Some(b) => lo <= b < BITS_PER_PAGE && page_bit(page@, b as int) == value && forall|
                c: int,
            |
                lo <= c < b ==> #[trigger] page_bit(page@, c) != value,
            None => forall|c: int|
                lo <= c < BITS_PER_PAGE ==> #[trigger] page_bit(page@, c) != value,
        },
{
    let mut b: u64 = lo;
    while b < BITS_PER_PAGE
        invariant
            page@.len() == WORDS_PER_PAGE,
            lo <= b <= BITS_PER_PAGE,
            forall|c: int| lo <= c < b ==> #[trigger] page_bit(page@, c) != value,
        decreases BITS_PER_PAGE - b,
    {
        let word: usize = (b / 64) as usize;
        let bit: u64 = b % 64;
        let w: u64 = if value {
            page[word]
        } else {
            !page[word]
        };
        let mask: u64 = word_mask(bit, 64);
        let masked: u64 = w & mask;
        proof {
            assert forall|k: u64| k < 64 implies #[trigger] word_bit(masked, k) == (bit <= k
                && page_bit(page@, word * 64 + k) == value) by {
                lemma_masked(w, mask, k);
                lemma_masked(page@[word as int], mask, k);
                assert(word_bit(mask, k) == (bit <= k < 64));
            }
            lemma_zero_word(masked);
        }
        if masked != 0 {
            let t: u32 = masked.trailing_zeros();
            proof {
                vstd::std_specs::bits::axiom_u64_trailing_zeros(masked);
                assert(word_bit(masked, t as u64));
                assert forall|c: int| lo <= c < word * 64 + t implies #[trigger] page_bit(page@, c)
                    != value by {
                    if c >= b {
                        let k = (c - word * 64) as u64;
                        assert((masked >> k) & 1u64 == 0u64);
                        assert(!word_bit(masked, k));
                    }
                }
            }
            return Some(word as u64 * 64 + t as u64);
        }
        proof {
            assert forall|c: int| lo <= c < (word + 1) * 64 implies #[trigger] page_bit(page@, c)
                != value by {
                if c >= b {
                    let k = (c - word * 64) as u64;
                    assert(!word_bit(masked, k));
                }
            }
        }
        b = (word as u64 + 1) * 64;
    }
    None
}

/// Largest offset in `[0, hi]` whose bit equals `value`, if any.
fn page_find_last(page: &Vec<u64>, value: bool, hi: u64) -> (r: Option<u64>)
    requires
        page@.len() == WORDS_PER_PAGE,
        hi < BITS_PER_PAGE,
    ensures
        match r {
            Some(b) => b <= hi && page_bit(page@, b as int) == value && forall|c: int|
                b < c <= hi ==> #[trigger] page_bit(page@, c) != value,
            None => forall|c: int| 0 <= c <= hi ==> #[trigger] page_bit(page@, c) != value,
        },
{
    let mut top: u64 = hi + 1;
    while top > 0
        invariant
            page@.len() == WORDS_PER_PAGE,
            top <= hi + 1,
            hi < BITS_PER_PAGE,
            forall|c: int| top <= c <= hi ==> #[trigger] page_bit(page@, c) != value,
        decreases top,
    {
        let word: usize = ((top - 1) / 64) as usize;
        let w: u64 = if value {
            page[word]
        } else {
            !page[word]
        };
        let mask: u64 = word_mask(0, top - word as u64 * 64);
        let masked: u64 = w & mask;
        proof {
            assert forall|k: u64| k < 64 implies #[trigger] word_bit(masked, k) == (word * 64 + k
                < top && page_bit(page@, word * 64 + k) == value) by {
                lemma_masked(w, mask, k);
                lemma_masked(page@[word as int], mask, k);
                assert(word_bit(mask, k) == (0 <= k < top - word * 64));
            }
            lemma_zero_word(masked);
        }
        if masked != 0 {
            let z: u32 = masked.leading_zeros();
            proof {
                vstd::std_specs::bits::axiom_u64_leading_zeros(masked);
                let t = (63 - z) as u64;
                assert((masked >> t) & 1u64 == 0 || (masked >> t) & 1u64 == 1) by (bit_vector);
                assert((masked >> t) & 1u64 != 0u64);
                assert(word_bit(masked, t));
                assert forall|c: int| word * 64 + t < c <= hi implies #[trigger] page_bit(page@, c)
                    != value by {
                    if c < top {
                        let k = (c - word * 64) as u64;
                        assert((masked >> k) & 1u64 == 0u64);
                        assert(!word_bit(masked, k));
                    }
                }
            }
            return Some(word as u64 * 64 + (63 - z as u64));
        }
        proof {
            assert forall|c: int| word * 64 <= c <= hi implies #[trigger] page_bit(page@, c)
                != value by {
                if c < top {
                    let k = (c - word * 64) as u64;
                    assert(!word_bit(masked, k));
                }
            }
        }
        top = word as u64 * 64;
    }
    None
}

/// A fresh page, all `false`.
fn blank_page() -> (page: Vec<u64>)
    ensures
        page@.len() == WORDS_PER_PAGE,
        forall|b: int| 0 <= b < BITS_PER_PAGE ==> !#[trigger] page_bit(page@, b),
{
    let mut page: Vec<u64> = Vec::new();
    let mut i: usize = 0;
    while i < WORDS_PER_PAGE
        invariant
            i <= WORDS_PER_PAGE,
            page@.len() == i,
            forall|k: int| 0 <= k < i ==> page@[k] == 0,
        decreases WORDS_PER_PAGE - i,
    {
        page.push(0);
        i = i + 1;
    }
    proof {
        lemma_zero_word(0);
        assert forall|b: int| 0 <= b < BITS_PER_PAGE implies !#[trigger] page_bit(page@, b) by {
            assert(page@[b / 64] == 0);
            assert(!word_bit(0, (b % 64) as u64));
        }
    }
    page
}

/// Where index `i` lies.
proof fn lemma_index(i: u64)
    ensures
        i / BITS_PER_PAGE <= LAST_PAGE,
        i == (i / BITS_PER_PAGE) * BITS_PER_PAGE + i % BITS_PER_PAGE,
{
}

impl Bitfield {
    /// Every page has its full width and holds 64-bit indices.
    pub closed spec fn wf(&self) -> bool {
        forall|p: u64| #[trigger]
            self.pages@.contains_key(p) ==> p <= LAST_PAGE && self.pages@[p]@.len()
                == WORDS_PER_PAGE
    }

    /// What well-formedness says of the pages.
    pub proof fn lemma_wf(&self)
        requires
            self.wf(),
        ensures
            proper(self@),
    {
        assert(self@.dom() =~= self.pages@.dom());
        assert forall|p: u64| #[trigger] self@.contains_key(p) implies p <= LAST_PAGE
            && self@[p].len() == WORDS_PER_PAGE by {
            assert(self.pages@.contains_key(p));
        }
    }

    /// Bit `i`.
    pub open spec fn bit(&self, i: u64) -> bool {
        bit_in(self@, i)
    }

    /// A fresh, all-`false` bitfield.
    pub fn new() -> (f: Self)
        ensures
            f.wf(),
            f@ == Map::<u64, Seq<u64>>::empty(),
            forall|i: u64| !#[trigger] f.bit(i),
    {
        let f: Bitfield = Bitfield { pages: BTreeMap::new() };
        assert(f@ =~= Map::<u64, Seq<u64>>::empty());
        f
    }

    /// Whether no page is stored.
    pub fn is_blank(&self) -> (b: bool)
        ensures
            b == (self@.dom() == Set::<u64>::empty()),
    {
        let b: bool = self.pages.is_empty();
        proof {
            if b {
                assert(self@.dom() =~= Set::<u64>::empty());
            } else if self@.dom() == Set::<u64>::empty() {
                assert(self.pages@.dom() =~= Set::<u64>::empty());
            }
        }
        b
    }

    /// Whether bit `index` is set. Never-touched indices read `false`.
    pub fn get(&self, index: u64) -> (r: bool)
        requires
            self.wf(),
        ensures
            r == self.bit(index),
    {
        match self.pages.get(&(index / BITS_PER_PAGE)) {
            Some(p) => page_get(p, index % BITS_PER_PAGE),
            None => false,
        }
    }

    /// Set bits `[lo, hi)` of page `page`.
    fn write_page(&mut self, page: u64, lo: u64, hi: u64, value: bool)
        requires
            old(self).wf(),
            page <= LAST_PAGE,
            lo <= hi <= BITS_PER_PAGE,
        ensures
            final(self).wf(),
            forall|i: u64| #[trigger]
                final(self).bit(i) == if i / BITS_PER_PAGE == page && lo <= i % BITS_PER_PAGE < hi {
                    value
                } else {
                    old(self).bit(i)
                },
            !value && !old(self)@.contains_key(page) ==> final(self)@ == old(self)@,
            forall|p: u64| p != page ==> #[trigger] final(self)@.contains_key(p) == old(
                self,
            )@.contains_key(p),
            old(self)@.contains_key(page) ==> final(self)@.contains_key(page),
    {
        let ghost before = self.pages@;
        match self.pages.remove(&page) {
            Some(p) => {
                let mut p: Vec<u64> = p;
                page_set_range(&mut p, lo, hi, value);
                self.pages.insert(page, p);
                assert forall|i: u64| #[trigger] self.bit(i) == if i / BITS_PER_PAGE == page && lo
                    <= i % BITS_PER_PAGE < hi {
                    value
                } else {
                    old(self).bit(i)
                } by {
                    if i / BITS_PER_PAGE == page {
                        assert(before.contains_key(page));
                        assert(page_bit(p@, (i % BITS_PER_PAGE) as int) == page_bit(
                            self@[page],
                            (i % BITS_PER_PAGE) as int,
                        ));
                    }
                }
            },
            None => {
                if value {
                    let mut p: Vec<u64> = blank_page();
                    page_set_range(&mut p, lo, hi, true);
                    self.pages.insert(page, p);
                    assert forall|i: u64| #[trigger] self.bit(i) == if i / BITS_PER_PAGE == page
                        && lo <= i % BITS_PER_PAGE < hi {
                        value
                    } else {
                        old(self).bit(i)
                    } by {
                        if i / BITS_PER_PAGE == page {
                            assert(page_bit(p@, (i % BITS_PER_PAGE) as int) == page_bit(
                                self@[page],
                                (i % BITS_PER_PAGE) as int,
                            ));
                        }
                    }
                } else {
                    assert(self.pages@ =~= before);
                }
            },
        }
    }

    /// Set bit `index` to `value`. Setting `true` grows storage on demand; setting
    /// `false` never makes a page.
    pub fn set(&mut self, index: u64, value: bool)
        requires
            old(self).wf(),
        ensures
            final(self).wf(),
            forall|i: u64| #[trigger]
                final(self).bit(i) == if i == index {
                    value
                } else {
                    old(self).bit(i)
                },
            !value ==> final(self)@.dom() == old(self)@.dom(),
    {
        proof {
            lemma_index(index);
        }
        let b: u64 = index % BITS_PER_PAGE;
        let ghost before = *self;
        self.write_page(index / BITS_PER_PAGE, b, b + 1, value);
        proof {
            assert forall|i: u64| #[trigger] self.bit(i) == if i == index {
                value
            } else {
                old(self).bit(i)
            } by {
                lemma_index(i);
            }
            if !value {
                let page = (index / BITS_PER_PAGE) as u64;
                lemma_kept(before@, self@, page);
            }
        }
    }

    /// Set every bit in the half-open range `[start, end)` to `value`. `end <= start` is
    /// a no-op.
    pub fn set_range(&mut self, start: u64, end: u64, value: bool)
        requires
            old(self).wf(),
        ensures
            final(self).wf(),
            forall|i: u64| #[trigger]
                final(self).bit(i) == if start <= i < end {
                    value
                } else {
                    old(self).bit(i)
                },
            !value ==> final(self)@.dom() == old(self)@.dom(),
    {
        let mut i: u64 = start;
        while i < end
            invariant
                self.wf(),
                start <= i || i == start,
                i <= end || i == start,
                forall|k: u64| #[trigger]
                    self.bit(k) == if start <= k < i {
                        value
                    } else {
                        old(self).bit(k)
                    },
                !value ==> self@.dom() == old(self)@.dom(),
            decreases end - i,
        {
            let page: u64 = i / BITS_PER_PAGE;
            let base: u64 = page * BITS_PER_PAGE;
            let stop: u64 = if end - base <= BITS_PER_PAGE {
                end
            } else {
                base + BITS_PER_PAGE
            };
            proof {
                lemma_index(i);
            }
            let ghost before = *self;
            self.write_page(page, i - base, stop - base, value);
            proof {
                assert forall|k: u64| #[trigger] self.bit(k) == if start <= k < stop {
                    value
                } else {
                    old(self).bit(k)
                } by {
                    lemma_index(k);
                    assert(before.bit(k) == if start <= k < i {
                        value
                    } else {
                        old(self).bit(k)
                    });
                }
                if !value {
                    lemma_kept(before@, self@, page);
                }
            }
            i = stop;
        }
    }

    /// Number of bits equal to `value` in the range `[start, start + length)`. The second
    /// argument is a length, not an end.
    pub fn count(&self, start: u64, length: u64, value: bool) -> (c: u64)
        requires
            self.wf(),
            start + length <= u64::MAX,
        ensures
            c == count_in(self@, start as int, start + length, value),
    {
        let end: u64 = start + length;
        let mut i: u64 = start;
        let mut c: u64 = 0;
        while i < end
            invariant
                self.wf(),
                start <= i <= end,
                c <= i - start,
                c == count_in(self@, start as int, i as int, value),
            decreases end - i,
        {
            let page: u64 = i / BITS_PER_PAGE;
            let base: u64 = page * BITS_PER_PAGE;
            let stop: u64 = if end - base <= BITS_PER_PAGE {
                end
            } else {
                base + BITS_PER_PAGE
            };
            match self.pages.get(&page) {
                Some(p) => {
                    while i < stop
                        invariant
                            self.wf(),
                            start <= i <= stop <= end,
                            base == page * BITS_PER_PAGE,
                            base <= i,
                            stop - base <= BITS_PER_PAGE,
                            self.pages@.contains_key(page),
                            *p == self.pages@[page],
                            c <= i - start,
                            c == count_in(self@, start as int, i as int, value),
                        decreases stop - i,
                    {
                        proof {
                            assert(i / BITS_PER_PAGE == page);
                            assert(i % BITS_PER_PAGE == i - base);
                            assert(self@.contains_key(page));
                        }
                        if page_get(p, i - base) == value {
                            c = c + 1;
                        }
                        i = i + 1;
                    }
                },
                None => {
                    proof {
                        assert forall|k: u64| i <= k < stop implies !#[trigger] bit_in(self@, k) by {
                            assert(k / BITS_PER_PAGE == page);
                            assert(!self@.contains_key(page));
                        }
                        lemma_count_blank(self@, start as int, i as int, stop as int, value);
                    }
                    if !value {
                        c = c + (stop - i);
                    }
                    i = stop;
                },
            }
        }
        c
    }

    /// The smallest index `>= position` whose bit equals `value`, or `None`.
    pub fn find_first(&self, value: bool, position: u64) -> (r: Option<u64>)
        requires
            self.wf(),
        ensures
            match r {
                Some(i) => i >= position && self.bit(i) == value && forall|k: u64|
                    position <= k < i ==> #[trigger] self.bit(k) != value,
                None => forall|k: u64| k >= position ==> #[trigger] self.bit(k) != value,
            },
    {
        let start: u64 = position / BITS_PER_PAGE;
        proof {
            lemma_index(position);
        }
        if value {
            let keys: Vec<u64> = sorted_keys(&self.pages);
            let mut k: usize = 0;
            while k < keys.len()
                invariant
                    value,
                    self.wf(),
                    k <= keys.len(),
                    start == position / BITS_PER_PAGE,
                    ascending(keys@),
                    keys@.to_set() == self.pages@.dom(),
                    forall|j: int, i: u64|
                        0 <= j < k && i >= position && i / BITS_PER_PAGE == keys@[j]
                            ==> !#[trigger] self.bit_at(i, keys@[j]),
                decreases keys.len() - k,
            {
                let page: u64 = keys[k];
                proof {
                    assert(keys@.contains(page));
                    assert(keys@.to_set().contains(page));
                }
                if page >= start {
                    match self.pages.get(&page) {
                        None => {},
                        Some(p) => {
                            let lo: u64 = if page == start {
                                position % BITS_PER_PAGE
                            } else {
                                0
                            };
                            match page_find_first(p, true, lo) {
                                Some(off) => {
                                    let at: u64 = page * BITS_PER_PAGE + off;
                                    proof {
                                        self.lemma_bit(page, off);
                                        lemma_index(position);
                                        assert forall|i: u64| position <= i < at implies !#[trigger] self.bit(
                                            i,
                                        ) by {
                                            lemma_index(i);
                                            let q = (i / BITS_PER_PAGE) as u64;
                                            if self.bit(i) {
                                                assert(self.pages@.contains_key(q));
                                                assert(keys@.to_set().contains(q));
                                                let j = choose|j: int|
                                                    0 <= j < keys@.len() && keys@[j] == q;
                                                if j < k {
                                                    assert(!self.bit_at(i, keys@[j]));
                                                } else {
                                                    assert(q == page);
                                                    assert(!page_bit(
                                                        p@,
                                                        (i % BITS_PER_PAGE) as int,
                                                    ));
                                                }
                                            }
                                        }
                                    }
                                    return Some(at);
                                },
                                None => {
                                    proof {
                                        assert forall|i: u64| i >= position && i / BITS_PER_PAGE == page implies !#[trigger] self.bit_at(
                                            i,
                                            page,
                                        ) by {
                                            lemma_index(i);
                                            assert(!page_bit(p@, (i % BITS_PER_PAGE) as int));
                                        }
                                    }
                                },
                            }
                        },
                    }
                } else {
                    assert forall|i: u64| i >= position && i / BITS_PER_PAGE == page implies !#[trigger] self.bit_at(
                        i,
                        page,
                    ) by {
                        lemma_index(i);
                    }
                }
                k = k + 1;
            }
            proof {
                assert forall|i: u64| i >= position implies !#[trigger] self.bit(i) by {
                    let q = (i / BITS_PER_PAGE) as u64;
                    if self.bit(i) {
                        assert(self.pages@.contains_key(q));
                        assert(keys@.to_set().contains(q));
                        let j = choose|j: int| 0 <= j < keys@.len() && keys@[j] == q;
                        assert(!self.bit_at(i, keys@[j]));
                    }
                }
            }
            None
        } else {
            let mut page: u64 = start;
            loop
                invariant
                    !value,
                    self.wf(),
                    start == position / BITS_PER_PAGE,
                    start <= page <= LAST_PAGE,
                    forall|i: u64|
                        i >= position && i / BITS_PER_PAGE < page ==> #[trigger] self.bit(i),
                decreases LAST_PAGE - page,
            {
                let lo: u64 = if page == start {
                    position % BITS_PER_PAGE
                } else {
                    0
                };
                match self.pages.get(&page) {
                    None => {
                        let at: u64 = page * BITS_PER_PAGE + lo;
                        proof {
                            self.lemma_bit(page, lo);
                            lemma_index(position);
                            assert forall|i: u64| position <= i < at implies #[trigger] self.bit(
                                i,
                            ) by {
                                lemma_index(i);
                            }
                        }
                        return Some(at);
                    },
                    Some(p) => match page_find_first(p, false, lo) {
                        Some(off) => {
                            let at: u64 = page * BITS_PER_PAGE + off;
                            proof {
                                self.lemma_bit(page, off);
                                lemma_index(position);
                                assert forall|i: u64| position <= i < at implies #[trigger] self.bit(
                                    i,
                                ) by {
                                    lemma_index(i);
                                    if i / BITS_PER_PAGE == page {
                                        assert(page_bit(p@, (i % BITS_PER_PAGE) as int));
                                    }
                                }
                            }
                            return Some(at);
                        },
                        None => {
                            proof {
                                assert forall|i: u64| i >= position && i / BITS_PER_PAGE <= page implies #[trigger] self.bit(
                                    i,
                                ) by {
                                    lemma_index(i);
                                    if i / BITS_PER_PAGE == page {
                                        assert(page_bit(p@, (i % BITS_PER_PAGE) as int));
                                    }
                                }
                            }
                            if page == LAST_PAGE {
                                proof {
                                    assert forall|i: u64| i >= position implies #[trigger] self.bit(
                                        i,
                                    ) by {
                                        lemma_index(i);
                                    }
                                }
                                return None;
                            }
                            page = page + 1;
                        },
                    },
                }
            }
        }
    }

    /// Where the bits of a page lie.
    proof fn lemma_bit(&self, page: u64, off: u64)
        requires
            page <= LAST_PAGE,
            off < BITS_PER_PAGE,
        ensures
            page * BITS_PER_PAGE + off <= u64::MAX,
            ((page * BITS_PER_PAGE + off) / BITS_PER_PAGE as int) == page,
            self.bit((page * BITS_PER_PAGE + off) as u64) == (self.pages@.contains_key(page)
                && page_bit(self.pages@[page]@, off as int)),
    {
        let at = (page * BITS_PER_PAGE + off) as u64;
        assert((at / BITS_PER_PAGE) as u64 == page);
        assert((at % BITS_PER_PAGE) == off);
        assert(self@.contains_key(page) == self.pages@.contains_key(page));
    }

    /// Bit `i`, which lies in page `page`.
    spec fn bit_at(&self, i: u64, page: u64) -> bool {
        self.bit(i)
    }

    /// The largest index `<= position` whose bit equals `value`, or `None`.
    pub fn find_last(&self, value: bool, position: u64) -> (r: Option<u64>)
        requires
            self.wf(),
        ensures
            match r {
                Some(i) => i <= position && self.bit(i) == value && forall|k: u64|
                    i < k <= position ==> #[trigger] self.bit(k) != value,
                None => forall|k: u64| k <= position ==> #[trigger] self.bit(k) != value,
            },
    {
        let start: u64 = position / BITS_PER_PAGE;
        proof {
            lemma_index(position);
        }
        if value {
            let keys: Vec<u64> = sorted_keys(&self.pages);
            let mut k: usize = keys.len();
            while k > 0
                invariant
                    value,
                    self.wf(),
                    k <= keys.len(),
                    start == position / BITS_PER_PAGE,
                    ascending(keys@),
                    keys@.to_set() == self.pages@.dom(),
                    forall|j: int, i: u64|
                        k <= j < keys@.len() && i <= position && i / BITS_PER_PAGE == keys@[j]
                            ==> !#[trigger] self.bit_at(i, keys@[j]),
                decreases k,
            {
                k = k - 1;
                let page: u64 = keys[k];
                proof {
                    assert(keys@.contains(page));
                    assert(keys@.to_set().contains(page));
                }
                if page <= start {
                    match self.pages.get(&page) {
                        None => {},
                        Some(p) => {
                            let hi: u64 = if page == start {
                                position % BITS_PER_PAGE
                            } else {
                                BITS_PER_PAGE - 1
                            };
                            match page_find_last(p, true, hi) {
                                Some(off) => {
                                    let at: u64 = page * BITS_PER_PAGE + off;
                                    proof {
                                        self.lemma_bit(page, off);
                                        lemma_index(position);
                                        assert forall|i: u64| at < i <= position implies !#[trigger] self.bit(
                                            i,
                                        ) by {
                                            lemma_index(i);
                                            let q = (i / BITS_PER_PAGE) as u64;
                                            if self.bit(i) {
                                                assert(self.pages@.contains_key(q));
                                                assert(keys@.to_set().contains(q));
                                                let j = choose|j: int|
                                                    0 <= j < keys@.len() && keys@[j] == q;
                                                if j > k {
                                                    assert(!self.bit_at(i, keys@[j]));
                                                } else {
                                                    assert(q == page);
                                                    assert(!page_bit(
                                                        p@,
                                                        (i % BITS_PER_PAGE) as int,
                                                    ));
                                                }
                                            }
                                        }
                                    }
                                    return Some(at);
                                },
                                None => {
                                    proof {
                                        assert forall|i: u64| i <= position && i / BITS_PER_PAGE == page implies !#[trigger] self.bit_at(
                                            i,
                                            page,
                                        ) by {
                                            lemma_index(i);
                                            assert(!page_bit(p@, (i % BITS_PER_PAGE) as int));
                                        }
                                    }
                                },
                            }
                        },
                    }
                } else {
                    assert forall|i: u64| i <= position && i / BITS_PER_PAGE == page implies !#[trigger] self.bit_at(
                        i,
                        page,
                    ) by {
                        lemma_index(i);
                    }
                }
            }
            proof {
                assert forall|i: u64| i <= position implies !#[trigger] self.bit(i) by {
                    let q = (i / BITS_PER_PAGE) as u64;
                    if self.bit(i) {
                        assert(self.pages@.contains_key(q));
                        assert(keys@.to_set().contains(q));
                        let j = choose|j: int| 0 <= j < keys@.len() && keys@[j] == q;
                        assert(!self.bit_at(i, keys@[j]));
                    }
                }
            }
            None
        } else {
            let mut page: u64 = start;
            loop
                invariant
                    !value,
                    self.wf(),
                    start == position / BITS_PER_PAGE,
                    page <= start <= LAST_PAGE,
                    forall|i: u64|
                        i <= position && i / BITS_PER_PAGE > page ==> #[trigger] self.bit(i),
                decreases page,
            {
                let hi: u64 = if page == start {
                    position % BITS_PER_PAGE
                } else {
                    BITS_PER_PAGE - 1
                };
                match self.pages.get(&page) {
                    None => {
                        let at: u64 = page * BITS_PER_PAGE + hi;
                        proof {
                            self.lemma_bit(page, hi);
                            lemma_index(position);
                            assert forall|i: u64| at < i <= position implies #[trigger] self.bit(
                                i,
                            ) by {
                                lemma_index(i);
                            }
                        }
                        return Some(at);
                    },
                    Some(p) => match page_find_last(p, false, hi) {
                        Some(off) => {
                            let at: u64 = page * BITS_PER_PAGE + off;
                            proof {
                                self.lemma_bit(page, off);
                                lemma_index(position);
                                assert forall|i: u64| at < i <= position implies #[trigger] self.bit(
                                    i,
                                ) by {
                                    lemma_index(i);
                                    if i / BITS_PER_PAGE == page {
                                        assert(page_bit(p@, (i % BITS_PER_PAGE) as int));
                                    }
                                }
                            }
                            return Some(at);
                        },
                        None => {
                            proof {
                                assert forall|i: u64| i <= position && i / BITS_PER_PAGE >= page implies #[trigger] self.bit(
                                    i,
                                ) by {
                                    lemma_index(i);
                                    if i / BITS_PER_PAGE == page {
                                        assert(page_bit(p@, (i % BITS_PER_PAGE) as int));
                                    }
                                }
                            }
                            if page == 0 {
                                return None;
                            }
                            page = page - 1;
                        },
                    },
                }
            }
        }
    }

    /// First set index `>= position`.
    pub fn first_set(&self, position: u64) -> (r: Option<u64>)
        requires
            self.wf(),
        ensures
            match r {
                Some(i) => i >= position && self.bit(i) && forall|k: u64|
                    position <= k < i ==> !#[trigger] self.bit(k),
                None => forall|k: u64| k >= position ==> !#[trigger] self.bit(k),
            },
    {
        self.find_first(true, position)
    }

    /// First unset index `>= position`.
    pub fn first_unset(&self, position: u64) -> (r: Option<u64>)
        requires
            self.wf(),
        ensures
            match r {
                Some(i) => i >= position && !self.bit(i) && forall|k: u64|
                    position <= k < i ==> #[trigger] self.bit(k),
                None => forall|k: u64| k >= position ==> #[trigger] self.bit(k),
            },
    {
        self.find_first(false, position)
    }

    /// Last set index `<= position`.
    pub fn last_set(&self, position: u64) -> (r: Option<u64>)
        requires
            self.wf(),
        ensures
            match r {
                Some(i) => i <= position && self.bit(i) && forall|k: u64|
                    i < k <= position ==> !#[trigger] self.bit(k),
                None => forall|k: u64| k <= position ==> !#[trigger] self.bit(k),
            },
    {
        self.find_last(true, position)
    }

    /// Last unset index `<= position`.
    pub fn last_unset(&self, position: u64) -> (r: Option<u64>)
        requires
            self.wf(),
        ensures
            match r {
                Some(i) => i <= position && !self.bit(i) && forall|k: u64|
                    i < k <= position ==> #[trigger] self.bit(k),
                None => forall|k: u64| k <= position ==> #[trigger] self.bit(k),
            },
    {
        self.find_last(false, position)
    }

    /// Serialize the field: `[page count]` then, per page that has a bit set,
    /// `[page number][words]`, all little-endian.
    pub fn serialize(&self) -> (out: Vec<u8>)
        requires
            self.wf(),
        ensures
            out@ == field_bytes(self@),
    {
        let keys: Vec<u64> = sorted_keys(&self.pages);
        proof {
            assert(self@.dom() =~= self.pages@.dom());
            lemma_keys_of(self@, keys@);
        }
        let mut alive: Vec<u64> = Vec::new();
        let mut k: usize = 0;
        assert(keys@.take(0) =~= Seq::<u64>::empty());
        while k < keys.len()
            invariant
                self.wf(),
                k <= keys.len(),
                keys@.to_set() == self.pages@.dom(),
                alive@ == live_keys(self@, keys@.take(k as int)),
                forall|j: int| 0 <= j < alive@.len() ==> self.pages@.contains_key(#[trigger] alive@[j]),
            decreases keys.len() - k,
        {
            proof {
                assert(keys@.contains(keys@[k as int]));
                assert(keys@.to_set().contains(keys@[k as int]));
                assert(keys@.take(k + 1).drop_last() =~= keys@.take(k as int));
            }
            match self.pages.get(&keys[k]) {
                None => {},
                Some(p) => {
                    if is_live(p) {
                        alive.push(keys[k]);
                    }
                },
            }
            k = k + 1;
        }
        assert(keys@.take(k as int) =~= keys@);
        let mut out: Vec<u8> = Vec::new();
        put_u64(&mut out, alive.len() as u64);
        let ghost head = le64(alive.len() as u64);
        let mut j: usize = 0;
        proof {
            assert(alive@.take(0) =~= Seq::<u64>::empty());
            assert(out@ =~= head + pages_bytes(self@, alive@.take(0)));
        }
        while j < alive.len()
            invariant
                self.wf(),
                j <= alive.len(),
                forall|j: int| 0 <= j < alive@.len() ==> self.pages@.contains_key(#[trigger] alive@[j]),
                out@ == head + pages_bytes(self@, alive@.take(j as int)),
            decreases alive.len() - j,
        {
            let ghost before = out@;
            proof {
                assert(self.pages@.contains_key(alive@[j as int]));
                assert(alive@.take(j + 1).drop_last() =~= alive@.take(j as int));
            }
            put_u64(&mut out, alive[j]);
            match self.pages.get(&alive[j]) {
                None => {},
                Some(p) => {
                    put_words(&mut out, p);
                },
            }
            j = j + 1;
            assert(out@ =~= head + pages_bytes(self@, alive@.take(j as int)));
        }
        assert(alive@.take(j as int) =~= alive@);
        out
    }

    /// Reconstruct a field from [`serialize`](Self::serialize) output. Returns `None` on
    /// a malformed buffer (truncated, or trailing bytes). A page past the last 64-bit
    /// index holds no bit and is left out.
    pub fn deserialize(bytes: &[u8]) -> (r: Option<Self>)
        ensures
            match r {
                Some(f) => f.wf() && parsed_field(bytes@) == Some(f@),
                None => parsed_field(bytes@) is None,
            },
    {
        if bytes.len() < 8 {
            return None;
        }
        let count: u64 = get_u64(bytes, 0);
        let body: usize = bytes.len() - 8;
        if body % 4104 != 0 || (body / 4104) as u64 != count {
            return None;
        }
        let mut f: Bitfield = Bitfield::new();
        let mut k: usize = 0;
        while k < body / 4104
            invariant
                bytes.len() == body + 8,
                body % 4104 == 0,
                k <= body / 4104,
                f.wf(),
                f@ == pages_of(bytes@, k as nat),
            decreases body / 4104 - k,
        {
            let at: usize = 8 + 4104 * k;
            let page: u64 = get_u64(bytes, at);
            let words: Vec<u64> = get_words(bytes, at + 8);
            let ghost before = f;
            if page <= LAST_PAGE {
                f.pages.insert(page, words);
                assert(f@ =~= before@.insert(page, words@));
            }
            k = k + 1;
            assert(8 + 4104 * (k - 1) == at);
        }
        Some(f)
    }
}

/// Whether a page has a bit set.
fn is_live(p: &Vec<u64>) -> (r: bool)
    ensures
        r == live(p@),
{
    let mut k: usize = 0;
    while k < p.len()
        invariant
            k <= p.len(),
            forall|j: int| 0 <= j < k ==> #[trigger] p@[j] == 0,
        decreases p.len() - k,
    {
        if p[k] != 0 {
            assert(p@[k as int] != 0);
            return true;
        }
        k = k + 1;
    }
    false
}

fn put_words(out: &mut Vec<u8>, words: &Vec<u64>)
    ensures
        final(out)@ == old(out)@ + words_bytes(words@),
{
    let mut k: usize = 0;
    proof {
        assert(words@.take(0) =~= Seq::<u64>::empty());
        assert(out@ =~= out@ + words_bytes(words@.take(0)));
    }
    while k < words.len()
        invariant
            k <= words.len(),
            out@ == old(out)@ + words_bytes(words@.take(k as int)),
        decreases words.len() - k,
    {
        put_u64(out, words[k]);
        k = k + 1;
        proof {
            assert(words@.take(k as int).drop_last() =~= words@.take(k - 1));
            assert(out@ =~= old(out)@ + words_bytes(words@.take(k as int)));
        }
    }
    assert(words@.take(k as int) =~= words@);
}

fn get_words(s: &[u8], at: usize) -> (words: Vec<u64>)
    requires
        at + 4096 <= s.len(),
    ensures
        words@ == words_at(s@, at as int),
{
    let mut words: Vec<u64> = Vec::new();
    let mut k: usize = 0;
    while k < WORDS_PER_PAGE
        invariant
            k <= WORDS_PER_PAGE,
            at + 4096 <= s.len(),
            words@ == words_at(s@, at as int).take(k as int),
        decreases WORDS_PER_PAGE - k,
    {
        words.push(get_u64(s, at + 8 * k));
        k = k + 1;
        assert(words@ =~= words_at(s@, at as int).take(k as int));
    }
    assert(words@ =~= words_at(s@, at as int));
    words
}

/// Clearing keeps the pages that there are.
proof fn lemma_kept(before: Pages, after: Pages, page: u64)
    requires
        !before.contains_key(page) ==> after == before,
        forall|p: u64| p != page ==> #[trigger] after.contains_key(p) == before.contains_key(p),
        before.contains_key(page) ==> after.contains_key(page),
    ensures
        after.dom() == before.dom(),
{
    assert forall|p: u64| after.dom().contains(p) == before.dom().contains(p) by {
        assert(after.contains_key(p) == before.contains_key(p));
    }
    assert(after.dom() =~= before.dom());
}

/// A stretch of unset bits adds its length to the unset count.
proof fn lemma_count_blank(pages: Pages, lo: int, a: int, b: int, value: bool)
    requires
        lo <= a <= b <= 0x1_0000_0000_0000_0000,
        0 <= lo,
        forall|k: u64| a <= k < b ==> !#[trigger] bit_in(pages, k),
    ensures
        count_in(pages, lo, b, value) == count_in(pages, lo, a, value) + if value {
            0
        } else {
            b - a
        },
    decreases b - a,
{
    if a < b {
        assert(!bit_in(pages, (b - 1) as u64));
        lemma_count_blank(pages, lo, a, b - 1, value);
    }
}

/// Whether pages have their full width and hold 64-bit indices.
pub open spec fn proper(pages: Pages) -> bool {
    &&& pages.dom().finite()
    &&& forall|p: u64| #[trigger]
        pages.contains_key(p) ==> p <= LAST_PAGE && pages[p].len() == WORDS_PER_PAGE
}

proof fn lemma_words(words: Seq<u64>, k: int)
    ensures
        words_bytes(words).len() == 8 * words.len(),
        0 <= k < words.len() ==> words_bytes(words).subrange(8 * k, 8 * k + 8) == le64(words[k]),
    decreases words.len(),
{
    if words.len() > 0 {
        let rest = words.drop_last();
        lemma_le64(words.last());
        lemma_words(rest, k);
        if k == words.len() - 1 {
            assert(words_bytes(words).subrange(8 * k, 8 * k + 8) =~= le64(words[k]));
        } else if 0 <= k < words.len() {
            assert(words_bytes(words).subrange(8 * k, 8 * k + 8) =~= words_bytes(rest).subrange(
                8 * k,
                8 * k + 8,
            ));
        }
    }
}

proof fn lemma_pages(pages: Pages, keys: Seq<u64>, m: int)
    requires
        forall|j: int| 0 <= j < keys.len() ==> pages[#[trigger] keys[j]].len() == WORDS_PER_PAGE,
    ensures
        pages_bytes(pages, keys).len() == 4104 * keys.len(),
        0 <= m < keys.len() ==> pages_bytes(pages, keys).subrange(4104 * m, 4104 * m + 4104)
            == le64(keys[m]) + words_bytes(pages[keys[m]]),
    decreases keys.len(),
{
    if keys.len() > 0 {
        let rest = keys.drop_last();
        let last = le64(keys.last()) + words_bytes(pages[keys.last()]);
        assert(pages[keys[keys.len() - 1]].len() == WORDS_PER_PAGE);
        lemma_le64(keys.last());
        lemma_words(pages[keys.last()], 0);
        assert forall|j: int| 0 <= j < rest.len() implies pages[#[trigger] rest[j]].len()
            == WORDS_PER_PAGE by {
            assert(rest[j] == keys[j]);
        }
        lemma_pages(pages, rest, m);
        if m == keys.len() - 1 {
            assert(pages_bytes(pages, keys).subrange(4104 * m, 4104 * m + 4104) =~= last);
        } else if 0 <= m < keys.len() {
            assert(pages_bytes(pages, keys).subrange(4104 * m, 4104 * m + 4104) =~= pages_bytes(
                pages,
                rest,
            ).subrange(4104 * m, 4104 * m + 4104));
        }
    }
}

proof fn lemma_live_keys(pages: Pages, keys: Seq<u64>)
    requires
        ascending(keys),
    ensures
        ascending(live_keys(pages, keys)),
        forall|k: u64| #[trigger]
            live_keys(pages, keys).contains(k) <==> keys.contains(k) && live(pages[k]),
    decreases keys.len(),
{
    if keys.len() > 0 {
        let rest = keys.drop_last();
        lemma_live_keys(pages, rest);
        let out = live_keys(pages, keys);
        let inner = live_keys(pages, rest);
        assert forall|k: u64| #[trigger] out.contains(k) <==> keys.contains(k) && live(pages[k]) by {
            if keys.contains(k) {
                let j = choose|j: int| 0 <= j < keys.len() && keys[j] == k;
                if j < keys.len() - 1 {
                    assert(rest[j] == k);
                }
                if live(pages[k]) {
                    if j == keys.len() - 1 {
                        assert(out[out.len() - 1] == k);
                    } else {
                        assert(inner.contains(k));
                        let i = choose|i: int| 0 <= i < inner.len() && inner[i] == k;
                        assert(out[i] == k);
                    }
                }
            }
            if out.contains(k) {
                let i = choose|i: int| 0 <= i < out.len() && out[i] == k;
                if i < inner.len() {
                    assert(inner[i] == k);
                    assert(inner.contains(k));
                    let j = choose|j: int| 0 <= j < rest.len() && rest[j] == k;
                    assert(keys[j] == k);
                } else {
                    assert(keys[keys.len() - 1] == k);
                }
            }
        }
        assert forall|i: int, j: int| 0 <= i < j < out.len() implies out[i] < out[j] by {
            if j == inner.len() {
                assert(inner.contains(inner[i]));
                let a = choose|a: int| 0 <= a < rest.len() && rest[a] == inner[i];
                assert(keys[a] == out[i]);
            }
        }
    }
}

proof fn lemma_ascending_len(s: Seq<u64>, i: int)
    requires
        ascending(s),
        0 <= i < s.len(),
    ensures
        s[i] >= i,
    decreases i,
{
    if i > 0 {
        lemma_ascending_len(s, i - 1);
    }
}

/// The pages that were read back after `m` of the written ones.
proof fn lemma_read_back(pages: Pages, keys: Seq<u64>, m: nat)
    requires
        proper(pages),
        forall|j: int| 0 <= j < keys.len() ==> pages.contains_key(#[trigger] keys[j]),
        m <= keys.len(),
    ensures
        pages_of(le64(keys.len() as u64) + pages_bytes(pages, keys), m) == pages.restrict(
            keys.take(m as int).to_set(),
        ),
    decreases m,
{
    let s = le64(keys.len() as u64) + pages_bytes(pages, keys);
    let now = keys.take(m as int).to_set();
    if m == 0 {
        assert(pages.restrict(now) =~= Map::<u64, Seq<u64>>::empty());
    } else {
        let k = (m - 1) as int;
        let key = keys[k];
        let at = 8 + 4104 * (m - 1);
        lemma_read_back(pages, keys, (m - 1) as nat);
        lemma_pages(pages, keys, k);
        lemma_le64(keys.len() as u64);
        lemma_le64(key);
        let one = le64(key) + words_bytes(pages[key]);
        let from = pages_bytes(pages, keys).subrange(4104 * k, 4104 * k + 4104);
        assert(from == one);
        lemma_words(pages[key], 0);
        assert(one.len() == 4104);
        assert(s.subrange(at, at + 8) =~= from.subrange(0, 8));
        assert(one.subrange(0, 8) =~= le64(key));
        assert(le_value(s.subrange(at, at + 8)) as u64 == key);
        assert(words_at(s, at + 8) =~= pages[key]) by {
            assert forall|j: int| 0 <= j < WORDS_PER_PAGE implies words_at(s, at + 8)[j]
                == pages[key][j] by {
                lemma_words(pages[key], j);
                lemma_le64(pages[key][j]);
                assert(s.subrange(at + 8 + 8 * j, at + 8 + 8 * j + 8) =~= from.subrange(
                    8 + 8 * j,
                    8 + 8 * j + 8,
                ));
                assert(one.subrange(8 + 8 * j, 8 + 8 * j + 8) =~= words_bytes(pages[key]).subrange(
                    8 * j,
                    8 * j + 8,
                ));
            }
        }
        let before = keys.take(m - 1).to_set();
        assert(now =~= before.insert(key)) by {
            assert forall|x: u64| now.contains(x) == before.insert(key).contains(x) by {
                let a = keys.take(m as int);
                let b = keys.take(m - 1);
                if a.contains(x) {
                    let j = choose|j: int| 0 <= j < a.len() && a[j] == x;
                    if j < m - 1 {
                        assert(b[j] == x);
                    }
                }
                if b.contains(x) {
                    let j = choose|j: int| 0 <= j < b.len() && b[j] == x;
                    assert(a[j] == x);
                }
                assert(a[m - 1] == key);
            }
        }
        assert(pages.restrict(now) =~= pages.restrict(before).insert(key, pages[key]));
    }
}

/// A page without a set bit is all zero words.
proof fn lemma_not_live(page: Seq<u64>, b: int)
    requires
        page.len() == WORDS_PER_PAGE,
        !live(page),
        0 <= b < BITS_PER_PAGE,
    ensures
        !page_bit(page, b),
{
    assert(page[b / 64] == 0);
    lemma_zero_word(0);
    assert(!word_bit(0, (b % 64) as u64));
}

/// Reading back a stored field gives the same bits.
pub proof fn law_serialize(pages: Pages)
    requires
        proper(pages),
    ensures
        parsed_field(field_bytes(pages)) is Some,
        forall|i: u64|
            bit_in(parsed_field(field_bytes(pages))->0, i) == #[trigger] bit_in(pages, i),
{
    let all = keys_of(pages);
    lemma_keys_exist(pages);
    let keys = live_keys(pages, all);
    lemma_live_keys(pages, all);
    assert forall|j: int| 0 <= j < keys.len() implies pages.contains_key(#[trigger] keys[j]) by {
        assert(keys.contains(keys[j]));
        assert(all.contains(keys[j]));
        assert(all.to_set().contains(keys[j]));
    }
    if keys.len() > 0 {
        lemma_ascending_len(keys, keys.len() - 1);
        assert(pages.contains_key(keys[keys.len() - 1]));
    }
    assert(keys.len() <= u64::MAX);
    lemma_le64(keys.len() as u64);
    let s = field_bytes(pages);
    lemma_pages(pages, keys, 0);
    assert(s.subrange(0, 8) =~= le64(keys.len() as u64));
    lemma_read_back(pages, keys, keys.len());
    assert(keys.take(keys.len() as int) =~= keys);
    let q = pages_of(s, keys.len());
    assert forall|i: u64| bit_in(q, i) == #[trigger] bit_in(pages, i) by {
        let p = (i / BITS_PER_PAGE) as u64;
        if pages.contains_key(p) {
            assert(all.to_set().contains(p));
            assert(all.contains(p));
            if !live(pages[p]) {
                lemma_not_live(pages[p], (i % BITS_PER_PAGE) as int);
                assert(!keys.contains(p));
            } else {
                assert(keys.contains(p));
            }
        }
    }
}

} // verus!
