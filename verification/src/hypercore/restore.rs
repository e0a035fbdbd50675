//! Taking up a log, or a replica of one, from the blocks that its store holds.
use vstd::prelude::*;
use super::laws::{appended_each, held, law_batch};
use super::writer::{lemma_grown_tree, stored_blocks};
use super::{empty_tree, Error, Hypercore, Log};
use crate::codec::Codec;
use crate::merkle::laws::{
    bytes_before, holds, law_append, law_empty, law_held_is_keyed, lemma_bytes_mono,
    lemma_bytes_same, lemma_held_roots,
};
use crate::merkle::{Tree, MAX_BLOCKS};
use crate::storage::{Contents, Store};

verus! {

/// Where the blocks end that a store holds without a gap from `i` on.
pub open spec fn stored_end(c: Contents, i: nat) -> nat
    decreases u64::MAX + 1 - i,
{
    if i > u64::MAX || !c.contains_key(i as u64) {
        i
    } else {
        stored_end(c, i + 1)
    }
}

/// The blocks that a store holds without a gap from `i` on.
pub open spec fn stored_from(c: Contents, i: nat) -> Seq<Seq<u8>> {
    stored_blocks(c, stored_end(c, i)).skip(i as int)
}

pub proof fn lemma_stored_end(c: Contents, i: nat)
    requires
        i <= u64::MAX + 1,
    ensures
        i <= stored_end(c, i) <= u64::MAX + 1,
        forall|k: u64| i <= k < stored_end(c, i) ==> #[trigger] c.contains_key(k),
        stored_end(c, i) <= u64::MAX ==> !c.contains_key(stored_end(c, i) as u64),
    decreases u64::MAX + 1 - i,
{
    if i <= u64::MAX && c.contains_key(i as u64) {
        lemma_stored_end(c, i + 1);
        assert forall|k: u64| i <= k < stored_end(c, i) implies #[trigger] c.contains_key(k) by {
            if k > i {
                assert(i + 1 <= k);
            }
        }
    }
}

/// The end does not depend on where among the blocks one starts.
pub proof fn lemma_end_from(c: Contents, i: nat, j: nat)
    requires
        i <= j <= stored_end(c, i),
        i <= u64::MAX + 1,
    ensures
        stored_end(c, j) == stored_end(c, i),
    decreases j - i,
{
    if i < j {
        lemma_stored_end(c, i);
        assert(c.contains_key(i as u64));
        lemma_end_from(c, i + 1, j);
    }
}

/// Whether blocks fit into 64-bit indices and sizes.
pub open spec fn fitting(blocks: Seq<Seq<u8>>) -> bool {
    blocks.len() < MAX_BLOCKS && bytes_before(blocks, blocks.len()) <= u64::MAX
}

/// A new log with blocks, under one head if there are any.
pub open spec fn taken_up(log: Log, blocks: Seq<Seq<u8>>) -> Log {
    if blocks.len() == 0 {
        log
    } else {
        log.committed(blocks)
    }
}

/// What the next block changes about the tree of the blocks before it.
pub proof fn lemma_next(t: Tree, blocks: Seq<Seq<u8>>, k: int)
    requires
        0 <= k < blocks.len(),
        holds(t, blocks.take(k)),
    ensures
        t.keyed(),
        t.has_roots(k as nat),
        !t.nodes.contains_key(u64::MAX),
        blocks.take(k + 1).drop_last() == blocks.take(k),
        blocks.take(k + 1).last() == blocks[k],
        bytes_before(blocks.take(k), k as nat) == bytes_before(blocks, k as nat),
        bytes_before(blocks, (k + 1) as nat) == bytes_before(blocks, k as nat) + blocks[k].len(),
        k + 1 < MAX_BLOCKS && bytes_before(blocks, (k + 1) as nat) <= u64::MAX
            ==> t.can_append(blocks[k]) && holds(t.appended(blocks[k]), blocks.take(k + 1)),
        fitting(blocks) ==> k + 1 < MAX_BLOCKS && bytes_before(blocks, (k + 1) as nat)
            <= u64::MAX,
{
    let part = blocks.take(k);
    law_held_is_keyed(t, part);
    lemma_held_roots(t, part, part.len());
    assert(blocks.take(k + 1) =~= part.push(blocks[k]));
    assert(blocks.take(k + 1).drop_last() =~= part);
    lemma_bytes_same(part, blocks, k as nat);
    lemma_bytes_mono(blocks, (k + 1) as nat, blocks.len());
    if k + 1 < MAX_BLOCKS && bytes_before(blocks, (k + 1) as nat) <= u64::MAX {
        law_append(t, part, blocks[k]);
    }
}

/// The tree of the blocks as a log keeps it.
pub proof fn lemma_all(t: Tree, blocks: Seq<Seq<u8>>)
    requires
        holds(t, blocks),
    ensures
        t.keyed(),
        t.length < MAX_BLOCKS,
        t.has_roots(t.length as nat),
        !t.nodes.contains_key(u64::MAX),
        fitting(blocks),
{
    law_held_is_keyed(t, blocks);
    lemma_held_roots(t, blocks, blocks.len());
}

impl<T, C: Codec<T>, S: Store> Hypercore<T, C, S> {
    /// Take up the blocks that the store of a new log holds without a gap, and sign the log
    /// that they make. A log is taken up so after a restart.
    pub fn restore(&mut self) -> (r: Result<(), Error<S::Error>>)
        requires
            old(self).wf(),
            old(self).intact(),
            old(self)@.tree == empty_tree(),
        ensures
            final(self).codec() == old(self).codec(),
            ({
                let blocks = stored_from(old(self)@.contents, 0);
                match r {
                    Ok(()) => {
                        &&& final(self).wf()
                        &&& final(self).intact()
                        &&& fitting(blocks)
                        &&& final(self)@ == taken_up(old(self)@, blocks)
                        &&& holds(final(self)@.tree, blocks)
                        &&& final(self)@.contents == old(self)@.contents
                    },
                    Err(Error::Corrupt) => !fitting(blocks),
                    Err(e) => e is Storage && !S::sure(),
                }
            }),
    {
        let ghost log = self@;
        let ghost c = log.contents;
        let ghost n = stored_end(c, 0);
        let ghost blocks = stored_from(c, 0);
        let mut total: u64 = 0;
        proof {
            lemma_stored_end(c, 0);
            law_empty();
            assert(blocks.take(0) =~= Seq::<Seq<u8>>::empty());
        }
        loop
            invariant_except_break
                self.codec() == old(self).codec(),
                log == old(self)@,
                c == log.contents,
                n == stored_end(c, 0),
                n <= u64::MAX + 1,
                blocks == stored_from(c, 0),
                self.sound(),
                self.intact(),
                self@.tree.length <= n,
                self@.contents == c,
                holds(self@.tree, blocks.take(self@.tree.length as int)),
                total == bytes_before(blocks, self@.tree.length as nat),
                self@ == log.grown_by(blocks.take(self@.tree.length as int)),
            ensures
                self.codec() == old(self).codec(),
                self.sound(),
                self.intact(),
                self@.contents == c,
                holds(self@.tree, blocks),
                self@ == log.grown_by(blocks),
            decreases n - self@.tree.length,
        {
            let i: u64 = self.tree.len();
            proof {
                lemma_end_from(c, 0, i as nat);
                assert(blocks.len() == n);
            }
            let data: Vec<u8> = match self.store.get(i) {
                Ok(Some(b)) => b,
                Ok(None) => {
                    assert(blocks.take(i as int) =~= blocks);
                    break ;
                },
                Err(e) => return Err(Error::Storage(e)),
            };
            proof {
                lemma_stored_end(c, i as nat);
                assert(blocks[i as int] == data@);
                lemma_next(self@.tree, blocks, i as int);
            }
            match total.checked_add(data.len() as u64) {
                Some(t) => {
                    total = t;
                },
                None => return Err(Error::Corrupt),
            }
            if i + 1 >= MAX_BLOCKS {
                return Err(Error::Corrupt);
            }
            let ghost before = self@;
            self.tree.append(data.as_slice());
            self.presence.set(i, true);
            proof {
                assert(self@.present =~= before.present.insert(i));
                assert(before.contents.insert(i, data@) =~= before.contents);
                assert(self@ =~= before.grown(data@));
            }
        }
        proof {
            lemma_all(self@.tree, blocks);
            lemma_grown_tree(log, blocks);
        }
        if self.tree.len() > 0 {
            self.last_truncation = None;
            assert(self@ =~= Log { truncation: None, ..log.grown_by(blocks) });
            self.resign();
        } else {
            assert(blocks =~= Seq::<Seq<u8>>::empty());
        }
        Ok(())
    }
}

/// What a new log is with more blocks.
proof fn lemma_grown_parts(log: Log, blocks: Seq<Seq<u8>>)
    requires
        log.tree == empty_tree(),
        fitting(blocks),
    ensures
        ({
            let g = log.grown_by(blocks);
            &&& holds(g.tree, blocks)
            &&& forall|i: u64| #[trigger]
                g.present.contains(i) == (log.present.contains(i) || i < blocks.len())
            &&& forall|i: u64| #[trigger]
                g.contents.contains_key(i) == (log.contents.contains_key(i) || i < blocks.len())
            &&& forall|i: u64|
                g.contents.contains_key(i) ==> #[trigger] g.contents[i] == if i < blocks.len() {
                    blocks[i as int]
                } else {
                    log.contents[i]
                }
        }),
    decreases blocks.len(),
{
    if blocks.len() == 0 {
        law_empty();
        assert(blocks =~= Seq::<Seq<u8>>::empty());
    } else {
        let less = blocks.drop_last();
        lemma_bytes_same(less, blocks, less.len());
        lemma_grown_parts(log, less);
        let g = log.grown_by(less);
        law_append(g.tree, less, blocks.last());
        assert(less.push(blocks.last()) =~= blocks);
        assert(g.tree.length == less.len());
    }
}

/// A new log takes up what its store holds whole: every block is there, and the head is
/// over them.
pub proof fn law_taken_up(log: Log)
    requires
        log.tree == empty_tree(),
        log.head is None,
        fitting(stored_from(log.contents, 0)),
    ensures
        ({
            let blocks = stored_from(log.contents, 0);
            let t = taken_up(log, blocks);
            &&& held(t, blocks)
            &&& t.contents == log.contents
            &&& stored_blocks(t.contents, t.tree.length as nat) == blocks
            &&& forall|i: u64| i < t.tree.length ==> #[trigger] t.has(i)
        }),
{
    let c = log.contents;
    let blocks = stored_from(c, 0);
    let t = taken_up(log, blocks);
    lemma_stored_end(c, 0);
    lemma_grown_parts(log, blocks);
    lemma_grown_tree(log, blocks);
    assert(t.contents =~= c);
    assert(stored_blocks(t.contents, t.tree.length as nat) =~= blocks);
}

/// What was appended is taken up again: a new log over a store in which one was appended
/// to block by block takes up that very log, head and signature with it.
pub proof fn law_restore(log: Log, blocks: Seq<Seq<u8>>)
    requires
        log.tree == empty_tree(),
        log.truncation is None,
        fitting(blocks),
        forall|i: u64| i <= blocks.len() ==> !#[trigger] log.contents.contains_key(i),
    ensures
        ({
            let full = appended_each(log, blocks);
            let again = Log { contents: full.contents, ..log };
            &&& stored_from(full.contents, 0) == blocks
            &&& taken_up(again, blocks) == full
        }),
{
    let full = appended_each(log, blocks);
    let c = full.contents;
    let again = Log { contents: c, ..log };
    if blocks.len() > 0 {
        law_batch(log, blocks);
    }
    lemma_grown_parts(log, blocks);
    lemma_grown_tree(log, blocks);
    lemma_grown_parts(again, blocks);
    lemma_grown_tree(again, blocks);
    assert(c == log.grown_by(blocks).contents);
    lemma_stored_end(c, 0);
    let n = stored_end(c, 0);
    if n < blocks.len() {
        assert(c.contains_key(n as u64));
    } else if n > blocks.len() {
        assert(c.contains_key(blocks.len() as u64));
    }
    assert(stored_from(c, 0) =~= blocks);
    assert(again.grown_by(blocks).contents =~= c);
    assert(again.grown_by(blocks).present =~= log.grown_by(blocks).present);
    assert(taken_up(again, blocks) =~= full);
}

} // verus!
