//! What a log leaves in its store, and what is read of it.
use vstd::prelude::*;
use super::meta::{head_field, meta_bytes, parsed_meta, parsed_prologue, prologue_field};
use super::replica::Replica;
use super::restore::{fitting, lemma_stored_end, stored_end, stored_from};
use super::stream::{first_present, last_present, none_present};
use super::user_data::{data_bytes, field, field_at, law_user_data, pairs_bytes, parsed_data};
use super::writer::{
    all_fit, credible, described, is_persisted, keeps_presence, persisted, stored_blocks,
    taken_back, user_data,
};
use super::{can_extend, extended, Error, Hypercore, Log, Prologue, SignedHead};
use crate::bytemap::{listed, map_of, sorted, Pairs};
use crate::bytes::{le64, le_value};
use crate::codec::Codec;
use crate::identity::PublicKey;
use crate::merkle::laws::bytes_before;
use crate::merkle::tree::parsed_tree;
use crate::merkle::Tree;
use crate::storage::bitfield::{bit_in, parsed_field};
use crate::storage::{Contents, Store};

verus! {

/// A log's metadata are its fork, its head and its prologue; each of the two after a byte
/// that tells whether there is one.
pub proof fn law_meta_bytes(fork: u64, h: SignedHead, p: Prologue)
    ensures
        head_field(None) == seq![0u8],
        head_field(Some(h)) == seq![1u8] + le64(h.fork) + le64(h.length) + h.root@ + h.sig@@,
        prologue_field(None) == seq![0u8],
        prologue_field(Some(p)) == seq![1u8] + le64(p.length) + p.hash@,
        meta_bytes(fork, Some(h), Some(p)) == le64(fork) + head_field(Some(h)) + prologue_field(
            Some(p),
        ),
        meta_bytes(fork, Some(h), None) == le64(fork) + head_field(Some(h)) + seq![0u8],
        meta_bytes(fork, None, Some(p)) == le64(fork) + seq![0u8] + prologue_field(Some(p)),
        meta_bytes(fork, None, None) == le64(fork) + seq![0u8, 0u8],
{
    assert(head_field(Some(h)) =~= seq![1u8] + le64(h.fork) + le64(h.length) + h.root@ + h.sig@@);
    assert(prologue_field(Some(p)) =~= seq![1u8] + le64(p.length) + p.hash@);
    assert(meta_bytes(fork, Some(h), Some(p)) =~= le64(fork) + head_field(Some(h))
        + prologue_field(Some(p)));
    assert(meta_bytes(fork, Some(h), None) =~= le64(fork) + head_field(Some(h)) + seq![0u8]);
    assert(meta_bytes(fork, None, Some(p)) =~= le64(fork) + seq![0u8] + prologue_field(Some(p)));
    assert(meta_bytes(fork, None, None) =~= le64(fork) + seq![0u8, 0u8]);
}

/// Bytes are metadata if and only if they have one of the four shapes, and nothing follows.
pub proof fn law_meta_read(s: Seq<u8>)
    ensures
        parsed_meta(s) is Some <==> {
            ||| s.len() == 10 && s[8] == 0 && s[9] == 0
            ||| s.len() == 50 && s[8] == 0 && s[9] == 1
            ||| s.len() == 122 && s[8] == 1 && s[121] == 0
            ||| s.len() == 162 && s[8] == 1 && s[121] == 1
        },
        parsed_meta(s) matches Some(m) ==> {
            &&& m.0 == le_value(s.subrange(0, 8)) as u64
            &&& m.1 is Some <==> s[8] == 1
            &&& m.1 matches Some(h) ==> h.fork == le_value(s.subrange(9, 17)) as u64 && h.length
                == le_value(s.subrange(17, 25)) as u64
        },
{
    assert(parsed_prologue(s, 9) is Some <==> (s.len() == 10 && s[9] == 0) || (s.len() == 50
        && s[9] == 1));
    assert(parsed_prologue(s, 121) is Some <==> (s.len() == 122 && s[121] == 0) || (s.len() == 162
        && s[121] == 1));
}

/// The author's metadata are the number of pairs, and the pairs in key order, key and value
/// each after its length.
pub proof fn law_data_bytes(m: Map<Seq<u8>, Seq<u8>>, s: Pairs, k: Seq<u8>, v: Seq<u8>)
    ensures
        data_bytes(m) == le64(listed(m).len() as u64) + pairs_bytes(listed(m)),
        field(k) == le64(k.len() as u64) + k,
        pairs_bytes(Seq::empty()) == Seq::<u8>::empty(),
        pairs_bytes(seq![(k, v)] + s) == le64(k.len() as u64) + k + le64(v.len() as u64) + v
            + pairs_bytes(s),
{
    assert((seq![(k, v)] + s).skip(1) =~= s);
    assert(pairs_bytes(seq![(k, v)] + s) =~= le64(k.len() as u64) + k + le64(v.len() as u64) + v
        + pairs_bytes(s));
}

/// A field is there if and only if its length and all its bytes are.
pub proof fn law_field_read(s: Seq<u8>, at: int)
    requires
        0 <= at <= s.len(),
    ensures
        match field_at(s, at) {
            Some(f) => {
                &&& at + 8 + f.0.len() <= s.len()
                &&& f.0.len() == le_value(s.subrange(at, at + 8))
                &&& f.0 == s.subrange(at + 8, at + 8 + f.0.len())
                &&& f.1 == at + 8 + f.0.len()
            },
            None => at + 8 > s.len() || at + 8 + le_value(s.subrange(at, at + 8)) > s.len(),
        },
{
}

/// The author's metadata read back as they were set; a store without any has none, and no
/// block is touched by them.
pub proof fn law_data_kept(c: Contents, list: Pairs, i: u64)
    requires
        sorted(list),
        list.len() <= u64::MAX,
        forall|i: int|
            0 <= i < list.len() ==> (#[trigger] list[i]).0.len() <= u64::MAX && list[i].1.len()
                <= u64::MAX,
        i < 0x8000_0000_0000_0000,
    ensures
        !c.contains_key(0xffff_ffff_ffff_fffc) ==> user_data(c) == Some(
            Map::<Seq<u8>, Seq<u8>>::empty(),
        ),
        c.contains_key(0xffff_ffff_ffff_fffc) ==> user_data(c) == parsed_data(
            c[0xffff_ffff_ffff_fffc],
        ),
        ({
            let now = c.insert(0xffff_ffff_ffff_fffc, data_bytes(map_of(list)));
            &&& user_data(now) == Some(map_of(list))
            &&& now.contains_key(i) == c.contains_key(i)
            &&& now[i] == c[i]
        }),
{
    law_user_data(list);
}

/// Persisting a log writes its tree, its presence and its metadata, each under a key that is
/// no block's, and leaves everything else in the store.
pub proof fn law_persist_changes(log: Log, presence: Seq<u8>, k: u64)
    ensures
        ({
            let now = persisted(log, presence);
            &&& now.contains_key(0xffff_ffff_ffff_ffff)
            &&& now[0xffff_ffff_ffff_ffff] == meta_bytes(log.fork, log.head, log.prologue)
            &&& now.contains_key(0xffff_ffff_ffff_fffe)
            &&& now[0xffff_ffff_ffff_fffe] == log.tree.serialized()
            &&& now.contains_key(0xffff_ffff_ffff_fffd)
            &&& now[0xffff_ffff_ffff_fffd] == presence
            &&& k < 0xffff_ffff_ffff_fffd ==> now.contains_key(k) == log.contents.contains_key(k)
                && now[k] == log.contents[k]
            &&& is_persisted(now)
        }),
        is_persisted(log.contents) <==> log.contents.contains_key(0xffff_ffff_ffff_ffff)
            && log.contents.contains_key(0xffff_ffff_ffff_fffe) && log.contents.contains_key(
            0xffff_ffff_ffff_fffd,
        ),
{
}

/// A store describes a log if and only if tree, presence and metadata all read; the log then
/// has exactly those, and is the one that asks for it.
pub proof fn law_described(c: Contents, seed: [u8; 32], public: PublicKey, i: u64)
    ensures
        ({
            let tree = parsed_tree(c[0xffff_ffff_ffff_fffe]);
            let pages = parsed_field(c[0xffff_ffff_ffff_fffd]);
            let meta = parsed_meta(c[0xffff_ffff_ffff_ffff]);
            match described(c, seed, public) {
                Some(log) => {
                    &&& tree == Some(log.tree)
                    &&& pages is Some
                    &&& log.present.contains(i) == bit_in(pages->0, i)
                    &&& meta == Some((log.fork, log.head, log.prologue))
                    &&& log.seed == seed
                    &&& log.public == public
                    &&& log.contents == c
                    &&& log.truncation is None
                },
                None => tree is None || pages is None || meta is None,
            }
        }),
        forall|b: Seq<u8>, s: Set<u64>| #[trigger]
            keeps_presence(b, s) <==> (parsed_field(b) matches Some(f) && forall|k: u64| #[trigger]
                bit_in(f, k) == s.contains(k)),
{
}

/// What is described is a log if and only if its tree has its roots within 64 bits, and the
/// head is over that tree and the author's.
pub proof fn law_credible(log: Log)
    ensures
        credible(log) <==> {
            &&& log.tree.length < 0x8000_0000_0000_0000
            &&& log.tree.has_roots(log.tree.length as nat)
            &&& !log.tree.nodes.contains_key(u64::MAX)
            &&& log.verified()
        },
{
}

/// A store holds, from a place on, the blocks up to the first that is missing, all of them.
pub proof fn law_stored(c: Contents, k: u64)
    ensures
        ({
            let blocks = stored_from(c, 0);
            &&& k < blocks.len() ==> c.contains_key(k) && blocks[k as int] == c[k]
            &&& k == blocks.len() ==> !c.contains_key(k)
            &&& stored_end(c, 0) == blocks.len()
        }),
{
    lemma_stored_end(c, 0);
    if k < stored_end(c, 0) {
        assert(c.contains_key(k));
    }
}

/// Blocks fit if and only if 64 bits number them and count their bytes.
pub proof fn law_fits(blocks: Seq<Seq<u8>>)
    ensures
        fitting(blocks) <==> blocks.len() < 0x8000_0000_0000_0000 && bytes_before(
            blocks,
            blocks.len(),
        ) <= u64::MAX,
        bytes_before(blocks, 0) == 0,
{
}

/// The stored blocks are what the store holds under their numbers.
pub proof fn law_stored_blocks(c: Contents, n: nat, i: int)
    ensures
        stored_blocks(c, n).len() == n,
        0 <= i < n ==> stored_blocks(c, n)[i] == c[i as u64],
{
}

/// A tree takes one block after the other, if each fits on top of those before.
pub proof fn law_extends(t: Tree, blocks: Seq<Seq<u8>>, b: Seq<u8>)
    ensures
        extended(t, Seq::empty()) == t,
        extended(t, blocks.push(b)) == extended(t, blocks).appended(b),
        can_extend(t, Seq::empty()),
        can_extend(t, blocks.push(b)) <==> can_extend(t, blocks) && extended(
            t,
            blocks,
        ).can_append(b),
{
    assert(blocks.push(b).drop_last() =~= blocks);
}

/// What is taken back of a failed write is what was written past the end, and nothing else.
pub proof fn law_taken_back(log: Log, k: nat, i: u64)
    ensures
        log.tree.length <= i < log.tree.length + k ==> !taken_back(log, k).contains_key(i),
        !(log.tree.length <= i < log.tree.length + k) ==> taken_back(log, k).contains_key(i)
            == log.contents.contains_key(i) && (log.contents.contains_key(i) ==> taken_back(
            log,
            k,
        )[i] == log.contents[i]),
{
}

/// Blocks fit a store if and only if each does.
pub proof fn law_all_fit<S: Store>(blocks: Seq<Seq<u8>>)
    ensures
        all_fit::<S>(blocks) <==> forall|i: int|
            0 <= i < blocks.len() ==> S::fits((#[trigger] blocks[i]).len()),
{
}

/// A walk loses no block and gives none twice: going up, every present block of the range is
/// the one that is given or lies after it; going down, before it; and where none is given
/// none is there.
pub proof fn law_walk(log: Log, lo: u64, hi: u64, i: u64, k: u64)
    requires
        lo <= k < hi,
        log.has(k),
    ensures
        first_present(log, lo, hi, i) ==> log.has(i) && lo <= i && (k == i || i + 1 <= k < hi),
        last_present(log, lo, hi, i) ==> log.has(i) && i < hi && (k == i || lo <= k < i),
        !none_present(log, lo, hi),
{
}

/// Where no block of a range is present the walk is over, and else it has a next one.
pub proof fn law_walk_goes_on(log: Log, lo: u64, hi: u64)
    ensures
        none_present(log, lo, hi) <==> !exists|k: u64| lo <= k < hi && #[trigger] log.has(k),
        !none_present(log, lo, hi) ==> exists|i: u64| #[trigger] first_present(log, lo, hi, i),
    decreases hi - lo,
{
    if !none_present(log, lo, hi) {
        assert(lo < hi);
        if log.has(lo) {
            assert(first_present(log, lo, hi, lo));
        } else {
            let next = (lo + 1) as u64;
            let k = choose|k: u64| lo <= k < hi && #[trigger] log.has(k);
            assert(next <= k < hi);
            assert(!none_present(log, next, hi));
            law_walk_goes_on(log, next, hi);
            let i = choose|i: u64| #[trigger] first_present(log, next, hi, i);
            assert(first_present(log, lo, hi, i));
        }
    }
}

/// Reading a block of a log on a store that neither fails nor lost anything gives the value
/// that its bytes stand for; nothing where the block is not present; and the codec's error,
/// or that the store is corrupt, exactly where that is so.
pub proof fn law_get<T, C: Codec<T>, S: Store>(
    log: Hypercore<T, C, S>,
    index: u64,
    r: Result<Option<T>, Error<S::Error>>,
)
    requires
        log.read(index, r),
        log.intact(),
        S::sure(),
    ensures
        r matches Ok(None) <==> !log@.has(index),
        r matches Err(Error::Corrupt) <==> log@.has(index) && log@.block(index) is None,
        log@.block(index) matches Some(b) ==> match log.codec().refusal(b) {
            Some(e) => r matches Err(Error::Codec(got)) && got == e,
            None => r matches Ok(Some(v)) && log.codec().decodes(b, &v),
        },
{
}

/// Reading a block of a replica, likewise.
pub proof fn law_replica_get<T, C: Codec<T>, S: Store>(
    m: Replica<T, C, S>,
    index: u64,
    r: Result<Option<T>, Error<S::Error>>,
)
    requires
        m.read(index, r),
        m.intact(),
        S::sure(),
    ensures
        r matches Ok(None) <==> index >= m@.tree.length,
        r matches Err(Error::Corrupt) <==> index < m@.tree.length && !m@.contents.contains_key(
            index,
        ),
        index < m@.tree.length && m@.contents.contains_key(index) ==> match m.codec().refusal(
            m@.contents[index],
        ) {
            Some(e) => r matches Err(Error::Codec(got)) && got == e,
            None => r matches Ok(Some(v)) && m.codec().decodes(m@.contents[index], &v),
        },
{
}

} // verus!
