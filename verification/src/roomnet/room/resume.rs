//! Opening a room, and taking up what its stores have kept.
use vstd::prelude::*;
use super::{
    advanced, bytes_at, entry_read, lemma_seat, lemma_seat_update, mirrors, opened, refusal, whole,
    Error, Room, RoomError, RoomView,
};
use crate::autobase::graph::is_log_len;
use crate::autobase::{Linearizer, NodeId, WriterKey};
use crate::bytes::same_32;
use crate::codec::Codec;
use crate::hypercore::laws::law_new;
use crate::hypercore::replica::Mirror;
use crate::hypercore::restore::{fitting, law_taken_up, lemma_stored_end, stored_from, taken_up};
use crate::hypercore::writer::stored_blocks;
use crate::hypercore::{empty_tree, extended, Hypercore};
use crate::identity::{ed25519_decodes, PublicKey};
use crate::roomnet::config::RoomConfig;
use crate::roomnet::dag::{Dag, DagView};
use crate::roomnet::entry::{parsed_entry, Entry, EntryCodec, EntryView};
use crate::roomnet::projection::Projection;
use crate::roomnet::store::StoreFactory;
use crate::storage::Store;

verus! {

/// The writers of the kept logs that are not written here, each once.
pub open spec fn others(kept: Seq<WriterKey>, own: WriterKey) -> Seq<WriterKey>
    decreases kept.len(),
{
    if kept.len() == 0 {
        Seq::empty()
    } else {
        let less = others(kept.drop_last(), own);
        if kept.last() == own || less.contains(kept.last()) {
            less
        } else {
            less.push(kept.last())
        }
    }
}

/// Whether replicas are those that the kept logs of `writers` make.
pub open spec fn mirrored_from<F: StoreFactory>(
    m: Map<WriterKey, Mirror>,
    writers: Seq<WriterKey>,
    factory: F,
) -> bool {
    &&& forall|w: WriterKey| #[trigger] m.contains_key(w) == writers.contains(w)
    &&& forall|w: WriterKey| #[trigger]
        m.contains_key(w) ==> {
            let blocks = stored_from(factory.stored(w), 0);
            &&& fitting(blocks)
            &&& m[w].public@ == w
            &&& m[w] == (Mirror {
                public: m[w].public,
                tree: extended(empty_tree(), blocks),
                contents: factory.stored(w),
                head: None,
            })
            &&& m[w].tree.length == blocks.len()
        }
}

/// Whether every block stands for an entry.
pub open spec fn legible(blocks: Seq<Seq<u8>>) -> bool {
    forall|i: int| 0 <= i < blocks.len() ==> parsed_entry(#[trigger] blocks[i]) is Ok
}

/// The nodes of a log.
pub open spec fn log_nodes(w: WriterKey, blocks: Seq<Seq<u8>>) -> Seq<(NodeId, EntryView)> {
    Seq::new(
        blocks.len(),
        |i: int| (NodeId { key: w, seq: i as u64 }, parsed_entry(blocks[i])->Ok_0),
    )
}

/// The nodes of the kept logs of `writers`, log after log.
pub open spec fn kept_nodes<F: StoreFactory>(factory: F, writers: Seq<WriterKey>) -> Seq<
    (NodeId, EntryView),
>
    decreases writers.len(),
{
    if writers.len() == 0 {
        Seq::empty()
    } else {
        kept_nodes(factory, writers.drop_last()) + log_nodes(
            writers.last(),
            stored_from(factory.stored(writers.last()), 0),
        )
    }
}

/// The writers whose logs are taken up: the one that writes here, and the others.
pub open spec fn writers_of<F: StoreFactory>(factory: F, own: WriterKey) -> Seq<WriterKey> {
    seq![own] + others(factory.kept(), own)
}

/// A room with nothing in it but what its stores have kept, the views not yet brought up
/// to date.
pub open spec fn resumed<F: StoreFactory, M>(
    v: RoomView<M>,
    factory: F,
    remotes: Map<WriterKey, Mirror>,
) -> RoomView<M> {
    RoomView {
        local: taken_up(v.local, stored_from(factory.stored(v.key), 0)),
        remotes,
        dag: v.dag.offered_all(kept_nodes(factory, writers_of(factory, v.key))).drained(),
        ..v
    }
}

/// What opening a room does. The logs that are kept are taken up, each once, their nodes
/// offered until no more can be delivered, and the views brought up to date; nothing of
/// that is reported as having become final. It fails if a kept log is of no writer, does
/// not fit, or holds a block that stands for no entry, if a node that was written here
/// lacks what it builds on, and if the projection refuses an operation.
pub open spec fn open_outcome<F: StoreFactory, P: Projection>(
    v: RoomView<P::Model>,
    factory: F,
    r: Result<Room<F, P>, RoomError<F, P>>,
) -> bool {
    match r {
        Ok(x) => {
            let base = resumed(v, factory, x@.remotes);
            &&& x.wf()
            &&& x.unbroken()
            &&& mirrored_from(x@.remotes, others(factory.kept(), v.key), factory)
            &&& fitting(stored_from(factory.stored(v.key), 0))
            &&& forall|w: WriterKey| #[trigger]
                writers_of(factory, v.key).contains(w) ==> legible(stored_from(factory.stored(w), 0))
            &&& base.coherent()
            &&& refusal::<P>(base) is None
            &&& x@ == (RoomView { queue: Seq::empty(), ..advanced::<P>(base) })
        },
        Err(Error::Projection(_)) => refusal::<P>(resumed(v, factory, v.remotes)) is Some,
        Err(Error::BadWriterKey) => exists|w: WriterKey|
            #[trigger] writers_of(factory, v.key).contains(w) && !ed25519_decodes(w@),
        Err(Error::Hypercore(crate::hypercore::Error::Codec(e))) => exists|w: WriterKey, i: int|
            writers_of(factory, v.key).contains(w) && 0 <= i < stored_from(factory.stored(w), 0).len()
                && parsed_entry(#[trigger] stored_from(factory.stored(w), 0)[i]) == Err::<
                EntryView,
                crate::codec::Error,
            >(e),
        Err(Error::Hypercore(crate::hypercore::Error::Corrupt)) => {
            ||| exists|w: WriterKey| #[trigger]
                writers_of(factory, v.key).contains(w) && !fitting(stored_from(factory.stored(w), 0))
            ||| !resumed(v, factory, v.remotes).coherent()
        },
        Err(Error::Open) => !F::certain(),
        Err(e) => e matches Error::Hypercore(h) && h is Storage && !F::Store::sure(),
    }
}

/// The nodes of the first `n` blocks of a writer's log, as a room reads them.
pub open spec fn read_nodes<M>(v: RoomView<M>, w: WriterKey, n: nat) -> Seq<(NodeId, EntryView)> {
    Seq::new(
        n,
        |i: int| (NodeId { key: w, seq: i as u64 }, (entry_read(v, w, i as u64)->0)->Ok_0),
    )
}

/// The nodes of the logs of `writers`, as a room reads them.
pub open spec fn read_all<M>(v: RoomView<M>, writers: Seq<WriterKey>) -> Seq<(NodeId, EntryView)>
    decreases writers.len(),
{
    if writers.len() == 0 {
        Seq::empty()
    } else {
        let w = writers.last();
        read_all(v, writers.drop_last()) + read_nodes(v, w, v.length_of(w) as nat)
    }
}

/// Logs that were taken up give the nodes of the kept blocks.
proof fn lemma_read_all<F: StoreFactory, M>(v: RoomView<M>, factory: F, writers: Seq<WriterKey>)
    requires
        forall|k: int| 0 <= k < writers.len() ==> as_kept(v, factory, #[trigger] writers[k]),
    ensures
        read_all(v, writers) == kept_nodes(factory, writers),
    decreases writers.len(),
{
    if writers.len() > 0 {
        let less = writers.drop_last();
        assert forall|k: int| 0 <= k < less.len() implies as_kept(
            v,
            factory,
            #[trigger] less[k],
        ) by {
            assert(less[k] == writers[k]);
        }
        lemma_read_all(v, factory, less);
        let w = writers[writers.len() - 1];
        assert(as_kept(v, factory, w));
        lemma_read(v, w, stored_from(factory.stored(w), 0));
    }
}

/// Whether a writer's log is the one that was kept.
pub open spec fn as_kept<F: StoreFactory, M>(v: RoomView<M>, factory: F, w: WriterKey) -> bool {
    let blocks = stored_from(factory.stored(w), 0);
    &&& v.length_of(w) == blocks.len()
    &&& forall|i: u64| i < blocks.len() ==> #[trigger] bytes_at(v, w, i) == Some(blocks[i as int])
}

/// What was taken up is what was kept.
pub proof fn lemma_as_kept<F: StoreFactory, M>(v: RoomView<M>, factory: F, full: RoomView<M>, k: int)
    requires
        v.local.tree == empty_tree(),
        v.local.head is None,
        v.local.contents == factory.stored(v.key),
        fitting(stored_from(factory.stored(v.key), 0)),
        mirrored_from(full.remotes, others(factory.kept(), v.key), factory),
        full == (RoomView {
            local: taken_up(v.local, stored_from(factory.stored(v.key), 0)),
            remotes: full.remotes,
            ..v
        }),
        0 <= k < writers_of(factory, v.key).len(),
    ensures
        as_kept(full, factory, writers_of(factory, v.key)[k]),
{
    let w = writers_of(factory, v.key)[k];
    let blocks = stored_from(factory.stored(w), 0);
    lemma_own(v, factory);
    lemma_stored_end(factory.stored(w), 0);
    if w != v.key {
        let list = others(factory.kept(), v.key);
        assert(list[k - 1] == w);
        assert(list.contains(w));
        assert(full.remotes.contains_key(w));
    }
}

/// A writer whose log is kept is among the others, unless it is the one that writes here.
proof fn lemma_others(kept: Seq<WriterKey>, own: WriterKey, i: int)
    requires
        0 <= i < kept.len(),
        kept[i] != own,
    ensures
        others(kept, own).contains(kept[i]),
    decreases kept.len(),
{
    let less = others(kept.drop_last(), own);
    if i < kept.len() - 1 {
        lemma_others(kept.drop_last(), own, i);
        let j = less.index_of(kept[i]);
        assert(less.push(kept.last())[j] == kept[i]);
    } else {
        assert(less.push(kept.last())[less.len() as int] == kept[i]);
    }
}

/// Whether block `i` of a writer's log is there and stands for an entry.
pub open spec fn reads<M>(v: RoomView<M>, w: WriterKey, i: u64) -> bool {
    entry_read(v, w, i) is Some && entry_read(v, w, i)->0 is Ok
}

/// Nodes offered in two parts.
proof fn lemma_offered_parts(d: DagView, a: Seq<(NodeId, EntryView)>, b: Seq<(NodeId, EntryView)>)
    ensures
        d.offered_all(a + b) == d.offered_all(a).offered_all(b),
    decreases b.len(),
{
    if b.len() == 0 {
        assert(a + b =~= a);
    } else {
        lemma_offered_parts(d, a, b.drop_last());
        assert((a + b).drop_last() =~= a + b.drop_last());
    }
}

/// A new log is taken up whole.
pub proof fn lemma_own<F: StoreFactory, M>(v: RoomView<M>, factory: F)
    requires
        v.local.tree == empty_tree(),
        v.local.head is None,
        v.local.contents == factory.stored(v.key),
        fitting(stored_from(factory.stored(v.key), 0)),
    ensures
        ({
            let blocks = stored_from(factory.stored(v.key), 0);
            let local = taken_up(v.local, blocks);
            &&& whole(local)
            &&& local.public == v.local.public
            &&& local.tree.length == blocks.len()
            &&& forall|i: u64|
                i < blocks.len() ==> #[trigger] local.block(i) == Some(blocks[i as int])
        }),
{
    let blocks = stored_from(factory.stored(v.key), 0);
    let local = taken_up(v.local, blocks);
    law_taken_up(v.local);
    crate::hypercore::writer::lemma_grown_tree(v.local, blocks);
    assert forall|i: u64| i < blocks.len() implies #[trigger] local.block(i) == Some(
        blocks[i as int],
    ) by {
        assert(local.has(i));
    }
}

/// Reading a log that was taken up gives the nodes of its blocks.
proof fn lemma_read<M>(v: RoomView<M>, w: WriterKey, blocks: Seq<Seq<u8>>)
    requires
        blocks.len() <= u64::MAX,
        forall|i: u64| i < blocks.len() ==> #[trigger] bytes_at(v, w, i) == Some(blocks[i as int]),
    ensures
        forall|i: u64|
            i < blocks.len() ==> #[trigger] entry_read(v, w, i) == Some(
                parsed_entry(blocks[i as int]),
            ),
        read_nodes(v, w, blocks.len()) == log_nodes(w, blocks),
{
    assert forall|i: u64| i < blocks.len() implies #[trigger] entry_read(v, w, i) == Some(
        parsed_entry(blocks[i as int]),
    ) by {
        assert(bytes_at(v, w, i) == Some(blocks[i as int]));
    }
    assert(read_nodes(v, w, blocks.len()) =~= log_nodes(w, blocks));
}

impl<F: StoreFactory, P: Projection> Room<F, P> {
    /// Take up the kept log of a writer that is not known yet.
    fn take_up(&mut self, writer: WriterKey) -> (r: Result<(), RoomError<F, P>>)
        requires
            old(self).wf(),
            old(self).intact(),
            !old(self)@.remotes.contains_key(writer),
        ensures
            ({
                let blocks = stored_from(old(self).stored(writer), 0);
                let m = final(self)@.remotes[writer];
                match r {
                    Ok(()) => {
                        &&& final(self).wf()
                        &&& final(self).intact()
                        &&& fitting(blocks)
                        &&& m.public@ == writer
                        &&& m == (Mirror {
                            public: m.public,
                            tree: extended(empty_tree(), blocks),
                            contents: old(self).stored(writer),
                            head: None,
                        })
                        &&& m.tree.length == blocks.len()
                        &&& final(self)@ == old(self)@.with_replica(writer, m)
                        &&& forall|w: WriterKey|
                            w != writer ==> #[trigger] final(self).stored(w) == old(self).stored(w)
                    },
                    Err(Error::BadWriterKey) => !ed25519_decodes(writer@),
                    Err(Error::Open) => !F::certain(),
                    Err(Error::Hypercore(crate::hypercore::Error::Corrupt)) => !fitting(blocks),
                    Err(e) => e matches Error::Hypercore(h) && h is Storage && !F::Store::sure(),
                }
            }),
    {
        let ghost v = self@;
        let at: usize = match self.replica_of(writer) {
            Ok(i) => i,
            Err(e) => return Err(e),
        };
        let ghost had = self.remotes@;
        let ghost known = *self;
        proof {
            lemma_seat(had, at as int);
        }
        match self.remotes[at].1.restore() {
            Ok(()) => {},
            Err(e) => return Err(Error::Hypercore(e)),
        }
        let ghost m = self.remotes@[at as int].1@;
        proof {
            lemma_seat_update(had, at as int, self.remotes@[at as int]);
            assert(self.remotes@ =~= had.update(at as int, self.remotes@[at as int]));
            assert(mirrors(self.remotes@) =~= v.remotes.insert(writer, m));
            assert(self@ =~= v.with_replica(writer, m));
            assert forall|w: WriterKey| w != writer implies #[trigger] self.stored(w) == old(
                self,
            ).stored(w) by {
                assert(known.stored(w) == old(self).stored(w));
            }
        }
        Ok(())
    }

    /// Offer the nodes of a writer's log.
    fn offer_log(&mut self, writer: WriterKey) -> (r: Result<(), RoomError<F, P>>)
        requires
            old(self).parts(),
            old(self).unbroken(),
        ensures
            ({
                let n = old(self)@.length_of(writer);
                match r {
                    Ok(()) => {
                        &&& final(self).parts()
                        &&& final(self).intact()
                        &&& forall|i: u64|
                            i < n ==> #[trigger] reads(old(self)@, writer, i)
                        &&& final(self)@ == (RoomView {
                            dag: old(self)@.dag.offered_all(
                                read_nodes(old(self)@, writer, n as nat),
                            ),
                            ..old(self)@
                        })
                    },
                    Err(Error::Hypercore(crate::hypercore::Error::Codec(e))) => exists|i: u64|
                        i < n && #[trigger] entry_read(old(self)@, writer, i) == Some(
                            Err::<EntryView, crate::codec::Error>(e),
                        ),
                    Err(Error::Hypercore(crate::hypercore::Error::Corrupt)) => exists|i: u64|
                        i < n && #[trigger] entry_read(old(self)@, writer, i) is None,
                    Err(e) => e matches Error::Hypercore(h) && h is Storage && !F::Store::sure(),
                }
            }),
    {
        let ghost v = self@;
        let n: u64 = self.writer_len(writer);
        let mut i: u64 = 0;
        assert(read_nodes(v, writer, 0) =~= Seq::empty());
        while i < n
            invariant
                i <= n,
                n == v.length_of(writer),
                v == old(self)@,
                self.parts(),
                self.intact(),
                whole(v.local),
                self@ == (RoomView {
                    dag: v.dag.offered_all(read_nodes(v, writer, i as nat)),
                    ..v
                }),
                forall|j: u64| j < i ==> #[trigger] reads(v, writer, j),
            decreases n - i,
        {
            assert(entry_read(self@, writer, i) == entry_read(v, writer, i));
            match self.entry_at(writer, i) {
                Ok(Some(entry)) => {
                    let ghost before = self@;
                    let ghost e = entry@;
                    self.dag.try_add_node(NodeId::new(writer, i), entry);
                    proof {
                        let done = read_nodes(v, writer, i as nat);
                        let more = read_nodes(v, writer, (i + 1) as nat);
                        assert(more.drop_last() =~= done);
                        assert(more.last() == (NodeId { key: writer, seq: i }, e));
                        assert(self@ =~= RoomView { dag: v.dag.offered_all(more), ..v });
                    }
                },
                Ok(None) => {},
                Err(e) => return Err(e),
            }
            i = i + 1;
        }
        Ok(())
    }

    /// Offer the nodes of several logs, log after log.
    fn offer_logs(&mut self, writers: &[WriterKey]) -> (r: Result<(), RoomError<F, P>>)
        requires
            old(self).parts(),
            old(self).unbroken(),
        ensures
            match r {
                Ok(()) => {
                    &&& final(self).parts()
                    &&& final(self).intact()
                    &&& forall|k: int, i: u64|
                        0 <= k < writers@.len() && i < old(self)@.length_of(writers@[k])
                            ==> #[trigger] reads(old(self)@, writers@[k], i)
                    &&& final(self)@ == (RoomView {
                        dag: old(self)@.dag.offered_all(read_all(old(self)@, writers@)),
                        ..old(self)@
                    })
                },
                Err(Error::Hypercore(crate::hypercore::Error::Codec(e))) => exists|k: int, i: u64|
                    0 <= k < writers@.len() && i < old(self)@.length_of(writers@[k])
                        && #[trigger] entry_read(old(self)@, writers@[k], i) == Some(
                        Err::<EntryView, crate::codec::Error>(e),
                    ),
                Err(Error::Hypercore(crate::hypercore::Error::Corrupt)) => exists|k: int, i: u64|
                    0 <= k < writers@.len() && i < old(self)@.length_of(writers@[k])
                        && #[trigger] entry_read(old(self)@, writers@[k], i) is None,
                Err(e) => e matches Error::Hypercore(h) && h is Storage && !F::Store::sure(),
            },
    {
        let ghost v = self@;
        let mut k: usize = 0;
        assert(writers@.take(0) =~= Seq::empty());
        while k < writers.len()
            invariant
                k <= writers@.len(),
                v == old(self)@,
                self.parts(),
                self.intact(),
                whole(v.local),
                self@ == (RoomView {
                    dag: v.dag.offered_all(read_all(v, writers@.take(k as int))),
                    ..v
                }),
                forall|j: int, i: u64|
                    0 <= j < k && i < v.length_of(writers@[j]) ==> #[trigger] reads(
                        v,
                        writers@[j],
                        i,
                    ),
            decreases writers@.len() - k,
        {
            let w: WriterKey = writers[k];
            let ghost before = self@;
            let ghost n = v.length_of(w);
            proof {
                let some = writers@.take(k as int);
                let more = writers@.take(k + 1);
                assert(more.drop_last() =~= some);
                assert(more.last() == w);
                assert(forall|i: u64| entry_read(before, w, i) == #[trigger] entry_read(v, w, i));
                assert(forall|i: u64| #[trigger] reads(before, w, i) == reads(v, w, i));
                assert(read_nodes(before, w, n as nat) =~= read_nodes(v, w, n as nat));
                lemma_offered_parts(v.dag, read_all(v, some), read_nodes(v, w, n as nat));
            }
            match self.offer_log(w) {
                Ok(()) => {},
                Err(e) => {
                    proof {
                        match e {
                            Error::Hypercore(crate::hypercore::Error::Codec(c)) => {
                                let i = choose|i: u64|
                                    i < n && #[trigger] entry_read(before, w, i) == Some(
                                        Err::<EntryView, crate::codec::Error>(c),
                                    );
                                assert(entry_read(v, writers@[k as int], i) == Some(
                                    Err::<EntryView, crate::codec::Error>(c),
                                ));
                            },
                            Error::Hypercore(crate::hypercore::Error::Corrupt) => {
                                let i = choose|i: u64|
                                    i < n && #[trigger] entry_read(before, w, i) is None;
                                assert(entry_read(v, writers@[k as int], i) is None);
                            },
                            _ => {},
                        }
                    }
                    return Err(e);
                },
            }
            assert(self@ =~= RoomView {
                dag: v.dag.offered_all(read_all(v, writers@.take(k + 1))),
                ..v
            });
            assert forall|j: int, i: u64| 0 <= j < k + 1 && i < v.length_of(
                writers@[j],
            ) implies #[trigger] reads(v, writers@[j], i) by {
                if j == k {
                    assert(reads(before, w, i));
                }
            }
            k = k + 1;
        }
        assert(writers@.take(k as int) =~= writers@);
        Ok(())
    }

    /// Offer those nodes that wait again, and bring the views up to date.
    fn settle(&mut self) -> (r: Result<(), RoomError<F, P>>)
        requires
            old(self).parts(),
            old(self).unbroken(),
            old(self)@.local.public@ == old(self)@.key,
            old(self)@.folded == 0,
        ensures
            ({
                let base = RoomView { dag: old(self)@.dag.drained(), ..old(self)@ };
                match r {
                    Ok(()) => {
                        &&& final(self).wf()
                        &&& final(self).unbroken()
                        &&& base.coherent()
                        &&& refusal::<P>(base) is None
                        &&& final(self)@ == (RoomView {
                            queue: Seq::empty(),
                            ..advanced::<P>(base)
                        })
                    },
                    Err(Error::Projection(_)) => refusal::<P>(base) is Some,
                    Err(e) => e == Error::<super::StoreErr<F>, P::Error>::Hypercore(
                        crate::hypercore::Error::Corrupt,
                    ) && !base.coherent(),
                }
            }),
    {
        let ghost base = RoomView { dag: self@.dag.drained(), ..self@ };
        proof {
            super::lemma_whole(self@.local);
        }
        self.dag.drain_pending();
        assert(self@ =~= base);
        proof {
            self.dag.lemma_wf();
        }
        let n: u64 = self.dag.lin().indexer_length(&self.local_key);
        if n != self.local.len() || self.dag.awaits(&self.local_key) {
            proof {
                if base.coherent() {
                    assert(is_log_len(base.dag.graph, base.key, base.local.tree.length));
                    super::lemma_log_is(base.dag.graph, base.key, base.local.tree.length);
                }
            }
            return Err(Error::Hypercore(crate::hypercore::Error::Corrupt));
        }
        assert(base.coherent());
        match self.advance() {
            Ok(()) => {},
            Err(e) => return Err(Error::Projection(e)),
        }
        let reported: Vec<super::Finalized> = self.poll_finalized();
        Ok(())
    }
}

impl<F: StoreFactory, P: Projection + Clone> Room<F, P> {
    /// A room with nothing in it yet.
    fn empty(cfg: RoomConfig, factory: F, projection: P) -> (r: Result<Self, RoomError<F, P>>)
        requires
            projection.wf(),
        ensures
            match r {
                Ok(room) => {
                    &&& room.wf()
                    &&& room.intact()
                    &&& cfg.identity.owns(room@.local.public)
                    &&& room@ == opened(
                        cfg.identity@,
                        cfg.indexers@,
                        cfg.origin,
                        room@.local.public,
                        factory.stored(room@.key),
                        projection.model(),
                    )
                    &&& forall|w: WriterKey|
                        w != room@.key ==> #[trigger] room.stored(w) == factory.stored(w)
                },
                Err(e) => e is Open && !F::certain(),
            },
            exists|public: PublicKey| #[trigger] cfg.identity.owns(public),
    {
        let RoomConfig { identity, indexers, origin } = cfg;
        let public: PublicKey = identity.public();
        let local_key: WriterKey = public.to_bytes();
        let mut factory: F = factory;
        let ghost stored = factory.stored(local_key);
        let store: F::Store = match factory.open(local_key) {
            Ok(s) => s,
            Err(_) => return Err(Error::Open),
        };
        let local: Hypercore<Entry, EntryCodec, F::Store> = Hypercore::new(
            identity,
            EntryCodec,
            store,
        );
        let lin: Linearizer = if indexers.len() == 0 {
            Linearizer::new()
        } else {
            Linearizer::with_indexers(indexers)
        };
        let mut live_proj: P = projection.clone();
        live_proj.reset_to(projection.snapshot());
        let room: Room<F, P> = Room {
            local_key,
            origin,
            local,
            remotes: Vec::new(),
            factory,
            dag: Dag::new(lin),
            finalized_proj: projection,
            live_proj,
            finalized_len: 0,
            finalized_since_poll: Vec::new(),
            last_activity: 0,
        };
        proof {
            PublicKey::lemma_bytes(public, room@.local.public);
            law_new(room@.local);
            assert(stored_blocks(room@.local.contents, 0) =~= Seq::empty());
            super::lemma_whole(room@.local);
            assert(room@.remotes =~= Map::empty());
            assert(room@.queue =~= Seq::empty());
            assert(room@.dag.graph =~= Map::empty());
        }
        Ok(room)
    }

    /// Open a room, and take up what its stores have kept. The logs of writers that are
    /// not kept are pulled as they are heard of.
    pub fn open(cfg: RoomConfig, factory: F, projection: P) -> (r: Result<Self, RoomError<F, P>>)
        requires
            projection.wf(),
        ensures
            forall|public: PublicKey| #[trigger]
                cfg.identity.owns(public) ==> open_outcome::<F, P>(
                    opened(
                        cfg.identity@,
                        cfg.indexers@,
                        cfg.origin,
                        public,
                        factory.stored(public@),
                        projection.model(),
                    ),
                    factory,
                    r,
                ),
            r matches Ok(x) ==> cfg.identity.owns(x@.local.public),
            exists|public: PublicKey| #[trigger] cfg.identity.owns(public),
    {
        let ghost shops = factory;
        let ghost m = projection.model();
        let known: Vec<WriterKey> = factory.known_writers();
        let mut room: Room<F, P> = match Room::empty(cfg, factory, projection) {
            Ok(room) => room,
            Err(e) => return Err(e),
        };
        let ghost v = room@;
        proof {
            assert forall|public: PublicKey| #[trigger] cfg.identity.owns(public) implies v
                == opened(
                cfg.identity@,
                cfg.indexers@,
                cfg.origin,
                public,
                factory.stored(public@),
                m,
            ) by {
                PublicKey::lemma_bytes(public, v.local.public);
            }
        }
        let mut writers: Vec<WriterKey> = Vec::new();
        writers.push(room.local_key);
        let mut i: usize = 0;
        proof {
            assert(known@.take(0) =~= Seq::empty());
            assert(writers@ =~= seq![v.key] + others(known@.take(0), v.key));
        }
        while i < known.len()
            invariant
                i <= known@.len(),
                known@ == shops.kept(),
                room.wf(),
                room.intact(),
                room@ == (RoomView { remotes: room@.remotes, ..v }),
                writers@ == seq![v.key] + others(known@.take(i as int), v.key),
                mirrored_from(room@.remotes, others(known@.take(i as int), v.key), shops),
                forall|w: WriterKey|
                    w != v.key && !room@.remotes.contains_key(w) ==> #[trigger] room.stored(w)
                        == shops.stored(w),
                forall|public: PublicKey| #[trigger]
                    cfg.identity.owns(public) ==> v == opened(
                        cfg.identity@,
                        cfg.indexers@,
                        cfg.origin,
                        public,
                        factory.stored(public@),
                        projection.model(),
                    ),
                shops == factory,
                cfg.identity.owns(v.local.public),
            decreases known@.len() - i,
        {
            let w: WriterKey = known[i];
            let ghost had = room@.remotes;
            let ghost list = others(known@.take(i as int), v.key);
            proof {
                assert(known@.take(i + 1).drop_last() =~= known@.take(i as int));
                assert(known@.take(i + 1).last() == w);
            }
            if !same_32(&w, &room.local_key) {
                match room.place(&w) {
                    Some(at) => {
                        proof {
                            lemma_seat(room.remotes@, at as int);
                            assert(had.contains_key(w));
                        }
                    },
                    None => {
                        proof {
                            assert(!had.contains_key(w));
                            lemma_others(known@, v.key, i as int);
                            let all = others(known@, v.key);
                            let j = all.index_of(w);
                            assert(writers_of(shops, v.key)[j + 1] == w);
                            assert(writers_of(shops, v.key).contains(w));
                        }
                        match room.take_up(w) {
                            Ok(()) => {},
                            Err(e) => {
                                assert(open_outcome::<F, P>(
                                    v,
                                    shops,
                                    Err::<Room<F, P>, RoomError<F, P>>(e),
                                ));
                                return Err(e);
                            },
                        }
                        writers.push(w);
                        proof {
                            let more = list.push(w);
                            assert(writers@ =~= seq![v.key] + more);
                            assert forall|x: WriterKey| #[trigger] more.contains(x) == (
                            list.contains(x) || x == w) by {
                                if list.contains(x) {
                                    let j = list.index_of(x);
                                    assert(more[j] == x);
                                }
                                if x == w {
                                    assert(more[list.len() as int] == x);
                                }
                            }
                            assert(room@ =~= RoomView { remotes: room@.remotes, ..v });
                        }
                    },
                }
            }
            i = i + 1;
        }
        assert(known@.take(i as int) =~= known@);
        let ghost own = stored_from(shops.stored(v.key), 0);
        let ghost remotes = room@.remotes;
        proof {
            assert(writers_of(shops, v.key)[0] == v.key);
            assert(writers_of(shops, v.key).contains(v.key));
        }
        match room.local.restore() {
            Ok(()) => {},
            Err(e) => return Err(Error::Hypercore(e)),
        }
        let ghost full = room@;
        proof {
            lemma_own(v, shops);
            assert(full =~= RoomView { local: taken_up(v.local, own), remotes, ..v });
            assert forall|k: int| 0 <= k < writers@.len() implies as_kept(
                full,
                shops,
                #[trigger] writers@[k],
            ) by {
                lemma_as_kept(v, shops, full, k);
            }
            lemma_read_all(full, shops, writers@);
        }
        match room.offer_logs(writers.as_slice()) {
            Ok(()) => {},
            Err(e) => {
                proof {
                    match e {
                        Error::Hypercore(crate::hypercore::Error::Codec(c)) => {
                            let (k, i) = choose|k: int, i: u64|
                                0 <= k < writers@.len() && i < full.length_of(writers@[k])
                                    && #[trigger] entry_read(full, writers@[k], i) == Some(
                                    Err::<EntryView, crate::codec::Error>(c),
                                );
                            let w = writers@[k];
                            assert(writers@.contains(w));
                            assert(as_kept(full, shops, w));
                            lemma_read(full, w, stored_from(shops.stored(w), 0));
                            let b = stored_from(shops.stored(w), 0)[i as int];
                            assert(parsed_entry(b) == Err::<EntryView, crate::codec::Error>(c));
                        },
                        Error::Hypercore(crate::hypercore::Error::Corrupt) => {
                            let (k, i) = choose|k: int, i: u64|
                                0 <= k < writers@.len() && i < full.length_of(writers@[k])
                                    && #[trigger] entry_read(full, writers@[k], i) is None;
                            assert(as_kept(full, shops, writers@[k]));
                            lemma_read(full, writers@[k], stored_from(shops.stored(writers@[k]), 0));
                            assert(false);
                        },
                        _ => {},
                    }
                }
                return Err(e);
            },
        }
        proof {
            assert forall|w: WriterKey| #[trigger] writers_of(shops, v.key).contains(
                w,
            ) implies legible(stored_from(shops.stored(w), 0)) by {
                let k = writers@.index_of(w);
                let blocks = stored_from(shops.stored(w), 0);
                assert(as_kept(full, shops, writers@[k]));
                lemma_read(full, w, blocks);
                assert forall|i: int| 0 <= i < blocks.len() implies parsed_entry(
                    #[trigger] blocks[i],
                ) is Ok by {
                    assert(reads(full, writers@[k], i as u64));
                }
            }
        }
        match room.settle() {
            Ok(()) => Ok(room),
            Err(e) => Err(e),
        }
    }
}

} // verus!
