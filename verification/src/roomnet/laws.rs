//! What holds of rooms.
use vstd::prelude::*;
use super::dag::{
    deliverable, follows, given_by, known, law_drained, law_redelivered, lemma_deliver,
    lemma_drained_follows, lemma_follows, lemma_none_missing, made_of, mentions, settled, DagView,
};
use super::entry::{entry_bytes, law_entry, parsed_entry, EntryView};
use super::fold::{first_refused, law_replay, replay};
use super::projection::Projection;
use super::room::resume::{
    as_kept, kept_nodes, legible, lemma_as_kept, lemma_own, log_nodes, open_outcome, others, reads,
    resumed, writers_of,
};
use super::room::{
    advanced, bytes_at, done, entry_read, fresh, lemma_log_is, proof_of, refusal, whole, Error,
    Room, RoomError, RoomView,
};
use super::store::StoreFactory;
use super::sync::proof_view;
use crate::autobase::consensus::{confirmed_view_of, order_of};
use crate::autobase::finality::{chained, law_finality, law_frontier, tops};
use crate::autobase::graph::{causal, delivered, reaches};
use crate::autobase::ids::{lemma_in_order_of, sorted_keys};
use crate::autobase::laws::law_order;
use crate::autobase::linearizer::{covered, first_missing, new_deps};
use crate::autobase::{NodeId, WriterKey};
use crate::hypercore::laws::{law_append, law_replicate, room};
use crate::hypercore::replica::Mirror;
use crate::hypercore::restore::{fitting, stored_from, taken_up};
use crate::hypercore::empty_tree;
use crate::hypercore::writer::stored_blocks;
use crate::identity::ed25519_decodes;
use crate::merkle::laws::holds;
use crate::merkle::Proof;
use crate::storage::Store;

verus! {

/// Whether a room's views are those of the order from the beginning, which is `m`: the
/// final view that of the final nodes, the other that of all nodes.
pub open spec fn up_to_date<P: Projection>(v: RoomView<P::Model>, m: P::Model) -> bool {
    let fin = confirmed_view_of(v.dag.graph, v.dag.voters);
    &&& v.folded == fin.len()
    &&& v.settled == replay::<P>(m, fin, v.dag)
    &&& v.shown == replay::<P>(m, order_of(v.dag.graph, v.dag.voters), v.dag)
}

/// Folding looks at nothing but the payloads of the nodes it folds.
proof fn lemma_replay_same<P: Projection>(m: P::Model, nodes: Seq<NodeId>, a: DagView, b: DagView)
    requires
        forall|i: int| 0 <= i < nodes.len() ==> a.payload(#[trigger] nodes[i]) == b.payload(nodes[i]),
    ensures
        replay::<P>(m, nodes, a) == replay::<P>(m, nodes, b),
    decreases nodes.len(),
{
    if nodes.len() > 0 {
        let less = nodes.drop_last();
        assert forall|i: int| 0 <= i < less.len() implies a.payload(#[trigger] less[i])
            == b.payload(less[i]) by {
            assert(less[i] == nodes[i]);
        }
        lemma_replay_same::<P>(m, less, a, b);
        assert(nodes[nodes.len() - 1] == nodes.last());
    }
}

/// Replicas converge: rooms with the same nodes, voters and payloads, whose views are up
/// to date, have the same order, the same final view and the same view of everything.
pub proof fn law_converge<P: Projection>(v: RoomView<P::Model>, w: RoomView<P::Model>, m: P::Model)
    requires
        up_to_date::<P>(v, m),
        up_to_date::<P>(w, m),
        v.dag.graph == w.dag.graph,
        v.dag.voters == w.dag.voters,
        v.dag.payloads == w.dag.payloads,
    ensures
        order_of(v.dag.graph, v.dag.voters) == order_of(w.dag.graph, w.dag.voters),
        v.folded == w.folded,
        v.settled == w.settled,
        v.shown == w.shown,
{
    let fin = confirmed_view_of(v.dag.graph, v.dag.voters);
    let all = order_of(v.dag.graph, v.dag.voters);
    lemma_replay_same::<P>(m, fin, v.dag, w.dag);
    lemma_replay_same::<P>(m, all, v.dag, w.dag);
}

/// A room whose views are up to date, and that has grown so that what was final still
/// comes first among what is final, is brought up to date by advancing, unless the
/// projection refuses an operation.
pub proof fn law_advance<P: Projection>(v: RoomView<P::Model>, w: RoomView<P::Model>, m: P::Model)
    requires
        up_to_date::<P>(v, m),
        w.folded == v.folded,
        w.settled == v.settled,
        causal(w.dag.graph),
        w.dag.graph.dom().finite(),
        v.folded <= confirmed_view_of(w.dag.graph, w.dag.voters).len(),
        confirmed_view_of(w.dag.graph, w.dag.voters).take(v.folded as int) == confirmed_view_of(
            v.dag.graph,
            v.dag.voters,
        ),
        forall|i: int|
            0 <= i < v.folded ==> v.dag.payload(
                #[trigger] confirmed_view_of(v.dag.graph, v.dag.voters)[i],
            ) == w.dag.payload(confirmed_view_of(v.dag.graph, v.dag.voters)[i]),
        refusal::<P>(w) is None,
    ensures
        up_to_date::<P>(advanced::<P>(w), m),
{
    let was = confirmed_view_of(v.dag.graph, v.dag.voters);
    let fin = confirmed_view_of(w.dag.graph, w.dag.voters);
    let all = order_of(w.dag.graph, w.dag.voters);
    law_order(w.dag.graph, w.dag.voters);
    assert(fin =~= was + fresh(w));
    lemma_replay_same::<P>(m, was, v.dag, w.dag);
    law_replay::<P>(m, was, fresh(w), w.dag);
    assert(all =~= fin + all.skip(fin.len() as int));
    law_replay::<P>(m, fin, all.skip(fin.len() as int), w.dag);
}

/// What becomes final comes out once for each operation, in order and numbered without a
/// gap from where the last left off.
pub proof fn law_contiguous<P: Projection>(v: RoomView<P::Model>, i: int)
    requires
        refusal::<P>(v) is None,
        0 <= i < fresh(v).len(),
        v.folded + fresh(v).len() <= u64::MAX,
    ensures
        ({
            let w = advanced::<P>(v);
            &&& w.folded == v.folded + fresh(v).len()
            &&& w.queue.len() == v.queue.len() + fresh(v).len()
            &&& w.queue.take(v.queue.len() as int) == v.queue
            &&& w.queue[v.queue.len() + i].2 == v.folded + i + 1
            &&& w.queue[v.queue.len() + i].0 == confirmed_view_of(
                v.dag.graph,
                v.dag.voters,
            )[v.folded + i]
        }),
{
    let w = advanced::<P>(v);
    assert(w.queue.take(v.queue.len() as int) =~= v.queue);
}

/// Without indexers nothing is ever final, and the view of everything is that of the
/// plain order.
pub proof fn law_no_indexers<P: Projection>(v: RoomView<P::Model>)
    requires
        v.dag.voters is None,
        v.folded == 0,
    ensures
        refusal::<P>(v) is None,
        advanced::<P>(v).folded == 0,
        advanced::<P>(v).settled == v.settled,
        advanced::<P>(v).queue == v.queue,
        advanced::<P>(v).shown == replay::<P>(
            v.settled,
            order_of(v.dag.graph, v.dag.voters),
            v.dag,
        ),
{
    assert(fresh(v) =~= Seq::empty());
    assert(v.queue + done(fresh(v), v.folded, v.dag) =~= v.queue);
    let all = order_of(v.dag.graph, v.dag.voters);
    assert(all.skip(0) =~= all);
}

/// What a room serves is taken: a replica that has the blocks before it takes a block of
/// the log that is written in a room, with the head and the proof that the room sends
/// along.
pub proof fn law_served_is_taken<M>(v: RoomView<M>, m: Mirror, i: u64, p: Proof)
    requires
        whole(v.local),
        i < v.local.tree.length,
        v.local.head matches Some(h) && h.signed_by(v.local.public),
        m.public == v.local.public,
        m.tree.length == i,
        holds(
            m.tree,
            stored_blocks(v.local.contents, v.local.tree.length as nat).take(i as int),
        ),
        proof_view(p) == proof_of(v.local.tree, i),
    ensures
        m.takes(v.local.head->0, i, v.local.contents[i], p),
{
    let blocks = stored_blocks(v.local.contents, v.local.tree.length as nat);
    crate::merkle::flat::lemma_leaf(i as nat);
    assert(v.local.tree.nodes.contains_key((2 * i) as u64));
    let top = crate::merkle::laws::lemma_path(v.local.tree, blocks, (2 * i) as u64);
    law_replicate(m, v.local, blocks, p);
    assert(blocks[i as int] == v.local.contents[i]);
}

/// What is written is what is read: the block that an operation is written to stands for
/// that operation, on top of the nodes it was written on.
pub proof fn law_written<M>(v: RoomView<M>, op: Seq<u8>)
    requires
        v.next_entry(op).heads.len() <= u64::MAX,
        op.len() <= u64::MAX,
    ensures
        parsed_entry(v.wrote(op).local.contents[v.local.tree.length]) == Ok::<
            EntryView,
            crate::codec::Error,
        >(v.next_entry(op)),
        v.wrote(op).dag.payload(v.next_node()) == op,
{
    let e = v.next_entry(op);
    law_entry(e, Seq::empty());
    assert(entry_bytes(e) + Seq::empty() =~= entry_bytes(e));
}

/// The entry that the block of a node stands for.
pub open spec fn entry_of<M>(v: RoomView<M>, n: NodeId) -> EntryView {
    (entry_read(v, n.key, n.seq)->0)->Ok_0
}

/// The entries that a room's blocks stand for.
pub open spec fn entries_of<M>(v: RoomView<M>) -> spec_fn(NodeId) -> EntryView {
    |n: NodeId| entry_of(v, n)
}

/// Whether a block of a writer's log stands for an entry whose node is there or waits.
pub open spec fn block_known<M>(v: RoomView<M>, w: WriterKey, i: u64) -> bool {
    reads(v, w, i) && known(v.dag, NodeId { key: w, seq: i })
}

/// Whether the nodes of a room, those that wait with them, are those of its blocks, one
/// for each.
pub open spec fn accounted<M>(v: RoomView<M>) -> bool {
    &&& follows(v.dag, entries_of(v))
    &&& forall|w: WriterKey, i: u64| i < v.length_of(w) ==> #[trigger] block_known(v, w, i)
    &&& forall|n: NodeId| #[trigger] known(v.dag, n) ==> n.seq < v.length_of(n.key)
}

/// Whether stores hold the logs of a room.
pub open spec fn saved<F: StoreFactory, M>(v: RoomView<M>, factory: F) -> bool {
    &&& forall|w: WriterKey| #[trigger]
        writers_of(factory, v.key).contains(w) ==> as_kept(v, factory, w)
    &&& forall|w: WriterKey| #[trigger]
        v.length_of(w) > 0 ==> writers_of(factory, v.key).contains(w)
}

/// The kept blocks of some logs are those of a room's nodes.
proof fn lemma_kept_known<F: StoreFactory, M>(v: RoomView<M>, factory: F, writers: Seq<WriterKey>)
    requires
        forall|k: int| 0 <= k < writers.len() ==> as_kept(v, factory, #[trigger] writers[k]),
    ensures
        given_by(kept_nodes(factory, writers), entries_of(v)),
        forall|n: NodeId| #[trigger]
            mentions(kept_nodes(factory, writers), n) <==> writers.contains(n.key) && n.seq
                < v.length_of(n.key),
    decreases writers.len(),
{
    if writers.len() == 0 {
        assert forall|n: NodeId| !#[trigger] mentions(kept_nodes(factory, writers), n) by {}
    } else {
        let less = writers.drop_last();
        let w = writers.last();
        let blocks = stored_from(factory.stored(w), 0);
        let a = kept_nodes(factory, less);
        let b = log_nodes(w, blocks);
        let all = kept_nodes(factory, writers);
        assert forall|k: int| 0 <= k < less.len() implies as_kept(
            v,
            factory,
            #[trigger] less[k],
        ) by {
            assert(less[k] == writers[k]);
        }
        lemma_kept_known(v, factory, less);
        assert(writers[writers.len() - 1] == w);
        assert(as_kept(v, factory, w));
        assert forall|j: int| 0 <= j < all.len() implies (#[trigger] all[j]).1 == entries_of(v)(
            all[j].0,
        ) by {
            if j < a.len() {
                assert(all[j] == a[j]);
            } else {
                let i = (j - a.len()) as u64;
                assert(all[j] == b[i as int]);
                assert(bytes_at(v, w, i) == Some(blocks[i as int]));
            }
        }
        assert forall|n: NodeId| #[trigger] mentions(all, n) <==> writers.contains(n.key) && n.seq
            < v.length_of(n.key) by {
            assert(mentions(a, n) <==> less.contains(n.key) && n.seq < v.length_of(n.key));
            if mentions(all, n) {
                let j = choose|j: int| 0 <= j < all.len() && (#[trigger] all[j]).0 == n;
                if j < a.len() {
                    assert(a[j].0 == n);
                    assert(writers[less.index_of(n.key)] == n.key);
                } else {
                    assert(all[j] == b[j - a.len()]);
                }
            }
            if writers.contains(n.key) && n.seq < v.length_of(n.key) {
                if n.key == w {
                    assert(b[n.seq as int].0 == n);
                    assert(all[a.len() + n.seq].0 == n);
                } else {
                    assert(less[writers.index_of(n.key)] == n.key);
                    let j = choose|j: int| 0 <= j < a.len() && (#[trigger] a[j]).0 == n;
                    assert(all[j].0 == n);
                }
            }
        }
    }
}

/// Stores that hold the logs of a room hold its nodes.
proof fn lemma_saved<F: StoreFactory, M>(v: RoomView<M>, factory: F)
    requires
        accounted(v),
        saved(v, factory),
    ensures
        given_by(kept_nodes(factory, writers_of(factory, v.key)), entries_of(v)),
        forall|n: NodeId| #[trigger]
            mentions(kept_nodes(factory, writers_of(factory, v.key)), n) <==> known(v.dag, n),
{
    let writers = writers_of(factory, v.key);
    assert forall|k: int| 0 <= k < writers.len() implies as_kept(
        v,
        factory,
        #[trigger] writers[k],
    ) by {
        assert(writers.contains(writers[k]));
    }
    lemma_kept_known(v, factory, writers);
    assert forall|n: NodeId| #[trigger]
        mentions(kept_nodes(factory, writers), n) <==> known(v.dag, n) by {
        if known(v.dag, n) {
            assert(v.length_of(n.key) > 0);
        }
        if n.seq < v.length_of(n.key) {
            assert(block_known(v, n.key, n.seq));
        }
    }
}

/// A room comes back as it was: one that is opened on stores that hold the logs of a room
/// has that room's nodes and order, and its views, though no peer is there; what waited
/// waits again. Nothing is reported as final that had been before.
pub proof fn law_resume<F: StoreFactory, P: Projection>(
    v: RoomView<P::Model>,
    m: P::Model,
    start: RoomView<P::Model>,
    factory: F,
    x: Room<F, P>,
)
    requires
        accounted(v),
        settled(v.dag),
        up_to_date::<P>(v, m),
        causal(v.dag.graph),
        v.dag.graph.dom().finite(),
        v.dag.graph.dom().len() <= u64::MAX,
        saved(v, factory),
        start.key == v.key,
        start.dag == (DagView {
            graph: Map::empty(),
            voters: v.dag.voters,
            payloads: Map::empty(),
            pending: Seq::empty(),
        }),
        start.folded == 0,
        start.settled == m,
        open_outcome::<F, P>(start, factory, Ok::<Room<F, P>, RoomError<F, P>>(x)),
    ensures
        x@.dag.graph == v.dag.graph,
        x@.dag.payloads == v.dag.payloads,
        forall|n: NodeId| #[trigger]
            mentions(x@.dag.pending, n) <==> mentions(v.dag.pending, n),
        order_of(x@.dag.graph, x@.dag.voters) == order_of(v.dag.graph, v.dag.voters),
        x@.folded == v.folded,
        x@.settled == v.settled,
        x@.shown == v.shown,
        x@.queue == Seq::<(NodeId, Seq<u8>, u64)>::empty(),
{
    let base = resumed(start, factory, x@.remotes);
    lemma_saved(v, factory);
    law_redelivered(v.dag, kept_nodes(factory, writers_of(factory, v.key)), entries_of(v));
    lemma_from_nothing::<P>(base, m);
    law_converge::<P>(v, advanced::<P>(base), m);
}

/// A room does come back: on stores that hold the logs of a room, whose projection takes
/// what is final, nothing but the stores themselves can keep a room from being opened.
pub proof fn law_resume_opens<F: StoreFactory, P: Projection>(
    v: RoomView<P::Model>,
    m: P::Model,
    start: RoomView<P::Model>,
    factory: F,
    e: RoomError<F, P>,
)
    requires
        accounted(v),
        settled(v.dag),
        v.coherent(),
        causal(v.dag.graph),
        v.dag.graph.dom().finite(),
        v.dag.graph.dom().len() <= u64::MAX,
        saved(v, factory),
        forall|w: WriterKey| #[trigger]
            writers_of(factory, v.key).contains(w) ==> fitting(stored_from(factory.stored(w), 0))
                && ed25519_decodes(w@),
        first_refused::<P>(m, confirmed_view_of(v.dag.graph, v.dag.voters), v.dag) is None,
        start.key == v.key,
        start.local.tree == empty_tree(),
        start.local.head is None,
        start.local.contents == factory.stored(v.key),
        start.local.public@ == v.key,
        start.dag == (DagView {
            graph: Map::empty(),
            voters: v.dag.voters,
            payloads: Map::empty(),
            pending: Seq::empty(),
        }),
        start.folded == 0,
        start.settled == m,
        open_outcome::<F, P>(start, factory, Err::<Room<F, P>, RoomError<F, P>>(e)),
    ensures
        (e is Open && !F::certain()) || ((e matches Error::Hypercore(h) && h is Storage)
            && !F::Store::sure()),
{
    let writers = writers_of(factory, v.key);
    let base = resumed(start, factory, start.remotes);
    lemma_saved(v, factory);
    law_redelivered(v.dag, kept_nodes(factory, writers), entries_of(v));
    assert(writers[0] == v.key);
    assert(writers.contains(v.key));
    lemma_own(start, factory);
    let n = base.local.tree.length;
    assert(as_kept(v, factory, v.key));
    assert(n == v.local.tree.length);
    assert forall|i: int| 0 <= i < base.dag.pending.len() implies (
    #[trigger] base.dag.pending[i]).0.key != v.key by {
        let node = base.dag.pending[i].0;
        assert(mentions(base.dag.pending, node));
        assert(mentions(v.dag.pending, node));
    }
    assert(base.coherent());
    law_order(v.dag.graph, v.dag.voters);
    let fin = confirmed_view_of(v.dag.graph, v.dag.voters);
    assert(fresh(base) =~= fin);
    lemma_refused_same::<P>(m, fin, v.dag, base.dag);
    assert forall|w: WriterKey, i: int|
        writers.contains(w) && 0 <= i < stored_from(factory.stored(w), 0).len() implies parsed_entry(
        #[trigger] stored_from(factory.stored(w), 0)[i],
    ) is Ok by {
        assert(as_kept(v, factory, w));
        assert(block_known(v, w, i as u64));
        assert(bytes_at(v, w, i as u64) == Some(stored_from(factory.stored(w), 0)[i]));
    }
}

/// What a projection refuses depends on nothing but the payloads.
proof fn lemma_refused_same<P: Projection>(
    m: P::Model,
    nodes: Seq<NodeId>,
    a: DagView,
    b: DagView,
)
    requires
        a.payloads == b.payloads,
    ensures
        first_refused::<P>(m, nodes, a) == first_refused::<P>(m, nodes, b),
    decreases nodes.len(),
{
    if nodes.len() > 0 {
        lemma_refused_same::<P>(m, nodes.drop_last(), a, b);
        lemma_replay_same::<P>(m, nodes.drop_last(), a, b);
    }
}

/// A room whose views are of nothing is brought up to date by advancing.
pub proof fn lemma_from_nothing<P: Projection>(v: RoomView<P::Model>, m: P::Model)
    requires
        v.folded == 0,
        v.settled == m,
        causal(v.dag.graph),
        v.dag.graph.dom().finite(),
        refusal::<P>(v) is None,
    ensures
        up_to_date::<P>(advanced::<P>(v), m),
{
    let fin = confirmed_view_of(v.dag.graph, v.dag.voters);
    let all = order_of(v.dag.graph, v.dag.voters);
    law_order(v.dag.graph, v.dag.voters);
    assert(fresh(v) =~= fin);
    assert(all =~= fin + all.skip(fin.len() as int));
    law_replay::<P>(m, fin, all.skip(fin.len() as int), v.dag);
}

/// The nodes of a room that was opened are those of its blocks, and none waits that could
/// be delivered.
pub proof fn law_opened_is_kept<F: StoreFactory, P: Projection>(
    start: RoomView<P::Model>,
    factory: F,
    x: Room<F, P>,
)
    requires
        start.local.tree == empty_tree(),
        start.local.head is None,
        start.local.contents == factory.stored(start.key),
        start.dag.graph == Map::<NodeId, Set<NodeId>>::empty(),
        start.dag.payloads == Map::<NodeId, Seq<u8>>::empty(),
        start.dag.pending == Seq::<(NodeId, EntryView)>::empty(),
        open_outcome::<F, P>(start, factory, Ok::<Room<F, P>, RoomError<F, P>>(x)),
    ensures
        accounted(x@),
        settled(x@.dag),
{
    let v = x@;
    let writers = writers_of(factory, start.key);
    let list = kept_nodes(factory, writers);
    let full = RoomView {
        local: taken_up(start.local, stored_from(factory.stored(start.key), 0)),
        remotes: v.remotes,
        ..start
    };
    let d = start.dag.offered_all(list);
    assert(v.dag == d.drained());
    assert forall|k: int| 0 <= k < writers.len() implies as_kept(
        v,
        factory,
        #[trigger] writers[k],
    ) by {
        lemma_as_kept(start, factory, full, k);
        let w = writers[k];
        let blocks = stored_from(factory.stored(w), 0);
        assert forall|i: u64| i < blocks.len() implies #[trigger] bytes_at(v, w, i) == Some(
            blocks[i as int],
        ) by {
            assert(bytes_at(full, w, i) == Some(blocks[i as int]));
        }
    }
    lemma_kept_known(v, factory, writers);
    assert(start.dag.payloads.dom() =~= start.dag.graph.dom());
    lemma_follows(start.dag, list, entries_of(v));
    lemma_drained_follows(d, entries_of(v));
    assert forall|w: WriterKey| #[trigger] v.length_of(w) > 0 implies writers.contains(w) by {
        if w == start.key {
            assert(writers[0] == w);
        } else {
            let rest = others(factory.kept(), start.key);
            assert(v.remotes.contains_key(w));
            assert(writers[rest.index_of(w) + 1] == w);
        }
    }
    assert forall|n: NodeId| #[trigger] known(v.dag, n) <==> n.seq < v.length_of(n.key) by {
        assert(known(d, n) <==> known(start.dag, n) || mentions(list, n));
        assert(!mentions(start.dag.pending, n));
        if n.seq < v.length_of(n.key) {
            assert(v.length_of(n.key) > 0);
        }
    }
    assert forall|w: WriterKey, i: u64| i < v.length_of(w) implies #[trigger] block_known(
        v,
        w,
        i,
    ) by {
        assert(v.length_of(w) > 0);
        let blocks = stored_from(factory.stored(w), 0);
        let k = writers.index_of(w);
        assert(as_kept(v, factory, writers[k]));
        assert(bytes_at(v, w, i) == Some(blocks[i as int]));
        assert(legible(blocks));
        assert(parsed_entry(blocks[i as int]) is Ok);
        assert(known(v.dag, NodeId { key: w, seq: i }));
    }
    assert forall|i: int| 0 <= i < v.dag.pending.len() implies !v.dag.graph.contains_key(
        (#[trigger] v.dag.pending[i]).0,
    ) && !deliverable(v.dag.graph, v.dag.pending[i].0, v.dag.pending[i].1.heads) by {
        law_drained(d, i);
    }
}

/// What is known follows from the blocks as well if more of them are read.
proof fn lemma_still_follows<M>(v: RoomView<M>, w: RoomView<M>)
    requires
        accounted(v),
        forall|n: NodeId| #[trigger] known(v.dag, n) ==> entry_of(w, n) == entry_of(v, n),
    ensures
        follows(v.dag, entries_of(w)),
{
    let d = v.dag;
    assert forall|n: NodeId| #[trigger] d.graph.contains_key(n) implies made_of(
        d,
        n,
        entries_of(w)(n),
    ) by {
        assert(known(d, n));
        assert(made_of(d, n, entries_of(v)(n)));
    }
    assert forall|i: int| 0 <= i < d.pending.len() implies (#[trigger] d.pending[i]).1
        == entries_of(w)(d.pending[i].0) by {
        assert(mentions(d.pending, d.pending[i].0));
        assert(known(d, d.pending[i].0));
        assert(d.pending[i].1 == entries_of(v)(d.pending[i].0));
    }
}

/// Writing keeps a room's nodes those of its blocks.
pub proof fn law_written_is_kept<P: Projection>(v: RoomView<P::Model>, op: Seq<u8>)
    requires
        accounted(v),
        v.coherent(),
        whole(v.local),
        room(
            stored_blocks(v.local.contents, v.local.tree.length as nat),
            entry_bytes(v.next_entry(op)),
        ),
        v.next_entry(op).heads.len() <= u64::MAX,
        op.len() <= u64::MAX,
    ensures
        accounted(advanced::<P>(v.wrote(op))),
{
    let w = advanced::<P>(v.wrote(op));
    let e = v.next_entry(op);
    let n = v.local.tree.length;
    let x = v.next_node();
    law_written(v, op);
    law_append(
        v.local,
        stored_blocks(v.local.contents, n as nat),
        entry_bytes(e),
    );
    assert(w.local == v.local.appended(entry_bytes(e)));
    assert(w.local.block(n) == Some(entry_bytes(e)));
    assert(entry_read(w, v.key, n) == Some(Ok::<EntryView, crate::codec::Error>(e)));
    assert forall|k: WriterKey, i: u64| i < v.length_of(k) implies #[trigger] entry_read(w, k, i)
        == entry_read(v, k, i) by {
        assert(bytes_at(w, k, i) == bytes_at(v, k, i));
    }
    assert forall|a: NodeId| #[trigger] known(v.dag, a) implies entry_of(w, a) == entry_of(v, a) by {
        assert(a.seq < v.length_of(a.key));
    }
    lemma_still_follows(v, w);
    assert(!v.dag.graph.contains_key(x));
    assert(w.dag.payloads.dom() =~= w.dag.graph.dom());
    assert forall|a: NodeId| #[trigger] w.dag.graph.contains_key(a) implies made_of(
        w.dag,
        a,
        entries_of(w)(a),
    ) by {
        if a != x {
            assert(made_of(v.dag, a, entries_of(w)(a)));
        }
    }
    assert forall|a: NodeId| #[trigger] known(w.dag, a) <==> known(v.dag, a) || a == x by {}
    assert forall|k: WriterKey, i: u64| i < w.length_of(k) implies #[trigger] block_known(
        w,
        k,
        i,
    ) by {
        if k == v.key && i == n {
            assert(known(w.dag, x));
        } else {
            assert(block_known(v, k, i));
            assert(entry_read(w, k, i) == entry_read(v, k, i));
            assert(known(w.dag, NodeId { key: k, seq: i }));
        }
    }
    assert forall|a: NodeId| #[trigger] known(w.dag, a) implies a.seq < w.length_of(a.key) by {
        if a != x {
            assert(known(v.dag, a));
        }
    }
}

/// Taking in the next block of another writer's log keeps a room's nodes those of its
/// blocks, whether the block's node is delivered or waits; and after it none waits that
/// could be delivered.
pub proof fn law_taken_is_kept<P: Projection>(
    v: RoomView<P::Model>,
    w: WriterKey,
    x: Mirror,
    bytes: Seq<u8>,
    e: EntryView,
)
    requires
        accounted(v),
        w != v.key,
        v.length_of(w) < u64::MAX,
        x.tree.length == v.length_of(w) + 1,
        x.contents.contains_key(v.length_of(w)),
        x.contents[v.length_of(w)] == bytes,
        v.remotes.contains_key(w) ==> x.contents == v.remotes[w].contents.insert(
            v.length_of(w),
            bytes,
        ),
        parsed_entry(bytes) == Ok::<EntryView, crate::codec::Error>(e),
    ensures
        ({
            let y = advanced::<P>(
                v.with_replica(w, x).took(NodeId { key: w, seq: v.length_of(w) }, e),
            );
            accounted(y) && settled(y.dag)
        }),
{
    let n = v.length_of(w);
    let node = NodeId { key: w, seq: n };
    let y = advanced::<P>(v.with_replica(w, x).took(node, e));
    let one = seq![(node, e)];
    let d = v.dag.offered(node, e);
    assert(one.drop_last() =~= Seq::empty());
    assert(v.dag.offered_all(one.drop_last()) == v.dag);
    assert(v.dag.offered_all(one) == d);
    assert(y.dag == d.drained());
    assert(bytes_at(y, w, n) == Some(bytes));
    assert(entry_read(y, w, n) == Some(Ok::<EntryView, crate::codec::Error>(e)));
    assert forall|k: WriterKey, i: u64| i < v.length_of(k) implies #[trigger] entry_read(y, k, i)
        == entry_read(v, k, i) by {
        assert(bytes_at(y, k, i) == bytes_at(v, k, i));
    }
    assert forall|a: NodeId| #[trigger] known(v.dag, a) implies entry_of(y, a) == entry_of(v, a) by {
        assert(a.seq < v.length_of(a.key));
    }
    lemma_still_follows(v, y);
    assert(one[0].1 == entries_of(y)(one[0].0));
    lemma_follows(v.dag, one, entries_of(y));
    lemma_drained_follows(d, entries_of(y));
    assert forall|a: NodeId| #[trigger] known(y.dag, a) <==> known(v.dag, a) || a == node by {
        assert(known(d, a) <==> known(v.dag, a) || mentions(one, a));
        if a == node {
            assert(one[0].0 == a);
        }
    }
    assert forall|k: WriterKey, i: u64| i < y.length_of(k) implies #[trigger] block_known(
        y,
        k,
        i,
    ) by {
        if k == w && i == n {
            assert(known(y.dag, node));
        } else {
            assert(i < v.length_of(k));
            assert(block_known(v, k, i));
            assert(entry_read(y, k, i) == entry_read(v, k, i));
            assert(known(y.dag, NodeId { key: k, seq: i }));
        }
    }
    assert forall|a: NodeId| #[trigger] known(y.dag, a) implies a.seq < y.length_of(a.key) by {
        if a != node {
            assert(known(v.dag, a));
        }
    }
    assert forall|i: int| 0 <= i < y.dag.pending.len() implies !y.dag.graph.contains_key(
        (#[trigger] y.dag.pending[i]).0,
    ) && !deliverable(y.dag.graph, y.dag.pending[i].0, y.dag.pending[i].1.heads) by {
        law_drained(d, i);
    }
}

/// Where nothing was kept, a room is opened with nothing in it.
pub proof fn law_nothing_kept<F: StoreFactory, P: Projection>(
    start: RoomView<P::Model>,
    factory: F,
    x: Room<F, P>,
)
    requires
        start.remotes == Map::<WriterKey, Mirror>::empty(),
        start.dag.graph == Map::<NodeId, Set<NodeId>>::empty(),
        start.dag.pending.len() == 0,
        start.folded == 0,
        start.shown == start.settled,
        start.queue.len() == 0,
        factory.kept().len() == 0,
        !factory.stored(start.key).contains_key(0),
        open_outcome::<F, P>(start, factory, Ok::<Room<F, P>, RoomError<F, P>>(x)),
    ensures
        x@ == start,
{
    let base = resumed(start, factory, x@.remotes);
    let writers = writers_of(factory, start.key);
    let none = stored_from(factory.stored(start.key), 0);
    assert(others(factory.kept(), start.key) =~= Seq::empty());
    assert(writers =~= seq![start.key]);
    assert(writers.drop_last() =~= Seq::empty());
    assert(none =~= Seq::empty());
    assert(kept_nodes(factory, writers.drop_last()) =~= Seq::empty());
    assert(kept_nodes(factory, writers) =~= Seq::empty());
    assert(start.dag.offered_all(kept_nodes(factory, writers)) == start.dag);
    assert(start.dag.swept().pending.len() == 0);
    assert(base.dag == start.dag);
    assert forall|w: WriterKey| !(#[trigger] x@.remotes.contains_key(w)) by {}
    assert(x@.remotes =~= start.remotes);
    let ids = Seq::<NodeId>::empty();
    assert(ids.to_set() =~= start.dag.graph.dom());
    assert(delivered(start.dag.graph, ids));
    law_order(start.dag.graph, start.dag.voters);
    let all = order_of(start.dag.graph, start.dag.voters);
    assert(all.len() == 0) by {
        if all.len() > 0 {
            assert(all.to_set().contains(all[0]));
        }
    }
    assert(fresh(base) =~= Seq::empty());
    assert(all.skip(0) =~= Seq::empty());
    assert(advanced::<P>(base).queue =~= start.queue);
    assert(x@ =~= start);
}

/// The entry that is written next names the frontier, and all of it is there.
proof fn lemma_next_heads<M>(v: RoomView<M>, op: Seq<u8>)
    requires
        v.dag.graph.dom().finite(),
    ensures
        forall|n: NodeId| #[trigger]
            v.next_entry(op).heads.to_set().contains(n) <==> v.dag.graph.contains_key(n)
                && !covered(v.dag.graph, n),
        first_missing(v.dag.graph, v.next_entry(op).heads) is None,
{
    let g = v.dag.graph;
    let s = Set::new(|n: NodeId| g.contains_key(n) && !covered(g, n));
    let heads = v.next_entry(op).heads;
    assert(s.subset_of(g.dom()));
    vstd::set_lib::lemma_set_subset_finite(g.dom(), s);
    lemma_in_order_of(s);
    assert forall|i: int| 0 <= i < heads.len() implies g.contains_key(#[trigger] heads[i]) by {
        assert(heads.to_set().contains(heads[i]));
    }
    lemma_none_missing(g, heads);
}

/// What is written builds on everything that had been seen: every node of the room is in
/// the history of the new one.
pub proof fn law_written_on_top<M>(v: RoomView<M>, op: Seq<u8>, ids: Seq<NodeId>)
    requires
        v.coherent(),
        delivered(v.dag.graph, ids),
    ensures
        delivered(v.wrote(op).dag.graph, ids.push(v.next_node())),
        forall|n: NodeId| #[trigger]
            v.dag.graph.contains_key(n) ==> reaches(v.wrote(op).dag.graph, v.next_node(), n),
{
    let g = v.dag.graph;
    let x = v.next_node();
    let heads = v.next_entry(op).heads;
    let d = new_deps(x, heads);
    ids.unique_seq_to_set();
    lemma_next_heads(v, op);
    lemma_log_is(g, v.key, v.local.tree.length);
    assert(!g.contains_key(x));
    assert(x.seq > 0 ==> g.contains_key(NodeId { key: x.key, seq: (x.seq - 1) as u64 }));
    lemma_deliver(g, ids, x, heads);
    assert forall|n: NodeId| g.contains_key(n) && !covered(g, n) implies #[trigger] d.contains(
        n,
    ) by {
        assert(heads.to_set().contains(n));
    }
    law_frontier(g, ids, x, d);
}

/// What is final stays: a room whose writers always had seen everything, and whose views
/// are up to date, has them up to date after writing, and what was final comes first
/// among what is final.
pub proof fn law_final_stays<P: Projection>(
    v: RoomView<P::Model>,
    op: Seq<u8>,
    m: P::Model,
    ids: Seq<NodeId>,
)
    requires
        v.coherent(),
        delivered(v.dag.graph, ids),
        ids.len() < u64::MAX,
        chained(v.dag.graph),
        v.dag.voters matches Some(k) ==> sorted_keys(k),
        up_to_date::<P>(v, m),
        refusal::<P>(v.wrote(op)) is None,
    ensures
        chained(v.wrote(op).dag.graph),
        up_to_date::<P>(advanced::<P>(v.wrote(op)), m),
        confirmed_view_of(v.wrote(op).dag.graph, v.dag.voters).take(v.folded as int)
            == confirmed_view_of(v.dag.graph, v.dag.voters),
{
    let g = v.dag.graph;
    let x = v.next_node();
    let w = v.wrote(op);
    let d = new_deps(x, v.next_entry(op).heads);
    law_written_on_top(v, op, ids);
    assert(!g.contains_key(x));
    assert(tops(g, ids, x, d));
    law_finality(g, ids, x, d, v.dag.voters);
    ids.unique_seq_to_set();
    assert(w.dag.graph.dom() =~= g.dom().insert(x));
    assert(causal(w.dag.graph));
    assert(causal(g));
    law_order(g, v.dag.voters);
    let fin = confirmed_view_of(g, v.dag.voters);
    let all = order_of(g, v.dag.voters);
    assert forall|i: int| 0 <= i < v.folded implies v.dag.payload(#[trigger] fin[i])
        == w.dag.payload(fin[i]) by {
        assert(all.take(fin.len() as int)[i] == all[i]);
        assert(all.to_set().contains(all[i]));
        assert(g.contains_key(fin[i]));
    }
    law_advance::<P>(v, w, m);
}

} // verus!
