//! What each step changes in a room, part by part.
use vstd::prelude::*;
use super::config::Origin;
use super::dag::{deliverable, known, law_drained, mentions, settled, DagView};
use super::entry::{entry_bytes, parsed_entry, EntryView};
use super::fold::{first_refused, lemma_refused_within, replay};
use super::hosting::law_others;
use super::laws::{lemma_from_nothing, up_to_date};
use super::projection::Projection;
use super::room::resume::{open_outcome, resumed};
use super::room::{
    advanced, append_outcome, bytes_at, end_within, entry_read, fresh, inbound_outcome, opened,
    proof_of, Error, Fanout, Outbound, PeerId, Room, RoomError, RoomView,
};
use super::store::StoreFactory;
use super::sync::{proof_view, SyncMessage};
use crate::autobase::basics::{law_first_missing, law_frontier_is, law_new_deps, law_voters};
use crate::autobase::consensus::confirmed_view_of;
use crate::autobase::graph::{delivered, lemma_log_len_meaning, log_len, Deps};
use crate::autobase::ids::sorted_keys;
use crate::autobase::{NodeId, WriterKey};
use crate::hypercore::effects::{law_block_changes, law_takes};
use crate::hypercore::laws::held;
use crate::hypercore::restore::{law_taken_up, stored_from, taken_up};
use crate::hypercore::{empty_tree, extended};
use crate::identity::{ed25519_decodes, PublicKey};
use crate::merkle::Tree;
use crate::storage::{Contents, Store};

verus! {

/// Whether the voters are exactly the writers that were named, each once; where none was
/// named there is no vote.
pub open spec fn votes_of(voters: Option<Seq<WriterKey>>, named: Seq<WriterKey>) -> bool {
    match voters {
        Some(v) => {
            &&& named.len() > 0
            &&& v.len() > 0
            &&& v.no_duplicates()
            &&& sorted_keys(v)
            &&& forall|w: WriterKey| #[trigger] v.contains(w) == named.contains(w)
        },
        None => named.len() == 0,
    }
}

/// A room that has just been made has an empty log, no replica, no node and nothing final;
/// the indexers that were named, whatever their number, have the votes, and nobody else.
pub proof fn law_opened<M>(
    seed: [u8; 32],
    indexers: Seq<WriterKey>,
    origin: Origin,
    public: PublicKey,
    stored: Contents,
    m: M,
)
    ensures
        ({
            let v = opened(seed, indexers, origin, public, stored, m);
            &&& votes_of(v.dag.voters, indexers)
            &&& v.key == public@
            &&& v.origin == origin
            &&& v.local.seed == seed
            &&& v.local.public == public
            &&& v.local.tree == empty_tree()
            &&& v.local.contents == stored
            &&& forall|i: u64| !#[trigger] v.local.has(i)
            &&& v.local.head is None
            &&& v.local.fork == 0
            &&& v.local.truncation is None
            &&& v.local.prologue is None
            &&& forall|w: WriterKey| !#[trigger] v.remotes.contains_key(w)
            &&& forall|n: NodeId| !#[trigger] v.dag.graph.contains_key(n)
            &&& forall|n: NodeId| !#[trigger] v.dag.payloads.contains_key(n)
            &&& v.dag.pending.len() == 0
            &&& v.folded == 0
            &&& v.settled == m
            &&& v.shown == m
            &&& v.queue.len() == 0
            &&& v.activity == 0
        }),
{
    law_voters(indexers);
    let v = opened(seed, indexers, origin, public, stored, m);
    if indexers.len() > 0 {
        let keys = v.dag.voters->0;
        assert(indexers.contains(indexers[0]));
        assert(keys.contains(indexers[0]));
        assert(keys.no_duplicates());
    }
}

/// Offering nodes changes no vote.
proof fn lemma_offered_votes(d: DagView, list: Seq<(NodeId, EntryView)>)
    ensures
        d.offered_all(list).voters == d.voters,
    decreases list.len(),
{
    if list.len() > 0 {
        lemma_offered_votes(d, list.drop_last());
    }
}

/// Offering what waits changes no vote.
proof fn lemma_drained_votes(d: DagView)
    ensures
        d.drained().voters == d.voters,
    decreases d.pending.len(),
{
    lemma_offered_votes(DagView { pending: Seq::empty(), ..d }, d.pending);
    if d.swept().pending.len() < d.pending.len() {
        lemma_drained_votes(d.swept());
    }
}

/// A room that was opened counts the votes of exactly the indexers that were named,
/// whatever their number; what it says is final is what those votes confirm of the nodes
/// that its stores have kept, and its views are those of its nodes from the beginning.
pub proof fn law_open_reports<F: StoreFactory, P: Projection>(
    seed: [u8; 32],
    indexers: Seq<WriterKey>,
    origin: Origin,
    public: PublicKey,
    m: P::Model,
    factory: F,
    x: Room<F, P>,
)
    requires
        open_outcome::<F, P>(
            opened(seed, indexers, origin, public, factory.stored(public@), m),
            factory,
            Ok(x),
        ),
    ensures
        votes_of(x@.dag.voters, indexers),
        x@.key == public@,
        x@.origin == origin,
        x@.folded == confirmed_view_of(x@.dag.graph, x@.dag.voters).len(),
        up_to_date::<P>(x@, m),
        x@.queue.len() == 0,
        x@.activity == 0,
        indexers.len() == 0 ==> x@.folded == 0 && x@.settled == m,
{
    let stored = factory.stored(public@);
    let start = opened(seed, indexers, origin, public, stored, m);
    law_opened(seed, indexers, origin, public, stored, m);
    let base = resumed(start, factory, x@.remotes);
    let nodes = super::room::resume::kept_nodes(
        factory,
        super::room::resume::writers_of(factory, start.key),
    );
    lemma_offered_votes(start.dag, nodes);
    lemma_drained_votes(start.dag.offered_all(nodes));
    x.lemma_graph();
    lemma_from_nothing::<P>(base, m);
}

/// The views fold one payload after the other: one more node is its payload applied on top
/// of all before it. A node that has no payload counts with an empty one.
pub proof fn law_replay_next<P: Projection>(
    m: P::Model,
    nodes: Seq<NodeId>,
    n: NodeId,
    d: DagView,
)
    ensures
        replay::<P>(m, Seq::empty(), d) == m,
        d.payloads.contains_key(n) ==> replay::<P>(m, nodes.push(n), d) == P::applied(
            replay::<P>(m, nodes, d),
            n,
            d.payloads[n],
        ),
        !d.payloads.contains_key(n) ==> replay::<P>(m, nodes.push(n), d) == P::applied(
            replay::<P>(m, nodes, d),
            n,
            Seq::empty(),
        ),
{
    assert(nodes.push(n).drop_last() =~= nodes);
}

/// Whether the projection takes the payload of `nodes[i]` on top of those before it.
pub open spec fn takes_at<P: Projection>(
    m: P::Model,
    nodes: Seq<NodeId>,
    d: DagView,
    i: int,
) -> bool {
    P::accepts(replay::<P>(m, nodes.take(i), d), nodes[i], d.payload(nodes[i]))
}

/// The first refusal is at the first node whose payload is not taken on top of those before
/// it.
pub proof fn law_refused_first<P: Projection>(m: P::Model, nodes: Seq<NodeId>, d: DagView)
    ensures
        match first_refused::<P>(m, nodes, d) {
            Some(i) => {
                &&& i < nodes.len()
                &&& !takes_at::<P>(m, nodes, d, i as int)
                &&& forall|j: int| 0 <= j < i ==> #[trigger] takes_at::<P>(m, nodes, d, j)
            },
            None => forall|j: int|
                0 <= j < nodes.len() ==> #[trigger] takes_at::<P>(m, nodes, d, j),
        },
    decreases nodes.len(),
{
    if nodes.len() > 0 {
        let less = nodes.drop_last();
        law_refused_first::<P>(m, less, d);
        assert forall|j: int| 0 <= j < less.len() implies (#[trigger] takes_at::<P>(
            m,
            nodes,
            d,
            j,
        )) == takes_at::<P>(m, less, d, j) by {
            assert(nodes.take(j) =~= less.take(j));
        }
        assert(nodes.take(less.len() as int) =~= less);
        assert(takes_at::<P>(m, nodes, d, less.len() as int) == P::accepts(
            replay::<P>(m, less, d),
            nodes.last(),
            d.payload(nodes.last()),
        ));
    }
}

/// What has become final and is not folded yet is what is final, but for as many at the
/// front as are folded.
pub proof fn law_fresh<M>(v: RoomView<M>, i: int)
    ensures
        ({
            let fin = confirmed_view_of(v.dag.graph, v.dag.voters);
            &&& v.folded <= fin.len() ==> v.folded + fresh(v).len() == fin.len()
            &&& v.folded >= fin.len() ==> fresh(v).len() == 0
            &&& 0 <= i < fresh(v).len() ==> fresh(v)[i] == fin[v.folded + i]
        }),
{
}

/// Bringing the views up to date changes the views and nothing else. Everything that has
/// become final is folded and reported, in order, each under its number in that order, unless
/// the projection refuses one: then only what comes before that one is reported, and what is
/// shown and counted as folded stays.
pub proof fn law_advanced<P: Projection>(v: RoomView<P::Model>, i: int)
    requires
        v.folded + fresh(v).len() <= u64::MAX,
    ensures
        ({
            let w = advanced::<P>(v);
            let q = v.queue.len();
            let fin = confirmed_view_of(v.dag.graph, v.dag.voters);
            &&& w.key == v.key
            &&& w.origin == v.origin
            &&& w.local == v.local
            &&& w.remotes == v.remotes
            &&& w.dag == v.dag
            &&& w.activity == v.activity
            &&& w.queue.len() >= q
            &&& 0 <= i < q ==> w.queue[i] == v.queue[i]
            &&& q <= i < w.queue.len() ==> {
                let n = fin[v.folded + i - q];
                &&& w.queue[i].0 == n
                &&& v.dag.payloads.contains_key(n) ==> w.queue[i].1 == v.dag.payloads[n]
                &&& w.queue[i].2 == v.folded + i - q + 1
            }
            &&& match first_refused::<P>(v.settled, fresh(v), v.dag) {
                None => {
                    &&& v.folded <= fin.len() ==> w.folded == fin.len()
                    &&& v.folded >= fin.len() ==> w.folded == v.folded
                    &&& w.queue.len() - q == w.folded - v.folded
                    &&& w.settled == replay::<P>(v.settled, fresh(v), v.dag)
                    &&& w.shown == replay::<P>(
                        w.settled,
                        crate::autobase::consensus::order_of(v.dag.graph, v.dag.voters).skip(
                            w.folded as int,
                        ),
                        v.dag,
                    )
                },
                Some(k) => {
                    &&& w.folded == v.folded
                    &&& w.queue.len() == q + k
                    &&& w.shown == v.shown
                    &&& w.settled == P::applied(
                        replay::<P>(v.settled, fresh(v).take(k as int), v.dag),
                        fresh(v)[k as int],
                        v.dag.payload(fresh(v)[k as int]),
                    )
                },
            }
        }),
{
    law_fresh(v, i - v.queue.len());
    lemma_refused_within::<P>(v.settled, fresh(v), v.dag);
    if let Some(k) = first_refused::<P>(v.settled, fresh(v), v.dag) {
        let some = fresh(v).take(k as int + 1);
        assert(some.drop_last() =~= fresh(v).take(k as int));
        assert(some.last() == fresh(v)[k as int]);
    }
}

/// A node can be delivered if it is not there, the one before it in its log is, and so is all
/// that it builds on.
pub proof fn law_deliverable(g: Deps, ids: Seq<NodeId>, node: NodeId, heads: Seq<NodeId>)
    requires
        delivered(g, ids),
        ids.len() <= u64::MAX,
    ensures
        deliverable(g, node, heads) <==> {
            &&& !g.contains_key(node)
            &&& node.seq > 0 ==> g.contains_key(NodeId { key: node.key, seq: (node.seq - 1) as u64 })
            &&& forall|j: int| 0 <= j < heads.len() ==> g.contains_key(#[trigger] heads[j])
        },
{
    law_first_missing(g, heads);
    lemma_log_len_meaning(g, ids, node.key);
    let n = log_len(g, node.key);
    assert(g.contains_key(NodeId { key: node.key, seq: node.seq }) == (node.seq < n));
    if node.seq > 0 {
        let before = NodeId { key: node.key, seq: (node.seq - 1) as u64 };
        assert(g.contains_key(before) == (before.seq < n));
    }
}

/// A node that is offered is dropped if it is there, delivered if it can be, under its own
/// id, on top of what it builds on and the one before it in its log; else it waits.
pub proof fn law_offered(d: DagView, node: NodeId, e: EntryView)
    ensures
        ({
            let f = d.offered(node, e);
            &&& f.voters == d.voters
            &&& forall|n: NodeId|
                n != node ==> {
                    &&& (#[trigger] f.graph.contains_key(n)) == d.graph.contains_key(n)
                    &&& f.graph[n] == d.graph[n]
                    &&& f.payloads.contains_key(n) == d.payloads.contains_key(n)
                    &&& f.payloads[n] == d.payloads[n]
                }
            &&& d.graph.contains_key(node) ==> f == d
            &&& deliverable(d.graph, node, e.heads) ==> {
                &&& f.pending == d.pending
                &&& f.graph.contains_key(node)
                &&& forall|x: NodeId| #[trigger]
                    f.graph[node].contains(x) <==> e.heads.contains(x) || (x.key == node.key
                        && x.seq + 1 == node.seq)
                &&& f.payloads.contains_key(node)
                &&& f.payloads[node] == e.payload
            }
            &&& !d.graph.contains_key(node) && !deliverable(d.graph, node, e.heads) ==> {
                &&& f.graph == d.graph
                &&& f.payloads == d.payloads
                &&& f.pending.len() == d.pending.len() + 1
                &&& f.pending.last() == (node, e)
                &&& f.pending.drop_last() =~= d.pending
            }
        }),
{
    let f = d.offered(node, e);
    if deliverable(d.graph, node, e.heads) {
        assert forall|x: NodeId| #[trigger] f.graph[node].contains(x) <==> e.heads.contains(x) || (
        x.key == node.key && x.seq + 1 == node.seq) by {
            law_new_deps(node, e.heads, x);
        }
    }
}

/// Offering nodes loses none: each is there afterwards, or waits, and none comes out of
/// nowhere.
proof fn lemma_offered_known(d: DagView, list: Seq<(NodeId, EntryView)>, n: NodeId)
    ensures
        known(d.offered_all(list), n) <==> known(d, n) || mentions(list, n),
        d.graph.contains_key(n) ==> {
            &&& d.offered_all(list).graph.contains_key(n)
            &&& d.offered_all(list).graph[n] == d.graph[n]
            &&& d.offered_all(list).payloads[n] == d.payloads[n]
        },
    decreases list.len(),
{
    if list.len() > 0 {
        let less = list.drop_last();
        lemma_offered_known(d, less, n);
        let f = d.offered_all(less);
        let node = list.last().0;
        let e = list.last().1;
        let g = f.offered(node, e);
        if mentions(less, n) {
            let i = choose|i: int| 0 <= i < less.len() && (#[trigger] less[i]).0 == n;
            assert(list[i].0 == n);
        }
        if mentions(list, n) {
            let i = choose|i: int| 0 <= i < list.len() && (#[trigger] list[i]).0 == n;
            if i < less.len() {
                assert(less[i].0 == n);
            }
        }
        assert(list[list.len() - 1].0 == node);
        if mentions(f.pending, n) {
            let i = choose|i: int| 0 <= i < f.pending.len() && (#[trigger] f.pending[i]).0 == n;
            assert(g.pending[i].0 == n);
        }
        if mentions(g.pending, n) {
            let i = choose|i: int| 0 <= i < g.pending.len() && (#[trigger] g.pending[i]).0 == n;
            if i < f.pending.len() {
                assert(f.pending[i].0 == n);
            }
        }
        if !f.graph.contains_key(node) && !deliverable(f.graph, node, e.heads) {
            assert(g.pending[f.pending.len() as int].0 == node);
        }
    } else {
        assert(!mentions(list, n));
    }
}

/// Offering again what waits loses no node and makes up none, leaves those alone that are
/// there, and ends when none that waits is there already or can be delivered.
pub proof fn law_drains(d: DagView, n: NodeId)
    ensures
        d.drained().voters == d.voters,
        known(d.drained(), n) <==> known(d, n),
        d.graph.contains_key(n) ==> {
            &&& d.drained().graph.contains_key(n)
            &&& d.drained().graph[n] == d.graph[n]
            &&& d.drained().payloads[n] == d.payloads[n]
        },
        settled(d.drained()),
    decreases d.pending.len(),
{
    let e = d.drained();
    lemma_drained_votes(d);
    assert forall|i: int| 0 <= i < e.pending.len() implies !e.graph.contains_key(
        (#[trigger] e.pending[i]).0,
    ) && !deliverable(e.graph, e.pending[i].0, e.pending[i].1.heads) by {
        law_drained(d, i);
    }
    if d.swept().pending.len() < d.pending.len() {
        let bare = DagView { pending: Seq::empty(), ..d };
        lemma_offered_known(bare, d.pending, n);
        assert(!mentions(bare.pending, n));
        law_drains(d.swept(), n);
    }
}

/// An activity is counted, one at a time, and changes nothing else.
pub proof fn law_touched<M>(v: RoomView<M>)
    ensures
        v.activity < u64::MAX ==> v.touched().activity == v.activity + 1,
        v.touched().activity != v.activity,
        v.touched() == (RoomView { activity: v.touched().activity, ..v }),
{
}

/// What is written is the operation, on top of exactly the nodes that no other builds on,
/// as the next node of the log that is written here.
pub proof fn law_next<M>(v: RoomView<M>, op: Seq<u8>, n: NodeId)
    requires
        v.dag.graph.dom().finite(),
    ensures
        v.next_entry(op).payload == op,
        v.next_entry(op).heads.contains(n) <==> v.dag.graph.contains_key(n) && forall|m: NodeId|
         #[trigger]
            v.dag.graph.contains_key(m) ==> !v.dag.graph[m].contains(n),
        v.next_node().key == v.key,
        v.next_node().seq == v.local.tree.length,
{
    law_frontier_is(v.dag.graph, n);
}

/// Writing adds one block and one node, which is there at once, and changes nothing of the
/// other writers.
pub proof fn law_wrote<M>(v: RoomView<M>, op: Seq<u8>)
    requires
        v.local.tree.length < u64::MAX,
    ensures
        ({
            let w = v.wrote(op);
            let n = NodeId { key: v.key, seq: v.local.tree.length };
            let data = entry_bytes(v.next_entry(op));
            &&& w.key == v.key
            &&& w.origin == v.origin
            &&& w.local.tree == v.local.tree.appended(data)
            &&& w.local.contents == v.local.contents.insert(v.local.tree.length, data)
            &&& w.local.fork == v.local.fork
            &&& w.remotes == v.remotes
            &&& w.dag.voters == v.dag.voters
            &&& w.dag.pending == v.dag.pending
            &&& w.dag.graph.dom() =~= v.dag.graph.dom().insert(n)
            &&& w.dag.payloads == v.dag.payloads.insert(n, op)
            &&& forall|m: NodeId|
                m != n && #[trigger] v.dag.graph.contains_key(m) ==> w.dag.graph[m]
                    == v.dag.graph[m]
            &&& forall|x: NodeId| #[trigger]
                w.dag.graph[n].contains(x) <==> v.next_entry(op).heads.contains(x) || (x.key
                    == v.key && x.seq + 1 == v.local.tree.length)
            &&& w.folded == v.folded
            &&& w.settled == v.settled
            &&& w.shown == v.shown
            &&& w.queue == v.queue
            &&& v.activity < u64::MAX ==> w.activity == v.activity + 1
        }),
{
    let n = NodeId { key: v.key, seq: v.local.tree.length };
    let e = v.next_entry(op);
    assert forall|x: NodeId| #[trigger] v.wrote(op).dag.graph[n].contains(x)
        <==> v.next_entry(op).heads.contains(x) || (x.key == v.key && x.seq + 1
        == v.local.tree.length) by {
        law_new_deps(n, e.heads, x);
    }
}

/// Whoever writes tells all peers how far the log has come, by its head, and hands the
/// clients the new block, which is there.
pub proof fn law_write_tells<F: StoreFactory, P: Projection>(
    was: Room<F, P>,
    now: Room<F, P>,
    op: Seq<u8>,
    out: Vec<Outbound>,
)
    requires
        append_outcome::<F, P>(was, now, op, Ok(out)),
    ensures
        now@.key == was@.key,
        now@.local.tree == was@.local.tree.appended(entry_bytes(was@.next_entry(op))),
        now@.remotes == was@.remotes,
        now@.dag.payloads == was@.dag.payloads.insert(
            NodeId { key: was@.key, seq: was@.local.tree.length },
            op,
        ),
        out@.len() == 2,
        out@[0].to == Fanout::Gossip,
        out@[0].msg == (SyncMessage::Head { writer: was@.key, head: now@.local.head->0 }),
        out@[1].to == Fanout::Clients,
        out@[1].msg matches SyncMessage::Block { writer, head, index, bytes, proof: p } && {
            &&& writer == was@.key
            &&& head == now@.local.head->0
            &&& index == was@.local.tree.length
            &&& was.intact() ==> now@.local.block(index) == Some(bytes@)
            &&& proof_view(p) == proof_of(now@.local.tree, index)
        },
{
    let w = was@.wrote(op);
    assert(advanced::<P>(w).dag == w.dag);
    assert(advanced::<P>(w).local == w.local);
    assert(advanced::<P>(w).remotes == w.remotes);
    assert(advanced::<P>(w).key == w.key);
}

/// A block of the log that is written here is passed over. One of another log that does not
/// hold against the replica of that log changes no node and no view, and is not passed on.
pub proof fn law_passes_over<F: StoreFactory, P: Projection>(
    was: Room<F, P>,
    now: Room<F, P>,
    from: PeerId,
    msg: SyncMessage,
    r: Result<Vec<Outbound>, RoomError<F, P>>,
)
    requires
        inbound_outcome::<F, P>(was, now, from, msg, r),
        msg matches SyncMessage::Block { writer, head, index, bytes, proof: p } && {
            ||| writer == was@.key
            ||| !was@.replica(writer, now@.remotes[writer].public, was.stored(writer)).takes(
                head,
                index,
                bytes@,
                p,
            )
        },
        r is Ok,
    ensures
        r matches Ok(out) && out@.len() == 0,
        now@.key == was@.key,
        now@.local == was@.local,
        now@.dag == was@.dag,
        now@.folded == was@.folded,
        now@.settled == was@.settled,
        now@.shown == was@.shown,
        now@.queue == was@.queue,
        now@.activity == was@.activity,
        forall|w: WriterKey| was@.length_of(w) == #[trigger] now@.length_of(w),
        forall|w: WriterKey|
            was@.remotes.contains_key(w) ==> #[trigger] now@.remotes.contains_key(w)
                && now@.remotes[w] == was@.remotes[w],
{
}

/// A block of another log that holds against the replica of that log is one more block of
/// it, and nothing of any other log changes. Its node is there, or waits for what it builds
/// on; nothing waits that need not; and the block, as it came, is passed on to the clients.
pub proof fn law_takes_in<F: StoreFactory, P: Projection>(
    was: Room<F, P>,
    now: Room<F, P>,
    from: PeerId,
    msg: SyncMessage,
    out: Vec<Outbound>,
    n: NodeId,
)
    requires
        inbound_outcome::<F, P>(was, now, from, msg, Ok(out)),
        msg matches SyncMessage::Block { writer, head, index, bytes, proof: p } && {
            &&& writer != was@.key
            &&& was@.replica(writer, now@.remotes[writer].public, was.stored(writer)).takes(
                head,
                index,
                bytes@,
                p,
            )
        },
    ensures
        msg matches SyncMessage::Block { writer, head, index, bytes, .. } && {
            let node = NodeId { key: writer, seq: index };
            &&& out@.len() == 1
            &&& out@[0].to == Fanout::Clients
            &&& out@[0].msg == msg
            &&& index == was@.length_of(writer)
            &&& now@.length_of(writer) == was@.length_of(writer) + 1
            &&& head.length == index + 1 && head.root == now@.remotes[writer].tree.root_hash()
                ==> now@.remotes[writer].head == Some(head)
            &&& was.intact() && F::Store::fits(bytes@.len())
                ==> now@.remotes[writer].contents.contains_key(index)
                && now@.remotes[writer].contents[index] == bytes@
            &&& forall|w: WriterKey|
                w != writer ==> #[trigger] now@.remotes.contains_key(w)
                    == was@.remotes.contains_key(w) && now@.remotes[w] == was@.remotes[w]
            &&& now@.key == was@.key
            &&& now@.local == was@.local
            &&& now@.dag.voters == was@.dag.voters
            &&& parsed_entry(bytes@) is Ok
            &&& known(now@.dag, n) <==> known(was@.dag, n) || n == node
            &&& was@.dag.graph.contains_key(n) ==> {
                &&& now@.dag.graph.contains_key(n)
                &&& now@.dag.graph[n] == was@.dag.graph[n]
                &&& now@.dag.payloads[n] == was@.dag.payloads[n]
            }
            &&& settled(now@.dag)
            &&& was@.activity < u64::MAX ==> now@.activity == was@.activity + 1
        },
{
    if let SyncMessage::Block { writer, head, index, bytes, proof: p } = msg {
        let node = NodeId { key: writer, seq: index };
        let x = now@.remotes[writer];
        let m = was@.replica(writer, x.public, was.stored(writer));
        let e = parsed_entry(bytes@)->Ok_0;
        let base = was@.with_replica(writer, m).with_replica(writer, x).took(node, e);
        assert(now@ == advanced::<P>(base));
        assert(now@.dag == base.dag);
        assert(now@.remotes == base.remotes);
        let d = was@.dag.offered(node, e);
        let one = seq![(node, e)];
        assert(one.drop_last() =~= Seq::empty());
        assert(was@.dag.offered_all(one.drop_last()) == was@.dag);
        assert(was@.dag.offered_all(one) == d);
        lemma_offered_known(was@.dag, one, n);
        if n == node {
            assert(one[0].0 == n);
        }
        law_drains(d, n);
        lemma_offered_votes(was@.dag, one);
        law_takes(m, head, index, bytes@, p);
        law_block_changes(m, head, bytes@);
    }
}

/// A room that was opened has the logs that its stores have kept, each as far as it goes
/// without a gap: its own, and those of the other writers; and of no writer else.
pub proof fn law_open_logs<F: StoreFactory, P: Projection>(
    seed: [u8; 32],
    indexers: Seq<WriterKey>,
    origin: Origin,
    public: PublicKey,
    m: P::Model,
    factory: F,
    x: Room<F, P>,
    w: WriterKey,
)
    requires
        open_outcome::<F, P>(
            opened(seed, indexers, origin, public, factory.stored(public@), m),
            factory,
            Ok(x),
        ),
    ensures
        w == public@ || factory.kept().contains(w) ==> x@.length_of(w) == stored_from(
            factory.stored(w),
            0,
        ).len(),
        x@.remotes.contains_key(w) <==> w != public@ && factory.kept().contains(w),
        x@.remotes.contains_key(w) ==> {
            &&& x@.remotes[w].public@ == w
            &&& x@.remotes[w].contents == factory.stored(w)
            &&& x@.remotes[w].tree == extended(empty_tree(), stored_from(factory.stored(w), 0))
            &&& x@.remotes[w].head is None
        },
        x@.local.contents == factory.stored(public@),
        x.unbroken(),
{
    let start = opened(seed, indexers, origin, public, factory.stored(public@), m);
    law_others(factory.kept(), public@, w);
    law_taken_up(start.local);
    let blocks = stored_from(factory.stored(public@), 0);
    assert(x@.local == taken_up(start.local, blocks));
    if w == public@ {
        assert(held(x@.local, blocks));
    }
}

/// On stores that do not fail a block of another writer's log that holds against the
/// replica is refused for what its bytes say and for nothing else: with the codec's error if
/// they are no entry, and the projection's if it refuses what has become final. A log whose
/// writer's key is none is refused as such.
pub proof fn law_block_fails<F: StoreFactory, P: Projection>(
    was: Room<F, P>,
    now: Room<F, P>,
    from: PeerId,
    msg: SyncMessage,
    r: Result<Vec<Outbound>, RoomError<F, P>>,
)
    requires
        inbound_outcome::<F, P>(was, now, from, msg, r),
        F::certain(),
        F::Store::sure(),
    ensures
        msg matches SyncMessage::Block { writer, head, index, bytes, proof: p } ==> {
            let m = was@.replica(writer, now@.remotes[writer].public, was.stored(writer));
            &&& writer == was@.key ==> r is Ok
            &&& r matches Err(Error::Codec(e)) ==> m.takes(head, index, bytes@, p)
                && parsed_entry(bytes@) == Err::<EntryView, crate::codec::Error>(e)
            &&& r matches Err(Error::BadWriterKey) ==> !was@.remotes.contains_key(writer)
                && !ed25519_decodes(writer@) && now == was
            &&& r is Err ==> writer != was@.key && (r->Err_0 is Codec || r->Err_0 is Projection
                || r->Err_0 is BadWriterKey)
            &&& r is Err && !(r->Err_0 is BadWriterKey) ==> {
                &&& m.takes(head, index, bytes@, p)
                &&& now@.length_of(writer) == m.tree.appended(bytes@).length
            }
            &&& r is Ok && writer != was@.key && m.takes(head, index, bytes@, p)
                ==> parsed_entry(bytes@) is Ok
        },
{
}

/// What is read of a writer's log is what its blocks stand for: those of the log that is
/// written here that are present, and those of a replica; and no further than the log goes.
pub proof fn law_reads_logs<M>(v: RoomView<M>, w: WriterKey, i: u64, end: u64)
    ensures
        w == v.key ==> bytes_at(v, w, i) == v.local.block(i),
        w != v.key && v.remotes.contains_key(w) && v.remotes[w].contents.contains_key(i)
            ==> bytes_at(v, w, i) == Some(v.remotes[w].contents[i]),
        w != v.key && !v.remotes.contains_key(w) ==> bytes_at(v, w, i) is None,
        entry_read(v, w, i) is Some <==> bytes_at(v, w, i) is Some,
        bytes_at(v, w, i) matches Some(b) ==> entry_read(v, w, i) == Some(parsed_entry(b)),
        end_within(v, w, end) <= end,
        end_within(v, w, end) <= v.length_of(w),
        end_within(v, w, end) == end || end_within(v, w, end) == v.length_of(w),
{
}

/// A room has room for an operation wherever 64 bits number one more block and count its
/// bytes.
pub proof fn law_has_room<M>(v: RoomView<M>, op: Seq<u8>)
    ensures
        v.has_room(op) <==> {
            &&& v.local.tree.length + 1 < 0x8000_0000_0000_0000
            &&& Tree::weight(v.local.tree.roots_at(v.local.tree.length as nat)) + entry_bytes(
                v.next_entry(op),
            ).len() <= u64::MAX
        },
{
}

} // verus!
