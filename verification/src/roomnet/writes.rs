//! A room that is written, and comes back.
use vstd::prelude::*;
use super::dag::{settled, DagView};
use super::laws::{
    accounted, law_final_stays, law_resume, law_written_is_kept, law_written_on_top, saved,
    up_to_date,
};
use super::projection::Projection;
use super::room::resume::open_outcome;
use super::room::{
    advanced, fresh, lemma_has_room, lemma_wrote, lemma_wrote_whole, refusal, whole, Room,
    RoomError, RoomView,
};
use super::store::StoreFactory;
use crate::autobase::consensus::order_of;
use crate::autobase::finality::chained;
use crate::autobase::graph::{causal, delivered};
use crate::autobase::ids::{lemma_id_total, lemma_in_order_of, sorted_keys};
use crate::autobase::laws::law_order;
use crate::autobase::linearizer::covered;
use crate::autobase::{NodeId, WriterKey};
use crate::hypercore::replica::Mirror;

verus! {

/// A room after operations were written to it one after the other.
pub open spec fn written<P: Projection>(
    v: RoomView<P::Model>,
    ops: Seq<Seq<u8>>,
) -> RoomView<P::Model>
    decreases ops.len(),
{
    if ops.len() == 0 {
        v
    } else {
        advanced::<P>(written::<P>(v, ops.drop_last()).wrote(ops.last()))
    }
}

/// Whether each of some operations can be written after those before it: the log has room
/// for it, and the projection refuses nothing that it makes final.
pub open spec fn writable<P: Projection>(v: RoomView<P::Model>, ops: Seq<Seq<u8>>) -> bool
    decreases ops.len(),
{
    ops.len() > 0 ==> {
        let before = written::<P>(v, ops.drop_last());
        &&& writable::<P>(v, ops.drop_last())
        &&& before.has_room(ops.last())
        &&& refusal::<P>(before.wrote(ops.last())) is None
    }
}

/// Whether nothing has been written to a room, nor come to it.
pub open spec fn untouched<M>(v: RoomView<M>, m: M) -> bool {
    &&& v.coherent()
    &&& whole(v.local)
    &&& v.local.tree.length == 0
    &&& v.remotes == Map::<WriterKey, Mirror>::empty()
    &&& v.dag == (DagView {
        graph: Map::empty(),
        voters: v.dag.voters,
        payloads: Map::empty(),
        pending: Seq::empty(),
    })
    &&& v.dag.voters matches Some(k) ==> sorted_keys(k)
    &&& v.folded == 0
    &&& v.settled == m
    &&& v.shown == m
}

/// What holds of a room that alone is written to, whose nodes came as `ids`.
spec fn alone<P: Projection>(v: RoomView<P::Model>, m: P::Model, ids: Seq<NodeId>) -> bool {
    &&& v.coherent()
    &&& whole(v.local)
    &&& accounted(v)
    &&& delivered(v.dag.graph, ids)
    &&& chained(v.dag.graph)
    &&& v.dag.pending.len() == 0
    &&& v.dag.voters matches Some(k) ==> sorted_keys(k)
    &&& up_to_date::<P>(v, m)
}

proof fn lemma_untouched<P: Projection>(v: RoomView<P::Model>, m: P::Model)
    requires
        untouched(v, m),
    ensures
        alone::<P>(v, m, Seq::empty()),
{
    let ids = Seq::<NodeId>::empty();
    assert(ids.to_set() =~= v.dag.graph.dom());
    assert(delivered(v.dag.graph, ids));
    law_order(v.dag.graph, v.dag.voters);
    let all = order_of(v.dag.graph, v.dag.voters);
    assert(all.len() == 0) by {
        if all.len() > 0 {
            assert(all.to_set().contains(all[0]));
        }
    }
    assert(v.dag.payloads.dom() =~= v.dag.graph.dom());
}

proof fn lemma_written<P: Projection>(
    v: RoomView<P::Model>,
    m: P::Model,
    ops: Seq<Seq<u8>>,
) -> (ids: Seq<NodeId>)
    requires
        untouched(v, m),
        writable::<P>(v, ops),
        ops.len() < u64::MAX,
        forall|i: int| 0 <= i < ops.len() ==> (#[trigger] ops[i]).len() <= u64::MAX,
    ensures
        alone::<P>(written::<P>(v, ops), m, ids),
        ids.len() == ops.len(),
        written::<P>(v, ops).local.tree.length == ops.len(),
        written::<P>(v, ops).key == v.key,
        written::<P>(v, ops).dag.voters == v.dag.voters,
    decreases ops.len(),
{
    if ops.len() == 0 {
        lemma_untouched::<P>(v, m);
        Seq::empty()
    } else {
        let less = ops.drop_last();
        let op = ops.last();
        assert forall|i: int| 0 <= i < less.len() implies (#[trigger] less[i]).len()
            <= u64::MAX by {
            assert(less[i] == ops[i]);
        }
        assert(ops[ops.len() - 1] == op);
        let before = written::<P>(v, less);
        let ids = lemma_written::<P>(v, m, less);
        let w = before.wrote(op);
        let now = advanced::<P>(w);
        ids.unique_seq_to_set();
        lemma_few_heads(before, op, ids);
        lemma_has_room(before, op);
        law_written_is_kept::<P>(before, op);
        law_written_on_top(before, op, ids);
        law_final_stays::<P>(before, op, m, ids);
        lemma_wrote(before, op);
        lemma_wrote_whole(before, op);
        let more = ids.push(before.next_node());
        more.unique_seq_to_set();
        law_order(w.dag.graph, w.dag.voters);
        lemma_final_within(w);
        assert(now.dag == w.dag && now.local == w.local);
        more
    }
}

/// No more is final than there is.
proof fn lemma_final_within<M>(v: RoomView<M>)
    requires
        causal(v.dag.graph),
        v.dag.graph.dom().finite(),
        v.folded <= v.dag.graph.dom().len(),
    ensures
        v.folded + fresh(v).len() <= v.dag.graph.dom().len(),
{
    let all = order_of(v.dag.graph, v.dag.voters);
    law_order(v.dag.graph, v.dag.voters);
    all.unique_seq_to_set();
}

/// An entry names no more heads than there are nodes.
proof fn lemma_few_heads<M>(v: RoomView<M>, op: Seq<u8>, ids: Seq<NodeId>)
    requires
        delivered(v.dag.graph, ids),
    ensures
        v.next_entry(op).heads.len() <= ids.len(),
{
    let g = v.dag.graph;
    let s = Set::new(|n: NodeId| g.contains_key(n) && !covered(g, n));
    let heads = v.next_entry(op).heads;
    ids.unique_seq_to_set();
    assert(s.subset_of(g.dom()));
    vstd::set_lib::lemma_len_subset(s, g.dom());
    lemma_in_order_of(s);
    assert(heads.no_duplicates()) by {
        assert forall|i: int, j: int| 0 <= i < j < heads.len() implies heads[i] != heads[j] by {
            lemma_id_total(heads[i], heads[j]);
        }
    }
    heads.unique_seq_to_set();
}

/// A room comes back after it was written to: one that is opened on stores that hold its
/// log has the same order, and the same views of what is final and of everything, however
/// many operations were written, and nothing is reported as final again.
pub proof fn law_written_comes_back<F: StoreFactory, P: Projection>(
    v: RoomView<P::Model>,
    m: P::Model,
    ops: Seq<Seq<u8>>,
    start: RoomView<P::Model>,
    factory: F,
    x: Room<F, P>,
)
    requires
        untouched(v, m),
        writable::<P>(v, ops),
        ops.len() < u64::MAX,
        forall|i: int| 0 <= i < ops.len() ==> (#[trigger] ops[i]).len() <= u64::MAX,
        saved(written::<P>(v, ops), factory),
        start.key == v.key,
        start.dag == v.dag,
        start.folded == 0,
        start.settled == m,
        open_outcome::<F, P>(start, factory, Ok::<Room<F, P>, RoomError<F, P>>(x)),
    ensures
        ({
            let w = written::<P>(v, ops);
            let order = order_of(w.dag.graph, w.dag.voters);
            &&& order.len() == ops.len()
            &&& order_of(x@.dag.graph, x@.dag.voters) == order
            &&& x@.dag.payloads == w.dag.payloads
            &&& x@.folded == w.folded
            &&& x@.settled == w.settled
            &&& x@.shown == w.shown
            &&& x@.queue == Seq::<(NodeId, Seq<u8>, u64)>::empty()
        }),
{
    let w = written::<P>(v, ops);
    let ids = lemma_written::<P>(v, m, ops);
    ids.unique_seq_to_set();
    assert(settled(w.dag));
    law_order(w.dag.graph, w.dag.voters);
    order_of(w.dag.graph, w.dag.voters).unique_seq_to_set();
    law_resume::<F, P>(w, m, start, factory, x);
}

} // verus!
