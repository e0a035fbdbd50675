//! The nodes that a room has, and those that still wait for what they depend on.
use vstd::prelude::*;
use super::entry::{Entry, EntryView};
use crate::autobase::graph::{
    causal, delivered, lemma_log_len, lemma_log_len_meaning, lemma_sees_own, log_len, Deps,
};
use crate::autobase::ids::same_id;
use crate::autobase::linearizer::{first_missing, new_deps};
use crate::autobase::{AddError, Linearizer, NodeId, WriterKey};
use crate::bytes::{copy_of, same_32};

verus! {

/// The nodes of a room: those delivered, with their payloads, and those that wait.
pub struct Dag {
    lin: Linearizer,
    payloads: Vec<(NodeId, Vec<u8>)>,
    pending: Vec<(NodeId, Entry)>,
}

/// What a [`Dag`] holds.
#[verifier::ext_equal]
pub ghost struct DagView {
    pub graph: Deps,
    pub voters: Option<Seq<WriterKey>>,
    pub payloads: Map<NodeId, Seq<u8>>,
    pub pending: Seq<(NodeId, EntryView)>,
}

/// What a list of payloads says: the last one for a node counts.
pub open spec fn payload_map(s: Seq<(NodeId, Vec<u8>)>) -> Map<NodeId, Seq<u8>>
    decreases s.len(),
{
    if s.len() == 0 {
        Map::empty()
    } else {
        payload_map(s.drop_last()).insert(s.last().0, s.last().1@)
    }
}

/// What entries that wait say.
pub open spec fn waiting(s: Seq<(NodeId, Entry)>) -> Seq<(NodeId, EntryView)> {
    s.map_values(|e: (NodeId, Entry)| (e.0, e.1@))
}

/// Whether a node is the next of its writer, and everything it builds on is there.
pub open spec fn deliverable(g: Deps, node: NodeId, heads: Seq<NodeId>) -> bool {
    &&& !g.contains_key(node)
    &&& node.seq == log_len(g, node.key)
    &&& first_missing(g, heads) is None
}

impl DagView {
    /// The payload of a node; a node without one has none.
    pub open spec fn payload(self, node: NodeId) -> Seq<u8> {
        if self.payloads.contains_key(node) {
            self.payloads[node]
        } else {
            Seq::empty()
        }
    }

    /// With one more node.
    pub open spec fn with(self, node: NodeId, e: EntryView) -> DagView {
        DagView {
            graph: self.graph.insert(node, new_deps(node, e.heads)),
            payloads: self.payloads.insert(node, e.payload),
            ..self
        }
    }

    /// After a node was offered: one that is there already is dropped, one that can be
    /// delivered is, any other waits.
    pub open spec fn offered(self, node: NodeId, e: EntryView) -> DagView {
        if self.graph.contains_key(node) {
            self
        } else if deliverable(self.graph, node, e.heads) {
            self.with(node, e)
        } else {
            DagView { pending: self.pending.push((node, e)), ..self }
        }
    }

    /// After nodes were offered one after the other.
    pub open spec fn offered_all(self, list: Seq<(NodeId, EntryView)>) -> DagView
        decreases list.len(),
    {
        if list.len() == 0 {
            self
        } else {
            self.offered_all(list.drop_last()).offered(list.last().0, list.last().1)
        }
    }

    /// After those that wait were offered again.
    pub open spec fn swept(self) -> DagView {
        DagView { pending: Seq::empty(), ..self }.offered_all(self.pending)
    }

    /// After those that wait were offered again until none of them was taken.
    pub open spec fn drained(self) -> DagView
        decreases self.pending.len(),
    {
        if self.swept().pending.len() < self.pending.len() {
            self.swept().drained()
        } else {
            self
        }
    }
}

impl View for Dag {
    type V = DagView;

    closed spec fn view(&self) -> DagView {
        DagView {
            graph: self.lin.graph(),
            voters: self.lin.voters(),
            payloads: payload_map(self.payloads@),
            pending: waiting(self.pending@),
        }
    }
}

impl Dag {
    /// The invariant: delivered nodes come after everything they depend on.
    pub closed spec fn wf(&self) -> bool {
        self.lin.wf()
    }

    /// The linearizer that holds the delivered nodes.
    pub closed spec fn linearizer(&self) -> Linearizer {
        self.lin
    }

    /// What a well-formed DAG keeps.
    pub proof fn lemma_wf(&self)
        requires
            self.wf(),
        ensures
            self.linearizer().wf(),
            self.linearizer().graph() == self@.graph,
            self.linearizer().voters() == self@.voters,
            delivered(self@.graph, self.linearizer().arrivals()),
            self.linearizer().arrivals().len() <= u64::MAX,
            self@.graph.dom().finite(),
            self@.graph.dom().len() <= usize::MAX,
    {
        self.lin.lemma_wf();
    }

    /// No nodes, ordered by a linearizer that has none.
    pub fn new(lin: Linearizer) -> (d: Self)
        requires
            lin.wf(),
        ensures
            d.wf(),
            d@ == (DagView {
                graph: lin.graph(),
                voters: lin.voters(),
                payloads: Map::empty(),
                pending: Seq::empty(),
            }),
    {
        let d: Dag = Dag { lin, payloads: Vec::new(), pending: Vec::new() };
        assert(waiting(d.pending@) =~= Seq::empty());
        d
    }

    /// The linearizer.
    pub fn lin(&self) -> (l: &Linearizer)
        ensures
            *l == self.linearizer(),
    {
        &self.lin
    }

    /// The payload of a node, or none.
    pub fn payload(&self, node: &NodeId) -> (p: Vec<u8>)
        ensures
            p@ == self@.payload(*node),
    {
        let mut i: usize = self.payloads.len();
        assert(self.payloads@.take(i as int) =~= self.payloads@);
        while i > 0
            invariant
                i <= self.payloads@.len(),
                payload_map(self.payloads@).contains_key(*node) == payload_map(
                    self.payloads@.take(i as int),
                ).contains_key(*node),
                payload_map(self.payloads@).contains_key(*node) ==> payload_map(
                    self.payloads@,
                )[*node] == payload_map(self.payloads@.take(i as int))[*node],
            decreases i,
        {
            assert(self.payloads@.take(i as int).drop_last() =~= self.payloads@.take(i - 1));
            i = i - 1;
            if same_id(&self.payloads[i].0, node) {
                return copy_of(self.payloads[i].1.as_slice());
            }
        }
        Vec::new()
    }

    /// Deliver a node that can be.
    pub fn deliver(&mut self, node: NodeId, heads: &[NodeId], payload: Vec<u8>)
        requires
            old(self).wf(),
            deliverable(old(self)@.graph, node, heads@),
        ensures
            final(self).wf(),
            final(self)@ == old(self)@.with(
                node,
                EntryView { heads: heads@, payload: payload@ },
            ),
    {
        let r: Result<(), AddError> = self.lin.add(node, heads);
        let ghost had = self.payloads@;
        self.payloads.push((node, payload));
        proof {
            assert(self.payloads@.drop_last() =~= had);
            assert(self@ =~= old(self)@.with(
                node,
                EntryView { heads: heads@, payload: payload@ },
            ));
        }
    }

    /// Offer a node: deliver it, drop it if it is there already, or let it wait.
    pub fn try_add_node(&mut self, node: NodeId, entry: Entry)
        requires
            old(self).wf(),
        ensures
            final(self).wf(),
            final(self)@ == old(self)@.offered(node, entry@),
    {
        match self.lin.add(node, entry.heads.as_slice()) {
            Ok(()) => {
                let ghost had = self.payloads@;
                self.payloads.push((node, entry.payload));
                proof {
                    assert(self.payloads@.drop_last() =~= had);
                    assert(self@ =~= old(self)@.with(node, entry@));
                }
            },
            Err(AddError::Duplicate(_)) => {
                assert(self@ =~= old(self)@);
            },
            Err(_) => {
                let ghost had = self.pending@;
                self.pending.push((node, entry));
                proof {
                    assert(waiting(self.pending@) =~= waiting(had).push((node, entry@)));
                    assert(self@ =~= DagView {
                        pending: old(self)@.pending.push((node, entry@)),
                        ..old(self)@
                    });
                }
            },
        }
    }

    /// Whether a node of `key` waits.
    pub fn awaits(&self, key: &WriterKey) -> (b: bool)
        ensures
            b == exists|i: int|
                0 <= i < self@.pending.len() && (#[trigger] self@.pending[i]).0.key == *key,
    {
        let mut i: usize = 0;
        while i < self.pending.len()
            invariant
                i <= self.pending@.len(),
                forall|j: int| 0 <= j < i ==> (#[trigger] self@.pending[j]).0.key != *key,
            decreases self.pending@.len() - i,
        {
            assert(self@.pending[i as int].0 == self.pending@[i as int].0);
            if same_32(&self.pending[i].0.key, key) {
                return true;
            }
            i = i + 1;
        }
        false
    }

    /// Offer those that wait again, until none of them is taken: what one of them depends
    /// on may have come.
    pub fn drain_pending(&mut self)
        requires
            old(self).wf(),
        ensures
            final(self).wf(),
            final(self)@ == old(self)@.drained(),
    {
        let ghost start = self@;
        loop
            invariant_except_break
                self.wf(),
                self@.drained() == start.drained(),
            ensures
                self.wf(),
                self@ == start.drained(),
            decreases self.pending@.len(),
        {
            let before: usize = self.pending.len();
            let ghost d = self@;
            let mut list: Vec<(NodeId, Entry)> = Vec::new();
            core::mem::swap(&mut list, &mut self.pending);
            let ghost all = waiting(list@);
            let ghost base = DagView { pending: Seq::empty(), ..d };
            let mut i: usize = 0;
            proof {
                assert(waiting(self.pending@) =~= Seq::empty());
                assert(self@ =~= base);
                assert(all.take(0) =~= Seq::empty());
                lemma_sweep_shrinks(base, all);
            }
            while i < list.len()
                invariant
                    self.wf(),
                    i <= list@.len(),
                    all == waiting(list@),
                    self@ == base.offered_all(all.take(i as int)),
                decreases list@.len() - i,
            {
                assert(all.take(i + 1).drop_last() =~= all.take(i as int));
                let entry: Entry = list[i].1.clone();
                self.try_add_node(list[i].0, entry);
                i = i + 1;
            }
            assert(all.take(i as int) =~= all);
            assert(self@ == d.swept());
            if self.pending.len() >= before {
                proof {
                    lemma_sweep_kept(base, all);
                    assert(self@ =~= d);
                }
                break;
            }
        }
    }
}

/// Offering nodes leaves at most that many more waiting.
proof fn lemma_sweep_shrinks(d: DagView, list: Seq<(NodeId, EntryView)>)
    ensures
        d.offered_all(list).pending.len() <= d.pending.len() + list.len(),
    decreases list.len(),
{
    if list.len() > 0 {
        lemma_sweep_shrinks(d, list.drop_last());
    }
}

/// If all offered nodes wait, none was taken.
proof fn lemma_sweep_kept(d: DagView, list: Seq<(NodeId, EntryView)>)
    requires
        d.offered_all(list).pending.len() >= d.pending.len() + list.len(),
    ensures
        d.offered_all(list) == (DagView { pending: d.pending + list, ..d }),
        forall|i: int|
            0 <= i < list.len() ==> !d.graph.contains_key((#[trigger] list[i]).0) && !deliverable(
                d.graph,
                list[i].0,
                list[i].1.heads,
            ),
    decreases list.len(),
{
    if list.len() > 0 {
        let less = list.drop_last();
        lemma_sweep_shrinks(d, less);
        lemma_sweep_kept(d, less);
        assert(d.pending + list =~= (d.pending + less).push(list.last()));
        assert forall|i: int| 0 <= i < list.len() implies !d.graph.contains_key(
            (#[trigger] list[i]).0,
        ) && !deliverable(d.graph, list[i].0, list[i].1.heads) by {
            if i < less.len() {
                assert(less[i] == list[i]);
            }
        }
    } else {
        assert(d.pending + list =~= d.pending);
    }
}

/// After those that wait were offered until none was taken, none of them is there
/// already, and none of them could be delivered.
pub proof fn law_drained(d: DagView, i: int)
    requires
        0 <= i < d.drained().pending.len(),
    ensures
        ({
            let e = d.drained();
            &&& !e.graph.contains_key(e.pending[i].0)
            &&& !deliverable(e.graph, e.pending[i].0, e.pending[i].1.heads)
        }),
    decreases d.pending.len(),
{
    if d.swept().pending.len() < d.pending.len() {
        law_drained(d.swept(), i);
    } else {
        lemma_sweep_kept(DagView { pending: Seq::empty(), ..d }, d.pending);
    }
}

/// Offering nodes takes no node away, and adds no other than those.
proof fn lemma_offered_keeps(d: DagView, list: Seq<(NodeId, EntryView)>, key: WriterKey)
    requires
        forall|i: int| 0 <= i < list.len() ==> (#[trigger] list[i]).0.key != key,
        forall|i: int| 0 <= i < d.pending.len() ==> (#[trigger] d.pending[i]).0.key != key,
    ensures
        ({
            let e = d.offered_all(list);
            &&& forall|s: u64| #[trigger]
                e.graph.contains_key(NodeId { key, seq: s }) == d.graph.contains_key(
                    NodeId { key, seq: s },
                )
            &&& forall|i: int| 0 <= i < e.pending.len() ==> (#[trigger] e.pending[i]).0.key != key
            &&& forall|n: NodeId|
                d.graph.contains_key(n) ==> #[trigger] e.graph.contains_key(n)
            &&& e.voters == d.voters
        }),
    decreases list.len(),
{
    if list.len() > 0 {
        let less = list.drop_last();
        assert forall|i: int| 0 <= i < less.len() implies (#[trigger] less[i]).0.key != key by {
            assert(less[i] == list[i]);
        }
        lemma_offered_keeps(d, less, key);
        assert(list[list.len() - 1].0.key != key);
    }
}

/// Draining takes no node away, and adds none of a writer of whom none waits.
pub proof fn lemma_drained_keeps(d: DagView, key: WriterKey)
    requires
        forall|i: int| 0 <= i < d.pending.len() ==> (#[trigger] d.pending[i]).0.key != key,
    ensures
        ({
            let e = d.drained();
            &&& forall|s: u64| #[trigger]
                e.graph.contains_key(NodeId { key, seq: s }) == d.graph.contains_key(
                    NodeId { key, seq: s },
                )
            &&& forall|i: int| 0 <= i < e.pending.len() ==> (#[trigger] e.pending[i]).0.key != key
            &&& forall|n: NodeId|
                d.graph.contains_key(n) ==> #[trigger] e.graph.contains_key(n)
            &&& e.voters == d.voters
        }),
    decreases d.pending.len(),
{
    if d.swept().pending.len() < d.pending.len() {
        lemma_offered_keeps(DagView { pending: Seq::empty(), ..d }, d.pending, key);
        lemma_drained_keeps(d.swept(), key);
    }
}

/// Nodes that are all there lack none.
pub proof fn lemma_none_missing(g: Deps, heads: Seq<NodeId>)
    requires
        forall|i: int| 0 <= i < heads.len() ==> g.contains_key(#[trigger] heads[i]),
    ensures
        first_missing(g, heads) is None,
    decreases heads.len(),
{
    if heads.len() > 0 {
        let less = heads.drop_last();
        assert forall|i: int| 0 <= i < less.len() implies g.contains_key(#[trigger] less[i]) by {
            assert(less[i] == heads[i]);
        }
        lemma_none_missing(g, less);
        assert(heads[heads.len() - 1] == heads.last());
    }
}

/// Whether an entry is the one that a node of `d` was made from.
pub open spec fn made_of(d: DagView, node: NodeId, e: EntryView) -> bool {
    &&& d.graph.contains_key(node)
    &&& d.graph[node] == new_deps(node, e.heads)
    &&& d.payloads.contains_key(node)
    &&& d.payloads[node] == e.payload
}

/// Whether the nodes of `d` were made from the entries that `of` gives for them, and those
/// that wait are such entries.
pub open spec fn follows(d: DagView, of: spec_fn(NodeId) -> EntryView) -> bool {
    &&& d.payloads.dom() == d.graph.dom()
    &&& forall|n: NodeId| #[trigger] d.graph.contains_key(n) ==> made_of(d, n, of(n))
    &&& given_by(d.pending, of)
}

/// Whether entries are those that `of` gives.
pub open spec fn given_by(
    list: Seq<(NodeId, EntryView)>,
    of: spec_fn(NodeId) -> EntryView,
) -> bool {
    forall|i: int| 0 <= i < list.len() ==> (#[trigger] list[i]).1 == of(list[i].0)
}

/// Whether a node is among entries.
pub open spec fn mentions(list: Seq<(NodeId, EntryView)>, n: NodeId) -> bool {
    exists|i: int| 0 <= i < list.len() && (#[trigger] list[i]).0 == n
}

/// Whether a node is there or waits.
pub open spec fn known(d: DagView, n: NodeId) -> bool {
    d.graph.contains_key(n) || mentions(d.pending, n)
}

/// Whether none waits that is there already or could be delivered.
pub open spec fn settled(d: DagView) -> bool {
    forall|i: int|
        0 <= i < d.pending.len() ==> !d.graph.contains_key((#[trigger] d.pending[i]).0)
            && !deliverable(d.graph, d.pending[i].0, d.pending[i].1.heads)
}

/// Offering entries keeps what was known, and adds those.
pub proof fn lemma_follows(
    d: DagView,
    list: Seq<(NodeId, EntryView)>,
    of: spec_fn(NodeId) -> EntryView,
)
    requires
        follows(d, of),
        given_by(list, of),
    ensures
        follows(d.offered_all(list), of),
        d.offered_all(list).voters == d.voters,
        forall|n: NodeId| #[trigger]
            known(d.offered_all(list), n) <==> known(d, n) || mentions(list, n),
    decreases list.len(),
{
    if list.len() > 0 {
        let less = list.drop_last();
        assert forall|i: int| 0 <= i < less.len() implies (#[trigger] less[i]).1 == of(
            less[i].0,
        ) by {
            assert(less[i] == list[i]);
        }
        lemma_follows(d, less, of);
        let f = d.offered_all(less);
        let node = list.last().0;
        let e = list.last().1;
        let g = f.offered(node, e);
        assert(list[list.len() - 1].1 == of(list[list.len() - 1].0));
        assert(g.payloads.dom() =~= g.graph.dom());
        assert forall|n: NodeId| #[trigger] g.graph.contains_key(n) implies made_of(g, n, of(n)) by {
            if n != node {
                assert(f.graph.contains_key(n));
            }
        }
        assert forall|i: int| 0 <= i < g.pending.len() implies (#[trigger] g.pending[i]).1 == of(
            g.pending[i].0,
        ) by {
            if i < f.pending.len() {
                assert(g.pending[i] == f.pending[i]);
            }
        }
        assert forall|n: NodeId| #[trigger] known(g, n) <==> known(d, n) || mentions(list, n) by {
            assert(known(f, n) <==> known(d, n) || mentions(less, n));
            if mentions(less, n) {
                let i = choose|i: int| 0 <= i < less.len() && (#[trigger] less[i]).0 == n;
                assert(list[i].0 == n);
            }
            if mentions(list, n) {
                let i = choose|i: int| 0 <= i < list.len() && (#[trigger] list[i]).0 == n;
                if i < less.len() {
                    assert(less[i].0 == n);
                } else {
                    assert(n == node);
                }
            }
            if mentions(f.pending, n) {
                let i = choose|i: int| 0 <= i < f.pending.len() && (#[trigger] f.pending[i]).0 == n;
                assert(g.pending[i].0 == n);
            }
            if mentions(g.pending, n) {
                let i = choose|i: int| 0 <= i < g.pending.len() && (#[trigger] g.pending[i]).0 == n;
                if i < f.pending.len() {
                    assert(f.pending[i].0 == n);
                } else {
                    assert(n == node);
                }
            }
            if n == node {
                assert(list[list.len() - 1].0 == n);
                if !g.graph.contains_key(n) {
                    assert(g.pending[g.pending.len() - 1].0 == n);
                }
            }
        }
    } else {
        assert forall|n: NodeId| !#[trigger] mentions(list, n) by {}
    }
}

/// Offering again those that wait keeps what is known.
pub proof fn lemma_drained_follows(d: DagView, of: spec_fn(NodeId) -> EntryView)
    requires
        follows(d, of),
    ensures
        follows(d.drained(), of),
        d.drained().voters == d.voters,
        forall|n: NodeId| #[trigger] known(d.drained(), n) <==> known(d, n),
    decreases d.pending.len(),
{
    if d.swept().pending.len() < d.pending.len() {
        let bare = DagView { pending: Seq::empty(), ..d };
        assert(follows(bare, of)) by {
            assert forall|n: NodeId| #[trigger] bare.graph.contains_key(n) implies made_of(
                bare,
                n,
                of(n),
            ) by {
                assert(made_of(d, n, of(n)));
            }
        }
        lemma_follows(bare, d.pending, of);
        lemma_drained_follows(d.swept(), of);
        assert forall|n: NodeId| #[trigger] known(d.drained(), n) <==> known(d, n) by {
            assert(known(d.swept(), n) <==> known(bare, n) || mentions(d.pending, n));
        }
    }
}

/// Whether `e` is on its way to `d`: it has some of its nodes and no others.
spec fn towards(e: DagView, d: DagView, of: spec_fn(NodeId) -> EntryView) -> bool {
    &&& causal(e.graph)
    &&& follows(e, of)
    &&& forall|n: NodeId| #[trigger] e.graph.contains_key(n) ==> d.graph.contains_key(n)
    &&& forall|n: NodeId| #[trigger] mentions(e.pending, n) ==> known(d, n)
}

/// Whether `d` is what entries can lead to: a causal graph, with nothing that waits in
/// vain.
spec fn complete(d: DagView, of: spec_fn(NodeId) -> EntryView) -> bool {
    &&& causal(d.graph)
    &&& d.graph.dom().finite()
    &&& d.graph.dom().len() <= u64::MAX
    &&& follows(d, of)
    &&& settled(d)
}

/// What can be delivered on the way to `d` is in `d`.
proof fn lemma_leads(e: DagView, d: DagView, of: spec_fn(NodeId) -> EntryView, node: NodeId)
    requires
        complete(d, of),
        towards(e, d, of),
        known(d, node),
        deliverable(e.graph, node, of(node).heads),
    ensures
        d.graph.contains_key(node),
        node.seq > 0 ==> e.graph.contains_key(NodeId { key: node.key, seq: (node.seq - 1) as u64 }),
{
    let heads = of(node).heads;
    lemma_previous(e.graph, d.graph, node);
    if !d.graph.contains_key(node) {
        let i = choose|i: int| 0 <= i < d.pending.len() && (#[trigger] d.pending[i]).0 == node;
        let ids = choose|ids: Seq<NodeId>| delivered(d.graph, ids);
        lemma_missing_none(e.graph, heads);
        assert forall|j: int| 0 <= j < heads.len() implies d.graph.contains_key(
            #[trigger] heads[j],
        ) by {
            assert(heads.contains(heads[j]));
            assert(e.graph.contains_key(heads[j]));
        }
        lemma_none_missing(d.graph, heads);
        assert forall|s: u64| s >= node.seq implies !d.graph.contains_key(
            NodeId { key: node.key, seq: s },
        ) by {
            if d.graph.contains_key(NodeId { key: node.key, seq: s }) {
                lemma_sees_own(d.graph, ids, NodeId { key: node.key, seq: s }, node.seq);
            }
        }
        lemma_log_len(d.graph, ids, node.key, node.seq);
        assert(deliverable(d.graph, d.pending[i].0, d.pending[i].1.heads));
    }
}

/// A node that can be delivered comes after those that were.
pub proof fn lemma_deliver(g: Deps, ids: Seq<NodeId>, node: NodeId, heads: Seq<NodeId>)
    requires
        delivered(g, ids),
        deliverable(g, node, heads),
        node.seq > 0 ==> g.contains_key(NodeId { key: node.key, seq: (node.seq - 1) as u64 }),
    ensures
        delivered(g.insert(node, new_deps(node, heads)), ids.push(node)),
{
    let now = ids.push(node);
    let h = g.insert(node, new_deps(node, heads));
    let n = ids.len() as int;
    lemma_missing_none(g, heads);
    assert forall|x: NodeId| ids.contains(x) == #[trigger] g.contains_key(x) by {
        assert(ids.to_set().contains(x) == g.dom().contains(x));
    }
    assert(now.no_duplicates()) by {
        assert forall|a: int, b: int| 0 <= a < b < now.len() implies now[a] != now[b] by {
            if b == n {
                assert(ids.contains(ids[a]));
            }
        }
    }
    assert forall|x: NodeId| now.to_set().contains(x) == h.dom().contains(x) by {
        if g.contains_key(x) {
            let j = ids.index_of(x);
            assert(now[j] == x);
        }
        assert(now[n] == node);
        if now.contains(x) && x != node {
            let j = now.index_of(x);
            assert(ids[j] == x);
        }
    }
    assert(now.to_set() =~= h.dom());
    assert forall|p: int, d: NodeId| 0 <= p < now.len() && #[trigger] h[now[p]].contains(
        d,
    ) implies exists|q: int| 0 <= q < p && #[trigger] now[q] == d by {
        if p < n {
            assert(ids.contains(ids[p]));
            assert(g[ids[p]].contains(d));
            let q = choose|q: int| 0 <= q < p && #[trigger] ids[q] == d;
            assert(now[q] == d);
        } else {
            if heads.contains(d) {
                assert(g.contains_key(d));
            }
            assert(ids.contains(d));
            let q = ids.index_of(d);
            assert(now[q] == d);
        }
    }
    assert(delivered(h, now));
}

/// If none is missing, all are there.
proof fn lemma_missing_none(g: Deps, heads: Seq<NodeId>)
    requires
        first_missing(g, heads) is None,
    ensures
        forall|h: NodeId| #[trigger] heads.contains(h) ==> g.contains_key(h),
    decreases heads.len(),
{
    if heads.len() > 0 {
        let less = heads.drop_last();
        lemma_missing_none(g, less);
        assert forall|h: NodeId| #[trigger] heads.contains(h) implies g.contains_key(h) by {
            let j = heads.index_of(h);
            if j < less.len() {
                assert(less[j] == h);
                assert(less.contains(h));
            }
        }
    }
}

/// Offering nodes of `d` goes on towards `d`.
proof fn lemma_towards(
    e: DagView,
    d: DagView,
    list: Seq<(NodeId, EntryView)>,
    of: spec_fn(NodeId) -> EntryView,
)
    requires
        complete(d, of),
        towards(e, d, of),
        given_by(list, of),
        forall|n: NodeId| #[trigger] mentions(list, n) ==> known(d, n),
    ensures
        towards(e.offered_all(list), d, of),
    decreases list.len(),
{
    lemma_follows(e, list, of);
    if list.len() > 0 {
        let less = list.drop_last();
        assert forall|i: int| 0 <= i < less.len() implies (#[trigger] less[i]).1 == of(
            less[i].0,
        ) by {
            assert(less[i] == list[i]);
        }
        assert forall|n: NodeId| #[trigger] mentions(less, n) implies known(d, n) by {
            let i = choose|i: int| 0 <= i < less.len() && (#[trigger] less[i]).0 == n;
            assert(list[i].0 == n);
            assert(mentions(list, n));
        }
        lemma_towards(e, d, less, of);
        let f = e.offered_all(less);
        let node = list.last().0;
        let entry = list.last().1;
        assert(list[list.len() - 1].0 == node && list[list.len() - 1].1 == entry);
        assert(mentions(list, node));
        let g = f.offered(node, entry);
        if !f.graph.contains_key(node) && deliverable(f.graph, node, entry.heads) {
            lemma_leads(f, d, of, node);
            let ids = choose|ids: Seq<NodeId>| delivered(f.graph, ids);
            lemma_deliver(f.graph, ids, node, entry.heads);
            assert(delivered(g.graph, ids.push(node)));
        }
        assert forall|n: NodeId| #[trigger] mentions(g.pending, n) implies known(d, n) by {
            let i = choose|i: int| 0 <= i < g.pending.len() && (#[trigger] g.pending[i]).0 == n;
            if i < f.pending.len() {
                assert(f.pending[i].0 == n);
                assert(mentions(f.pending, n));
            }
        }
    }
}

/// The node before the next one of a log is there.
proof fn lemma_previous(g: Deps, all: Deps, node: NodeId)
    requires
        causal(g),
        all.dom().finite(),
        all.dom().len() <= u64::MAX,
        forall|n: NodeId| #[trigger] g.contains_key(n) ==> all.contains_key(n),
        node.seq == log_len(g, node.key),
    ensures
        node.seq > 0 ==> g.contains_key(NodeId { key: node.key, seq: (node.seq - 1) as u64 }),
{
    let ids = choose|ids: Seq<NodeId>| delivered(g, ids);
    ids.unique_seq_to_set();
    assert forall|n: NodeId| g.dom().contains(n) implies all.dom().contains(n) by {
        assert(g.contains_key(n));
    }
    vstd::set_lib::lemma_len_subset(g.dom(), all.dom());
    lemma_log_len_meaning(g, ids, node.key);
}

/// Offering again those that wait goes on towards `d`.
proof fn lemma_drained_towards(e: DagView, d: DagView, of: spec_fn(NodeId) -> EntryView)
    requires
        complete(d, of),
        towards(e, d, of),
    ensures
        towards(e.drained(), d, of),
    decreases e.pending.len(),
{
    if e.swept().pending.len() < e.pending.len() {
        let bare = DagView { pending: Seq::empty(), ..e };
        assert forall|n: NodeId| #[trigger] bare.graph.contains_key(n) implies made_of(
            bare,
            n,
            of(n),
        ) by {
            assert(made_of(e, n, of(n)));
        }
        assert forall|n: NodeId| !#[trigger] mentions(bare.pending, n) by {}
        lemma_towards(bare, d, e.pending, of);
        lemma_drained_towards(e.swept(), d, of);
    }
}

/// Once everything has been offered, each node is there as soon as those before it are.
proof fn lemma_all_there(
    e: DagView,
    d: DagView,
    of: spec_fn(NodeId) -> EntryView,
    ids: Seq<NodeId>,
    p: int,
)
    requires
        follows(d, of),
        towards(e.drained(), d, of),
        delivered(d.graph, ids),
        0 <= p <= ids.len(),
        forall|n: NodeId| #[trigger] d.graph.contains_key(n) ==> known(e.drained(), n),
    ensures
        forall|q: int| 0 <= q < p ==> e.drained().graph.contains_key(#[trigger] ids[q]),
    decreases p,
{
    if p > 0 {
        lemma_all_there(e, d, of, ids, p - 1);
        let f = e.drained();
        let node = ids[p - 1];
        assert(ids.to_set().contains(node));
        assert(d.graph.contains_key(node));
        if !f.graph.contains_key(node) {
            let i = choose|i: int| 0 <= i < f.pending.len() && (#[trigger] f.pending[i]).0 == node;
            let heads = f.pending[i].1.heads;
            law_drained(e, i);
            assert(made_of(d, node, of(node)));
            assert forall|h: NodeId| #[trigger] d.graph[node].contains(h) implies f.graph.contains_key(
                h,
            ) by {
                assert(d.graph[ids[p - 1]].contains(h));
                let q = choose|q: int| 0 <= q < p - 1 && #[trigger] ids[q] == h;
                assert(f.graph.contains_key(ids[q]));
            }
            assert forall|j: int| 0 <= j < heads.len() implies f.graph.contains_key(
                #[trigger] heads[j],
            ) by {
                assert(heads.contains(heads[j]));
                assert(d.graph[node].contains(heads[j]));
            }
            lemma_none_missing(f.graph, heads);
            let mine = choose|ids: Seq<NodeId>| delivered(f.graph, ids);
            let before = NodeId { key: node.key, seq: (node.seq - 1) as u64 };
            if node.seq > 0 {
                assert(d.graph[node].contains(before));
            }
            assert forall|s: u64| s >= node.seq implies !f.graph.contains_key(
                NodeId { key: node.key, seq: s },
            ) by {
                if f.graph.contains_key(NodeId { key: node.key, seq: s }) {
                    lemma_sees_own(f.graph, mine, NodeId { key: node.key, seq: s }, node.seq);
                }
            }
            lemma_log_len(f.graph, mine, node.key, node.seq);
            assert(deliverable(f.graph, node, heads));
        }
    }
}

/// What was delivered can be delivered again in any order: offering the entries that are
/// known, whatever their order, and offering again those that had to wait, gives the same
/// nodes, and the same wait.
pub proof fn law_redelivered(
    d: DagView,
    list: Seq<(NodeId, EntryView)>,
    of: spec_fn(NodeId) -> EntryView,
)
    requires
        causal(d.graph),
        d.graph.dom().finite(),
        d.graph.dom().len() <= u64::MAX,
        follows(d, of),
        settled(d),
        given_by(list, of),
        forall|n: NodeId| #[trigger] mentions(list, n) <==> known(d, n),
    ensures
        ({
            let r = (DagView {
                graph: Map::empty(),
                voters: d.voters,
                payloads: Map::empty(),
                pending: Seq::empty(),
            }).offered_all(list).drained();
            &&& r.graph == d.graph
            &&& r.voters == d.voters
            &&& r.payloads == d.payloads
            &&& forall|n: NodeId| #[trigger] mentions(r.pending, n) <==> mentions(d.pending, n)
        }),
{
    let start = DagView {
        graph: Map::empty(),
        voters: d.voters,
        payloads: Map::empty(),
        pending: Seq::empty(),
    };
    let none = Seq::<NodeId>::empty();
    assert(start.payloads.dom() =~= start.graph.dom());
    assert(none.to_set() =~= start.graph.dom());
    assert(delivered(start.graph, none));
    assert forall|n: NodeId| !#[trigger] mentions(start.pending, n) by {}
    assert(complete(d, of));
    lemma_towards(start, d, list, of);
    lemma_follows(start, list, of);
    let e = start.offered_all(list);
    lemma_drained_towards(e, d, of);
    lemma_drained_follows(e, of);
    let f = e.drained();
    let ids = choose|ids: Seq<NodeId>| delivered(d.graph, ids);
    assert forall|n: NodeId| #[trigger] known(f, n) <==> known(d, n) by {
        assert(known(e, n) <==> known(start, n) || mentions(list, n));
    }
    assert forall|n: NodeId| #[trigger] d.graph.contains_key(n) implies known(f, n) by {
        assert(known(d, n));
    }
    lemma_all_there(e, d, of, ids, ids.len() as int);
    assert forall|n: NodeId| #[trigger] d.graph.contains_key(n) implies f.graph.contains_key(n) by {
        assert(ids.to_set().contains(n));
        let q = ids.index_of(n);
        assert(f.graph.contains_key(ids[q]));
    }
    assert forall|n: NodeId| f.graph.contains_key(n) implies #[trigger] f.graph[n] == d.graph[n] by {
        assert(made_of(f, n, of(n)));
        assert(made_of(d, n, of(n)));
    }
    assert(f.graph =~= d.graph);
    assert(f.payloads.dom() =~= d.payloads.dom());
    assert forall|n: NodeId| #[trigger] f.payloads.contains_key(n) implies f.payloads[n]
        == d.payloads[n] by {
        assert(f.graph.dom().contains(n));
        assert(made_of(f, n, of(n)));
        assert(made_of(d, n, of(n)));
    }
    assert(f.payloads =~= d.payloads);
    assert forall|n: NodeId| #[trigger] mentions(f.pending, n) <==> mentions(d.pending, n) by {
        assert(known(f, n) <==> known(d, n));
        if mentions(f.pending, n) {
            let i = choose|i: int| 0 <= i < f.pending.len() && (#[trigger] f.pending[i]).0 == n;
            law_drained(e, i);
        }
        if mentions(d.pending, n) {
            let i = choose|i: int| 0 <= i < d.pending.len() && (#[trigger] d.pending[i]).0 == n;
            assert(!d.graph.contains_key(d.pending[i].0));
        }
    }
}

} // verus!
