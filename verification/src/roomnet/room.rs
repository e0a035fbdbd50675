//! A room: the logs of its writers, their nodes in one order, and the views folded from
//! them.
//!
//! A room is a state machine without I/O. A driver hands it what peers say and sends
//! what it answers.
use vstd::prelude::*;
use super::config::Origin;
use super::dag::{lemma_drained_keeps, lemma_none_missing, Dag, DagView};
use super::entry::{entry_bytes, parsed_entry, Entry, EntryCodec, EntryView};
use super::fold::{first_refused, lemma_first_refused, lemma_refused_within, replay};
use super::projection::Projection;
use super::store::StoreFactory;
use super::sync::{proof_view, Message, ProofView, SyncMessage};
use crate::autobase::consensus::{confirmed_view_of, order_of};
use crate::autobase::graph::{causal, is_log_len, lemma_log_len_meaning, log_len, Deps};
use crate::autobase::ids::keys_in_order;
use crate::autobase::laws::law_order;
use crate::autobase::linearizer::frontier_of;
use crate::autobase::{NodeId, WriterKey};
use crate::bytes::{copy_of, same_32};
use crate::codec::Codec;
use crate::hypercore::laws::{held, law_append, room};
use crate::hypercore::replica::{Mirror, Replica};
use crate::hypercore::writer::{all_present, stored_blocks};
use crate::hypercore::{empty_tree, Hypercore, Log, SignedHead};
use crate::identity::{ed25519_decodes, PublicKey};
use crate::merkle::laws::{holds, law_weight, lemma_path};
use crate::merkle::{flat, Proof, Tree, MAX_BLOCKS};
use crate::storage::{Contents, Store};

pub mod resume;

verus! {

/// A peer, as the driver names it.
pub type PeerId = [u8; 32];

/// What the stores of a [`StoreFactory`] fail with.
pub type StoreErr<F> = <<F as StoreFactory>::Store as Store>::Error;

/// Where a message is to go.
#[derive(Clone, Debug)]
pub enum Fanout {
    /// To every peer of the room.
    Gossip,
    /// To one peer.
    Peer(PeerId),
    /// To the clients that watch here.
    Clients,
}

/// A message to send, and where to.
#[derive(Clone, Debug)]
pub struct Outbound {
    pub msg: SyncMessage,
    pub to: Fanout,
}

/// An operation that has become final. There is one for each, in order.
#[derive(Clone, Debug)]
pub struct Finalized {
    pub node: NodeId,
    pub payload: Vec<u8>,
    /// Its place in the final order, from one on.
    pub version: u64,
}

/// What a room's operations fail with.
#[derive(Debug)]
pub enum Error<SE, PE> {
    /// A log or a replica failed.
    Hypercore(crate::hypercore::Error<SE>),
    /// A block's bytes are no entry.
    Codec(crate::codec::Error),
    /// A writer's key is no public key.
    BadWriterKey,
    /// A writer's store could not be opened.
    Open,
    /// The projection refused an operation.
    Projection(PE),
}

/// What a room's operations fail with.
pub type RoomError<F, P> = Error<StoreErr<F>, <P as Projection>::Error>;

/// A room: the log that is written here, replicas of the others, and the views.
pub struct Room<F: StoreFactory, P: Projection> {
    local_key: WriterKey,
    origin: Origin,
    local: Hypercore<Entry, EntryCodec, F::Store>,
    remotes: Vec<(WriterKey, Replica<Entry, EntryCodec, F::Store>)>,
    factory: F,
    dag: Dag,
    finalized_proj: P,
    live_proj: P,
    finalized_len: usize,
    finalized_since_poll: Vec<Finalized>,
    last_activity: u64,
}

/// What a [`Room`] is.
#[verifier::ext_equal]
pub ghost struct RoomView<M> {
    /// Who writes here.
    pub key: WriterKey,
    pub origin: Origin,
    pub local: Log,
    /// The replicas of the other writers' logs.
    pub remotes: Map<WriterKey, Mirror>,
    pub dag: DagView,
    /// How many nodes of the final order are folded into `settled`.
    pub folded: nat,
    /// The view of what is final.
    pub settled: M,
    /// The view of everything.
    pub shown: M,
    /// What has become final and was not asked for yet.
    pub queue: Seq<(NodeId, Seq<u8>, u64)>,
    pub activity: u64,
}

/// Operations that have become final.
pub open spec fn done_view(s: Seq<Finalized>) -> Seq<(NodeId, Seq<u8>, u64)> {
    s.map_values(|f: Finalized| (f.node, f.payload@, f.version))
}

/// The operations of `nodes`, which come after `base` others.
pub open spec fn done(nodes: Seq<NodeId>, base: nat, d: DagView) -> Seq<(NodeId, Seq<u8>, u64)> {
    Seq::new(nodes.len(), |i: int| (nodes[i], d.payload(nodes[i]), (base + i + 1) as u64))
}

/// Whether a writer is among replicas.
pub open spec fn hosts<R>(s: Seq<(WriterKey, R)>, w: WriterKey) -> bool {
    exists|i: int| 0 <= i < s.len() && (#[trigger] s[i]).0 == w
}

/// Where a writer is among replicas.
pub open spec fn seat<R>(s: Seq<(WriterKey, R)>, w: WriterKey) -> int {
    choose|i: int| 0 <= i < s.len() && (#[trigger] s[i]).0 == w
}

/// Whether no writer is among replicas twice.
pub open spec fn distinct<R>(s: Seq<(WriterKey, R)>) -> bool {
    forall|i: int, j: int| 0 <= i < j < s.len() ==> (#[trigger] s[i]).0 != (#[trigger] s[j]).0
}

/// What replicas hold.
pub open spec fn mirrors<S: Store>(s: Seq<(WriterKey, Replica<Entry, EntryCodec, S>)>) -> Map<
    WriterKey,
    Mirror,
> {
    Map::new(|w: WriterKey| hosts(s, w), |w: WriterKey| s[seat(s, w)].1@)
}

/// Whether a log has all its blocks, and its head is over them.
pub open spec fn whole(log: Log) -> bool {
    &&& held(log, stored_blocks(log.contents, log.tree.length as nat))
    &&& forall|i: u64| i < log.tree.length ==> #[trigger] log.has(i)
}

/// Whether a log is one of blocks that are all present, whatever its store holds.
pub open spec fn grounded(log: Log) -> bool {
    &&& exists|blocks: Seq<Seq<u8>>| #[trigger] holds(log.tree, blocks)
    &&& all_present(log, log.tree.length)
    &&& log.tree.length > 0 ==> log.head is Some
}

/// A log that has all its blocks is one of blocks.
pub proof fn lemma_whole(log: Log)
    requires
        whole(log),
    ensures
        grounded(log),
{
    assert(holds(log.tree, stored_blocks(log.contents, log.tree.length as nat)));
}

/// The proof that ties block `i` to the tree.
pub open spec fn proof_of(t: Tree, i: u64) -> ProofView {
    ProofView {
        block: i,
        leaf_size: t.nodes[(2 * i) as u64].size,
        siblings: t.path(2 * i as nat)->0,
        roots: t.roots_at(t.length as nat),
    }
}

/// The block `i` of a log, its bytes given, with what it takes to verify it.
pub open spec fn block_with(key: WriterKey, log: Log, i: u64, bytes: Seq<u8>) -> Message {
    Message::Block {
        writer: key,
        head: log.head->0,
        index: i,
        bytes,
        inclusion: proof_of(log.tree, i),
    }
}

/// Whether a message is the block `i` of the log that is written in a room: its bytes are
/// what the store holds, if it is intact.
pub open spec fn hands_over<F: StoreFactory, P: Projection>(
    room: Room<F, P>,
    i: u64,
    m: Message,
) -> bool {
    m matches Message::Block { bytes, .. } && {
        &&& m == block_with(room@.key, room@.local, i, bytes)
        &&& room.intact() ==> room@.local.block(i) == Some(bytes)
    }
}

/// The nodes that have become final and are not folded yet.
pub open spec fn fresh<M>(v: RoomView<M>) -> Seq<NodeId> {
    let fin = confirmed_view_of(v.dag.graph, v.dag.voters);
    if fin.len() > v.folded {
        fin.skip(v.folded as int)
    } else {
        Seq::empty()
    }
}

/// Where the projection refuses what has become final, if it does.
pub open spec fn refusal<P: Projection>(v: RoomView<P::Model>) -> Option<nat> {
    first_refused::<P>(v.settled, fresh(v), v.dag)
}

/// The room with its views brought up to date: what has become final is folded into the
/// final view, up to the first operation that is refused, and if none is, the view of
/// everything is that and the rest of the order.
pub open spec fn advanced<P: Projection>(v: RoomView<P::Model>) -> RoomView<P::Model> {
    match refusal::<P>(v) {
        Some(i) => RoomView {
            settled: replay::<P>(v.settled, fresh(v).take(i as int + 1), v.dag),
            queue: v.queue + done(fresh(v).take(i as int), v.folded, v.dag),
            ..v
        },
        None => {
            let settled = replay::<P>(v.settled, fresh(v), v.dag);
            let folded = v.folded + fresh(v).len();
            let rest = order_of(v.dag.graph, v.dag.voters).skip(folded as int);
            RoomView {
                settled,
                folded,
                queue: v.queue + done(fresh(v), v.folded, v.dag),
                shown: replay::<P>(settled, rest, v.dag),
                ..v
            }
        },
    }
}

impl<M> RoomView<M> {
    /// How many blocks of a writer's log are here.
    pub open spec fn length_of(self, w: WriterKey) -> u64 {
        if w == self.key {
            self.local.tree.length
        } else if self.remotes.contains_key(w) {
            self.remotes[w].tree.length
        } else {
            0
        }
    }

    /// The entry that writes `op` on top of what is here.
    pub open spec fn next_entry(self, op: Seq<u8>) -> EntryView {
        EntryView { heads: frontier_of(self.dag.graph), payload: op }
    }

    /// Whether the log that is written here has room for `op`: 64 bits number its blocks and
    /// count their bytes.
    pub open spec fn has_room(self, op: Seq<u8>) -> bool {
        let t = self.local.tree;
        &&& t.length + 1 < MAX_BLOCKS
        &&& Tree::weight(t.roots_at(t.length as nat)) + entry_bytes(self.next_entry(op)).len()
            <= u64::MAX
    }

    /// With other contents of the store of the log that is written here.
    pub open spec fn storing(self, contents: Contents) -> RoomView<M> {
        RoomView { local: self.local.but_contents(contents), ..self }
    }

    /// The id of the next node that is written here.
    pub open spec fn next_node(self) -> NodeId {
        NodeId { key: self.key, seq: self.local.tree.length }
    }

    /// After one more activity.
    pub open spec fn touched(self) -> RoomView<M> {
        RoomView {
            activity: if self.activity == u64::MAX {
                0
            } else {
                (self.activity + 1) as u64
            },
            ..self
        }
    }

    /// With `op` written, the views not yet brought up to date.
    pub open spec fn wrote(self, op: Seq<u8>) -> RoomView<M> {
        let e = self.next_entry(op);
        RoomView {
            local: self.local.appended(entry_bytes(e)),
            dag: self.dag.with(self.next_node(), e),
            ..self.touched()
        }
    }

    /// The replica of a writer's log, a new one if there is none yet.
    pub open spec fn replica(self, w: WriterKey, public: PublicKey, stored: Contents) -> Mirror {
        if self.remotes.contains_key(w) {
            self.remotes[w]
        } else {
            Mirror { public, tree: empty_tree(), contents: stored, head: None }
        }
    }

    /// With a replica of a writer's log.
    pub open spec fn with_replica(self, w: WriterKey, m: Mirror) -> RoomView<M> {
        RoomView { remotes: self.remotes.insert(w, m), ..self }
    }

    /// With a node of another writer, and those that waited for it, the views not yet
    /// brought up to date.
    pub open spec fn took(self, node: NodeId, e: EntryView) -> RoomView<M> {
        RoomView { dag: self.dag.offered(node, e).drained(), ..self.touched() }
    }

    /// What holds of every room: the nodes that are written here are those of the log,
    /// none of them waits, and no more is folded than there is.
    pub open spec fn coherent(self) -> bool {
        &&& grounded(self.local)
        &&& self.local.public@ == self.key
        &&& is_log_len(self.dag.graph, self.key, self.local.tree.length)
        &&& forall|i: int|
            0 <= i < self.dag.pending.len() ==> (#[trigger] self.dag.pending[i]).0.key != self.key
        &&& self.folded <= self.dag.graph.dom().len()
    }
}

impl<F: StoreFactory, P: Projection> View for Room<F, P> {
    type V = RoomView<P::Model>;

    closed spec fn view(&self) -> RoomView<P::Model> {
        RoomView {
            key: self.local_key,
            origin: self.origin,
            local: self.local@,
            remotes: mirrors(self.remotes@),
            dag: self.dag@,
            folded: self.finalized_len as nat,
            settled: self.finalized_proj.model(),
            shown: self.live_proj.model(),
            queue: done_view(self.finalized_since_poll@),
            activity: self.last_activity,
        }
    }
}

/// One more operation that has become final.
proof fn lemma_done_push(nodes: Seq<NodeId>, base: nat, d: DagView, i: int)
    requires
        0 <= i < nodes.len(),
    ensures
        done(nodes.take(i + 1), base, d) == done(nodes.take(i), base, d).push(
            (nodes[i], d.payload(nodes[i]), (base + i + 1) as u64),
        ),
{
    assert(done(nodes.take(i + 1), base, d) =~= done(nodes.take(i), base, d).push(
        (nodes[i], d.payload(nodes[i]), (base + i + 1) as u64),
    ));
}

/// Fold what has become final, from place `from` on, until an operation is refused.
fn fold_finalized<P: Projection>(
    proj: &mut P,
    queue: &mut Vec<Finalized>,
    dag: &Dag,
    fin: &[NodeId],
    from: usize,
) -> (r: Result<(), P::Error>)
    requires
        old(proj).wf(),
        from <= fin@.len(),
    ensures
        final(proj).wf(),
        ({
            let list = fin@.skip(from as int);
            match first_refused::<P>(old(proj).model(), list, dag@) {
                Some(i) => {
                    &&& r is Err
                    &&& final(proj).model() == replay::<P>(
                        old(proj).model(),
                        list.take(i as int + 1),
                        dag@,
                    )
                    &&& done_view(final(queue)@) == done_view(old(queue)@) + done(
                        list.take(i as int),
                        from as nat,
                        dag@,
                    )
                },
                None => {
                    &&& r is Ok
                    &&& final(proj).model() == replay::<P>(old(proj).model(), list, dag@)
                    &&& done_view(final(queue)@) == done_view(old(queue)@) + done(
                        list,
                        from as nat,
                        dag@,
                    )
                },
            }
        }),
{
    let ghost list = fin@.skip(from as int);
    let ghost m = proj.model();
    let ghost had = done_view(queue@);
    let mut i: usize = from;
    proof {
        assert(list.take(0) =~= Seq::empty());
        assert(had + done(list.take(0), from as nat, dag@) =~= had);
    }
    while i < fin.len()
        invariant
            from <= i <= fin@.len(),
            list == fin@.skip(from as int),
            proj.wf(),
            first_refused::<P>(m, list.take(i - from), dag@) is None,
            proj.model() == replay::<P>(m, list.take(i - from), dag@),
            done_view(queue@) == had + done(list.take(i - from), from as nat, dag@),
            m == old(proj).model(),
            had == done_view(old(queue)@),
        decreases fin@.len() - i,
    {
        let node: NodeId = fin[i];
        let payload: Vec<u8> = dag.payload(&node);
        let ghost k = i - from;
        proof {
            assert(list[k] == node);
            assert(list.take(k + 1).drop_last() =~= list.take(k));
            assert(list.take(k + 1).last() == node);
            lemma_done_push(list, from as nat, dag@, k);
        }
        match proj.apply(node, payload.as_slice()) {
            Ok(()) => {},
            Err(e) => {
                proof {
                    lemma_first_refused::<P>(m, list, dag@, k + 1);
                }
                return Err(e);
            },
        }
        let ghost q = queue@;
        queue.push(Finalized { node, payload, version: i as u64 + 1 });
        proof {
            assert(done_view(queue@) =~= done_view(q).push((node, payload@, (i + 1) as u64)));
            assert(done_view(queue@) =~= had + done(list.take(k + 1), from as nat, dag@));
        }
        i = i + 1;
    }
    assert(list.take(i - from) =~= list);
    Ok(())
}

/// Fold the payloads of `order` from place `from` on; one that is refused is passed over.
fn fold_live<P: Projection>(proj: &mut P, dag: &Dag, order: &[NodeId], from: usize)
    requires
        old(proj).wf(),
        from <= order@.len(),
    ensures
        final(proj).wf(),
        final(proj).model() == replay::<P>(old(proj).model(), order@.skip(from as int), dag@),
{
    let ghost list = order@.skip(from as int);
    let ghost m = proj.model();
    let mut i: usize = from;
    assert(list.take(0) =~= Seq::empty());
    while i < order.len()
        invariant
            from <= i <= order@.len(),
            list == order@.skip(from as int),
            proj.wf(),
            proj.model() == replay::<P>(m, list.take(i - from), dag@),
        decreases order@.len() - i,
    {
        let node: NodeId = order[i];
        let payload: Vec<u8> = dag.payload(&node);
        proof {
            let k = i - from;
            assert(list[k] == node);
            assert(list.take(k + 1).drop_last() =~= list.take(k));
            assert(list.take(k + 1).last() == node);
        }
        let applied: Result<(), P::Error> = proj.apply(node, payload.as_slice());
        i = i + 1;
    }
    assert(list.take(i - from) =~= list);
}

/// What a seat is.
proof fn lemma_seat<R>(s: Seq<(WriterKey, R)>, i: int)
    requires
        distinct(s),
        0 <= i < s.len(),
    ensures
        hosts(s, s[i].0),
        seat(s, s[i].0) == i,
{
    let w = s[i].0;
    assert(hosts(s, w));
    let j = seat(s, w);
    if i < j {
        assert(s[i].0 != s[j].0);
    } else if j < i {
        assert(s[j].0 != s[i].0);
    }
}

impl<F: StoreFactory, P: Projection> Room<F, P> {
    /// Whether the parts are sound.
    pub closed spec fn parts(&self) -> bool {
        &&& self.local.wf()
        &&& distinct(self.remotes@)
        &&& forall|i: int|
            0 <= i < self.remotes@.len() ==> (#[trigger] self.remotes@[i]).1.wf()
                && self.remotes@[i].1@.public@ == self.remotes@[i].0
        &&& self.dag.wf()
        &&& self.finalized_proj.wf()
        &&& self.live_proj.wf()
    }

    /// The room's invariant. It does not depend on what the stores hold.
    pub open spec fn wf(&self) -> bool {
        self.parts() && self@.coherent()
    }

    /// Whether every store holds what was left in it.
    pub closed spec fn intact(&self) -> bool {
        &&& self.local.intact()
        &&& forall|i: int|
            0 <= i < self.remotes@.len() ==> (#[trigger] self.remotes@[i]).1.intact()
    }

    /// Whether every store holds what was left in it, and that of the log that is written
    /// here all its blocks.
    pub open spec fn unbroken(&self) -> bool {
        self.intact() && whole(self@.local)
    }

    /// What is folded is counted in a machine word.
    pub proof fn lemma_folded(&self)
        ensures
            self@.folded <= u64::MAX,
    {
    }

    /// The nodes of a room are finitely many, and every node comes after what it builds on.
    pub proof fn lemma_graph(&self)
        requires
            self.wf(),
        ensures
            causal(self@.dag.graph),
            self@.dag.graph.dom().finite(),
            self@.dag.graph.dom().len() <= usize::MAX,
    {
        self.dag.lemma_wf();
    }

    /// What the store of a writer's log holds, should it be opened.
    pub closed spec fn stored(&self, w: WriterKey) -> Contents {
        self.factory.stored(w)
    }

    /// Bring the views up to date.
    fn advance(&mut self) -> (r: Result<(), P::Error>)
        requires
            old(self).wf(),
        ensures
            final(self).wf(),
            final(self).intact() == old(self).intact(),
            final(self)@ == advanced::<P>(old(self)@),
            (r is Ok) == (refusal::<P>(old(self)@) is None),
    {
        let ghost v = self@;
        proof {
            self.dag.lemma_wf();
            assert(causal(v.dag.graph));
            law_order(v.dag.graph, v.dag.voters);
            lemma_refused_within::<P>(v.settled, fresh(v), v.dag);
        }
        let fin: Vec<NodeId> = self.dag.lin().finalized();
        if fin.len() > self.finalized_len {
            match fold_finalized(
                &mut self.finalized_proj,
                &mut self.finalized_since_poll,
                &self.dag,
                fin.as_slice(),
                self.finalized_len,
            ) {
                Ok(()) => {},
                Err(e) => {
                    assert(self@ =~= advanced::<P>(v));
                    return Err(e);
                },
            }
            self.finalized_len = fin.len();
        } else {
            assert(done_view(self.finalized_since_poll@) + done(
                fresh(v),
                v.folded,
                v.dag,
            ) =~= done_view(self.finalized_since_poll@));
        }
        self.live_proj.reset_to(self.finalized_proj.snapshot());
        let order: Vec<NodeId> = self.dag.lin().order();
        fold_live(&mut self.live_proj, &self.dag, order.as_slice(), self.finalized_len);
        assert(self@ =~= advanced::<P>(v));
        Ok(())
    }

    /// This room's writer.
    pub fn local_key(&self) -> (k: WriterKey)
        ensures
            k == self@.key,
    {
        self.local_key
    }

    /// Where the room comes from.
    pub fn origin(&self) -> (o: &Origin)
        ensures
            *o == self@.origin,
    {
        &self.origin
    }

    /// A count of what was written here and taken in. A driver compares it over time to
    /// find rooms that lie idle.
    pub fn last_activity(&self) -> (n: u64)
        ensures
            n == self@.activity,
    {
        self.last_activity
    }

    /// How many operations are final.
    pub fn finalized_len(&self) -> (n: usize)
        ensures
            n == self@.folded,
    {
        self.finalized_len
    }

    /// All nodes, in their order.
    pub fn order(&self) -> (v: Vec<NodeId>)
        requires
            self.wf(),
        ensures
            v@ == order_of(self@.dag.graph, self@.dag.voters),
    {
        proof {
            self.dag.lemma_wf();
        }
        self.dag.lin().order()
    }

    /// The view of what is final.
    pub fn snapshot_finalized(&self) -> (s: &P::State)
        requires
            self.wf(),
        ensures
            P::sound(s),
            P::meaning(s) == self@.settled,
    {
        self.finalized_proj.snapshot()
    }

    /// The view of everything, final or not.
    pub fn snapshot_live(&self) -> (s: &P::State)
        requires
            self.wf(),
        ensures
            P::sound(s),
            P::meaning(s) == self@.shown,
    {
        self.live_proj.snapshot()
    }

    /// Tell the peers how far the log that is written here has come.
    pub fn announce(&self) -> (out: Vec<Outbound>)
        ensures
            match self@.local.head {
                Some(head) => out@ == seq![
                    Outbound {
                        msg: SyncMessage::Head { writer: self@.key, head },
                        to: Fanout::Gossip,
                    },
                ],
                None => out@ == Seq::<Outbound>::empty(),
            },
    {
        let mut out: Vec<Outbound> = Vec::new();
        match self.local.head() {
            Some(head) => {
                out.push(
                    Outbound {
                        msg: SyncMessage::Head { writer: self.local_key, head: head.clone() },
                        to: Fanout::Gossip,
                    },
                );
            },
            None => {},
        }
        out
    }

    /// What has become final since the last call, one for each operation.
    pub fn poll_finalized(&mut self) -> (v: Vec<Finalized>)
        requires
            old(self).wf(),
        ensures
            final(self).wf(),
            final(self).intact() == old(self).intact(),
            done_view(v@) == old(self)@.queue,
            final(self)@ == (RoomView { queue: Seq::empty(), ..old(self)@ }),
    {
        let mut v: Vec<Finalized> = Vec::new();
        core::mem::swap(&mut v, &mut self.finalized_since_poll);
        proof {
            assert(done_view(self.finalized_since_poll@) =~= Seq::empty());
            assert(self@ =~= RoomView { queue: Seq::empty(), ..old(self)@ });
        }
        v
    }

    /// Where the replica of a writer's log is.
    fn place(&self, writer: &WriterKey) -> (r: Option<usize>)
        ensures
            match r {
                Some(i) => i < self.remotes@.len() && self.remotes@[i as int].0 == *writer,
                None => !hosts(self.remotes@, *writer),
            },
    {
        let mut i: usize = 0;
        while i < self.remotes.len()
            invariant
                i <= self.remotes@.len(),
                forall|j: int| 0 <= j < i ==> (#[trigger] self.remotes@[j]).0 != *writer,
            decreases self.remotes@.len() - i,
        {
            if same_32(&self.remotes[i].0, writer) {
                return Some(i);
            }
            i = i + 1;
        }
        None
    }

    /// How many blocks of a writer's log are here.
    fn writer_len(&self, writer: WriterKey) -> (n: u64)
        requires
            self.parts(),
        ensures
            n == self@.length_of(writer),
    {
        if same_32(&writer, &self.local_key) {
            return self.local.len();
        }
        match self.place(&writer) {
            Some(i) => {
                proof {
                    lemma_seat(self.remotes@, i as int);
                }
                self.remotes[i].1.len()
            },
            None => 0,
        }
    }

    fn touch(&mut self)
        requires
            old(self).wf(),
        ensures
            final(self).wf(),
            final(self).intact() == old(self).intact(),
            final(self)@ == old(self)@.touched(),
    {
        self.last_activity = self.last_activity.wrapping_add(1);
        assert(self@ =~= old(self)@.touched());
    }

    /// The block `i` of the log that is written here, its bytes given, with what it takes to
    /// verify it.
    fn message_of(&self, i: u64, bytes: Vec<u8>) -> (m: SyncMessage)
        requires
            self.wf(),
            i < self@.local.tree.length,
        ensures
            m@ == block_with(self@.key, self@.local, i, bytes@),
    {
        let ghost log = self.local@;
        proof {
            let blocks = choose|blocks: Seq<Seq<u8>>| #[trigger] holds(log.tree, blocks);
            assert(self@.local == log);
            flat::lemma_leaf(i as nat);
            assert(log.tree.nodes.contains_key((2 * i) as u64));
            let top = lemma_path(log.tree, blocks, (2 * i) as u64);
        }
        match (self.local.head(), self.local.inclusion_proof(i)) {
            (Some(head), Some(inclusion)) => {
                let m: SyncMessage = SyncMessage::Block {
                    writer: self.local_key,
                    head: head.clone(),
                    index: i,
                    bytes,
                    proof: inclusion,
                };
                assert(proof_view(inclusion) =~= proof_of(log.tree, i));
                m
            },
            _ => SyncMessage::Have { writer: self.local_key, length: i },
        }
    }

    /// The block `i` of the log that is written here, with what it takes to verify it.
    fn own_block(&self, i: u64) -> (r: Result<SyncMessage, RoomError<F, P>>)
        requires
            self.wf(),
            i < self@.local.tree.length,
        ensures
            match r {
                Ok(m) => hands_over(*self, i, m@),
                Err(Error::Hypercore(crate::hypercore::Error::Corrupt)) => self.intact()
                    ==> self@.local.block(i) is None,
                Err(e) => e matches Error::Hypercore(h) && h is Storage && !F::Store::sure(),
            },
    {
        proof {
            assert(self@.local.has(i));
        }
        match self.local.block(i) {
            Ok(Some(b)) => Ok(self.message_of(i, b)),
            Ok(None) => Err(Error::Hypercore(crate::hypercore::Error::Corrupt)),
            Err(e) => Err(Error::Hypercore(e)),
        }
    }

    /// Whether the log that is written here has room for `op`.
    pub fn has_room(&self, op: &[u8]) -> (b: bool)
        requires
            self.wf(),
        ensures
            b == self@.has_room(op@),
    {
        proof {
            let t = self@.local.tree;
            let blocks = choose|blocks: Seq<Seq<u8>>| #[trigger] holds(t, blocks);
            self.dag.lemma_wf();
            law_weight(t, blocks);
        }
        let entry: Entry = Entry::new(self.dag.lin().frontier(), copy_of(op));
        let bytes: Vec<u8> = EntryCodec.encode(&entry);
        proof {
            assert(entry@ =~= self@.next_entry(op@));
        }
        if self.local.len() + 1 >= MAX_BLOCKS {
            return false;
        }
        match self.local.byte_length().checked_add(bytes.len() as u64) {
            Some(_) => true,
            None => false,
        }
    }

    /// Write `op`: append it to the log that is written here, on top of what has been
    /// seen, and tell the peers how far the log has come and the clients what the new
    /// block is. Where the store does not take the block, the room stays as it is; where it
    /// does not give the block back, the operation is written all the same.
    pub fn local_append(&mut self, op: &[u8]) -> (r: Result<Vec<Outbound>, RoomError<F, P>>)
        requires
            old(self).wf(),
            old(self)@.has_room(op@),
        ensures
            append_outcome::<F, P>(*old(self), *final(self), op@, r),
    {
        let ghost v = self@;
        let seq: u64 = self.local.len();
        proof {
            self.dag.lemma_wf();
        }
        let heads: Vec<NodeId> = self.dag.lin().frontier();
        let entry: Entry = Entry::new(heads, copy_of(op));
        let ghost e = v.next_entry(op@);
        let ghost data = entry_bytes(e);
        proof {
            assert(entry@ =~= e);
            lemma_wrote(v, op@);
            assert forall|i: int| 0 <= i < heads@.len() implies v.dag.graph.contains_key(
                #[trigger] heads@[i],
            ) by {
                assert(heads@.contains(heads@[i]));
            }
            lemma_none_missing(v.dag.graph, heads@);
            lemma_log_len_meaning(
                v.dag.graph,
                self.dag.linearizer().arrivals(),
                v.key,
            );
            lemma_log_is(v.dag.graph, v.key, seq);
        }
        match self.local.append(&entry) {
            Ok(i) => {},
            Err(e) => {
                proof {
                    assert(self@ =~= v.storing(self@.local.contents));
                    lemma_storing(v, self@.local.contents);
                }
                return Err(Error::Hypercore(e));
            },
        }
        let ghost c = self@.local.contents;
        let node: NodeId = NodeId::new(self.local_key, seq);
        self.dag.deliver(node, entry.heads.as_slice(), entry.payload);
        self.last_activity = self.last_activity.wrapping_add(1);
        let ghost w = v.wrote(op@);
        proof {
            assert(self@ =~= w.storing(c));
            lemma_storing(w, c);
            assert(advanced::<P>(w.storing(c)) =~= advanced::<P>(w).storing(c));
            if old(self).intact() && F::Store::fits(data.len()) {
                assert(w.storing(c) =~= w);
                if whole(v.local) {
                    lemma_wrote_whole(v, op@);
                }
            }
        }
        match self.advance() {
            Ok(()) => {},
            Err(e) => return Err(Error::Projection(e)),
        }
        let mut out: Vec<Outbound> = self.announce();
        proof {
            assert(self@.local.has(seq));
        }
        let bytes: Vec<u8> = match self.local.block(seq) {
            Ok(Some(b)) => b,
            Ok(None) => return Err(Error::Hypercore(crate::hypercore::Error::Corrupt)),
            Err(e) => return Err(Error::Hypercore(e)),
        };
        let m: SyncMessage = self.message_of(seq, bytes);
        out.push(Outbound { msg: m, to: Fanout::Clients });
        Ok(out)
    }

    /// Ask for blocks that the peer has and this room has not.
    fn ask(&self, from: PeerId, writer: WriterKey, length: u64) -> (out: Vec<Outbound>)
        requires
            self.wf(),
        ensures
            out@ == asked(self@, from, writer, length),
    {
        let mut out: Vec<Outbound> = Vec::new();
        if !same_32(&writer, &self.local_key) && length > self.writer_len(writer) {
            out.push(
                Outbound {
                    msg: SyncMessage::Want { writer, start: self.writer_len(writer), end: length },
                    to: Fanout::Peer(from),
                },
            );
        }
        out
    }

    /// Send the peer the blocks that it asked for. Only the log that is written here can
    /// be served: this room has no proofs for the others.
    fn serve(&self, from: PeerId, writer: WriterKey, start: u64, end: u64) -> (r: Result<
        Vec<Outbound>,
        RoomError<F, P>,
    >)
        requires
            self.wf(),
        ensures
            match r {
                Ok(out) => {
                    &&& out@.len() == served(self@, writer, start, end)
                    &&& forall|j: int|
                        0 <= j < out@.len() ==> (#[trigger] out@[j]).to == Fanout::Peer(from)
                            && hands_over(*self, (start + j) as u64, out@[j].msg@)
                },
                Err(e) => serve_failure::<F, P>(*self, writer, start, end, e),
            },
    {
        let mut out: Vec<Outbound> = Vec::new();
        if !same_32(&writer, &self.local_key) {
            return Ok(out);
        }
        let len: u64 = self.local.len();
        let hi: u64 = if end < len {
            end
        } else {
            len
        };
        let mut i: u64 = start;
        while i < hi
            invariant
                self.wf(),
                writer == self@.key,
                hi == if end < self@.local.tree.length {
                    end
                } else {
                    self@.local.tree.length
                },
                start < hi ==> start <= i <= hi,
                start >= hi ==> i == start,
                out@.len() == i - start,
                forall|j: int|
                    0 <= j < out@.len() ==> (#[trigger] out@[j]).to == Fanout::Peer(from)
                        && hands_over(*self, (start + j) as u64, out@[j].msg@),
            decreases hi - i,
        {
            match self.own_block(i) {
                Ok(m) => {
                    out.push(Outbound { msg: m, to: Fanout::Peer(from) });
                },
                Err(e) => {
                    assert(self.intact() ==> start <= i < hi);
                    return Err(e);
                },
            }
            i = i + 1;
        }
        Ok(out)
    }

    /// The replica of a writer's log, a new one if there is none yet.
    fn replica_of(&mut self, writer: WriterKey) -> (r: Result<usize, RoomError<F, P>>)
        requires
            old(self).wf(),
        ensures
            final(self).wf(),
            final(self).intact() == old(self).intact(),
            match r {
                Ok(i) => {
                    let m = final(self)@.remotes[writer];
                    &&& i < final(self).seats()
                    &&& final(self).writer_at(i as int) == writer
                    &&& m == old(self)@.replica(writer, m.public, old(self).stored(writer))
                    &&& m.public@ == writer
                    &&& final(self)@ == old(self)@.with_replica(writer, m)
                    &&& forall|w: WriterKey|
                        w != writer ==> #[trigger] final(self).stored(w) == old(self).stored(w)
                },
                Err(Error::BadWriterKey) => {
                    &&& *final(self) == *old(self)
                    &&& !old(self)@.remotes.contains_key(writer)
                    &&& !ed25519_decodes(writer@)
                },
                Err(e) => {
                    &&& e is Open
                    &&& !F::certain()
                    &&& !old(self)@.remotes.contains_key(writer)
                    &&& ed25519_decodes(writer@)
                    &&& final(self)@ == old(self)@
                },
            },
    {
        match self.place(&writer) {
            Some(i) => {
                proof {
                    lemma_seat(self.remotes@, i as int);
                    assert(self@.with_replica(writer, self@.remotes[writer]).remotes
                        =~= self@.remotes);
                    assert(self@ =~= self@.with_replica(writer, self@.remotes[writer]));
                }
                return Ok(i);
            },
            None => {},
        }
        let public: PublicKey = match PublicKey::from_bytes(&writer) {
            Some(p) => p,
            None => return Err(Error::BadWriterKey),
        };
        let store: F::Store = match self.factory.open(writer) {
            Ok(s) => s,
            Err(_) => return Err(Error::Open),
        };
        let ghost had = self.remotes@;
        let fresh: Replica<Entry, EntryCodec, F::Store> = Replica::new(public, EntryCodec, store);
        let ghost m = fresh@;
        self.remotes.push((writer, fresh));
        proof {
            lemma_seat_new(had, (writer, fresh));
            assert(self@ =~= old(self)@.with_replica(writer, m));
            assert forall|k: int| 0 <= k < had.len() implies self.remotes@[k] == #[trigger] had[k] by {}
        }
        Ok(self.remotes.len() - 1)
    }

    /// Verify and store a block of another writer's log, and offer its node. Says whether
    /// the block was accepted.
    fn ingest_remote_block(
        &mut self,
        writer: WriterKey,
        head: &SignedHead,
        index: u64,
        bytes: &[u8],
        inclusion: &Proof,
    ) -> (r: Result<bool, RoomError<F, P>>)
        requires
            old(self).wf(),
            writer != old(self)@.key,
        ensures
            ({
                let x = final(self)@.remotes[writer];
                let m = old(self)@.replica(writer, x.public, old(self).stored(writer));
                let known = old(self)@.with_replica(writer, m);
                match r {
                    Ok(true) => {
                        &&& final(self).wf()
                        &&& x.public@ == writer
                        &&& m.takes(*head, index, bytes@, *inclusion)
                        &&& mirrored(*old(self), *final(self), m, *head, index, bytes@, x)
                        &&& parsed_entry(bytes@) matches Ok(e) && final(self)@ == (RoomView {
                            dag: known.dag.offered(NodeId { key: writer, seq: index }, e),
                            ..known.with_replica(writer, x).touched()
                        })
                    },
                    Ok(false) => {
                        &&& final(self).wf()
                        &&& final(self).intact() == old(self).intact()
                        &&& x.public@ == writer
                        &&& !m.takes(*head, index, bytes@, *inclusion)
                        &&& final(self)@ == known
                    },
                    Err(Error::Codec(e)) => {
                        &&& final(self).wf()
                        &&& x.public@ == writer
                        &&& m.takes(*head, index, bytes@, *inclusion)
                        &&& mirrored(*old(self), *final(self), m, *head, index, bytes@, x)
                        &&& parsed_entry(bytes@) == Err::<EntryView, crate::codec::Error>(e)
                        &&& final(self)@ == known.with_replica(writer, x)
                    },
                    Err(Error::BadWriterKey) => {
                        &&& *final(self) == *old(self)
                        &&& !old(self)@.remotes.contains_key(writer)
                        &&& !ed25519_decodes(writer@)
                    },
                    Err(Error::Open) => {
                        &&& final(self).wf()
                        &&& final(self).intact() == old(self).intact()
                        &&& !F::certain()
                        &&& !old(self)@.remotes.contains_key(writer)
                        &&& ed25519_decodes(writer@)
                        &&& final(self)@ == old(self)@
                    },
                    Err(e) => {
                        &&& e matches Error::Hypercore(h) && h is Storage
                        &&& !F::Store::sure()
                        &&& x.public@ == writer
                        &&& m.takes(*head, index, bytes@, *inclusion)
                        &&& final(self).wf()
                        &&& x == (Mirror { contents: x.contents, ..m })
                        &&& old(self).intact() && final(self).intact() ==> x == m
                        &&& final(self)@ == old(self)@.with_replica(writer, x)
                    },
                }
            }),
    {
        let ghost v = self@;
        let at: usize = match self.replica_of(writer) {
            Ok(i) => i,
            Err(e) => return Err(e),
        };
        let ghost known = self@;
        let ghost had = self.remotes@;
        proof {
            lemma_seat(had, at as int);
        }
        let took: bool = match self.remotes[at].1.add_block(head, index, bytes, inclusion) {
            Ok(b) => b,
            Err(e) => {
                proof {
                    let x = self.remotes@[at as int].1@;
                    lemma_seat_update(had, at as int, self.remotes@[at as int]);
                    assert(self.remotes@ =~= had.update(at as int, self.remotes@[at as int]));
                    assert(known.with_replica(writer, x).remotes =~= v.with_replica(
                        writer,
                        x,
                    ).remotes);
                    assert(self@ =~= v.with_replica(writer, x));
                }
                return Err(Error::Hypercore(e));
            },
        };
        let ghost x = self.remotes@[at as int].1@;
        proof {
            lemma_seat_update(had, at as int, self.remotes@[at as int]);
            assert(self.remotes@ =~= had.update(at as int, self.remotes@[at as int]));
            assert(self@ =~= known.with_replica(writer, x));
            if !took {
                assert(known.with_replica(writer, x).remotes =~= known.remotes);
                assert(self@ =~= known);
                assert(self.remotes@ =~= had);
            }
        }
        if !took {
            return Ok(false);
        }
        assert(v.with_replica(writer, x).remotes =~= known.with_replica(writer, x).remotes);
        let entry: Entry = match EntryCodec.decode(bytes) {
            Ok(e) => e,
            Err(e) => return Err(Error::Codec(e)),
        };
        let ghost e = entry@;
        let node: NodeId = NodeId::new(writer, index);
        let ghost before = self@;
        proof {
            self.dag.lemma_wf();
        }
        self.dag.try_add_node(node, entry);
        proof {
            self.dag.lemma_wf();
            lemma_offered(before, node, e);
            assert(self@ =~= RoomView { dag: known.dag.offered(node, e), ..before });
        }
        self.touch();
        Ok(true)
    }

    /// Take in a block of another writer's log, and if it is accepted pass it on to the
    /// clients.
    fn on_block(
        &mut self,
        writer: WriterKey,
        head: SignedHead,
        index: u64,
        bytes: Vec<u8>,
        inclusion: Proof,
    ) -> (r: Result<Vec<Outbound>, RoomError<F, P>>)
        requires
            old(self).wf(),
        ensures
            block_outcome::<F, P>(
                *old(self),
                *final(self),
                writer,
                head,
                index,
                bytes,
                inclusion,
                r,
            ),
    {
        let mut out: Vec<Outbound> = Vec::new();
        if same_32(&writer, &self.local_key) {
            return Ok(out);
        }
        let ghost v = self@;
        match self.ingest_remote_block(writer, &head, index, bytes.as_slice(), &inclusion) {
            Ok(true) => {},
            Ok(false) => return Ok(out),
            Err(e) => return Err(e),
        }
        let ghost before = self@;
        proof {
            self.dag.lemma_wf();
        }
        self.dag.drain_pending();
        proof {
            self.dag.lemma_wf();
            lemma_drained(before);
            assert(self@ =~= RoomView { dag: before.dag.drained(), ..before });
        }
        match self.advance() {
            Ok(()) => {},
            Err(e) => return Err(Error::Projection(e)),
        }
        out.push(
            Outbound {
                msg: SyncMessage::Block { writer, head, index, bytes, proof: inclusion },
                to: Fanout::Clients,
            },
        );
        Ok(out)
    }

    /// Take in what a peer says, and say what to send.
    pub fn on_inbound(&mut self, from: PeerId, msg: SyncMessage) -> (r: Result<
        Vec<Outbound>,
        RoomError<F, P>,
    >)
        requires
            old(self).wf(),
        ensures
            inbound_outcome::<F, P>(*old(self), *final(self), from, msg, r),
    {
        match msg {
            SyncMessage::Head { writer, head } => Ok(self.ask(from, writer, head.length)),
            SyncMessage::Have { writer, length } => Ok(self.ask(from, writer, length)),
            SyncMessage::Want { writer, start, end } => self.serve(from, writer, start, end),
            SyncMessage::Block { writer, head, index, bytes, proof: p } => self.on_block(
                writer,
                head,
                index,
                bytes,
                p,
            ),
        }
    }

    /// How many replicas there are.
    pub closed spec fn seats(&self) -> nat {
        self.remotes@.len()
    }

    /// The writer of a replica.
    pub closed spec fn writer_at(&self, i: int) -> WriterKey {
        self.remotes@[i].0
    }
}

/// The bytes of block `i` of a writer's log, as its store has them.
pub open spec fn bytes_at<M>(v: RoomView<M>, w: WriterKey, i: u64) -> Option<Seq<u8>> {
    if w == v.key {
        v.local.block(i)
    } else if v.remotes.contains_key(w) && v.remotes[w].contents.contains_key(i) {
        Some(v.remotes[w].contents[i])
    } else {
        None
    }
}

/// What block `i` of a writer's log stands for, if its bytes are there.
pub open spec fn entry_read<M>(v: RoomView<M>, w: WriterKey, i: u64) -> Option<
    Result<EntryView, crate::codec::Error>,
> {
    match bytes_at(v, w, i) {
        Some(b) => Some(parsed_entry(b)),
        None => None,
    }
}

/// Where a range of blocks ends that is no longer than a writer's log.
pub open spec fn end_within<M>(v: RoomView<M>, w: WriterKey, end: u64) -> u64 {
    if end < v.length_of(w) {
        end
    } else {
        v.length_of(w)
    }
}

impl<F: StoreFactory, P: Projection> Room<F, P> {
    /// The entry at block `i` of a writer's log.
    fn entry_at(&self, writer: WriterKey, i: u64) -> (r: Result<Option<Entry>, RoomError<F, P>>)
        requires
            self.parts(),
            all_present(self@.local, self@.local.tree.length),
            i < self@.length_of(writer),
        ensures
            match r {
                Ok(Some(e)) => self.intact() ==> entry_read(self@, writer, i) == Some(
                    Ok::<EntryView, crate::codec::Error>(e@),
                ),
                Ok(None) => false,
                Err(Error::Hypercore(crate::hypercore::Error::Codec(e))) => self.intact()
                    ==> entry_read(self@, writer, i) == Some(
                    Err::<EntryView, crate::codec::Error>(e),
                ),
                Err(Error::Hypercore(crate::hypercore::Error::Corrupt)) => self.intact()
                    ==> entry_read(self@, writer, i) is None,
                Err(e) => e matches Error::Hypercore(h) && h is Storage && !F::Store::sure(),
            },
    {
        if same_32(&writer, &self.local_key) {
            assert(self@.local.has(i));
            return match self.local.get(i) {
                Ok(e) => Ok(e),
                Err(e) => Err(Error::Hypercore(e)),
            };
        }
        match self.place(&writer) {
            Some(at) => {
                proof {
                    lemma_seat(self.remotes@, at as int);
                }
                match self.remotes[at].1.get(i) {
                    Ok(e) => Ok(e),
                    Err(e) => Err(Error::Hypercore(e)),
                }
            },
            None => Ok(None),
        }
    }

    /// The entries of a writer's log from `start` up to, not including, `end`, as far as
    /// the log is here.
    pub fn logs(&self, writer: WriterKey, start: u64, end: u64) -> (r: Result<
        Vec<Entry>,
        RoomError<F, P>,
    >)
        requires
            self.wf(),
        ensures
            ({
                let hi = end_within(self@, writer, end);
                match r {
                    Ok(v) => {
                        &&& v@.len() == if start < hi {
                            hi - start
                        } else {
                            0
                        }
                        &&& self.intact() ==> forall|j: int|
                            0 <= j < v@.len() ==> entry_read(
                                self@,
                                writer,
                                (start + j) as u64,
                            ) == Some(Ok::<EntryView, crate::codec::Error>((#[trigger] v@[j])@))
                    },
                    Err(Error::Hypercore(crate::hypercore::Error::Codec(e))) => start < hi && (
                    self.intact() ==> exists|i: u64|
                        start <= i < hi && #[trigger] entry_read(self@, writer, i) == Some(
                            Err::<EntryView, crate::codec::Error>(e),
                        )),
                    Err(Error::Hypercore(crate::hypercore::Error::Corrupt)) => start < hi && (
                    self.intact() ==> exists|i: u64|
                        start <= i < hi && #[trigger] entry_read(self@, writer, i) is None),
                    Err(e) => start < hi && (e matches Error::Hypercore(h) && h is Storage
                        && !F::Store::sure()),
                }
            }),
    {
        let len: u64 = self.writer_len(writer);
        let hi: u64 = if end < len {
            end
        } else {
            len
        };
        let mut v: Vec<Entry> = Vec::new();
        let mut i: u64 = start;
        while i < hi
            invariant
                self.wf(),
                hi == end_within(self@, writer, end),
                hi <= self@.length_of(writer),
                start < hi ==> start <= i <= hi,
                start >= hi ==> i == start,
                v@.len() == i - start,
                self.intact() ==> forall|j: int|
                    0 <= j < v@.len() ==> entry_read(self@, writer, (start + j) as u64) == Some(
                        Ok::<EntryView, crate::codec::Error>((#[trigger] v@[j])@),
                    ),
            decreases hi - i,
        {
            match self.entry_at(writer, i) {
                Ok(Some(e)) => v.push(e),
                Ok(None) => {},
                Err(e) => return Err(e),
            }
            i = i + 1;
        }
        Ok(v)
    }
}

/// A room with nothing in it yet.
pub open spec fn opened<M>(
    seed: [u8; 32],
    indexers: Seq<WriterKey>,
    origin: Origin,
    public: PublicKey,
    stored: Contents,
    m: M,
) -> RoomView<M> {
    RoomView {
        key: public@,
        origin,
        local: Log {
            seed,
            public,
            tree: empty_tree(),
            contents: stored,
            present: Set::empty(),
            head: None,
            fork: 0,
            truncation: None,
            prologue: None,
        },
        remotes: Map::empty(),
        dag: DagView {
            graph: Map::empty(),
            voters: if indexers.len() == 0 {
                None
            } else {
                Some(keys_in_order(indexers.to_set()))
            },
            payloads: Map::empty(),
            pending: Seq::empty(),
        },
        folded: 0,
        settled: m,
        shown: m,
        queue: Seq::empty(),
        activity: 0,
    }
}

/// What is asked for on hearing that a peer has `length` blocks of a writer's log: those
/// that are missing here.
pub open spec fn asked<M>(v: RoomView<M>, from: PeerId, writer: WriterKey, length: u64) -> Seq<
    Outbound,
> {
    if writer != v.key && length > v.length_of(writer) {
        seq![
            Outbound {
                msg: SyncMessage::Want { writer, start: v.length_of(writer), end: length },
                to: Fanout::Peer(from),
            },
        ]
    } else {
        Seq::empty()
    }
}

/// How many blocks are served.
pub open spec fn served<M>(v: RoomView<M>, writer: WriterKey, start: u64, end: u64) -> int {
    let hi = if end < v.local.tree.length {
        end
    } else {
        v.local.tree.length
    };
    if writer == v.key && start < hi {
        hi - start
    } else {
        0
    }
}

/// Whether `x` is the replica `m` with one more block, which an intact store has kept, and
/// whole if it can.
pub open spec fn mirrored<F: StoreFactory, P: Projection>(
    was: Room<F, P>,
    now: Room<F, P>,
    m: Mirror,
    head: SignedHead,
    index: u64,
    bytes: Seq<u8>,
    x: Mirror,
) -> bool {
    &&& x == (Mirror { contents: x.contents, ..m.with_block(head, bytes) })
    &&& was.intact() ==> {
        &&& now.intact()
        &&& x.contents == m.contents.insert(index, x.contents[index])
        &&& F::Store::fits(bytes.len()) ==> x == m.with_block(head, bytes)
    }
}

/// What asking for blocks fails with: the store, and only where there are blocks to serve.
pub open spec fn serve_failure<F: StoreFactory, P: Projection>(
    room: Room<F, P>,
    writer: WriterKey,
    start: u64,
    end: u64,
    e: RoomError<F, P>,
) -> bool {
    let n = served(room@, writer, start, end);
    &&& n > 0
    &&& e matches Error::Hypercore(h) && if h is Corrupt {
        room.intact() ==> exists|i: u64|
            start <= i < start + n && #[trigger] room@.local.block(i) is None
    } else {
        h is Storage && !F::Store::sure()
    }
}

/// What taking in a block does. A block of the log that is written here is passed over.
/// One of another log is verified against a replica of that log, made if there is none; a
/// block that is not accepted changes nothing else. An accepted block is stored, its node
/// offered and those that waited offered again, the views brought up to date, and the
/// block passed on to the clients.
pub open spec fn block_outcome<F: StoreFactory, P: Projection>(
    was: Room<F, P>,
    now: Room<F, P>,
    writer: WriterKey,
    head: SignedHead,
    index: u64,
    bytes: Vec<u8>,
    p: Proof,
    r: Result<Vec<Outbound>, RoomError<F, P>>,
) -> bool {
    let x = now@.remotes[writer];
    let m = was@.replica(writer, x.public, was.stored(writer));
    let known = was@.with_replica(writer, m);
    let node = NodeId { key: writer, seq: index };
    match r {
        Ok(out) => if writer == was@.key {
            now == was && out@ == Seq::<Outbound>::empty()
        } else if !m.takes(head, index, bytes@, p) {
            &&& now.wf()
            &&& now.intact() == was.intact()
            &&& x.public@ == writer
            &&& now@ == known
            &&& out@ == Seq::<Outbound>::empty()
        } else {
            &&& now.wf()
            &&& x.public@ == writer
            &&& mirrored(was, now, m, head, index, bytes@, x)
            &&& parsed_entry(bytes@) matches Ok(e) && {
                &&& refusal::<P>(known.with_replica(writer, x).took(node, e)) is None
                &&& now@ == advanced::<P>(known.with_replica(writer, x).took(node, e))
            }
            &&& out@ == seq![
                Outbound {
                    msg: SyncMessage::Block { writer, head, index, bytes, proof: p },
                    to: Fanout::Clients,
                },
            ]
        },
        Err(Error::Projection(_)) => {
            &&& writer != was@.key
            &&& now.wf()
            &&& x.public@ == writer
            &&& m.takes(head, index, bytes@, p)
            &&& mirrored(was, now, m, head, index, bytes@, x)
            &&& parsed_entry(bytes@) matches Ok(e) && {
                &&& refusal::<P>(known.with_replica(writer, x).took(node, e)) is Some
                &&& now@ == advanced::<P>(known.with_replica(writer, x).took(node, e))
            }
        },
        Err(Error::Codec(e)) => {
            &&& writer != was@.key
            &&& now.wf()
            &&& x.public@ == writer
            &&& m.takes(head, index, bytes@, p)
            &&& mirrored(was, now, m, head, index, bytes@, x)
            &&& parsed_entry(bytes@) == Err::<EntryView, crate::codec::Error>(e)
            &&& now@ == known.with_replica(writer, x)
        },
        Err(Error::BadWriterKey) => {
            &&& writer != was@.key
            &&& now == was
            &&& !was@.remotes.contains_key(writer)
            &&& !ed25519_decodes(writer@)
        },
        Err(Error::Open) => {
            &&& writer != was@.key
            &&& now.wf()
            &&& now.intact() == was.intact()
            &&& !F::certain()
            &&& !was@.remotes.contains_key(writer)
            &&& ed25519_decodes(writer@)
            &&& now@ == was@
        },
        Err(Error::Hypercore(h)) => {
            &&& h is Storage
            &&& !F::Store::sure()
            &&& writer != was@.key
            &&& x.public@ == writer
            &&& m.takes(head, index, bytes@, p)
            &&& now.wf()
            &&& x == (Mirror { contents: x.contents, ..m })
            &&& was.intact() && now.intact() ==> x == m
            &&& now@ == was@.with_replica(writer, x)
        },
    }
}

/// Whether `now` is `was` with an operation written, whose block an intact store has kept,
/// and whole if it can; and the views brought up to date.
pub open spec fn has_written<F: StoreFactory, P: Projection>(
    was: Room<F, P>,
    now: Room<F, P>,
    op: Seq<u8>,
) -> bool {
    let v = now@;
    let w = advanced::<P>(was@.wrote(op));
    let data = entry_bytes(was@.next_entry(op));
    let i = was@.next_node().seq;
    &&& now.wf()
    &&& v == w.storing(v.local.contents)
    &&& was.intact() ==> {
        &&& now.intact()
        &&& v.local.contents == was@.local.contents.insert(i, v.local.contents[i])
        &&& F::Store::fits(data.len()) ==> v == w
        &&& F::Store::fits(data.len()) && was.unbroken() ==> now.unbroken()
    }
}

/// What writing an operation does. Where the store does not take the block, nothing but what
/// the store holds is changed; where it does not give it back, the operation is written.
pub open spec fn append_outcome<F: StoreFactory, P: Projection>(
    was: Room<F, P>,
    now: Room<F, P>,
    op: Seq<u8>,
    r: Result<Vec<Outbound>, RoomError<F, P>>,
) -> bool {
    let v = now@;
    let w = was@.wrote(op);
    match r {
        Ok(out) => {
            &&& has_written(was, now, op)
            &&& refusal::<P>(w) is None
            &&& out@.len() == 2
            &&& out@[0] == (Outbound {
                msg: SyncMessage::Head { writer: v.key, head: v.local.head->0 },
                to: Fanout::Gossip,
            })
            &&& hands_over(now, was@.next_node().seq, out@[1].msg@)
            &&& out@[1].to == Fanout::Clients
        },
        Err(Error::Projection(_)) => has_written(was, now, op) && refusal::<P>(w) is Some,
        Err(Error::Hypercore(h)) => if h is Corrupt {
            &&& !was.intact()
            &&& has_written(was, now, op)
            &&& refusal::<P>(w) is None
        } else {
            &&& h is Storage
            &&& !F::Store::sure()
            &&& {
                ||| unwritten(was, now)
                ||| has_written(was, now, op) && refusal::<P>(w) is None
            }
        },
        Err(_) => false,
    }
}

/// Whether nothing of a room has changed but what the store of the log that is written there
/// holds, and not that either where the stores are intact still.
pub open spec fn unwritten<F: StoreFactory, P: Projection>(
    was: Room<F, P>,
    now: Room<F, P>,
) -> bool {
    &&& now.wf()
    &&& now@ == was@.storing(now@.local.contents)
    &&& was.intact() && now.intact() ==> now@ == was@
}

/// What taking in a message does: one that says what a peer has is answered with a request
/// for what is missing here, a request with the blocks, and a block is taken in.
pub open spec fn inbound_outcome<F: StoreFactory, P: Projection>(
    was: Room<F, P>,
    now: Room<F, P>,
    from: PeerId,
    msg: SyncMessage,
    r: Result<Vec<Outbound>, RoomError<F, P>>,
) -> bool {
    match msg {
        SyncMessage::Head { writer, head } => {
            now == was && (r matches Ok(out) && out@ == asked(was@, from, writer, head.length))
        },
        SyncMessage::Have { writer, length } => {
            now == was && (r matches Ok(out) && out@ == asked(was@, from, writer, length))
        },
        SyncMessage::Want { writer, start, end } => {
            &&& now == was
            &&& match r {
                Ok(out) => {
                    &&& out@.len() == served(was@, writer, start, end)
                    &&& forall|j: int|
                        0 <= j < out@.len() ==> (#[trigger] out@[j]).to == Fanout::Peer(from)
                            && hands_over(was, (start + j) as u64, out@[j].msg@)
                },
                Err(e) => serve_failure::<F, P>(was, writer, start, end, e),
            }
        },
        SyncMessage::Block { writer, head, index, bytes, proof: p } => block_outcome::<F, P>(
            was,
            now,
            writer,
            head,
            index,
            bytes,
            p,
            r,
        ),
    }
}

proof fn lemma_seat_new<S: Store>(
    s: Seq<(WriterKey, Replica<Entry, EntryCodec, S>)>,
    e: (WriterKey, Replica<Entry, EntryCodec, S>),
)
    requires
        distinct(s),
        !hosts(s, e.0),
    ensures
        distinct(s.push(e)),
        mirrors(s.push(e)) == mirrors(s).insert(e.0, e.1@),
{
    let t = s.push(e);
    assert forall|i: int, j: int| 0 <= i < j < t.len() implies (#[trigger] t[i]).0 != (
    #[trigger] t[j]).0 by {
        if j == s.len() {
            assert(t[i] == s[i]);
        } else {
            assert(t[i] == s[i] && t[j] == s[j]);
        }
    }
    lemma_seat(t, s.len() as int);
    assert forall|w: WriterKey| #[trigger] mirrors(t).contains_key(w) == mirrors(s).insert(
        e.0,
        e.1@,
    ).contains_key(w) && (mirrors(t).contains_key(w) ==> mirrors(t)[w] == mirrors(s).insert(
        e.0,
        e.1@,
    )[w]) by {
        if hosts(s, w) {
            let i = seat(s, w);
            assert(t[i] == s[i]);
            lemma_seat(s, i);
            lemma_seat(t, i);
        }
        if hosts(t, w) && w != e.0 {
            let i = seat(t, w);
            assert(s[i] == t[i]);
        }
    }
    assert(mirrors(t) =~= mirrors(s).insert(e.0, e.1@));
}

proof fn lemma_seat_update<S: Store>(
    s: Seq<(WriterKey, Replica<Entry, EntryCodec, S>)>,
    i: int,
    e: (WriterKey, Replica<Entry, EntryCodec, S>),
)
    requires
        distinct(s),
        0 <= i < s.len(),
        e.0 == s[i].0,
    ensures
        distinct(s.update(i, e)),
        mirrors(s.update(i, e)) == mirrors(s).insert(e.0, e.1@),
{
    let t = s.update(i, e);
    assert forall|a: int, b: int| 0 <= a < b < t.len() implies (#[trigger] t[a]).0 != (
    #[trigger] t[b]).0 by {
        assert(t[a].0 == s[a].0 && t[b].0 == s[b].0);
    }
    lemma_seat(s, i);
    lemma_seat(t, i);
    assert forall|w: WriterKey| #[trigger] mirrors(t).contains_key(w) == mirrors(s).insert(
        e.0,
        e.1@,
    ).contains_key(w) && (mirrors(t).contains_key(w) ==> mirrors(t)[w] == mirrors(s).insert(
        e.0,
        e.1@,
    )[w]) by {
        if hosts(s, w) {
            let j = seat(s, w);
            assert(t[j].0 == s[j].0);
            lemma_seat(s, j);
            lemma_seat(t, j);
        }
        if hosts(t, w) {
            let j = seat(t, w);
            assert(t[j].0 == s[j].0);
            lemma_seat(s, j);
        }
    }
    assert(mirrors(t) =~= mirrors(s).insert(e.0, e.1@));
}

/// More nodes are no fewer.
proof fn lemma_more<M>(v: RoomView<M>, d: DagView)
    requires
        v.dag.graph.dom().finite(),
        d.graph.dom().finite(),
        forall|n: NodeId| v.dag.graph.contains_key(n) ==> #[trigger] d.graph.contains_key(n),
    ensures
        v.dag.graph.dom().len() <= d.graph.dom().len(),
{
    assert(v.dag.graph.dom().subset_of(d.graph.dom())) by {
        assert forall|n: NodeId| v.dag.graph.dom().contains(n) implies d.graph.dom().contains(n) by {
            assert(d.graph.contains_key(n));
        }
    }
    vstd::set_lib::lemma_len_subset(v.dag.graph.dom(), d.graph.dom());
}

/// A room stays coherent as another writer's node is offered.
proof fn lemma_offered<M>(v: RoomView<M>, node: NodeId, e: EntryView)
    requires
        v.coherent(),
        node.key != v.key,
        v.dag.graph.dom().finite(),
    ensures
        (RoomView { dag: v.dag.offered(node, e), ..v }).coherent(),
{
    let d = v.dag.offered(node, e);
    assert(v.dag.with(node, e).graph.dom() =~= v.dag.graph.dom().insert(node));
    assert(d.graph.dom().finite());
    lemma_more(v, d);
    assert forall|s: u64| (#[trigger] d.graph.contains_key(NodeId { key: v.key, seq: s })) == (s
        < v.local.tree.length) by {
        assert(v.dag.graph.contains_key(NodeId { key: v.key, seq: s }) == (s
            < v.local.tree.length));
    }
}

/// A room stays coherent as those that wait are offered again.
proof fn lemma_drained<M>(v: RoomView<M>)
    requires
        v.coherent(),
        v.dag.graph.dom().finite(),
        v.dag.drained().graph.dom().finite(),
    ensures
        (RoomView { dag: v.dag.drained(), ..v }).coherent(),
{
    let d = v.dag.drained();
    lemma_drained_keeps(v.dag, v.key);
    lemma_more(v, d);
    assert forall|s: u64| (#[trigger] d.graph.contains_key(NodeId { key: v.key, seq: s })) == (s
        < v.local.tree.length) by {
        assert(v.dag.graph.contains_key(NodeId { key: v.key, seq: s }) == (s
            < v.local.tree.length));
    }
}

/// The length of a log is known from its nodes.
pub proof fn lemma_log_is(g: Deps, key: WriterKey, n: u64)
    requires
        is_log_len(g, key, n),
    ensures
        log_len(g, key) == n,
{
    let m = log_len(g, key);
    assert(is_log_len(g, key, m));
    if m < n {
        assert(g.contains_key(NodeId { key, seq: m }));
    } else if n < m {
        assert(g.contains_key(NodeId { key, seq: n }));
    }
}

/// A room is coherent whatever the store of the log that is written there holds.
proof fn lemma_storing<M>(v: RoomView<M>, c: Contents)
    requires
        v.coherent(),
    ensures
        v.storing(c).coherent(),
{
    let w = v.storing(c);
    let blocks = choose|blocks: Seq<Seq<u8>>| #[trigger] holds(v.local.tree, blocks);
    assert(holds(w.local.tree, blocks));
    assert forall|i: u64| i < w.local.tree.length implies #[trigger] w.local.has(i) by {
        assert(v.local.has(i));
    }
}

/// What has room can be appended.
pub proof fn lemma_has_room<M>(v: RoomView<M>, op: Seq<u8>)
    requires
        grounded(v.local),
        v.has_room(op),
    ensures
        ({
            let data = entry_bytes(v.next_entry(op));
            &&& v.local.tree.can_append(data)
            &&& exists|blocks: Seq<Seq<u8>>| #[trigger] holds(v.local.tree.appended(data), blocks)
            &&& whole(v.local) ==> room(
                stored_blocks(v.local.contents, v.local.tree.length as nat),
                data,
            )
        }),
{
    let t = v.local.tree;
    let data = entry_bytes(v.next_entry(op));
    let blocks = choose|blocks: Seq<Seq<u8>>| #[trigger] holds(t, blocks);
    law_weight(t, blocks);
    crate::merkle::laws::law_append(t, blocks, data);
    assert(holds(t.appended(data), blocks.push(data)));
    if whole(v.local) {
        law_weight(t, stored_blocks(v.local.contents, t.length as nat));
    }
}

/// A room stays coherent as an operation is written.
pub proof fn lemma_wrote<M>(v: RoomView<M>, op: Seq<u8>)
    requires
        v.coherent(),
        v.dag.graph.dom().finite(),
        v.has_room(op),
    ensures
        v.local.tree.can_append(entry_bytes(v.next_entry(op))),
        v.wrote(op).coherent(),
{
    let w = v.wrote(op);
    lemma_has_room(v, op);
    assert forall|i: u64| i < w.local.tree.length implies #[trigger] w.local.has(i) by {
        if i < v.local.tree.length {
            assert(v.local.has(i));
        }
    }
    let n = v.next_node();
    assert forall|s: u64| (#[trigger] w.dag.graph.contains_key(NodeId { key: v.key, seq: s })) == (s
        < w.local.tree.length) by {
        assert(v.dag.graph.contains_key(NodeId { key: v.key, seq: s }) == (s
            < v.local.tree.length));
    }
    assert(w.dag.graph.dom() =~= v.dag.graph.dom().insert(n));
}

/// A log that has all its blocks has them all once one more is written.
pub proof fn lemma_wrote_whole<M>(v: RoomView<M>, op: Seq<u8>)
    requires
        whole(v.local),
        v.has_room(op),
    ensures
        whole(v.wrote(op).local),
{
    let w = v.wrote(op);
    let data = entry_bytes(v.next_entry(op));
    let blocks = stored_blocks(v.local.contents, v.local.tree.length as nat);
    lemma_whole(v.local);
    lemma_has_room(v, op);
    law_append(v.local, blocks, data);
    assert(stored_blocks(w.local.contents, w.local.tree.length as nat) =~= blocks.push(data));
    assert forall|i: u64| i < w.local.tree.length implies #[trigger] w.local.has(i) by {
        if i < v.local.tree.length {
            assert(v.local.has(i));
        }
    }
}

} // verus!
