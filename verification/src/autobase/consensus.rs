//! Which prefix of the order a majority of the indexers has confirmed.
//!
//! Everything here is a function of the graph, the voters and a clock `removed` that
//! says how much of each writer has already been confirmed out of the prefix.
use vstd::prelude::*;
use super::graph::{
    delivered, lemma_antisymmetric, lemma_log_len_meaning, lemma_position, lemma_reaches_known,
    lemma_reaches_self, lemma_reaches_transitive, lemma_seq_bound, log_len, reaches, seen_len,
    sees, topo, Deps,
};
use super::ids::{
    has_id, has_key, in_order, insert_id, lemma_in_order, same_id, sorted_ids, NodeId, WriterKey,
};
use super::linearizer::{includes_in, length_in, pairs_map, pairs_sorted, raised, Clock};
use super::{flagged, Linearizer};
use crate::bytes::same_32;

verus! {

/// How an indexer's view relates to a confirmation target.
#[derive(Clone, Copy, PartialEq, Eq, Debug)]
pub enum Confirm {
    /// No strictly-newer node of this indexer.
    Unseen,
    /// A strictly-newer node that does not see a majority of the acks.
    Newer,
    /// A strictly-newer node that sees a majority of the acks.
    Acked,
}

/// What a writer has confirmed, per writer.
pub type Removed = Map<WriterKey, u64>;

/// More than half of the voters.
pub open spec fn majority_of(v: Seq<WriterKey>) -> nat {
    v.len() / 2 + 1
}

/// The larger of two lengths.
pub open spec fn larger(a: u64, b: u64) -> u64 {
    if a >= b {
        a
    } else {
        b
    }
}

/// The latest node of `voter` that `node` saw besides itself, unless it is confirmed
/// already.
pub open spec fn merge_head(g: Deps, node: NodeId, removed: Removed, voter: WriterKey) -> Option<
    NodeId,
> {
    let seq = seen_len(g, node, voter) - 1 - (if voter == node.key {
        1int
    } else {
        0int
    });
    let head = NodeId { key: voter, seq: seq as u64 };
    if seq >= 0 && g.contains_key(head) && !includes_in(removed, voter, seq + 1) {
        Some(head)
    } else {
        None
    }
}

/// The [`merge_head`] of each voter that has one.
pub open spec fn merge_heads(g: Deps, v: Seq<WriterKey>, node: NodeId, removed: Removed) -> Seq<
    NodeId,
>
    decreases v.len(),
{
    if v.len() == 0 {
        Seq::empty()
    } else {
        let rest = merge_heads(g, v.drop_last(), node, removed);
        match merge_head(g, node, removed, v.last()) {
            Some(h) => rest.push(h),
            None => rest,
        }
    }
}

/// Whether no other of `heads` sees the one at `i`.
pub open spec fn on_top(g: Deps, heads: Seq<NodeId>, i: int) -> bool {
    forall|j: int|
        0 <= j < heads.len() && #[trigger] heads[j] != heads[i] ==> !sees(g, heads[j], heads[i])
}

/// Whether a voter's node joins more than one independent branch of voters.
pub open spec fn merges(g: Deps, v: Seq<WriterKey>, node: NodeId, removed: Removed) -> bool {
    let heads = merge_heads(g, v, node, removed);
    v.contains(node.key) && exists|i: int, j: int|
        0 <= i < j < heads.len() && #[trigger] on_top(g, heads, i) && #[trigger] on_top(g, heads, j)
}

/// The oldest unconfirmed node of each voter that has one.
pub open spec fn candidates(g: Deps, v: Seq<WriterKey>, removed: Removed) -> Seq<NodeId>
    decreases v.len(),
{
    if v.len() == 0 {
        Seq::empty()
    } else {
        let rest = candidates(g, v.drop_last(), removed);
        let head = NodeId { key: v.last(), seq: length_in(removed, v.last()) };
        if g.contains_key(head) {
            rest.push(head)
        } else {
            rest
        }
    }
}

/// Whether `c` sees no other of `all`.
pub open spec fn at_bottom(g: Deps, all: Seq<NodeId>, c: NodeId) -> bool {
    forall|j: int| 0 <= j < all.len() && #[trigger] all[j] != c ==> !sees(g, c, all[j])
}

/// Those of `s` that see no other of `all`.
pub open spec fn bottoms(g: Deps, all: Seq<NodeId>, s: Seq<NodeId>) -> Seq<NodeId>
    decreases s.len(),
{
    if s.len() == 0 {
        Seq::empty()
    } else {
        let rest = bottoms(g, all, s.drop_last());
        if at_bottom(g, all, s.last()) {
            rest.push(s.last())
        } else {
            rest
        }
    }
}

/// The indexer tails: the oldest unconfirmed node of each voter, reduced to those that
/// see none of the others.
pub open spec fn tails_of(g: Deps, v: Seq<WriterKey>, removed: Removed) -> Seq<NodeId> {
    bottoms(g, candidates(g, v, removed), candidates(g, v, removed))
}

/// Whether `parent` sees `object`, and the first node of each writer that `parent` saw
/// beyond `object` and beyond what is confirmed sees `object` too.
pub open spec fn newer(g: Deps, object: NodeId, parent: NodeId, removed: Removed) -> bool {
    &&& sees(g, parent, object)
    &&& forall|key: WriterKey|
        ({
            let length = larger(seen_len(g, object, key), length_in(removed, key));
            #[trigger] seen_len(g, parent, key) > length ==> sees(
                g,
                NodeId { key, seq: length },
                object,
            )
        })
}

/// The node by which `voter` acknowledges `target`: the first that `target` did not
/// see and that is not confirmed, if it is strictly newer than `target`.
pub open spec fn ack_of(g: Deps, target: NodeId, removed: Removed, voter: WriterKey) -> Option<
    NodeId,
> {
    let node = NodeId {
        key: voter,
        seq: larger(seen_len(g, target, voter), length_in(removed, voter)),
    };
    if voter != target.key && g.contains_key(node) && newer(g, target, node, removed) {
        Some(node)
    } else {
        None
    }
}

/// The acks of the voters in `v` other than the target's own writer.
pub open spec fn acks_from(g: Deps, v: Seq<WriterKey>, target: NodeId, removed: Removed) -> Seq<
    NodeId,
>
    decreases v.len(),
{
    if v.len() == 0 {
        Seq::empty()
    } else {
        let rest = acks_from(g, v.drop_last(), target, removed);
        match ack_of(g, target, removed, v.last()) {
            Some(n) => rest.push(n),
            None => rest,
        }
    }
}

/// The acks of `target`: itself if its writer is a voter, then those of the others.
pub open spec fn acks_of(g: Deps, v: Seq<WriterKey>, target: NodeId, removed: Removed) -> Seq<
    NodeId,
> {
    (if v.contains(target.key) {
        seq![target]
    } else {
        Seq::empty()
    }) + acks_from(g, v, target, removed)
}

/// How many of `nodes` the node `head` sees.
pub open spec fn count_seen(g: Deps, head: NodeId, nodes: Seq<NodeId>) -> nat
    decreases nodes.len(),
{
    if nodes.len() == 0 {
        0
    } else {
        count_seen(g, head, nodes.drop_last()) + if sees(g, head, nodes.last()) {
            1nat
        } else {
            0
        }
    }
}

/// Going down a voter's log from `i`: `Newer` or `Acked` at the first strictly newer
/// node, where only the first node looked at may see less than a majority of the acks.
pub open spec fn confirm_from(
    g: Deps,
    v: Seq<WriterKey>,
    voter: WriterKey,
    target: NodeId,
    acks: Seq<NodeId>,
    removed: Removed,
    i: int,
    first: bool,
) -> Confirm
    decreases i + 1,
{
    let head = NodeId { key: voter, seq: i as u64 };
    let enough = count_seen(g, head, acks) >= majority_of(v);
    if i < 0 || !g.contains_key(head) || (!first && !enough) {
        Confirm::Unseen
    } else if !newer(g, target, head, removed) {
        confirm_from(g, v, voter, target, acks, removed, i - 1, false)
    } else if enough {
        Confirm::Acked
    } else {
        Confirm::Newer
    }
}

/// How `voter`, by its nodes below `length`, relates to confirming `target`.
pub open spec fn confirm_of(
    g: Deps,
    v: Seq<WriterKey>,
    voter: WriterKey,
    target: NodeId,
    acks: Seq<NodeId>,
    length: u64,
    removed: Removed,
) -> Confirm {
    if length_in(removed, voter) >= length {
        Confirm::Unseen
    } else {
        confirm_from(g, v, voter, target, acks, removed, length - 1, true)
    }
}

/// How much of `voter` counts: what `parent` saw besides itself, or all there is.
pub open spec fn scope(g: Deps, parent: Option<NodeId>, voter: WriterKey) -> u64 {
    match parent {
        Some(p) => if p.key == voter {
            p.seq
        } else {
            seen_len(g, p, voter)
        },
        None => log_len(g, voter),
    }
}

/// The voters of `s` that confirm `target` as acked.
pub open spec fn acked_by(
    g: Deps,
    v: Seq<WriterKey>,
    s: Seq<WriterKey>,
    target: NodeId,
    parent: Option<NodeId>,
    acks: Seq<NodeId>,
    removed: Removed,
) -> Seq<WriterKey>
    decreases s.len(),
{
    if s.len() == 0 {
        Seq::empty()
    } else {
        let rest = acked_by(g, v, s.drop_last(), target, parent, acks, removed);
        if confirm_of(g, v, s.last(), target, acks, scope(g, parent, s.last()), removed)
            == Confirm::Acked {
            rest.push(s.last())
        } else {
            rest
        }
    }
}

/// Whether every voter of `s` has a strictly newer node.
pub open spec fn all_newer(
    g: Deps,
    v: Seq<WriterKey>,
    s: Seq<WriterKey>,
    target: NodeId,
    parent: Option<NodeId>,
    acks: Seq<NodeId>,
    removed: Removed,
) -> bool {
    forall|k: int|
        0 <= k < s.len() ==> confirm_of(
            g,
            v,
            #[trigger] s[k],
            target,
            acks,
            scope(g, parent, s[k]),
            removed,
        ) != Confirm::Unseen
}

/// Whether a voter that does not confirm yet still could: `target` already saw all that
/// `parent` saw of it, or its last node there is not known to be other than strictly
/// newer.
pub open spec fn hopeful(
    g: Deps,
    target: NodeId,
    parent: NodeId,
    removed: Removed,
    voter: WriterKey,
) -> bool {
    let length = seen_len(g, parent, voter);
    let head = NodeId { key: voter, seq: (length - 1) as u64 };
    length == 0 || seen_len(g, target, voter) >= length || !g.contains_key(head) || includes_in(
        removed,
        voter,
        length as int,
    ) || newer(g, target, head, removed)
}

/// How many voters of `s` outside `confs` are hopeful.
pub open spec fn count_hopeful(
    g: Deps,
    s: Seq<WriterKey>,
    target: NodeId,
    parent: NodeId,
    confs: Seq<WriterKey>,
    removed: Removed,
) -> nat
    decreases s.len(),
{
    if s.len() == 0 {
        0
    } else {
        count_hopeful(g, s.drop_last(), target, parent, confs, removed) + if !confs.contains(
            s.last(),
        ) && hopeful(g, target, parent, removed, s.last()) {
            1nat
        } else {
            0
        }
    }
}

/// Whether `target` can still be confirmed below `parent`: a majority of its acks is
/// seen there, and the voters that confirm it with those that still could make a
/// majority.
pub open spec fn confirmable(
    g: Deps,
    v: Seq<WriterKey>,
    target: NodeId,
    parent: NodeId,
    acks: Seq<NodeId>,
    confs: Seq<WriterKey>,
    removed: Removed,
) -> bool {
    let hope = count_hopeful(g, v, target, parent, confs, removed);
    &&& count_seen(g, parent, acks) >= majority_of(v)
    &&& hope > 0
    &&& confs.len() + hope >= majority_of(v)
}

/// Whether `target` is confirmed: it has a majority of acks, and either a majority of
/// voters confirm it as acked, or none of them is without a strictly newer node (at
/// the top), or it is still confirmable (below a parent).
pub open spec fn confirmed(
    g: Deps,
    v: Seq<WriterKey>,
    target: NodeId,
    parent: Option<NodeId>,
    removed: Removed,
) -> bool {
    let acks = acks_of(g, v, target, removed);
    let confs = acked_by(g, v, v, target, parent, acks, removed);
    &&& acks.len() >= majority_of(v)
    &&& confs.len() >= majority_of(v) || match parent {
        Some(p) => confirmable(g, v, target, p, acks, confs, removed),
        None => all_newer(g, v, v, target, parent, acks, removed),
    }
}

/// The unconfirmed merge nodes of the voters.
pub open spec fn merge_set(g: Deps, v: Seq<WriterKey>, removed: Removed) -> Set<NodeId> {
    Set::new(
        |n: NodeId|
            g.contains_key(n) && v.contains(n.key) && !includes_in(removed, n.key, n.seq + 1)
                && merges(g, v, n, removed),
    )
}

/// Those of `tails` that `node` sees.
pub open spec fn seen_of(g: Deps, node: NodeId, tails: Seq<NodeId>) -> Seq<NodeId>
    decreases tails.len(),
{
    if tails.len() == 0 {
        Seq::empty()
    } else {
        let rest = seen_of(g, node, tails.drop_last());
        if sees(g, node, tails.last()) {
            rest.push(tails.last())
        } else {
            rest
        }
    }
}

/// `all` with those of `more` that `node` sees, other than itself, and that are not
/// there yet.
pub open spec fn with_seen(g: Deps, node: NodeId, all: Seq<NodeId>, more: Seq<NodeId>) -> Seq<NodeId>
    decreases more.len(),
{
    if more.len() == 0 {
        all
    } else {
        let rest = with_seen(g, node, all, more.drop_last());
        if more.last() != node && sees(g, node, more.last()) && !rest.contains(more.last()) {
            rest.push(more.last())
        } else {
            rest
        }
    }
}

/// The tails that `node` sees, then the other merge nodes that it sees.
pub open spec fn arms(
    g: Deps,
    v: Seq<WriterKey>,
    node: NodeId,
    tails: Seq<NodeId>,
    removed: Removed,
) -> Seq<NodeId> {
    with_seen(g, node, seen_of(g, node, tails), in_order(merge_set(g, v, removed)))
}

/// The first of `s`, from `k` on, that is confirmed below `parent`.
pub open spec fn first_confirmed(
    g: Deps,
    v: Seq<WriterKey>,
    s: Seq<NodeId>,
    k: int,
    parent: Option<NodeId>,
    removed: Removed,
) -> Option<NodeId>
    decreases s.len() - k,
{
    if k < 0 || k >= s.len() {
        None
    } else if confirmed(g, v, s[k], parent, removed) {
        Some(s[k])
    } else {
        first_confirmed(g, v, s, k + 1, parent, removed)
    }
}

/// `removed` with each of `nodes` confirmed.
pub open spec fn raised_all(removed: Removed, nodes: Seq<NodeId>) -> Removed
    decreases nodes.len(),
{
    if nodes.len() == 0 {
        removed
    } else {
        let n = nodes.last();
        raised(raised_all(removed, nodes.drop_last()), n.key, (n.seq + 1) as u64)
    }
}

/// What `n` sees.
pub open spec fn past(g: Deps, n: NodeId) -> Set<NodeId> {
    Set::new(|m: NodeId| reaches(g, n, m))
}

/// What a confirmed merge node resolves to: going down into whichever arm is confirmed
/// below the node reached, the tail it ends on; or, where no arm is confirmed, every
/// tail below it.
pub open spec fn resolved(
    g: Deps,
    v: Seq<WriterKey>,
    node: NodeId,
    tails: Seq<NodeId>,
    removed: Removed,
) -> Seq<NodeId>
    decreases past(g, node).len(),
{
    if tails.contains(node) {
        seq![node]
    } else {
        match first_confirmed(g, v, arms(g, v, node, tails, removed), 0, Some(node), removed) {
            Some(t) => if past(g, t).len() < past(g, node).len() {
                resolved(g, v, t, tails, removed)
            } else {
                Seq::empty()
            },
            None => seen_of(g, node, tails),
        }
    }
}

/// The next nodes to confirm: the first confirmed tail, or what the first confirmed
/// merge node resolves to.
pub open spec fn shift(g: Deps, v: Seq<WriterKey>, removed: Removed) -> Seq<NodeId> {
    let tails = tails_of(g, v, removed);
    match first_confirmed(g, v, tails, 0, None, removed) {
        Some(t) => seq![t],
        None => match first_confirmed(
            g,
            v,
            in_order(merge_set(g, v, removed)),
            0,
            None,
            removed,
        ) {
            Some(m) => resolved(g, v, m, tails, removed),
            None => Seq::empty(),
        },
    }
}

/// How many nodes of the voters are not confirmed.
pub open spec fn pending(g: Deps, v: Seq<WriterKey>, removed: Removed) -> nat
    decreases v.len(),
{
    if v.len() == 0 {
        0
    } else {
        let n = log_len(g, v.last());
        let m = length_in(removed, v.last());
        pending(g, v.drop_last(), removed) + if m < n {
            (n - m) as nat
        } else {
            0
        }
    }
}

/// The confirmed voters' nodes, in the order they are confirmed, from `removed` on.
pub open spec fn prefix_from(g: Deps, v: Seq<WriterKey>, removed: Removed) -> Seq<NodeId>
    decreases pending(g, v, removed),
{
    let batch = shift(g, v, removed);
    let next = raised_all(removed, batch);
    if batch.len() == 0 || pending(g, v, next) >= pending(g, v, removed) {
        Seq::empty()
    } else {
        batch + prefix_from(g, v, next)
    }
}

/// What the nodes of `batch` see that is not in `emitted`.
pub open spec fn newly_covered(g: Deps, batch: Seq<NodeId>, emitted: Set<NodeId>) -> Set<NodeId> {
    Set::new(
        |n: NodeId|
            !emitted.contains(n) && exists|k: int|
                0 <= k < batch.len() && reaches(g, #[trigger] batch[k], n),
    )
}

/// The confirmed view from `removed` and `emitted` on: each batch of confirmed nodes
/// with what it newly covers, in causal order with the least id first.
pub open spec fn view_from(
    g: Deps,
    v: Seq<WriterKey>,
    removed: Removed,
    emitted: Set<NodeId>,
) -> Seq<NodeId>
    decreases pending(g, v, removed),
{
    let batch = shift(g, v, removed);
    let next = raised_all(removed, batch);
    if batch.len() == 0 || pending(g, v, next) >= pending(g, v, removed) {
        Seq::empty()
    } else {
        let fresh = newly_covered(g, batch, emitted);
        topo(g, fresh) + view_from(g, v, next, emitted.union(fresh))
    }
}

/// The confirmed view of a graph: empty when quorum is disabled.
pub open spec fn confirmed_view_of(g: Deps, voters: Option<Seq<WriterKey>>) -> Seq<NodeId> {
    match voters {
        Some(v) => view_from(g, v, Map::empty(), Set::empty()),
        None => Seq::empty(),
    }
}

/// The linearization of a graph: the confirmed view, then the remaining nodes in
/// causal order with the least id first.
pub open spec fn order_of(g: Deps, voters: Option<Seq<WriterKey>>) -> Seq<NodeId> {
    let view = confirmed_view_of(g, voters);
    view + topo(g, g.dom().difference(view.to_set()))
}

impl Linearizer {
    /// Whether indexer node `node` is a merge: it causally joins more than one
    /// independent indexer branch.
    pub fn is_merge(&self, node: &NodeId, removed: &Clock) -> (r: bool)
        requires
            self.wf(),
            removed.wf(),
        ensures
            r == (self.voters() matches Some(v) && merges(self.graph(), v, *node, removed@)),
    {
        let ghost g = self.graph();
        match &self.indexers {
            None => false,
            Some(v) => {
                if !has_key(v, &node.key) {
                    return false;
                }
                let clk: Clock = self.clock(node);
                let mut heads: Vec<NodeId> = Vec::new();
                let mut k: usize = 0;
                assert(v@.take(0) =~= Seq::<WriterKey>::empty());
                while k < v.len()
                    invariant
                        self.wf(),
                        removed.wf(),
                        clk.wf(),
                        g == self.graph(),
                        k <= v.len(),
                        forall|key: WriterKey| length_in(clk@, key) == #[trigger] seen_len(
                            g,
                            *node,
                            key,
                        ),
                        heads@ == merge_heads(g, v@.take(k as int), *node, removed@),
                    decreases v.len() - k,
                {
                    let voter: WriterKey = v[k];
                    let own: u64 = if same_32(&voter, &node.key) {
                        1
                    } else {
                        0
                    };
                    let seen: u64 = clk.get(&voter);
                    proof {
                        assert(v@.take(k + 1).drop_last() =~= v@.take(k as int));
                        assert(seen == seen_len(g, *node, voter));
                    }
                    if seen > own {
                        let seq: u64 = seen - 1 - own;
                        let head: NodeId = NodeId::new(voter, seq);
                        if self.contains(&head) && !removed.includes(&voter, seq + 1) {
                            heads.push(head);
                        }
                    }
                    k = k + 1;
                }
                assert(v@.take(k as int) =~= v@);
                let mut found: bool = false;
                let ghost mut first: int = -1;
                let mut i: usize = 0;
                while i < heads.len()
                    invariant
                        self.wf(),
                        g == self.graph(),
                        heads@ == merge_heads(g, v@, *node, removed@),
                        v@.contains(node.key),
                        self.voters() == Some(v@),
                        i <= heads.len(),
                        found ==> 0 <= first < i && on_top(g, heads@, first) && forall|j: int|
                            0 <= j < i && j != first ==> !#[trigger] on_top(g, heads@, j),
                        !found ==> forall|j: int| 0 <= j < i ==> !#[trigger] on_top(g, heads@, j),
                    decreases heads.len() - i,
                {
                    let top: bool = self.is_on_top(&heads, i);
                    if top {
                        if found {
                            assert(on_top(g, heads@, first) && on_top(g, heads@, i as int));
                            return true;
                        }
                        found = true;
                        proof {
                            first = i as int;
                        }
                    }
                    i = i + 1;
                }
                false
            },
        }
    }

    /// [`on_top`], decided.
    fn is_on_top(&self, heads: &Vec<NodeId>, i: usize) -> (r: bool)
        requires
            self.wf(),
            i < heads@.len(),
        ensures
            r == on_top(self.graph(), heads@, i as int),
    {
        let mut j: usize = 0;
        while j < heads.len()
            invariant
                self.wf(),
                i < heads@.len(),
                j <= heads.len(),
                forall|q: int|
                    0 <= q < j && #[trigger] heads@[q] != heads@[i as int] ==> !sees(
                        self.graph(),
                        heads@[q],
                        heads@[i as int],
                    ),
            decreases heads.len() - j,
        {
            if !same_id(&heads[j], &heads[i]) && self.sees(&heads[j], &heads[i]) {
                return false;
            }
            j = j + 1;
        }
        true
    }

    /// The indexer tails: the oldest not-yet-confirmed node of each indexer, reduced to
    /// those that see none of the others, in ascending order.
    pub fn indexer_tails(&self, removed: &Clock) -> (out: Vec<NodeId>)
        requires
            self.wf(),
            removed.wf(),
        ensures
            out@ == match self.voters() {
                Some(v) => tails_of(self.graph(), v, removed@),
                None => Seq::empty(),
            },
    {
        let ghost g = self.graph();
        let mut all: Vec<NodeId> = Vec::new();
        match &self.indexers {
            None => all,
            Some(v) => {
                let mut k: usize = 0;
                assert(v@.take(0) =~= Seq::<WriterKey>::empty());
                while k < v.len()
                    invariant
                        self.wf(),
                        removed.wf(),
                        g == self.graph(),
                        k <= v.len(),
                        all@ == candidates(g, v@.take(k as int), removed@),
                    decreases v.len() - k,
                {
                    proof {
                        assert(v@.take(k + 1).drop_last() =~= v@.take(k as int));
                    }
                    let head: NodeId = NodeId::new(v[k], removed.get(&v[k]));
                    if self.contains(&head) {
                        all.push(head);
                    }
                    k = k + 1;
                }
                assert(v@.take(k as int) =~= v@);
                let mut out: Vec<NodeId> = Vec::new();
                let mut i: usize = 0;
                assert(all@.take(0) =~= Seq::<NodeId>::empty());
                while i < all.len()
                    invariant
                        self.wf(),
                        g == self.graph(),
                        i <= all.len(),
                        out@ == bottoms(g, all@, all@.take(i as int)),
                    decreases all.len() - i,
                {
                    proof {
                        assert(all@.take(i + 1).drop_last() =~= all@.take(i as int));
                    }
                    if self.is_at_bottom(&all, i) {
                        out.push(all[i]);
                    }
                    i = i + 1;
                }
                assert(all@.take(i as int) =~= all@);
                out
            },
        }
    }

    /// [`at_bottom`], decided.
    fn is_at_bottom(&self, all: &Vec<NodeId>, i: usize) -> (r: bool)
        requires
            self.wf(),
            i < all@.len(),
        ensures
            r == at_bottom(self.graph(), all@, all@[i as int]),
    {
        let mut j: usize = 0;
        while j < all.len()
            invariant
                self.wf(),
                i < all@.len(),
                j <= all.len(),
                forall|q: int|
                    0 <= q < j && #[trigger] all@[q] != all@[i as int] ==> !sees(
                        self.graph(),
                        all@[i as int],
                        all@[q],
                    ),
            decreases all.len() - j,
        {
            if !same_id(&all[j], &all[i]) && self.sees(&all[i], &all[j]) {
                return false;
            }
            j = j + 1;
        }
        true
    }

    /// Whether `parent` is strictly newer than `object`: it sees `object`, and every
    /// writer it saw beyond `object` it saw only through nodes that themselves see
    /// `object`. This keeps a vote from being counted twice across a fork.
    pub fn strictly_newer(&self, object: &NodeId, parent: &NodeId, removed: &Clock) -> (r: bool)
        requires
            self.wf(),
            removed.wf(),
        ensures
            r == newer(self.graph(), *object, *parent, removed@),
    {
        let ghost g = self.graph();
        if !self.sees(parent, object) {
            return false;
        }
        let pclk: Clock = self.clock(parent);
        let oclk: Clock = self.clock(object);
        let pairs: Vec<(WriterKey, u64)> = pclk.iter();
        let mut k: usize = 0;
        proof {
            super::linearizer::lemma_pairs(pairs@);
        }
        while k < pairs.len()
            invariant
                self.wf(),
                removed.wf(),
                oclk.wf(),
                g == self.graph(),
                k <= pairs.len(),
                pairs_sorted(pairs@),
                pairs_map(pairs@) == pclk@,
                forall|key: WriterKey| length_in(pclk@, key) == #[trigger] seen_len(
                    g,
                    *parent,
                    key,
                ),
                forall|key: WriterKey| length_in(oclk@, key) == #[trigger] seen_len(
                    g,
                    *object,
                    key,
                ),
                forall|j: int|
                    0 <= j < k ==> ({
                        let key = (#[trigger] pairs@[j]).0;
                        let length = larger(seen_len(g, *object, key), length_in(removed@, key));
                        seen_len(g, *parent, key) > length ==> sees(
                            g,
                            NodeId { key, seq: length },
                            *object,
                        )
                    }),
            decreases pairs.len() - k,
        {
            let (key, latest): (WriterKey, u64) = pairs[k];
            let a: u64 = oclk.get(&key);
            let b: u64 = removed.get(&key);
            let length: u64 = if a >= b {
                a
            } else {
                b
            };
            proof {
                super::linearizer::lemma_pairs(pairs@);
                assert(pairs@[k as int].0 == key);
                assert(seen_len(g, *parent, key) == latest);
                assert(seen_len(g, *object, key) == a);
            }
            if latest > length {
                let next: NodeId = NodeId::new(key, length);
                if !self.sees(&next, object) {
                    return false;
                }
            }
            k = k + 1;
        }
        proof {
            assert forall|key: WriterKey|
                ({
                    let length = larger(seen_len(g, *object, key), length_in(removed@, key));
                    #[trigger] seen_len(g, *parent, key) > length ==> sees(
                        g,
                        NodeId { key, seq: length },
                        *object,
                    )
                }) by {
                super::linearizer::lemma_pairs(pairs@);
                if seen_len(g, *parent, key) > 0 {
                    assert(pairs_map(pairs@).contains_key(key));
                    let j = choose|j: int| 0 <= j < pairs@.len() && pairs@[j].0 == key;
                    assert(pairs@[j].0 == key);
                }
            }
        }
        true
    }

    /// The acks of `target`: the indexer nodes that vote for it, `target` itself if its
    /// writer is an indexer first.
    pub fn acks(&self, target: &NodeId, removed: &Clock) -> (out: Vec<NodeId>)
        requires
            self.wf(),
            removed.wf(),
        ensures
            out@ == match self.voters() {
                Some(v) => acks_of(self.graph(), v, *target, removed@),
                None => Seq::empty(),
            },
    {
        let ghost g = self.graph();
        let mut out: Vec<NodeId> = Vec::new();
        match &self.indexers {
            None => out,
            Some(v) => {
                if has_key(v, &target.key) {
                    out.push(*target);
                }
                let ghost own = out@;
                let tclk: Clock = self.clock(target);
                let mut k: usize = 0;
                proof {
                    assert(v@.take(0) =~= Seq::<WriterKey>::empty());
                    assert(own =~= own + Seq::<NodeId>::empty());
                }
                while k < v.len()
                    invariant
                        self.wf(),
                        removed.wf(),
                        tclk.wf(),
                        g == self.graph(),
                        k <= v.len(),
                        forall|key: WriterKey| length_in(tclk@, key) == #[trigger] seen_len(
                            g,
                            *target,
                            key,
                        ),
                        out@ == own + acks_from(g, v@.take(k as int), *target, removed@),
                    decreases v.len() - k,
                {
                    let voter: WriterKey = v[k];
                    let a: u64 = tclk.get(&voter);
                    let b: u64 = removed.get(&voter);
                    let next: u64 = if a >= b {
                        a
                    } else {
                        b
                    };
                    let node: NodeId = NodeId::new(voter, next);
                    let ghost before = out@;
                    proof {
                        assert(v@.take(k + 1).drop_last() =~= v@.take(k as int));
                        assert(a == seen_len(g, *target, voter));
                    }
                    if !same_32(&voter, &target.key) && self.contains(&node)
                        && self.strictly_newer(target, &node, removed) {
                        out.push(node);
                    }
                    k = k + 1;
                    assert(out@ =~= own + acks_from(g, v@.take(k as int), *target, removed@));
                }
                assert(v@.take(k as int) =~= v@);
                out
            },
        }
    }

    /// How many of `nodes` the node `head` sees.
    fn seen_count(&self, head: &NodeId, nodes: &[NodeId]) -> (n: usize)
        requires
            self.wf(),
        ensures
            n == count_seen(self.graph(), *head, nodes@),
    {
        let mut n: usize = 0;
        let mut k: usize = 0;
        assert(nodes@.take(0) =~= Seq::<NodeId>::empty());
        while k < nodes.len()
            invariant
                self.wf(),
                k <= nodes.len(),
                n <= k,
                n == count_seen(self.graph(), *head, nodes@.take(k as int)),
            decreases nodes.len() - k,
        {
            proof {
                assert(nodes@.take(k + 1).drop_last() =~= nodes@.take(k as int));
            }
            if self.sees(head, &nodes[k]) {
                n = n + 1;
            }
            k = k + 1;
        }
        assert(nodes@.take(k as int) =~= nodes@);
        n
    }

    /// How `indexer` (scanning its nodes below `length`, newest first) relates to
    /// confirming `target` given `acks`.
    fn confirms(
        &self,
        indexer: WriterKey,
        target: &NodeId,
        acks: &[NodeId],
        length: u64,
        removed: &Clock,
    ) -> (r: Confirm)
        requires
            self.wf(),
            removed.wf(),
        ensures
            r == match self.voters() {
                Some(v) => confirm_of(
                    self.graph(),
                    v,
                    indexer,
                    *target,
                    acks@,
                    length,
                    removed@,
                ),
                None => Confirm::Unseen,
            },
    {
        let ghost g = self.graph();
        let majority: usize = match self.majority() {
            None => return Confirm::Unseen,
            Some(m) => m,
        };
        let ghost v = self.voters()->0;
        if removed.get(&indexer) >= length {
            return Confirm::Unseen;
        }
        let mut first: bool = true;
        let mut i: u64 = length;
        while i > 0
            invariant
                self.wf(),
                removed.wf(),
                g == self.graph(),
                self.voters() == Some(v),
                majority == majority_of(v),
                confirm_of(g, v, indexer, *target, acks@, length, removed@) == confirm_from(
                    g,
                    v,
                    indexer,
                    *target,
                    acks@,
                    removed@,
                    i - 1,
                    first,
                ),
            decreases i,
        {
            i = i - 1;
            let head: NodeId = NodeId::new(indexer, i);
            if !self.contains(&head) {
                return Confirm::Unseen;
            }
            let enough: bool = self.seen_count(&head, acks) >= majority;
            if !first && !enough {
                return Confirm::Unseen;
            }
            if !self.strictly_newer(target, &head, removed) {
                first = false;
            } else if enough {
                return Confirm::Acked;
            } else {
                return Confirm::Newer;
            }
        }
        Confirm::Unseen
    }

    /// Whether a majority of `acks` are seen by `parent`.
    fn acked_at(&self, acks: &[NodeId], parent: &NodeId) -> (r: bool)
        requires
            self.wf(),
        ensures
            r == (self.voters() matches Some(v) && count_seen(self.graph(), *parent, acks@)
                >= majority_of(v)),
    {
        match self.majority() {
            None => false,
            Some(m) => self.seen_count(parent, acks) >= m,
        }
    }

    /// [`scope`], computed.
    fn scope_of(&self, parent: Option<&NodeId>, indexer: &WriterKey) -> (n: u64)
        requires
            self.wf(),
        ensures
            n == scope(
                self.graph(),
                match parent {
                    Some(p) => Some(*p),
                    None => None,
                },
                *indexer,
            ),
    {
        match parent {
            Some(p) => if same_32(&p.key, indexer) {
                p.seq
            } else {
                let c: Clock = self.clock(p);
                assert(length_in(c@, *indexer) == seen_len(self.graph(), *p, *indexer));
                c.get(indexer)
            },
            None => self.indexer_length(indexer),
        }
    }

    /// Whether `target` is confirmed: it has a majority of acks and either a majority
    /// of indexers confirm it as acked, or, at the top level (no `parent`), every
    /// indexer has a strictly newer node; with a `parent`, whether it is still
    /// confirmable there.
    pub fn is_confirmed(&self, target: &NodeId, parent: Option<&NodeId>, removed: &Clock) -> (r:
        bool)
        requires
            self.wf(),
            removed.wf(),
        ensures
            r == (self.voters() matches Some(v) && confirmed(
                self.graph(),
                v,
                *target,
                match parent {
                    Some(p) => Some(*p),
                    None => None,
                },
                removed@,
            )),
    {
        let ghost g = self.graph();
        let ghost above = match parent {
            Some(p) => Some(*p),
            None => None,
        };
        let v: &Vec<WriterKey> = match &self.indexers {
            None => return false,
            Some(v) => v,
        };
        let majority: usize = v.len() / 2 + 1;
        let acks: Vec<NodeId> = self.acks(target, removed);
        if acks.len() < majority {
            return false;
        }
        let mut confs: Vec<WriterKey> = Vec::new();
        let mut newer_all: bool = true;
        let mut k: usize = 0;
        assert(v@.take(0) =~= Seq::<WriterKey>::empty());
        while k < v.len()
            invariant
                self.wf(),
                removed.wf(),
                g == self.graph(),
                self.voters() == Some(v@),
                above == match parent {
                    Some(p) => Some(*p),
                    None => None,
                },
                k <= v.len(),
                confs@ == acked_by(g, v@, v@.take(k as int), *target, above, acks@, removed@),
                newer_all == all_newer(g, v@, v@.take(k as int), *target, above, acks@, removed@),
            decreases v.len() - k,
        {
            let indexer: WriterKey = v[k];
            let length: u64 = self.scope_of(parent, &indexer);
            let c: Confirm = self.confirms(indexer, target, acks.as_slice(), length, removed);
            proof {
                let t = v@.take(k + 1);
                assert(t.drop_last() =~= v@.take(k as int));
                assert(t[k as int] == indexer);
                assert(all_newer(g, v@, t, *target, above, acks@, removed@) == (newer_all && c
                    != Confirm::Unseen)) by {
                    if newer_all && c != Confirm::Unseen {
                        assert forall|q: int| 0 <= q < t.len() implies confirm_of(
                            g,
                            v@,
                            #[trigger] t[q],
                            *target,
                            acks@,
                            scope(g, above, t[q]),
                            removed@,
                        ) != Confirm::Unseen by {
                            if q < k {
                                assert(v@.take(k as int)[q] == t[q]);
                            }
                        }
                    }
                    if all_newer(g, v@, t, *target, above, acks@, removed@) {
                        assert(confirm_of(
                            g,
                            v@,
                            t[k as int],
                            *target,
                            acks@,
                            scope(g, above, t[k as int]),
                            removed@,
                        ) != Confirm::Unseen);
                        assert forall|q: int| 0 <= q < k implies confirm_of(
                            g,
                            v@,
                            #[trigger] v@.take(k as int)[q],
                            *target,
                            acks@,
                            scope(g, above, v@.take(k as int)[q]),
                            removed@,
                        ) != Confirm::Unseen by {
                            assert(t[q] == v@.take(k as int)[q]);
                        }
                    }
                }
            }
            match c {
                Confirm::Acked => confs.push(indexer),
                Confirm::Unseen => {
                    newer_all = false;
                },
                Confirm::Newer => {},
            }
            k = k + 1;
        }
        assert(v@.take(k as int) =~= v@);
        if confs.len() >= majority {
            return true;
        }
        match parent {
            Some(p) => self.is_confirmable_at(target, p, acks.as_slice(), &confs, removed),
            None => newer_all,
        }
    }

    /// Whether `target` can still be confirmed below `parent` given the indexers that
    /// already confirm it.
    fn is_confirmable_at(
        &self,
        target: &NodeId,
        parent: &NodeId,
        acks: &[NodeId],
        confs: &Vec<WriterKey>,
        removed: &Clock,
    ) -> (r: bool)
        requires
            self.wf(),
            removed.wf(),
        ensures
            r == (self.voters() matches Some(v) && confirmable(
                self.graph(),
                v,
                *target,
                *parent,
                acks@,
                confs@,
                removed@,
            )),
    {
        let ghost g = self.graph();
        let v: &Vec<WriterKey> = match &self.indexers {
            None => return false,
            Some(v) => v,
        };
        let majority: usize = v.len() / 2 + 1;
        if !self.acked_at(acks, parent) {
            return false;
        }
        let pclk: Clock = self.clock(parent);
        let tclk: Clock = self.clock(target);
        let mut hope: usize = 0;
        let mut k: usize = 0;
        assert(v@.take(0) =~= Seq::<WriterKey>::empty());
        while k < v.len()
            invariant
                self.wf(),
                removed.wf(),
                pclk.wf(),
                tclk.wf(),
                g == self.graph(),
                k <= v.len(),
                hope <= k,
                forall|key: WriterKey| length_in(pclk@, key) == #[trigger] seen_len(
                    g,
                    *parent,
                    key,
                ),
                forall|key: WriterKey| length_in(tclk@, key) == #[trigger] seen_len(
                    g,
                    *target,
                    key,
                ),
                hope == count_hopeful(
                    g,
                    v@.take(k as int),
                    *target,
                    *parent,
                    confs@,
                    removed@,
                ),
            decreases v.len() - k,
        {
            let indexer: WriterKey = v[k];
            proof {
                assert(v@.take(k + 1).drop_last() =~= v@.take(k as int));
            }
            if !has_key(confs, &indexer) {
                let length: u64 = pclk.get(&indexer);
                let seen: u64 = tclk.get(&indexer);
                proof {
                    assert(length == seen_len(g, *parent, indexer));
                    assert(seen == seen_len(g, *target, indexer));
                }
                if length == 0 || seen >= length {
                    hope = hope + 1;
                } else {
                    let head: NodeId = NodeId::new(indexer, length - 1);
                    if !self.contains(&head) || removed.includes(&indexer, length)
                        || self.strictly_newer(target, &head, removed) {
                        hope = hope + 1;
                    }
                }
            }
            k = k + 1;
        }
        assert(v@.take(k as int) =~= v@);
        hope > 0 && (confs.len() >= majority || hope >= majority - confs.len())
    }

    /// The currently-unconfirmed indexer merge nodes, in ascending order.
    fn merge_nodes(&self, removed: &Clock) -> (out: Vec<NodeId>)
        requires
            self.wf(),
            removed.wf(),
        ensures
            match self.voters() {
                Some(v) => out@ == in_order(merge_set(self.graph(), v, removed@)) && out@.to_set()
                    == merge_set(self.graph(), v, removed@),
                None => out@ == Seq::<NodeId>::empty(),
            },
    {
        let ghost g = self.graph();
        let mut out: Vec<NodeId> = Vec::new();
        let v: &Vec<WriterKey> = match &self.indexers {
            None => return out,
            Some(v) => v,
        };
        let ghost want = merge_set(g, v@, removed@);
        let mut p: usize = 0;
        while p < self.ids.len()
            invariant
                self.wf(),
                removed.wf(),
                g == self.graph(),
                self.voters() == Some(v@),
                want == merge_set(g, v@, removed@),
                p <= self.ids.len(),
                sorted_ids(out@),
                forall|n: NodeId| #[trigger] out@.to_set().contains(n) ==> want.contains(n),
                forall|q: int|
                    0 <= q < p && want.contains(#[trigger] self.ids@[q]) ==> out@.to_set().contains(
                        self.ids@[q],
                    ),
            decreases self.ids.len() - p,
        {
            let n: NodeId = self.ids[p];
            proof {
                self.lemma_at(p as int);
                lemma_seq_bound(g, self.ids@, p as int);
            }
            if has_key(v, &n.key) && !removed.includes(&n.key, n.seq + 1) && self.is_merge(
                &n,
                removed,
            ) {
                insert_id(&mut out, n);
            }
            p = p + 1;
        }
        proof {
            assert forall|n: NodeId| out@.to_set().contains(n) == want.contains(n) by {
                if want.contains(n) {
                    let q = lemma_position(g, self.ids@, n);
                    assert(want.contains(self.ids@[q]));
                }
            }
            assert(out@.to_set() =~= want);
            lemma_in_order(out@);
        }
        out
    }

    /// The tails that `node` causally sees.
    fn tails_seen(&self, node: &NodeId, tails: &Vec<NodeId>) -> (out: Vec<NodeId>)
        requires
            self.wf(),
        ensures
            out@ == seen_of(self.graph(), *node, tails@),
    {
        let mut out: Vec<NodeId> = Vec::new();
        let mut k: usize = 0;
        assert(tails@.take(0) =~= Seq::<NodeId>::empty());
        while k < tails.len()
            invariant
                self.wf(),
                k <= tails.len(),
                out@ == seen_of(self.graph(), *node, tails@.take(k as int)),
            decreases tails.len() - k,
        {
            proof {
                assert(tails@.take(k + 1).drop_last() =~= tails@.take(k as int));
            }
            if self.sees(node, &tails[k]) {
                out.push(tails[k]);
            }
            k = k + 1;
        }
        assert(tails@.take(k as int) =~= tails@);
        out
    }

    /// The seen tails plus any other merge node `node` sees.
    fn tails_and_merges_seen(&self, node: &NodeId, tails: &Vec<NodeId>, removed: &Clock) -> (out:
        Vec<NodeId>)
        requires
            self.wf(),
            removed.wf(),
            self.voters() is Some,
        ensures
            out@ == arms(self.graph(), self.voters()->0, *node, tails@, removed@),
    {
        let ghost g = self.graph();
        let mut out: Vec<NodeId> = self.tails_seen(node, tails);
        let ghost all = out@;
        let more: Vec<NodeId> = self.merge_nodes(removed);
        let mut k: usize = 0;
        assert(more@.take(0) =~= Seq::<NodeId>::empty());
        while k < more.len()
            invariant
                self.wf(),
                g == self.graph(),
                k <= more.len(),
                out@ == with_seen(g, *node, all, more@.take(k as int)),
            decreases more.len() - k,
        {
            proof {
                assert(more@.take(k + 1).drop_last() =~= more@.take(k as int));
            }
            let m: NodeId = more[k];
            if !same_id(&m, node) && self.sees(node, &m) && !has_id(out.as_slice(), &m) {
                out.push(m);
            }
            k = k + 1;
        }
        assert(more@.take(k as int) =~= more@);
        out
    }

    /// The first of `s` that is confirmed below `parent`.
    fn first_of(&self, s: &Vec<NodeId>, parent: Option<&NodeId>, removed: &Clock) -> (r: Option<
        NodeId,
    >)
        requires
            self.wf(),
            removed.wf(),
            self.voters() is Some,
        ensures
            r == first_confirmed(
                self.graph(),
                self.voters()->0,
                s@,
                0,
                match parent {
                    Some(p) => Some(*p),
                    None => None,
                },
                removed@,
            ),
    {
        let ghost g = self.graph();
        let ghost v = self.voters()->0;
        let ghost above = match parent {
            Some(p) => Some(*p),
            None => None,
        };
        let mut k: usize = 0;
        while k < s.len()
            invariant
                self.wf(),
                removed.wf(),
                g == self.graph(),
                self.voters() == Some(v),
                above == match parent {
                    Some(p) => Some(*p),
                    None => None,
                },
                k <= s.len(),
                first_confirmed(g, v, s@, 0, above, removed@) == first_confirmed(
                    g,
                    v,
                    s@,
                    k as int,
                    above,
                    removed@,
                ),
            decreases s.len() - k,
        {
            if self.is_confirmed(&s[k], parent, removed) {
                return Some(s[k]);
            }
            k = k + 1;
        }
        None
    }

    /// Resolve a confirmed merge down to the next nodes to yield: walk toward the
    /// tails, descending into whichever arm is confirmed relative to the current node;
    /// when none is, yield every tail below it; on reaching a tail, yield it.
    fn yield_next(&self, merge: NodeId, tails: &Vec<NodeId>, removed: &Clock) -> (out: Vec<NodeId>)
        requires
            self.wf(),
            removed.wf(),
            self.voters() is Some,
            self.graph().contains_key(merge),
        ensures
            out@ == resolved(self.graph(), self.voters()->0, merge, tails@, removed@),
            forall|k: int| 0 <= k < out@.len() ==> tails@.contains(#[trigger] out@[k]),
    {
        let ghost g = self.graph();
        let ghost v = self.voters()->0;
        let mut node: NodeId = merge;
        loop
            invariant
                self.wf(),
                removed.wf(),
                g == self.graph(),
                self.voters() == Some(v),
                g.contains_key(node),
                resolved(g, v, merge, tails@, removed@) == resolved(g, v, node, tails@, removed@),
            decreases past(g, node).len(),
        {
            if has_id(tails.as_slice(), &node) {
                let mut out: Vec<NodeId> = Vec::new();
                out.push(node);
                assert(out@ =~= seq![node]);
                return out;
            }
            let list: Vec<NodeId> = self.tails_and_merges_seen(&node, tails, removed);
            match self.first_of(&list, Some(&node), removed) {
                Some(t) => {
                    proof {
                        lemma_first_confirmed(g, v, list@, 0, Some(node), removed@);
                        lemma_with_seen(
                            g,
                            node,
                            seen_of(g, node, tails@),
                            in_order(merge_set(g, v, removed@)),
                            t,
                        );
                        if seen_of(g, node, tails@).contains(t) {
                            lemma_seen_of(g, node, tails@, t);
                        }
                        assert(t != node && sees(g, node, t));
                        self.lemma_wf();
                        lemma_past(g, self.ids@, node, t);
                        lemma_reaches_known(g, node, t);
                    }
                    node = t;
                },
                None => {
                    let arm: Vec<NodeId> = self.tails_seen(&node, tails);
                    proof {
                        assert forall|k: int| 0 <= k < arm@.len() implies tails@.contains(
                            #[trigger] arm@[k],
                        ) by {
                            assert(arm@.contains(arm@[k]));
                            lemma_seen_of(g, node, tails@, arm@[k]);
                        }
                    }
                    return arm;
                },
            }
        }
    }

    /// One step: yield the next confirmed tail, or resolve a confirmed merge, or
    /// nothing. Raises `removed` for the nodes it yields.
    fn shift_once(&self, removed: &mut Clock) -> (out: Vec<NodeId>)
        requires
            self.wf(),
            old(removed).wf(),
            self.voters() is Some,
        ensures
            final(removed).wf(),
            out@ == shift(self.graph(), self.voters()->0, old(removed)@),
            final(removed)@ == raised_all(old(removed)@, out@),
            forall|k: int| 0 <= k < out@.len() ==> self.graph().contains_key(#[trigger] out@[k]),
            out@.len() > 0 ==> pending(self.graph(), self.voters()->0, final(removed)@) < pending(
                self.graph(),
                self.voters()->0,
                old(removed)@,
            ),
    {
        let ghost g = self.graph();
        let ghost v = self.voters()->0;
        let ghost r0 = removed@;
        let tails: Vec<NodeId> = self.indexer_tails(removed);
        let mut out: Vec<NodeId> = Vec::new();
        match self.first_of(&tails, None, removed) {
            Some(t) => {
                out.push(t);
                proof {
                    lemma_first_confirmed(g, v, tails@, 0, None, r0);
                    assert(out@ =~= seq![t]);
                    assert forall|k: int| 0 <= k < out@.len() implies tails@.contains(
                        #[trigger] out@[k],
                    ) by {}
                }
            },
            None => {
                let more: Vec<NodeId> = self.merge_nodes(removed);
                match self.first_of(&more, None, removed) {
                    Some(m) => {
                        proof {
                            lemma_first_confirmed(g, v, more@, 0, None, r0);
                            assert(more@.to_set().contains(m));
                        }
                        out = self.yield_next(m, &tails, removed);
                    },
                    None => {},
                }
            },
        }
        proof {
            assert forall|k: int| 0 <= k < out@.len() implies {
                &&& g.contains_key(#[trigger] out@[k])
                &&& v.contains(out@[k].key)
                &&& out@[k].seq == length_in(r0, out@[k].key)
            } by {
                assert(tails@.contains(out@[k]));
                lemma_bottoms(g, candidates(g, v, r0), candidates(g, v, r0), out@[k]);
                lemma_candidates(g, v, r0, out@[k]);
            }
        }
        let mut k: usize = 0;
        proof {
            assert(out@.take(0) =~= Seq::<NodeId>::empty());
        }
        while k < out.len()
            invariant
                self.wf(),
                g == self.graph(),
                removed.wf(),
                k <= out.len(),
                removed@ == raised_all(r0, out@.take(k as int)),
                forall|k: int| 0 <= k < out@.len() ==> g.contains_key(#[trigger] out@[k]),
            decreases out.len() - k,
        {
            let n: NodeId = out[k];
            proof {
                assert(out@.take(k + 1).drop_last() =~= out@.take(k as int));
                assert(g.contains_key(out@[k as int]));
                self.lemma_wf();
                let q = lemma_position(g, self.ids@, n);
                lemma_seq_bound(g, self.ids@, q);
            }
            removed.raise(n.key, n.seq + 1);
            k = k + 1;
        }
        proof {
            assert(out@.take(k as int) =~= out@);
            if out@.len() > 0 {
                self.lemma_wf();
                lemma_progress(g, self.ids@, v, r0, out@);
            }
        }
        out
    }

    /// The confirmed indexer sequence: confirm from scratch until nothing more
    /// confirms. Holds indexer nodes only, in the order they are confirmed.
    pub fn confirmed_prefix(&self) -> (out: Vec<NodeId>)
        requires
            self.wf(),
        ensures
            out@ == match self.voters() {
                Some(v) => prefix_from(self.graph(), v, Map::empty()),
                None => Seq::empty(),
            },
    {
        let ghost g = self.graph();
        let mut out: Vec<NodeId> = Vec::new();
        if self.majority().is_none() {
            return out;
        }
        let ghost v = self.voters()->0;
        let mut removed: Clock = Clock::default();
        let ghost whole = prefix_from(g, v, Map::empty());
        assert(out@ + whole =~= whole);
        loop
            invariant
                self.wf(),
                g == self.graph(),
                self.voters() == Some(v),
                removed.wf(),
                whole == out@ + prefix_from(g, v, removed@),
            ensures
                out@ == whole,
            decreases pending(g, v, removed@),
        {
            let ghost before = out@;
            let ghost r = removed@;
            let mut batch: Vec<NodeId> = self.shift_once(&mut removed);
            if batch.len() == 0 {
                assert(out@ =~= out@ + Seq::<NodeId>::empty());
                break;
            }
            let ghost b = batch@;
            out.append(&mut batch);
            assert(before + (b + prefix_from(g, v, removed@)) =~= out@ + prefix_from(
                g,
                v,
                removed@,
            ));
        }
        out
    }

    /// The full indexed view: each batch of confirmed indexer nodes expanded to the
    /// nodes it newly covers, in key-tiebreak causal order.
    pub fn confirmed_view(&self) -> (out: Vec<NodeId>)
        requires
            self.wf(),
        ensures
            out@ == confirmed_view_of(self.graph(), self.voters()),
    {
        let ghost g = self.graph();
        let mut out: Vec<NodeId> = Vec::new();
        if self.majority().is_none() {
            return out;
        }
        let ghost v = self.voters()->0;
        let mut removed: Clock = Clock::default();
        let mut emitted: Vec<bool> = Vec::new();
        let mut i: usize = 0;
        while i < self.ids.len()
            invariant
                i <= self.ids.len(),
                emitted@.len() == i,
                forall|q: int| 0 <= q < i ==> !emitted@[q],
            decreases self.ids.len() - i,
        {
            emitted.push(false);
            i = i + 1;
        }
        let ghost whole = view_from(g, v, Map::empty(), Set::empty());
        proof {
            assert(out@ + whole =~= whole);
            assert(flagged(self.ids@, emitted@) =~= Set::<NodeId>::empty());
        }
        loop
            invariant
                self.wf(),
                g == self.graph(),
                self.voters() == Some(v),
                removed.wf(),
                emitted@.len() == self.ids@.len(),
                whole == out@ + view_from(g, v, removed@, flagged(self.ids@, emitted@)),
            ensures
                out@ == whole,
            decreases pending(g, v, removed@),
        {
            let ghost before = out@;
            let batch: Vec<NodeId> = self.shift_once(&mut removed);
            if batch.len() == 0 {
                assert(out@ =~= out@ + Seq::<NodeId>::empty());
                break;
            }
            let fresh: Vec<bool> = self.cover(&batch, &emitted);
            let ghost f = flagged(self.ids@, fresh@);
            let ghost e = flagged(self.ids@, emitted@);
            let mut k: usize = 0;
            let ghost flags = emitted@;
            while k < emitted.len()
                invariant
                    k <= emitted.len(),
                    emitted@.len() == self.ids@.len(),
                    fresh@.len() == self.ids@.len(),
                    flags.len() == self.ids@.len(),
                    forall|q: int| 0 <= q < k ==> #[trigger] emitted@[q] == (flags[q] || fresh@[q]),
                    forall|q: int| k <= q < emitted@.len() ==> #[trigger] emitted@[q] == flags[q],
                decreases emitted.len() - k,
            {
                if fresh[k] {
                    emitted.set(k, true);
                }
                k = k + 1;
            }
            proof {
                assert forall|n: NodeId| flagged(self.ids@, emitted@).contains(n) == e.union(
                    f,
                ).contains(n) by {
                    if flagged(self.ids@, emitted@).contains(n) {
                        let q = choose|q: int|
                            0 <= q < self.ids@.len() && emitted@[q] && #[trigger] self.ids@[q] == n;
                        if flags[q] {
                            assert(flags[q] && self.ids@[q] == n);
                        } else {
                            assert(fresh@[q] && self.ids@[q] == n);
                        }
                    }
                    if e.contains(n) {
                        let q = choose|q: int|
                            0 <= q < self.ids@.len() && flags[q] && #[trigger] self.ids@[q] == n;
                        assert(emitted@[q] && self.ids@[q] == n);
                    }
                    if f.contains(n) {
                        let q = choose|q: int|
                            0 <= q < self.ids@.len() && fresh@[q] && #[trigger] self.ids@[q] == n;
                        assert(emitted@[q] && self.ids@[q] == n);
                    }
                }
                assert(flagged(self.ids@, emitted@) =~= e.union(f));
            }
            let mut more: Vec<NodeId> = self.topo_key_order(fresh);
            let ghost t = more@;
            out.append(&mut more);
            proof {
                let tail = view_from(g, v, removed@, e.union(f));
                assert(before + (t + tail) =~= out@ + tail);
            }
        }
        out
    }

    /// What the nodes of `batch` see that is not emitted, by position.
    fn cover(&self, batch: &Vec<NodeId>, emitted: &Vec<bool>) -> (fresh: Vec<bool>)
        requires
            self.wf(),
            emitted@.len() == self.ids@.len(),
            forall|k: int| 0 <= k < batch@.len() ==> self.graph().contains_key(#[trigger] batch@[k]),
        ensures
            fresh@.len() == self.ids@.len(),
            flagged(self.ids@, fresh@) == newly_covered(
                self.graph(),
                batch@,
                flagged(self.ids@, emitted@),
            ),
    {
        let ghost g = self.graph();
        let ghost ids = self.ids@;
        let mut fresh: Vec<bool> = Vec::new();
        let mut i: usize = 0;
        while i < self.ids.len()
            invariant
                i <= self.ids.len(),
                fresh@.len() == i,
                forall|q: int| 0 <= q < i ==> !fresh@[q],
            decreases self.ids.len() - i,
        {
            fresh.push(false);
            i = i + 1;
        }
        let mut k: usize = 0;
        while k < batch.len()
            invariant
                self.wf(),
                g == self.graph(),
                ids == self.ids@,
                k <= batch.len(),
                fresh@.len() == ids.len(),
                emitted@.len() == ids.len(),
                forall|k: int| 0 <= k < batch@.len() ==> g.contains_key(#[trigger] batch@[k]),
                forall|q: int|
                    0 <= q < ids.len() ==> #[trigger] fresh@[q] == (!emitted@[q] && exists|j: int|
                        0 <= j < k && reaches(g, #[trigger] batch@[j], ids[q])),
            decreases batch.len() - k,
        {
            assert(g.contains_key(batch@[k as int]));
            match self.find(&batch[k]) {
                None => {},
                Some(p) => {
                    let h: Vec<bool> = self.history(p);
                    let ghost before = fresh@;
                    let mut q: usize = 0;
                    while q < h.len()
                        invariant
                            q <= h.len(),
                            h@.len() == ids.len(),
                            fresh@.len() == ids.len(),
                            before.len() == ids.len(),
                            emitted@.len() == ids.len(),
                            forall|m: int|
                                0 <= m < q ==> #[trigger] fresh@[m] == (before[m] || (h@[m]
                                    && !emitted@[m])),
                            forall|m: int| q <= m < ids.len() ==> #[trigger] fresh@[m] == before[m],
                        decreases h.len() - q,
                    {
                        if h[q] && !emitted[q] {
                            fresh.set(q, true);
                        }
                        q = q + 1;
                    }
                    proof {
                        assert forall|m: int| 0 <= m < ids.len() implies #[trigger] fresh@[m] == (
                        !emitted@[m] && exists|j: int|
                            0 <= j < k + 1 && reaches(g, #[trigger] batch@[j], ids[m])) by {
                            assert(h@[m] == reaches(g, ids[p as int], ids[m]));
                            assert(before[m] == (!emitted@[m] && exists|j: int|
                                0 <= j < k && reaches(g, #[trigger] batch@[j], ids[m])));
                            if h@[m] {
                                assert(reaches(g, batch@[k as int], ids[m]));
                            }
                            if exists|j: int| 0 <= j < k + 1 && reaches(g, #[trigger] batch@[j], ids[m]) {
                                let j = choose|j: int| 0 <= j < k + 1 && reaches(g, #[trigger] batch@[j], ids[m]);
                                if j == k {
                                    assert(batch@[j] == ids[p as int]);
                                }
                            }
                        }
                    }
                },
            }
            k = k + 1;
        }
        proof {
            let e = flagged(ids, emitted@);
            let want = newly_covered(g, batch@, e);
            assert forall|n: NodeId| flagged(ids, fresh@).contains(n) == want.contains(n) by {
                if flagged(ids, fresh@).contains(n) {
                    let q = choose|q: int| 0 <= q < ids.len() && fresh@[q] && #[trigger] ids[q] == n;
                    if e.contains(n) {
                        let m = choose|m: int|
                            0 <= m < ids.len() && emitted@[m] && #[trigger] ids[m] == n;
                        assert(m == q);
                    }
                }
                if want.contains(n) {
                    let j = choose|j: int| 0 <= j < batch@.len() && reaches(g, #[trigger] batch@[j], n);
                    lemma_reaches_known(g, batch@[j], n);
                    let q = lemma_position(g, ids, n);
                    if emitted@[q] {
                        assert(emitted@[q] && ids[q] == n);
                        assert(e.contains(n));
                    }
                    assert(fresh@[q] && ids[q] == n);
                }
            }
            assert(flagged(ids, fresh@) =~= want);
        }
        fresh
    }

    /// The deterministic linearization: the confirmed view first, then the remaining
    /// nodes with the same key tiebreak. A function of the graph and the voters, never
    /// of the order of arrival.
    pub fn order(&self) -> (out: Vec<NodeId>)
        requires
            self.wf(),
        ensures
            out@ == order_of(self.graph(), self.voters()),
    {
        let ghost g = self.graph();
        let ghost ids = self.ids@;
        let mut out: Vec<NodeId> = self.confirmed_view();
        let ghost view = out@;
        let mut rest: Vec<bool> = Vec::new();
        let mut p: usize = 0;
        while p < self.ids.len()
            invariant
                p <= self.ids.len(),
                ids == self.ids@,
                view == out@,
                rest@.len() == p,
                forall|q: int| 0 <= q < p ==> #[trigger] rest@[q] == !view.contains(ids[q]),
            decreases self.ids.len() - p,
        {
            rest.push(!has_id(out.as_slice(), &self.ids[p]));
            p = p + 1;
        }
        proof {
            let want = g.dom().difference(view.to_set());
            assert forall|n: NodeId| flagged(ids, rest@).contains(n) == want.contains(n) by {
                if flagged(ids, rest@).contains(n) {
                    let q = choose|q: int| 0 <= q < ids.len() && rest@[q] && #[trigger] ids[q] == n;
                    assert(ids.contains(n));
                }
                if want.contains(n) {
                    let q = lemma_position(g, ids, n);
                    assert(rest@[q] && ids[q] == n);
                }
            }
            assert(flagged(ids, rest@) =~= want);
        }
        let mut more: Vec<NodeId> = self.topo_key_order(rest);
        out.append(&mut more);
        out
    }

    /// The finalized (indexed) prefix: the confirmed view.
    pub fn finalized(&self) -> (out: Vec<NodeId>)
        requires
            self.wf(),
        ensures
            out@ == confirmed_view_of(self.graph(), self.voters()),
    {
        self.confirmed_view()
    }

    /// The materialized view: the linearization as an indexable sequence of entries,
    /// one per node.
    pub fn view(&self) -> (out: Vec<NodeId>)
        requires
            self.wf(),
        ensures
            out@ == order_of(self.graph(), self.voters()),
    {
        self.order()
    }

    /// Length of the materialized view: the node count.
    pub fn view_len(&self) -> (n: usize)
        requires
            self.wf(),
        ensures
            n == self.graph().dom().len(),
    {
        self.len()
    }

    /// Entry `i` of the materialized view, or `None` past the end.
    pub fn view_get(&self, i: usize) -> (r: Option<NodeId>)
        requires
            self.wf(),
        ensures
            r == if i < order_of(self.graph(), self.voters()).len() {
                Some(order_of(self.graph(), self.voters())[i as int])
            } else {
                None
            },
    {
        let all: Vec<NodeId> = self.order();
        if i < all.len() {
            Some(all[i])
        } else {
            None
        }
    }

    /// The indexed view: the confirmed prefix of the view.
    pub fn indexed_view(&self) -> (out: Vec<NodeId>)
        requires
            self.wf(),
        ensures
            out@ == confirmed_view_of(self.graph(), self.voters()),
    {
        self.finalized()
    }

    /// Length of the indexed view.
    pub fn indexed_view_len(&self) -> (n: usize)
        requires
            self.wf(),
        ensures
            n == confirmed_view_of(self.graph(), self.voters()).len(),
    {
        self.finalized().len()
    }
}

pub proof fn lemma_first_confirmed(
    g: Deps,
    v: Seq<WriterKey>,
    s: Seq<NodeId>,
    k: int,
    parent: Option<NodeId>,
    removed: Removed,
)
    ensures
        first_confirmed(g, v, s, k, parent, removed) matches Some(t) ==> s.contains(t) && confirmed(
            g,
            v,
            t,
            parent,
            removed,
        ),
    decreases s.len() - k,
{
    if 0 <= k < s.len() && !confirmed(g, v, s[k], parent, removed) {
        lemma_first_confirmed(g, v, s, k + 1, parent, removed);
    }
}

pub proof fn lemma_seen_of(g: Deps, node: NodeId, tails: Seq<NodeId>, t: NodeId)
    requires
        seen_of(g, node, tails).contains(t),
    ensures
        tails.contains(t),
        sees(g, node, t),
    decreases tails.len(),
{
    if tails.len() > 0 {
        let less = tails.drop_last();
        let rest = seen_of(g, node, less);
        if rest.contains(t) {
            lemma_seen_of(g, node, less, t);
            let k = choose|k: int| 0 <= k < less.len() && less[k] == t;
            assert(tails[k] == t);
        } else {
            let all = seen_of(g, node, tails);
            let k = choose|k: int| 0 <= k < all.len() && all[k] == t;
            if k < rest.len() {
                assert(rest[k] == t);
            }
            assert(t == tails.last());
            assert(tails[tails.len() - 1] == t);
        }
    }
}

pub proof fn lemma_with_seen(g: Deps, node: NodeId, all: Seq<NodeId>, more: Seq<NodeId>, t: NodeId)
    requires
        with_seen(g, node, all, more).contains(t),
    ensures
        all.contains(t) || (more.contains(t) && t != node && sees(g, node, t)),
    decreases more.len(),
{
    if more.len() > 0 {
        let less = more.drop_last();
        let rest = with_seen(g, node, all, less);
        if rest.contains(t) {
            lemma_with_seen(g, node, all, less, t);
            if less.contains(t) {
                let k = choose|k: int| 0 <= k < less.len() && less[k] == t;
                assert(more[k] == t);
            }
        } else {
            let now = with_seen(g, node, all, more);
            let k = choose|k: int| 0 <= k < now.len() && now[k] == t;
            if k < rest.len() {
                assert(rest[k] == t);
            }
            assert(t == more.last());
            assert(more[more.len() - 1] == t);
        }
    }
}

pub proof fn lemma_bottoms(g: Deps, all: Seq<NodeId>, s: Seq<NodeId>, t: NodeId)
    requires
        bottoms(g, all, s).contains(t),
    ensures
        s.contains(t),
        at_bottom(g, all, t),
    decreases s.len(),
{
    if s.len() > 0 {
        let less = s.drop_last();
        let rest = bottoms(g, all, less);
        if rest.contains(t) {
            lemma_bottoms(g, all, less, t);
            let k = choose|k: int| 0 <= k < less.len() && less[k] == t;
            assert(s[k] == t);
        } else {
            let now = bottoms(g, all, s);
            let k = choose|k: int| 0 <= k < now.len() && now[k] == t;
            if k < rest.len() {
                assert(rest[k] == t);
            }
            assert(t == s.last());
            assert(s[s.len() - 1] == t);
        }
    }
}

pub proof fn lemma_candidates(g: Deps, v: Seq<WriterKey>, removed: Removed, t: NodeId)
    requires
        candidates(g, v, removed).contains(t),
    ensures
        v.contains(t.key),
        g.contains_key(t),
        t.seq == length_in(removed, t.key),
    decreases v.len(),
{
    if v.len() > 0 {
        let less = v.drop_last();
        let rest = candidates(g, less, removed);
        if rest.contains(t) {
            lemma_candidates(g, less, removed, t);
            let k = choose|k: int| 0 <= k < less.len() && less[k] == t.key;
            assert(v[k] == t.key);
        } else {
            let now = candidates(g, v, removed);
            let k = choose|k: int| 0 <= k < now.len() && now[k] == t;
            if k < rest.len() {
                assert(rest[k] == t);
            }
            assert(t.key == v.last());
            assert(v[v.len() - 1] == t.key);
        }
    }
}

/// A node that another sees has less in its past.
pub proof fn lemma_past(g: Deps, ids: Seq<NodeId>, n: NodeId, t: NodeId)
    requires
        delivered(g, ids),
        sees(g, n, t),
        n != t,
    ensures
        reaches(g, n, t),
        past(g, t).len() < past(g, n).len(),
{
    lemma_reaches_known(g, n, t);
    let a = past(g, t);
    let b = past(g, n);
    assert forall|m: NodeId| b.contains(m) implies ids.to_set().contains(m) by {
        lemma_reaches_known(g, n, m);
    }
    vstd::set_lib::lemma_set_subset_finite(ids.to_set(), b);
    assert forall|m: NodeId| a.contains(m) implies b.contains(m) by {
        lemma_reaches_transitive(g, n, t, m);
    }
    vstd::set_lib::lemma_set_subset_finite(b, a);
    lemma_reaches_self(g, n);
    assert(b.contains(n));
    assert(!a.contains(n)) by {
        if a.contains(n) {
            lemma_antisymmetric(g, n, t);
        }
    }
    let c = b.remove(n);
    assert(a.subset_of(c));
    vstd::set_lib::lemma_len_subset(a, c);
}

/// Raising never lowers, and reaches each of the nodes raised for.
proof fn lemma_raised_all(removed: Removed, nodes: Seq<NodeId>)
    requires
        forall|k: int| 0 <= k < nodes.len() ==> (#[trigger] nodes[k]).seq < u64::MAX,
    ensures
        forall|key: WriterKey| #[trigger]
            length_in(raised_all(removed, nodes), key) >= length_in(removed, key),
        forall|k: int|
            0 <= k < nodes.len() ==> length_in(raised_all(removed, nodes), (#[trigger] nodes[k]).key)
                > nodes[k].seq,
    decreases nodes.len(),
{
    if nodes.len() > 0 {
        let t = nodes.drop_last();
        assert forall|k: int| 0 <= k < t.len() implies (#[trigger] t[k]).seq < u64::MAX by {
            assert(t[k] == nodes[k]);
        }
        lemma_raised_all(removed, t);
        let now = raised_all(removed, nodes);
        let n = nodes.last();
        assert(nodes[nodes.len() - 1] == n);
        assert forall|key: WriterKey| #[trigger] length_in(now, key) >= length_in(removed, key) by {
            assert(length_in(raised_all(removed, t), key) >= length_in(removed, key));
        }
        assert forall|k: int| 0 <= k < nodes.len() implies length_in(now, (#[trigger] nodes[k]).key)
            > nodes[k].seq by {
            if k < t.len() {
                assert(t[k] == nodes[k]);
                assert(length_in(raised_all(removed, t), t[k].key) > t[k].seq);
            }
        }
    }
}

proof fn lemma_pending(g: Deps, v: Seq<WriterKey>, a: Removed, b: Removed)
    requires
        forall|key: WriterKey| #[trigger] length_in(b, key) >= length_in(a, key),
    ensures
        pending(g, v, b) <= pending(g, v, a),
        (exists|k: int|
            0 <= k < v.len() && length_in(a, #[trigger] v[k]) < log_len(g, v[k]) && length_in(
                b,
                v[k],
            ) > length_in(a, v[k])) ==> pending(g, v, b) < pending(g, v, a),
    decreases v.len(),
{
    if v.len() > 0 {
        let t = v.drop_last();
        lemma_pending(g, t, a, b);
        assert(length_in(b, v.last()) >= length_in(a, v.last()));
        if exists|k: int|
            0 <= k < v.len() && length_in(a, #[trigger] v[k]) < log_len(g, v[k]) && length_in(
                b,
                v[k],
            ) > length_in(a, v[k]) {
            let k = choose|k: int|
                0 <= k < v.len() && length_in(a, #[trigger] v[k]) < log_len(g, v[k]) && length_in(
                    b,
                    v[k],
                ) > length_in(a, v[k]);
            if k < t.len() {
                assert(t[k] == v[k]);
            }
        }
    }
}

/// Confirming tails leaves less to confirm.
pub proof fn lemma_progress(
    g: Deps,
    ids: Seq<NodeId>,
    v: Seq<WriterKey>,
    removed: Removed,
    batch: Seq<NodeId>,
)
    requires
        delivered(g, ids),
        ids.len() <= u64::MAX,
        batch.len() > 0,
        forall|k: int|
            0 <= k < batch.len() ==> {
                &&& g.contains_key(#[trigger] batch[k])
                &&& v.contains(batch[k].key)
                &&& batch[k].seq == length_in(removed, batch[k].key)
            },
    ensures
        pending(g, v, raised_all(removed, batch)) < pending(g, v, removed),
{
    assert forall|k: int| 0 <= k < batch.len() implies (#[trigger] batch[k]).seq < u64::MAX by {
        let q = lemma_position(g, ids, batch[k]);
        lemma_seq_bound(g, ids, q);
    }
    lemma_raised_all(removed, batch);
    let n = batch[0];
    lemma_log_len_meaning(g, ids, n.key);
    assert(g.contains_key(NodeId { key: n.key, seq: n.seq }));
    let k = choose|k: int| 0 <= k < v.len() && v[k] == n.key;
    assert(length_in(removed, v[k]) < log_len(g, v[k]));
    lemma_pending(g, v, removed, raised_all(removed, batch));
}

} // verus!
