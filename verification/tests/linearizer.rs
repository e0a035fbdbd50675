//! The linearizer: clocks, votes, confirmation and order.
use std::collections::{BTreeMap, BTreeSet};

use hypercore_rs::autobase::{AddError, Clock, Linearizer, NodeId, WriterKey};

fn wk(tag: u8) -> WriterKey {
    [tag; 32]
}

fn n(key: u8, seq: u64) -> NodeId {
    NodeId::new(wk(key), seq)
}

const A: u8 = 1;
const B: u8 = 2;
const C: u8 = 3;

fn add(lin: &mut Linearizer, node: NodeId, heads: &[NodeId]) {
    lin.add(node, heads).expect("causal add must succeed");
}

#[test]
fn clock_includes_agrees_with_sees_over_a_fork_merge_dag() {
    let mut lin = indexed(&[A, B, C]);
    add(&mut lin, n(A, 0), &[]);
    add(&mut lin, n(B, 0), &[]);
    add(&mut lin, n(C, 0), &[n(A, 0)]);
    add(&mut lin, n(A, 1), &[n(C, 0)]);
    add(&mut lin, n(C, 1), &[n(B, 0)]);
    add(&mut lin, n(B, 1), &[n(C, 1)]);

    let nodes = lin.order();
    for a in &nodes {
        let clk = lin.clock(a);
        for b in &nodes {
            assert_eq!(
                clk.includes(&b.key, b.seq + 1),
                lin.sees(a, b),
                "clock/sees disagree: {a:?} sees {b:?}?"
            );
        }
        for &tag in &[A, B, C] {
            let key = wk(tag);
            let expected = nodes
                .iter()
                .filter(|m| m.key == key && lin.sees(a, m))
                .map(|m| m.seq + 1)
                .max()
                .unwrap_or(0);
            assert_eq!(clk.get(&key), expected, "clock.get({tag}) at {a:?}");
        }
    }
}

#[test]
fn clock_on_the_design_chain() {
    let mut lin = indexed(&[A, B, C]);
    add(&mut lin, n(A, 0), &[]);
    add(&mut lin, n(B, 0), &[n(A, 0)]);
    add(&mut lin, n(C, 0), &[n(B, 0)]);
    add(&mut lin, n(A, 1), &[n(C, 0)]);

    let c = lin.clock(&n(A, 1));
    assert_eq!(c.get(&wk(A)), 2);
    assert_eq!(c.get(&wk(B)), 1);
    assert_eq!(c.get(&wk(C)), 1);
    assert_eq!(c.writers(), 3);
    assert!(c.includes(&wk(A), 2) && c.includes(&wk(B), 1) && c.includes(&wk(C), 1));
    assert!(!c.includes(&wk(A), 3), "a1 hasn't seen a2");
    assert!(!c.includes(&wk(A), 0), "length 0 is vacuously not-included");

    let cb = lin.clock(&n(B, 0));
    assert_eq!((cb.get(&wk(A)), cb.get(&wk(B)), cb.get(&wk(C))), (1, 1, 0));
    assert!(!cb.includes(&wk(C), 1));
}

#[test]
fn clock_of_unknown_node_is_empty() {
    let lin = indexed(&[A, B, C]);
    let c = lin.clock(&n(A, 0));
    assert_eq!(c.writers(), 0);
    assert_eq!(c.get(&wk(A)), 0);
    assert!(!c.includes(&wk(A), 1));
}

fn empty() -> Clock {
    Clock::default()
}

fn fork_merge() -> Linearizer {
    let mut lin = indexed(&[A, B, C]);
    add(&mut lin, n(A, 0), &[]);
    add(&mut lin, n(B, 0), &[]);
    add(&mut lin, n(C, 0), &[n(A, 0)]);
    add(&mut lin, n(A, 1), &[n(C, 0)]);
    add(&mut lin, n(C, 1), &[n(B, 0)]);
    add(&mut lin, n(B, 1), &[n(C, 1)]);
    lin
}

fn chain() -> Linearizer {
    let mut lin = indexed(&[A, B, C]);
    add(&mut lin, n(A, 0), &[]);
    add(&mut lin, n(B, 0), &[n(A, 0)]);
    add(&mut lin, n(C, 0), &[n(B, 0)]);
    add(&mut lin, n(A, 1), &[n(C, 0)]);
    lin
}

fn conservative_finalized(lin: &Linearizer) -> Vec<NodeId> {
    let order = lin.plain_order();
    let mut out = Vec::new();
    for node in &order {
        let comparable = order
            .iter()
            .all(|o| o == node || lin.sees(node, o) || lin.sees(o, node));
        if comparable && lin.quorum_degree(node) >= 2 {
            out.push(*node);
        } else {
            break;
        }
    }
    out
}

#[test]
fn is_merge_identifies_the_fork_join_only() {
    let lin = fork_merge();
    assert!(lin.is_merge(&n(C, 1), &empty()), "c1 joins the b-branch and the a/c-branch");
    for node in [n(A, 0), n(B, 0), n(C, 0), n(A, 1), n(B, 1)] {
        assert!(!lin.is_merge(&node, &empty()), "{node:?} is not a merge");
    }
    let c = chain();
    for node in [n(A, 0), n(B, 0), n(C, 0), n(A, 1)] {
        assert!(!c.is_merge(&node, &empty()), "no merges in a linear chain");
    }
}

#[test]
fn indexer_tails_are_the_minimal_frontier() {
    assert_eq!(
        chain().indexer_tails(&empty()),
        vec![n(A, 0)],
        "a single tail in a chain"
    );
    assert_eq!(
        fork_merge().indexer_tails(&empty()),
        vec![n(A, 0), n(B, 0)],
        "two tails across a fork"
    );
}

#[test]
fn acks_of_a_chain_tail_are_all_indexers() {
    let lin = chain();
    let mut acks = lin.acks(&n(A, 0), &empty());
    acks.sort();
    assert_eq!(
        acks,
        vec![n(A, 0), n(B, 0), n(C, 0)],
        "a0 is acked by itself (a) and the strictly-newer b0, c0"
    );
}

#[test]
fn strictly_newer_basics_and_invariant() {
    let lin = chain();
    assert!(
        lin.strictly_newer(&n(A, 0), &n(C, 0), &empty()),
        "c0 is strictly newer than a0"
    );
    assert!(
        lin.strictly_newer(&n(A, 0), &n(A, 0), &empty()),
        "reflexive: a node is strictly newer than itself"
    );

    let fm = fork_merge();
    assert!(
        !fm.strictly_newer(&n(B, 0), &n(A, 0), &empty()),
        "a0 doesn't even see b0, so it can't be strictly newer"
    );
    let nodes = fm.order();
    for o in &nodes {
        for p in &nodes {
            if fm.strictly_newer(o, p, &empty()) {
                assert!(fm.sees(p, o), "strictly_newer({o:?}, {p:?}) but !sees");
            }
        }
    }
}

#[test]
fn is_confirmed_matches_double_quorum_on_a_chain() {
    let lin = chain();
    let fin: BTreeSet<NodeId> = lin.finalized().into_iter().collect();
    for node in lin.order() {
        assert_eq!(
            lin.is_confirmed(&node, None, &empty()),
            fin.contains(&node),
            "is_confirmed vs finalized disagree for {node:?} (fork-free ⇒ equal)"
        );
    }
    assert!(lin.is_confirmed(&n(A, 0), None, &empty()));
    assert!(lin.is_confirmed(&n(B, 0), None, &empty()));
    assert!(!lin.is_confirmed(&n(C, 0), None, &empty()), "c0 only single-quorum");
    assert!(!lin.is_confirmed(&n(A, 1), None, &empty()));
}

#[test]
fn is_confirmed_rejects_competing_single_quorums() {
    let mut lin = indexed(&[A, B, C]);
    add(&mut lin, n(A, 0), &[]);
    add(&mut lin, n(C, 0), &[]);
    add(&mut lin, n(C, 1), &[n(A, 0)]);
    add(&mut lin, n(B, 0), &[n(C, 0)]);
    assert!(!lin.is_confirmed(&n(A, 0), None, &empty()));
    assert!(!lin.is_confirmed(&n(C, 0), None, &empty()));
}

#[test]
fn is_confirmed_on_the_higher_quorum_example() {
    let mut lin = indexed(&[A, B, C]);
    add(&mut lin, n(C, 0), &[]);
    add(&mut lin, n(B, 0), &[n(C, 0)]);
    add(&mut lin, n(C, 1), &[n(B, 0)]);
    assert!(lin.is_confirmed(&n(C, 0), None, &empty()), "double quorum confirms c0");
    assert!(!lin.is_confirmed(&n(B, 0), None, &empty()), "b0 only single-quorum");
}

#[test]
fn finalized_is_a_subset_of_confirmed_across_a_fork() {
    let lin = fork_merge();
    for node in lin.finalized() {
        assert!(
            lin.is_confirmed(&node, None, &empty()),
            "{node:?} finalized ⇒ confirmed"
        );
    }
}

fn deep_fork_merge() -> Linearizer {
    let mut lin = indexed(&[A, B, C]);
    add(&mut lin, n(A, 0), &[]);
    add(&mut lin, n(B, 0), &[]);
    add(&mut lin, n(C, 0), &[n(A, 0), n(B, 0)]);
    add(&mut lin, n(A, 1), &[n(C, 0)]);
    add(&mut lin, n(B, 1), &[n(C, 0)]);
    add(&mut lin, n(C, 1), &[n(C, 0)]);
    add(&mut lin, n(A, 2), &[n(A, 1), n(B, 1), n(C, 1)]);
    lin
}

#[test]
fn confirmed_prefix_equals_finalized_on_fork_free() {
    let lin = chain();
    assert_eq!(lin.confirmed_prefix(), lin.finalized());
    assert_eq!(lin.confirmed_prefix(), vec![n(A, 0), n(B, 0)]);

    let mut sq = indexed(&[A, B, C]);
    add(&mut sq, n(A, 0), &[]);
    add(&mut sq, n(C, 0), &[]);
    add(&mut sq, n(C, 1), &[n(A, 0)]);
    add(&mut sq, n(B, 0), &[n(C, 0)]);
    assert!(sq.confirmed_prefix().is_empty(), "competing single quorums confirm nothing");
    assert_eq!(sq.confirmed_prefix(), sq.finalized());
}

#[test]
fn confirmed_prefix_is_causally_closed() {
    for lin in [chain(), fork_merge(), deep_fork_merge()] {
        let prefix = lin.confirmed_prefix();
        let pos: BTreeMap<NodeId, usize> =
            prefix.iter().enumerate().map(|(i, nd)| (*nd, i)).collect();
        for (i, node) in prefix.iter().enumerate() {
            for dep in lin.order().iter().filter(|d| *d != node && lin.sees(node, d)) {
                let di = pos.get(dep).copied();
                assert!(
                    di.is_some() && di.unwrap() < i,
                    "dep {dep:?} of {node:?} must be confirmed strictly earlier"
                );
            }
        }
    }
}

#[test]
fn confirmed_prefix_supersets_conservative_and_resolves_a_merge() {
    for lin in [chain(), fork_merge(), deep_fork_merge()] {
        let cp: BTreeSet<NodeId> = lin.confirmed_prefix().into_iter().collect();
        for node in conservative_finalized(&lin) {
            assert!(cp.contains(&node), "{node:?} conservatively-finalized ⇒ confirmed");
        }
    }
    let dfm = deep_fork_merge();
    let cp = dfm.confirmed_prefix();
    assert!(cp.contains(&n(A, 0)) && cp.contains(&n(B, 0)) && cp.contains(&n(C, 0)),
        "the merged fork (a0,b0,c0) is confirmed: {cp:?}");
    assert!(
        cp.len() > conservative_finalized(&dfm).len(),
        "precise prefix ({}) outpaces conservative ({})",
        cp.len(),
        conservative_finalized(&dfm).len()
    );
}

fn assert_causal(lin: &Linearizer, order: &[NodeId]) {
    let pos: BTreeMap<NodeId, usize> =
        order.iter().enumerate().map(|(i, id)| (*id, i)).collect();
    assert_eq!(pos.len(), lin.len(), "order must list every node exactly once");
    for node in order {
        for dep in order.iter().filter(|d| *d != node && lin.sees(node, d)) {
            assert!(
                pos[dep] < pos[node],
                "causal violation: {dep:?} must precede {node:?}"
            );
        }
    }
}

#[test]
fn linear_chain() {
    let mut lin = Linearizer::new();
    add(&mut lin, n(A, 0), &[]);
    add(&mut lin, n(B, 0), &[n(A, 0)]);
    add(&mut lin, n(C, 0), &[n(B, 0)]);
    add(&mut lin, n(A, 1), &[n(C, 0)]);
    add(&mut lin, n(B, 1), &[n(A, 1)]);

    assert_eq!(
        lin.order(),
        vec![n(A, 0), n(B, 0), n(C, 0), n(A, 1), n(B, 1)]
    );
    assert_causal(&lin, &lin.order());
}

#[test]
fn branch_tiebreak_by_key() {
    let mut lin = Linearizer::new();
    add(&mut lin, n(A, 0), &[]);
    add(&mut lin, n(B, 0), &[]);
    add(&mut lin, n(C, 0), &[n(A, 0), n(B, 0)]);
    add(&mut lin, n(A, 1), &[n(C, 0)]);

    assert_eq!(lin.order(), vec![n(A, 0), n(B, 0), n(C, 0), n(A, 1)]);
    assert_causal(&lin, &lin.order());
}

fn recursive_dag() -> Vec<(NodeId, Vec<NodeId>)> {
    vec![
        (n(A, 0), vec![]),
        (n(C, 0), vec![]),
        (n(B, 0), vec![n(A, 0), n(C, 0)]),
        (n(A, 1), vec![n(C, 0)]),
        (n(C, 1), vec![n(B, 0)]),
        (n(B, 1), vec![n(A, 1)]),
        (n(B, 2), vec![n(C, 1)]),
    ]
}

#[test]
fn recursive_dag_matches_design() {
    let mut lin = Linearizer::new();
    for (node, heads) in recursive_dag() {
        add(&mut lin, node, &heads);
    }

    assert_eq!(
        lin.order(),
        vec![
            n(A, 0),
            n(C, 0),
            n(A, 1),
            n(B, 0),
            n(B, 1),
            n(C, 1),
            n(B, 2)
        ]
    );
    assert_causal(&lin, &lin.order());
    assert_eq!(lin.tails(), vec![n(A, 0), n(C, 0)]);
}

#[test]
fn deterministic_regardless_of_arrival_order() {
    let dag = recursive_dag();
    let by_index = |idxs: &[usize]| {
        let mut lin = Linearizer::new();
        for &i in idxs {
            let (node, heads) = &dag[i];
            add(&mut lin, *node, heads);
        }
        lin.order()
    };

    let canonical = by_index(&[0, 1, 2, 3, 4, 5, 6]);
    let perm_b = by_index(&[1, 0, 3, 2, 4, 5, 6]);
    let perm_c = by_index(&[1, 0, 2, 4, 3, 5, 6]);

    assert_eq!(canonical, perm_b);
    assert_eq!(canonical, perm_c);
}

#[test]
fn rejects_causal_delivery_violations() {
    let mut lin = Linearizer::new();
    add(&mut lin, n(A, 0), &[]);

    assert_eq!(lin.add(n(A, 0), &[]), Err(AddError::Duplicate(n(A, 0))));

    assert_eq!(
        lin.add(n(A, 2), &[]),
        Err(AddError::Gap {
            writer: wk(A),
            expected: 1,
            got: 2,
        })
    );

    assert_eq!(
        lin.add(n(B, 0), &[n(C, 0)]),
        Err(AddError::MissingHead(n(C, 0)))
    );

    add(&mut lin, n(A, 1), &[]);
    assert_eq!(lin.len(), 2);
    assert_eq!(lin.order(), vec![n(A, 0), n(A, 1)]);
}

#[test]
fn empty_orders_to_nothing() {
    let lin = Linearizer::new();
    assert!(lin.order().is_empty());
    assert!(lin.tails().is_empty());
}

const D: u8 = 4;

fn indexed(keys: &[u8]) -> Linearizer {
    Linearizer::with_indexers(keys.iter().map(|&k| wk(k)).collect())
}

#[test]
fn quorum_degrees_match_design_chain() {
    let mut lin = indexed(&[A, B, C]);
    add(&mut lin, n(A, 0), &[]);
    add(&mut lin, n(B, 0), &[n(A, 0)]);
    add(&mut lin, n(C, 0), &[n(B, 0)]);
    add(&mut lin, n(A, 1), &[n(C, 0)]);

    assert_eq!(lin.quorum_degree(&n(A, 0)), 3, "a1 triple-quorums a0");
    assert_eq!(lin.quorum_degree(&n(B, 0)), 2, "a1 double-quorums b0");
    assert_eq!(lin.quorum_degree(&n(C, 0)), 1, "a1 single-quorums c0");
    assert_eq!(lin.quorum_degree(&n(A, 1)), 0, "a1 itself unconfirmed");
}

#[test]
fn double_quorum_design_higher_example() {
    let mut lin = indexed(&[A, B, C]);
    add(&mut lin, n(C, 0), &[]);
    add(&mut lin, n(B, 0), &[n(C, 0)]);
    add(&mut lin, n(C, 1), &[n(B, 0)]);

    assert_eq!(lin.quorum_degree(&n(C, 0)), 2, "c1 double-quorums c0");
    assert_eq!(lin.quorum_degree(&n(B, 0)), 1, "b0 single-quorumed by c1");
}

#[test]
fn single_quorum_does_not_finalize() {
    let mut lin = indexed(&[A, B, C]);
    add(&mut lin, n(A, 0), &[]);
    add(&mut lin, n(C, 0), &[]);
    add(&mut lin, n(C, 1), &[n(A, 0)]);
    add(&mut lin, n(B, 0), &[n(C, 0)]);

    assert_eq!(lin.quorum_degree(&n(A, 0)), 1);
    assert_eq!(lin.quorum_degree(&n(C, 0)), 1);
    assert!(
        lin.finalized().is_empty(),
        "competing single quorums must not finalize"
    );
}

#[test]
fn finalized_is_a_double_quorum_prefix() {
    let mut lin = indexed(&[A, B, C]);
    add(&mut lin, n(A, 0), &[]);
    add(&mut lin, n(B, 0), &[n(A, 0)]);
    add(&mut lin, n(C, 0), &[n(B, 0)]);
    add(&mut lin, n(A, 1), &[n(C, 0)]);

    let f = lin.finalized();
    assert_eq!(f, vec![n(A, 0), n(B, 0)], "only a0,b0 are double-quorum'd");
    assert!(lin.order().starts_with(&f), "finalized ⊑ order");
}

#[test]
fn finalized_prefix_only_grows() {
    let writers = [A, B, C];
    let steps: Vec<NodeId> = (0..9)
        .map(|i| n(writers[i % 3], (i / 3) as u64))
        .collect();

    let mut lin = indexed(&[A, B, C]);
    let mut prev: Vec<NodeId> = Vec::new();
    let mut last = String::new();
    for (i, node) in steps.iter().enumerate() {
        let heads = if i == 0 { vec![] } else { vec![steps[i - 1]] };
        add(&mut lin, *node, &heads);

        let cur = lin.finalized();
        assert!(cur.starts_with(&prev), "finalized must extend, never reorder");
        assert!(lin.order().starts_with(&cur), "finalized ⊑ order at every step");
        prev = cur;
        last = format!("{} nodes finalized", prev.len());
    }
    assert!(!prev.is_empty(), "a long chain must finalize something ({last})");
}

#[test]
fn majority_threshold_scales_with_indexer_count() {
    let mut lin = indexed(&[A, B, C, D]);
    add(&mut lin, n(A, 0), &[]);
    add(&mut lin, n(B, 0), &[n(A, 0)]);
    assert_eq!(lin.quorum_degree(&n(A, 0)), 0, "two of four is not a majority");

    add(&mut lin, n(C, 0), &[n(B, 0)]);
    assert_eq!(lin.quorum_degree(&n(A, 0)), 1, "three of four is a single quorum");
}

#[test]
fn no_indexers_means_no_finalization() {
    let mut lin = Linearizer::new();
    add(&mut lin, n(A, 0), &[]);
    add(&mut lin, n(B, 0), &[n(A, 0)]);
    add(&mut lin, n(C, 0), &[n(B, 0)]);

    assert_eq!(lin.quorum_degree(&n(A, 0)), 0);
    assert!(lin.finalized().is_empty());
    assert_eq!(lin.order(), vec![n(A, 0), n(B, 0), n(C, 0)]);
}

#[test]
fn non_indexer_references_do_not_vote() {
    let mut lin = indexed(&[A, B]);
    add(&mut lin, n(A, 0), &[]);
    add(&mut lin, n(C, 0), &[n(A, 0)]);

    assert_eq!(lin.quorum_degree(&n(A, 0)), 0, "non-indexer vote ignored");

    add(&mut lin, n(B, 0), &[n(C, 0)]);
    assert_eq!(lin.quorum_degree(&n(A, 0)), 1, "{{a,b}} is the quorum");
    assert!(lin.order().contains(&n(C, 0)));
}
