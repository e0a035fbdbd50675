//! The linearization as a view, and its final prefix.
use std::collections::{BTreeMap, BTreeSet};

use hypercore_rs::autobase::{Linearizer, NodeId, WriterKey};

fn n(key: u8, seq: u64) -> NodeId {
    NodeId::new([key; 32], seq)
}
const A: u8 = 1;
const B: u8 = 2;
const C: u8 = 3;

fn indexed(keys: &[u8]) -> Linearizer {
    Linearizer::with_indexers(keys.iter().map(|&k| [k; 32] as WriterKey).collect())
}

fn simple_chain() -> Vec<(NodeId, Vec<NodeId>)> {
    vec![
        (n(C, 0), vec![]),
        (n(B, 0), vec![n(C, 0)]),
        (n(A, 0), vec![n(B, 0)]),
        (n(C, 1), vec![n(A, 0)]),
        (n(B, 1), vec![n(C, 1)]),
        (n(A, 1), vec![n(B, 1)]),
    ]
}

fn build(indexers: &[u8], steps: &[(NodeId, Vec<NodeId>)], add_order: &[usize]) -> Linearizer {
    let mut lin = indexed(indexers);
    for &i in add_order {
        let (node, heads) = &steps[i];
        lin.add(*node, heads).expect("causal delivery order must add cleanly");
    }
    lin
}

fn direct_deps(steps: &[(NodeId, Vec<NodeId>)]) -> BTreeMap<NodeId, BTreeSet<NodeId>> {
    let mut direct = BTreeMap::new();
    for (node, cross) in steps {
        let mut d: BTreeSet<NodeId> = cross.iter().copied().collect();
        if node.seq > 0 {
            d.insert(NodeId::new(node.key, node.seq - 1));
        }
        direct.insert(*node, d);
    }
    direct
}

fn assert_view_prefix_invariant(lin: &Linearizer) {
    let view = lin.view();
    let indexed = lin.indexed_view();
    assert!(view.starts_with(&indexed), "indexed view must be a prefix of the view");
    assert_eq!(lin.view_len(), view.len(), "view_len == |view|");
    assert_eq!(lin.indexed_view_len(), indexed.len(), "indexed_view_len == |indexed_view|");
    for (i, node) in view.iter().enumerate() {
        assert_eq!(lin.view_get(i), Some(*node), "view_get({i})");
    }
    assert_eq!(lin.view_get(view.len()), None, "view_get past the end is None");
}

#[test]
fn simple_chain_view_and_indexed_length() {
    let steps = simple_chain();
    let lin = build(&[A, B, C], &steps, &[0, 1, 2, 3, 4, 5]);

    let expected_view = vec![n(C, 0), n(B, 0), n(A, 0), n(C, 1), n(B, 1), n(A, 1)];
    assert_eq!(lin.view(), expected_view, "full materialized view");
    assert_eq!(lin.view_len(), 6, "view.length");

    assert_eq!(lin.view_get(0), Some(n(C, 0)));
    assert_eq!(lin.view_get(1), Some(n(B, 0)));
    assert_eq!(lin.view_get(2), Some(n(A, 0)));
    assert_eq!(lin.view_get(3), Some(n(C, 1)));
    assert_eq!(lin.view_get(4), Some(n(B, 1)));
    assert_eq!(lin.view_get(5), Some(n(A, 1)));
    assert_eq!(lin.view_get(6), None, "nothing past the end");

    assert_eq!(lin.indexed_view_len(), 4, "confirmed length");
    assert_eq!(lin.indexed_view(), vec![n(C, 0), n(B, 0), n(A, 0), n(C, 1)]);

    assert_eq!(lin.tails(), vec![n(C, 0)]);

    assert_view_prefix_invariant(&lin);
}

#[test]
fn recursive_dag_view_converges() {
    let steps = vec![
        (n(A, 0), vec![]),
        (n(C, 0), vec![]),
        (n(B, 0), vec![n(A, 0), n(C, 0)]),
        (n(A, 1), vec![n(C, 0)]),
        (n(C, 1), vec![n(B, 0)]),
        (n(B, 1), vec![n(A, 1)]),
        (n(B, 2), vec![n(C, 1)]),
    ];
    let expected_view = vec![
        n(A, 0),
        n(C, 0),
        n(A, 1),
        n(B, 0),
        n(B, 1),
        n(C, 1),
        n(B, 2),
    ];

    let add_orders: [Vec<usize>; 3] = [
        vec![0, 1, 2, 3, 4, 5, 6],
        vec![1, 0, 3, 2, 4, 5, 6],
        vec![1, 0, 2, 4, 3, 5, 6],
    ];

    let direct = direct_deps(&steps);
    let mut indexed_lens = Vec::new();
    for p in &add_orders {
        let lin = build(&[A, B, C], &steps, p);
        assert_eq!(lin.view(), expected_view, "view is the canonical linearization");
        let pos: BTreeMap<NodeId, usize> =
            lin.view().iter().enumerate().map(|(i, x)| (*x, i)).collect();
        for (node, ds) in &direct {
            for d in ds {
                assert!(pos[d] < pos[node], "view respects causality: {d:?} before {node:?}");
            }
        }
        assert_view_prefix_invariant(&lin);
        indexed_lens.push(lin.indexed_view_len());
    }
    assert!(
        indexed_lens.windows(2).all(|w| w[0] == w[1]),
        "indexed view length converges across delivery orders: {indexed_lens:?}"
    );
}

#[test]
fn non_indexer_nodes_are_in_view_but_do_not_index() {
    let mut lin = indexed(&[A, B]);
    lin.add(n(A, 0), &[]).unwrap();
    lin.add(n(C, 0), &[n(A, 0)]).unwrap();

    assert!(lin.view().contains(&n(C, 0)), "non-indexer node is in the view");
    assert_eq!(lin.view_len(), 2);
    assert_eq!(lin.indexed_view_len(), 0, "non-indexer reference does not index");
    assert_view_prefix_invariant(&lin);
}
