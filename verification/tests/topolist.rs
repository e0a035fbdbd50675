//! The plain order against an insertion sort.
use std::cmp::Ordering;
use std::collections::{BTreeMap, BTreeSet};

use hypercore_rs::autobase::{Linearizer, NodeId, WriterKey};

fn direct_deps(steps: &[(NodeId, Vec<NodeId>)]) -> BTreeMap<NodeId, BTreeSet<NodeId>> {
    let mut direct = BTreeMap::new();
    for (node, cross) in steps {
        let mut d: BTreeSet<NodeId> = cross.iter().copied().collect();
        if node.seq > 0 {
            d.insert(NodeId::new(node.key, node.seq - 1));
        }
        direct.insert(*node, d);
    }
    direct
}

fn links(direct: &BTreeMap<NodeId, BTreeSet<NodeId>>, a: &NodeId, b: &NodeId) -> bool {
    direct.get(a).is_some_and(|d| d.contains(b))
}

fn compare(direct: &BTreeMap<NodeId, BTreeSet<NodeId>>, a: &NodeId, b: &NodeId) -> Ordering {
    if links(direct, b, a) {
        return Ordering::Less;
    }
    (a.key, a.seq).cmp(&(b.key, b.seq))
}

fn topolist_oracle(direct: &BTreeMap<NodeId, BTreeSet<NodeId>>, add_order: &[NodeId]) -> Vec<NodeId> {
    let mut list: Vec<NodeId> = Vec::with_capacity(add_order.len());

    for &node in add_order {
        list.push(node);
        let mut idx = list.len() - 1;

        while idx > 0 {
            let prev = list[idx - 1];
            if links(direct, &node, &prev) {
                break;
            }
            list.swap(idx - 1, idx);
            idx -= 1;
        }

        while idx + 1 < list.len() {
            let next = list[idx + 1];
            if compare(direct, &node, &next) != Ordering::Greater {
                break;
            }
            list.swap(idx, idx + 1);
            idx += 1;
        }
    }

    list
}

fn linearizer_order(steps: &BTreeMap<NodeId, Vec<NodeId>>, add_order: &[NodeId]) -> Vec<NodeId> {
    let mut lin = Linearizer::new();
    for node in add_order {
        let cross = steps.get(node).map(|v| v.as_slice()).unwrap_or(&[]);
        lin.add(*node, cross).expect("a causal delivery order must add cleanly");
    }
    lin.order()
}

struct Rng(u64);

impl Rng {
    fn new(seed: u64) -> Self {
        Rng(seed ^ 0x9E37_79B9_7F4A_7C15)
    }
    fn next_u64(&mut self) -> u64 {
        self.0 = self.0.wrapping_add(0x9E37_79B9_7F4A_7C15);
        let mut z = self.0;
        z = (z ^ (z >> 30)).wrapping_mul(0xBF58_476D_1CE4_E5B9);
        z = (z ^ (z >> 27)).wrapping_mul(0x94D0_49BB_1331_11EB);
        z ^ (z >> 31)
    }
    fn below(&mut self, n: usize) -> usize {
        (self.next_u64() % n as u64) as usize
    }
    fn chance(&mut self, num: u32, den: u32) -> bool {
        (self.next_u64() % den as u64) < num as u64
    }
}

fn wkey(i: usize) -> WriterKey {
    [(i as u8) + 1; 32]
}

fn gen_dag(n_writers: usize, n_nodes: usize, num: u32, den: u32, rng: &mut Rng) -> Vec<(NodeId, Vec<NodeId>)> {
    let writers: Vec<WriterKey> = (0..n_writers).map(wkey).collect();
    let mut next_seq = vec![0u64; n_writers];
    let mut tails: BTreeSet<NodeId> = BTreeSet::new();
    let mut steps = Vec::with_capacity(n_nodes);

    while steps.len() < n_nodes {
        let wi = rng.below(n_writers);
        let key = writers[wi];
        let seq = next_seq[wi];
        let node = NodeId::new(key, seq);

        let mut cross = Vec::new();
        for t in tails.iter() {
            if t.key != key && rng.chance(num, den) {
                cross.push(*t);
            }
        }
        next_seq[wi] = seq + 1;
        for t in &cross {
            if rng.chance(num, den) {
                tails.remove(t);
            }
        }
        if seq > 0 && rng.chance(num, den) {
            tails.remove(&NodeId::new(key, seq - 1));
        }
        tails.insert(node);
        steps.push((node, cross));
    }

    steps
}

fn random_topo(direct: &BTreeMap<NodeId, BTreeSet<NodeId>>, rng: &mut Rng) -> Vec<NodeId> {
    let mut children: BTreeMap<NodeId, Vec<NodeId>> = direct.keys().map(|k| (*k, Vec::new())).collect();
    let mut indeg: BTreeMap<NodeId, usize> = BTreeMap::new();
    for (n, d) in direct {
        indeg.insert(*n, d.len());
        for dep in d {
            children.get_mut(dep).expect("dependency is a known node").push(*n);
        }
    }
    let mut frontier: Vec<NodeId> = indeg.iter().filter(|(_, c)| **c == 0).map(|(n, _)| *n).collect();
    let mut out = Vec::with_capacity(direct.len());
    while !frontier.is_empty() {
        let i = rng.below(frontier.len());
        let node = frontier.swap_remove(i);
        out.push(node);
        for c in children.get(&node).into_iter().flatten() {
            let e = indeg.get_mut(c).expect("known node");
            *e -= 1;
            if *e == 0 {
                frontier.push(*c);
            }
        }
    }
    out
}

fn assert_causal(direct: &BTreeMap<NodeId, BTreeSet<NodeId>>, order: &[NodeId]) {
    let pos: BTreeMap<NodeId, usize> = order.iter().enumerate().map(|(i, n)| (*n, i)).collect();
    assert_eq!(pos.len(), direct.len(), "order lists every node exactly once");
    for (node, ds) in direct {
        for d in ds {
            assert!(pos[d] < pos[node], "causal violation: {d:?} must precede {node:?}");
        }
    }
}

fn n(key: u8, seq: u64) -> NodeId {
    NodeId::new([key; 32], seq)
}
const A: u8 = 1;
const B: u8 = 2;
const C: u8 = 3;

#[test]
fn stable_ordering_matches_upstream_example() {
    let steps = vec![
        (n(A, 0), vec![]),
        (n(B, 0), vec![n(A, 0)]),
        (n(C, 0), vec![n(A, 0)]),
        (n(C, 1), vec![]),
    ];
    let steps_map: BTreeMap<NodeId, Vec<NodeId>> = steps.iter().cloned().collect();
    let direct = direct_deps(&steps);
    let expected = vec![n(A, 0), n(B, 0), n(C, 0), n(C, 1)];

    let add_orders = [
        vec![n(A, 0), n(C, 0), n(C, 1), n(B, 0)],
        vec![n(A, 0), n(C, 0), n(B, 0), n(C, 1)],
        vec![n(A, 0), n(B, 0), n(C, 0), n(C, 1)],
    ];
    for add_order in &add_orders {
        assert_eq!(linearizer_order(&steps_map, add_order), expected, "order() example");
        assert_eq!(topolist_oracle(&direct, add_order), expected, "oracle example");
    }
}

#[test]
fn priority_kahn_matches_topolist_on_design_dags() {
    let cases: Vec<(Vec<(NodeId, Vec<NodeId>)>, Vec<NodeId>)> = vec![
        (
            vec![
                (n(A, 0), vec![]),
                (n(B, 0), vec![n(A, 0)]),
                (n(C, 0), vec![n(B, 0)]),
                (n(A, 1), vec![n(C, 0)]),
                (n(B, 1), vec![n(A, 1)]),
            ],
            vec![n(A, 0), n(B, 0), n(C, 0), n(A, 1), n(B, 1)],
        ),
        (
            vec![
                (n(A, 0), vec![]),
                (n(B, 0), vec![]),
                (n(C, 0), vec![n(A, 0), n(B, 0)]),
                (n(A, 1), vec![n(C, 0)]),
            ],
            vec![n(A, 0), n(B, 0), n(C, 0), n(A, 1)],
        ),
        (
            vec![
                (n(A, 0), vec![]),
                (n(C, 0), vec![]),
                (n(B, 0), vec![n(A, 0), n(C, 0)]),
                (n(A, 1), vec![n(C, 0)]),
                (n(C, 1), vec![n(B, 0)]),
                (n(B, 1), vec![n(A, 1)]),
                (n(B, 2), vec![n(C, 1)]),
            ],
            vec![n(A, 0), n(C, 0), n(A, 1), n(B, 0), n(B, 1), n(C, 1), n(B, 2)],
        ),
    ];

    for (steps, expected) in cases {
        let steps_map: BTreeMap<NodeId, Vec<NodeId>> = steps.iter().cloned().collect();
        let direct = direct_deps(&steps);
        let creation: Vec<NodeId> = steps.iter().map(|(node, _)| *node).collect();

        let got = linearizer_order(&steps_map, &creation);
        assert_eq!(got, expected, "order() vs hand-derived");
        assert_eq!(topolist_oracle(&direct, &creation), expected, "oracle vs hand-derived");
        assert_eq!(got, topolist_oracle(&direct, &creation), "order() vs oracle");
    }
}

#[test]
fn priority_kahn_matches_topolist_over_random_dags() {
    let n_writers = 5;
    let n_nodes = 30;
    let deliveries = 4;

    let mut nontrivial = 0usize;

    for seed in 0..200u64 {
        let mut rng = Rng::new(0x70F0_0000_0000_0001 ^ seed.wrapping_mul(0x9E37_79B9_7F4A_7C15));
        let (num, den) = if seed % 2 == 0 { (3, 5) } else { (17, 20) };
        let steps = gen_dag(n_writers, n_nodes, num, den, &mut rng);
        let steps_map: BTreeMap<NodeId, Vec<NodeId>> = steps.iter().cloned().collect();
        let direct = direct_deps(&steps);
        let creation: Vec<NodeId> = steps.iter().map(|(node, _)| *node).collect();

        let order = linearizer_order(&steps_map, &creation);
        assert_eq!(order.len(), n_nodes, "every node ordered (seed {seed})");
        assert_causal(&direct, &order);
        if order != creation {
            nontrivial += 1;
        }

        assert_eq!(
            topolist_oracle(&direct, &creation),
            order,
            "topolist oracle vs priority-Kahn (seed {seed}, creation order)"
        );

        for d in 0..deliveries {
            let delivery = random_topo(&direct, &mut rng);
            assert_causal(&direct, &delivery);
            let oracle = topolist_oracle(&direct, &delivery);
            assert_eq!(
                oracle, order,
                "topolist oracle is delivery-order independent and == order() (seed {seed}, delivery {d})"
            );
            assert_eq!(
                linearizer_order(&steps_map, &delivery),
                order,
                "order() is delivery-order independent (seed {seed}, delivery {d})"
            );
        }
    }

    assert!(
        nontrivial > 0,
        "no seed reordered creation order — the equivalence check was vacuous; make the DAGs forkier"
    );
}
