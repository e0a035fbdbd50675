//! Quorum degrees against a second way of computing them.
use std::collections::{BTreeMap, BTreeSet};

use hypercore_rs::autobase::{Linearizer, NodeId, WriterKey};

struct Rng(u64);

impl Rng {
    fn new(seed: u64) -> Self {
        Rng(seed)
    }

    fn next_u64(&mut self) -> u64 {
        self.0 = self.0.wrapping_add(0x9E37_79B9_7F4A_7C15);
        let mut z = self.0;
        z = (z ^ (z >> 30)).wrapping_mul(0xBF58_476D_1CE4_E5B9);
        z = (z ^ (z >> 27)).wrapping_mul(0x94D0_49BB_1331_11EB);
        z ^ (z >> 31)
    }

    fn below(&mut self, n: usize) -> usize {
        (self.next_u64() % n as u64) as usize
    }

    fn chance(&mut self, num: u32, den: u32) -> bool {
        (self.next_u64() % den as u64) < num as u64
    }
}

fn wkey(i: usize) -> WriterKey {
    [(i as u8) + 1; 32]
}

fn node(i: usize, seq: u64) -> NodeId {
    NodeId::new(wkey(i), seq)
}

type Steps = Vec<(NodeId, Vec<NodeId>)>;

fn gen_partitioned(
    n_writers: usize,
    n_nodes: usize,
    ref_num: u32,
    ref_den: u32,
    rng: &mut Rng,
) -> Steps {
    let writers: Vec<WriterKey> = (0..n_writers).map(wkey).collect();
    let mut next_seq = vec![0u64; n_writers];
    let mut tails: BTreeSet<NodeId> = BTreeSet::new();
    let mut steps: Steps = Vec::with_capacity(n_nodes);

    while steps.len() < n_nodes {
        let wi = rng.below(n_writers);
        let key = writers[wi];
        let seq = next_seq[wi];
        let n = NodeId::new(key, seq);

        let mut cross = Vec::new();
        for t in tails.iter() {
            if t.key != key && rng.chance(ref_num, ref_den) {
                cross.push(*t);
            }
        }

        next_seq[wi] = seq + 1;

        for t in &cross {
            if rng.chance(ref_num, ref_den) {
                tails.remove(t);
            }
        }
        if seq > 0 && rng.chance(ref_num, ref_den) {
            tails.remove(&NodeId::new(key, seq - 1));
        }
        tails.insert(n);

        steps.push((n, cross));
    }

    steps
}

fn deps_of(steps: &Steps) -> BTreeMap<NodeId, BTreeSet<NodeId>> {
    let mut deps = BTreeMap::new();
    for (n, cross) in steps {
        let mut d: BTreeSet<NodeId> = cross.iter().copied().collect();
        if n.seq > 0 {
            d.insert(NodeId::new(n.key, n.seq - 1));
        }
        deps.insert(*n, d);
    }
    deps
}

fn closures(steps: &Steps) -> BTreeMap<NodeId, BTreeSet<NodeId>> {
    let deps = deps_of(steps);
    let mut anc: BTreeMap<NodeId, BTreeSet<NodeId>> = BTreeMap::new();
    for (n, _) in steps {
        let mut set = BTreeSet::new();
        set.insert(*n);
        for d in &deps[n] {
            let prior = anc
                .get(d)
                .expect("dependency closed before dependent (creation order is topological)");
            for u in prior {
                set.insert(*u);
            }
        }
        anc.insert(*n, set);
    }
    anc
}

fn ref_quorum_degree(
    anc: &BTreeMap<NodeId, BTreeSet<NodeId>>,
    indexers: &BTreeSet<WriterKey>,
    target: &NodeId,
) -> usize {
    if !anc.contains_key(target) || indexers.is_empty() {
        return 0;
    }
    let m = indexers.len() / 2 + 1;

    let seen: BTreeSet<NodeId> = anc
        .iter()
        .filter(|(_, a)| a.contains(target))
        .map(|(v, _)| *v)
        .collect();

    let count_at_level = |v: &NodeId, level: usize, deg: &BTreeMap<NodeId, usize>| -> usize {
        let mut writers: BTreeSet<WriterKey> = BTreeSet::new();
        for u in &anc[v] {
            if seen.contains(u) && indexers.contains(&u.key) && *deg.get(u).unwrap_or(&0) >= level {
                writers.insert(u.key);
            }
        }
        writers.len()
    };

    let cap = seen.len() + 8;
    let mut deg: BTreeMap<NodeId, usize> = seen.iter().map(|v| (*v, 0usize)).collect();
    loop {
        let snapshot = deg.clone();
        let mut changed = false;
        for v in &seen {
            let mut d = 0usize;
            while count_at_level(v, d, &snapshot) >= m {
                d += 1;
                assert!(d <= cap, "degree did not converge (cap {cap}) for {v:?}");
            }
            if d != snapshot[v] {
                changed = true;
            }
            deg.insert(*v, d);
        }
        if !changed {
            break;
        }
    }

    deg.values().copied().max().unwrap_or(0)
}

fn random_topo(deps: &BTreeMap<NodeId, BTreeSet<NodeId>>, rng: &mut Rng) -> Vec<NodeId> {
    let mut children: BTreeMap<NodeId, Vec<NodeId>> =
        deps.keys().map(|k| (*k, Vec::new())).collect();
    let mut indeg: BTreeMap<NodeId, usize> = BTreeMap::new();
    for (n, d) in deps {
        indeg.insert(*n, d.len());
        for dep in d {
            children.get_mut(dep).expect("dependency is a known node").push(*n);
        }
    }

    let mut frontier: Vec<NodeId> = indeg
        .iter()
        .filter(|(_, c)| **c == 0)
        .map(|(n, _)| *n)
        .collect();
    let mut out = Vec::with_capacity(deps.len());

    while !frontier.is_empty() {
        let i = rng.below(frontier.len());
        let n = frontier.swap_remove(i);
        out.push(n);
        if let Some(cs) = children.get(&n) {
            for c in cs {
                let e = indeg.get_mut(c).expect("known node");
                *e -= 1;
                if *e == 0 {
                    frontier.push(*c);
                }
            }
        }
    }

    out
}

fn deliver(
    cross_by_node: &BTreeMap<NodeId, Vec<NodeId>>,
    order: &[NodeId],
    indexers: &[WriterKey],
) -> Linearizer {
    let mut lin = Linearizer::with_indexers(indexers.to_vec());
    for n in order {
        let cross = cross_by_node.get(n).map(|v| v.as_slice()).unwrap_or(&[]);
        lin.add(*n, cross).expect("a causal delivery order must add cleanly");
    }
    lin
}

#[test]
fn reference_oracle_reproduces_design_examples() {
    let (a, b, c) = (0usize, 1, 2);
    let idx: BTreeSet<WriterKey> = [a, b, c].iter().map(|&i| wkey(i)).collect();
    let idx_vec: Vec<WriterKey> = [a, b, c].iter().map(|&i| wkey(i)).collect();

    let check = |steps: &Steps, target: NodeId, expected: usize| {
        let anc = closures(steps);
        assert_eq!(
            ref_quorum_degree(&anc, &idx, &target),
            expected,
            "the fixpoint is off over {target:?}"
        );
        let cross: BTreeMap<NodeId, Vec<NodeId>> = steps.iter().cloned().collect();
        let order: Vec<NodeId> = steps.iter().map(|(n, _)| *n).collect();
        let lin = deliver(&cross, &order, &idx_vec);
        assert_eq!(
            lin.quorum_degree(&target),
            expected,
            "the linearizer is off over {target:?}"
        );
    };

    let chain: Steps = vec![
        (node(a, 0), vec![]),
        (node(b, 0), vec![node(a, 0)]),
        (node(c, 0), vec![node(b, 0)]),
        (node(a, 1), vec![node(c, 0)]),
    ];
    check(&chain, node(a, 0), 3);
    check(&chain, node(b, 0), 2);
    check(&chain, node(c, 0), 1);
    check(&chain, node(a, 1), 0);

    let higher: Steps = vec![
        (node(c, 0), vec![]),
        (node(b, 0), vec![node(c, 0)]),
        (node(c, 1), vec![node(b, 0)]),
    ];
    check(&higher, node(c, 0), 2);
    check(&higher, node(b, 0), 1);

    let compete: Steps = vec![
        (node(a, 0), vec![]),
        (node(c, 0), vec![]),
        (node(c, 1), vec![node(a, 0)]),
        (node(b, 0), vec![node(c, 0)]),
    ];
    check(&compete, node(a, 0), 1);
    check(&compete, node(c, 0), 1);
}

#[test]
fn quorum_degree_matches_independent_oracle_over_random_dags() {
    let configs = [(5usize, 3usize), (6, 4), (5, 5)];
    let n_nodes = 30;
    let replicas = 3;

    let mut seen_deg0 = false;
    let mut seen_deg1 = false;
    let mut seen_deg2 = false;
    let mut max_deg = 0usize;
    let mut comparisons = 0usize;

    for &(n_writers, n_indexers) in &configs {
        let indexers_vec: Vec<WriterKey> = (0..n_indexers).map(wkey).collect();
        let indexers: BTreeSet<WriterKey> = indexers_vec.iter().copied().collect();

        for seed in 0..24u64 {
            let mut rng = Rng::new(
                0x91A0_0000_0000_0001
                    ^ seed.wrapping_mul(0x9E37_79B9_7F4A_7C15)
                    ^ ((n_writers as u64) << 40)
                    ^ ((n_indexers as u64) << 48),
            );
            let (rn, rd) = if seed % 2 == 0 { (3, 5) } else { (17, 20) };
            let steps = gen_partitioned(n_writers, n_nodes, rn, rd, &mut rng);

            let cross_by_node: BTreeMap<NodeId, Vec<NodeId>> = steps.iter().cloned().collect();
            let deps = deps_of(&steps);
            let anc = closures(&steps);

            let creation: Vec<NodeId> = steps.iter().map(|(n, _)| *n).collect();
            let mut reps = vec![deliver(&cross_by_node, &creation, &indexers_vec)];
            for _ in 0..replicas {
                let topo = random_topo(&deps, &mut rng);
                assert_eq!(topo.len(), n_nodes, "topo covers every node (seed {seed})");
                reps.push(deliver(&cross_by_node, &topo, &indexers_vec));
            }

            for (n, _) in &steps {
                let expected = ref_quorum_degree(&anc, &indexers, n);
                for (ri, r) in reps.iter().enumerate() {
                    assert_eq!(
                        r.quorum_degree(n),
                        expected,
                        "quorum_degree mismatch for {n:?} \
                         (writers {n_writers}, indexers {n_indexers}, seed {seed}, replica {ri})"
                    );
                }
                comparisons += 1;
                max_deg = max_deg.max(expected);
                match expected {
                    0 => seen_deg0 = true,
                    1 => seen_deg1 = true,
                    _ => seen_deg2 = true,
                }
            }
        }
    }

    assert!(comparisons > 0, "no comparisons ran");
    assert!(
        seen_deg0 && seen_deg1 && seen_deg2,
        "non-vacuity: degrees 0, 1, and ≥2 must all appear across the corpus \
         (0={seen_deg0} 1={seen_deg1} ≥2={seen_deg2})"
    );
    assert!(
        max_deg >= 2,
        "expected at least a double quorum to form somewhere (max observed {max_deg})"
    );
}
