//! Range and upgrade proofs made by a tree verify; what a common prefix is; what
//! storing a tree keeps; what acceptance rules out.
use vstd::prelude::*;
use vstd::arithmetic::power2::pow2;
use super::flat;
use super::hash::{apart, digest};
use super::laws::{
    built, built_at, bytes_before, holds, law_held_is_keyed, law_truncate, lemma_built,
    lemma_built_same, lemma_bytes_mono, lemma_held_roots, lemma_roots_before, located,
};
use super::proofs::{
    climb, closes, derived, derived_at, derived_roots, known_nodes, leaves_of, left_bytes,
    lemma_ends_in,
    lemma_known, lemma_lookup, lemma_place, lift, lookup, paired, place, rooted, roots_before,
    step_up, tops_of, with_root, with_roots, NodeProof, Proof, RangeProof, SeekProof, UpgradeProof,
    LEVELS,
};
use super::tree::{
    bisect, boundary, entries_bytes, entries_of, fresh_below, fresh_under, lemma_below_summit,
    node_at, node_bytes, parsed_tree, Tree,
};
use super::{
    joined, leaf_bytes, leaf_node, parent_bytes, root_digest, roots_bytes, tree_bytes, Node,
    LEAF, MAX_BLOCKS, SUMMIT,
};
use crate::bytes::{le64, lemma_array32, lemma_le64, lemma_le64_injective};
use crate::table::{keys_of, lemma_keys_exist};

verus! {

/// The stored nodes at `depth` with offsets `[lo, hi)`.
spec fn run(t: Tree, depth: nat, lo: nat, hi: nat) -> Seq<Node> {
    Seq::new(
        if lo < hi {
            (hi - lo) as nat
        } else {
            0
        },
        |k: int| t.nodes[flat::index_of(depth, (lo + k) as nat) as u64],
    )
}

/// A node of a level with `count` complete nodes, for a log of `n` blocks.
proof fn lemma_on_level(t: Tree, blocks: Seq<Seq<u8>>, d: nat, count: nat, o: nat)
    requires
        holds(t, blocks),
        count == blocks.len() / pow2(d),
        o < count,
    ensures
        ({
            let i = flat::index_of(d, o);
            &&& i < u64::MAX
            &&& i != SUMMIT
            &&& flat::complete(i, blocks.len())
            &&& t.nodes.contains_key(i as u64)
            &&& t.nodes[i as u64].index == i
            &&& flat::depth_of(i) == d
            &&& flat::offset_of(i) == o
            &&& flat::is_root(i, blocks.len()) == (o == count - count % 2)
            &&& o != count - count % 2 ==> {
                let s = flat::index_of(d, flat::twin(o));
                let p = flat::index_of(d + 1, o / 2);
                &&& flat::twin(o) < count
                &&& s == flat::sibling_of(i)
                &&& p == flat::parent_of(i)
                &&& step_up(t.nodes[i as u64], t.nodes[s as u64]) == Some(t.nodes[p as u64])
            }
            &&& d < 63
        }),
{
    let n = blocks.len();
    let p = pow2(d);
    vstd::arithmetic::power2::lemma_pow2_pos(d);
    vstd::arithmetic::div_mod::lemma_fundamental_div_mod(n as int, p as int);
    let i = flat::index_of(d, o);
    flat::lemma_index(d, o);
    flat::lemma_coords(i);
    assert((o + 1) * p <= n) by (nonlinear_arith)
        requires
            n == p * count + n % p,
            0 <= n % p,
            o + 1 <= count,
            p > 0,
    ;
    flat::lemma_word(i);
    lemma_below_summit(i as u64, n as u64);
    law_held_is_keyed(t, blocks);
    assert(t.nodes.contains_key(i as u64));
    flat::lemma_family(i);
    flat::lemma_range(i);
    let q = flat::parent_of(i);
    let h = o / 2;
    // The parent is complete exactly when the next level has it.
    assert(flat::end_of(q) == (h + 1) * (2 * p));
    let even = count - count % 2;
    if o == even {
        assert(h == even / 2 && 2 * h == even);
        assert((h + 1) * (2 * p) > n) by (nonlinear_arith)
            requires
                n == p * count + n % p,
                n % p < p,
                count == 2 * h + 1,
                p > 0,
        ;
    } else {
        assert(2 * (h + 1) <= count);
        assert((h + 1) * (2 * p) <= n) by (nonlinear_arith)
            requires
                n == p * count + n % p,
                0 <= n % p,
                2 * (h + 1) <= count,
                p > 0,
        ;
        super::laws::lemma_stored_parent(t, blocks, i as u64);
    }
}

/// Whether every node of `table` is a stored node, and each of `wanted` is in it.
spec fn supplies(t: Tree, table: Seq<Node>, wanted: Seq<nat>) -> bool {
    forall|k: int|
        0 <= k < wanted.len() ==> lookup(table, #[trigger] wanted[k] as u64) == Some(
            t.nodes[wanted[k] as u64],
        )
}

/// One level of the climb of a run of stored nodes is the run of their parents.
#[verifier::rlimit(60)]
proof fn lemma_lift_run(
    t: Tree,
    blocks: Seq<Seq<u8>>,
    d: nat,
    lo: nat,
    hi: nat,
    count: nat,
    table: Seq<Node>,
    k: int,
)
    requires
        holds(t, blocks),
        count == blocks.len() / pow2(d),
        hi <= count,
        lo < hi,
        supplies(t, table, boundary(d, lo, hi, count)),
        0 <= k <= hi - lo,
        k == 0 || (lo + k) % 2 == 0 || k == hi - lo,
    ensures
        ({
            let even = (count - count % 2) as nat;
            let top = if hi <= even {
                hi
            } else {
                even
            };
            let from = if k == 0 {
                lo / 2
            } else {
                (lo + k + 1) as nat / 2
            };
            &&& lift(run(t, d, lo, hi), k, table, t.roots_at(blocks.len())) matches Some(r) && r.0
                == run(t, d + 1, from, (top + 1) / 2) && r.1 == if k < hi - lo && hi > even {
                seq![t.nodes[flat::index_of(d, even) as u64]]
            } else {
                Seq::empty()
            }
        }),
    decreases hi - lo - k,
{
    let n = blocks.len();
    let level = run(t, d, lo, hi);
    let roots = t.roots_at(n);
    let even = (count - count % 2) as nat;
    let top = if hi <= even {
        hi
    } else {
        even
    };
    let from = if k == 0 {
        lo / 2
    } else {
        (lo + k + 1) as nat / 2
    };
    if k == hi - lo {
        if hi > even {
            assert((hi + 1) / 2 >= (top + 1) / 2);
        }
        assert(run(t, d + 1, from, (top + 1) / 2) =~= Seq::<Node>::empty());
    } else {
        let o = (lo + k) as nat;
        lemma_on_level(t, blocks, d, count, o);
        let i = flat::index_of(d, o) as u64;
        assert(level[k].index == i);
        flat::lemma_family(i as nat);
        if o == even {
            // The root at the end of the level.
            assert(hi == even + 1);
            assert(!paired(level, k));
            super::laws::lemma_own_root(t, blocks, i);
            assert(lift(level, k + 1, table, roots) == Some((Seq::<Node>::empty(), Seq::<Node>::empty())));
            assert(run(t, d + 1, from, (top + 1) / 2) =~= Seq::<Node>::empty());
            assert(seq![level[k]] + Seq::<Node>::empty() =~= seq![t.nodes[flat::index_of(d, even) as u64]]);
        } else {
            super::laws::lemma_not_rooted(t, blocks, i);
            let up = flat::index_of(d + 1, o / 2);
            let sib = flat::index_of(d, flat::twin(o));
            lemma_on_level(t, blocks, d, count, flat::twin(o));
            if o % 2 == 0 && k + 1 < hi - lo {
                assert(level[k + 1] == t.nodes[flat::index_of(d, o + 1) as u64]);
                assert(paired(level, k));
                lemma_lift_run(t, blocks, d, lo, hi, count, table, k + 2);
                let rest = lift(level, k + 2, table, roots)->0;
                assert(seq![t.nodes[up as u64]] + rest.0 =~= run(t, d + 1, from, (top + 1) / 2));
            } else {
                // A boundary node: its sibling is supplied.
                let wanted = boundary(d, lo, hi, count);
                if o % 2 == 1 {
                    assert(k == 0);
                    assert(wanted[0] == sib);
                    if 1 < hi - lo {
                        assert(level[1] == t.nodes[flat::index_of(d, o + 1) as u64]);
                        lemma_on_level(t, blocks, d, count, o + 1);
                        flat::lemma_index(d, o + 1);
                    }
                } else {
                    assert(k + 1 == hi - lo && top == hi);
                    assert(wanted.contains(sib)) by {
                        if lo % 2 == 1 {
                            assert(wanted[1] == sib);
                        } else {
                            assert(wanted[0] == sib);
                        }
                    }
                    let w = choose|w: int| 0 <= w < wanted.len() && wanted[w] == sib;
                    assert(lookup(table, wanted[w] as u64) == Some(t.nodes[sib as u64]));
                }
                assert(!paired(level, k));
                assert(lookup(table, sib as u64) == Some(t.nodes[sib as u64]));
                lemma_lift_run(t, blocks, d, lo, hi, count, table, k + 1);
                let rest = lift(level, k + 1, table, roots)->0;
                assert(seq![t.nodes[up as u64]] + rest.0 =~= run(t, d + 1, from, (top + 1) / 2));
            }
        }
    }
}

/// Replacing roots by themselves changes nothing.
proof fn lemma_own_roots(t: Tree, blocks: Seq<Seq<u8>>, tops: Seq<Node>)
    requires
        holds(t, blocks),
        forall|k: int|
            0 <= k < tops.len() ==> flat::is_root((#[trigger] tops[k]).index as nat, blocks.len())
                && tops[k] == t.nodes[tops[k].index],
    ensures
        with_roots(t.roots_at(blocks.len()), tops) == Some(t.roots_at(blocks.len())),
    decreases tops.len(),
{
    if tops.len() > 0 {
        assert forall|k: int| 0 <= k < tops.len() - 1 implies flat::is_root(
            (#[trigger] tops.drop_last()[k]).index as nat,
            blocks.len(),
        ) && tops.drop_last()[k] == t.nodes[tops.drop_last()[k].index] by {
            assert(tops.drop_last()[k] == tops[k]);
        }
        lemma_own_roots(t, blocks, tops.drop_last());
        super::laws::lemma_own_root(t, blocks, tops.last().index);
        assert(tops.last() == tops[tops.len() - 1]);
    }
}

/// The climb of a run of stored nodes ends on stored roots.
proof fn lemma_tops_run(
    t: Tree,
    blocks: Seq<Seq<u8>>,
    d: nat,
    lo: nat,
    hi: nat,
    count: nat,
    table: Seq<Node>,
    levels: nat,
)
    requires
        holds(t, blocks),
        count == blocks.len() / pow2(d),
        hi <= count,
        supplies(t, table, boundary(d, lo, hi, count)),
        levels + d >= 64,
    ensures
        tops_of(run(t, d, lo, hi), table, t.roots_at(blocks.len()), levels) matches Some(tops)
            && forall|k: int|
            0 <= k < tops.len() ==> flat::is_root((#[trigger] tops[k]).index as nat, blocks.len())
                && tops[k] == t.nodes[tops[k].index],
    decreases levels,
{
    let n = blocks.len();
    let level = run(t, d, lo, hi);
    if lo < hi {
        lemma_on_level(t, blocks, d, count, lo);
        lemma_lift_run(t, blocks, d, lo, hi, count, table, 0);
        let even = (count - count % 2) as nat;
        let top = if hi <= even {
            hi
        } else {
            even
        };
        vstd::arithmetic::power2::lemma_pow2_unfold(d + 1);
        vstd::arithmetic::power2::lemma_pow2_pos(d);
        vstd::arithmetic::div_mod::lemma_div_denominator(n as int, pow2(d) as int, 2);
        assert(pow2(d) * 2 == pow2(d + 1));
        let wanted = boundary(d, lo, hi, count);
        let rest = boundary(d + 1, lo / 2, (top + 1) / 2, count / 2);
        assert(supplies(t, table, rest)) by {
            if lo < top {
                let skip = wanted.len() - rest.len();
                assert forall|k: int| 0 <= k < rest.len() implies lookup(
                    table,
                    #[trigger] rest[k] as u64,
                ) == Some(t.nodes[rest[k] as u64]) by {
                    assert(wanted[skip + k] == rest[k]);
                }
            } else {
                assert(lo / 2 >= (top + 1) / 2);
                assert(rest.len() == 0);
            }
        }
        lemma_tops_run(t, blocks, d + 1, lo / 2, (top + 1) / 2, count / 2, table, (levels - 1) as nat);
        let more = tops_of(
            run(t, d + 1, lo / 2, (top + 1) / 2),
            table,
            t.roots_at(n),
            (levels - 1) as nat,
        )->0;
        let (up, tops) = lift(level, 0, table, t.roots_at(n))->0;
        if hi > even {
            lemma_on_level(t, blocks, d, count, even);
        }
        assert forall|k: int| 0 <= k < (tops + more).len() implies flat::is_root(
            (#[trigger] (tops + more)[k]).index as nat,
            n,
        ) && (tops + more)[k] == t.nodes[(tops + more)[k].index] by {
            if k < tops.len() {
                assert((tops + more)[k] == tops[k]);
            } else {
                assert((tops + more)[k] == more[k - tops.len()]);
            }
        }
    } else {
        assert(level =~= Seq::<Node>::empty());
    }
}

/// A table of stored nodes supplies each index that it was picked for.
proof fn lemma_picked(t: Tree, wanted: Seq<nat>)
    requires
        t.keyed(),
        t.has_all(wanted),
        forall|k: int| 0 <= k < wanted.len() ==> #[trigger] wanted[k] < u64::MAX,
    ensures
        supplies(t, t.pick(wanted), wanted),
{
    let table = t.pick(wanted);
    assert forall|k: int| 0 <= k < wanted.len() implies lookup(table, #[trigger] wanted[k] as u64)
        == Some(t.nodes[wanted[k] as u64]) by {
        let i = wanted[k] as u64;
        lemma_lookup(table, i);
        assert(table[k].index == i);
        let x = lookup(table, i)->0;
        let j = choose|j: int| 0 <= j < table.len() && table[j] == x;
        assert(x == t.nodes[wanted[j] as u64]);
        assert(t.nodes.contains_key(wanted[j] as u64));
    }
}

/// The boundary of a range of a held tree is stored.
pub proof fn lemma_boundary_stored(t: Tree, blocks: Seq<Seq<u8>>, d: nat, lo: nat, hi: nat, count: nat)
    requires
        holds(t, blocks),
        count == blocks.len() / pow2(d),
        hi <= count,
    ensures
        t.has_all(boundary(d, lo, hi, count)),
        forall|k: int|
            0 <= k < boundary(d, lo, hi, count).len() ==> #[trigger] boundary(
                d,
                lo,
                hi,
                count,
            )[k] < u64::MAX,
    decreases count,
{
    let n = blocks.len();
    let even = (count - count % 2) as nat;
    let top = if hi <= even {
        hi
    } else {
        even
    };
    if lo < top {
        vstd::arithmetic::power2::lemma_pow2_unfold(d + 1);
        vstd::arithmetic::power2::lemma_pow2_pos(d);
        vstd::arithmetic::div_mod::lemma_div_denominator(n as int, pow2(d) as int, 2);
        assert(pow2(d) * 2 == pow2(d + 1));
        let wanted = boundary(d, lo, hi, count);
        let rest = boundary(d + 1, lo / 2, (top + 1) / 2, count / 2);
        lemma_boundary_stored(t, blocks, d + 1, lo / 2, (top + 1) / 2, count / 2);
        let skip = wanted.len() - rest.len();
        if lo % 2 == 1 {
            lemma_on_level(t, blocks, d, count, (lo - 1) as nat);
        }
        if top % 2 == 1 {
            lemma_on_level(t, blocks, d, count, top);
        }
        assert forall|k: int| 0 <= k < wanted.len() implies t.nodes.contains_key(
            #[trigger] wanted[k] as u64,
        ) && wanted[k] < u64::MAX by {
            if k >= skip {
                assert(wanted[k] == rest[k - skip]);
            }
        }
    }
}

/// The range proof that the tree of some blocks makes verifies for those blocks
/// against the tree's root hash.
pub proof fn law_range_proof(t: Tree, blocks: Seq<Seq<u8>>, p: RangeProof, data: Seq<Vec<u8>>)
    requires
        holds(t, blocks),
        p.start < p.end <= blocks.len(),
        data.len() == p.end - p.start,
        forall|k: int| 0 <= k < data.len() ==> (#[trigger] data[k])@ == blocks[p.start + k],
        p.leaf_sizes@ == Seq::new(
            (p.end - p.start) as nat,
            |k: int| t.nodes[(2 * (p.start + k)) as u64].size,
        ),
        p.nodes@ == t.pick(boundary(0, p.start as nat, p.end as nat, blocks.len())),
        p.roots@ == t.roots_at(blocks.len()),
    ensures
        t.has_all(boundary(0, p.start as nat, p.end as nat, blocks.len())),
        p.accepts(data, t.root_hash()),
{
    let n = blocks.len();
    let lo = p.start as nat;
    let hi = p.end as nat;
    vstd::arithmetic::power2::lemma2_to64();
    assert(n / pow2(0) == n);
    lemma_boundary_stored(t, blocks, 0, lo, hi, n);
    law_held_is_keyed(t, blocks);
    let wanted = boundary(0, lo, hi, n);
    lemma_picked(t, wanted);
    let leaves = leaves_of(lo, data);
    assert forall|k: int| 0 <= k < data.len() implies {
        &&& #[trigger] leaves[k] == run(t, 0, lo, hi)[k]
        &&& data[k]@.len() == p.leaf_sizes@[k]
    } by {
        let o = (lo + k) as nat;
        lemma_on_level(t, blocks, 0, n, o);
        lemma_built(blocks, 0, o);
        flat::lemma_leaf(o);
        assert(data[k]@ == blocks[p.start + k]);
        lemma_bytes_mono(blocks, o + 1, n);
        assert(bytes_before(blocks, o + 1) == bytes_before(blocks, o) + blocks[o as int].len());
    }
    assert forall|k: int| 0 <= k < data.len() implies (#[trigger] data[k])@.len()
        == p.leaf_sizes@[k] by {
        assert(leaves[k] == run(t, 0, lo, hi)[k]);
    }
    assert(leaves =~= run(t, 0, lo, hi));
    lemma_tops_run(t, blocks, 0, lo, hi, n, p.nodes@, LEVELS as nat);
    let tops = tops_of(leaves, p.nodes@, p.roots@, LEVELS as nat)->0;
    lemma_own_roots(t, blocks, tops);
}

/// The fully-new subtrees below a node lie inside it, one after the other.
proof fn lemma_fresh_below(d: nat, o: nat, old: nat)
    ensures
        forall|k: int|
            0 <= k < fresh_below(d, o, old).len() ==> {
                let x = #[trigger] fresh_below(d, o, old)[k];
                &&& old <= flat::first_of(x)
                &&& flat::first_of(flat::index_of(d, o)) <= flat::first_of(x)
                &&& flat::first_of(x) < flat::end_of(x)
                &&& flat::end_of(x) <= flat::end_of(flat::index_of(d, o))
            },
        forall|j: int, k: int|
            0 <= j < k < fresh_below(d, o, old).len() ==> flat::end_of(
                #[trigger] fresh_below(d, o, old)[j],
            ) <= flat::first_of(#[trigger] fresh_below(d, o, old)[k]),
    decreases d,
{
    let i = flat::index_of(d, o);
    super::laws::lemma_at(d, o);
    let f = fresh_below(d, o, old);
    if flat::end_of(i) <= old {
    } else if flat::first_of(i) >= old || d == 0 {
    } else {
        lemma_fresh_below((d - 1) as nat, 2 * o, old);
        lemma_fresh_below((d - 1) as nat, 2 * o + 1, old);
        let a = fresh_below((d - 1) as nat, 2 * o, old);
        let b = fresh_below((d - 1) as nat, 2 * o + 1, old);
        assert forall|k: int| 0 <= k < f.len() implies {
            let x = #[trigger] f[k];
            &&& old <= flat::first_of(x)
            &&& flat::first_of(i) <= flat::first_of(x)
            &&& flat::first_of(x) < flat::end_of(x)
            &&& flat::end_of(x) <= flat::end_of(i)
        } by {
            if k < a.len() {
                assert(f[k] == a[k]);
            } else {
                assert(f[k] == b[k - a.len()]);
            }
        }
        assert forall|j: int, k: int| 0 <= j < k < f.len() implies flat::end_of(#[trigger] f[j])
            <= flat::first_of(#[trigger] f[k]) by {
            if k < a.len() {
                assert(f[j] == a[j] && f[k] == a[k]);
            } else if j >= a.len() {
                assert(f[j] == b[j - a.len()] && f[k] == b[k - a.len()]);
            } else {
                assert(f[j] == a[j] && f[k] == b[k - a.len()]);
            }
        }
    }
}

/// The fully-new subtrees below the first roots of a log lie one after the other.
proof fn lemma_fresh_under(n: nat, m: int, old: nat)
    requires
        0 <= m <= flat::roots_of(n).len(),
    ensures
        ({
            let f = fresh_under(flat::roots_of(n).take(m), old);
            &&& forall|k: int|
                0 <= k < f.len() ==> {
                    let x = #[trigger] f[k];
                    &&& old <= flat::first_of(x)
                    &&& flat::first_of(x) < flat::end_of(x)
                    &&& m > 0 && flat::end_of(x) <= flat::end_of(flat::roots_of(n)[m - 1])
                }
            &&& forall|j: int, k: int|
                0 <= j < k < f.len() ==> flat::end_of(#[trigger] f[j]) <= flat::first_of(
                    #[trigger] f[k],
                )
        }),
    decreases m,
{
    let roots = flat::roots_of(n);
    let f = fresh_under(roots.take(m), old);
    if m > 0 {
        assert(roots.take(m).drop_last() =~= roots.take(m - 1));
        lemma_fresh_under(n, m - 1, old);
        let a = fresh_under(roots.take(m - 1), old);
        let r = roots[m - 1];
        flat::lemma_coords(r);
        lemma_fresh_below(flat::depth_of(r), flat::offset_of(r), old);
        let b = fresh_below(flat::depth_of(r), flat::offset_of(r), old);
        flat::lemma_roots(n);
        if m > 1 {
            flat::lemma_roots_ordered(n, m - 2, m - 1);
            flat::lemma_range(r);
        }
        assert forall|k: int| 0 <= k < f.len() implies {
            let x = #[trigger] f[k];
            &&& old <= flat::first_of(x)
            &&& flat::first_of(x) < flat::end_of(x)
            &&& flat::end_of(x) <= flat::end_of(r)
        } by {
            if k < a.len() {
                assert(f[k] == a[k]);
            } else {
                assert(f[k] == b[k - a.len()]);
            }
        }
        assert forall|j: int, k: int| 0 <= j < k < f.len() implies flat::end_of(#[trigger] f[j])
            <= flat::first_of(#[trigger] f[k]) by {
            if k < a.len() {
                assert(f[j] == a[j] && f[k] == a[k]);
            } else if j >= a.len() {
                assert(f[j] == b[j - a.len()] && f[k] == b[k - a.len()]);
            } else {
                assert(f[j] == a[j] && f[k] == b[k - a.len()]);
            }
        }
    }
}

/// Old roots and fully-new subtrees derive every node that straddles them.
proof fn lemma_derived(
    t: Tree,
    blocks: Seq<Seq<u8>>,
    known: Map<u64, Node>,
    d: nat,
    o: nat,
    old: nat,
    new: nat,
)
    requires
        holds(t, blocks),
        new <= blocks.len(),
        flat::complete(flat::index_of(d, o), new),
        flat::end_of(flat::parent_of(flat::index_of(d, o))) > old,
        forall|i: u64| #[trigger]
            known.contains_key(i) ==> t.nodes.contains_key(i) && known[i] == t.nodes[i],
        forall|i: u64| flat::is_root(i as nat, old) ==> #[trigger] known.contains_key(i),
        forall|k: int|
            0 <= k < fresh_below(d, o, old).len() ==> known.contains_key(
                #[trigger] fresh_below(d, o, old)[k] as u64,
            ),
    ensures
        derived(known, d, o) == Some(t.nodes[flat::index_of(d, o) as u64]),
    decreases d,
{
    let i = flat::index_of(d, o);
    super::laws::lemma_at(d, o);
    lemma_built(blocks, d, o);
    assert(t.nodes.contains_key(i as u64));
    if known.contains_key(i as u64) {
    } else if flat::end_of(i) <= old {
        assert(flat::is_root(i, old));
    } else if flat::first_of(i) >= old || d == 0 {
        assert(fresh_below(d, o, old)[0] == i);
    } else {
        let a = fresh_below((d - 1) as nat, 2 * o, old);
        let b = fresh_below((d - 1) as nat, 2 * o + 1, old);
        let f = fresh_below(d, o, old);
        assert forall|k: int| 0 <= k < a.len() implies known.contains_key(
            #[trigger] a[k] as u64,
        ) by {
            assert(f[k] == a[k]);
        }
        assert forall|k: int| 0 <= k < b.len() implies known.contains_key(
            #[trigger] b[k] as u64,
        ) by {
            assert(f[a.len() + k] == b[k]);
        }
        lemma_derived(t, blocks, known, (d - 1) as nat, 2 * o, old, new);
        lemma_derived(t, blocks, known, (d - 1) as nat, 2 * o + 1, old, new);
        let l = flat::index_of((d - 1) as nat, 2 * o);
        let r = flat::index_of((d - 1) as nat, 2 * o + 1);
        lemma_built(blocks, (d - 1) as nat, 2 * o);
        lemma_built(blocks, (d - 1) as nat, 2 * o + 1);
        assert(t.nodes.contains_key(l as u64) && t.nodes.contains_key(r as u64));
    }
}

proof fn lemma_derived_roots(
    t: Tree,
    blocks: Seq<Seq<u8>>,
    known: Map<u64, Node>,
    m: int,
    old: nat,
    new: nat,
)
    requires
        holds(t, blocks),
        old < new <= blocks.len(),
        0 <= m <= flat::roots_of(new).len(),
        forall|i: u64| #[trigger]
            known.contains_key(i) ==> t.nodes.contains_key(i) && known[i] == t.nodes[i],
        forall|i: u64| flat::is_root(i as nat, old) ==> #[trigger] known.contains_key(i),
        forall|k: int|
            0 <= k < fresh_under(flat::roots_of(new).take(m), old).len() ==> known.contains_key(
                #[trigger] fresh_under(flat::roots_of(new).take(m), old)[k] as u64,
            ),
    ensures
        derived_roots(known, flat::roots_of(new).take(m)) == Some(t.roots_at(new).take(m)),
    decreases m,
{
    let idx = flat::roots_of(new);
    flat::lemma_roots(new);
    lemma_held_roots(t, blocks, new);
    if m > 0 {
        let s = idx.take(m);
        assert(s.drop_last() =~= idx.take(m - 1));
        let a = fresh_under(idx.take(m - 1), old);
        let r = idx[m - 1];
        let b = fresh_below(flat::depth_of(r), flat::offset_of(r), old);
        let f = fresh_under(s, old);
        assert(f == a + b);
        assert forall|k: int| 0 <= k < a.len() implies known.contains_key(
            #[trigger] a[k] as u64,
        ) by {
            assert(f[k] == a[k]);
        }
        assert forall|k: int| 0 <= k < b.len() implies known.contains_key(
            #[trigger] b[k] as u64,
        ) by {
            assert(f[a.len() + k] == b[k]);
        }
        lemma_derived_roots(t, blocks, known, m - 1, old, new);
        assert(flat::is_root(r, new));
        flat::lemma_coords(r);
        lemma_derived(t, blocks, known, flat::depth_of(r), flat::offset_of(r), old, new);
        assert(t.roots_at(new).take(m) =~= t.roots_at(new).take(m - 1).push(t.nodes[r as u64]));
    } else {
        assert(idx.take(0) =~= Seq::<nat>::empty());
        assert(t.roots_at(new).take(0) =~= Seq::<Node>::empty());
    }
}

/// A tree that lacks no node has those of every upgrade proof.
pub proof fn law_upgrade_nodes(t: Tree, old: u64, new: u64)
    requires
        t.intact(),
        0 < old < new <= t.length < MAX_BLOCKS,
    ensures
        t.has_all(fresh_under(flat::roots_of(new as nat), old as nat)),
{
    let idx = flat::roots_of(new as nat);
    let fresh = fresh_under(idx, old as nat);
    assert(idx.take(idx.len() as int) =~= idx);
    lemma_fresh_under(new as nat, idx.len() as int, old as nat);
    flat::lemma_roots(new as nat);
    assert forall|k: int| 0 <= k < fresh.len() implies t.nodes.contains_key(
        #[trigger] fresh[k] as u64,
    ) by {
        let x = fresh[k];
        assert(flat::is_root(idx[idx.len() - 1], new as nat));
        flat::lemma_word(x);
        assert(flat::complete((x as u64) as nat, t.length as nat));
    }
}

/// The upgrade proof that the tree of some blocks makes verifies, for a holder of the
/// old roots, against the root hash of the longer prefix.
#[verifier::rlimit(40)]
pub proof fn law_upgrade_proof(t: Tree, blocks: Seq<Seq<u8>>, p: UpgradeProof)
    requires
        holds(t, blocks),
        0 < p.old_len < p.new_len <= blocks.len(),
        p.nodes@ == t.pick(fresh_under(flat::roots_of(p.new_len as nat), p.old_len as nat)),
    ensures
        t.has_all(fresh_under(flat::roots_of(p.new_len as nat), p.old_len as nat)),
        p.accepts(t.roots_at(p.old_len as nat), root_digest(t.roots_at(p.new_len as nat))),
{
    let old = p.old_len as nat;
    let new = p.new_len as nat;
    let idx = flat::roots_of(new);
    let fresh = fresh_under(idx, old);
    let old_roots = t.roots_at(old);
    let all = old_roots + p.nodes@;
    assert(idx.take(idx.len() as int) =~= idx);
    lemma_fresh_under(new, idx.len() as int, old);
    flat::lemma_roots(new);
    flat::lemma_roots(old);
    lemma_held_roots(t, blocks, old);
    lemma_held_roots(t, blocks, new);
    law_held_is_keyed(t, blocks);
    assert forall|k: int| 0 <= k < fresh.len() implies {
        let x = #[trigger] fresh[k];
        &&& x < u64::MAX
        &&& t.nodes.contains_key(x as u64)
        &&& old <= flat::first_of(x)
        &&& flat::end_of(x) <= new
    } by {
        let x = fresh[k];
        assert(flat::is_root(idx[idx.len() - 1], new));
        flat::lemma_word(x);
    }
    assert forall|k: int| 0 <= k < p.nodes@.len() implies {
        let i = (#[trigger] p.nodes@[k]).index;
        &&& i < u64::MAX
        &&& p.old_len <= flat::first_of(i as nat)
        &&& flat::end_of(i as nat) <= p.new_len
    } by {
        assert(p.nodes@[k] == t.nodes[fresh[k] as u64]);
    }
    assert forall|k: int| 0 <= k < all.len() implies t.nodes.contains_key(
        (#[trigger] all[k]).index,
    ) && all[k] == t.nodes[all[k].index] && if k < old_roots.len() {
        flat::end_of(all[k].index as nat) <= old && all[k].index as nat == flat::roots_of(old)[k]
    } else {
        all[k].index as nat == fresh[k - old_roots.len()]
    } by {
        if k < old_roots.len() {
            assert(all[k] == old_roots[k]);
            assert(flat::is_root(flat::roots_of(old)[k], old));
        } else {
            assert(all[k] == p.nodes@[k - old_roots.len()]);
            assert(t.nodes.contains_key(fresh[k - old_roots.len()] as u64));
        }
    }
    assert forall|j: int, k: int| 0 <= j < k < all.len() implies (#[trigger] all[j]).index != (
    #[trigger] all[k]).index by {
        let m = old_roots.len();
        if k < m {
            flat::lemma_roots_ordered(old, j, k);
        } else if j >= m {
            let a = fresh[j - m];
            let b = fresh[k - m];
            assert(flat::end_of(a) <= flat::first_of(b));
        } else {
            let b = fresh[k - m];
            flat::lemma_range(all[j].index as nat);
        }
    }
    lemma_known(all);
    let known = known_nodes(all);
    assert forall|i: u64| #[trigger] known.contains_key(i) implies t.nodes.contains_key(i)
        && known[i] == t.nodes[i] by {
        let x = known[i];
        let k = choose|k: int| 0 <= k < all.len() && all[k] == x;
        assert(t.nodes.contains_key(all[k].index));
    }
    assert forall|i: u64| flat::is_root(i as nat, old) implies #[trigger] known.contains_key(i) by {
        flat::lemma_root_listed(old, i as nat);
        let k = choose|k: int| 0 <= k < flat::roots_of(old).len() && flat::roots_of(old)[k] == i as nat;
        assert(all[k].index == i);
    }
    assert forall|k: int| 0 <= k < fresh.len() implies known.contains_key(
        #[trigger] fresh[k] as u64,
    ) by {
        assert(all[old_roots.len() + k].index as nat == fresh[k]);
    }
    lemma_derived_roots(t, blocks, known, idx.len() as int, old, new);
    assert(t.roots_at(new).take(idx.len() as int) =~= t.roots_at(new));
    assert(old_roots.map_values(|r: Node| r.index as nat) =~= flat::roots_of(old));
}

/// Where two blocks or two nodes have one hash input, they are one.
pub proof fn lemma_parent_bytes(a: Node, b: Node, c: Node, d: Node)
    requires
        parent_bytes(a, b) == parent_bytes(c, d),
    ensures
        a.hash == c.hash,
        a.size == c.size,
        b.hash == d.hash,
        b.size == d.size,
{
    let x = parent_bytes(a, b);
    let y = parent_bytes(c, d);
    lemma_le64(a.size);
    lemma_le64(b.size);
    lemma_le64(c.size);
    lemma_le64(d.size);
    assert(x.subrange(1, 33) =~= a.hash@);
    assert(y.subrange(1, 33) =~= c.hash@);
    assert(x.subrange(33, 41) =~= le64(a.size));
    assert(y.subrange(33, 41) =~= le64(c.size));
    assert(x.subrange(41, 73) =~= b.hash@);
    assert(y.subrange(41, 73) =~= d.hash@);
    assert(x.subrange(73, 81) =~= le64(b.size));
    assert(y.subrange(73, 81) =~= le64(d.size));
    lemma_le64_injective(a.size, c.size);
    lemma_le64_injective(b.size, d.size);
    assert(a.hash =~= c.hash);
    assert(b.hash =~= d.hash);
}

proof fn lemma_leaf_rest(a: Seq<u8>)
    ensures
        leaf_bytes(a).skip(9) == a,
{
    let head = seq![LEAF] + le64(a.len() as u64);
    lemma_le64(a.len() as u64);
    assert(head.len() == 9);
    assert(leaf_bytes(a) == head + a);
    assert((head + a).skip(9) =~= a);
}

proof fn lemma_leaf_bytes(a: Seq<u8>, b: Seq<u8>)
    requires
        leaf_bytes(a) == leaf_bytes(b),
    ensures
        a == b,
{
    lemma_leaf_rest(a);
    lemma_leaf_rest(b);
}

proof fn lemma_roots_bytes(a: Seq<Node>, b: Seq<Node>)
    requires
        a.len() == b.len(),
        roots_bytes(a) == roots_bytes(b),
    ensures
        forall|k: int|
            0 <= k < a.len() ==> (#[trigger] a[k]).hash == b[k].hash && a[k].size == b[k].size,
        roots_bytes(a).len() == 48 * a.len(),
    decreases a.len(),
{
    lemma_roots_bytes_len(a);
    lemma_roots_bytes_len(b);
    if a.len() > 0 {
        let x = roots_bytes(a);
        let y = roots_bytes(b);
        let m = 48 * (a.len() - 1) as int;
        let p = a.last();
        let q = b.last();
        lemma_le64(p.index);
        lemma_le64(q.index);
        lemma_le64(p.size);
        lemma_le64(q.size);
        lemma_roots_bytes_len(a.drop_last());
        lemma_roots_bytes_len(b.drop_last());
        assert(x.take(m) =~= roots_bytes(a.drop_last()));
        assert(y.take(m) =~= roots_bytes(b.drop_last()));
        lemma_roots_bytes(a.drop_last(), b.drop_last());
        assert(x.subrange(m, m + 32) =~= p.hash@);
        assert(y.subrange(m, m + 32) =~= q.hash@);
        assert(x.subrange(m + 40, m + 48) =~= le64(p.size));
        assert(y.subrange(m + 40, m + 48) =~= le64(q.size));
        lemma_le64_injective(p.size, q.size);
        assert(p.hash =~= q.hash);
        assert forall|k: int| 0 <= k < a.len() implies (#[trigger] a[k]).hash == b[k].hash
            && a[k].size == b[k].size by {
            if k < a.len() - 1 {
                assert(a.drop_last()[k] == a[k] && b.drop_last()[k] == b[k]);
            }
        }
    }
}

proof fn lemma_roots_bytes_len(a: Seq<Node>)
    ensures
        roots_bytes(a).len() == 48 * a.len(),
    decreases a.len(),
{
    if a.len() > 0 {
        lemma_roots_bytes_len(a.drop_last());
        lemma_le64(a.last().index);
        lemma_le64(a.last().size);
    }
}

/// What is hashed for the parent of two nodes.
pub open spec fn pair_bytes(a: Node, b: Node) -> Seq<u8> {
    if b.index < a.index {
        parent_bytes(b, a)
    } else {
        parent_bytes(a, b)
    }
}

/// What is hashed for the node above the leaves at a depth and an offset.
pub open spec fn built_bytes(blocks: Seq<Seq<u8>>, d: nat, o: nat) -> Seq<u8> {
    pair_bytes(built(blocks, (d - 1) as nat, 2 * o), built(blocks, (d - 1) as nat, 2 * o + 1))
}

/// Whether `s` has what is hashed for the nodes of the tree of `blocks`.
pub open spec fn has_nodes(s: Set<Seq<u8>>, blocks: Seq<Seq<u8>>) -> bool {
    &&& forall|k: int| 0 <= k < blocks.len() ==> s.contains(#[trigger] leaf_bytes(blocks[k]))
    &&& forall|d: nat, o: nat|
        d > 0 && flat::complete(flat::index_of(d, o), blocks.len()) ==> s.contains(
            #[trigger] built_bytes(blocks, d, o),
        )
}

/// Whether `s` has what is hashed for the tree of `blocks`, and for that of each of its
/// prefixes.
pub open spec fn has_tree(s: Set<Seq<u8>>, t: Tree, blocks: Seq<Seq<u8>>) -> bool {
    &&& has_nodes(s, blocks)
    &&& forall|n: nat| n <= blocks.len() ==> s.contains(tree_bytes(#[trigger] t.roots_at(n)))
}

/// Whether `s` has what is hashed on the way up from a node.
pub open spec fn has_climb(s: Set<Seq<u8>>, node: Node, siblings: Seq<Node>) -> bool
    decreases siblings.len(),
{
    siblings.len() > 0 ==> {
        let rest = siblings.drop_last();
        &&& has_climb(s, node, rest)
        &&& climb(node, rest) matches Some(n) ==> s.contains(pair_bytes(n, siblings.last()))
    }
}

/// Whether `s` has what is hashed to verify `data` by an inclusion proof.
pub open spec fn has_proof(s: Set<Seq<u8>>, p: Proof, data: Seq<u8>) -> bool {
    let leaf = leaf_node(p.block as nat, data);
    &&& s.contains(leaf_bytes(data))
    &&& has_climb(s, leaf, p.siblings@)
    &&& s.contains(tree_bytes(p.roots@))
}

/// Whether `s` has what is hashed to derive a node from known ones.
pub open spec fn has_derived(s: Set<Seq<u8>>, known: Map<u64, Node>, d: nat, o: nat) -> bool
    decreases d,
{
    let i = flat::index_of(d, o);
    d > 0 && !(i < u64::MAX && known.contains_key(i as u64)) ==> {
        let e = (d - 1) as nat;
        &&& has_derived(s, known, e, 2 * o)
        &&& has_derived(s, known, e, 2 * o + 1)
        &&& derived(known, e, 2 * o) is Some && derived(known, e, 2 * o + 1) is Some
            ==> s.contains(
            pair_bytes(derived(known, e, 2 * o)->0, derived(known, e, 2 * o + 1)->0),
        )
    }
}

/// Whether `s` has what is hashed to verify an upgrade proof.
pub open spec fn has_upgrade(s: Set<Seq<u8>>, p: UpgradeProof, old_roots: Seq<Node>) -> bool {
    let known = known_nodes(old_roots + p.nodes@);
    let tops = flat::roots_of(p.new_len as nat);
    &&& forall|k: int|
        0 <= k < tops.len() ==> has_derived(
            s,
            known,
            flat::depth_of(#[trigger] tops[k]),
            flat::offset_of(tops[k]),
        )
    &&& derived_roots(known, tops) matches Some(rs) ==> s.contains(tree_bytes(rs))
}

/// Two subtrees with one hash cover the same blocks, where BLAKE3 tells the inputs apart.
proof fn lemma_same_hash(
    a: Seq<Seq<u8>>,
    b: Seq<Seq<u8>>,
    d: nat,
    o: nat,
    s: Set<Seq<u8>>,
)
    requires
        apart(s),
        has_nodes(s, a),
        has_nodes(s, b),
        flat::end_of(flat::index_of(d, o)) <= a.len() < MAX_BLOCKS,
        flat::end_of(flat::index_of(d, o)) <= b.len() < MAX_BLOCKS,
        bytes_before(a, a.len()) <= u64::MAX,
        bytes_before(b, b.len()) <= u64::MAX,
        built(a, d, o).hash == built(b, d, o).hash,
    ensures
        forall|k: int|
            flat::first_of(flat::index_of(d, o)) <= k < flat::end_of(flat::index_of(d, o)) ==> a[k]
                == b[k],
    decreases d,
{
    super::laws::lemma_at(d, o);
    if d == 0 {
        let x = leaf_bytes(a[o as int]);
        let y = leaf_bytes(b[o as int]);
        assert(s.contains(x) && s.contains(y));
        assert(digest(x) == digest(y));
        lemma_leaf_bytes(a[o as int], b[o as int]);
    } else {
        let e = (d - 1) as nat;
        lemma_built(a, d, o);
        lemma_built(b, d, o);
        lemma_built(a, e, 2 * o);
        lemma_built(a, e, 2 * o + 1);
        lemma_built(b, e, 2 * o);
        lemma_built(b, e, 2 * o + 1);
        let x = parent_bytes(built(a, e, 2 * o), built(a, e, 2 * o + 1));
        let y = parent_bytes(built(b, e, 2 * o), built(b, e, 2 * o + 1));
        assert(x == built_bytes(a, d, o) && y == built_bytes(b, d, o));
        assert(s.contains(x) && s.contains(y));
        assert(digest(x) == digest(y));
        lemma_parent_bytes(
            built(a, e, 2 * o),
            built(a, e, 2 * o + 1),
            built(b, e, 2 * o),
            built(b, e, 2 * o + 1),
        );
        lemma_same_hash(a, b, e, 2 * o, s);
        lemma_same_hash(a, b, e, 2 * o + 1, s);
    }
}

/// Two trees have the same root hash for their first `n` blocks if those blocks are
/// the same, and only if, where BLAKE3 tells the inputs `s` apart and all that is hashed
/// for the two is among them.
pub proof fn law_prefix_hash(
    t: Tree,
    a: Seq<Seq<u8>>,
    u: Tree,
    b: Seq<Seq<u8>>,
    n: u64,
    s: Set<Seq<u8>>,
)
    requires
        holds(t, a),
        holds(u, b),
        n <= a.len(),
        n <= b.len(),
    ensures
        a.take(n as int) == b.take(n as int) ==> t.agrees(u, n),
        t.agrees(u, n) && apart(s) && has_tree(s, t, a) && has_tree(s, u, b) ==> a.take(n as int)
            == b.take(n as int),
{
    let idx = flat::roots_of(n as nat);
    lemma_held_roots(t, a, n as nat);
    lemma_held_roots(u, b, n as nat);
    flat::lemma_roots(n as nat);
    let p = t.roots_at(n as nat);
    let q = u.roots_at(n as nat);
    if a.take(n as int) == b.take(n as int) {
        assert forall|k: int| 0 <= k < n implies a[k] == b[k] by {
            assert(a.take(n as int)[k] == b.take(n as int)[k]);
        }
        assert forall|k: int| 0 <= k < idx.len() implies p[k] == q[k] by {
            let i = idx[k];
            assert(flat::is_root(i, n as nat));
            flat::lemma_coords(i);
            lemma_built_same(a, b, flat::depth_of(i), flat::offset_of(i));
            assert(t.nodes.contains_key(i as u64) && u.nodes.contains_key(i as u64));
        }
        assert(p =~= q);
    }
    if t.agrees(u, n) && apart(s) && has_tree(s, t, a) && has_tree(s, u, b) {
        if n > 0 {
            assert(s.contains(tree_bytes(p)) && s.contains(tree_bytes(q)));
            assert(digest(tree_bytes(p)) == digest(tree_bytes(q)));
            assert(tree_bytes(p) == tree_bytes(q));
            assert(tree_bytes(p).skip(1) =~= roots_bytes(p));
            assert(tree_bytes(q).skip(1) =~= roots_bytes(q));
            lemma_roots_bytes(p, q);
            assert forall|k: int| 0 <= k < n implies a[k] == b[k] by {
                let j = flat::lemma_root_over(n as nat, k as nat);
                let i = idx[j];
                assert(flat::is_root(i, n as nat));
                flat::lemma_coords(i);
                assert(t.nodes.contains_key(i as u64) && u.nodes.contains_key(i as u64));
                assert(p[j].hash == q[j].hash);
                lemma_same_hash(a, b, flat::depth_of(i), flat::offset_of(i), s);
            }
        }
        assert(a.take(n as int) =~= b.take(n as int));
    }
}

proof fn lemma_bisect(agree: spec_fn(u64) -> bool, lo: u64, hi: u64, c: u64)
    requires
        lo <= c <= hi,
        forall|n: u64| lo <= n <= c ==> #[trigger] agree(n),
        forall|n: u64| c < n <= hi ==> !#[trigger] agree(n),
    ensures
        bisect(agree, lo, hi) == c,
    decreases hi - lo,
{
    if lo < hi {
        let mid = (lo + (hi - lo + 1) / 2) as u64;
        if agree(mid) {
            lemma_bisect(agree, mid, hi, c);
        } else {
            lemma_bisect(agree, lo, (mid - 1) as u64, c);
        }
    }
}

/// The lowest common ancestor of the trees of two logs is the length of the longest
/// prefix on which the logs agree block for block, where BLAKE3 tells the inputs `s` apart
/// and all that is hashed for the two is among them.
pub proof fn law_ancestor(
    t: Tree,
    a: Seq<Seq<u8>>,
    u: Tree,
    b: Seq<Seq<u8>>,
    c: u64,
    s: Set<Seq<u8>>,
)
    requires
        holds(t, a),
        holds(u, b),
        apart(s),
        has_tree(s, t, a),
        has_tree(s, u, b),
        c <= a.len(),
        c <= b.len(),
        a.take(c as int) == b.take(c as int),
        c < a.len() && c < b.len() ==> a[c as int] != b[c as int],
    ensures
        t.ancestor(u) == c,
{
    let max = if t.length <= u.length {
        t.length
    } else {
        u.length
    };
    let agree = |n: u64| t.agrees(u, n);
    assert forall|n: u64| n <= c implies #[trigger] agree(n) by {
        law_prefix_hash(t, a, u, b, n, s);
        assert(a.take(n as int) =~= a.take(c as int).take(n as int));
        assert(b.take(n as int) =~= b.take(c as int).take(n as int));
    }
    assert forall|n: u64| c < n <= max implies !#[trigger] agree(n) by {
        law_prefix_hash(t, a, u, b, n, s);
        assert(a.take(n as int)[c as int] == a[c as int]);
        assert(b.take(n as int)[c as int] == b[c as int]);
    }
    lemma_bisect(agree, 0, max, c);
}

/// A reorganized tree is exactly the tree it follows.
pub proof fn law_reorg(t: Tree, a: Seq<Seq<u8>>, u: Tree, b: Seq<Seq<u8>>, c: u64)
    requires
        holds(t, a),
        holds(u, b),
        c <= a.len(),
        c <= b.len(),
    ensures
        (Tree { nodes: t.truncated(c).nodes.union_prefer_right(u.nodes), length: u.length }) == u,
{
    law_truncate(t, a, c);
    let less = t.truncated(c);
    let w = less.nodes.union_prefer_right(u.nodes);
    assert forall|i: u64| #[trigger] w.contains_key(i) == u.nodes.contains_key(i) by {
        if less.nodes.contains_key(i) {
            assert(flat::complete(i as nat, c as nat));
        }
    }
    assert(w =~= u.nodes);
}

/// Two blocks that one inclusion proof accepts against one root hash are the same
/// block, where BLAKE3 tells the inputs `s` apart and all that is hashed to verify the two
/// is among them.
pub proof fn law_one_block(
    p: Proof,
    x: Seq<u8>,
    y: Seq<u8>,
    root: crate::merkle::Hash,
    s: Set<Seq<u8>>,
)
    requires
        p.accepts(x, root),
        p.accepts(y, root),
        apart(s),
        has_proof(s, p, x),
        has_proof(s, p, y),
    ensures
        x == y,
{
    let a = leaf_node(p.block as nat, x);
    let b = leaf_node(p.block as nat, y);
    let m = climb(a, p.siblings@)->0;
    let n = climb(b, p.siblings@)->0;
    lemma_climb_shape(a, b, p.siblings@);
    lemma_climb_injective(a, b, p.siblings@, s);
    assert(digest(leaf_bytes(x)) == digest(leaf_bytes(y)));
    lemma_leaf_bytes(x, y);
}

/// Two climbs over the same siblings from the same place end in the same place.
proof fn lemma_climb_shape(a: Node, b: Node, siblings: Seq<Node>)
    requires
        a.index == b.index,
        climb(a, siblings) is Some,
        climb(b, siblings) is Some,
    ensures
        (climb(a, siblings)->0).index == (climb(b, siblings)->0).index,
    decreases siblings.len(),
{
    if siblings.len() > 0 {
        lemma_climb_shape(a, b, siblings.drop_last());
    }
}

/// Two climbs over the same siblings that end on one hash start on one hash, where BLAKE3
/// tells the inputs apart.
proof fn lemma_climb_injective(a: Node, b: Node, siblings: Seq<Node>, set: Set<Seq<u8>>)
    requires
        a.index == b.index,
        climb(a, siblings) is Some,
        climb(b, siblings) is Some,
        (climb(a, siblings)->0).hash == (climb(b, siblings)->0).hash,
        apart(set),
        has_climb(set, a, siblings),
        has_climb(set, b, siblings),
    ensures
        a.hash == b.hash,
    decreases siblings.len(),
{
    if siblings.len() > 0 {
        let t = siblings.drop_last();
        lemma_climb_shape(a, b, t);
        let m = climb(a, t)->0;
        let n = climb(b, t)->0;
        let s = siblings.last();
        let x = if s.index < m.index {
            parent_bytes(s, m)
        } else {
            parent_bytes(m, s)
        };
        let y = if s.index < n.index {
            parent_bytes(s, n)
        } else {
            parent_bytes(n, s)
        };
        assert(x == pair_bytes(m, s) && y == pair_bytes(n, s));
        assert(set.contains(x) && set.contains(y));
        assert(digest(x) == digest(y));
        if s.index < m.index {
            lemma_parent_bytes(s, m, s, n);
        } else {
            lemma_parent_bytes(m, s, n, s);
        }
        lemma_climb_injective(a, b, t, set);
    }
}

proof fn lemma_entries_len(nodes: Map<u64, Node>, keys: Seq<u64>)
    ensures
        entries_bytes(nodes, keys).len() == 48 * keys.len(),
    decreases keys.len(),
{
    if keys.len() > 0 {
        lemma_entries_len(nodes, keys.drop_last());
        lemma_le64(nodes[keys.last()].index);
        lemma_le64(nodes[keys.last()].size);
    }
}

proof fn lemma_entries_at(nodes: Map<u64, Node>, keys: Seq<u64>, k: int)
    requires
        0 <= k < keys.len(),
    ensures
        entries_bytes(nodes, keys).len() == 48 * keys.len(),
        entries_bytes(nodes, keys).subrange(48 * k, 48 * k + 48) == node_bytes(nodes[keys[k]]),
    decreases keys.len(),
{
    lemma_entries_len(nodes, keys);
    lemma_entries_len(nodes, keys.drop_last());
    let s = entries_bytes(nodes, keys);
    let n = nodes[keys[k]];
    lemma_le64(n.index);
    lemma_le64(n.size);
    if k == keys.len() - 1 {
        assert(s.subrange(48 * k, 48 * k + 48) =~= node_bytes(n));
    } else {
        lemma_entries_at(nodes, keys.drop_last(), k);
        assert(s.subrange(48 * k, 48 * k + 48) =~= entries_bytes(
            nodes,
            keys.drop_last(),
        ).subrange(48 * k, 48 * k + 48));
    }
}

/// A stored node reads back from its 48 bytes.
proof fn lemma_node_at(s: Seq<u8>, at: int, n: Node)
    requires
        0 <= at,
        at + 48 <= s.len(),
        s.subrange(at, at + 48) == node_bytes(n),
    ensures
        node_at(s, at) == n,
{
    lemma_le64(n.index);
    lemma_le64(n.size);
    let w = node_bytes(n);
    assert(s.subrange(at, at + 8) =~= w.subrange(0, 8));
    assert(w.subrange(0, 8) =~= le64(n.index));
    assert(s.subrange(at + 8, at + 16) =~= w.subrange(8, 16));
    assert(w.subrange(8, 16) =~= le64(n.size));
    assert(s.subrange(at + 16, at + 48) =~= w.subrange(16, 48));
    assert(w.subrange(16, 48) =~= n.hash@);
    lemma_array32(n.hash);
}

/// A stored tree reads back as the same tree, whether or not it lacks nodes.
pub proof fn law_serialize(t: Tree)
    requires
        t.keyed(),
        t.nodes.dom().finite(),
        t.nodes.len() <= u64::MAX,
    ensures
        parsed_tree(t.serialized()) == Some(t),
{
    let keys = keys_of(t.nodes);
    lemma_keys_exist(t.nodes);
    let s = t.serialized();
    let body = entries_bytes(t.nodes, keys);
    let count = t.nodes.len();
    lemma_le64(t.length);
    lemma_le64(count as u64);
    lemma_entries_len(t.nodes, keys);
    assert(s.subrange(0, 8) =~= le64(t.length));
    assert(s.subrange(8, 16) =~= le64(count as u64));
    assert forall|k: int| 0 <= k < keys.len() implies node_at(s, 16 + 48 * k)
        == t.nodes[#[trigger] keys[k]] by {
        lemma_entries_at(t.nodes, keys, k);
        assert(s.subrange(16 + 48 * k, 16 + 48 * k + 48) =~= body.subrange(48 * k, 48 * k + 48));
        lemma_node_at(s, 16 + 48 * k, t.nodes[keys[k]]);
    }
    lemma_entries_of(t, s, keys, keys.len());
    let got = entries_of(s, count);
    assert forall|i: u64| #[trigger] got.contains_key(i) == t.nodes.contains_key(i) by {
        assert(keys.take(keys.len() as int) =~= keys);
        assert(keys.to_set().contains(i) == keys.contains(i));
    }
    assert(got =~= t.nodes);
}

proof fn lemma_entries_of(t: Tree, s: Seq<u8>, keys: Seq<u64>, m: nat)
    requires
        t.keyed(),
        keys.to_set() == t.nodes.dom(),
        m <= keys.len(),
        forall|k: int|
            0 <= k < keys.len() ==> node_at(s, 16 + 48 * k) == t.nodes[#[trigger] keys[k]],
    ensures
        forall|i: u64| #[trigger]
            entries_of(s, m).contains_key(i) == keys.take(m as int).contains(i),
        forall|i: u64| #[trigger]
            entries_of(s, m).contains_key(i) ==> entries_of(s, m)[i] == t.nodes[i],
    decreases m,
{
    if m > 0 {
        lemma_entries_of(t, s, keys, (m - 1) as nat);
        let k = m - 1;
        assert(keys.to_set().contains(keys[k]));
        assert(t.nodes.contains_key(keys[k]));
        let n = node_at(s, 16 + 48 * (m - 1));
        assert(n == t.nodes[keys[k]]);
        let less = keys.take(m - 1);
        let more = keys.take(m as int);
        let e = entries_of(s, m);
        assert(e == entries_of(s, (m - 1) as nat).insert(n.index, n));
        assert forall|i: u64| #[trigger] e.contains_key(i) == more.contains(i) by {
            assert(entries_of(s, (m - 1) as nat).contains_key(i) == less.contains(i));
            if less.contains(i) {
                let j = choose|j: int| 0 <= j < less.len() && less[j] == i;
                assert(more[j] == i);
            }
            if more.contains(i) {
                let j = choose|j: int| 0 <= j < more.len() && more[j] == i;
                if j < k {
                    assert(less[j] == i);
                }
            }
            assert(more[k] == keys[k]);
        }
        assert forall|i: u64| #[trigger] e.contains_key(i) implies e[i] == t.nodes[i] by {
            if i != n.index {
                assert(entries_of(s, (m - 1) as nat).contains_key(i));
            }
        }
    }
}

/// Two lists of roots with the same bytes are one list.
pub proof fn lemma_roots_injective(a: Seq<Node>, b: Seq<Node>)
    requires
        roots_bytes(a) == roots_bytes(b),
    ensures
        a == b,
    decreases a.len(),
{
    lemma_roots_bytes_len(a);
    lemma_roots_bytes_len(b);
    assert(a.len() == b.len());
    if a.len() > 0 {
        let x = roots_bytes(a);
        let y = roots_bytes(b);
        let m = 48 * (a.len() - 1) as int;
        let p = a.last();
        let q = b.last();
        lemma_le64(p.index);
        lemma_le64(q.index);
        lemma_le64(p.size);
        lemma_le64(q.size);
        lemma_roots_bytes_len(a.drop_last());
        lemma_roots_bytes_len(b.drop_last());
        assert(x.subrange(m, m + 32) =~= p.hash@);
        assert(y.subrange(m, m + 32) =~= q.hash@);
        assert(x.subrange(m + 32, m + 40) =~= le64(p.index));
        assert(y.subrange(m + 32, m + 40) =~= le64(q.index));
        assert(x.subrange(m + 40, m + 48) =~= le64(p.size));
        assert(y.subrange(m + 40, m + 48) =~= le64(q.size));
        lemma_le64_injective(p.index, q.index);
        lemma_le64_injective(p.size, q.size);
        assert(p.hash =~= q.hash);
        assert(x.take(m) =~= roots_bytes(a.drop_last()));
        assert(y.take(m) =~= roots_bytes(b.drop_last()));
        lemma_roots_injective(a.drop_last(), b.drop_last());
        assert(a =~= a.drop_last().push(p));
        assert(b =~= b.drop_last().push(q));
    } else {
        assert(a =~= b);
    }
}

/// A step up that ends on a node of the tree was one from a node of the tree and its
/// sibling, where BLAKE3 tells the inputs apart.
proof fn lemma_step_down(t: Tree, blocks: Seq<Seq<u8>>, m: Node, s: Node, set: Set<Seq<u8>>)
    requires
        holds(t, blocks),
        apart(set),
        has_nodes(set, blocks),
        set.contains(pair_bytes(m, s)),
        step_up(m, s) matches Some(n) && t.nodes.contains_key(n.index) && t.nodes[n.index] == n,
    ensures
        t.nodes.contains_key(m.index),
        t.nodes[m.index] == m,
        t.nodes.contains_key(s.index),
        t.nodes[s.index] == s,
        ({
            let n = step_up(m, s)->0;
            bytes_before(blocks, flat::first_of(m.index as nat)) == bytes_before(
                blocks,
                flat::first_of(n.index as nat),
            ) + if s.index < m.index {
                s.size as nat
            } else {
                0
            }
        }),
{
    let n = step_up(m, s)->0;
    assert(n == joined(m, s));
    let i = m.index as nat;
    flat::lemma_family(i);
    flat::lemma_coords(i);
    flat::lemma_word(i);
    flat::lemma_range(i);
    flat::lemma_range(flat::sibling_of(i));
    flat::lemma_range(flat::parent_of(i));
    let p = flat::parent_of(i);
    assert(n.index == p);
    let d = flat::depth_of(i);
    let o = flat::offset_of(i);
    let l = built(blocks, d, 2 * (o / 2));
    let r = built(blocks, d, 2 * (o / 2) + 1);
    flat::lemma_coords(p);
    assert(n == built(blocks, d + 1, o / 2));
    assert(n == joined(l, r));
    assert(flat::complete(p, blocks.len()));
    assert(flat::complete(i, blocks.len()));
    assert(flat::complete(flat::sibling_of(i), blocks.len()));
    lemma_built(blocks, d, o);
    flat::lemma_coords(flat::sibling_of(i));
    lemma_built(blocks, d, flat::twin(o));
    lemma_built(blocks, d + 1, o / 2);
    flat::lemma_index(d, o);
    flat::lemma_index(d, flat::twin(o));
    assert(t.nodes.contains_key(m.index));
    assert(t.nodes.contains_key(s.index));
    let lb = if r.index < l.index {
        parent_bytes(r, l)
    } else {
        parent_bytes(l, r)
    };
    let mb = pair_bytes(m, s);
    assert(digest(lb) == n.hash);
    assert(digest(mb) == n.hash);
    assert(lb == built_bytes(blocks, d + 1, o / 2));
    assert(flat::index_of(d + 1, o / 2) == p);
    assert(set.contains(lb) && set.contains(mb));
    assert(lb == mb);
    if o % 2 == 0 {
        assert(l.index == m.index);
        assert(l.index < r.index);
        lemma_parent_bytes(l, r, m, s);
        assert(m == l && s == r);
    } else {
        assert(r.index == m.index);
        assert(l.index < r.index);
        lemma_parent_bytes(l, r, s, m);
        assert(m == r && s == l);
    }
}

/// A climb that ends on a node of the tree started on one, and counts the bytes between
/// their first blocks, where BLAKE3 tells the inputs apart.
proof fn lemma_descend(
    t: Tree,
    blocks: Seq<Seq<u8>>,
    a: Node,
    siblings: Seq<Node>,
    set: Set<Seq<u8>>,
)
    requires
        holds(t, blocks),
        apart(set),
        has_nodes(set, blocks),
        has_climb(set, a, siblings),
        climb(a, siblings) matches Some(n) && t.nodes.contains_key(n.index) && t.nodes[n.index]
            == n,
    ensures
        t.nodes.contains_key(a.index),
        t.nodes[a.index] == a,
        bytes_before(blocks, flat::first_of(a.index as nat)) == bytes_before(
            blocks,
            flat::first_of((climb(a, siblings)->0).index as nat),
        ) + left_bytes(a, siblings),
    decreases siblings.len(),
{
    if siblings.len() > 0 {
        let rest = siblings.drop_last();
        let m = climb(a, rest)->0;
        lemma_step_down(t, blocks, m, siblings.last(), set);
        lemma_descend(t, blocks, a, rest, set);
    }
}

/// Roots that are those of a tree but for one, which a node of the proof replaces, hash to
/// the tree's root only if the node is the tree's.
proof fn lemma_closes(
    t: Tree,
    blocks: Seq<Seq<u8>>,
    roots: Seq<Node>,
    n: Node,
    s: Set<Seq<u8>>,
)
    requires
        holds(t, blocks),
        closes(roots, n, t.root_hash()),
        apart(s),
        has_tree(s, t, blocks),
        s.contains(tree_bytes(with_root(roots, n)->0)),
    ensures
        t.nodes.contains_key(n.index),
        t.nodes[n.index] == n,
        with_root(roots, n) == Some(t.roots_at(blocks.len())),
        flat::is_root(n.index as nat, blocks.len()),
{
    let rs = with_root(roots, n)->0;
    let own = t.roots_at(blocks.len());
    lemma_place(roots, n.index);
    let k = place(roots, n.index)->0;
    assert(s.contains(tree_bytes(rs)) && s.contains(tree_bytes(own)));
    assert(digest(tree_bytes(rs)) == digest(tree_bytes(own)));
    assert(tree_bytes(rs).skip(1) =~= roots_bytes(rs));
    assert(tree_bytes(own).skip(1) =~= roots_bytes(own));
    lemma_roots_injective(rs, own);
    assert(rs[k] == n);
    lemma_held_roots(t, blocks, blocks.len());
    flat::lemma_roots(blocks.len());
    let i = flat::roots_of(blocks.len())[k];
    assert(own[k] == t.nodes[i as u64]);
    assert(n.index == i);
}

/// Whether `s` has what is hashed to verify a node proof.
pub open spec fn has_node_proof(s: Set<Seq<u8>>, p: NodeProof) -> bool {
    &&& has_climb(s, p.node, p.siblings@)
    &&& climb(p.node, p.siblings@) matches Some(n) ==> (with_root(p.roots@, n) matches Some(
        rs,
    ) ==> s.contains(tree_bytes(rs)))
}

/// A node proof is proof: a node that any proof gives against the root hash of a tree is
/// the tree's, where BLAKE3 tells the inputs `s` apart and all that is hashed for the tree
/// and the proof is among them.
pub proof fn law_sound_node_proof(t: Tree, blocks: Seq<Seq<u8>>, p: NodeProof, s: Set<Seq<u8>>)
    requires
        holds(t, blocks),
        p.accepts(t.root_hash()),
        apart(s),
        has_tree(s, t, blocks),
        has_node_proof(s, p),
    ensures
        t.nodes.contains_key(p.node.index),
        t.nodes[p.node.index] == p.node,
{
    let n = climb(p.node, p.siblings@)->0;
    lemma_ends_in(p.roots@, n, t.root_hash());
    lemma_closes(t, blocks, p.roots@, n, s);
    lemma_descend(t, blocks, p.node, p.siblings@, s);
}

/// Whether `s` has what is hashed to verify a seek proof.
pub open spec fn has_seek_proof(s: Set<Seq<u8>>, p: SeekProof) -> bool {
    &&& has_climb(s, p.leaf, p.siblings@)
    &&& climb(p.leaf, p.siblings@) matches Some(n) ==> (with_root(p.roots@, n) matches Some(
        rs,
    ) ==> s.contains(tree_bytes(rs)))
}

/// Replacing a root counts for none of those before it.
proof fn lemma_before_same(roots: Seq<Node>, k: int, n: Node)
    requires
        0 <= k < roots.len(),
        roots[k].index == n.index,
    ensures
        roots_before(roots.update(k, n), n.index) == roots_before(roots, n.index),
    decreases roots.len(),
{
    let all = roots.update(k, n);
    if k < roots.len() - 1 {
        lemma_before_same(roots.drop_last(), k, n);
        assert(all.drop_last() =~= roots.drop_last().update(k, n));
        assert(all.last() == roots.last());
    } else {
        assert(all.drop_last() =~= roots.drop_last());
    }
}

/// A seek proof is proof: where any proof lands against the root hash of a tree is where
/// the offset lies, where BLAKE3 tells the inputs `s` apart and all that is hashed for the
/// tree and the proof is among them.
pub proof fn law_sound_seek_proof(t: Tree, blocks: Seq<Seq<u8>>, p: SeekProof, s: Set<Seq<u8>>)
    requires
        holds(t, blocks),
        p.lands(t.root_hash()) is Some,
        apart(s),
        has_tree(s, t, blocks),
        has_seek_proof(s, p),
    ensures
        ({
            let r = p.lands(t.root_hash())->0;
            located(blocks, p.bytes as nat, r.0 as nat, r.1 as nat)
        }),
{
    let n = climb(p.leaf, p.siblings@)->0;
    let len = blocks.len();
    let block = p.leaf.index as nat / 2;
    lemma_closes(t, blocks, p.roots@, n, s);
    lemma_descend(t, blocks, p.leaf, p.siblings@, s);
    lemma_place(p.roots@, n.index);
    lemma_before_same(p.roots@, place(p.roots@, n.index)->0, n);
    flat::lemma_root_listed(len, n.index as nat);
    let k = choose|k: int|
        0 <= k < flat::roots_of(len).len() && flat::roots_of(len)[k] == n.index as nat;
    lemma_roots_before(t, blocks, k, flat::roots_of(len).len() as int);
    assert(t.roots_at(len).take(flat::roots_of(len).len() as int) =~= t.roots_at(len));
    flat::lemma_leaf(block);
    assert(p.leaf.index == 2 * block);
    flat::lemma_range(2 * block);
    assert(flat::complete(2 * block, len));
    assert(p.leaf == leaf_node(block, blocks[block as int]));
    lemma_bytes_mono(blocks, block + 1, len);
}

/// An inclusion proof is proof: data that any proof places at an index, against the
/// root hash of a tree, are the block that the tree has there, where BLAKE3 tells the
/// inputs `s` apart and all that is hashed for the tree and the proof is among them.
pub proof fn law_sound_proof(
    t: Tree,
    blocks: Seq<Seq<u8>>,
    p: Proof,
    x: Seq<u8>,
    s: Set<Seq<u8>>,
)
    requires
        holds(t, blocks),
        p.accepts(x, t.root_hash()),
        apart(s),
        has_tree(s, t, blocks),
        has_proof(s, p, x),
    ensures
        p.block < blocks.len(),
        x == blocks[p.block as int],
{
    let leaf = leaf_node(p.block as nat, x);
    let n = climb(leaf, p.siblings@)->0;
    lemma_ends_in(p.roots@, n, t.root_hash());
    lemma_closes(t, blocks, p.roots@, n, s);
    lemma_descend(t, blocks, leaf, p.siblings@, s);
    flat::lemma_leaf(p.block as nat);
    flat::lemma_range(2 * p.block as nat);
    assert(flat::complete(leaf.index as nat, blocks.len()));
    assert(t.nodes[leaf.index] == leaf_node(p.block as nat, blocks[p.block as int]));
    assert(s.contains(leaf_bytes(x)) && s.contains(leaf_bytes(blocks[p.block as int])));
    assert(digest(leaf_bytes(x)) == digest(leaf_bytes(blocks[p.block as int])));
    lemma_leaf_bytes(x, blocks[p.block as int]);
}

/// What keyed nodes derive has the index it stands for.
proof fn lemma_derived_index(known: Map<u64, Node>, d: nat, o: nat)
    requires
        forall|i: u64| #[trigger] known.contains_key(i) ==> known[i].index == i,
        flat::index_of(d, o) < u64::MAX,
    ensures
        derived(known, d, o) matches Some(n) ==> n.index == flat::index_of(d, o),
    decreases d,
{
    let i = flat::index_of(d, o);
    flat::lemma_index(d, o);
    if !known.contains_key(i as u64) && d > 0 {
        let e = (d - 1) as nat;
        flat::lemma_children_of(i);
        flat::lemma_children(i);
        flat::lemma_word(i);
        flat::lemma_range(i);
        flat::lemma_range(flat::left_of(i));
        flat::lemma_range(flat::right_of(i));
        flat::lemma_word(flat::left_of(i));
        flat::lemma_word(flat::right_of(i));
        lemma_derived_index(known, e, 2 * o);
        lemma_derived_index(known, e, 2 * o + 1);
    }
}

proof fn lemma_derived_root(known: Map<u64, Node>, roots: Seq<nat>, k: int)
    requires
        derived_roots(known, roots) is Some,
        0 <= k < roots.len(),
    ensures
        (derived_roots(known, roots)->0).len() == roots.len(),
        derived_at(known, roots[k]) == Some((derived_roots(known, roots)->0)[k]),
    decreases roots.len(),
{
    let less = roots.drop_last();
    lemma_derived_roots_len(known, less);
    if k < less.len() {
        lemma_derived_root(known, less, k);
    }
}

proof fn lemma_derived_roots_len(known: Map<u64, Node>, roots: Seq<nat>)
    requires
        derived_roots(known, roots) is Some,
    ensures
        (derived_roots(known, roots)->0).len() == roots.len(),
    decreases roots.len(),
{
    if roots.len() > 0 {
        lemma_derived_roots_len(known, roots.drop_last());
    }
}

/// Down from a node that the known nodes derive as the tree has it, to a known node:
/// the tree has that one too.
proof fn lemma_derive_down(
    known: Map<u64, Node>,
    u: Tree,
    b: Seq<Seq<u8>>,
    d: nat,
    o: nat,
    r: nat,
    block: nat,
    s: Set<Seq<u8>>,
)
    requires
        holds(u, b),
        apart(s),
        has_nodes(s, b),
        has_derived(s, known, d, o),
        forall|i: u64| #[trigger] known.contains_key(i) ==> known[i].index == i,
        flat::complete(flat::index_of(d, o), b.len()),
        derived(known, d, o) == Some(built(b, d, o)),
        r < u64::MAX,
        known.contains_key(r as u64),
        flat::first_of(r) <= block < flat::end_of(r),
        flat::first_of(flat::index_of(d, o)) <= block < flat::end_of(flat::index_of(d, o)),
        flat::depth_of(r) <= d,
        forall|i: u64| #[trigger]
            known.contains_key(i) && flat::first_of(i as nat) <= block < flat::end_of(i as nat)
                ==> i == r,
    ensures
        known[r as u64] == built_at(b, r),
    decreases d,
{
    let i = flat::index_of(d, o);
    flat::lemma_index(d, o);
    flat::lemma_word(i);
    flat::lemma_range(i);
    if flat::depth_of(r) == d {
        flat::lemma_nested(i, r, block);
        assert(i == r);
    } else {
        assert(i != r);
        assert(!known.contains_key(i as u64));
        let e = (d - 1) as nat;
        let l = flat::left_of(i);
        let q = flat::right_of(i);
        flat::lemma_children_of(i);
        flat::lemma_children(i);
        flat::lemma_range(l);
        flat::lemma_range(q);
        flat::lemma_word(l);
        flat::lemma_word(q);
        lemma_derived_index(known, e, 2 * o);
        lemma_derived_index(known, e, 2 * o + 1);
        let x = derived(known, e, 2 * o)->0;
        let y = derived(known, e, 2 * o + 1)->0;
        let v = built(b, e, 2 * o);
        let w = built(b, e, 2 * o + 1);
        lemma_built(b, e, 2 * o);
        lemma_built(b, e, 2 * o + 1);
        lemma_built(b, d, o);
        assert(joined(x, y) == joined(v, w));
        assert(parent_bytes(v, w) == built_bytes(b, d, o));
        assert(parent_bytes(x, y) == pair_bytes(x, y));
        assert(s.contains(parent_bytes(x, y)) && s.contains(parent_bytes(v, w)));
        assert(digest(parent_bytes(x, y)) == digest(parent_bytes(v, w)));
        lemma_parent_bytes(x, y, v, w);
        assert(x == v && y == w);
        if block < flat::end_of(l) {
            lemma_derive_down(known, u, b, e, 2 * o, r, block, s);
        } else {
            lemma_derive_down(known, u, b, e, 2 * o + 1, r, block, s);
        }
    }
}

/// A root hash tells how many blocks it is of: that of the first `n` blocks of one log is
/// that of the first `m` of another only if `n` is `m`, where BLAKE3 tells the inputs `s`
/// apart and all that is hashed for the two is among them.
pub proof fn law_root_length(
    t: Tree,
    a: Seq<Seq<u8>>,
    n: u64,
    u: Tree,
    b: Seq<Seq<u8>>,
    m: u64,
    s: Set<Seq<u8>>,
)
    requires
        holds(t, a),
        holds(u, b),
        n <= a.len(),
        m <= b.len(),
        t.prefix_hash(n) == u.prefix_hash(m),
        apart(s),
        has_tree(s, t, a),
        has_tree(s, u, b),
    ensures
        n == m,
{
    let x = flat::roots_of(n as nat);
    let y = flat::roots_of(m as nat);
    let p = t.roots_at(n as nat);
    let q = u.roots_at(m as nat);
    flat::lemma_roots(n as nat);
    flat::lemma_roots(m as nat);
    lemma_held_roots(t, a, n as nat);
    lemma_held_roots(u, b, m as nat);
    assert(s.contains(tree_bytes(p)) && s.contains(tree_bytes(q)));
    assert(digest(tree_bytes(p)) == digest(tree_bytes(q)));
    assert(tree_bytes(p).skip(1) =~= roots_bytes(p));
    assert(tree_bytes(q).skip(1) =~= roots_bytes(q));
    lemma_roots_injective(p, q);
    assert(p.len() == x.len() && q.len() == y.len());
    if x.len() > 0 {
        let last = x.len() - 1;
        assert(p[last].index == x[last] && q[last].index == y[last]);
        assert(x.last() == x[last] && y.last() == y[last]);
        assert(flat::end_of(x.last()) == n && flat::end_of(y.last()) == m);
    }
}

/// A tree that has the roots of so many blocks has so many.
proof fn lemma_roots_within(t: Tree, blocks: Seq<Seq<u8>>, n: nat)
    requires
        holds(t, blocks),
        t.has_roots(n),
        n < MAX_BLOCKS,
    ensures
        n <= blocks.len(),
{
    let idx = flat::roots_of(n);
    flat::lemma_roots(n);
    if n > 0 {
        let r = idx.last();
        assert(idx[idx.len() - 1] == r);
        assert(flat::is_root(r, n));
        flat::lemma_word(r);
        assert(t.nodes.contains_key(r as u64));
        assert(flat::complete(r, blocks.len()));
    }
}

/// The roots that are derived are those asked for.
proof fn lemma_derived_places(known: Map<u64, Node>, roots: Seq<nat>)
    requires
        forall|i: u64| #[trigger] known.contains_key(i) ==> known[i].index == i,
        derived_roots(known, roots) is Some,
        forall|k: int| 0 <= k < roots.len() ==> #[trigger] roots[k] < u64::MAX,
    ensures
        (derived_roots(known, roots)->0).len() == roots.len(),
        forall|k: int|
            0 <= k < roots.len() ==> (#[trigger] (derived_roots(known, roots)->0)[k]).index
                == roots[k],
    decreases roots.len(),
{
    if roots.len() > 0 {
        let less = roots.drop_last();
        assert forall|k: int| 0 <= k < less.len() implies #[trigger] less[k] < u64::MAX by {
            assert(less[k] == roots[k]);
        }
        lemma_derived_places(known, less);
        let r = roots.last();
        assert(roots[roots.len() - 1] == r);
        flat::lemma_coords(r);
        lemma_derived_index(known, flat::depth_of(r), flat::offset_of(r));
    }
}

/// An accepted upgrade proof is one to the length of the log whose root hash it leads to.
proof fn lemma_upgrade_length(
    u: Tree,
    b: Seq<Seq<u8>>,
    p: UpgradeProof,
    old_roots: Seq<Node>,
    s: Set<Seq<u8>>,
)
    requires
        holds(u, b),
        p.accepts(old_roots, u.root_hash()),
        apart(s),
        has_tree(s, u, b),
        has_upgrade(s, p, old_roots),
    ensures
        p.new_len == b.len(),
{
    let nodes = old_roots + p.nodes@;
    let known = known_nodes(nodes);
    let tops = flat::roots_of(p.new_len as nat);
    let mine = flat::roots_of(b.len());
    let rs = derived_roots(known, tops)->0;
    let own = u.roots_at(b.len());
    lemma_known(nodes);
    flat::lemma_roots(p.new_len as nat);
    flat::lemma_roots(b.len());
    lemma_held_roots(u, b, b.len());
    assert(s.contains(tree_bytes(rs)) && s.contains(tree_bytes(own)));
    assert(digest(tree_bytes(rs)) == digest(tree_bytes(own)));
    assert(tree_bytes(rs).skip(1) =~= roots_bytes(rs));
    assert(tree_bytes(own).skip(1) =~= roots_bytes(own));
    lemma_roots_injective(rs, own);
    assert forall|k: int| 0 <= k < tops.len() implies #[trigger] tops[k] < u64::MAX by {
        assert(flat::is_root(tops[k], p.new_len as nat));
        flat::lemma_word(tops[k]);
    }
    lemma_derived_places(known, tops);
    if b.len() == 0 {
        assert(own.len() == 0);
        assert(tops.len() > 0);
    } else {
        let last = tops.len() - 1;
        assert(rs[last].index == tops[last]);
        assert(own[last].index == mine[last]);
        assert(flat::end_of(tops.last()) == p.new_len);
        assert(flat::end_of(mine.last()) == b.len());
        assert(tops.last() == tops[last] && mine.last() == mine[last]);
    }
}

/// An upgrade proof is proof: where one bridges from the trusted roots of a log to the
/// root hash of a longer log, the longer log begins with the trusted blocks, where BLAKE3
/// tells the inputs `s` apart and all that is hashed for the trees and the proof is among
/// them.
pub proof fn law_sound_upgrade(
    t: Tree,
    a: Seq<Seq<u8>>,
    u: Tree,
    b: Seq<Seq<u8>>,
    p: UpgradeProof,
    s: Set<Seq<u8>>,
)
    requires
        holds(t, a),
        holds(u, b),
        t.has_roots(p.old_len as nat),
        p.accepts(t.roots_at(p.old_len as nat), u.root_hash()),
        apart(s),
        has_tree(s, t, a),
        has_tree(s, u, b),
        has_upgrade(s, p, t.roots_at(p.old_len as nat)),
    ensures
        p.new_len == b.len(),
        p.old_len <= a.len(),
        p.old_len < b.len(),
        a.take(p.old_len as int) == b.take(p.old_len as int),
{
    let n = p.old_len as nat;
    lemma_roots_within(t, a, n);
    lemma_upgrade_length(u, b, p, t.roots_at(n), s);
    let old_roots = t.roots_at(n);
    let nodes = old_roots + p.nodes@;
    let known = known_nodes(nodes);
    let idx = flat::roots_of(n);
    let tops = flat::roots_of(b.len());
    let rs = derived_roots(known, tops)->0;
    let own = u.roots_at(b.len());
    lemma_held_roots(t, a, n);
    lemma_held_roots(u, b, b.len());
    lemma_known(nodes);
    flat::lemma_roots(n);
    flat::lemma_roots(b.len());
    assert(s.contains(tree_bytes(rs)) && s.contains(tree_bytes(own)));
    assert(digest(tree_bytes(rs)) == digest(tree_bytes(own)));
    assert(tree_bytes(rs).skip(1) =~= roots_bytes(rs));
    assert(tree_bytes(own).skip(1) =~= roots_bytes(own));
    lemma_roots_injective(rs, own);
    assert forall|k: int| 0 <= k < n implies a[k] == b[k] by {
        let j = flat::lemma_root_over(n, k as nat);
        let r = idx[j];
        let block = k as nat;
        assert(flat::is_root(r, n));
        assert(nodes[j] == old_roots[j]);
        assert(old_roots[j].index == r);
        assert(known[nodes[j].index] == nodes[j]);
        let top = flat::lemma_root_over(b.len(), block);
        let big = tops[top];
        assert(flat::is_root(big, b.len()));
        flat::lemma_range(r);
        flat::lemma_range(big);
        if flat::depth_of(big) < flat::depth_of(r) {
            flat::lemma_nested(big, r, block);
        }
        lemma_derived_root(known, tops, top);
        assert(rs[top] == own[top]);
        assert(u.nodes.contains_key(big as u64));
        flat::lemma_coords(big);
        assert forall|i: u64| #[trigger]
            known.contains_key(i) && flat::first_of(i as nat) <= block < flat::end_of(
                i as nat,
            ) implies i == r by {
            let e = known[i];
            assert(nodes.contains(e));
            let m = choose|m: int| 0 <= m < nodes.len() && nodes[m] == e;
            if m < old_roots.len() {
                assert(old_roots[m].index == idx[m]);
                assert(flat::is_root(idx[m], n));
                flat::lemma_roots_apart(idx[m], r, n, block);
            } else {
                assert(nodes[m] == p.nodes@[m - old_roots.len()]);
            }
        }
        lemma_derive_down(known, u, b, flat::depth_of(big), flat::offset_of(big), r, block, s);
        flat::lemma_coords(r);
        assert(t.nodes.contains_key(r as u64));
        assert(built_at(a, r) == built_at(b, r));
        lemma_same_hash(a, b, flat::depth_of(r), flat::offset_of(r), s);
    }
    assert(a.take(n as int) =~= b.take(n as int));
}

/// Whether nodes are at depth `d`, from left to right.
spec fn level_at(level: Seq<Node>, d: nat) -> bool {
    &&& forall|k: int|
        0 <= k < level.len() ==> (#[trigger] level[k]).index < u64::MAX && flat::depth_of(
            level[k].index as nat,
        ) == d
    &&& forall|j: int, k: int|
        0 <= j < k < level.len() ==> flat::offset_of((#[trigger] level[j]).index as nat)
            < flat::offset_of((#[trigger] level[k]).index as nat)
}

/// Whether the tree has nodes.
spec fn in_tree(t: Tree, nodes: Seq<Node>) -> bool {
    forall|k: int|
        0 <= k < nodes.len() ==> t.nodes.contains_key((#[trigger] nodes[k]).index)
            && t.nodes[nodes[k].index] == nodes[k]
}

/// Whether no two nodes have one index.
spec fn separate(nodes: Seq<Node>) -> bool {
    forall|j: int, k: int|
        0 <= j < k < nodes.len() ==> (#[trigger] nodes[j]).index != (#[trigger] nodes[k]).index
}

/// Whether `s` has what is hashed to lift a level.
pub open spec fn has_lift(
    s: Set<Seq<u8>>,
    level: Seq<Node>,
    k: int,
    table: Seq<Node>,
    roots: Seq<Node>,
) -> bool
    decreases level.len() - k,
{
    0 <= k < level.len() ==> if paired(level, k) {
        &&& has_lift(s, level, k + 2, table, roots)
        &&& !(rooted(roots, level[k].index) && rooted(roots, level[k + 1].index)) ==> s.contains(
            pair_bytes(level[k], level[k + 1]),
        )
    } else {
        &&& has_lift(s, level, k + 1, table, roots)
        &&& !rooted(roots, level[k].index) ==> (lookup(
            table,
            flat::sibling_of(level[k].index as nat) as u64,
        ) matches Some(sib) ==> s.contains(pair_bytes(level[k], sib)))
    }
}

/// Whether `s` has what is hashed to lift a level up to the roots.
pub open spec fn has_tops(
    s: Set<Seq<u8>>,
    level: Seq<Node>,
    table: Seq<Node>,
    roots: Seq<Node>,
    levels: nat,
) -> bool
    decreases levels,
{
    level.len() > 0 && levels > 0 ==> {
        &&& has_lift(s, level, 0, table, roots)
        &&& lift(level, 0, table, roots) matches Some(l) ==> has_tops(
            s,
            l.0,
            table,
            roots,
            (levels - 1) as nat,
        )
    }
}

/// Whether `s` has what is hashed to verify `data` by a range proof.
pub open spec fn has_range_proof(s: Set<Seq<u8>>, p: RangeProof, data: Seq<Vec<u8>>) -> bool {
    let leaves = leaves_of(p.start as nat, data);
    &&& forall|k: int| 0 <= k < data.len() ==> s.contains(leaf_bytes((#[trigger] data[k])@))
    &&& has_tops(s, leaves, p.nodes@, p.roots@, LEVELS as nat)
    &&& tops_of(leaves, p.nodes@, p.roots@, LEVELS as nat) matches Some(tops) ==> (with_roots(
        p.roots@,
        tops,
    ) matches Some(rs) ==> s.contains(tree_bytes(rs)))
}

/// A step up leads to the next depth, at half the offset.
proof fn lemma_up(a: Node, b: Node)
    requires
        step_up(a, b) is Some,
    ensures
        ({
            let p = step_up(a, b)->0;
            let i = a.index as nat;
            &&& p.index < u64::MAX
            &&& flat::depth_of(p.index as nat) == flat::depth_of(i) + 1
            &&& flat::offset_of(p.index as nat) == flat::offset_of(i) / 2
        }),
{
    let i = a.index as nat;
    flat::lemma_coords(i);
    flat::lemma_word(i);
    flat::lemma_family(i);
    flat::lemma_coords(flat::parent_of(i));
    flat::lemma_index(flat::depth_of(i) + 1, flat::offset_of(i) / 2);
}

/// Nodes of one depth next to one another below one parent are siblings.
proof fn lemma_siblings(a: Node, b: Node)
    requires
        a.index < u64::MAX,
        b.index < u64::MAX,
        flat::depth_of(a.index as nat) == flat::depth_of(b.index as nat),
        flat::offset_of(a.index as nat) < flat::offset_of(b.index as nat),
    ensures
        (b.index == flat::sibling_of(a.index as nat)) == (flat::offset_of(a.index as nat) / 2
            == flat::offset_of(b.index as nat) / 2),
{
    let i = a.index as nat;
    let j = b.index as nat;
    flat::lemma_coords(i);
    flat::lemma_coords(j);
    flat::lemma_family(i);
    flat::lemma_index(flat::depth_of(i), flat::twin(flat::offset_of(i)));
}

/// Lifting a level gives one at the next depth, and leaves roots at this.
proof fn lemma_lift(level: Seq<Node>, k: int, table: Seq<Node>, roots: Seq<Node>, d: nat)
    requires
        level_at(level, d),
        0 <= k,
        lift(level, k, table, roots) is Some,
    ensures
        ({
            let (up, tops) = lift(level, k, table, roots)->0;
            &&& level_at(up, d + 1)
            &&& level_at(tops, d)
            &&& forall|j: int|
                0 <= j < up.len() ==> k < level.len() && flat::offset_of(
                    (#[trigger] up[j]).index as nat,
                ) >= flat::offset_of(level[k].index as nat) / 2
            &&& forall|j: int|
                0 <= j < tops.len() ==> k < level.len() && flat::offset_of(
                    (#[trigger] tops[j]).index as nat,
                ) >= flat::offset_of(level[k].index as nat)
        }),
    decreases level.len() - k,
{
    if k < level.len() {
        let (up, tops) = lift(level, k, table, roots)->0;
        let a = level[k];
        if paired(level, k) {
            let b = level[k + 1];
            lemma_lift(level, k + 2, table, roots, d);
            let (u, v) = lift(level, k + 2, table, roots)->0;
            assert(flat::offset_of(a.index as nat) < flat::offset_of(b.index as nat));
            lemma_siblings(a, b);
            if k + 2 < level.len() {
                assert(flat::offset_of(b.index as nat) < flat::offset_of(
                    level[k + 2].index as nat,
                ));
            }
            if rooted(roots, a.index) && rooted(roots, b.index) {
                assert(tops =~= seq![a, b] + v);
                lemma_ahead(seq![a, b], v, d);
            } else {
                lemma_up(a, b);
                let p = step_up(a, b)->0;
                assert(up =~= seq![p] + u);
                lemma_ahead(seq![p], u, d + 1);
            }
        } else {
            lemma_lift(level, k + 1, table, roots, d);
            let (u, v) = lift(level, k + 1, table, roots)->0;
            if k + 1 < level.len() {
                assert(flat::offset_of(a.index as nat) < flat::offset_of(
                    level[k + 1].index as nat,
                ));
                lemma_siblings(a, level[k + 1]);
            }
            if rooted(roots, a.index) {
                assert(tops =~= seq![a] + v);
                lemma_ahead(seq![a], v, d);
            } else {
                let sib = lookup(table, flat::sibling_of(a.index as nat) as u64)->0;
                lemma_up(a, sib);
                let p = step_up(a, sib)->0;
                assert(up =~= seq![p] + u);
                lemma_ahead(seq![p], u, d + 1);
            }
        }
    }
}

/// Nodes to the left of a level make a level with it.
proof fn lemma_ahead(left: Seq<Node>, right: Seq<Node>, d: nat)
    requires
        level_at(left, d),
        level_at(right, d),
        forall|j: int, k: int|
            0 <= j < left.len() && 0 <= k < right.len() ==> flat::offset_of(
                (#[trigger] left[j]).index as nat,
            ) < flat::offset_of((#[trigger] right[k]).index as nat),
    ensures
        level_at(left + right, d),
{
    let all = left + right;
    let n = left.len() as int;
    assert forall|k: int| 0 <= k < all.len() implies (#[trigger] all[k]).index < u64::MAX
        && flat::depth_of(all[k].index as nat) == d by {
        if k < n {
            assert(all[k] == left[k]);
        } else {
            assert(all[k] == right[k - n]);
        }
    }
    assert forall|j: int, k: int| 0 <= j < k < all.len() implies flat::offset_of(
        (#[trigger] all[j]).index as nat,
    ) < flat::offset_of((#[trigger] all[k]).index as nat) by {
        if k < n {
            assert(all[j] == left[j] && all[k] == left[k]);
        } else if j < n {
            assert(all[j] == left[j] && all[k] == right[k - n]);
        } else {
            assert(all[j] == right[j - n] && all[k] == right[k - n]);
        }
    }
}

/// The roots that a level climbs to are different ones.
proof fn lemma_tops(level: Seq<Node>, table: Seq<Node>, roots: Seq<Node>, levels: nat, d: nat)
    requires
        level_at(level, d),
        tops_of(level, table, roots, levels) is Some,
    ensures
        separate(tops_of(level, table, roots, levels)->0),
        forall|j: int|
            0 <= j < (tops_of(level, table, roots, levels)->0).len() ==> flat::depth_of(
                (#[trigger] (tops_of(level, table, roots, levels)->0)[j]).index as nat,
            ) >= d,
    decreases levels,
{
    if level.len() > 0 {
        lemma_lift(level, 0, table, roots, d);
        let (up, tops) = lift(level, 0, table, roots)->0;
        let less = (levels - 1) as nat;
        lemma_tops(up, table, roots, less, d + 1);
        let rest = tops_of(up, table, roots, less)->0;
        let all = tops + rest;
        let n = tops.len() as int;
        assert forall|j: int| 0 <= j < all.len() implies flat::depth_of(
            (#[trigger] all[j]).index as nat,
        ) >= d by {
            if j < n {
                assert(all[j] == tops[j]);
            } else {
                assert(all[j] == rest[j - n]);
            }
        }
        assert forall|j: int, k: int| 0 <= j < k < all.len() implies (#[trigger] all[j]).index != (
        #[trigger] all[k]).index by {
            if k < n {
                assert(all[j] == tops[j] && all[k] == tops[k]);
            } else if j < n {
                assert(all[j] == tops[j] && all[k] == rest[k - n]);
            } else {
                assert(all[j] == rest[j - n] && all[k] == rest[k - n]);
            }
        }
    }
}

/// A level that is lifted to nodes of the tree is one of nodes of the tree.
proof fn lemma_lift_down(
    t: Tree,
    blocks: Seq<Seq<u8>>,
    level: Seq<Node>,
    k: int,
    table: Seq<Node>,
    roots: Seq<Node>,
    s: Set<Seq<u8>>,
)
    requires
        holds(t, blocks),
        apart(s),
        has_nodes(s, blocks),
        0 <= k,
        has_lift(s, level, k, table, roots),
        lift(level, k, table, roots) is Some,
        in_tree(t, (lift(level, k, table, roots)->0).0),
        in_tree(t, (lift(level, k, table, roots)->0).1),
    ensures
        forall|j: int|
            k <= j < level.len() ==> t.nodes.contains_key((#[trigger] level[j]).index)
                && t.nodes[level[j].index] == level[j],
    decreases level.len() - k,
{
    if k < level.len() {
        let (up, tops) = lift(level, k, table, roots)->0;
        let a = level[k];
        if paired(level, k) {
            let b = level[k + 1];
            let (u, v) = lift(level, k + 2, table, roots)->0;
            if rooted(roots, a.index) && rooted(roots, b.index) {
                assert(tops[0] == a && tops[1] == b);
                assert(v =~= tops.skip(2));
                assert forall|j: int| 0 <= j < v.len() implies t.nodes.contains_key(
                    (#[trigger] v[j]).index,
                ) && t.nodes[v[j].index] == v[j] by {
                    assert(v[j] == tops[j + 2]);
                }
            } else {
                let p = step_up(a, b)->0;
                assert(up[0] == p);
                assert forall|j: int| 0 <= j < u.len() implies t.nodes.contains_key(
                    (#[trigger] u[j]).index,
                ) && t.nodes[u[j].index] == u[j] by {
                    assert(u[j] == up[j + 1]);
                }
                lemma_step_down(t, blocks, a, b, s);
            }
            lemma_lift_down(t, blocks, level, k + 2, table, roots, s);
        } else {
            let (u, v) = lift(level, k + 1, table, roots)->0;
            if rooted(roots, a.index) {
                assert(tops[0] == a);
                assert forall|j: int| 0 <= j < v.len() implies t.nodes.contains_key(
                    (#[trigger] v[j]).index,
                ) && t.nodes[v[j].index] == v[j] by {
                    assert(v[j] == tops[j + 1]);
                }
            } else {
                let sib = lookup(table, flat::sibling_of(a.index as nat) as u64)->0;
                let p = step_up(a, sib)->0;
                assert(up[0] == p);
                assert forall|j: int| 0 <= j < u.len() implies t.nodes.contains_key(
                    (#[trigger] u[j]).index,
                ) && t.nodes[u[j].index] == u[j] by {
                    assert(u[j] == up[j + 1]);
                }
                lemma_step_down(t, blocks, a, sib, s);
            }
            lemma_lift_down(t, blocks, level, k + 1, table, roots, s);
        }
    }
}

/// A level that climbs to nodes of the tree is one of nodes of the tree.
proof fn lemma_tops_down(
    t: Tree,
    blocks: Seq<Seq<u8>>,
    level: Seq<Node>,
    table: Seq<Node>,
    roots: Seq<Node>,
    levels: nat,
    s: Set<Seq<u8>>,
)
    requires
        holds(t, blocks),
        apart(s),
        has_nodes(s, blocks),
        has_tops(s, level, table, roots, levels),
        tops_of(level, table, roots, levels) is Some,
        in_tree(t, tops_of(level, table, roots, levels)->0),
    ensures
        in_tree(t, level),
    decreases levels,
{
    if level.len() > 0 {
        let (up, tops) = lift(level, 0, table, roots)->0;
        let less = (levels - 1) as nat;
        let rest = tops_of(up, table, roots, less)->0;
        let all = tops_of(level, table, roots, levels)->0;
        assert(all == tops + rest);
        assert forall|j: int| 0 <= j < tops.len() implies t.nodes.contains_key(
            (#[trigger] tops[j]).index,
        ) && t.nodes[tops[j].index] == tops[j] by {
            assert(tops[j] == all[j]);
        }
        assert forall|j: int| 0 <= j < rest.len() implies t.nodes.contains_key(
            (#[trigger] rest[j]).index,
        ) && t.nodes[rest[j].index] == rest[j] by {
            assert(rest[j] == all[j + tops.len()]);
        }
        lemma_tops_down(t, blocks, up, table, roots, less, s);
        lemma_lift_down(t, blocks, level, 0, table, roots, s);
    }
}

/// Each of the nodes that replace roots is among them, if no two have one index.
proof fn lemma_with_roots(roots: Seq<Node>, nodes: Seq<Node>)
    requires
        separate(nodes),
        with_roots(roots, nodes) is Some,
    ensures
        forall|j: int|
            0 <= j < nodes.len() ==> (with_roots(roots, nodes)->0).contains(#[trigger] nodes[j]),
    decreases nodes.len(),
{
    if nodes.len() > 0 {
        let less = nodes.drop_last();
        let last = nodes.last();
        assert forall|j: int, k: int| 0 <= j < k < less.len() implies (#[trigger] less[j]).index
            != (#[trigger] less[k]).index by {
            assert(less[j] == nodes[j] && less[k] == nodes[k]);
        }
        lemma_with_roots(roots, less);
        let rs = with_roots(roots, less)->0;
        let all = with_roots(roots, nodes)->0;
        lemma_place(rs, last.index);
        let k = place(rs, last.index)->0;
        assert(all[k] == last);
        assert forall|j: int| 0 <= j < nodes.len() implies all.contains(#[trigger] nodes[j]) by {
            if j < less.len() {
                assert(less[j] == nodes[j]);
                let q = rs.index_of(less[j]);
                assert(nodes[j].index != nodes[nodes.len() - 1].index);
                assert(all[q] == nodes[j]);
            }
        }
    }
}

/// A range proof is proof: data that any proof places at a range of indices, against the
/// root hash of a tree, are the blocks that the tree has there, where BLAKE3 tells the
/// inputs `s` apart and all that is hashed for the tree and the proof is among them.
pub proof fn law_sound_range_proof(
    t: Tree,
    blocks: Seq<Seq<u8>>,
    p: RangeProof,
    data: Seq<Vec<u8>>,
    s: Set<Seq<u8>>,
)
    requires
        holds(t, blocks),
        p.accepts(data, t.root_hash()),
        apart(s),
        has_tree(s, t, blocks),
        has_range_proof(s, p, data),
    ensures
        p.start < p.end <= blocks.len(),
        forall|k: int| 0 <= k < data.len() ==> (#[trigger] data[k])@ == blocks[p.start + k],
{
    let leaves = leaves_of(p.start as nat, data);
    let tops = tops_of(leaves, p.nodes@, p.roots@, LEVELS as nat)->0;
    let rs = with_roots(p.roots@, tops)->0;
    let own = t.roots_at(blocks.len());
    assert forall|k: int| 0 <= k < leaves.len() implies (#[trigger] leaves[k]).index < u64::MAX
        && flat::depth_of(leaves[k].index as nat) == 0 && flat::offset_of(
        leaves[k].index as nat,
    ) == p.start + k && leaves[k].index == 2 * (p.start + k) by {
        flat::lemma_leaf((p.start + k) as nat);
        flat::lemma_index(0, (p.start + k) as nat);
    }
    lemma_tops(leaves, p.nodes@, p.roots@, LEVELS as nat, 0);
    lemma_with_roots(p.roots@, tops);
    assert(s.contains(tree_bytes(rs)) && s.contains(tree_bytes(own)));
    assert(digest(tree_bytes(rs)) == digest(tree_bytes(own)));
    assert(tree_bytes(rs).skip(1) =~= roots_bytes(rs));
    assert(tree_bytes(own).skip(1) =~= roots_bytes(own));
    lemma_roots_injective(rs, own);
    lemma_held_roots(t, blocks, blocks.len());
    assert forall|j: int| 0 <= j < tops.len() implies t.nodes.contains_key(
        (#[trigger] tops[j]).index,
    ) && t.nodes[tops[j].index] == tops[j] by {
        assert(rs.contains(tops[j]));
        let q = rs.index_of(tops[j]);
        let i = flat::roots_of(blocks.len())[q];
        assert(own[q] == t.nodes[i as u64]);
        assert(tops[j].index == i);
    }
    lemma_tops_down(t, blocks, leaves, p.nodes@, p.roots@, LEVELS as nat, s);
    assert forall|k: int| 0 <= k < data.len() implies p.start + k < blocks.len() && (
    #[trigger] data[k])@ == blocks[p.start + k] by {
        let b = (p.start + k) as nat;
        let leaf = leaves[k];
        flat::lemma_leaf(b);
        flat::lemma_range(2 * b);
        assert(t.nodes.contains_key(leaf.index));
        assert(flat::complete(2 * b, blocks.len()));
        assert(t.nodes[leaf.index] == leaf_node(b, blocks[b as int]));
        assert(s.contains(leaf_bytes(data[k]@)) && s.contains(leaf_bytes(blocks[b as int])));
        assert(digest(leaf_bytes(data[k]@)) == digest(leaf_bytes(blocks[b as int])));
        lemma_leaf_bytes(data[k]@, blocks[b as int]);
    }
    assert(data[data.len() - 1]@ == blocks[p.start + data.len() - 1]);
    assert(p.start + (data.len() - 1) < blocks.len());
}

} // verus!
