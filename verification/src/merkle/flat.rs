//! Flat-tree index arithmetic. Leaves stand at even indices (block `k` at `2k`),
//! parents at odd ones.
use vstd::prelude::*;
use vstd::arithmetic::power2::{lemma2_to64, lemma_pow2_pos, lemma_pow2_unfold, pow2};

verus! {

/// How many levels node `i` stands above the leaves.
pub open spec fn depth_of(i: nat) -> nat
    decreases i,
{
    if i % 2 == 0 {
        0
    } else {
        1 + depth_of(i / 2)
    }
}

/// The place of node `i` among the nodes of its depth, from the left.
pub open spec fn offset_of(i: nat) -> nat
    decreases i,
{
    if i % 2 == 0 {
        i / 2
    } else {
        offset_of(i / 2)
    }
}

/// The node at a depth and an offset.
pub open spec fn index_of(depth: nat, offset: nat) -> nat
    decreases depth,
{
    if depth == 0 {
        2 * offset
    } else {
        2 * index_of((depth - 1) as nat, offset) + 1
    }
}

/// The node one level up.
pub open spec fn parent_of(i: nat) -> nat {
    index_of(depth_of(i) + 1, offset_of(i) / 2)
}

/// The other offset below the same parent.
pub open spec fn twin(offset: nat) -> nat {
    if offset % 2 == 0 {
        offset + 1
    } else {
        (offset - 1) as nat
    }
}

/// The other node below the same parent.
pub open spec fn sibling_of(i: nat) -> nat {
    index_of(depth_of(i), twin(offset_of(i)))
}

/// The left child of a node that is not a leaf.
pub open spec fn left_of(i: nat) -> nat {
    index_of((depth_of(i) - 1) as nat, 2 * offset_of(i))
}

/// The right child of a node that is not a leaf.
pub open spec fn right_of(i: nat) -> nat {
    index_of((depth_of(i) - 1) as nat, 2 * offset_of(i) + 1)
}

/// The first block below node `i`.
pub open spec fn first_of(i: nat) -> nat {
    offset_of(i) * pow2(depth_of(i))
}

/// One past the last block below node `i`.
pub open spec fn end_of(i: nat) -> nat {
    (offset_of(i) + 1) * pow2(depth_of(i))
}

/// The ancestor at `depth` of the leaf of `block`.
pub open spec fn above(block: nat, depth: nat) -> nat {
    index_of(depth, block / pow2(depth))
}

/// Whether every block below node `i` is among the first `n`.
pub open spec fn complete(i: nat, n: nat) -> bool {
    end_of(i) <= n
}

/// Whether node `i` is the top of a complete subtree of a log of `n` blocks.
pub open spec fn is_root(i: nat, n: nat) -> bool {
    complete(i, n) && !complete(parent_of(i), n)
}

/// The largest power of two that is at most `n`.
pub open spec fn top_power(n: nat) -> nat
    decreases n,
{
    if n <= 1 {
        1
    } else {
        2 * top_power(n / 2)
    }
}

/// The roots of blocks `[start, start + n)`, left to right: each covers the largest
/// power of two of the blocks that are left.
pub open spec fn roots_from(start: nat, n: nat) -> Seq<nat>
    decreases n,
    via roots_from_decreases
{
    if n == 0 {
        Seq::empty()
    } else {
        seq![(2 * start + top_power(n) - 1) as nat] + roots_from(
            start + top_power(n),
            (n - top_power(n)) as nat,
        )
    }
}

#[via_fn]
proof fn roots_from_decreases(start: nat, n: nat) {
    if n > 0 {
        lemma_top_power(n);
    }
}

/// The roots of a log of `n` blocks, left to right.
pub open spec fn roots_of(n: nat) -> Seq<nat> {
    roots_from(0, n)
}

pub proof fn lemma_top_power(n: nat)
    requires
        n > 0,
    ensures
        0 < top_power(n) <= n < 2 * top_power(n),
        exists|d: nat| top_power(n) == pow2(d),
    decreases n,
{
    if n <= 1 {
        lemma2_to64();
        assert(top_power(n) == pow2(0));
    } else {
        lemma_top_power(n / 2);
        let d = choose|d: nat| top_power(n / 2) == pow2(d);
        lemma_pow2_unfold(d + 1);
        assert(top_power(n) == pow2(d + 1));
    }
}

/// A node's index in closed form.
pub proof fn lemma_index(d: nat, o: nat)
    ensures
        index_of(d, o) + 1 == (1 + 2 * o) * pow2(d),
        depth_of(index_of(d, o)) == d,
        offset_of(index_of(d, o)) == o,
    decreases d,
{
    if d == 0 {
        lemma2_to64();
    } else {
        lemma_index((d - 1) as nat, o);
        lemma_pow2_unfold(d);
        let p = pow2((d - 1) as nat);
        assert(2 * ((1 + 2 * o) * p) == (1 + 2 * o) * (2 * p)) by (nonlinear_arith);
        assert(index_of(d, o) / 2 == index_of((d - 1) as nat, o));
    }
}

/// Depth and offset determine a node.
pub proof fn lemma_coords(i: nat)
    ensures
        index_of(depth_of(i), offset_of(i)) == i,
        i + 1 == (1 + 2 * offset_of(i)) * pow2(depth_of(i)),
    decreases i,
{
    if i % 2 == 0 {
        lemma2_to64();
    } else {
        lemma_coords(i / 2);
    }
    lemma_index(depth_of(i), offset_of(i));
}

/// The block range of a node in terms of its index and its width.
pub proof fn lemma_range(i: nat)
    ensures
        end_of(i) == first_of(i) + pow2(depth_of(i)),
        pow2(depth_of(i)) > 0,
        first_of(i) + end_of(i) == i + 1,
        first_of(i) < end_of(i) <= i + 1,
{
    let o = offset_of(i);
    let p = pow2(depth_of(i));
    lemma_coords(i);
    lemma_pow2_pos(depth_of(i));
    assert((o + 1) * p == o * p + p) by (nonlinear_arith);
    assert((1 + 2 * o) * p == o * p + (o + 1) * p) by (nonlinear_arith);
    assert(o * p >= 0) by (nonlinear_arith)
        requires
            p > 0,
    ;
}

/// A leaf covers its one block.
pub proof fn lemma_leaf(block: nat)
    ensures
        depth_of(2 * block) == 0,
        offset_of(2 * block) == block,
        first_of(2 * block) == block,
        end_of(2 * block) == block + 1,
        above(block, 0) == 2 * block,
{
    lemma2_to64();
    assert((2 * block) % 2 == 0);
    assert(block / 1 == block);
}

/// How a node, its sibling and its parent lie.
pub proof fn lemma_family(i: nat)
    ensures
        depth_of(parent_of(i)) == depth_of(i) + 1,
        offset_of(parent_of(i)) == offset_of(i) / 2,
        depth_of(sibling_of(i)) == depth_of(i),
        offset_of(sibling_of(i)) == twin(offset_of(i)),
        parent_of(sibling_of(i)) == parent_of(i),
        sibling_of(sibling_of(i)) == i,
        sibling_of(i) != i,
        sibling_of(i) < i <==> offset_of(i) % 2 == 1,
        offset_of(i) % 2 == 0 ==> {
            &&& left_of(parent_of(i)) == i
            &&& right_of(parent_of(i)) == sibling_of(i)
            &&& first_of(parent_of(i)) == first_of(i)
            &&& end_of(i) == first_of(sibling_of(i))
            &&& end_of(parent_of(i)) == end_of(sibling_of(i))
            &&& end_of(i) < end_of(sibling_of(i))
        },
        offset_of(i) % 2 == 1 ==> {
            &&& left_of(parent_of(i)) == sibling_of(i)
            &&& right_of(parent_of(i)) == i
            &&& first_of(parent_of(i)) == first_of(sibling_of(i))
            &&& end_of(sibling_of(i)) == first_of(i)
            &&& end_of(parent_of(i)) == end_of(i)
            &&& end_of(sibling_of(i)) < end_of(i)
        },
        pow2(depth_of(i) + 1) == 2 * pow2(depth_of(i)),
        pow2(depth_of(i)) > 0,
{
    let d = depth_of(i);
    let o = offset_of(i);
    let p = pow2(d);
    lemma_coords(i);
    lemma_index(d + 1, o / 2);
    lemma_index(d, twin(o));
    lemma_coords(sibling_of(i));
    lemma_pow2_unfold(d + 1);
    lemma_pow2_pos(d);
    let h = o / 2;
    let t = twin(o);
    assert(h * (2 * p) == (2 * h) * p) by (nonlinear_arith);
    assert((h + 1) * (2 * p) == (2 * h + 2) * p) by (nonlinear_arith);
    if o % 2 == 0 {
        assert(o == 2 * h && t == o + 1);
        assert((1 + 2 * t) * p == (1 + 2 * o) * p + 2 * p) by (nonlinear_arith)
            requires
                t == o + 1,
        ;
        assert((t + 1) * p == (o + 1) * p + p) by (nonlinear_arith)
            requires
                t == o + 1,
        ;
    } else {
        assert(o == 2 * h + 1 && t == 2 * h);
        assert((1 + 2 * o) * p == (1 + 2 * t) * p + 2 * p) by (nonlinear_arith)
            requires
                o == t + 1,
        ;
        assert((o + 1) * p == (t + 1) * p + p) by (nonlinear_arith)
            requires
                o == t + 1,
        ;
    }
}

/// How a node and its children lie.
pub proof fn lemma_children(i: nat)
    requires
        i % 2 == 1,
    ensures
        depth_of(i) > 0,
        depth_of(left_of(i)) == depth_of(i) - 1,
        depth_of(right_of(i)) == depth_of(i) - 1,
        offset_of(left_of(i)) == 2 * offset_of(i),
        offset_of(right_of(i)) == 2 * offset_of(i) + 1,
        parent_of(left_of(i)) == i,
        parent_of(right_of(i)) == i,
        sibling_of(left_of(i)) == right_of(i),
        sibling_of(right_of(i)) == left_of(i),
        left_of(i) < i < right_of(i),
        first_of(left_of(i)) == first_of(i),
        end_of(left_of(i)) == first_of(right_of(i)),
        end_of(right_of(i)) == end_of(i),
{
    let d = depth_of(i);
    let o = offset_of(i);
    lemma_index((d - 1) as nat, 2 * o);
    lemma_index((d - 1) as nat, 2 * o + 1);
    lemma_coords(i);
    lemma_family(left_of(i));
    lemma_range(i);
    lemma_range(left_of(i));
    lemma_range(right_of(i));
}

/// A node above the leaves has its children where [`lemma_children`] says.
pub proof fn lemma_children_of(i: nat)
    requires
        depth_of(i) > 0,
    ensures
        i % 2 == 1,
        depth_of(left_of(i)) == depth_of(i) - 1,
        offset_of(left_of(i)) == 2 * offset_of(i),
        parent_of(left_of(i)) == i,
        left_of(i) < i,
        right_of(i) == sibling_of(left_of(i)),
{
    lemma_children(i);
}

/// Indices below `2^(k+1) - 1` are exactly the nodes over the first `2^k` blocks.
pub proof fn lemma_fits(i: nat, k: nat)
    ensures
        i + 1 < pow2(k + 1) <==> end_of(i) <= pow2(k),
        i + 1 < pow2(k + 1) ==> depth_of(i) <= k,
    decreases i,
{
    lemma_range(i);
    lemma_pow2_unfold(k + 1);
    lemma_pow2_pos(k);
    if i % 2 == 0 {
        lemma_leaf(i / 2);
        assert(2 * (i / 2) == i);
    } else {
        let h = i / 2;
        lemma_range(h);
        lemma_pow2_unfold(depth_of(i));
        lemma_pow2_pos(depth_of(h));
        let p = pow2(depth_of(h));
        let o = offset_of(h);
        assert((o + 1) * (2 * p) == 2 * ((o + 1) * p)) by (nonlinear_arith);
        assert(end_of(i) == 2 * end_of(h));
        if k == 0 {
            lemma2_to64();
        } else {
            lemma_pow2_unfold(k);
            lemma_fits(h, (k - 1) as nat);
        }
    }
}

/// Every index below `u64::MAX` lies over the first `2^63` blocks.
pub proof fn lemma_word(i: nat)
    ensures
        i < u64::MAX <==> end_of(i) <= 0x8000_0000_0000_0000,
        i < u64::MAX ==> depth_of(i) <= 63,
        i < u64::MAX && i != 0x7fff_ffff_ffff_ffff ==> {
            &&& depth_of(i) < 63
            &&& parent_of(i) < u64::MAX
            &&& sibling_of(i) < u64::MAX
        },
{
    lemma2_to64();
    lemma_pow2_unfold(64);
    lemma_fits(i, 63);
    if i < u64::MAX && i != 0x7fff_ffff_ffff_ffff {
        if depth_of(i) == 63 {
            lemma_coords(i);
            let o = offset_of(i);
            assert((1 + 2 * o) * 0x8000_0000_0000_0000 <= u64::MAX ==> o == 0) by (nonlinear_arith);
        }
        let d = depth_of(i);
        let o = offset_of(i);
        lemma_family(i);
        lemma_aligned_end(i, 63);
        lemma_fits(parent_of(i), 63);
        lemma_fits(sibling_of(i), 63);
        lemma_range(i);
        lemma_range(parent_of(i));
        lemma_range(sibling_of(i));
    }
}

/// The node over the first `2^63` blocks.
pub proof fn lemma_summit()
    ensures
        depth_of(0x7fff_ffff_ffff_ffff) == 63,
        offset_of(0x7fff_ffff_ffff_ffff) == 0,
        end_of(0x7fff_ffff_ffff_ffff) == 0x8000_0000_0000_0000,
        sibling_of(0x7fff_ffff_ffff_ffff) > u64::MAX,
{
    lemma2_to64();
    lemma_pow2_unfold(64);
    let p = pow2(63);
    assert(p == 0x8000_0000_0000_0000);
    lemma_index(63, 0);
    lemma_index(63, 1);
    assert((1 + 2 * 0) * p == p) by (nonlinear_arith);
    assert((1 + 2 * 1) * p == 3 * p) by (nonlinear_arith);
    assert((0 + 1) * p == p) by (nonlinear_arith);
    assert(index_of(63, 0) == 0x7fff_ffff_ffff_ffff);
}

/// A node no deeper than `k` whose parent is no deeper than `k` either lies with its
/// parent inside one block range of width `2^k`.
proof fn lemma_aligned_end(i: nat, k: nat)
    requires
        depth_of(i) < k,
    ensures
        end_of(i) <= pow2(k) ==> end_of(parent_of(i)) <= pow2(k),
{
    lemma_family(i);
    lemma_range(i);
    lemma_range(parent_of(i));
    let d = depth_of(i);
    let o = offset_of(i);
    let m = (k - d - 1) as nat;
    vstd::arithmetic::power2::lemma_pow2_adds(d + 1, m);
    lemma_pow2_unfold(d + 1);
    let p = pow2(d);
    let q = pow2(m);
    if end_of(i) <= pow2(k) {
        assert(pow2(k) == (2 * p) * q);
        assert(o / 2 + 1 <= q) by (nonlinear_arith)
            requires
                (o + 1) * p <= (2 * p) * q,
                p > 0,
        ;
        assert((o / 2 + 1) * (2 * p) <= (2 * p) * q) by (nonlinear_arith)
            requires
                o / 2 + 1 <= q,
                p > 0,
        ;
    }
}

/// The ancestors of a leaf climb one level at a time.
pub proof fn lemma_above(block: nat, d: nat)
    ensures
        depth_of(above(block, d)) == d,
        offset_of(above(block, d)) == block / pow2(d),
        first_of(above(block, d)) <= block < end_of(above(block, d)),
        parent_of(above(block, d)) == above(block, d + 1),
{
    lemma_pow2_pos(d);
    let p = pow2(d);
    lemma_index(d, block / p);
    vstd::arithmetic::div_mod::lemma_fundamental_div_mod(block as int, p as int);
    lemma_pow2_unfold(d + 1);
    vstd::arithmetic::div_mod::lemma_div_denominator(block as int, p as int, 2);
    assert(p * 2 == 2 * p);
    let o = block / p;
    assert(o * p <= block < (o + 1) * p) by (nonlinear_arith)
        requires
            block == p * o + block % p,
            0 <= block % p < p,
    ;
}

/// A node is the ancestor, at its depth, of each block it covers.
pub proof fn lemma_covers(i: nat, block: nat)
    requires
        first_of(i) <= block < end_of(i),
    ensures
        above(block, depth_of(i)) == i,
{
    lemma_coords(i);
    lemma_range(i);
    let p = pow2(depth_of(i));
    let o = offset_of(i);
    assert(block == o * p + (block - o * p));
    vstd::arithmetic::div_mod::lemma_fundamental_div_mod_converse(
        block as int,
        p as int,
        o as int,
        block - o * p,
    );
}

/// Of two nodes over one block, the higher one covers the lower one.
pub proof fn lemma_nested(i: nat, j: nat, block: nat)
    requires
        first_of(i) <= block < end_of(i),
        first_of(j) <= block < end_of(j),
        depth_of(i) <= depth_of(j),
    ensures
        first_of(j) <= first_of(i),
        end_of(i) <= end_of(j),
        depth_of(i) < depth_of(j) ==> end_of(parent_of(i)) <= end_of(j),
        depth_of(i) == depth_of(j) ==> i == j,
    decreases depth_of(j) - depth_of(i),
{
    lemma_covers(i, block);
    lemma_covers(j, block);
    if depth_of(i) < depth_of(j) {
        lemma_family(i);
        lemma_range(i);
        lemma_range(sibling_of(i));
        lemma_nested(parent_of(i), j, block);
    }
}

/// Two roots of one log that share a block are one root.
pub proof fn lemma_roots_apart(i: nat, j: nat, n: nat, block: nat)
    requires
        is_root(i, n),
        is_root(j, n),
        first_of(i) <= block < end_of(i),
        first_of(j) <= block < end_of(j),
    ensures
        i == j,
{
    if depth_of(i) <= depth_of(j) {
        lemma_nested(i, j, block);
    } else {
        lemma_nested(j, i, block);
    }
}

/// A complete node of a log of at most `2^63` blocks that is not a root has its
/// sibling and its parent complete.
pub proof fn lemma_climb(i: nat, n: nat)
    requires
        complete(i, n),
        !is_root(i, n),
    ensures
        complete(parent_of(i), n),
        complete(sibling_of(i), n),
        depth_of(parent_of(i)) == depth_of(i) + 1,
{
    lemma_family(i);
    lemma_range(i);
    lemma_range(sibling_of(i));
}

/// Whether `s` lists the roots of blocks `[start, n)` of a log of `n` blocks, each
/// starting where the one before it ends.
pub open spec fn tiles(s: Seq<nat>, start: nat, n: nat) -> bool {
    &&& s.len() > 0 ==> first_of(s[0]) == start && end_of(s.last()) == n
    &&& s.len() == 0 ==> start == n
    &&& forall|k: int| 0 <= k < s.len() ==> is_root(#[trigger] s[k], n)
    &&& forall|k: int|
        0 <= k < s.len() - 1 ==> end_of(#[trigger] s[k]) == first_of(s[k + 1])
}

/// The next root of a log of `start + n` blocks whose first `start` are covered.
proof fn lemma_next_root(start: nat, n: nat, d: nat, big: nat)
    requires
        n > 0,
        pow2(d) == top_power(n),
        big > d,
        start % pow2(big) == 0,
    ensures
        ({
            let i = (2 * start + pow2(d) - 1) as nat;
            &&& depth_of(i) == d
            &&& first_of(i) == start
            &&& end_of(i) == start + pow2(d)
            &&& is_root(i, start + n)
            &&& (start + pow2(d)) % pow2(d) == 0
        }),
{
    lemma_top_power(n);
    let p = pow2(d);
    lemma_pow2_pos(d);
    let m = (big - d - 1) as nat;
    vstd::arithmetic::power2::lemma_pow2_adds(d + 1, m);
    lemma_pow2_unfold(d + 1);
    let q = pow2(m);
    lemma_pow2_pos(m);
    lemma_pow2_pos(big);
    let c = start / pow2(big);
    vstd::arithmetic::div_mod::lemma_fundamental_div_mod(start as int, pow2(big) as int);
    let o = 2 * (q * c);
    assert(start == o * p) by (nonlinear_arith)
        requires
            start == ((2 * p) * q) * c,
            o == 2 * (q * c),
    ;
    lemma_index(d, o);
    let i = (2 * start + p - 1) as nat;
    assert((1 + 2 * o) * p == 2 * (o * p) + p) by (nonlinear_arith);
    assert(i == index_of(d, o));
    assert((o + 1) * p == o * p + p) by (nonlinear_arith);
    lemma_family(i);
    lemma_range(i);
    lemma_range(sibling_of(i));
    assert((o + 1) * p % p == 0) by {
        vstd::arithmetic::div_mod::lemma_mod_multiples_basic((o + 1) as int, p as int);
    }
}

proof fn lemma_roots_from(start: nat, n: nat, big: nat)
    requires
        n < pow2(big),
        start % pow2(big) == 0,
    ensures
        tiles(roots_from(start, n), start, start + n),
        roots_from(start, n).len() <= n,
    decreases n,
{
    if n > 0 {
        lemma_top_power(n);
        let k = top_power(n);
        let d = choose|d: nat| top_power(n) == pow2(d);
        if big <= d {
            vstd::arithmetic::power2::lemma_pow2_strictly_increases(big, d);
        }
        lemma_next_root(start, n, d, big);
        let rest = roots_from(start + k, (n - k) as nat);
        lemma_roots_from(start + k, (n - k) as nat, d);
        let s = roots_from(start, n);
        assert(s.len() == rest.len() + 1);
        assert forall|j: int| 0 <= j < s.len() implies is_root(#[trigger] s[j], start + n) by {
            if j > 0 {
                assert(s[j] == rest[j - 1]);
            }
        }
        assert forall|j: int| 0 <= j < s.len() - 1 implies end_of(#[trigger] s[j]) == first_of(
            s[j + 1],
        ) by {
            if j > 0 {
                assert(s[j] == rest[j - 1]);
                assert(s[j + 1] == rest[j]);
            } else {
                assert(s[1] == rest[0]);
            }
        }
        if rest.len() > 0 {
            assert(s.last() == rest.last());
        }
    }
}

/// How many ones a number has in binary.
pub open spec fn ones(n: nat) -> nat
    decreases n,
{
    if n == 0 {
        0
    } else {
        n % 2 + ones(n / 2)
    }
}

/// Taking away the largest power of two takes away one of the ones.
proof fn lemma_ones(n: nat)
    requires
        n > 0,
    ensures
        ones(n) == ones((n - top_power(n)) as nat) + 1,
    decreases n,
{
    lemma_top_power(n);
    if n > 1 {
        let h = n / 2;
        let t = top_power(h);
        lemma_top_power(h);
        lemma_ones(h);
        let r = (n - 2 * t) as nat;
        assert(r % 2 == n % 2);
        assert(r / 2 == h - t);
    } else {
        assert(ones(0) == 0);
        assert(ones(1) == 1 + ones(0));
    }
}

/// What the roots of a stretch of blocks cover.
proof fn lemma_widths(start: nat, n: nat, big: nat)
    requires
        n < pow2(big),
        start % pow2(big) == 0,
    ensures
        roots_from(start, n).len() == ones(n),
        forall|k: int|
            0 <= k < roots_from(start, n).len() ==> end_of(#[trigger] roots_from(start, n)[k])
                - first_of(roots_from(start, n)[k]) == pow2(
                depth_of(roots_from(start, n)[k]),
            ) && pow2(depth_of(roots_from(start, n)[k])) <= n,
        forall|j: int, k: int|
            0 <= j < k < roots_from(start, n).len() ==> pow2(
                depth_of(#[trigger] roots_from(start, n)[k]),
            ) < pow2(depth_of(#[trigger] roots_from(start, n)[j])),
    decreases n,
{
    if n > 0 {
        lemma_top_power(n);
        lemma_ones(n);
        let w = top_power(n);
        let d = choose|d: nat| top_power(n) == pow2(d);
        if big <= d {
            vstd::arithmetic::power2::lemma_pow2_strictly_increases(big, d);
        }
        lemma_next_root(start, n, d, big);
        let rest = roots_from(start + w, (n - w) as nat);
        lemma_widths(start + w, (n - w) as nat, d);
        let s = roots_from(start, n);
        lemma_range(s[0]);
        assert forall|k: int| 0 <= k < s.len() implies end_of(#[trigger] s[k]) - first_of(s[k])
            == pow2(depth_of(s[k])) && pow2(depth_of(s[k])) <= n by {
            lemma_range(s[k]);
            let o = offset_of(s[k]);
            let p = pow2(depth_of(s[k]));
            assert((o + 1) * p - o * p == p) by (nonlinear_arith);
            if k > 0 {
                assert(s[k] == rest[k - 1]);
            }
        }
        assert forall|j: int, k: int| 0 <= j < k < s.len() implies pow2(depth_of(#[trigger] s[k]))
            < pow2(depth_of(#[trigger] s[j])) by {
            assert(s[k] == rest[k - 1]);
            if j > 0 {
                assert(s[j] == rest[j - 1]);
            } else {
                assert(end_of(s[0]) - first_of(s[0]) == pow2(depth_of(s[0])));
            }
        }
    }
}

/// The roots of a log cover powers of two that strictly decrease, so that there is one for
/// each one of its length in binary.
pub proof fn law_root_sizes(n: nat)
    ensures
        tiles(roots_of(n), 0, n),
        roots_of(n).len() == ones(n),
        forall|k: int|
            0 <= k < roots_of(n).len() ==> end_of(#[trigger] roots_of(n)[k]) - first_of(
                roots_of(n)[k],
            ) == pow2(depth_of(roots_of(n)[k])),
        forall|j: int, k: int|
            0 <= j < k < roots_of(n).len() ==> end_of(#[trigger] roots_of(n)[k]) - first_of(
                roots_of(n)[k],
            ) < end_of(#[trigger] roots_of(n)[j]) - first_of(roots_of(n)[j]),
{
    lemma_roots(n);
    lemma_pow2_above(n);
    vstd::arithmetic::div_mod::lemma_small_mod(0, pow2(n));
    lemma_widths(0, n, n);
}

/// The roots of a log tile it: each starts where the one before it ends, and no
/// larger subtree of the log is complete.
pub proof fn lemma_roots(n: nat)
    ensures
        tiles(roots_of(n), 0, n),
        roots_of(n).len() <= n,
        n > 0 ==> roots_of(n).len() > 0,
{
    let big = n;
    lemma_pow2_above(n);
    vstd::arithmetic::div_mod::lemma_small_mod(0, pow2(big));
    lemma_roots_from(0, n, big);
}

proof fn lemma_pow2_above(n: nat)
    ensures
        n < pow2(n),
    decreases n,
{
    if n == 0 {
        lemma2_to64();
    } else {
        lemma_pow2_above((n - 1) as nat);
        lemma_pow2_unfold(n);
    }
}

/// Where the roots start and end grows from left to right.
pub proof fn lemma_roots_ordered(n: nat, a: int, b: int)
    requires
        0 <= a < b < roots_of(n).len(),
    ensures
        end_of(roots_of(n)[a]) <= first_of(roots_of(n)[b]),
        roots_of(n)[a] < roots_of(n)[b],
    decreases b - a,
{
    let s = roots_of(n);
    lemma_roots(n);
    lemma_range(s[a]);
    lemma_range(s[b]);
    if a + 1 < b {
        lemma_roots_ordered(n, a + 1, b);
        lemma_range(s[a + 1]);
        assert(end_of(s[a]) == first_of(s[a + 1]));
    } else {
        assert(end_of(s[a]) == first_of(s[a + 1]));
    }
}

/// Each block of the log lies below one of its roots.
pub proof fn lemma_root_over(n: nat, block: nat) -> (k: int)
    requires
        block < n,
    ensures
        0 <= k < roots_of(n).len(),
        first_of(roots_of(n)[k]) <= block < end_of(roots_of(n)[k]),
{
    lemma_roots(n);
    lemma_root_over_from(n, block, 0)
}

proof fn lemma_root_over_from(n: nat, block: nat, at: int) -> (k: int)
    requires
        block < n,
        0 <= at < roots_of(n).len(),
        first_of(roots_of(n)[at]) <= block,
    ensures
        0 <= k < roots_of(n).len(),
        first_of(roots_of(n)[k]) <= block < end_of(roots_of(n)[k]),
    decreases roots_of(n).len() - at,
{
    let s = roots_of(n);
    lemma_roots(n);
    if block < end_of(s[at]) {
        at
    } else if at + 1 < s.len() {
        assert(end_of(s[at]) == first_of(s[at + 1]));
        lemma_root_over_from(n, block, at + 1)
    } else {
        at
    }
}

/// A node is listed among the roots exactly when it is the top of a complete
/// subtree.
pub proof fn lemma_root_listed(n: nat, i: nat)
    ensures
        roots_of(n).contains(i) <==> is_root(i, n),
{
    lemma_roots(n);
    if is_root(i, n) {
        lemma_range(i);
        let k = lemma_root_over(n, first_of(i));
        lemma_roots_apart(i, roots_of(n)[k], n, first_of(i));
        assert(roots_of(n)[k] == i);
    }
    if roots_of(n).contains(i) {
        let k = choose|k: int| 0 <= k < roots_of(n).len() && roots_of(n)[k] == i;
        assert(is_root(roots_of(n)[k], n));
    }
}

proof fn lemma_trailing(i: u64)
    requires
        i < u64::MAX,
    ensures
        vstd::std_specs::bits::u64_trailing_zeros((i + 1) as u64) == depth_of(i as nat),
{
    let j = (i + 1) as u64;
    vstd::std_specs::bits::axiom_u64_trailing_zeros(j);
    let t = vstd::std_specs::bits::u64_trailing_zeros(j) as u64;
    let h = j >> t;
    let w = (64 - t) as u64;
    assert(j << w == 0);
    assert((h << t) == j) by (bit_vector)
        requires
            t < 64,
            w == 64 - t,
            j << w == 0,
            h == j >> t,
    ;
    assert((h & 1u64) == h % 2) by (bit_vector);
    lemma_pow2_pos(t as nat);
    vstd::bits::lemma_u64_shr_is_div(j, t);
    vstd::arithmetic::div_mod::lemma_fundamental_div_mod(j as int, pow2(t as nat) as int);
    let p = pow2(t as nat);
    assert(h * p <= j) by (nonlinear_arith)
        requires
            j == p * h + j as int % p as int,
            0 <= j as int % p as int,
    ;
    vstd::bits::lemma_u64_shl_is_mul(h, t);
    lemma_index(t as nat, (h / 2) as nat);
}

/// Depth of a node (leaves are at 0).
pub fn depth(i: u64) -> (d: u32)
    requires
        i < u64::MAX,
    ensures
        d == depth_of(i as nat),
        d <= 63,
{
    proof {
        lemma_trailing(i);
        lemma_word(i as nat);
    }
    (i + 1).trailing_zeros()
}

/// Horizontal offset of a node within its depth.
pub fn offset(i: u64) -> (o: u64)
    requires
        i < u64::MAX,
    ensures
        o == offset_of(i as nat),
{
    if i % 2 == 0 {
        i / 2
    } else {
        let d: u32 = depth(i);
        proof {
            let w = (i + 1) as u64;
            let p = pow2(d as nat);
            let o = offset_of(i as nat);
            lemma_coords(i as nat);
            lemma_pow2_pos(d as nat);
            assert(d < 64);
            vstd::bits::lemma_u64_shr_is_div(w, d as u64);
            assert((1 + 2 * o) * p == p * (1 + 2 * o)) by (nonlinear_arith);
            vstd::arithmetic::div_mod::lemma_fundamental_div_mod_converse(
                w as int,
                p as int,
                1 + 2 * o as int,
                0,
            );
            assert((w >> d) == (w >> (d as u64)));
        }
        (((i + 1) >> d) - 1) / 2
    }
}

/// Node index from a (depth, offset) pair.
pub fn index(depth: u32, offset: u64) -> (i: u64)
    requires
        index_of(depth as nat, offset as nat) < u64::MAX,
    ensures
        i == index_of(depth as nat, offset as nat),
{
    proof {
        let d = depth as nat;
        let o = offset as nat;
        lemma_index(d, o);
        lemma_word(index_of(d, o));
        lemma_pow2_pos(d);
        lemma2_to64();
        let p = pow2(d);
        assert(1 + 2 * o <= (1 + 2 * o) * p) by (nonlinear_arith)
            requires
                p >= 1,
        ;
        assert(p <= (1 + 2 * o) * p) by (nonlinear_arith)
            requires
                p >= 1,
        ;
        vstd::bits::lemma_u64_shl_is_mul(1, depth as u64);
        assert((1u64 << depth) == (1u64 << (depth as u64)));
    }
    (1 + 2 * offset) * (1u64 << depth) - 1
}

/// Parent of node `i`.
pub fn parent(i: u64) -> (p: u64)
    requires
        i < u64::MAX,
        i != 0x7fff_ffff_ffff_ffff,
    ensures
        p == parent_of(i as nat),
        p < u64::MAX,
{
    proof {
        lemma_word(i as nat);
        let o = offset_of(i as nat) as u64;
        assert(o >> 1u64 == o / 2) by (bit_vector);
    }
    let d: u32 = depth(i);
    index(d + 1, offset(i) / 2)
}

/// Sibling of node `i`.
pub fn sibling(i: u64) -> (s: u64)
    requires
        i < u64::MAX,
        i != 0x7fff_ffff_ffff_ffff,
    ensures
        s == sibling_of(i as nat),
        s < u64::MAX,
{
    proof {
        lemma_word(i as nat);
    }
    let d: u32 = depth(i);
    let o: u64 = offset(i);
    proof {
        assert((o ^ 1u64) == if o % 2 == 0 {
            (o + 1) as u64
        } else {
            (o - 1) as u64
        }) by (bit_vector);
    }
    index(d, o ^ 1)
}

/// The (left, right) children of a parent node, or `None` for a leaf.
pub fn children(i: u64) -> (c: Option<(u64, u64)>)
    requires
        i < u64::MAX,
    ensures
        match c {
            None => i % 2 == 0,
            Some((l, r)) => i % 2 == 1 && l == left_of(i as nat) && r == right_of(i as nat),
        },
{
    if i % 2 == 0 {
        return None;
    }
    let d: u32 = depth(i);
    let o: u64 = offset(i);
    proof {
        let n = i as nat;
        lemma_children(n);
        lemma_word(n);
        lemma_word(left_of(n));
        lemma_word(right_of(n));
        lemma_range(n);
        lemma_range(left_of(n));
        lemma_range(right_of(n));
        lemma_coords(n);
        assert(2 * o + 1 <= (1 + 2 * o) * pow2(d as nat)) by (nonlinear_arith)
            requires
                pow2(d as nat) >= 1,
        ;
    }
    let off: u64 = o * 2;
    Some((index(d - 1, off), index(d - 1, off + 1)))
}

/// The half-open block range `[first, end)` that node `i` covers: a node at depth
/// `d` covers `2^d` blocks.
pub fn block_range(i: u64) -> (r: (u64, u64))
    requires
        i < u64::MAX,
    ensures
        r.0 == first_of(i as nat),
        r.1 == end_of(i as nat),
{
    let d: u32 = depth(i);
    proof {
        lemma_range(i as nat);
        lemma_word(i as nat);
        lemma2_to64();
        if d < 63 {
            vstd::arithmetic::power2::lemma_pow2_strictly_increases(d as nat, 63);
        }
        vstd::bits::lemma_u64_shl_is_mul(1, d as u64);
        assert((1u64 << d) == (1u64 << (d as u64)));
    }
    let count: u64 = 1u64 << d;
    let first: u64 = offset(i) * count;
    (first, first + count)
}

/// Root indices of a tree of `idx / 2` blocks: one per complete power-of-two
/// subtree, left to right.
pub fn full_roots(idx: u64) -> (result: Vec<u64>)
    requires
        idx % 2 == 0,
    ensures
        result@.map_values(|i: u64| i as nat) == roots_of((idx / 2) as nat),
        forall|k: int| 0 <= k < result@.len() ==> #[trigger] result@[k] < u64::MAX,
{
    let ghost n = (idx / 2) as nat;
    let mut result: Vec<u64> = Vec::new();
    let mut index: u64 = idx / 2;
    let mut offset: u64 = 0;
    proof {
        lemma_roots(n);
    }
    assert(result@.map_values(|i: u64| i as nat) + roots_from(0, n) =~= roots_of(n));
    while index > 0
        invariant
            offset + index == n,
            n == idx / 2,
            result@.map_values(|i: u64| i as nat) + roots_from(offset as nat, index as nat)
                == roots_of(n),
            forall|k: int| 0 <= k < result@.len() ==> #[trigger] result@[k] < u64::MAX,
        decreases index,
    {
        let mut factor: u64 = 1;
        let ghost whole = index as nat;
        proof {
            lemma_top_power(whole);
            lemma2_to64();
            assert(pow2(0) == 1);
        }
        let ghost mut d: nat = 0;
        while factor <= index / 2
            invariant
                factor == pow2(d),
                0 < factor <= index,
                index == whole,
            decreases index - factor,
        {
            factor = factor * 2;
            proof {
                lemma_pow2_unfold(d + 1);
                d = d + 1;
            }
        }
        proof {
            lemma_top_power_is(whole, d);
        }
        let ghost before = result@;
        result.push(offset * 2 + factor - 1);
        let ghost at = offset as nat;
        offset = offset + factor;
        index = index - factor;
        proof {
            let f = |i: u64| i as nat;
            let tail = roots_from(offset as nat, index as nat);
            assert(result@.map_values(f) =~= before.map_values(f).push(
                (2 * at + factor - 1) as nat,
            ));
            assert(result@.map_values(f) + tail =~= before.map_values(f) + roots_from(at, whole));
        }
    }
    assert(result@.map_values(|i: u64| i as nat) =~= roots_of(n));
    result
}

proof fn lemma_top_power_is(n: nat, d: nat)
    requires
        pow2(d) <= n < 2 * pow2(d),
    ensures
        top_power(n) == pow2(d),
    decreases n,
{
    lemma_pow2_pos(d);
    if n <= 1 {
        assert(n == 1);
        if d > 0 {
            lemma_pow2_unfold(d);
            lemma_pow2_pos((d - 1) as nat);
        }
        lemma2_to64();
    } else {
        if d == 0 {
            lemma2_to64();
        }
        lemma_pow2_unfold(d);
        lemma_top_power_is(n / 2, (d - 1) as nat);
    }
}

} // verus!
