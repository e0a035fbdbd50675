//! Which nodes a range proof holds.
use vstd::arithmetic::power2::{lemma_pow2_pos, lemma_pow2_unfold, pow2};
use vstd::prelude::*;
use super::laws::holds;
use super::range_laws::lemma_boundary_stored;
use super::tree::{boundary, Tree};
use super::flat;

verus! {

/// The place of the end of a range at one level, once the last node there has been left
/// alone as a root.
spec fn trimmed(hi: nat, count: nat) -> nat {
    if hi <= count - count % 2 {
        hi
    } else {
        (count - count % 2) as nat
    }
}

/// From one level to the next.
proof fn lemma_boundary_step(d: nat, lo: nat, hi: nat, count: nat)
    requires
        lo < trimmed(hi, count),
    ensures
        ({
            let top = trimmed(hi, count);
            let left = if lo % 2 == 1 {
                seq![flat::index_of(d, (lo - 1) as nat)]
            } else {
                Seq::empty()
            };
            let right = if top % 2 == 1 {
                seq![flat::index_of(d, top)]
            } else {
                Seq::empty()
            };
            boundary(d, lo, hi, count) == left + right + boundary(
                d + 1,
                lo / 2,
                (top + 1) / 2,
                count / 2,
            )
        }),
{
}

proof fn lemma_boundary_outside(
    d: nat,
    lo: nat,
    hi: nat,
    count: nat,
    start: nat,
    end: nat,
    k: int,
)
    requires
        lo * pow2(d) <= start,
        end <= hi * pow2(d) || hi == count,
        hi <= count,
        0 <= k < boundary(d, lo, hi, count).len(),
    ensures
        flat::end_of(boundary(d, lo, hi, count)[k]) <= start || end <= flat::first_of(
            boundary(d, lo, hi, count)[k],
        ),
    decreases count,
{
    let top = trimmed(hi, count);
    if lo < top {
        let wanted = boundary(d, lo, hi, count);
        let rest = boundary(d + 1, lo / 2, (top + 1) / 2, count / 2);
        let p = pow2(d);
        lemma_boundary_step(d, lo, hi, count);
        lemma_pow2_unfold(d + 1);
        lemma_pow2_pos(d);
        let skip = wanted.len() - rest.len();
        if k < skip {
            if lo % 2 == 1 && k == 0 {
                flat::lemma_index(d, (lo - 1) as nat);
            } else {
                flat::lemma_index(d, top);
                assert(top == hi);
            }
        } else {
            assert(wanted[k] == rest[k - skip]);
            assert((lo / 2) * (2 * p) <= lo * p) by (nonlinear_arith)
                requires
                    p > 0,
            ;
            if end <= hi * p && top == hi {
                assert(hi * p <= ((top + 1) / 2) * (2 * p)) by (nonlinear_arith)
                    requires
                        top == hi,
                        p > 0,
                ;
            }
            lemma_boundary_outside(
                d + 1,
                lo / 2,
                (top + 1) / 2,
                count / 2,
                start,
                end,
                k - skip,
            );
        }
    }
}

proof fn lemma_boundary_whole(d: nat, count: nat)
    ensures
        boundary(d, 0, count, count).len() == 0,
    decreases count,
{
    let top = trimmed(count, count);
    if 0 < top {
        lemma_boundary_step(d, 0, count, count);
        lemma_boundary_whole(d + 1, count / 2);
    }
}

proof fn lemma_boundary_path(t: Tree, d: nat, o: nat, count: nat)
    requires
        count == t.length as nat / pow2(d),
        o < count,
        t.has_all(boundary(d, o, o + 1, count)),
    ensures
        t.path(flat::index_of(d, o)) == Some(t.pick(boundary(d, o, o + 1, count))),
    decreases count,
{
    let n = t.length as nat;
    let p = pow2(d);
    let i = flat::index_of(d, o);
    let wanted = boundary(d, o, o + 1, count);
    let top = trimmed(o + 1, count);
    flat::lemma_index(d, o);
    flat::lemma_family(i);
    lemma_pow2_unfold(d + 1);
    lemma_pow2_pos(d);
    vstd::arithmetic::div_mod::lemma_fundamental_div_mod(n as int, p as int);
    vstd::arithmetic::div_mod::lemma_mod_bound(n as int, p as int);
    assert((o + 1) * p <= n) by (nonlinear_arith)
        requires
            n == p * count + n as int % p as int,
            0 <= n as int % p as int,
            o + 1 <= count,
            p > 0,
    ;
    assert(flat::complete(i, n));
    let h = o / 2;
    if o < top {
        let rest = boundary(d + 1, h, h + 1, count / 2);
        lemma_boundary_step(d, o, o + 1, count);
        vstd::arithmetic::div_mod::lemma_div_denominator(n as int, p as int, 2);
        assert(top == o + 1);
        assert((top + 1) / 2 == h + 1);
        assert(wanted =~= seq![flat::sibling_of(i)] + rest);
        assert((h + 1) * (2 * p) <= n) by (nonlinear_arith)
            requires
                n == p * count + n as int % p as int,
                0 <= n as int % p as int,
                2 * (h + 1) <= count,
                p > 0,
        ;
        assert(flat::complete(flat::parent_of(i), n));
        assert forall|k: int| 0 <= k < rest.len() implies t.nodes.contains_key(
            #[trigger] rest[k] as u64,
        ) by {
            assert(wanted[k + 1] == rest[k]);
        }
        lemma_boundary_path(t, d + 1, h, count / 2);
        assert(wanted[0] == flat::sibling_of(i));
        assert(t.pick(wanted) =~= seq![t.nodes[flat::sibling_of(i) as u64]] + t.pick(rest));
    } else {
        assert(count == 2 * h + 1);
        assert(n < (h + 1) * (2 * p)) by (nonlinear_arith)
            requires
                n == p * count + n as int % p as int,
                (n as int % p as int) < p,
                count == 2 * h + 1,
                p > 0,
        ;
        assert(flat::is_root(i, n));
        assert(wanted.len() == 0);
        assert(t.pick(wanted) =~= Seq::empty());
    }
}

/// The nodes of a range proof lie outside the range: no block of the range is below one of
/// them. There are none for the whole log, and for one block they are its siblings, those
/// of its inclusion proof.
pub proof fn law_range_nodes(t: Tree, blocks: Seq<Seq<u8>>, start: u64, end: u64)
    requires
        holds(t, blocks),
        start < end <= blocks.len(),
    ensures
        ({
            let nodes = boundary(0, start as nat, end as nat, blocks.len());
            &&& t.has_all(nodes)
            &&& forall|k: int|
                0 <= k < nodes.len() ==> flat::end_of(#[trigger] nodes[k]) <= start || end
                    <= flat::first_of(nodes[k])
            &&& start == 0 && end == blocks.len() ==> nodes.len() == 0
            &&& end == start + 1 ==> t.path(2 * start as nat) == Some(t.pick(nodes))
        }),
{
    let n = blocks.len();
    let nodes = boundary(0, start as nat, end as nat, n);
    vstd::arithmetic::power2::lemma2_to64();
    assert(pow2(0) == 1);
    assert(n / pow2(0) == n);
    lemma_boundary_stored(t, blocks, 0, start as nat, end as nat, n);
    assert forall|k: int| 0 <= k < nodes.len() implies flat::end_of(#[trigger] nodes[k]) <= start
        || end <= flat::first_of(nodes[k]) by {
        lemma_boundary_outside(0, start as nat, end as nat, n, start as nat, end as nat, k);
    }
    if start == 0 && end == n {
        lemma_boundary_whole(0, n);
    }
    if end == start + 1 {
        lemma_boundary_path(t, 0, start as nat, n);
    }
}

} // verus!
