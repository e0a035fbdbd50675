//! Little-endian integers and fixed-width fields inside byte buffers.
use vstd::prelude::*;

verus! {

/// The `n` low-order bytes of `v`, least significant first.
pub open spec fn le_bytes(v: nat, n: nat) -> Seq<u8>
    decreases n,
{
    if n == 0 {
        Seq::empty()
    } else {
        seq![(v % 256) as u8] + le_bytes(v / 256, (n - 1) as nat)
    }
}

/// The number that `s` spells, least significant byte first.
pub open spec fn le_value(s: Seq<u8>) -> nat
    decreases s.len(),
{
    if s.len() == 0 {
        0
    } else {
        s[0] as nat + 256 * le_value(s.skip(1))
    }
}

/// `256` to the power `n`.
pub open spec fn pow256(n: nat) -> nat
    decreases n,
{
    if n == 0 {
        1
    } else {
        256 * pow256((n - 1) as nat)
    }
}

/// Reading back what was written gives the number, as long as it fits in `n` bytes.
pub proof fn lemma_le_round_trip(v: nat, n: nat)
    requires
        v < pow256(n),
    ensures
        le_bytes(v, n).len() == n,
        le_value(le_bytes(v, n)) == v,
    decreases n,
{
    if n > 0 {
        assert(pow256(n) == 256 * pow256((n - 1) as nat));
        assert(v / 256 < pow256((n - 1) as nat));
        lemma_le_round_trip(v / 256, (n - 1) as nat);
        let s = le_bytes(v, n);
        assert(s.skip(1) =~= le_bytes(v / 256, (n - 1) as nat));
    }
}

pub proof fn lemma_le_value_bound(s: Seq<u8>)
    ensures
        le_value(s) < pow256(s.len()),
    decreases s.len(),
{
    if s.len() > 0 {
        lemma_le_value_bound(s.skip(1));
    }
}

/// Writing what was read gives the same bytes.
pub proof fn lemma_le_value_bytes(s: Seq<u8>)
    ensures
        le_bytes(le_value(s), s.len()) == s,
    decreases s.len(),
{
    if s.len() > 0 {
        lemma_le_value_bytes(s.skip(1));
        let r = le_value(s.skip(1));
        assert((s[0] as nat + 256 * r) / 256 == r);
        assert((s[0] as nat + 256 * r) % 256 == s[0] as nat);
        assert(seq![s[0]] + s.skip(1) =~= s);
    }
}

pub proof fn lemma_pow256_8()
    ensures
        pow256(8) == 0x1_0000_0000_0000_0000,
        pow256(4) == 0x1_0000_0000,
{
    reveal_with_fuel(pow256, 9);
}

/// The eight bytes of a `u64`.
pub open spec fn le64(v: u64) -> Seq<u8> {
    le_bytes(v as nat, 8)
}

/// The four bytes of a `u32`.
pub open spec fn le32(v: u32) -> Seq<u8> {
    le_bytes(v as nat, 4)
}

pub proof fn lemma_le64(v: u64)
    ensures
        le64(v).len() == 8,
        le_value(le64(v)) == v,
{
    lemma_pow256_8();
    lemma_le_round_trip(v as nat, 8);
}

pub proof fn lemma_le32(v: u32)
    ensures
        le32(v).len() == 4,
        le_value(le32(v)) == v,
{
    lemma_pow256_8();
    lemma_le_round_trip(v as nat, 4);
}

/// Byte `k` of a number counts its multiples of `256` to the power `k`.
proof fn lemma_le_byte(v: nat, n: nat, k: nat)
    ensures
        le_bytes(v, n).len() == n,
        pow256(k) > 0,
        k < n ==> le_bytes(v, n)[k as int] == (v / pow256(k)) % 256,
    decreases n + k,
{
    if k > 0 {
        lemma_le_byte(v, n, (k - 1) as nat);
    }
    if n > 0 {
        if k > 0 {
            lemma_le_byte(v / 256, (n - 1) as nat, (k - 1) as nat);
            vstd::arithmetic::div_mod::lemma_div_denominator(
                v as int,
                256,
                pow256((k - 1) as nat) as int,
            );
        } else {
            lemma_le_byte(v / 256, (n - 1) as nat, 0);
        }
    }
}

proof fn lemma_powers()
    ensures
        pow256(0) == 1,
        pow256(1) == 0x100,
        pow256(2) == 0x1_0000,
        pow256(3) == 0x100_0000,
        pow256(4) == 0x1_0000_0000,
        pow256(5) == 0x100_0000_0000,
        pow256(6) == 0x1_0000_0000_0000,
        pow256(7) == 0x100_0000_0000_0000,
{
    assert(pow256(1) == 256 * pow256(0));
    assert(pow256(2) == 256 * pow256(1));
    assert(pow256(3) == 256 * pow256(2));
    assert(pow256(4) == 256 * pow256(3));
    assert(pow256(5) == 256 * pow256(4));
    assert(pow256(6) == 256 * pow256(5));
    assert(pow256(7) == 256 * pow256(6));
}

/// A number is written least significant byte first, in as many bytes as its type has.
pub proof fn law_little_endian(v: u64, w: u32)
    ensures
        le64(v).len() == 8,
        le64(v)[0] == v % 256,
        le64(v)[1] == v / 0x100 % 256,
        le64(v)[2] == v / 0x1_0000 % 256,
        le64(v)[3] == v / 0x100_0000 % 256,
        le64(v)[4] == v / 0x1_0000_0000 % 256,
        le64(v)[5] == v / 0x100_0000_0000 % 256,
        le64(v)[6] == v / 0x1_0000_0000_0000 % 256,
        le64(v)[7] == v / 0x100_0000_0000_0000 % 256,
        le32(w).len() == 4,
        le32(w)[0] == w % 256,
        le32(w)[1] == w / 0x100 % 256,
        le32(w)[2] == w / 0x1_0000 % 256,
        le32(w)[3] == w / 0x100_0000 % 256,
{
    lemma_powers();
    lemma_le_byte(v as nat, 8, 0);
    lemma_le_byte(v as nat, 8, 1);
    lemma_le_byte(v as nat, 8, 2);
    lemma_le_byte(v as nat, 8, 3);
    lemma_le_byte(v as nat, 8, 4);
    lemma_le_byte(v as nat, 8, 5);
    lemma_le_byte(v as nat, 8, 6);
    lemma_le_byte(v as nat, 8, 7);
    lemma_le_byte(w as nat, 4, 0);
    lemma_le_byte(w as nat, 4, 1);
    lemma_le_byte(w as nat, 4, 2);
    lemma_le_byte(w as nat, 4, 3);
}

/// Two numbers with the same eight bytes are the same number.
pub proof fn lemma_le64_injective(a: u64, b: u64)
    requires
        le64(a) == le64(b),
    ensures
        a == b,
{
    lemma_le64(a);
    lemma_le64(b);
}

/// Append the eight little-endian bytes of `v`.
pub fn put_u64(out: &mut Vec<u8>, v: u64)
    ensures
        final(out)@ == old(out)@ + le64(v),
{
    let mut rest: u64 = v;
    let mut i: usize = 0;
    while i < 8
        invariant
            i <= 8,
            out@ + le_bytes(rest as nat, (8 - i) as nat) == old(out)@ + le64(v),
        decreases 8 - i,
    {
        let ghost before = out@;
        let ghost n = (8 - i) as nat;
        let ghost r = rest as nat;
        out.push((rest % 256) as u8);
        rest = rest / 256;
        i = i + 1;
        proof {
            assert(le_bytes(r, n) == seq![(r % 256) as u8] + le_bytes(r / 256, (n - 1) as nat));
            assert(out@ + le_bytes(rest as nat, (n - 1) as nat) =~= before + le_bytes(r, n));
        }
    }
    assert(out@ =~= old(out)@ + le64(v)) by {
        assert(le_bytes(rest as nat, 0) =~= Seq::<u8>::empty());
    }
}

/// Append the four little-endian bytes of `v`.
pub fn put_u32(out: &mut Vec<u8>, v: u32)
    ensures
        final(out)@ == old(out)@ + le32(v),
{
    let mut rest: u32 = v;
    let mut i: usize = 0;
    while i < 4
        invariant
            i <= 4,
            out@ + le_bytes(rest as nat, (4 - i) as nat) == old(out)@ + le32(v),
        decreases 4 - i,
    {
        let ghost before = out@;
        let ghost n = (4 - i) as nat;
        let ghost r = rest as nat;
        out.push((rest % 256) as u8);
        rest = rest / 256;
        i = i + 1;
        proof {
            assert(le_bytes(r, n) == seq![(r % 256) as u8] + le_bytes(r / 256, (n - 1) as nat));
            assert(out@ + le_bytes(rest as nat, (n - 1) as nat) =~= before + le_bytes(r, n));
        }
    }
    assert(out@ =~= old(out)@ + le32(v)) by {
        assert(le_bytes(rest as nat, 0) =~= Seq::<u8>::empty());
    }
}

/// The `u64` in the eight bytes of `s` that start at `at`.
pub fn get_u64(s: &[u8], at: usize) -> (v: u64)
    requires
        at + 8 <= s.len(),
    ensures
        v == le_value(s@.subrange(at as int, at + 8)),
        le64(v) == s@.subrange(at as int, at + 8),
{
    let ghost w = s@.subrange(at as int, at + 8);
    let mut v: u64 = 0;
    let mut i: usize = 8;
    proof {
        lemma_pow256_8();
        lemma_le_value_bound(w);
        lemma_le_value_bytes(w);
        assert(w.skip(8) =~= Seq::<u8>::empty());
    }
    while i > 0
        invariant
            i <= 8,
            at + 8 <= s.len(),
            w == s@.subrange(at as int, at + 8),
            v == le_value(w.skip(i as int)),
            pow256(8) == 0x1_0000_0000_0000_0000,
        decreases i,
    {
        let ghost prev = i as int;
        i = i - 1;
        proof {
            assert(w.skip(i as int).skip(1) =~= w.skip(prev));
            assert(w.skip(i as int)[0] == s@[at + i]);
            lemma_le_value_bound(w.skip(i as int));
            lemma_pow256_mono((8 - i) as nat, 8);
            assert(256 * v + s@[at + i] == le_value(w.skip(i as int)));
        }
        v = v * 256 + s[at + i] as u64;
    }
    assert(w.skip(0) =~= w);
    v
}

/// The `u32` in the four bytes of `s` that start at `at`.
pub fn get_u32(s: &[u8], at: usize) -> (v: u32)
    requires
        at + 4 <= s.len(),
    ensures
        v == le_value(s@.subrange(at as int, at + 4)),
        le32(v) == s@.subrange(at as int, at + 4),
{
    let ghost w = s@.subrange(at as int, at + 4);
    let mut v: u32 = 0;
    let mut i: usize = 4;
    proof {
        lemma_pow256_8();
        lemma_le_value_bound(w);
        lemma_le_value_bytes(w);
        assert(w.skip(4) =~= Seq::<u8>::empty());
    }
    while i > 0
        invariant
            i <= 4,
            at + 4 <= s.len(),
            w == s@.subrange(at as int, at + 4),
            v == le_value(w.skip(i as int)),
            pow256(4) == 0x1_0000_0000,
        decreases i,
    {
        let ghost prev = i as int;
        i = i - 1;
        proof {
            assert(w.skip(i as int).skip(1) =~= w.skip(prev));
            assert(w.skip(i as int)[0] == s@[at + i]);
            lemma_le_value_bound(w.skip(i as int));
            lemma_pow256_mono((4 - i) as nat, 4);
            assert(256 * v + s@[at + i] == le_value(w.skip(i as int)));
        }
        v = v * 256 + s[at + i] as u32;
    }
    assert(w.skip(0) =~= w);
    v
}

pub proof fn lemma_pow256_mono(a: nat, b: nat)
    requires
        a <= b,
    ensures
        0 < pow256(a) <= pow256(b),
    decreases b,
{
    if a < b {
        lemma_pow256_mono(a, (b - 1) as nat);
    } else if a > 0 {
        lemma_pow256_mono((a - 1) as nat, (b - 1) as nat);
    }
}

/// Append a copy of `data`.
pub fn put_all(out: &mut Vec<u8>, data: &[u8])
    ensures
        final(out)@ == old(out)@ + data@,
{
    out.extend_from_slice(data);
    assert(out@ =~= old(out)@ + data@);
}

/// A copy of `data`.
pub fn copy_of(data: &[u8]) -> (v: Vec<u8>)
    ensures
        v@ == data@,
{
    let mut v: Vec<u8> = Vec::new();
    put_all(&mut v, data);
    assert(v@ =~= data@);
    v
}

/// A copy of `data[from..to]`.
pub fn copy_range(data: &[u8], from: usize, to: usize) -> (v: Vec<u8>)
    requires
        from <= to <= data@.len(),
    ensures
        v@ == data@.subrange(from as int, to as int),
{
    copy_of(vstd::slice::slice_subrange(data, from, to))
}

/// 32 bytes as an array.
pub open spec fn array32(s: Seq<u8>) -> [u8; 32] {
    choose|a: [u8; 32]| #[trigger] a@ == s
}

/// An array is the one that its bytes make.
pub proof fn lemma_array32(a: [u8; 32])
    ensures
        array32(a@) == a,
{
    let b = array32(a@);
    assert(b@ == a@);
    assert(b =~= a);
}

/// The 32 bytes of `s` that start at `at`.
pub fn get_32(s: &[u8], at: usize) -> (a: [u8; 32])
    requires
        at + 32 <= s.len(),
    ensures
        a@ == s@.subrange(at as int, at + 32),
        a == array32(s@.subrange(at as int, at + 32)),
{
    let mut a: [u8; 32] = [0u8; 32];
    let mut i: usize = 0;
    while i < 32
        invariant
            i <= 32,
            at + 32 <= s.len(),
            forall|j: int| 0 <= j < i ==> a@[j] == s@[at + j],
        decreases 32 - i,
    {
        a[i] = s[at + i];
        i = i + 1;
    }
    assert(a@ =~= s@.subrange(at as int, at + 32));
    proof {
        lemma_array32(a);
    }
    a
}

/// The 64 bytes of `s` that start at `at`.
pub fn get_64(s: &[u8], at: usize) -> (a: [u8; 64])
    requires
        at + 64 <= s.len(),
    ensures
        a@ == s@.subrange(at as int, at + 64),
{
    let mut a: [u8; 64] = [0u8; 64];
    let mut i: usize = 0;
    while i < 64
        invariant
            i <= 64,
            at + 64 <= s.len(),
            forall|j: int| 0 <= j < i ==> a@[j] == s@[at + j],
        decreases 64 - i,
    {
        a[i] = s[at + i];
        i = i + 1;
    }
    assert(a@ =~= s@.subrange(at as int, at + 64));
    a
}

/// Whether two byte strings are equal.
pub fn same_bytes(a: &[u8], b: &[u8]) -> (r: bool)
    ensures
        r == (a@ == b@),
{
    if a.len() != b.len() {
        return false;
    }
    let mut i: usize = 0;
    while i < a.len()
        invariant
            i <= a@.len(),
            a@.len() == b@.len(),
            forall|j: int| 0 <= j < i ==> a@[j] == b@[j],
        decreases a@.len() - i,
    {
        if a[i] != b[i] {
            return false;
        }
        i = i + 1;
    }
    assert(a@ =~= b@);
    true
}

/// Whether two 32-byte values are equal.
pub fn same_32(a: &[u8; 32], b: &[u8; 32]) -> (r: bool)
    ensures
        r == (a@ == b@),
        r == (*a == *b),
{
    let mut i: usize = 0;
    while i < 32
        invariant
            i <= 32,
            forall|j: int| 0 <= j < i ==> a@[j] == b@[j],
        decreases 32 - i,
    {
        if a[i] != b[i] {
            return false;
        }
        i = i + 1;
    }
    assert(a@ =~= b@);
    assert(*a =~= *b);
    true
}

} // verus!
