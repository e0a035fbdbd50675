//! LEB128 unsigned varints.
use vstd::prelude::*;
use super::Error;

verus! {

/// Seven bits a byte, least significant first; every byte but the last has its top
/// bit set.
pub open spec fn encoding(v: nat) -> Seq<u8>
    decreases v,
{
    if v < 128 {
        seq![v as u8]
    } else {
        seq![(v % 128 + 128) as u8] + encoding(v / 128)
    }
}

/// How many bytes at the start of `s` have their top bit set.
pub open spec fn continued(s: Seq<u8>) -> nat
    decreases s.len(),
{
    if s.len() == 0 || s[0] < 128 {
        0
    } else {
        1 + continued(s.skip(1))
    }
}

/// The number that the low seven bits of the bytes of `s` spell.
pub open spec fn value(s: Seq<u8>) -> nat
    decreases s.len(),
{
    if s.len() == 0 {
        0
    } else {
        (s[0] % 128) as nat + 128 * value(s.skip(1))
    }
}

/// What reading a varint off the front of `s` gives: the number, reduced to 64
/// bits, and how many bytes it took; or why there is none.
pub open spec fn parse(s: Seq<u8>) -> Result<(u64, nat), Error> {
    let k = continued(s);
    if k >= 10 {
        Err(Error::BadVarint)
    } else if k == s.len() {
        Err(Error::Eof)
    } else {
        Ok(((value(s.take(k as int + 1)) % 0x1_0000_0000_0000_0000) as u64, k + 1))
    }
}

/// A successful read takes at least one byte and no more than there are.
pub proof fn lemma_parse_used(s: Seq<u8>)
    ensures
        parse(s) matches Ok(p) ==> 0 < p.1 <= s.len(),
{
    lemma_continued(s);
}

proof fn lemma_continued(s: Seq<u8>)
    ensures
        continued(s) <= s.len(),
        forall|i: int| 0 <= i < continued(s) ==> s[i] >= 128,
        continued(s) < s.len() ==> s[continued(s) as int] < 128,
    decreases s.len(),
{
    if s.len() > 0 && s[0] >= 128 {
        let t = s.skip(1);
        lemma_continued(t);
        assert forall|i: int| 0 <= i < continued(s) implies s[i] >= 128 by {
            if i > 0 {
                assert(t[i - 1] == s[i]);
            }
        }
    }
}

pub proof fn lemma_continued_is(s: Seq<u8>, k: nat)
    requires
        k <= s.len(),
        forall|i: int| 0 <= i < k ==> s[i] >= 128,
        k < s.len() ==> s[k as int] < 128,
    ensures
        continued(s) == k,
    decreases s.len(),
{
    if k > 0 {
        let t = s.skip(1);
        assert forall|i: int| 0 <= i < k - 1 implies t[i] >= 128 by {
            assert(t[i] == s[i + 1]);
        }
        lemma_continued_is(t, (k - 1) as nat);
    }
}

/// What follows a varint does not matter to reading it.
pub proof fn lemma_parse_more(s: Seq<u8>, more: Seq<u8>)
    ensures
        parse(s) matches Ok(p) ==> parse(s + more) == Ok::<(u64, nat), Error>(p),
{
    let k = continued(s);
    lemma_continued(s);
    if k < s.len() {
        let t = s + more;
        assert forall|i: int| 0 <= i < k implies t[i] >= 128 by {
            assert(t[i] == s[i]);
        }
        assert(t[k as int] == s[k as int]);
        lemma_continued_is(t, k);
        assert(t.take(k as int + 1) =~= s.take(k as int + 1));
    }
}

proof fn lemma_continued_at_least(s: Seq<u8>, k: nat)
    requires
        k <= s.len(),
        forall|i: int| 0 <= i < k ==> s[i] >= 128,
    ensures
        continued(s) >= k,
    decreases k,
{
    if k > 0 {
        let t = s.skip(1);
        assert forall|i: int| 0 <= i < k - 1 implies t[i] >= 128 by {
            assert(t[i] == s[i + 1]);
        }
        lemma_continued_at_least(t, (k - 1) as nat);
    }
}

/// `128` to the power `n`.
spec fn pow128(n: nat) -> nat
    decreases n,
{
    if n == 0 {
        1
    } else {
        128 * pow128((n - 1) as nat)
    }
}

proof fn lemma_value_push(s: Seq<u8>, b: u8)
    ensures
        value(s.push(b)) == value(s) + (b % 128) as nat * pow128(s.len()),
        value(s) < pow128(s.len()),
    decreases s.len(),
{
    if s.len() == 0 {
        reveal_with_fuel(value, 2);
        assert(s.push(b).skip(1) =~= Seq::<u8>::empty());
        assert(value(s.push(b)) == (b % 128) as nat);
    } else {
        let t = s.skip(1);
        assert(s.push(b).skip(1) =~= t.push(b));
        lemma_value_push(t, b);
        let x = (b % 128) as nat;
        let p = pow128(t.len());
        assert(pow128(s.len()) == 128 * p);
        assert(128 * (value(t) + x * p) == 128 * value(t) + x * (128 * p)) by (nonlinear_arith);
    }
}

/// Append `v` as a varint.
pub fn write(out: &mut Vec<u8>, v: u64)
    ensures
        final(out)@ == old(out)@ + encoding(v as nat),
{
    let mut rest: u64 = v;
    while rest >= 128
        invariant
            out@ + encoding(rest as nat) == old(out)@ + encoding(v as nat),
        decreases rest,
    {
        let ghost before = out@;
        let ghost r = rest as nat;
        let byte: u64 = rest % 128 + 128;
        out.push(byte as u8);
        rest = rest / 128;
        assert(out@ + encoding(rest as nat) =~= before + encoding(r));
    }
    let ghost before = out@;
    out.push(rest as u8);
    assert(out@ =~= before + encoding(rest as nat));
}

proof fn lemma_shift_in(result: u64, low: u64, shift: u64)
    requires
        shift < 64,
        low < 128,
        result < (1u64 << shift),
    ensures
        (result | (low << shift)) == result + (low << shift),
{
    assert((result | (low << shift)) == result + (low << shift)) by (bit_vector)
        requires
            shift < 64,
            low < 128,
            result < (1u64 << shift),
    ;
}

/// The weight of the seven bits that group `i` holds.
proof fn lemma_weight(i: nat)
    requires
        i <= 9,
    ensures
        pow128(i) == (1u64 << ((7 * i) as u64)),
        i < 9 ==> 128 * pow128(i) <= 0x8000_0000_0000_0000,
        pow128(9) == 0x8000_0000_0000_0000,
{
    reveal_with_fuel(pow128, 10);
    assert((1u64 << 0u64) == 1 && (1u64 << 7u64) == 128 && (1u64 << 14u64) == 0x4000 && (1u64
        << 21u64) == 0x20_0000 && (1u64 << 28u64) == 0x1000_0000 && (1u64 << 35u64)
        == 0x8_0000_0000 && (1u64 << 42u64) == 0x400_0000_0000 && (1u64 << 49u64)
        == 0x2_0000_0000_0000 && (1u64 << 56u64) == 0x100_0000_0000_0000 && (1u64 << 63u64)
        == 0x8000_0000_0000_0000) by (bit_vector);
}

proof fn lemma_shifted(low: u64, i: nat)
    requires
        i <= 9,
        low < 128,
    ensures
        i < 9 ==> (low << ((7 * i) as u64)) == low * pow128(i),
        i == 9 ==> (low << 63u64) == (low % 2) * 0x8000_0000_0000_0000,
{
    lemma_weight(i);
    if i < 9 {
        vstd::arithmetic::power2::lemma2_to64();
        let s = (7 * i) as u64;
        let w = 1u64 << s;
        assert((low << s) == low * w) by (bit_vector)
            requires
                s <= 56,
                low < 128,
                w == 1u64 << s,
        ;
    } else {
        assert((low << 63u64) == (low % 2) * 0x8000_0000_0000_0000) by (bit_vector);
    }
}

/// Read a varint, advancing `bytes` past it. A group that starts at bit 63 keeps
/// its lowest bit only.
pub fn read(bytes: &mut &[u8]) -> (r: Result<u64, Error>)
    ensures
        match parse(old(bytes)@) {
            Ok((v, used)) => r == Ok::<u64, Error>(v) && final(bytes)@ == old(bytes)@.skip(used as int),
            Err(e) => r == Err::<u64, Error>(e),
        },
{
    let ghost s = bytes@;
    let mut result: u64 = 0;
    let mut shift: u64 = 0;
    let ghost mut i: nat = 0;
    proof {
        assert(s.skip(0) =~= s);
        assert(value(s.take(0)) == 0);
    }
    loop
        invariant
            i <= 10,
            shift == 7 * i,
            i <= s.len(),
            bytes@ == s.skip(i as int),
            forall|j: int| 0 <= j < i ==> s[j] >= 128,
            i <= 9 ==> result == value(s.take(i as int)),
            s == old(bytes)@,
        decreases 10 - i,
    {
        if shift >= 64 {
            proof {
                lemma_continued_at_least(s, i);
            }
            return Err(Error::BadVarint);
        }
        if bytes.len() == 0 {
            proof {
                lemma_continued_is(s, i);
            }
            return Err(Error::Eof);
        }
        let b: u8 = bytes[0];
        let (_, rest) = bytes.split_at(1);
        *bytes = rest;
        let low: u64 = (b % 128) as u64;
        proof {
            let head = s.take(i as int);
            assert(b == s[i as int]);
            assert(s.take(i as int + 1) =~= head.push(b));
            lemma_value_push(head, b);
            lemma_weight(i);
            lemma_shift_in(result, low, shift);
            lemma_shifted(low, i);
            assert(low * pow128(i) == (b % 128) as nat * pow128(i));
            if i == 9 {
                let h = 0x8000_0000_0000_0000nat;
                assert(low == 2 * (low / 2) + low % 2);
                assert(low * h == (low / 2) * (2 * h) + (low % 2) * h) by (nonlinear_arith)
                    requires
                        low == 2 * (low / 2) + low % 2,
                ;
                let t = (result + (low % 2) * h) as int;
                assert(0 <= t < 2 * h) by (nonlinear_arith)
                    requires
                        t == result + (low % 2) * h,
                        0 <= result < h,
                        low % 2 == 0 || low % 2 == 1,
                ;
                vstd::arithmetic::div_mod::lemma_mod_multiples_vanish(
                    (low / 2) as int,
                    t,
                    (2 * h) as int,
                );
                assert(value(s.take(10)) == (2 * h) * (low / 2) + t) by (nonlinear_arith)
                    requires
                        value(s.take(10)) == result + low * h,
                        low * h == (low / 2) * (2 * h) + (low % 2) * h,
                        t == result + (low % 2) * h,
                ;
                vstd::arithmetic::div_mod::lemma_small_mod(t as nat, (2 * h) as nat);
            } else {
                assert(result + low * pow128(i) < 128 * pow128(i)) by (nonlinear_arith)
                    requires
                        result < pow128(i),
                        low < 128,
                ;
            }
        }
        result = result | (low << shift);
        if b < 128 {
            proof {
                lemma_continued_is(s, i);
                assert(bytes@ =~= s.skip(i as int + 1));
            }
            return Ok(result);
        }
        shift = shift + 7;
        proof {
            assert(bytes@ =~= s.skip(i as int + 1));
            i = i + 1;
        }
    }
}

proof fn lemma_encoding_shape(v: nat)
    ensures
        encoding(v).len() > 0,
        continued(encoding(v)) == encoding(v).len() - 1,
        forall|i: int| 0 <= i < encoding(v).len() - 1 ==> encoding(v)[i] >= 128,
        encoding(v).last() < 128,
        value(encoding(v)) == v,
        v < pow128(encoding(v).len()),
        encoding(v).len() > 1 ==> v >= pow128((encoding(v).len() - 1) as nat),
    decreases v,
{
    if v < 128 {
        reveal_with_fuel(value, 2);
        assert(encoding(v).skip(1) =~= Seq::<u8>::empty());
        assert(pow128(1) == 128 * pow128(0));
    } else {
        lemma_encoding_shape(v / 128);
        let t = encoding(v / 128);
        let s = encoding(v);
        assert(s.skip(1) =~= t);
        assert forall|i: int| 0 <= i < s.len() - 1 implies s[i] >= 128 by {
            if i > 0 {
                assert(s[i] == t[i - 1]);
            }
        }
        assert(s.last() == t.last());
        assert(pow128(s.len()) == 128 * pow128(t.len()));
        assert(pow128(t.len()) == 128 * pow128((t.len() - 1) as nat));
        lemma_continued_is(s, (s.len() - 1) as nat);
        assert(s[0] % 128 == v % 128);
        if t.len() == 1 {
            assert(pow128(1) == 128 * pow128(0));
        }
    }
}

/// The encoding of a 64-bit number is 1 to 10 bytes long.
pub proof fn lemma_encoding_len(v: u64)
    ensures
        1 <= encoding(v as nat).len() <= 10,
{
    lemma_encoding_shape(v as nat);
    let n = encoding(v as nat).len();
    if n > 10 {
        lemma_pow128_mono(10, (n - 1) as nat);
        lemma_weight(9);
        assert(pow128(10) == 128 * pow128(9));
    }
}

proof fn lemma_pow128_mono(a: nat, b: nat)
    requires
        a <= b,
    ensures
        0 < pow128(a) <= pow128(b),
    decreases b,
{
    if a < b {
        lemma_pow128_mono(a, (b - 1) as nat);
    } else if a > 0 {
        lemma_pow128_mono((a - 1) as nat, (b - 1) as nat);
    }
}

/// Reading a written varint gives the number back and takes exactly its bytes,
/// whatever follows.
pub proof fn law_parse_encoding(v: u64, rest: Seq<u8>)
    ensures
        parse(encoding(v as nat) + rest) == Ok::<(u64, nat), Error>((v, encoding(v as nat).len())),
{
    let e = encoding(v as nat);
    let s = e + rest;
    lemma_encoding_shape(v as nat);
    lemma_encoding_len(v);
    let k = (e.len() - 1) as nat;
    assert forall|i: int| 0 <= i < k implies s[i] >= 128 by {
        assert(s[i] == e[i]);
    }
    assert(s[k as int] == e.last());
    lemma_continued_is(s, k);
    assert(s.take(k as int + 1) =~= e);
}

} // verus!
