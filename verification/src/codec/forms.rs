//! The bytes of numbers and records, byte by byte.
use vstd::prelude::*;
use super::varint::{encoding, law_parse_encoding, parse, value};
use super::{framed, parse_tagged, tagged, Bytes, Codec, Error, U64};

verus! {

/// A number is written seven bits to a byte, the low ones first, and every byte but the last
/// has its top bit set.
pub proof fn law_varint(v: nat)
    ensures
        v < 128 ==> encoding(v) == seq![v as u8],
        v >= 128 ==> {
            &&& encoding(v).len() == encoding(v / 128).len() + 1
            &&& encoding(v)[0] == 128 + v % 128
            &&& encoding(v).skip(1) =~= encoding(v / 128)
        },
        encoding(v).len() >= 1,
        encoding(v).last() < 128,
        forall|i: int| 0 <= i < encoding(v).len() - 1 ==> #[trigger] encoding(v)[i] >= 128,
    decreases v,
{
    if v >= 128 {
        law_varint(v / 128);
        let e = encoding(v);
        let f = encoding(v / 128);
        assert(e.skip(1) =~= f);
        assert forall|i: int| 0 <= i < e.len() - 1 implies #[trigger] e[i] >= 128 by {
            if i > 0 {
                assert(e[i] == f[i - 1]);
            }
        }
        assert(e.last() == f.last());
    }
}

/// Bytes spell the number whose low seven bits are those of the first byte, and whose other
/// bits the rest of the bytes spell.
pub proof fn law_varint_value(b: u8, s: Seq<u8>)
    ensures
        value(Seq::empty()) == 0,
        value(seq![b] + s) == b % 128 + 128 * value(s),
{
    assert((seq![b] + s).skip(1) =~= s);
}

/// A number ends at the first byte without the top bit; ten bytes with it are none, and
/// bytes that end before it are cut short.
pub proof fn law_varint_ends(s: Seq<u8>, k: int)
    requires
        0 <= k <= s.len(),
        forall|i: int| 0 <= i < k ==> s[i] >= 128,
        k < s.len() ==> s[k] < 128,
    ensures
        k >= 10 ==> parse(s) == Err::<(u64, nat), Error>(Error::BadVarint),
        k < 10 && k == s.len() ==> parse(s) == Err::<(u64, nat), Error>(Error::Eof),
        k < 10 && k < s.len() ==> (parse(s) matches Ok(p) && p.1 == k + 1 && p.0 == value(
            s.take(k + 1),
        ) % 0x1_0000_0000_0000_0000),
{
    super::varint::lemma_continued_is(s, k as nat);
}

/// A frame is the version's number and then the payload, nothing else; a record is the tag's
/// number, the length of the body, and the body.
pub proof fn law_record_bytes(tag: u64, body: Seq<u8>)
    ensures
        framed(tag, body) == encoding(tag as nat) + body,
        tagged(tag, body) == encoding(tag as nat) + encoding(body.len()) + body,
        tag < 128 ==> framed(tag, body) == seq![tag as u8] + body,
        tag < 128 && body.len() < 128 ==> tagged(tag, body) == seq![
            tag as u8,
            body.len() as u8,
        ] + body,
{
    law_varint(tag as nat);
    law_varint(body.len());
    if tag < 128 && body.len() < 128 {
        assert(tagged(tag, body) =~= seq![tag as u8, body.len() as u8] + body);
    }
}

/// A record that is cut short in its body is none.
pub proof fn law_record_cut(tag: u64, body: Seq<u8>, k: int)
    requires
        body.len() <= u64::MAX,
        0 <= k < body.len(),
    ensures
        parse_tagged(encoding(tag as nat) + encoding(body.len()) + body.take(k)) == Err::<
            (u64, nat, nat),
            Error,
        >(Error::Eof),
{
    let a = encoding(tag as nat);
    let b = encoding(body.len());
    let s = a + b + body.take(k);
    assert(s =~= a + (b + body.take(k)));
    law_parse_encoding(tag, b + body.take(k));
    assert(s.skip(a.len() as int) =~= b + body.take(k));
    law_parse_encoding(body.len() as u64, body.take(k));
}

/// The two plain codecs: a number is its bytes, bytes come after their length.
pub proof fn law_plain_codecs(n: u64, v: &Vec<u8>)
    ensures
        U64.encoding(&n) == encoding(n as nat),
        Bytes.encoding(v) == encoding(v@.len()) + v@,
        n < 128 ==> U64.encoding(&n) == seq![n as u8],
        v@.len() < 128 ==> Bytes.encoding(v) == seq![v@.len() as u8] + v@,
{
    law_varint(n as nat);
    law_varint(v@.len());
}

} // verus!
