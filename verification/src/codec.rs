//! Typed payloads to bytes and back: versioned and tolerant.
//!
//! A [`Codec`] turns a typed payload into bytes for the log and back. Logged
//! bytes are content-addressed and kept forever, so a format must be versioned
//! (a tag can evolve) and tolerant (an older reader skips what a newer writer
//! added; trailing bytes are ignored).
use vstd::prelude::*;
use crate::bytes::{copy_range, put_all};

pub mod forms;
pub mod varint;

verus! {

/// Why a buffer did not decode.
#[derive(Debug, Clone, Copy, PartialEq, Eq)]
pub enum Error {
    /// Ran out of bytes mid-value.
    Eof,
    /// A varint did not terminate within 64 bits.
    BadVarint,
    /// Decoder-specific failure.
    Invalid(&'static str),
}

/// The framed form of a payload: its version, then the payload itself.
pub open spec fn framed(version: u64, payload: Seq<u8>) -> Seq<u8> {
    varint::encoding(version as nat) + payload
}

/// Prepend a format-version varint to a payload.
pub fn frame(version: u64, payload: &[u8]) -> (out: Vec<u8>)
    ensures
        out@ == framed(version, payload@),
{
    let mut out: Vec<u8> = Vec::new();
    varint::write(&mut out, version);
    put_all(&mut out, payload);
    assert(out@ =~= framed(version, payload@));
    out
}

/// Split a framed buffer into `(version, payload)`.
pub fn unframe(bytes: &[u8]) -> (r: Result<(u64, &[u8]), Error>)
    ensures
        match varint::parse(bytes@) {
            Ok((version, used)) => r matches Ok(p) && p.0 == version && p.1@ == bytes@.skip(used as int),
            Err(e) => r == Err::<(u64, &[u8]), Error>(e),
        },
{
    let mut b: &[u8] = bytes;
    match varint::read(&mut b) {
        Ok(version) => Ok((version, b)),
        Err(e) => Err(e),
    }
}

/// The self-describing form of a record: tag, body length, body.
pub open spec fn tagged(tag: u64, body: Seq<u8>) -> Seq<u8> {
    varint::encoding(tag as nat) + varint::encoding(body.len()) + body
}

/// What a buffer says about its first record: the tag, where the body starts and
/// where it ends.
pub open spec fn parse_tagged(s: Seq<u8>) -> Result<(u64, nat, nat), Error> {
    match varint::parse(s) {
        Err(e) => Err(e),
        Ok((tag, n)) => match varint::parse(s.skip(n as int)) {
            Err(e) => Err(e),
            Ok((len, m)) => if s.len() - n - m < len {
                Err(Error::Eof)
            } else {
                Ok((tag, n + m, n + m + len as nat))
            },
        },
    }
}

/// Write a `(tag, len, body)` record. Because the length is explicit, a reader
/// can skip a variant it does not recognise.
pub fn write_tagged(out: &mut Vec<u8>, tag: u64, body: &[u8])
    ensures
        final(out)@ == old(out)@ + tagged(tag, body@),
{
    varint::write(out, tag);
    varint::write(out, body.len() as u64);
    put_all(out, body);
    assert(out@ =~= old(out)@ + tagged(tag, body@));
}

/// Read one `(tag, body)` record, advancing `bytes` past it. The body length is
/// always known, so an unknown tag never loses the position.
pub fn read_tagged<'a>(bytes: &mut &'a [u8]) -> (r: Result<(u64, &'a [u8]), Error>)
    ensures
        match parse_tagged(old(bytes)@) {
            Ok((tag, start, end)) => {
                &&& r matches Ok(p) && p.0 == tag && p.1@ == old(bytes)@.subrange(start as int, end as int)
                &&& final(bytes)@ == old(bytes)@.skip(end as int)
            },
            Err(e) => r == Err::<(u64, &[u8]), Error>(e),
        },
{
    let ghost s = bytes@;
    let tag: u64 = match varint::read(bytes) {
        Ok(v) => v,
        Err(e) => return Err(e),
    };
    let ghost n = varint::parse(s)->Ok_0.1;
    let len: u64 = match varint::read(bytes) {
        Ok(v) => v,
        Err(e) => return Err(e),
    };
    let ghost m = varint::parse(s.skip(n as int))->Ok_0.1;
    proof {
        varint::lemma_parse_used(s);
        varint::lemma_parse_used(s.skip(n as int));
        assert(bytes@ =~= s.skip((n + m) as int));
    }
    if (bytes.len() as u64) < len {
        return Err(Error::Eof);
    }
    let (body, rest) = bytes.split_at(len as usize);
    *bytes = rest;
    proof {
        assert(body@ =~= s.subrange((n + m) as int, (n + m + len) as int));
        assert(rest@ =~= s.skip((n + m + len) as int));
    }
    Ok((tag, body))
}

/// A codec for payloads of type `T`. Kept apart from `T` so that one type can use
/// different wire formats, and so that ordering and storage stay content-blind.
pub trait Codec<T> {
    /// The bytes that stand for `value`.
    open spec fn encoding(&self, value: &T) -> Seq<u8> {
        arbitrary()
    }

    /// Whether `bytes` decode to `value`.
    open spec fn decodes(&self, bytes: Seq<u8>, value: &T) -> bool {
        arbitrary()
    }

    /// Why `bytes` do not decode, if they do not.
    open spec fn refusal(&self, bytes: Seq<u8>) -> Option<Error> {
        arbitrary()
    }

    /// Append the bytes of `value` to `out`.
    fn encode_into(&self, value: &T, out: &mut Vec<u8>)
        ensures
            final(out)@ == old(out)@ + self.encoding(value),
    ;

    /// The value that `bytes` stand for.
    fn decode(&self, bytes: &[u8]) -> (r: Result<T, Error>)
        ensures
            match r {
                Ok(v) => self.refusal(bytes@) is None && self.decodes(bytes@, &v),
                Err(e) => self.refusal(bytes@) == Some(e),
            },
    ;

    /// The bytes of `value`.
    fn encode(&self, value: &T) -> (out: Vec<u8>)
        ensures
            out@ == self.encoding(value),
    {
        let mut out: Vec<u8> = Vec::new();
        self.encode_into(value, &mut out);
        assert(out@ =~= self.encoding(value));
        out
    }
}

/// `u64` as a varint.
#[derive(Debug, Clone, Copy, PartialEq, Eq, Default)]
pub struct U64;

impl Codec<u64> for U64 {
    open spec fn encoding(&self, value: &u64) -> Seq<u8> {
        varint::encoding(*value as nat)
    }

    open spec fn decodes(&self, bytes: Seq<u8>, value: &u64) -> bool {
        varint::parse(bytes) matches Ok(p) && p.0 == *value
    }

    open spec fn refusal(&self, bytes: Seq<u8>) -> Option<Error> {
        match varint::parse(bytes) {
            Ok(_) => None,
            Err(e) => Some(e),
        }
    }

    fn encode_into(&self, value: &u64, out: &mut Vec<u8>) {
        varint::write(out, *value);
    }

    fn decode(&self, bytes: &[u8]) -> (r: Result<u64, Error>) {
        let mut b: &[u8] = bytes;
        varint::read(&mut b)
    }
}

/// Length-delimited bytes. Decoding ignores bytes past the declared length.
#[derive(Debug, Clone, Copy, PartialEq, Eq, Default)]
pub struct Bytes;

impl Codec<Vec<u8>> for Bytes {
    open spec fn encoding(&self, value: &Vec<u8>) -> Seq<u8> {
        varint::encoding(value@.len()) + value@
    }

    open spec fn decodes(&self, bytes: Seq<u8>, value: &Vec<u8>) -> bool {
        varint::parse(bytes) matches Ok(p) && p.1 + p.0 <= bytes.len() && value@ == bytes.subrange(
            p.1 as int,
            p.1 + p.0,
        )
    }

    open spec fn refusal(&self, bytes: Seq<u8>) -> Option<Error> {
        match varint::parse(bytes) {
            Ok((len, used)) => if bytes.len() - used < len {
                Some(Error::Eof)
            } else {
                None
            },
            Err(e) => Some(e),
        }
    }

    fn encode_into(&self, value: &Vec<u8>, out: &mut Vec<u8>) {
        varint::write(out, value.len() as u64);
        put_all(out, value.as_slice());
        assert(out@ =~= old(out)@ + self.encoding(value));
    }

    fn decode(&self, bytes: &[u8]) -> (r: Result<Vec<u8>, Error>) {
        let mut b: &[u8] = bytes;
        let len: u64 = match varint::read(&mut b) {
            Ok(v) => v,
            Err(e) => return Err(e),
        };
        proof {
            varint::lemma_parse_used(bytes@);
        }
        if (b.len() as u64) < len {
            return Err(Error::Eof);
        }
        let v: Vec<u8> = copy_range(b, 0, len as usize);
        assert(v@ =~= bytes@.subrange(
            varint::parse(bytes@)->Ok_0.1 as int,
            varint::parse(bytes@)->Ok_0.1 + len,
        ));
        Ok(v)
    }
}

/// A framed buffer unframes to exactly the version and the payload it was made of.
pub proof fn law_unframe_frame(version: u64, payload: Seq<u8>)
    ensures
        varint::parse(framed(version, payload)) matches Ok(p) && p.0 == version && framed(
            version,
            payload,
        ).skip(p.1 as int) == payload,
{
    varint::law_parse_encoding(version, payload);
    assert(framed(version, payload).skip(varint::encoding(version as nat).len() as int) =~= payload);
}

/// A tagged record reads back as written and the reader is left at the byte after
/// it, whatever follows and whatever the tag.
pub proof fn law_read_tagged_write_tagged(tag: u64, body: Seq<u8>, rest: Seq<u8>)
    requires
        body.len() <= u64::MAX,
    ensures
        parse_tagged(tagged(tag, body) + rest) matches Ok(p) && p.0 == tag && (tagged(tag, body)
            + rest).subrange(p.1 as int, p.2 as int) == body && (tagged(tag, body) + rest).skip(
            p.2 as int,
        ) == rest,
{
    let s = tagged(tag, body) + rest;
    let a = varint::encoding(tag as nat);
    let b = varint::encoding(body.len());
    assert(s =~= a + (b + body + rest));
    varint::law_parse_encoding(tag, b + body + rest);
    assert(s.skip(a.len() as int) =~= b + (body + rest));
    varint::law_parse_encoding(body.len() as u64, body + rest);
    let n = (a.len() + b.len()) as int;
    assert(s.subrange(n, n + body.len()) =~= body);
    assert(s.skip(n + body.len()) =~= rest);
}

/// `U64` decodes what it encoded, whatever bytes follow.
pub proof fn law_u64_round_trip(value: u64, rest: Seq<u8>)
    ensures
        U64.refusal(U64.encoding(&value) + rest) is None,
        U64.decodes(U64.encoding(&value) + rest, &value),
{
    varint::law_parse_encoding(value, rest);
}

/// `Bytes` decodes what it encoded, and bytes that a newer writer appended make no
/// difference.
pub proof fn law_bytes_round_trip(value: &Vec<u8>, rest: Seq<u8>)
    requires
        value@.len() <= u64::MAX,
    ensures
        Bytes.refusal(Bytes.encoding(value) + rest) is None,
        Bytes.decodes(Bytes.encoding(value) + rest, value),
{
    let head = varint::encoding(value@.len());
    assert(Bytes.encoding(value) + rest =~= head + (value@ + rest));
    varint::law_parse_encoding(value@.len() as u64, value@ + rest);
    assert((Bytes.encoding(value) + rest).subrange(
        head.len() as int,
        (head.len() + value@.len()) as int,
    ) =~= value@);
}

} // verus!
