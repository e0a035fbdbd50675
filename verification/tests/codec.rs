//! Varints, frames, tagged records and codecs.
use hypercore_rs::codec::{
    frame, read_tagged, unframe, varint, write_tagged, Bytes, Codec, Error, U64,
};

#[test]
fn varint_roundtrip() {
    for v in [0u64, 1, 127, 128, 300, 16384, u32::MAX as u64, u64::MAX] {
        let mut out = Vec::new();
        varint::write(&mut out, v);
        let mut b = &out[..];
        assert_eq!(varint::read(&mut b).unwrap(), v);
        assert!(b.is_empty(), "varint consumed exactly its bytes");
    }
}

#[test]
fn varint_truncated_is_eof() {
    let mut b: &[u8] = &[0x80];
    assert_eq!(varint::read(&mut b), Err(Error::Eof));
}

#[test]
fn builtin_codecs_roundtrip() {
    assert_eq!(U64.decode(&U64.encode(&42)).unwrap(), 42);
    let data = b"hello world".to_vec();
    assert_eq!(Bytes.decode(&Bytes.encode(&data)).unwrap(), data);
}

#[test]
fn bytes_tolerates_trailing() {
    let mut buf = Bytes.encode(&b"abc".to_vec());
    buf.extend_from_slice(b"future-fields");
    assert_eq!(Bytes.decode(&buf).unwrap(), b"abc".to_vec());
}

#[test]
fn framing_preserves_version_and_payload() {
    let f = frame(7, b"body");
    let (v, payload) = unframe(&f).unwrap();
    assert_eq!(v, 7);
    assert_eq!(payload, b"body");
}

#[test]
fn tagged_skips_unknown_variants() {
    let mut out = Vec::new();
    write_tagged(&mut out, 1, b"a");
    write_tagged(&mut out, 99, b"some-unknown-body");
    write_tagged(&mut out, 2, b"cc");

    let mut b = &out[..];
    let (t1, body1) = read_tagged(&mut b).unwrap();
    let (t2, _skip) = read_tagged(&mut b).unwrap();
    let (t3, body3) = read_tagged(&mut b).unwrap();
    assert_eq!((t1, body1), (1, &b"a"[..]));
    assert_eq!(t2, 99);
    assert_eq!((t3, body3), (2, &b"cc"[..]));
    assert!(b.is_empty());
}

fn decode_record(bytes: &[u8]) -> (u64, u64) {
    let (version, mut body) = {
        let (v, p) = unframe(bytes).unwrap();
        (v, p)
    };
    let a = varint::read(&mut body).unwrap();
    let b = if version >= 2 {
        varint::read(&mut body).unwrap_or(0)
    } else {
        0
    };
    (a, b)
}

#[test]
fn old_bytes_decode_under_newer_schema() {
    let mut body = Vec::new();
    varint::write(&mut body, 10);
    let v1 = frame(1, &body);
    assert_eq!(decode_record(&v1), (10, 0));
}

#[test]
fn newer_bytes_tolerated_by_reader() {
    let mut body = Vec::new();
    varint::write(&mut body, 10);
    varint::write(&mut body, 20);
    let v2 = frame(2, &body);
    assert_eq!(decode_record(&v2), (10, 20));
}
