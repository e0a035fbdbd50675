//! BLAKE3 over byte strings.
use vstd::prelude::*;

verus! {

/// The 32 bytes that BLAKE3 gives for `input`.
pub uninterp spec fn blake3_digest(input: Seq<u8>) -> Seq<u8>;

/// [`blake3_digest`] as an array.
pub open spec fn digest(input: Seq<u8>) -> [u8; 32] {
    choose|h: [u8; 32]| #[trigger] h@ == blake3_digest(input)
}

/// Whether no two of the inputs `s` have one BLAKE3 digest.
pub open spec fn apart(s: Set<Seq<u8>>) -> bool {
    forall|x: Seq<u8>, y: Seq<u8>|
        s.contains(x) && s.contains(y) && #[trigger] digest(x) == #[trigger] digest(y) ==> x == y
}

/// `blake3::hash`: the default 32-byte hash of `input`, a function of its bytes alone.
#[verifier::external_body]
fn blake3_hash(input: &[u8]) -> (h: [u8; 32])
    ensures
        h@ == blake3_digest(input@),
{
    *blake3::hash(input).as_bytes()
}

/// The digest of `input`.
pub fn hash(input: &[u8]) -> (h: [u8; 32])
    ensures
        h == digest(input@),
{
    let h: [u8; 32] = blake3_hash(input);
    proof {
        assert(h@ == blake3_digest(input@));
        let d = digest(input@);
        assert(d@ == blake3_digest(input@));
        assert(d =~= h);
    }
    h
}

} // verus!
