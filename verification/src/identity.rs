//! Ed25519 author keys, signing and verification.
//!
//! The author identity of log entries. Every entry is signed by its author, so causal
//! references point at verifiable, signed blocks rather than forgeable plaintext ids.
use ed25519_dalek::Signer as _;
use ed25519_dalek::Verifier as _;
use vstd::prelude::*;

pub mod manifest;

pub use manifest::{Manifest, PartialSig, Prologue, Signer};
pub use manifest::Signer as ManifestSigner;

verus! {

/// The public key bytes of the Ed25519 key pair that grows from `seed`.
pub uninterp spec fn ed25519_public(seed: Seq<u8>) -> Seq<u8>;

/// The bytes of the Ed25519 signature over `message` by the key pair of `seed`.
pub uninterp spec fn ed25519_signature(seed: Seq<u8>, message: Seq<u8>) -> Seq<u8>;

/// Whether `public` encodes an Ed25519 public key.
pub uninterp spec fn ed25519_decodes(public: Seq<u8>) -> bool;

/// Whether `public` encodes an Ed25519 public key under which `signature` is a valid
/// signature over `message`.
pub uninterp spec fn ed25519_accepts(
    public: Seq<u8>,
    message: Seq<u8>,
    signature: Seq<u8>,
) -> bool;

/// `ed25519_dalek::SigningKey::from_bytes` and `verifying_key`: the public half of the
/// key pair of a seed, a function of the seed alone. Its 32 bytes decode as a key again.
#[verifier::external_body]
fn dalek_public(seed: &[u8; 32]) -> (public: [u8; 32])
    ensures
        public@ == ed25519_public(seed@),
        ed25519_decodes(public@),
{
    ed25519_dalek::SigningKey::from_bytes(seed).verifying_key().to_bytes()
}

/// `ed25519_dalek::SigningKey::sign`: the deterministic signature of RFC 8032 over a
/// message, a function of seed and message alone. The key pair's own public key accepts
/// it.
#[verifier::external_body]
fn dalek_sign(seed: &[u8; 32], message: &[u8]) -> (signature: [u8; 64])
    ensures
        signature@ == ed25519_signature(seed@, message@),
        ed25519_accepts(ed25519_public(seed@), message@, signature@),
{
    ed25519_dalek::SigningKey::from_bytes(seed).sign(message).to_bytes()
}

/// `ed25519_dalek::VerifyingKey::from_bytes`: whether 32 bytes decode as a public key.
#[verifier::external_body]
fn dalek_decodes(public: &[u8; 32]) -> (ok: bool)
    ensures
        ok == ed25519_decodes(public@),
{
    ed25519_dalek::VerifyingKey::from_bytes(public).is_ok()
}

/// `ed25519_dalek::VerifyingKey::verify`: whether a signature over a message is valid
/// under a public key; bytes that do not decode as a key accept nothing.
#[verifier::external_body]
fn dalek_accepts(public: &[u8; 32], message: &[u8], signature: &[u8; 64]) -> (ok: bool)
    ensures
        ok == ed25519_accepts(public@, message@, signature@),
{
    match ed25519_dalek::VerifyingKey::from_bytes(public) {
        Ok(key) => key.verify(message, &ed25519_dalek::Signature::from_bytes(signature)).is_ok(),
        Err(_) => false,
    }
}

/// The signature over `message` by the key pair of `seed`.
pub open spec fn signature_by(seed: [u8; 32], message: Seq<u8>) -> Sig {
    choose|s: Sig| #[trigger] s@@ == ed25519_signature(seed@, message)
}

/// The signature with these bytes.
pub open spec fn sig_of(bytes: Seq<u8>) -> Sig {
    choose|s: Sig| #[trigger] s@@ == bytes
}

/// An author's secret key. It is not `Clone`.
pub struct SecretKey {
    seed: [u8; 32],
}

/// An author's public key.
#[derive(Clone, Copy, PartialEq, Eq, Debug)]
pub struct PublicKey {
    bytes: [u8; 32],
}

/// A signature.
#[derive(Clone, Copy, PartialEq, Eq, Debug)]
pub struct Sig {
    bytes: [u8; 64],
}

impl View for SecretKey {
    type V = [u8; 32];

    closed spec fn view(&self) -> [u8; 32] {
        self.seed
    }
}

impl View for PublicKey {
    type V = [u8; 32];

    closed spec fn view(&self) -> [u8; 32] {
        self.bytes
    }
}

impl View for Sig {
    type V = [u8; 64];

    closed spec fn view(&self) -> [u8; 64] {
        self.bytes
    }
}

impl SecretKey {
    /// Whether `public` is this key's public half.
    pub open spec fn owns(&self, public: PublicKey) -> bool {
        public@@ == ed25519_public(self@@)
    }

    /// The key that grows from a seed.
    pub fn from_seed(seed: &[u8; 32]) -> (k: Self)
        ensures
            k@ == *seed,
    {
        SecretKey { seed: *seed }
    }

    /// The public half of the key.
    pub fn public(&self) -> (p: PublicKey)
        ensures
            self.owns(p),
            ed25519_decodes(p@@),
    {
        PublicKey { bytes: dalek_public(&self.seed) }
    }

    /// Sign a message; every public key that this key owns accepts the signature.
    pub fn sign(&self, message: &[u8]) -> (s: Sig)
        ensures
            s@@ == ed25519_signature(self@@, message@),
            s == signature_by(self@, message@),
            forall|p: PublicKey| #[trigger] self.owns(p) ==> p.accepts(message@, s),
    {
        let s: Sig = Sig { bytes: dalek_sign(&self.seed, message) };
        proof {
            let t = signature_by(self@, message@);
            assert(s@@ == ed25519_signature(self@@, message@));
            assert(t@@ == ed25519_signature(self@@, message@));
            Sig::lemma_bytes(s, t);
        }
        s
    }
}

impl PublicKey {
    /// Whether `s` is a valid signature over `message` under this key.
    pub open spec fn accepts(&self, message: Seq<u8>, s: Sig) -> bool {
        ed25519_accepts(self@@, message, s@@)
    }

    /// The key's bytes.
    pub fn to_bytes(&self) -> (b: [u8; 32])
        ensures
            b == self@,
    {
        self.bytes
    }

    /// The key that `bytes` encode, if they do encode one.
    pub fn from_bytes(bytes: &[u8; 32]) -> (p: Option<Self>)
        ensures
            match p {
                Some(k) => k@ == *bytes && ed25519_decodes(bytes@),
                None => !ed25519_decodes(bytes@),
            },
    {
        if dalek_decodes(bytes) {
            Some(PublicKey { bytes: *bytes })
        } else {
            None
        }
    }

    /// Whether `sig` is a valid signature over `message` under this key.
    pub fn verify(&self, message: &[u8], sig: &Sig) -> (ok: bool)
        ensures
            ok == self.accepts(message@, *sig),
    {
        dalek_accepts(&self.bytes, message, &sig.bytes)
    }

    /// Two keys with the same bytes are one key.
    pub proof fn lemma_bytes(a: PublicKey, b: PublicKey)
        ensures
            a@ == b@ ==> a == b,
            a@@ == b@@ ==> a == b,
    {
        if a@@ == b@@ {
            assert(a.bytes =~= b.bytes);
        }
    }
}

impl Sig {
    /// The signature's bytes.
    pub fn to_bytes(&self) -> (b: [u8; 64])
        ensures
            b == self@,
    {
        self.bytes
    }

    /// A signature with these bytes.
    pub fn from_bytes(bytes: &[u8; 64]) -> (s: Self)
        ensures
            s@ == *bytes,
            s == sig_of(bytes@),
    {
        let s: Sig = Sig { bytes: *bytes };
        proof {
            Sig::lemma_of(s);
        }
        s
    }

    /// A signature is the one with its bytes.
    pub proof fn lemma_of(s: Sig)
        ensures
            sig_of(s@@) == s,
    {
        let t = sig_of(s@@);
        assert(t@@ == s@@);
        Sig::lemma_bytes(s, t);
    }

    /// Two signatures with the same bytes are one signature.
    pub proof fn lemma_bytes(a: Sig, b: Sig)
        ensures
            a@ == b@ ==> a == b,
            a@@ == b@@ ==> a == b,
    {
        if a@@ == b@@ {
            assert(a.bytes =~= b.bytes);
        }
    }
}

} // verus!
