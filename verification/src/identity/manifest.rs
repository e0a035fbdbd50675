//! Multi-signer manifests: who may sign a log.
//!
//! A log's authority is a manifest: a quorum-of-signers signing policy that is hashed
//! into the log's key, so who may sign cannot change without changing the identity.
//!
//! - a [`Signer`] is an Ed25519 [`PublicKey`] and a 32-byte namespace that tells apart a
//!   signer's roles;
//! - the manifest commits to its quorum and ordered signers, and to an optional
//!   [`Prologue`]; [`Manifest::hash`] is the content-addressed identity;
//! - to authorize a head `(length, tree_hash)` a signer signs [`Manifest::signable`],
//!   domain-tagged bytes that bind the manifest hash, so that a signature is valid only
//!   under this exact policy;
//! - [`Manifest::verify`] accepts iff at least `quorum` distinct signers produced a
//!   valid signature, while a [`Prologue`] prefix authorizes itself.
use vstd::prelude::*;
use crate::bytes::{array32, le64, lemma_array32, lemma_le64_injective, put_all, put_u64, same_32};
use crate::identity::{ed25519_public, signature_by, PublicKey, SecretKey, Sig};
use crate::merkle::hash::{apart, digest, hash};

verus! {

/// Domain tag of the manifest hash.
pub const MANIFEST_DOMAIN: u8 = 0xA0;

/// Domain tag of the bytes that each signer signs.
pub const SIGNABLE_DOMAIN: u8 = 0xA1;

/// The namespace of a signer declared without one: all zeroes.
pub open spec fn zero_namespace() -> [u8; 32] {
    array32(Seq::new(32, |i: int| 0u8))
}

/// The namespace of a signer declared without one: all zeroes.
pub fn default_namespace() -> (n: [u8; 32])
    ensures
        n == zero_namespace(),
{
    let n: [u8; 32] = [0u8; 32];
    proof {
        assert(n@ =~= Seq::new(32, |i: int| 0u8));
        lemma_array32(n);
    }
    n
}

/// One signer of a [`Manifest`]: a public key and a namespace.
///
/// Two manifests with identical public keys but different namespaces are different
/// policies.
#[derive(Clone, Copy, PartialEq, Eq, Debug)]
pub struct Signer {
    pub public_key: PublicKey,
    pub namespace: [u8; 32],
}

/// A commitment to a prefix: a head at `length` whose Merkle hash is `hash` needs no
/// signature.
#[derive(Clone, Copy, PartialEq, Eq, Debug)]
pub struct Prologue {
    pub length: u64,
    pub hash: [u8; 32],
}

/// One signer's contribution: the signer's place in the manifest, and the signature.
#[derive(Clone, Copy, PartialEq, Eq, Debug)]
pub struct PartialSig {
    pub signer: usize,
    pub sig: Sig,
}

/// A multi-signer signing policy.
#[derive(PartialEq, Eq, Debug)]
pub struct Manifest {
    quorum: usize,
    signers: Vec<Signer>,
    prologue: Option<Prologue>,
}

/// What a [`Manifest`] says.
#[verifier::ext_equal]
pub ghost struct Policy {
    pub quorum: usize,
    pub signers: Seq<Signer>,
    pub prologue: Option<Prologue>,
}

/// The bytes of signers: key and namespace each.
pub open spec fn signers_bytes(signers: Seq<Signer>) -> Seq<u8>
    decreases signers.len(),
{
    if signers.len() == 0 {
        Seq::empty()
    } else {
        signers_bytes(signers.drop_last()) + (signers.last().public_key@@
            + signers.last().namespace@)
    }
}

/// The bytes of an optional prologue: a tag, and what there is.
pub open spec fn prologue_bytes(prologue: Option<Prologue>) -> Seq<u8> {
    match prologue {
        Some(p) => seq![1u8] + (le64(p.length) + p.hash@),
        None => seq![0u8],
    }
}

impl Policy {
    /// What the policy's hash is taken over.
    pub open spec fn bytes(self) -> Seq<u8> {
        seq![MANIFEST_DOMAIN] + (le64(self.quorum as u64) + (le64(self.signers.len() as u64) + (
        signers_bytes(self.signers) + prologue_bytes(self.prologue))))
    }

    /// The policy's identity.
    pub open spec fn hash(self) -> [u8; 32] {
        digest(self.bytes())
    }

    /// The bytes that a signer signs for a head.
    pub open spec fn signable(self, length: u64, tree_hash: [u8; 32]) -> Seq<u8> {
        seq![SIGNABLE_DOMAIN] + (self.hash()@ + (le64(length) + tree_hash@))
    }

    /// Whether a declared signer signed the head.
    pub open spec fn signed(self, length: u64, tree_hash: [u8; 32], p: PartialSig) -> bool {
        p.signer < self.signers.len() && self.signers[p.signer as int].public_key.accepts(
            self.signable(length, tree_hash),
            p.sig,
        )
    }

    /// The first signer from place `i` on whose key grows from `seed`.
    pub open spec fn place_of(self, seed: [u8; 32], i: int) -> Option<int>
        decreases self.signers.len() - i,
    {
        if i < 0 || i >= self.signers.len() {
            None
        } else if self.signers[i].public_key@@ == ed25519_public(seed@) {
            Some(i)
        } else {
            self.place_of(seed, i + 1)
        }
    }

    /// What the key of `seed` contributes to a head, if it is a declared signer.
    pub open spec fn partial(self, seed: [u8; 32], length: u64, tree_hash: [u8; 32]) -> Option<
        PartialSig,
    > {
        match self.place_of(seed, 0) {
            Some(i) => Some(
                PartialSig {
                    signer: i as usize,
                    sig: signature_by(seed, self.signable(length, tree_hash)),
                },
            ),
            None => None,
        }
    }

    /// Whether the head is within the committed prefix.
    pub open spec fn within_prologue(self, length: u64) -> bool {
        self.prologue matches Some(p) && length <= p.length
    }

    /// Whether a head is authorized: the exact committed prefix, or, past it, a head that
    /// at least the quorum of distinct signers signed, with no bad signature among those
    /// given.
    pub open spec fn accepts(
        self,
        length: u64,
        tree_hash: [u8; 32],
        sigs: Seq<PartialSig>,
    ) -> bool {
        if self.within_prologue(length) {
            self.prologue == Some(Prologue { length, hash: tree_hash })
        } else {
            &&& 0 < self.quorum <= sigs.len()
            &&& forall|i: int|
                0 <= i < sigs.len() ==> self.signed(length, tree_hash, #[trigger] sigs[i])
            &&& forall|i: int, j: int|
                0 <= i < j < sigs.len() ==> sigs[i].signer != sigs[j].signer
        }
    }
}

impl View for Manifest {
    type V = Policy;

    closed spec fn view(&self) -> Policy {
        Policy { quorum: self.quorum, signers: self.signers@, prologue: self.prologue }
    }
}

impl Clone for Manifest {
    fn clone(&self) -> (m: Self)
        ensures
            m@ == self@,
    {
        let mut signers: Vec<Signer> = Vec::new();
        let mut i: usize = 0;
        while i < self.signers.len()
            invariant
                i <= self.signers.len(),
                signers@ == self.signers@.take(i as int),
            decreases self.signers.len() - i,
        {
            signers.push(self.signers[i]);
            i = i + 1;
            assert(signers@ =~= self.signers@.take(i as int));
        }
        assert(signers@ =~= self.signers@);
        Manifest { quorum: self.quorum, signers, prologue: self.prologue }
    }
}

impl Signer {
    /// A signer with the [`default_namespace`].
    pub fn new(public_key: PublicKey) -> (s: Self)
        ensures
            s == (Signer { public_key, namespace: zero_namespace() }),
    {
        Signer { public_key, namespace: default_namespace() }
    }

    /// A signer with an explicit namespace.
    pub fn with_namespace(public_key: PublicKey, namespace: [u8; 32]) -> (s: Self)
        ensures
            s == (Signer { public_key, namespace }),
    {
        Signer { public_key, namespace }
    }
}

impl Manifest {
    /// The majority of `n` signers.
    pub fn default_quorum(n: usize) -> (q: usize)
        ensures
            q == n / 2 + 1,
    {
        n / 2 + 1
    }

    /// A manifest of `signers` requiring `quorum` distinct signatures; `None` if there
    /// are no signers, or the quorum is zero or more than the signers.
    pub fn new(quorum: usize, signers: Vec<Signer>) -> (m: Option<Self>)
        ensures
            match m {
                Some(m) => 0 < quorum <= signers@.len() && m@ == (Policy {
                    quorum,
                    signers: signers@,
                    prologue: None,
                }),
                None => quorum == 0 || quorum > signers@.len(),
            },
    {
        if signers.len() == 0 || quorum == 0 || quorum > signers.len() {
            return None;
        }
        Some(Manifest { quorum, signers, prologue: None })
    }

    /// The manifest of a plain one-author log: quorum one, one signer with the
    /// [`default_namespace`].
    pub fn single(public_key: PublicKey) -> (m: Self)
        ensures
            m@ == (Policy {
                quorum: 1,
                signers: seq![Signer { public_key, namespace: zero_namespace() }],
                prologue: None,
            }),
    {
        let mut signers: Vec<Signer> = Vec::new();
        signers.push(Signer::new(public_key));
        let m: Manifest = Manifest { quorum: 1, signers, prologue: None };
        assert(m@.signers =~= seq![Signer { public_key, namespace: zero_namespace() }]);
        m
    }

    /// A manifest without signers: it accepts the committed prefix and nothing past it.
    pub fn static_signer(prologue: Prologue) -> (m: Self)
        ensures
            m@ == (Policy { quorum: 0, signers: Seq::empty(), prologue: Some(prologue) }),
    {
        Manifest { quorum: 0, signers: Vec::new(), prologue: Some(prologue) }
    }

    /// Attach a prologue: the committed prefix authorizes itself, the quorum governs
    /// everything past it.
    pub fn with_prologue(self, prologue: Prologue) -> (m: Self)
        ensures
            m@ == (Policy { prologue: Some(prologue), ..self@ }),
    {
        Manifest { quorum: self.quorum, signers: self.signers, prologue: Some(prologue) }
    }

    /// How many distinct signers a head needs.
    pub fn quorum(&self) -> (q: usize)
        ensures
            q == self@.quorum,
    {
        self.quorum
    }

    /// The signers, in order.
    pub fn signers(&self) -> (s: &[Signer])
        ensures
            s@ == self@.signers,
    {
        self.signers.as_slice()
    }

    /// The committed prefix, if any.
    pub fn prologue(&self) -> (p: Option<Prologue>)
        ensures
            p == self@.prologue,
    {
        self.prologue
    }

    /// The manifest's identity: a hash over quorum, ordered signers and prologue, so
    /// that any change of policy gives a different key.
    pub fn hash(&self) -> (h: [u8; 32])
        ensures
            h == self@.hash(),
    {
        let mut b: Vec<u8> = Vec::new();
        b.push(MANIFEST_DOMAIN);
        put_u64(&mut b, self.quorum as u64);
        put_u64(&mut b, self.signers.len() as u64);
        let ghost head = seq![MANIFEST_DOMAIN] + (le64(self.quorum as u64) + le64(
            self.signers@.len() as u64,
        ));
        let mut i: usize = 0;
        proof {
            assert(self.signers@.take(0) =~= Seq::<Signer>::empty());
            assert(b@ =~= head + signers_bytes(self.signers@.take(0)));
        }
        while i < self.signers.len()
            invariant
                i <= self.signers.len(),
                b@ == head + signers_bytes(self.signers@.take(i as int)),
            decreases self.signers.len() - i,
        {
            let s: Signer = self.signers[i];
            let key: [u8; 32] = s.public_key.to_bytes();
            put_all(&mut b, &key);
            put_all(&mut b, &s.namespace);
            i = i + 1;
            proof {
                assert(self.signers@.take(i as int).drop_last() =~= self.signers@.take(i - 1));
                assert(b@ =~= head + signers_bytes(self.signers@.take(i as int)));
            }
        }
        assert(self.signers@.take(i as int) =~= self.signers@);
        match self.prologue {
            Some(p) => {
                b.push(1);
                put_u64(&mut b, p.length);
                put_all(&mut b, &p.hash);
            },
            None => {
                b.push(0);
            },
        }
        assert(b@ =~= self@.bytes());
        hash(b.as_slice())
    }

    /// The bytes that a signer signs to authorize the head `(length, tree_hash)`.
    pub fn signable(&self, length: u64, tree_hash: &[u8; 32]) -> (m: Vec<u8>)
        ensures
            m@ == self@.signable(length, *tree_hash),
    {
        let h: [u8; 32] = self.hash();
        let mut m: Vec<u8> = Vec::new();
        m.push(SIGNABLE_DOMAIN);
        put_all(&mut m, &h);
        put_u64(&mut m, length);
        put_all(&mut m, tree_hash);
        assert(m@ =~= self@.signable(length, *tree_hash));
        m
    }

    /// This key's partial signature over the head, as the first signer that it is
    /// declared as; `None` if it is not a declared signer.
    pub fn sign(&self, secret: &SecretKey, length: u64, tree_hash: &[u8; 32]) -> (p: Option<
        PartialSig,
    >)
        ensures
            p == self@.partial(secret@, length, *tree_hash),
            p matches Some(q) ==> self@.signed(length, *tree_hash, q),
    {
        let public: [u8; 32] = secret.public().to_bytes();
        let mut i: usize = 0;
        while i < self.signers.len()
            invariant
                i <= self.signers.len(),
                public@ == ed25519_public(secret@@),
                self@.place_of(secret@, 0) == self@.place_of(secret@, i as int),
            decreases self.signers.len() - i,
        {
            let key: [u8; 32] = self.signers[i].public_key.to_bytes();
            if same_32(&key, &public) {
                let message: Vec<u8> = self.signable(length, tree_hash);
                let sig: Sig = secret.sign(message.as_slice());
                assert(secret.owns(self@.signers[i as int].public_key));
                assert(self@.place_of(secret@, i as int) == Some(i as int));
                return Some(PartialSig { signer: i, sig });
            }
            proof {
                if secret.owns(self@.signers[i as int].public_key) {
                    assert(key =~= public);
                }
                assert(self@.signers[i as int].public_key@ == key);
            }
            i = i + 1;
        }
        None
    }

    /// Whether the head `(length, tree_hash)` is authorized.
    ///
    /// A head within the prologue is accepted iff it is exactly the committed prefix.
    /// Past it, at least `quorum` signatures are needed, each of a distinct signer and
    /// each valid; any out-of-range or repeated signer, or invalid signature, among those
    /// given rejects them all.
    pub fn verify(&self, length: u64, tree_hash: &[u8; 32], sigs: &[PartialSig]) -> (ok: bool)
        ensures
            ok == self@.accepts(length, *tree_hash, sigs@),
    {
        match self.prologue {
            Some(p) => {
                if length <= p.length {
                    return length == p.length && same_32(tree_hash, &p.hash);
                }
            },
            None => {},
        }
        if self.quorum == 0 || sigs.len() < self.quorum {
            return false;
        }
        let message: Vec<u8> = self.signable(length, tree_hash);
        let mut seen: Vec<bool> = vec![false; self.signers.len()];
        let mut i: usize = 0;
        while i < sigs.len()
            invariant
                i <= sigs.len(),
                seen@.len() == self.signers@.len(),
                message@ == self@.signable(length, *tree_hash),
                !self@.within_prologue(length),
                forall|k: int|
                    0 <= k < i ==> self@.signed(length, *tree_hash, #[trigger] sigs@[k]),
                forall|k: int, l: int| 0 <= k < l < i ==> sigs@[k].signer != sigs@[l].signer,
                forall|s: int|
                    0 <= s < seen@.len() ==> (#[trigger] seen@[s] <==> exists|k: int|
                        0 <= k < i && #[trigger] sigs@[k].signer == s),
            decreases sigs.len() - i,
        {
            let p: PartialSig = sigs[i];
            assert(p == sigs@[i as int]);
            if p.signer >= self.signers.len() {
                assert(!self@.signed(length, *tree_hash, sigs@[i as int]));
                return false;
            }
            if seen[p.signer] {
                proof {
                    let k = choose|k: int| 0 <= k < i && #[trigger] sigs@[k].signer == p.signer;
                    assert(sigs@[k].signer == sigs@[i as int].signer);
                }
                return false;
            }
            let ghost before = seen@;
            seen.set(p.signer, true);
            if !self.signers[p.signer].public_key.verify(message.as_slice(), &p.sig) {
                assert(!self@.signed(length, *tree_hash, sigs@[i as int]));
                return false;
            }
            proof {
                assert forall|k: int, l: int| 0 <= k < l < i + 1 implies sigs@[k].signer
                    != sigs@[l].signer by {
                    if l == i {
                        assert(!before[p.signer as int]);
                    }
                }
                assert forall|s: int| 0 <= s < seen@.len() implies (#[trigger] seen@[s]
                    <==> exists|k: int| 0 <= k < i + 1 && #[trigger] sigs@[k].signer == s) by {
                    if s == p.signer {
                        assert(sigs@[i as int].signer == s);
                    } else {
                        assert(seen@[s] == before[s]);
                        if before[s] {
                            let k = choose|k: int| 0 <= k < i && #[trigger] sigs@[k].signer == s;
                            assert(0 <= k < i + 1 && sigs@[k].signer == s);
                        }
                    }
                }
            }
            i = i + 1;
        }
        true
    }
}

/// One signature by the one signer authorizes every head past the prologue.
pub proof fn law_single(policy: Policy, length: u64, tree_hash: [u8; 32], p: PartialSig)
    requires
        policy.quorum == 1,
        !policy.within_prologue(length),
        policy.signed(length, tree_hash, p),
    ensures
        policy.accepts(length, tree_hash, seq![p]),
{
}

/// More distinct valid signatures than the quorum are as good as the quorum: adding one
/// to an accepted set, past the prologue, keeps it accepted.
pub proof fn law_extra(
    policy: Policy,
    length: u64,
    tree_hash: [u8; 32],
    sigs: Seq<PartialSig>,
    p: PartialSig,
)
    requires
        !policy.within_prologue(length),
        policy.accepts(length, tree_hash, sigs),
        policy.signed(length, tree_hash, p),
        forall|i: int| 0 <= i < sigs.len() ==> (#[trigger] sigs[i]).signer != p.signer,
    ensures
        policy.accepts(length, tree_hash, sigs.push(p)),
{
    let more = sigs.push(p);
    assert forall|i: int| 0 <= i < more.len() implies policy.signed(
        length,
        tree_hash,
        #[trigger] more[i],
    ) by {
        if i < sigs.len() {
            assert(more[i] == sigs[i]);
        }
    }
    assert forall|i: int, j: int| 0 <= i < j < more.len() implies more[i].signer
        != more[j].signer by {
        if j == sigs.len() {
            assert(more[i] == sigs[i]);
        }
    }
}

/// A manifest without signers accepts its committed prefix, with or without signatures,
/// and no other head.
pub proof fn law_static_signer(
    prologue: Prologue,
    length: u64,
    tree_hash: [u8; 32],
    sigs: Seq<PartialSig>,
)
    ensures
        (Policy { quorum: 0, signers: Seq::empty(), prologue: Some(prologue) }).accepts(
            length,
            tree_hash,
            sigs,
        ) <==> length == prologue.length && tree_hash == prologue.hash,
{
}

proof fn lemma_signers_len(signers: Seq<Signer>)
    ensures
        signers_bytes(signers).len() == 64 * signers.len(),
    decreases signers.len(),
{
    if signers.len() > 0 {
        lemma_signers_len(signers.drop_last());
    }
}

proof fn lemma_signers_injective(a: Seq<Signer>, b: Seq<Signer>, x: Seq<u8>, y: Seq<u8>)
    requires
        a.len() == b.len(),
        signers_bytes(a) + x == signers_bytes(b) + y,
    ensures
        a == b,
        x == y,
    decreases a.len(),
{
    lemma_signers_len(a);
    lemma_signers_len(b);
    let s = signers_bytes(a);
    let t = signers_bytes(b);
    assert(s =~= (s + x).take(s.len() as int));
    assert(t =~= (t + y).take(t.len() as int));
    assert(x =~= (s + x).skip(s.len() as int));
    assert(y =~= (t + y).skip(t.len() as int));
    if a.len() == 0 {
        assert(a =~= b);
    } else {
        let p = a.drop_last();
        let q = b.drop_last();
        let u = a.last().public_key@@ + a.last().namespace@;
        let v = b.last().public_key@@ + b.last().namespace@;
        lemma_signers_injective(p, q, u, v);
        assert(a.last().public_key@@ =~= u.take(32));
        assert(b.last().public_key@@ =~= v.take(32));
        assert(a.last().namespace@ =~= u.skip(32));
        assert(b.last().namespace@ =~= v.skip(32));
        PublicKey::lemma_bytes(a.last().public_key, b.last().public_key);
        assert(a.last().namespace =~= b.last().namespace);
        assert(a =~= p.push(a.last()));
        assert(b =~= q.push(b.last()));
    }
}

proof fn lemma_prologue_injective(a: Option<Prologue>, b: Option<Prologue>)
    requires
        prologue_bytes(a) == prologue_bytes(b),
    ensures
        a == b,
{
    assert(a is Some <==> prologue_bytes(a)[0] == 1);
    assert(b is Some <==> prologue_bytes(b)[0] == 1);
    match (a, b) {
        (Some(p), Some(q)) => {
            crate::bytes::lemma_le64(p.length);
            crate::bytes::lemma_le64(q.length);
            assert(le64(p.length) =~= prologue_bytes(a).subrange(1, 9));
            assert(le64(q.length) =~= prologue_bytes(b).subrange(1, 9));
            lemma_le64_injective(p.length, q.length);
            assert(p.hash@ =~= prologue_bytes(a).skip(9));
            assert(q.hash@ =~= prologue_bytes(b).skip(9));
            assert(p.hash =~= q.hash);
        },
        _ => {},
    }
}

/// The hash is the policy's identity: two policies with one hash are one policy, where
/// BLAKE3 tells the inputs `s` apart and the two are among them.
pub proof fn law_identity(a: Policy, b: Policy, s: Set<Seq<u8>>)
    requires
        apart(s),
        s.contains(a.bytes()),
        s.contains(b.bytes()),
        a.hash() == b.hash(),
        a.signers.len() <= u64::MAX,
        b.signers.len() <= u64::MAX,
    ensures
        a == b,
{
    let x = a.bytes();
    let y = b.bytes();
    assert(digest(x) == digest(y));
    crate::bytes::lemma_le64(a.quorum as u64);
    crate::bytes::lemma_le64(b.quorum as u64);
    crate::bytes::lemma_le64(a.signers.len() as u64);
    crate::bytes::lemma_le64(b.signers.len() as u64);
    assert(le64(a.quorum as u64) =~= x.subrange(1, 9));
    assert(le64(b.quorum as u64) =~= y.subrange(1, 9));
    lemma_le64_injective(a.quorum as u64, b.quorum as u64);
    assert(le64(a.signers.len() as u64) =~= x.subrange(9, 17));
    assert(le64(b.signers.len() as u64) =~= y.subrange(9, 17));
    lemma_le64_injective(a.signers.len() as u64, b.signers.len() as u64);
    let p = prologue_bytes(a.prologue);
    let q = prologue_bytes(b.prologue);
    assert(signers_bytes(a.signers) + p =~= x.skip(17));
    assert(signers_bytes(b.signers) + q =~= y.skip(17));
    lemma_signers_injective(a.signers, b.signers, p, q);
    lemma_prologue_injective(a.prologue, b.prologue);
}

} // verus!
