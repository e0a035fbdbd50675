//! Signing policies.
use hypercore_rs::identity::{Manifest, PartialSig, Prologue, SecretKey, Sig, Signer};

fn key(b: u8) -> SecretKey {
    SecretKey::from_seed(&[b; 32])
}

#[test]
fn static_signer_authorizes_only_the_committed_prefix() {
    let tree_hash = [1u8; 32];
    let m = Manifest::static_signer(Prologue { length: 1, hash: tree_hash });

    assert!(m.verify(1, &tree_hash, &[]));

    assert!(!m.verify(2, &tree_hash, &[]));

    let mut bad = tree_hash;
    bad[0] ^= 0xff;
    assert!(!m.verify(1, &bad, &[]));
}

#[test]
fn single_signer_sign_then_verify() {
    let sk = key(1);
    let m = Manifest::single(sk.public());
    assert_eq!(m.quorum(), 1);

    let length = 1u64;
    let tree_hash = [7u8; 32];
    let ps = m.sign(&sk, length, &tree_hash).expect("declared signer");
    assert_eq!(ps.signer, 0);
    assert!(m.verify(length, &tree_hash, &[ps]));

    let mut raw = ps.sig.to_bytes();
    raw[5] ^= 0xff;
    let tampered = PartialSig { signer: 0, sig: Sig::from_bytes(&raw) };
    assert!(!m.verify(length, &tree_hash, &[tampered]));

    assert!(m.sign(&key(2), length, &tree_hash).is_none());

    let other = m.sign(&sk, length, &[8u8; 32]).unwrap();
    assert!(!m.verify(length, &tree_hash, &[other]));
}

#[test]
fn multi_signer_quorum_and_distinctness() {
    let a = key(1);
    let b = key(2);
    let m = Manifest::new(
        2,
        vec![
            Signer::with_namespace(a.public(), [2u8; 32]),
            Signer::with_namespace(b.public(), [3u8; 32]),
        ],
    )
    .expect("valid manifest");
    assert_eq!(m.quorum(), 2);

    let length = 1u64;
    let tree_hash = [1u8; 32];
    let asig = m.sign(&a, length, &tree_hash).unwrap();
    let bsig = m.sign(&b, length, &tree_hash).unwrap();
    assert_eq!(asig.signer, 0);
    assert_eq!(bsig.signer, 1);

    assert!(m.verify(length, &tree_hash, &[asig, bsig]));

    let bad = PartialSig { signer: 1, sig: asig.sig };
    assert!(!m.verify(length, &tree_hash, &[asig, bad]));

    let dup = PartialSig { signer: 0, sig: asig.sig };
    assert!(!m.verify(length, &tree_hash, &[asig, dup]));

    assert!(!m.verify(length, &tree_hash, &[asig]));

    let oob = PartialSig { signer: 9, sig: asig.sig };
    assert!(!m.verify(length, &tree_hash, &[asig, oob]));
}

#[test]
fn manifest_hash_is_content_addressed_identity() {
    let pk = key(3).public();

    let built = Manifest::new(1, vec![Signer::new(pk)]).unwrap();
    assert_eq!(Manifest::single(pk).hash(), built.hash());
    assert_eq!(Manifest::single(pk).hash(), Manifest::single(pk).hash());

    assert_ne!(Manifest::single(pk).hash(), Manifest::single(key(4).public()).hash());

    let ns_a = Manifest::new(1, vec![Signer::with_namespace(pk, [1u8; 32])]).unwrap();
    let ns_b = Manifest::new(1, vec![Signer::with_namespace(pk, [2u8; 32])]).unwrap();
    assert_ne!(ns_a.hash(), ns_b.hash());

    let q1 = Manifest::new(1, vec![Signer::new(pk), Signer::new(key(5).public())]).unwrap();
    let q2 = Manifest::new(2, vec![Signer::new(pk), Signer::new(key(5).public())]).unwrap();
    assert_ne!(q1.hash(), q2.hash());

    let sk = key(3);
    let ps = ns_a.sign(&sk, 1, &[9u8; 32]).unwrap();
    assert!(ns_a.verify(1, &[9u8; 32], &[ps]));
    assert!(!ns_b.verify(1, &[9u8; 32], &[PartialSig { signer: 0, sig: ps.sig }]));
}

#[test]
fn invalid_manifests_are_rejected() {
    let a = key(1).public();
    assert!(Manifest::new(2, vec![Signer::new(a)]).is_none());
    assert!(Manifest::new(0, vec![Signer::new(a)]).is_none());
    assert!(Manifest::new(1, Vec::new()).is_none());
    assert_eq!(Manifest::default_quorum(3), 2);
    assert_eq!(Manifest::default_quorum(4), 3);
}

#[test]
fn prologue_floor_with_signers_past_it() {
    let sk = key(1);
    let committed = [4u8; 32];
    let m = Manifest::single(sk.public()).with_prologue(Prologue { length: 2, hash: committed });

    assert!(m.verify(2, &committed, &[]));
    assert!(!m.verify(2, &[0u8; 32], &[]));
    assert!(!m.verify(1, &committed, &[]));

    let head = [5u8; 32];
    assert!(!m.verify(3, &head, &[]));
    let ps = m.sign(&sk, 3, &head).unwrap();
    assert!(m.verify(3, &head, &[ps]));
}

#[test]
fn extra_signatures_beyond_quorum_are_accepted() {
    let a = key(1);
    let b = key(2);
    let c = key(3);
    let m = Manifest::new(
        2,
        vec![Signer::new(a.public()), Signer::new(b.public()), Signer::new(c.public())],
    )
    .unwrap();
    assert_eq!(m.quorum(), 2);

    let length = 1u64;
    let h = [1u8; 32];
    let sa = m.sign(&a, length, &h).unwrap();
    let sb = m.sign(&b, length, &h).unwrap();
    let sc = m.sign(&c, length, &h).unwrap();

    assert!(m.verify(length, &h, &[sa, sb, sc]));
    assert!(m.verify(length, &h, &[sa, sc]));
    assert!(!m.verify(length, &h, &[sb]));
}
