//! Logs that a quorum of signers writes.
use hypercore_rs::codec::Bytes;
use hypercore_rs::hypercore::manifest_core::{
    verify_manifest_block, ManifestCore, ManifestHead, ManifestReplica,
};
use hypercore_rs::identity::{Manifest, ManifestSigner, PartialSig, SecretKey, Sig};
use hypercore_rs::storage::MemoryStore;

fn key(b: u8) -> SecretKey {
    SecretKey::from_seed(&[b; 32])
}

#[test]
fn single_signer_core_is_the_plain_identity() {
    let sk = key(1);
    let m = Manifest::single(sk.public());
    let mut core =
        ManifestCore::<Vec<u8>, _, _>::new(m.clone(), vec![key(1)], Bytes, MemoryStore::new());

    assert_eq!(core.key(), Manifest::single(sk.public()).hash());
    assert_eq!(core.key(), m.hash());
    assert_ne!(core.key(), Manifest::single(key(2).public()).hash());

    for v in [b"a".to_vec(), b"bb".to_vec(), b"ccc".to_vec()] {
        core.append(&v).unwrap();
    }
    assert_eq!(core.len(), 3);
    assert!(core.verify_head());
    assert_eq!(core.get(1).unwrap(), Some(b"bb".to_vec()));
    assert_eq!(core.get(3).unwrap(), None);

    let head = core.head().unwrap().clone();
    for i in 0..3 {
        let enc = core.block(i).unwrap().unwrap();
        let proof = core.inclusion_proof(i).unwrap();
        assert!(verify_manifest_block(&m, &head, i, &enc, &proof));
        assert!(!verify_manifest_block(&m, &head, i, b"forged", &proof));
        let wrong = (i + 1) % 3;
        assert!(!verify_manifest_block(&m, &head, wrong, &enc, &proof));
    }
}

#[test]
fn multi_signer_quorum_authorizes_and_replicates() {
    let (a, b, c) = (key(10), key(11), key(12));
    let m = Manifest::new(
        2,
        vec![
            ManifestSigner::new(a.public()),
            ManifestSigner::new(b.public()),
            ManifestSigner::new(c.public()),
        ],
    )
    .unwrap();

    let mut core = ManifestCore::<Vec<u8>, _, _>::new(
        m.clone(),
        vec![key(10), key(11), key(12)],
        Bytes,
        MemoryStore::new(),
    );
    let blocks = [b"one".to_vec(), b"two".to_vec(), b"three".to_vec(), b"four".to_vec()];
    for v in &blocks {
        core.append(v).unwrap();
    }
    assert!(core.verify_head(), "a >=quorum head verifies");
    assert!(core.head().unwrap().sigs.len() >= m.quorum());

    let head = core.head().unwrap().clone();
    let mut rep = ManifestReplica::<Vec<u8>, _, _>::new(m.clone(), Bytes, MemoryStore::new());
    for i in 0..core.len() {
        let enc = core.block(i).unwrap().unwrap();
        let proof = core.inclusion_proof(i).unwrap();
        assert!(rep.add_block(&head, i, &enc, &proof).unwrap(), "honest block accepted");
    }
    assert_eq!(rep.len(), core.len());
    assert_eq!(rep.root_hash(), head.root);
    assert_eq!(rep.verified_head(), Some(&head));
    for (i, v) in blocks.iter().enumerate() {
        assert_eq!(rep.get(i as u64).unwrap().as_ref(), Some(v));
    }
}

#[test]
fn head_below_quorum_is_unauthorized() {
    let (a, b, c) = (key(20), key(21), key(22));
    let m = Manifest::new(
        2,
        vec![
            ManifestSigner::new(a.public()),
            ManifestSigner::new(b.public()),
            ManifestSigner::new(c.public()),
        ],
    )
    .unwrap();

    let mut core =
        ManifestCore::<Vec<u8>, _, _>::new(m.clone(), vec![key(20)], Bytes, MemoryStore::new());
    core.append(&b"x".to_vec()).unwrap();
    assert_eq!(core.head().unwrap().sigs.len(), 1);
    assert!(!core.verify_head(), "one signature does not meet quorum 2");

    let head = core.head().unwrap().clone();
    let enc = core.block(0).unwrap().unwrap();
    let proof = core.inclusion_proof(0).unwrap();
    let mut rep = ManifestReplica::<Vec<u8>, _, _>::new(m, Bytes, MemoryStore::new());
    assert!(!rep.add_block(&head, 0, &enc, &proof).unwrap());
    assert_eq!(rep.len(), 0);
}

#[test]
fn manifest_is_the_content_addressed_authority() {
    let sk = key(30);
    let m_a = Manifest::new(1, vec![ManifestSigner::with_namespace(sk.public(), [1u8; 32])]).unwrap();
    let m_b = Manifest::new(1, vec![ManifestSigner::with_namespace(sk.public(), [2u8; 32])]).unwrap();
    assert_ne!(m_a.hash(), m_b.hash(), "different policy => different identity");

    let mut core_a =
        ManifestCore::<Vec<u8>, _, _>::new(m_a.clone(), vec![key(30)], Bytes, MemoryStore::new());
    core_a.append(&b"v".to_vec()).unwrap();
    assert_ne!(core_a.key(), m_b.hash());
    assert!(core_a.verify_head());

    let head = core_a.head().unwrap().clone();
    let enc = core_a.block(0).unwrap().unwrap();
    let proof = core_a.inclusion_proof(0).unwrap();
    assert!(verify_manifest_block(&m_a, &head, 0, &enc, &proof));
    assert!(!verify_manifest_block(&m_b, &head, 0, &enc, &proof));
}

#[test]
fn forged_and_non_distinct_heads_are_rejected() {
    let (a, b, c) = (key(40), key(41), key(42));
    let m = Manifest::new(
        2,
        vec![
            ManifestSigner::new(a.public()),
            ManifestSigner::new(b.public()),
            ManifestSigner::new(c.public()),
        ],
    )
    .unwrap();
    let mut core = ManifestCore::<Vec<u8>, _, _>::new(
        m.clone(),
        vec![key(40), key(41), key(42)],
        Bytes,
        MemoryStore::new(),
    );
    core.append(&b"data".to_vec()).unwrap();
    let good = core.head().unwrap().clone();
    let enc = core.block(0).unwrap().unwrap();
    let proof = core.inclusion_proof(0).unwrap();
    assert!(verify_manifest_block(&m, &good, 0, &enc, &proof));

    let mut rep = ManifestReplica::<Vec<u8>, _, _>::new(m.clone(), Bytes, MemoryStore::new());

    let mut tampered = good.clone();
    let mut raw = tampered.sigs[0].sig.to_bytes();
    raw[7] ^= 0xff;
    tampered.sigs[0] = PartialSig { signer: tampered.sigs[0].signer, sig: Sig::from_bytes(&raw) };
    assert!(!rep.add_block(&tampered, 0, &enc, &proof).unwrap());

    let dup = ManifestHead { length: good.length, root: good.root, sigs: vec![good.sigs[0], good.sigs[0]] };
    assert!(!rep.add_block(&dup, 0, &enc, &proof).unwrap());

    let outsider = key(99);
    let forged_sig = outsider.sign(&m.signable(good.length, &good.root));
    let forged = ManifestHead {
        length: good.length,
        root: good.root,
        sigs: vec![PartialSig { signer: 0, sig: forged_sig }, good.sigs[1]],
    };
    assert!(!rep.add_block(&forged, 0, &enc, &proof).unwrap());

    assert_eq!(rep.len(), 0, "no rejected block was stored");
    assert!(rep.add_block(&good, 0, &enc, &proof).unwrap());
    assert_eq!(rep.len(), 1);
}

#[test]
fn a_key_counts_once_however_often_it_signs() {
    let signers: Vec<ManifestSigner> = (1..=3u8).map(|b| ManifestSigner::new(key(b).public())).collect();
    let m = Manifest::new(2, signers).unwrap();
    let verified = |secrets: Vec<SecretKey>| {
        let mut core =
            ManifestCore::<Vec<u8>, _, _>::new(m.clone(), secrets, Bytes, MemoryStore::new());
        core.append(&b"a".to_vec()).unwrap();
        core.verify_head()
    };
    assert!(!verified(vec![key(1), key(1), key(9)]));
    assert!(verified(vec![key(2), key(1), key(2)]));
    assert!(verified(vec![key(3), key(9), key(2), key(1)]));
    assert!(!verified(vec![]));
}
