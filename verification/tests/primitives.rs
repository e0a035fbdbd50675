//! Digests, keys and signatures, on known values.
use hypercore_rs::identity::{PublicKey, SecretKey, Sig};
use hypercore_rs::merkle::hash::hash;
use hypercore_rs::merkle::MerkleTree;

fn unhex(s: &str) -> Vec<u8> {
    (0..s.len() / 2).map(|i| u8::from_str_radix(&s[2 * i..2 * i + 2], 16).unwrap()).collect()
}

fn arr<const N: usize>(s: &str) -> [u8; N] {
    unhex(s).try_into().unwrap()
}

#[test]
fn digests_are_blake3() {
    assert_eq!(
        hash(b"").to_vec(),
        unhex("af1349b9f5f9a1a6a0404dea36dcc9499bcb25c9adc112b7cc9a93cae41f3262")
    );
    assert_eq!(
        hash(b"abc").to_vec(),
        unhex("6437b3ac38465133ffb63b75273a8db548c558465d79db03fd359c6cd5bd9d85")
    );
}

#[test]
fn keys_and_signatures_are_ed25519() {
    let seed: [u8; 32] = arr("9d61b19deffd5a60ba844af492ec2cc44449c5697b326919703bac031cae7f60");
    let key = SecretKey::from_seed(&seed);
    let public = key.public();
    assert_eq!(
        public.to_bytes().to_vec(),
        unhex("d75a980182b10ab7d54bfed3c964073a0ee172f3daa62325af021a68f707511a")
    );
    let sig = key.sign(b"");
    assert_eq!(
        sig.to_bytes().to_vec(),
        unhex(
            "e5564300c360ac729086e2cc806e828a84877f1eb8e5d974d873e065224901555fb8821590a33bacc61e39701cf9b46bd25bf5f0595bbe24655141438e7a100b"
        )
    );
    assert!(public.verify(b"", &sig));
    assert!(!public.verify(b"x", &sig));
    let mut bytes = sig.to_bytes();
    bytes[0] ^= 1;
    assert!(!public.verify(b"", &Sig::from_bytes(&bytes)));
    assert!(!SecretKey::from_seed(&[1; 32]).public().verify(b"", &sig));
}

#[test]
fn only_points_are_keys() {
    let public = SecretKey::from_seed(&[5; 32]).public();
    let again = PublicKey::from_bytes(&public.to_bytes()).unwrap();
    assert_eq!(again.to_bytes(), public.to_bytes());
    let mut no_point = [0u8; 32];
    no_point[0] = 2;
    assert!(PublicKey::from_bytes(&no_point).is_none());
}

#[test]
fn tree_hashes_are_tagged() {
    let leaf = |data: &[u8]| {
        let mut m = vec![0u8];
        m.extend_from_slice(&(data.len() as u64).to_le_bytes());
        m.extend_from_slice(data);
        *blake3::hash(&m).as_bytes()
    };
    let parent = |l: &[u8; 32], ls: u64, r: &[u8; 32], rs: u64| {
        let mut m = vec![1u8];
        m.extend_from_slice(l);
        m.extend_from_slice(&ls.to_le_bytes());
        m.extend_from_slice(r);
        m.extend_from_slice(&rs.to_le_bytes());
        *blake3::hash(&m).as_bytes()
    };
    let tree = |roots: &[(u64, u64, [u8; 32])]| {
        let mut m = vec![2u8];
        for (index, size, h) in roots {
            m.extend_from_slice(h);
            m.extend_from_slice(&index.to_le_bytes());
            m.extend_from_slice(&size.to_le_bytes());
        }
        *blake3::hash(&m).as_bytes()
    };
    let mut t = MerkleTree::new();
    assert_eq!(t.root_hash(), tree(&[]));
    t.append(b"ab");
    assert_eq!(t.root_hash(), tree(&[(0, 2, leaf(b"ab"))]));
    t.append(b"c");
    let p = parent(&leaf(b"ab"), 2, &leaf(b"c"), 1);
    assert_eq!(t.root_hash(), tree(&[(1, 3, p)]));
    t.append(b"");
    assert_eq!(t.root_hash(), tree(&[(1, 3, p), (4, 0, leaf(b""))]));
    assert_eq!(t.byte_length(), 3);
}
