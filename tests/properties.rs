use htree_challenge::digest::{Digest, MalformedHash};
use htree_challenge::protocol::{accept_upload, next_root, verify_content};
use htree_challenge::tree::{HMap, Proof, Tree};

fn h(k: u8) -> Digest {
    Digest::from_bytes(*blake3::hash(&[k]).as_bytes())
}

fn pair(a: Digest, b: Digest) -> Digest {
    let joined = blake3::Hasher::new()
        .update(a.as_bytes())
        .update(b.as_bytes())
        .finalize();
    Digest::from_bytes(*joined.as_bytes())
}

fn store_of(keys: &[u8]) -> HMap<u8> {
    let mut store = HMap::new();
    for &k in keys {
        store.push(h(k), k);
    }
    store
}

#[test]
fn merge_with_empty_is_identity() {
    let x = Tree::Node {
        left: Box::new(Tree::Leaf { hash: h(3) }),
        right: Box::new(Tree::Leaf { hash: h(4) }),
    };
    assert_eq!(Tree::Empty.merge(x.clone()), x);
    assert_eq!(x.clone().merge(Tree::Empty), x);
}

#[test]
fn merge_keeps_operand_order() {
    let a = Tree::Leaf { hash: h(0) };
    let b = Tree::Leaf { hash: h(1) };
    let ab = a.clone().merge(b.clone());
    let ba = b.merge(a);
    assert_ne!(ab, ba);
    assert_ne!(ab.hash(), ba.hash());
}

#[test]
fn node_hash_streams_children() {
    let t = Tree::Node {
        left: Box::new(Tree::Leaf { hash: h(0) }),
        right: Box::new(Tree::Leaf { hash: h(1) }),
    };
    let mut joined = Vec::new();
    joined.extend_from_slice(h(0).as_bytes());
    joined.extend_from_slice(h(1).as_bytes());
    let expected = Digest::from_bytes(*blake3::hash(&joined).as_bytes());
    assert_eq!(t.hash(), expected);
    assert_eq!(t.hash(), pair(h(0), h(1)));
}

#[test]
fn single_element_store() {
    let store = store_of(&[0]);
    assert_eq!(store.root(), h(0));
    let p = store.proof_of(0).unwrap();
    assert_eq!(p, Proof { nth: 0, hashes: vec![] });
    assert_eq!(*p.prove_on(h(0)), h(0));
    assert!(p.prove_on(h(0)).against(h(0)));
}

#[test]
fn two_element_store() {
    let store = store_of(&[0, 1]);
    assert_eq!(store.proof_of(0), Some(Proof { nth: 0, hashes: vec![h(1)] }));
    assert_eq!(store.proof_of(1), Some(Proof { nth: 1, hashes: vec![h(0)] }));
    let root = store.root();
    assert_eq!(root, pair(h(0), h(1)));
    assert!(store.proof_of(0).unwrap().prove_on(h(0)).against(root));
    assert!(store.proof_of(1).unwrap().prove_on(h(1)).against(root));
}

#[test]
fn three_element_store() {
    let store = store_of(&[0, 1, 2]);
    let l = pair(h(0), h(2));
    assert_eq!(
        *store.tree(),
        Tree::Node {
            left: Box::new(Tree::Node {
                left: Box::new(Tree::Leaf { hash: h(0) }),
                right: Box::new(Tree::Leaf { hash: h(2) }),
            }),
            right: Box::new(Tree::Leaf { hash: h(1) }),
        }
    );
    assert_eq!(store.proof_of(0), Some(Proof { nth: 0, hashes: vec![h(1), h(2)] }));
    assert_eq!(store.proof_of(1), Some(Proof { nth: 1, hashes: vec![l] }));
    assert_eq!(store.proof_of(2), Some(Proof { nth: 2, hashes: vec![h(1), h(0)] }));
    let root = store.root();
    assert_eq!(root, pair(l, h(1)));
    for i in 0u8..3 {
        assert!(store.proof_of(i as usize).unwrap().prove_on(h(i)).against(root));
    }
}

#[test]
fn every_proof_verifies_against_root() {
    for n in 1u8..20 {
        let keys: Vec<u8> = (0..n).collect();
        let store = store_of(&keys);
        let root = store.root();
        for i in 0..n {
            let p = store.proof_of(i as usize).unwrap();
            assert!(p.prove_on(h(i)).against(root));
            assert!(!p.prove_on(h(i.wrapping_add(100))).against(root));
        }
    }
}

#[test]
fn push_proof_gives_new_root() {
    let mut store = HMap::new();
    for i in 0u8..9 {
        let p = store.push(h(i), i);
        assert_eq!(p.nth(), i as usize);
        assert!(p.prove_on(h(i)).against(store.root()));
    }
}

#[test]
fn push_proof_recovers_previous_root() {
    let mut store = HMap::new();
    let first = store.push(h(0), 0);
    assert_eq!(first.hash(), None);
    for i in 1u8..12 {
        let before = store.root();
        let p = store.push(h(i), i);
        assert_eq!(p.hash(), Some(before));
    }
}

#[test]
fn client_root_update_chain() {
    let mut store = HMap::new();
    let mut held: Option<Digest> = None;
    for i in 0u8..6 {
        let p = store.push(h(i), i);
        let next = next_root(&p, h(i), held);
        assert!(next.is_some());
        held = next;
    }
    let root = held.unwrap();
    assert_eq!(root, store.root());
    for i in 0u8..6 {
        let p = store.proof_of(i as usize).unwrap();
        assert!(verify_content(&p, &[i], root));
    }
}

#[test]
fn client_rejects_inconsistent_proof() {
    let mut store = HMap::new();
    let p = store.push(h(0), 0);
    assert_eq!(next_root(&p, h(0), Some(h(9))), None);
    let p = store.push(h(1), 1);
    assert_eq!(next_root(&p, h(1), None), None);
    assert_eq!(next_root(&p, h(1), Some(h(1))), None);
    assert_eq!(next_root(&p, h(1), Some(h(0))), Some(pair(h(0), h(1))));
}

#[test]
fn tampered_payload_fails() {
    let payloads: Vec<Vec<u8>> = (0u8..6).map(|i| vec![i, i, i]).collect();
    let mut store = HMap::new();
    for p in &payloads {
        store.push(Digest::of(p), p.clone());
    }
    let root = store.root();
    let (proof, mut bytes) = store.get(3).unwrap();
    assert!(verify_content(&proof, &bytes, root));
    bytes[1] ^= 1;
    assert!(!verify_content(&proof, &bytes, root));
}

#[test]
fn insertion_order_changes_root() {
    let a = store_of(&[0, 1, 2]);
    let b = store_of(&[2, 1, 0]);
    assert_ne!(a.root(), b.root());
}

#[test]
fn get_pairs_proof_with_payload() {
    let mut store = HMap::new();
    for i in 0u8..7 {
        store.push(h(i), format!("file{}", i));
    }
    for i in 0..7 {
        let (p, d) = store.get(i).unwrap();
        assert_eq!(Some(p), store.proof_of(i));
        assert_eq!(d, format!("file{}", i));
    }
}

#[test]
fn out_of_range_is_not_found() {
    let empty: HMap<u8> = HMap::new();
    assert_eq!(empty.proof_of(0), None);
    assert!(empty.get(0).is_none());
    let store = store_of(&[0, 1, 2]);
    assert_eq!(store.proof_of(3), None);
    assert!(store.get(3).is_none());
    assert!(store.get(usize::MAX).is_none());
}

#[test]
fn same_hash_twice() {
    let mut store = HMap::new();
    let p0 = store.push(h(5), 0u8);
    let p1 = store.push(h(5), 1u8);
    assert_ne!(p0, p1);
    let q0 = store.proof_of(0).unwrap();
    let q1 = store.proof_of(1).unwrap();
    assert_ne!(q0.nth(), q1.nth());
    assert_eq!(q0.hashes.last(), Some(&h(5)));
    assert_eq!(q1.hashes.last(), Some(&h(5)));
}

#[test]
fn store_rebuilt_from_parts_keeps_root() {
    let store = store_of(&[0, 1, 2, 3, 4]);
    let rebuilt = HMap::from_parts(store.data().clone(), store.tree().clone()).unwrap();
    assert_eq!(rebuilt.root(), store.root());
    assert_eq!(rebuilt.proof_of(4), store.proof_of(4));
}

#[test]
fn from_parts_rejects_wrong_shape() {
    let leaf = Tree::Leaf { hash: h(0) };
    assert!(HMap::from_parts(vec![0u8, 1u8], leaf.clone()).is_none());
    assert!(HMap::<u8>::from_parts(vec![], leaf.clone()).is_none());
    assert!(HMap::from_parts(vec![0u8], Tree::Empty).is_none());
    let lopsided = Tree::Node {
        left: Box::new(Tree::Leaf { hash: h(1) }),
        right: Box::new(Tree::Node {
            left: Box::new(Tree::Leaf { hash: h(2) }),
            right: Box::new(Tree::Leaf { hash: h(3) }),
        }),
    };
    assert!(HMap::from_parts(vec![1u8, 2u8, 3u8], lopsided).is_none());
    assert!(HMap::<u8>::from_parts(vec![], Tree::Empty).is_some());
}

#[test]
fn hex_round_trip() {
    let mut bytes = [0u8; 32];
    bytes[0] = 0x01;
    bytes[1] = 0xab;
    bytes[31] = 0xf0;
    let d = Digest::from_bytes(bytes);
    let hex = d.to_hex();
    assert_eq!(hex.len(), 64);
    assert!(hex.starts_with("01ab00"));
    assert!(hex.ends_with("00f0"));
    assert_eq!(Digest::from_hex(&hex), Ok(d));
    assert_eq!(Digest::from_hex(&hex.to_uppercase()), Ok(d));
    assert_eq!(h(7).to_hex(), blake3::hash(&[7]).to_hex().to_string());
}

#[test]
fn malformed_hex_is_rejected() {
    assert_eq!(Digest::from_hex(""), Err(MalformedHash));
    assert_eq!(Digest::from_hex(&"0".repeat(63)), Err(MalformedHash));
    assert_eq!(Digest::from_hex(&"0".repeat(65)), Err(MalformedHash));
    assert_eq!(Digest::from_hex(&"g".repeat(64)), Err(MalformedHash));
    let mut s = "0".repeat(62);
    s.push('é');
    assert_eq!(Digest::from_hex(&s), Err(MalformedHash));
}

#[test]
fn content_digest_is_blake3() {
    let d = Digest::of(b"abc");
    assert_eq!(d, Digest::from_bytes(*blake3::hash(b"abc").as_bytes()));
    assert_ne!(d, Digest::of(b"abd"));
}

#[test]
fn server_accepts_upload() {
    let mut store: HMap<String> = HMap::new();
    let hex = h(0).to_hex();
    let (p, root) = accept_upload(&mut store, &hex, String::from("a")).unwrap();
    assert_eq!(p, Proof { nth: 0, hashes: vec![] });
    assert_eq!(root, h(0));
    let hex = h(1).to_hex();
    let (p, root) = accept_upload(&mut store, &hex, String::from("b")).unwrap();
    assert_eq!(p.nth(), 1);
    assert_eq!(root, store.root());
    assert_eq!(root, pair(h(0), h(1)));
}

#[test]
fn server_rejects_malformed_upload_hash() {
    let mut store: HMap<String> = HMap::new();
    store.push(h(0), String::from("a"));
    let before = store.root();
    let r = accept_upload(&mut store, "xyz", String::from("b"));
    assert_eq!(r.map(|_| ()), Err(MalformedHash));
    assert_eq!(store.data().len(), 1);
    assert_eq!(store.root(), before);
}

#[test]
fn long_proof_does_not_panic() {
    let p = Proof { nth: usize::MAX, hashes: vec![h(0); 100] };
    let a = p.prove_on(h(1));
    let b = p.prove_on(h(2));
    assert!(!a.against(*b));
    assert!(p.hash().is_some());
}

#[test]
fn get_hash_returns_pushed_hash() {
    let store = store_of(&[4, 8, 15, 16, 23]);
    for (i, k) in [4u8, 8, 15, 16, 23].iter().enumerate() {
        assert_eq!(store.get_hash(i), Some(h(*k)));
    }
    assert_eq!(store.get_hash(5), None);
}
