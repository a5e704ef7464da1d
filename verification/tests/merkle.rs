use kappa_registry::merkle::{hash_leaf, hash_node, merkle_proof, merkle_root, merkle_verify};

#[test]
fn single_leaf() {
    let leaves: Vec<&[u8]> = vec![b"only leaf"];
    let root = merkle_root(&leaves).unwrap();
    assert_eq!(root, hash_leaf(b"only leaf"));
}

#[test]
fn two_leaves() {
    let leaves: Vec<&[u8]> = vec![b"left", b"right"];
    let root = merkle_root(&leaves).unwrap();
    let expected = hash_node(&hash_leaf(b"left"), &hash_leaf(b"right"));
    assert_eq!(root, expected);
}

#[test]
fn three_leaves_odd_promotion() {
    let leaves: Vec<&[u8]> = vec![b"a", b"b", b"c"];
    let root = merkle_root(&leaves).unwrap();
    let ab = hash_node(&hash_leaf(b"a"), &hash_leaf(b"b"));
    let cc = hash_node(&hash_leaf(b"c"), &hash_leaf(b"c"));
    let expected = hash_node(&ab, &cc);
    assert_eq!(root, expected);
}

#[test]
fn four_leaves() {
    let leaves: Vec<&[u8]> = vec![b"a", b"b", b"c", b"d"];
    let root = merkle_root(&leaves).unwrap();
    let ab = hash_node(&hash_leaf(b"a"), &hash_leaf(b"b"));
    let cd = hash_node(&hash_leaf(b"c"), &hash_leaf(b"d"));
    let expected = hash_node(&ab, &cd);
    assert_eq!(root, expected);
}

#[test]
fn empty_returns_none() {
    let leaves: Vec<&[u8]> = vec![];
    assert!(merkle_root(&leaves).is_none());
}

#[test]
fn deterministic_root() {
    let l1: Vec<&[u8]> = vec![b"x", b"y", b"z"];
    let l2: Vec<&[u8]> = vec![b"x", b"y", b"z"];
    assert_eq!(merkle_root(&l1), merkle_root(&l2));
}

#[test]
fn order_matters() {
    let l1: Vec<&[u8]> = vec![b"a", b"b"];
    let l2: Vec<&[u8]> = vec![b"b", b"a"];
    assert_ne!(merkle_root(&l1), merkle_root(&l2));
}

#[test]
fn proof_verifies_each_leaf_two() {
    let leaves: Vec<&[u8]> = vec![b"left", b"right"];
    let root = merkle_root(&leaves).unwrap();
    for i in 0..leaves.len() {
        let proof = merkle_proof(&leaves, i).unwrap();
        assert!(
            merkle_verify(&root, leaves[i], &proof),
            "proof failed for leaf {}",
            i
        );
    }
}

#[test]
fn proof_verifies_each_leaf_five() {
    let leaves: Vec<&[u8]> = vec![b"a", b"b", b"c", b"d", b"e"];
    let root = merkle_root(&leaves).unwrap();
    for i in 0..leaves.len() {
        let proof = merkle_proof(&leaves, i).unwrap();
        assert!(
            merkle_verify(&root, leaves[i], &proof),
            "proof failed for leaf {}",
            i
        );
    }
}

#[test]
fn proof_rejects_wrong_leaf() {
    let leaves: Vec<&[u8]> = vec![b"a", b"b", b"c"];
    let root = merkle_root(&leaves).unwrap();
    let proof = merkle_proof(&leaves, 0).unwrap();
    assert!(!merkle_verify(&root, b"wrong", &proof));
}

#[test]
fn proof_out_of_bounds_returns_none() {
    let leaves: Vec<&[u8]> = vec![b"a", b"b"];
    assert!(merkle_proof(&leaves, 5).is_none());
}

#[test]
fn proof_empty_returns_none() {
    let leaves: Vec<&[u8]> = vec![];
    assert!(merkle_proof(&leaves, 0).is_none());
}

#[test]
fn leaf_prefix_prevents_second_preimage() {
    // hash_leaf(data) != hash_node(data_as_32bytes, data_as_32bytes)
    // because different prefix bytes
    let data = [0u8; 32];
    let leaf = hash_leaf(&data);
    let node = hash_node(&data, &data);
    assert_ne!(leaf, node);
}
