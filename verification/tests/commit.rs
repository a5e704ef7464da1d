use kappa_registry::atproto::cid::cid_for_cbor;
use kappa_registry::atproto::commit::{Commit, UnsignedCommit};

#[test]
fn unsigned_commit_deterministic() {
    let mst_root = cid_for_cbor(b"empty mst");
    let c1 = UnsignedCommit {
        did: "did:plc:test123".into(),
        version: 3,
        data: mst_root.to_vec(),
        rev: "222222222222a".into(),
        prev: None,
    };
    let c2 = UnsignedCommit {
        did: "did:plc:test123".into(),
        version: 3,
        data: mst_root.to_vec(),
        rev: "222222222222a".into(),
        prev: None,
    };
    assert_eq!(c1.to_cbor(), c2.to_cbor());
    assert_eq!(c1.cid(), c2.cid());
}

#[test]
fn signed_commit_includes_sig() {
    let mst_root = cid_for_cbor(b"mst");
    let commit = Commit {
        did: "did:plc:test".into(),
        version: 3,
        data: mst_root.to_vec(),
        rev: "222222222222a".into(),
        prev: None,
        sig: vec![1, 2, 3, 4],
    };
    let cbor = commit.to_cbor();
    // Should contain "sig" key
    assert!(cbor.windows(3).any(|w| w == b"sig"));

    let unsigned = commit.unsigned_cbor();
    // Should NOT contain "sig" key
    assert!(!unsigned.windows(3).any(|w| w == b"sig"));
}

#[test]
fn commit_with_prev() {
    let mst_root = cid_for_cbor(b"mst");
    let prev = cid_for_cbor(b"prev commit");
    let commit = UnsignedCommit {
        did: "did:plc:test".into(),
        version: 3,
        data: mst_root.to_vec(),
        rev: "222222222222a".into(),
        prev: Some(prev.to_vec()),
    };
    let cbor = commit.to_cbor();
    // Should not contain null (0xF6) for prev
    // (it contains a CID tag instead)
    assert!(cbor.len() > 50); // non-trivial encoding
}
