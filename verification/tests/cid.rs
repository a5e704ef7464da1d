use kappa_registry::atproto::cid::{
    cid_digest, cid_for_cbor, cid_from_string, cid_to_string, verify_cid,
};
use sha2::{Digest, Sha256};

#[test]
fn cid_roundtrip() {
    let data = b"hello world";
    let cid = cid_for_cbor(data);
    assert_eq!(cid.len(), 36);
    assert_eq!(cid[0], 0x01); // CIDv1
    assert_eq!(cid[1], 0x71); // dag-cbor
    assert_eq!(cid[2], 0x12); // sha2-256
    assert_eq!(cid[3], 0x20); // 32 bytes
    assert!(verify_cid(&cid, data));
    assert!(!verify_cid(&cid, b"wrong data"));
}

#[test]
fn cid_string_roundtrip() {
    let data = b"test content";
    let cid = cid_for_cbor(data);
    let s = cid_to_string(&cid);
    assert!(s.starts_with('b'));
    let decoded = cid_from_string(&s).unwrap();
    assert_eq!(decoded, cid);
}

#[test]
fn cid_digest_extraction() {
    let data = b"extract me";
    let cid = cid_for_cbor(data);
    let digest = cid_digest(&cid).unwrap();
    assert_eq!(digest.len(), 32);
    let hash = Sha256::digest(data);
    assert_eq!(digest, hash.as_slice());
}

#[test]
fn deterministic() {
    let a = cid_for_cbor(b"same");
    let b = cid_for_cbor(b"same");
    assert_eq!(a, b);
}

#[test]
fn different_content_different_cid() {
    let a = cid_for_cbor(b"aaa");
    let b = cid_for_cbor(b"bbb");
    assert_ne!(a, b);
}
