use kappa_registry::git::envelope::{
    git_object_id_sha1, kappa_to_oid, oid_to_kappa, unwrap, wrap,
};
use kappa_registry::git::object::{HashKind, Kind};

#[test]
fn wrap_blob_hello() {
    let envelope = wrap(Kind::Blob, b"hello");
    assert_eq!(&envelope, b"blob 5\0hello");
}

#[test]
fn wrap_empty_blob() {
    let envelope = wrap(Kind::Blob, b"");
    assert_eq!(&envelope, b"blob 0\0");
}

#[test]
fn unwrap_blob() {
    let (kind, content) = unwrap(b"blob 5\0hello").unwrap();
    assert_eq!(kind, Kind::Blob);
    assert_eq!(content, b"hello");
}

#[test]
fn unwrap_commit() {
    let body = b"tree abc\nauthor x\n";
    let envelope = wrap(Kind::Commit, body);
    let (kind, content) = unwrap(&envelope).unwrap();
    assert_eq!(kind, Kind::Commit);
    assert_eq!(content, body);
}

#[test]
fn unwrap_rejects_no_nul() {
    assert!(unwrap(b"blob 5hello").is_err());
}

#[test]
fn unwrap_rejects_wrong_size() {
    assert!(unwrap(b"blob 3\0hello").is_err());
}

#[test]
fn unwrap_rejects_unknown_kind() {
    assert!(unwrap(b"widget 5\0hello").is_err());
}

#[test]
fn git_object_id_sha1_hello() {
    let kappa = git_object_id_sha1(Kind::Blob, b"hello").unwrap();
    // printf 'hello' | git hash-object --stdin -t blob
    assert_eq!(kappa, "sha1:b6fc4c620b67d95f953a5c1c1230aaab5db5a1b0");
}

#[test]
fn roundtrip_wrap_unwrap() {
    for kind in [Kind::Blob, Kind::Tree, Kind::Commit, Kind::Tag] {
        let content = b"test content for roundtrip";
        let envelope = wrap(kind, content);
        let (k, c) = unwrap(&envelope).unwrap();
        assert_eq!(k, kind);
        assert_eq!(c, content);
    }
}

#[test]
fn kappa_to_oid_sha1() {
    let kappa = "sha1:ce013625030ba8dba906f756967f9e9ca394464a";
    let oid = kappa_to_oid(kappa).unwrap();
    assert_eq!(oid.kind, HashKind::Sha1);
    assert_eq!(hex::encode(&oid.bytes), "ce013625030ba8dba906f756967f9e9ca394464a");
}

#[test]
fn oid_to_kappa_roundtrip() {
    let kappa = "sha1:ce013625030ba8dba906f756967f9e9ca394464a";
    let oid = kappa_to_oid(kappa).unwrap();
    let back = oid_to_kappa(&oid).unwrap();
    assert_eq!(back, kappa);
}

#[test]
fn kappa_to_oid_rejects_blake3() {
    assert!(kappa_to_oid("blake3:abcd").is_err());
}
