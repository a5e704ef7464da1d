#![allow(unused_mut)]

use kappa_registry::git::envelope::{git_object_id_sha1, kappa_to_oid, wrap};
use kappa_registry::git::object::{HashKind, Kind, ObjectId};
use kappa_registry::git::provider::KappaStoreObjectProvider;
use kappa_registry::store::memory::{InMemoryStore, MemoryStoreConfig};

fn test_store() -> InMemoryStore {
    InMemoryStore::new(MemoryStoreConfig::new("blobs".to_string()))
}

#[test]
fn find_stored_blob() {
    let mut store = test_store();
    let content = b"hello";
    let envelope_bytes = wrap(Kind::Blob, content);
    let kappa = git_object_id_sha1(Kind::Blob, content).unwrap();

    store.ingest_verified(&kappa, &envelope_bytes).unwrap();

    let provider = KappaStoreObjectProvider::new(&store, HashKind::Sha1);
    let oid = kappa_to_oid(&kappa).unwrap();

    let mut buffer = Vec::new();
    let kind = provider.try_find(&oid, &mut buffer).unwrap();
    assert_eq!(kind, Some(Kind::Blob));
    assert_eq!(buffer, b"hello");
}

#[test]
fn contains_returns_true_for_stored() {
    let mut store = test_store();
    let envelope_bytes = wrap(Kind::Blob, b"exists");
    let kappa = git_object_id_sha1(Kind::Blob, b"exists").unwrap();
    store.ingest_verified(&kappa, &envelope_bytes).unwrap();

    let provider = KappaStoreObjectProvider::new(&store, HashKind::Sha1);
    let oid = kappa_to_oid(&kappa).unwrap();
    assert!(provider.contains(&oid));
}

#[test]
fn contains_returns_false_for_missing() {
    let mut store = test_store();
    let provider = KappaStoreObjectProvider::new(&store, HashKind::Sha1);
    let oid = ObjectId { kind: HashKind::Sha1, bytes: vec![0; 20] };
    assert!(!provider.contains(&oid));
}

#[test]
fn find_missing_returns_none() {
    let mut store = test_store();
    let provider = KappaStoreObjectProvider::new(&store, HashKind::Sha1);
    let oid = ObjectId { kind: HashKind::Sha1, bytes: vec![0; 20] };
    let mut buffer = Vec::new();
    let result = provider.try_find(&oid, &mut buffer).unwrap();
    assert!(result.is_none());
}

#[test]
fn multi_axis_git_object_retrievable_by_sha256() {
    let mut store = test_store();
    let content = b"multi-axis git blob";
    let envelope_bytes = wrap(Kind::Blob, content);
    let sha1_kappa =
        git_object_id_sha1(Kind::Blob, content).unwrap();

    let result = store
        .ingest_verified(&sha1_kappa, &envelope_bytes)
        .unwrap();

    assert!(!result.additional_kappas.is_empty());
    let sha256_kappa = &result.additional_kappas[0];
    assert!(sha256_kappa.starts_with("sha256:"));

    let by_sha256 = store.blob_get(sha256_kappa).unwrap();
    assert_eq!(by_sha256, envelope_bytes);
}

#[test]
fn find_large_blob_no_double_alloc() {
    let mut store = test_store();
    let content: Vec<u8> = (0..65536).map(|i| (i % 251) as u8).collect();
    let envelope_bytes = wrap(Kind::Blob, &content);
    let kappa =
        git_object_id_sha1(Kind::Blob, &content).unwrap();

    store.ingest_verified(&kappa, &envelope_bytes).unwrap();

    let provider = KappaStoreObjectProvider::new(&store, HashKind::Sha1);
    let oid = kappa_to_oid(&kappa).unwrap();

    let mut buffer = Vec::new();
    let kind = provider.try_find(&oid, &mut buffer).unwrap();
    assert_eq!(kind, Some(Kind::Blob));
    assert_eq!(buffer.len(), content.len());
    assert_eq!(buffer, content);
}
