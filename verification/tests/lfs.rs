#![allow(unused_mut)]

use kappa_registry::git::lfs::{process_batch, verify_object, BatchRequest, LfsObject};
use kappa_registry::kappa::kappa_from_bytes;
use kappa_registry::store::memory::{InMemoryStore, MemoryStoreConfig};

fn test_store() -> InMemoryStore {
    InMemoryStore::new(MemoryStoreConfig::new("blobs".to_string()))
}

#[test]
fn batch_download_existing() {
    let mut store = test_store();
    let content = b"lfs object content";
    let kappa = kappa_from_bytes(content);
    store.ingest_verified(&kappa, content).unwrap();
    let hex_oid = kappa.strip_prefix("sha256:").unwrap();

    let req = BatchRequest {
        operation: "download".into(),
        objects: vec![LfsObject {
            oid: hex_oid.to_string(),
            size: content.len() as u64,
        }],
        transfers: vec![],
        r_ref: None,
    };

    let resp = process_batch(&store, "http://localhost:5000", "myrepo", &req);
    assert_eq!(resp.objects.len(), 1);
    assert!(resp.objects[0].actions.is_some());
    let download = resp.objects[0].actions.as_ref().unwrap().download.as_ref().unwrap();
    assert!(download.href.contains("sha256:"));
    assert!(resp.objects[0].error.is_none());
}

#[test]
fn batch_download_missing() {
    let mut store = test_store();
    let req = BatchRequest {
        operation: "download".into(),
        objects: vec![LfsObject {
            oid: "0".repeat(64),
            size: 100,
        }],
        transfers: vec![],
        r_ref: None,
    };

    let resp = process_batch(&store, "http://localhost:5000", "myrepo", &req);
    assert_eq!(resp.objects.len(), 1);
    assert!(resp.objects[0].error.is_some());
    assert_eq!(resp.objects[0].error.as_ref().unwrap().code, 404);
}

#[test]
fn batch_upload_new() {
    let mut store = test_store();
    let req = BatchRequest {
        operation: "upload".into(),
        objects: vec![LfsObject {
            oid: "a".repeat(64),
            size: 1000,
        }],
        transfers: vec![],
        r_ref: None,
    };

    let resp = process_batch(&store, "http://localhost:5000", "myrepo", &req);
    assert_eq!(resp.objects.len(), 1);
    let actions = resp.objects[0].actions.as_ref().unwrap();
    assert!(actions.upload.is_some());
    assert!(actions.verify.is_some());
}

#[test]
fn batch_upload_existing_no_action() {
    let mut store = test_store();
    let content = b"already exists";
    let kappa = kappa_from_bytes(content);
    store.ingest_verified(&kappa, content).unwrap();
    let hex_oid = kappa.strip_prefix("sha256:").unwrap();

    let req = BatchRequest {
        operation: "upload".into(),
        objects: vec![LfsObject {
            oid: hex_oid.to_string(),
            size: content.len() as u64,
        }],
        transfers: vec![],
        r_ref: None,
    };

    let resp = process_batch(&store, "http://localhost:5000", "myrepo", &req);
    assert!(resp.objects[0].actions.is_none());
    assert!(resp.objects[0].error.is_none());
}

#[test]
fn verify_existing_correct_size() {
    let mut store = test_store();
    let content = b"verify me";
    let kappa = kappa_from_bytes(content);
    store.ingest_verified(&kappa, content).unwrap();
    let hex_oid = kappa.strip_prefix("sha256:").unwrap();

    assert!(verify_object(&store, hex_oid, content.len() as u64).is_ok());
}

#[test]
fn verify_wrong_size() {
    let mut store = test_store();
    let content = b"verify me";
    let kappa = kappa_from_bytes(content);
    store.ingest_verified(&kappa, content).unwrap();
    let hex_oid = kappa.strip_prefix("sha256:").unwrap();

    let err = verify_object(&store, hex_oid, 999).unwrap_err();
    assert_eq!(err.code, 422);
}
