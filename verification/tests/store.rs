#![allow(unused_mut)]

use kappa_registry::kappa::{kappa_from_bytes, Axis, KappaLabel};
use kappa_registry::store::compression::blob_put_computed;
use kappa_registry::store::memory::{InMemoryStore, MemoryStoreConfig};
use kappa_registry::types::{
    Direction, Edge, EdgeQuery, EdgeRelation, EpochMutation, MutationOp, NamespaceRef, StoreError,
    TagUpdate,
};

fn test_store() -> InMemoryStore {
    InMemoryStore::new(MemoryStoreConfig::new("blobs".to_string()))
}

fn ns(name: &str) -> NamespaceRef {
    NamespaceRef::deterministic(name)
}

// -- Blob -------------------------------------------------------------------

#[test]
fn blob_put_get_roundtrip() {
    let mut store = test_store();
    let kappa = kappa_from_bytes(b"hello world");
    assert!(store.ingest_verified(&kappa, b"hello world").unwrap().newly_stored);
    assert!(kappa.starts_with("sha256:"));
    assert_eq!(store.blob_get(&kappa).unwrap(), b"hello world");
}

#[test]
fn blob_put_idempotent() {
    let mut store = test_store();
    let kappa = kappa_from_bytes(b"same");
    assert!(store.ingest_verified(&kappa, b"same").unwrap().newly_stored);
    assert!(!store.ingest_verified(&kappa, b"same").unwrap().newly_stored);
}

#[test]
fn blob_get_not_found() {
    let mut store = test_store();
    let k = "sha256:0000000000000000000000000000000000000000000000000000000000000000";
    assert!(matches!(store.blob_get(k), Err(StoreError::NotFound(_))));
}

#[test]
fn blob_exists_and_delete() {
    let mut store = test_store();
    let kappa = kappa_from_bytes(b"exists");
    store.ingest_verified(&kappa, b"exists").unwrap();
    assert!(store.blob_exists(&kappa).unwrap());
    store.blob_delete(&kappa).unwrap();
    assert!(!store.blob_exists(&kappa).unwrap());
}

#[test]
fn blob_get_range() {
    let mut store = test_store();
    let kappa = kappa_from_bytes(b"0123456789");
    store.ingest_verified(&kappa, b"0123456789").unwrap();
    assert_eq!(store.blob_get_range(&kappa, 3, 4).unwrap(), b"3456");
}

#[test]
fn blob_get_range_past_end() {
    let mut store = test_store();
    let kappa = kappa_from_bytes(b"short");
    store.ingest_verified(&kappa, b"short").unwrap();
    assert_eq!(store.blob_get_range(&kappa, 3, 100).unwrap(), b"rt");
}

#[test]
fn blob_put_computed_convenience() {
    let mut store = test_store();
    let kappa = blob_put_computed(&mut store, b"via convenience").unwrap();
    assert!(kappa.starts_with("sha256:"));
    assert_eq!(store.blob_get(&kappa).unwrap(), b"via convenience");
}

// -- Blob metadata ----------------------------------------------------------

#[test]
fn blob_meta_put_get_roundtrip() {
    let mut store = test_store();
    let kappa = kappa_from_bytes(b"meta test");
    store.ingest_verified(&kappa, b"meta test").unwrap();
    store
        .blob_put_meta(&kappa, "content-type", b"text/plain")
        .unwrap();
    assert_eq!(
        store.blob_get_meta(&kappa, "content-type").unwrap(),
        b"text/plain"
    );
}

#[test]
fn blob_meta_not_found() {
    let mut store = test_store();
    let kappa = kappa_from_bytes(b"no meta");
    store.ingest_verified(&kappa, b"no meta").unwrap();
    assert!(matches!(
        store.blob_get_meta(&kappa, "missing"),
        Err(StoreError::NotFound(_))
    ));
}

#[test]
fn blob_meta_delete() {
    let mut store = test_store();
    let kappa = kappa_from_bytes(b"del meta");
    store.ingest_verified(&kappa, b"del meta").unwrap();
    store.blob_put_meta(&kappa, "key", b"value").unwrap();
    store.blob_delete_meta(&kappa, "key").unwrap();
    assert!(matches!(
        store.blob_get_meta(&kappa, "key"),
        Err(StoreError::NotFound(_))
    ));
}

// -- Tag --------------------------------------------------------------------

#[test]
fn tag_set_get() {
    let mut store = test_store();
    assert_eq!(store.tag_set(&ns("ns"), "latest", "sha256:aaa").unwrap(), 1);
    let e = store.tag_get(&ns("ns"), "latest").unwrap();
    assert_eq!(e.name, "latest");
    assert_eq!(e.kappa, "sha256:aaa");
    assert_eq!(e.version, 1);
}

#[test]
fn tag_version_increments() {
    let mut store = test_store();
    assert_eq!(store.tag_set(&ns("ns"), "t", "sha256:a").unwrap(), 1);
    assert_eq!(store.tag_set(&ns("ns"), "t", "sha256:b").unwrap(), 2);
    assert_eq!(store.tag_set(&ns("ns"), "t", "sha256:c").unwrap(), 3);
}

#[test]
fn tag_delete_and_not_found() {
    let mut store = test_store();
    store.tag_set(&ns("ns"), "t", "sha256:a").unwrap();
    store.tag_delete(&ns("ns"), "t").unwrap();
    assert!(matches!(
        store.tag_get(&ns("ns"), "t"),
        Err(StoreError::NotFound(_))
    ));
}

#[test]
fn tag_list_sorted() {
    let mut store = test_store();
    store.tag_set(&ns("ns"), "c", "sha256:c").unwrap();
    store.tag_set(&ns("ns"), "a", "sha256:a").unwrap();
    store.tag_set(&ns("ns"), "b", "sha256:b").unwrap();
    let list = store.tag_list(&ns("ns")).unwrap();
    let names: Vec<&str> = list.iter().map(|e| e.name.as_str()).collect();
    assert_eq!(names, vec!["a", "b", "c"]);
}

#[test]
fn tag_prefix_filters() {
    let mut store = test_store();
    store.tag_set(&ns("ns"), "v1.0", "sha256:a").unwrap();
    store.tag_set(&ns("ns"), "v1.1", "sha256:b").unwrap();
    store.tag_set(&ns("ns"), "v2.0", "sha256:c").unwrap();
    assert_eq!(store.tag_prefix(&ns("ns"), "v1.").unwrap().len(), 2);
}

#[test]
fn tag_set_batch_all_or_nothing() {
    let mut store = test_store();
    store.tag_set(&ns("ns"), "a", "sha256:1").unwrap();
    let updates = vec![
        TagUpdate {
            name: "a".into(),
            kappa: "sha256:2".into(),
            expected_version: Some(1),
        },
        TagUpdate {
            name: "b".into(),
            kappa: "sha256:3".into(),
            expected_version: Some(1),
        },
    ];
    assert!(matches!(
        store.tag_set_batch(&ns("ns"), updates.as_slice()),
        Err(StoreError::Conflict(_))
    ));
    assert_eq!(store.tag_get(&ns("ns"), "a").unwrap().kappa, "sha256:1");
}

#[test]
fn tag_set_batch_unconditional() {
    let mut store = test_store();
    let updates = vec![
        TagUpdate {
            name: "x".into(),
            kappa: "sha256:a".into(),
            expected_version: None,
        },
        TagUpdate {
            name: "y".into(),
            kappa: "sha256:b".into(),
            expected_version: None,
        },
    ];
    store.tag_set_batch(&ns("ns"), updates.as_slice()).unwrap();
    assert_eq!(store.tag_get(&ns("ns"), "x").unwrap().kappa, "sha256:a");
    assert_eq!(store.tag_get(&ns("ns"), "y").unwrap().kappa, "sha256:b");
}

// -- Edge -------------------------------------------------------------------

#[test]
fn edge_put_query_outbound() {
    let mut store = test_store();
    let edge = Edge {
        source: "sha256:src".into(),
        target: "sha256:tgt".into(),
        relation: EdgeRelation::DerivedFrom,
        asserter: "anchor-1".into(),
        value_kappa: None,
        metadata: None,
    };
    store.edge_put(&ns("ns"), &edge).unwrap();
    let results = store
        .edge_query(
            &ns("ns"),
            &EdgeQuery {
                anchor: "sha256:src".into(),
                direction: Direction::Outbound,
                relation: None,
                asserter: None,
            },
        )
        .unwrap();
    assert_eq!(results.len(), 1);
    assert_eq!(results[0].target, "sha256:tgt");
}

#[test]
fn edge_put_query_inbound() {
    let mut store = test_store();
    let edge = Edge {
        source: "sha256:src".into(),
        target: "sha256:tgt".into(),
        relation: EdgeRelation::Assertion,
        asserter: "anchor-1".into(),
        value_kappa: None,
        metadata: None,
    };
    store.edge_put(&ns("ns"), &edge).unwrap();
    let results = store
        .edge_query(
            &ns("ns"),
            &EdgeQuery {
                anchor: "sha256:tgt".into(),
                direction: Direction::Inbound,
                relation: None,
                asserter: None,
            },
        )
        .unwrap();
    assert_eq!(results.len(), 1);
    assert_eq!(results[0].source, "sha256:src");
}

#[test]
fn edge_query_filters_relation() {
    let mut store = test_store();
    store
        .edge_put(
            &ns("ns"),
            &Edge {
                source: "a".into(),
                target: "b".into(),
                relation: EdgeRelation::Owns,
                asserter: "x".into(),
                value_kappa: None,
                metadata: None,
            },
        )
        .unwrap();
    store
        .edge_put(
            &ns("ns"),
            &Edge {
                source: "a".into(),
                target: "c".into(),
                relation: EdgeRelation::DerivedFrom,
                asserter: "x".into(),
                value_kappa: None,
                metadata: None,
            },
        )
        .unwrap();
    let results = store
        .edge_query(
            &ns("ns"),
            &EdgeQuery {
                anchor: "a".into(),
                direction: Direction::Outbound,
                relation: Some(EdgeRelation::Owns),
                asserter: None,
            },
        )
        .unwrap();
    assert_eq!(results.len(), 1);
    assert_eq!(results[0].relation, EdgeRelation::Owns);
}

#[test]
fn edge_delete_cleans_indexes() {
    let mut store = test_store();
    store
        .edge_put(
            &ns("ns"),
            &Edge {
                source: "s".into(),
                target: "t".into(),
                relation: EdgeRelation::Owns,
                asserter: "a".into(),
                value_kappa: None,
                metadata: None,
            },
        )
        .unwrap();
    store
        .edge_delete(&ns("ns"), "s", "t", EdgeRelation::Owns)
        .unwrap();
    let results = store
        .edge_query(
            &ns("ns"),
            &EdgeQuery {
                anchor: "s".into(),
                direction: Direction::Outbound,
                relation: None,
                asserter: None,
            },
        )
        .unwrap();
    assert_eq!(results.len(), 0);
}

// -- Sequence ---------------------------------------------------------------

#[test]
fn sequence_monotonic() {
    let mut store = test_store();
    assert_eq!(store.sequence_current(&ns("ns"), "epoch").unwrap(), 0);
    assert_eq!(store.sequence_next(&ns("ns"), "epoch").unwrap(), 1);
    assert_eq!(store.sequence_next(&ns("ns"), "epoch").unwrap(), 2);
    assert_eq!(store.sequence_next(&ns("ns"), "epoch").unwrap(), 3);
    assert_eq!(store.sequence_current(&ns("ns"), "epoch").unwrap(), 3);
}

#[test]
fn sequence_isolated_by_namespace() {
    let mut store = test_store();
    store.sequence_next(&ns("ns1"), "seq").unwrap();
    store.sequence_next(&ns("ns1"), "seq").unwrap();
    assert_eq!(store.sequence_current(&ns("ns1"), "seq").unwrap(), 2);
    assert_eq!(store.sequence_current(&ns("ns2"), "seq").unwrap(), 0);
}

// -- Epoch ------------------------------------------------------------------

#[test]
fn epoch_advance_and_get() {
    let mut store = test_store();
    let mutations = vec![EpochMutation {
        op: MutationOp::TagSet,
        namespace: "ns".into(),
        tag_name: "t".into(),
        old_kappa: None,
        new_kappa: Some("sha256:aaa".into()),
    }];
    let kappa = store.epoch_advance(&ns("ns"), mutations).unwrap();
    assert!(kappa.starts_with("sha256:"));
    let root = store.epoch_get(&kappa).unwrap();
    assert_eq!(root.namespace, "ns");
    assert_eq!(root.epoch_number, 1);
    assert!(root.prev_root_kappa.is_none());
}

#[test]
fn epoch_chain_links() {
    let mut store = test_store();
    let k1 = store.epoch_advance(&ns("ns"), vec![]).unwrap();
    let k2 = store.epoch_advance(&ns("ns"), vec![]).unwrap();
    let r2 = store.epoch_get(&k2).unwrap();
    assert_eq!(r2.epoch_number, 2);
    assert_eq!(r2.prev_root_kappa, Some(k1));
}

#[test]
fn epoch_current_tracks_latest() {
    let mut store = test_store();
    assert!(store.epoch_current(&ns("ns")).unwrap().is_none());
    let k1 = store.epoch_advance(&ns("ns"), vec![]).unwrap();
    assert_eq!(store.epoch_current(&ns("ns")).unwrap(), Some(k1));
    let k2 = store.epoch_advance(&ns("ns"), vec![]).unwrap();
    assert_eq!(store.epoch_current(&ns("ns")).unwrap(), Some(k2));
}

// -- Namespace --------------------------------------------------------------

#[test]
fn namespace_tracked() {
    let mut store = test_store();
    assert!(!store.namespace_exists("ns", None).unwrap());
    store.tag_set(&ns("ns"), "t", "sha256:a").unwrap();
    assert!(store.namespace_exists("ns", None).unwrap());
    assert!(store
        .namespace_list(None)
        .unwrap()
        .iter()
        .any(|r| r.aliases.contains(&"ns".to_string())));
}

// -- Multi-axis ingest --------------------------------------------------------

#[test]
fn ingest_verified_sha1_produces_sha256_additional() {
    let mut store = test_store();
    let content = b"multi-axis test content";
    let sha1_label = KappaLabel::sha1(content).unwrap();
    let sha1_kappa = sha1_label.as_str();
    let sha256_label = KappaLabel::sha256(content);
    let sha256_kappa = sha256_label.as_str();

    let result = store.ingest_verified(sha1_kappa, content).unwrap();
    assert!(result.newly_stored);
    assert_eq!(result.kappa, sha1_kappa);
    assert_eq!(result.additional_kappas.len(), 1);
    assert_eq!(result.additional_kappas[0], sha256_kappa);

    // Content retrievable by both addresses
    assert_eq!(store.blob_get(sha1_kappa).unwrap(), content);
    assert_eq!(store.blob_get(sha256_kappa).unwrap(), content);
}

#[test]
fn ingest_verified_sha256_no_additional() {
    let mut store = test_store();
    let content = b"sha256 is the mandatory axis";
    let sha256_kappa = kappa_from_bytes(content);

    let result = store.ingest_verified(&sha256_kappa, content).unwrap();
    assert!(result.newly_stored);
    assert!(
        result.additional_kappas.is_empty(),
        "sha256 IS the mandatory axis, no extra computation"
    );
}

#[test]
fn ingest_compute_blake3_produces_sha256_additional() {
    let mut store = test_store();
    let content = b"blake3 ingest compute";
    let blake3_label = KappaLabel::blake3(content);
    let sha256_label = KappaLabel::sha256(content);

    let result = store.ingest_compute(Axis::Blake3, content).unwrap();
    assert_eq!(result.kappa, blake3_label.as_str());
    assert_eq!(result.additional_kappas.len(), 1);
    assert_eq!(result.additional_kappas[0], sha256_label.as_str());

    // Both addresses resolve to the same content
    assert_eq!(store.blob_get(blake3_label.as_str()).unwrap(), content);
    assert_eq!(store.blob_get(sha256_label.as_str()).unwrap(), content);
}

#[test]
fn ingest_compute_sha256_no_additional() {
    let mut store = test_store();
    let content = b"sha256 compute no extra";

    let result = store.ingest_compute(Axis::Sha256, content).unwrap();
    assert!(result.additional_kappas.is_empty());
}

#[test]
fn multi_axis_idempotent() {
    let mut store = test_store();
    let content = b"idempotent multi-axis";
    let sha1_label = KappaLabel::sha1(content).unwrap();

    let r1 = store.ingest_verified(sha1_label.as_str(), content).unwrap();
    assert!(r1.newly_stored);
    let r2 = store.ingest_verified(sha1_label.as_str(), content).unwrap();
    assert!(!r2.newly_stored);
    assert_eq!(r1.additional_kappas, r2.additional_kappas);
}

#[test]
fn refused_uploads_say_why() {
    let mut store = InMemoryStore::new(MemoryStoreConfig::new("blobs".to_string()));
    let ns = NamespaceRef::deterministic("u");
    let id = store.upload_begin(&ns, 3, 0).unwrap();
    let out = store.upload_put_part(&id, 0, b"four", 0);
    assert!(matches!(out, Err(StoreError::Rejected(m)) if m == "upload exceeds max size 3"));
    store.upload_put_part(&id, 0, b"abc", 0).unwrap();
    let out = store.upload_complete(&id, Some("md9:00"), 0);
    assert!(matches!(out, Err(StoreError::Rejected(m)) if m == "unknown axis: md9"));
    let out = store.upload_complete(&id, None, 0);
    assert!(matches!(out, Err(StoreError::NotFound(m)) if m == format!("upload {id}")));
    let id = store.upload_begin(&ns, 0, 0).unwrap();
    store.upload_put_part(&id, 0, b"abc", 0).unwrap();
    let have = kappa_registry::kappa::kappa_from_bytes(b"abc");
    let want = kappa_registry::kappa::kappa_from_bytes(b"abd");
    let out = store.upload_complete(&id, Some(&want), 0);
    let text = format!("digest mismatch: expected {want}, computed {have}");
    assert!(matches!(out, Err(StoreError::Rejected(m)) if m == text));
}
