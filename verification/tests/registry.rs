use std::io::Write;

use kappa_registry::identity::{
    assertion_from_canonical, canonical_assertion, gather_assertions, gather_tagged, log_label, publish_assertion,
    publish_revocation, publish_watermark, register_anchor, IdentityAssertion, Revocation,
    RevocationReason,
};
use kappa_registry::kappa::kappa_from_bytes;
use kappa_registry::store::compression::decompress_bytes;
use kappa_registry::store::identity::{IdentityBinding, IdentitySuccession, Watermark};
use kappa_registry::store::memory::{InMemoryStore, MemoryStoreConfig};
use kappa_registry::types::{Direction, EdgeQuery, NamespaceRef, StoreError};
use kappa_registry::verified::VerifiedContent;

fn test_store() -> InMemoryStore {
    InMemoryStore::new(MemoryStoreConfig::new("blobs".to_string()))
}

fn ns(name: &str) -> NamespaceRef {
    NamespaceRef::deterministic(name)
}

#[test]
fn content_is_verified_before_it_is_stored() {
    let mut store = test_store();
    let kappa = kappa_from_bytes(b"real");
    assert!(matches!(
        store.ingest_verified(&kappa, b"other"),
        Err(StoreError::Rejected(_))
    ));
    assert!(!store.blob_exists(&kappa).unwrap());
    let v = VerifiedContent::verify(&kappa, b"real".to_vec()).unwrap();
    assert!(store.blob_put_verified(&v).unwrap());
    assert!(!store.blob_put_verified(&v).unwrap());
    assert_eq!(store.blob_get(&kappa).unwrap(), b"real");
    assert!(VerifiedContent::verify(&kappa, b"fake".to_vec()).is_err());
}

#[test]
fn namespaces_are_named_renamed_and_deleted() {
    let mut store = test_store();
    let a = store.namespace_create("lib", "me", Some("oci")).unwrap();
    let b = store.namespace_create("lib", "me", Some("s3")).unwrap();
    assert!(!a.same(&b));
    assert!(matches!(
        store.namespace_create("lib", "me", Some("oci")),
        Err(StoreError::Conflict(_))
    ));
    assert!(store.namespace_resolve("lib", Some("oci")).unwrap().same(&a));
    assert!(matches!(store.namespace_resolve("lib", None), Err(StoreError::NotFound(_))));
    assert!(matches!(
        store.namespace_rename("lib", "new", "you", Some("oci")),
        Err(StoreError::Rejected(_))
    ));
    store.namespace_rename("lib", "new", "me", Some("oci")).unwrap();
    assert!(store.namespace_resolve("new", Some("oci")).unwrap().same(&a));
    store.namespace_add_alias(a.uuid(), "alias", "me", Some("oci")).unwrap();
    assert!(store.namespace_resolve("alias", Some("oci")).unwrap().same(&a));
    store.namespace_transfer(a.uuid(), "you", "me").unwrap();
    assert_eq!(store.namespace_info("new", Some("oci")).unwrap().owner, "you");
    assert!(store.namespace_delete("new", "me", Some("oci")).is_err());
    store.namespace_delete("new", "you", Some("oci")).unwrap();
    assert!(store.namespace_resolve("new", Some("oci")).is_err());
    assert_eq!(store.namespace_list(Some("s3")).unwrap().len(), 1);
}

#[test]
fn uploads_are_taken_in_order_and_checked() {
    let mut store = test_store();
    let id = store.upload_begin(&ns("ns"), 10, 1_000).unwrap();
    assert_eq!(id.len(), 36);
    assert_eq!(store.upload_put_part(&id, 0, b"hello", 1_000).unwrap(), 5);
    assert!(matches!(
        store.upload_put_part(&id, 9, b"x", 1_000),
        Err(StoreError::Conflict(_))
    ));
    assert!(matches!(
        store.upload_put_part(&id, 5, b"too long", 1_000),
        Err(StoreError::Rejected(_))
    ));
    assert_eq!(store.upload_put_part(&id, 5, b" you", 1_000).unwrap(), 9);
    assert_eq!(store.upload_bytes_received(&id, 1_000), Some(9));
    assert_eq!(store.upload_namespace(&id, 1_000), Some("ns".to_string()));
    let parts = store.upload_part_info(&id);
    assert_eq!(parts.len(), 2);
    assert_eq!(parts[0].1, "\"5d41402abc4b2a76b9719d911017c592\"");
    let r = store.upload_complete(&id, None, 1_000).unwrap();
    assert_eq!(r.kappa, kappa_from_bytes(b"hello you"));
    assert_eq!(store.blob_get(&r.kappa).unwrap(), b"hello you");
    assert!(matches!(
        store.upload_complete(&id, None, 1_000),
        Err(StoreError::NotFound(_))
    ));
    let other = store.upload_begin(&ns("ns"), 0, 1_000).unwrap();
    assert!(matches!(
        store.upload_complete(&other, Some(&r.kappa), 1_000),
        Err(StoreError::Rejected(_))
    ));
    store.upload_begin(&ns("ns"), 0, 1_000).unwrap();
    assert_eq!(store.upload_evict_expired(5, 2_000), 0);
    assert_eq!(store.upload_evict_expired(5, 9_000), 1);
}

#[test]
fn compressed_content_is_opened() {
    let plain = b"some text, some text, some text".to_vec();
    let mut xz = xz2::write::XzEncoder::new(Vec::new(), 6);
    xz.write_all(&plain).unwrap();
    let xz = xz.finish().unwrap();
    let mut bz = bzip2::write::BzEncoder::new(Vec::new(), bzip2::Compression::default());
    bz.write_all(&plain).unwrap();
    let bz = bz.finish().unwrap();
    let zs = zstd::encode_all(&plain[..], 3).unwrap();
    for (data, name) in [(&zs, "zstd"), (&xz, "xz"), (&bz, "bzip2")] {
        assert_eq!(decompress_bytes(data, name).unwrap(), plain);
        assert!(matches!(decompress_bytes(b"junk", name), Err(StoreError::Io(_))));
    }
    assert_eq!(decompress_bytes(b"as is", "none").unwrap(), b"as is");
    assert!(matches!(decompress_bytes(&zs, "lzma9"), Err(StoreError::Rejected(_))));

    let mut store = test_store();
    let r = store.ingest_compressed("sha256:plain", &zs, "zstd", plain.len() as u64).unwrap();
    assert_eq!(store.blob_get(&r.kappa).unwrap(), zs);
    assert_eq!(store.blob_open_compressed("sha256:plain").unwrap(), zs);
    assert_eq!(store.blob_open_decompressed("sha256:plain").unwrap(), plain);
    assert!(matches!(
        store.blob_open_decompressed("sha256:none"),
        Err(StoreError::NotFound(_))
    ));
}

#[test]
fn successions_lead_to_the_latest_anchor() {
    let mut store = test_store();
    let s = |a: &str, b: &str| IdentitySuccession {
        old_anchor: a.to_string(),
        new_anchor: b.to_string(),
        reason: "rotation".to_string(),
        effective_at_ms: 5,
    };
    store.identity_succession_put(&s("a", "b"), 1).unwrap();
    store.identity_succession_put(&s("b", "c"), 1).unwrap();
    assert_eq!(store.identity_succession_resolve("a").unwrap(), "c");
    assert_eq!(store.identity_succession_chain("a").unwrap(), vec!["a", "b", "c"]);
    assert!(matches!(
        store.identity_succession_put(&s("a", "a"), 1),
        Err(StoreError::Rejected(_))
    ));
    store.identity_succession_put(&s("c", "a"), 1).unwrap();
    assert!(matches!(
        store.identity_succession_resolve("a"),
        Err(StoreError::Rejected(_))
    ));
    let b = IdentityBinding {
        source: "alice.example".into(),
        target: "anchor".into(),
        method: "dns".into(),
        trust_level: "web".into(),
        verified_at_ms: 3,
    };
    store.identity_binding_put(&ns("x"), &b).unwrap();
    assert_eq!(store.identity_binding_get("alice.example").unwrap().len(), 1);
    assert_eq!(store.identity_binding_list_by_asserter("anchor").unwrap().len(), 1);
    store.identity_binding_delete(&ns("x"), "alice.example", "anchor").unwrap();
    assert!(store.identity_binding_get("alice.example").unwrap().is_empty());
}

#[test]
fn assertions_are_published_and_revoked() {
    let mut store = test_store();
    let me = ns("anchor-me");
    let a = IdentityAssertion {
        asserter: "anchor-me".into(),
        subject: "bob".into(),
        facet: "role".into(),
        value: b"admin".to_vec(),
        basis: "self-asserted".into(),
        valid_from_ms: 1,
        valid_until_ms: None,
        signature: vec![1, 2],
    };
    let k = publish_assertion(&mut store, &me, &a, 9).unwrap();
    let blob = canonical_assertion(&a);
    assert_eq!(k, kappa_from_bytes(&blob));
    let back = assertion_from_canonical(&blob).unwrap();
    assert_eq!((back.value, back.valid_until_ms), (b"admin".to_vec(), None));
    assert!(assertion_from_canonical(b"junk").is_none());
    assert_eq!(gather_assertions(&store, "bob"), vec![blob]);
    assert!(gather_assertions(&store, "eve").is_empty());
    assert_eq!(store.tag_get(&me, &format!("assertion/{}", k)).unwrap().kappa, k);
    assert_eq!(store.blob_get_meta(&k, "object-type").unwrap(), b"assertion");
    let edges = store
        .edge_query(
            &me,
            &EdgeQuery {
                anchor: "bob".into(),
                direction: Direction::Inbound,
                relation: None,
                asserter: None,
            },
        )
        .unwrap();
    assert_eq!(edges[0].value_kappa, Some(k.clone()));
    let epoch = store.epoch_current(&me).unwrap().unwrap();
    assert_eq!(store.epoch_get(&epoch).unwrap().epoch_number, 1);

    let r = Revocation {
        asserter: "anchor-me".into(),
        assertion_kappa: k,
        reason: RevocationReason::parse("erroneous"),
        revoked_at_ms: 10,
        signature: vec![],
    };
    assert_eq!(r.reason, RevocationReason::Erroneous);
    assert_eq!(RevocationReason::parse("whatever"), RevocationReason::Superseded);
    publish_revocation(&mut store, &me, &r, 10).unwrap();
    assert_eq!(gather_tagged(&store, &me, "revocation/").len(), 1);
    let w = Watermark {
        asserter: "anchor-me".into(),
        invalidate_before_ms: 4,
        reason: "r".into(),
        set_at_ms: 11,
    };
    publish_watermark(&mut store, &me, &w, 11).unwrap();
    assert_eq!(gather_tagged(&store, &me, "watermark/").len(), 1);
    let epoch = store.epoch_current(&me).unwrap().unwrap();
    assert_eq!(store.epoch_get(&epoch).unwrap().epoch_number, 3);
    assert_eq!(log_label("bob", "role"), "bob/role");

    let spec = register_anchor(&mut store, &me, "anchor-me", "ed25519", "00ff", "http://h").unwrap();
    assert_eq!(
        store.blob_get(&spec).unwrap(),
        b"{\"algorithm\":\"ed25519\",\"anchor\":\"anchor-me\",\"endpoint\":\"http://h\",\"public_key\":\"00ff\"}"
    );
    assert_eq!(store.tag_get(&me, "anchor/endpoint").unwrap().kappa, spec);
}
