#![allow(unused_mut)]

use kappa_registry::git::refs::{
    delete_ref, list_refs, resolve_ref, set_symbolic_ref, update_ref, RefError,
};
use kappa_registry::store::memory::{InMemoryStore, MemoryStoreConfig};
use kappa_registry::types::NamespaceRef;

fn test_store() -> InMemoryStore {
    InMemoryStore::new(MemoryStoreConfig::new("blobs".to_string()))
}

fn ns(name: &str) -> NamespaceRef {
    NamespaceRef::deterministic(name)
}

#[test]
fn create_and_resolve_ref() {
    let mut store = test_store();
    update_ref(&mut store, &ns("repo"), "refs/heads/main", "sha1:aaa", None).unwrap();
    let resolved = resolve_ref(&store, &ns("repo"), "refs/heads/main").unwrap();
    assert_eq!(resolved, Some("sha1:aaa".into()));
}

#[test]
fn cas_update_ref() {
    let mut store = test_store();
    update_ref(&mut store, &ns("repo"), "refs/heads/main", "sha1:aaa", None).unwrap();
    update_ref(&mut store, &ns("repo"), "refs/heads/main", "sha1:bbb", Some("sha1:aaa")).unwrap();
    let resolved = resolve_ref(&store, &ns("repo"), "refs/heads/main").unwrap();
    assert_eq!(resolved, Some("sha1:bbb".into()));
}

#[test]
fn cas_rejects_wrong_old() {
    let mut store = test_store();
    update_ref(&mut store, &ns("repo"), "refs/heads/main", "sha1:aaa", None).unwrap();
    let result = update_ref(&mut store, &ns("repo"), "refs/heads/main", "sha1:bbb", Some("sha1:wrong"));
    assert!(matches!(result, Err(RefError::UpdateRejected { .. })));
}

#[test]
fn symbolic_ref_resolution() {
    let mut store = test_store();
    update_ref(&mut store, &ns("repo"), "refs/heads/main", "sha1:aaa", None).unwrap();
    set_symbolic_ref(&mut store, &ns("repo"), "HEAD", "refs/heads/main").unwrap();
    let resolved = resolve_ref(&store, &ns("repo"), "HEAD").unwrap();
    assert_eq!(resolved, Some("sha1:aaa".into()));
}

#[test]
fn symbolic_ref_chain() {
    let mut store = test_store();
    update_ref(&mut store, &ns("repo"), "refs/heads/main", "sha1:aaa", None).unwrap();
    set_symbolic_ref(&mut store, &ns("repo"), "refs/heads/dev", "refs/heads/main").unwrap();
    set_symbolic_ref(&mut store, &ns("repo"), "HEAD", "refs/heads/dev").unwrap();
    let resolved = resolve_ref(&store, &ns("repo"), "HEAD").unwrap();
    assert_eq!(resolved, Some("sha1:aaa".into()));
}

#[test]
fn resolve_missing_returns_none() {
    let mut store = test_store();
    let resolved = resolve_ref(&store, &ns("repo"), "refs/heads/nonexistent").unwrap();
    assert!(resolved.is_none());
}

#[test]
fn list_refs_by_prefix() {
    let mut store = test_store();
    update_ref(&mut store, &ns("repo"), "refs/heads/main", "sha1:aaa", None).unwrap();
    update_ref(&mut store, &ns("repo"), "refs/heads/dev", "sha1:bbb", None).unwrap();
    update_ref(&mut store, &ns("repo"), "refs/tags/v1.0", "sha1:ccc", None).unwrap();
    let heads = list_refs(&store, &ns("repo"), "refs/heads/").unwrap();
    assert_eq!(heads.len(), 2);
    let tags = list_refs(&store, &ns("repo"), "refs/tags/").unwrap();
    assert_eq!(tags.len(), 1);
}

#[test]
fn delete_ref_removes_it() {
    let mut store = test_store();
    update_ref(&mut store, &ns("repo"), "refs/heads/main", "sha1:aaa", None).unwrap();
    delete_ref(&mut store, &ns("repo"), "refs/heads/main").unwrap();
    let resolved = resolve_ref(&store, &ns("repo"), "refs/heads/main").unwrap();
    assert!(resolved.is_none());
}
