use kappa_registry::kappa::KappaLabel;
use kappa_registry::store::memory::{InMemoryStore, MemoryStoreConfig};
use kappa_registry::transaction::TransactionManager;

fn test_manager() -> TransactionManager {
    TransactionManager::new(
        4,    // max 4 concurrent
        1024, // max 1 KiB per txn
        4096, // max 4 KiB global
        1,    // 1 second timeout
    )
}

fn test_store() -> InMemoryStore {
    InMemoryStore::new(MemoryStoreConfig::new("blobs".to_string()))
}

fn test_kappa(content: &[u8]) -> String {
    KappaLabel::sha256(content).as_str().to_string()
}

#[test]
fn begin_returns_unique_ids() {
    let mut mgr = test_manager();
    let id1 = mgr.begin("ns").unwrap();
    let id2 = mgr.begin("ns").unwrap();
    assert_ne!(id1, id2);
    assert_eq!(mgr.active_count(), 2);
}

#[test]
fn max_concurrent_enforced() {
    let mut mgr = test_manager();
    for _ in 0..4 {
        mgr.begin("ns").unwrap();
    }
    assert_eq!(mgr.active_count(), 4);
    let result = mgr.begin("ns");
    assert!(result.is_err(), "5th transaction should be rejected");
}

#[test]
fn per_txn_byte_limit_enforced() {
    let mut mgr = test_manager();
    let id = mgr.begin("ns").unwrap();

    let small = vec![0x41u8; 512];
    let small_k = test_kappa(&small);
    assert!(mgr.put(&id, &small_k, &small).is_ok());

    let big = vec![0x42u8; 600];
    let big_k = test_kappa(&big);
    let result = mgr.put(&id, &big_k, &big);
    assert!(result.is_err(), "should exceed per-txn limit");
}

#[test]
fn abort_frees_capacity() {
    let mut mgr = test_manager();

    let ids: Vec<String> = (0..4).map(|_| mgr.begin("ns").unwrap()).collect();
    assert!(mgr.begin("ns").is_err(), "at capacity");

    mgr.abort(&ids[0]).unwrap();
    assert_eq!(mgr.active_count(), 3);
    assert!(mgr.begin("ns").is_ok(), "slot freed by abort");
}

#[test]
fn commit_promotes_to_store() {
    let mut store = test_store();
    let mut mgr = test_manager();

    let id = mgr.begin("ns").unwrap();
    let content = b"commit-promotes";
    let k = test_kappa(content);
    mgr.put(&id, &k, content).unwrap();
    mgr.commit(&id, &mut store).unwrap();

    assert_eq!(mgr.active_count(), 0);
    assert!(store.blob_exists(&k).unwrap());
}

#[test]
fn commit_empty_transaction_succeeds() {
    let mut store = test_store();
    let mut mgr = test_manager();

    let id = mgr.begin("ns").unwrap();
    let result = mgr.commit(&id, &mut store).unwrap();
    assert!(result.promoted.is_empty());
    assert_eq!(mgr.active_count(), 0);
}

#[test]
fn digest_mismatch_rejected() {
    let mut mgr = test_manager();
    let id = mgr.begin("ns").unwrap();

    let wrong_kappa = format!("sha256:{}", "0".repeat(64));
    let result = mgr.put(&id, &wrong_kappa, b"real content");
    assert!(result.is_err(), "mismatched digest rejected");
}

#[test]
fn put_to_nonexistent_transaction_fails() {
    let mut mgr = test_manager();
    let content = b"no-txn";
    let k = test_kappa(content);
    let result = mgr.put("nonexistent-id", &k, content);
    assert!(result.is_err());
}

#[test]
fn evict_expired_removes_old_transactions() {
    let mut mgr = test_manager(); // 1 second timeout
    mgr.begin_at("old", "ns", 1_000).unwrap();
    let content = b"will-expire";
    let k = test_kappa(content);
    mgr.put("old", &k, content).unwrap();

    // Whole seconds count, and more than the timeout must have passed.
    assert_eq!(mgr.evict_expired_at(2_999), 0);
    assert_eq!(mgr.active_count(), 1);

    let evicted = mgr.evict_expired_at(3_100);
    assert_eq!(evicted, 1);
    assert_eq!(mgr.active_count(), 0);
}
