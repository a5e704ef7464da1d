use kappa_registry::seams::{EpochWitness, NoOpWitness};
use kappa_registry::types::StoreError;
use kappa_registry::version::{check_version, VersionStep, STORE_FORMAT_VERSION};

#[test]
fn writes_version_on_first_use() {
    match check_version(None).unwrap() {
        VersionStep::Write(content) => {
            assert_eq!(content.trim(), STORE_FORMAT_VERSION.to_string())
        }
        VersionStep::Keep => panic!("nothing is stored yet"),
    }
}

#[test]
fn accepts_matching_version() {
    let content = match check_version(None).unwrap() {
        VersionStep::Write(content) => content,
        VersionStep::Keep => panic!("nothing is stored yet"),
    };
    assert!(matches!(check_version(Some(&content)), Ok(VersionStep::Keep)));
}

#[test]
fn rejects_mismatched_version() {
    assert!(matches!(check_version(Some("999\n")), Err(StoreError::Rejected(_))));
}

#[test]
fn rejects_corrupt_version() {
    assert!(matches!(
        check_version(Some("not-a-number\n")),
        Err(StoreError::Rejected(_))
    ));
}

#[test]
fn noop_witness_returns_receipt_with_no_timestamp() {
    let w = NoOpWitness;
    let receipt = w.witness("sha256:abc", b"root bytes").unwrap();
    assert_eq!(receipt.epoch_root_kappa, "sha256:abc");
    assert_eq!(receipt.witness_identity, "none");
    assert!(receipt.timestamp_ms.is_none());
}
