use kappa_registry::canonical::{
    canonical_edge, canonical_mutation, canonical_tag, edge_from_canonical,
};
use kappa_registry::codec::{
    canonical_config, canonical_direction, canonical_mode, canonical_op, canonical_relation,
    canonical_update, config_from_canonical, direction_from_canonical, mutation_from_canonical,
    op_from_canonical, relation_from_canonical, tag_from_canonical,
};
use kappa_registry::types::{
    namespace_hash, ConflictResolution, Direction, Edge, EdgeRelation, EpochMutation,
    FederationConfig, FederationMode, MutationOp, TagEntry, TagUpdate,
};

#[test]
fn tag_entry_roundtrip() {
    let entry = TagEntry {
        name: "latest".into(),
        kappa: "sha256:abcdef".into(),
        version: 3,
    };
    let bytes = canonical_tag(&entry);
    let decoded = tag_from_canonical(&bytes).unwrap();
    assert_eq!(decoded.name, entry.name);
    assert_eq!(decoded.kappa, entry.kappa);
    assert_eq!(decoded.version, entry.version);
}

#[test]
fn tag_entry_deterministic() {
    let e1 = TagEntry {
        name: "v1.0".into(),
        kappa: "sha256:1234".into(),
        version: 1,
    };
    let e2 = TagEntry {
        name: "v1.0".into(),
        kappa: "sha256:1234".into(),
        version: 1,
    };
    assert_eq!(canonical_tag(&e1), canonical_tag(&e2));
}

#[test]
fn edge_roundtrip() {
    let edge = Edge {
        source: "sha256:aaa".into(),
        target: "sha256:bbb".into(),
        relation: EdgeRelation::DerivedFrom,
        asserter: "sha256:ccc".into(),
        value_kappa: Some("sha256:ddd".into()),
        metadata: None,
    };
    let bytes = canonical_edge(&edge);
    let decoded = edge_from_canonical(&bytes).unwrap();
    assert_eq!(decoded.source, edge.source);
    assert_eq!(decoded.relation, edge.relation);
}

#[test]
fn edge_relation_roundtrip() {
    for rel in [
        EdgeRelation::Owns,
        EdgeRelation::Assertion,
        EdgeRelation::DerivedFrom,
        EdgeRelation::SectionOf,
    ] {
        let bytes = canonical_relation(rel);
        let decoded = relation_from_canonical(&bytes).unwrap();
        assert_eq!(decoded, rel);
    }
}

#[test]
fn edge_relation_gc_reachable_exhaustive() {
    // Verify every variant has an explicit gc_reachable decision
    let all = [
        EdgeRelation::Owns,
        EdgeRelation::ComposedOf,
        EdgeRelation::Assertion,
        EdgeRelation::Revocation,
        EdgeRelation::Capability,
        EdgeRelation::RecoveryShare,
        EdgeRelation::EpochRoot,
        EdgeRelation::AkdTreeNode,
        EdgeRelation::ChunkManifest,
        EdgeRelation::WitnessReceipt,
        EdgeRelation::OffloadReceipt,
        EdgeRelation::DerivedFrom,
        EdgeRelation::CertifiedBy,
        EdgeRelation::EvidenceProvenance,
        EdgeRelation::SectionOf,
        EdgeRelation::RefersTo,
        EdgeRelation::Delegation,
    ];
    for rel in all {
        // Just calling gc_reachable proves the match is exhaustive
        let _ = rel.gc_reachable();
    }
}

#[test]
fn mutation_op_roundtrip() {
    let op = MutationOp::TagSet;
    let bytes = canonical_op(op);
    let decoded = op_from_canonical(&bytes).unwrap();
    assert_eq!(decoded, op);
}

#[test]
fn epoch_mutation_roundtrip() {
    let m = EpochMutation {
        op: MutationOp::AssertionPublish,
        namespace: "test/ns".into(),
        tag_name: "assertion/1".into(),
        old_kappa: None,
        new_kappa: Some("sha256:fff".into()),
    };
    let bytes = canonical_mutation(&m);
    let decoded = mutation_from_canonical(&bytes).unwrap();
    assert_eq!(decoded.op, m.op);
    assert_eq!(decoded.namespace, m.namespace);
}

#[test]
fn namespace_hash_deterministic() {
    assert_eq!(namespace_hash("test"), namespace_hash("test"));
    assert_ne!(namespace_hash("test"), namespace_hash("other"));
}

#[test]
fn direction_roundtrip() {
    let d = Direction::Inbound;
    let bytes = canonical_direction(d);
    let decoded = direction_from_canonical(&bytes).unwrap();
    assert_eq!(decoded, d);
}

#[test]
fn federation_config_roundtrip() {
    let config = FederationConfig {
        mode: FederationMode::Active,
        peers: vec!["http://peer1:8080".into(), "http://peer2:8080".into()],
        sync_interval_secs: 60,
        conflict_resolution: ConflictResolution::VersionWins,
    };
    let bytes = canonical_config(&config);
    let decoded = config_from_canonical(&bytes).unwrap();
    assert_eq!(decoded.mode, config.mode);
    assert_eq!(decoded.peers, config.peers);
    assert_eq!(decoded.sync_interval_secs, config.sync_interval_secs);
    assert_eq!(decoded.conflict_resolution, config.conflict_resolution);
}

#[test]
fn federation_config_default() {
    let config = FederationConfig::default();
    assert!(matches!(config.mode, FederationMode::Disabled));
    assert!(config.peers.is_empty());
    assert_eq!(config.sync_interval_secs, 300);
    assert!(matches!(config.conflict_resolution, ConflictResolution::Reject));
}

#[test]
fn federation_mode_deterministic() {
    let a = canonical_mode(FederationMode::Active);
    let b = canonical_mode(FederationMode::Passive);
    assert_ne!(a, b);
}

#[test]
fn tag_update_optional_version() {
    let a = TagUpdate {
        name: "t".into(),
        kappa: "k".into(),
        expected_version: None,
    };
    let b = TagUpdate {
        name: "t".into(),
        kappa: "k".into(),
        expected_version: Some(5),
    };
    assert_ne!(canonical_update(&a), canonical_update(&b));
}
