use kappa_registry::atproto::requests::{
    apply_writes_body, create_account_body, create_record_body, create_session_body,
    delete_record_body, put_record_body, AccountRefusal, SignInRefusal,
};
use kappa_registry::atproto::chain::seal_commit;
use kappa_registry::atproto::cid::cid_for_cbor;
use kappa_registry::atproto::repo::{get_record, latest_commit};
use kappa_registry::atproto::session::{SessionError, SessionStore};
use kappa_registry::body::{read_text, read_texts, BodyError, Denied};
use kappa_registry::canonical::edge_from_canonical;
use kappa_registry::codec::relation_from_canonical;
use kappa_registry::distribution::bundle::BundleError;
use kappa_registry::distribution::compose::{compose, ComposeError};
use kappa_registry::distribution::edge::{query_edges, EdgeRefusal};
use kappa_registry::distribution::reconcile::{items_in_range, FingerprintReply};
use kappa_registry::distribution::requests::{
    cascade_body, compose_body, edge_diff_body, gather_body, ingest_bundle_body, pin_body,
    put_edge_body, reconcile_body, unpin_body, ReconcileRefusal,
};
use kappa_registry::identity::{
    canonical_assertion, canonical_revocation, key_anchor, signable_assertion, Revocation,
    RevocationReason,
};
use kappa_registry::identity_requests::{
    anchor_body, publish_request, read_assertion, revoke_body, watermark_body, AnchorRefusal,
    AssertionFault,
};
use kappa_registry::kappa::kappa_from_bytes;
use kappa_registry::nesting::shallow;
use kappa_registry::store::compression::blob_put_computed;
use kappa_registry::resolution::{gather_identity, keep_trusted, resolve_subject};
use kappa_registry::store::identity::IdentitySuccession;
use kappa_registry::store::memory::{InMemoryStore, MemoryStoreConfig};
use kappa_registry::types::{NamespaceRef, StoreError};

fn test_store() -> InMemoryStore {
    InMemoryStore::new(MemoryStoreConfig::new("blobs".to_string()))
}

fn ns() -> NamespaceRef {
    NamespaceRef::deterministic("ns")
}

fn put(store: &mut InMemoryStore, content: &[u8]) -> String {
    blob_put_computed(store, content).unwrap()
}

// -- Parts of a body ----------------------------------------------------------

#[test]
fn parts_of_a_body_are_read() {
    let body = br#"{"a": "x", "n": 7, "l": ["p", 3, "q", null]}"#;
    assert_eq!(read_text(body, "a").unwrap(), Some("x".to_string()));
    assert_eq!(read_text(body, "n").unwrap(), None);
    assert_eq!(read_text(body, "none").unwrap(), None);
    assert_eq!(read_texts(body, "l").unwrap(), vec!["p", "q"]);
    assert!(read_texts(body, "a").unwrap().is_empty());
    assert!(matches!(read_texts(b"{", "l"), Err(BodyError::NotJson)));
    assert_eq!(BodyError::NotJson.message(), "invalid JSON");
    assert_eq!(BodyError::Missing("kappa".to_string()).message(), "missing kappa");
}

#[test]
fn deep_nesting_is_refused() {
    assert!(shallow(&[0x01]));
    assert!(shallow(&[0x81, 0x81, 0x01]));
    assert!(!shallow(&[]));
    assert!(!shallow(&[0x81]));
    let mut sixteen = vec![0x81u8; 16];
    sixteen.push(0x01);
    assert!(shallow(&sixteen));
    let mut more = vec![0x81u8; 17];
    more.push(0x01);
    assert!(!shallow(&more));
    let deep = vec![0x81u8; 4_000_000];
    assert!(edge_from_canonical(&deep).is_none());
    assert!(relation_from_canonical(&deep).is_none());
}

// -- The registry's own protocol ----------------------------------------------

#[test]
fn composition_takes_its_operands_from_the_body() {
    let mut store = test_store();
    let a = put(&mut store, b"a");
    let b = put(&mut store, b"b");
    let body = format!(r#"{{"operands": ["{a}", 4, "{b}"]}}"#);
    let got = compose_body(&mut store, &ns(), "g2", body.as_bytes(), "me").unwrap();
    let mut other = test_store();
    let a2 = put(&mut other, b"a");
    let b2 = put(&mut other, b"b");
    let want = compose(&mut other, &ns(), "g2", &[a2, b2], "me").unwrap();
    assert_eq!((got.composed, got.witness), (want.composed, want.witness));
    let bad = compose_body(&mut store, &ns(), "g2", b"no", "me").unwrap_err();
    assert!(matches!(bad, ComposeError::NotJson));
    assert_eq!((bad.status(), bad.code(), bad.message("g2").as_str()), (400, None, "invalid JSON"));
    let none = compose_body(&mut store, &ns(), "g2", b"{}", "me").unwrap_err();
    assert_eq!(none.message("g2"), "no operands");
    assert_eq!(ComposeError::AxisMismatch.status(), 422);
    assert_eq!(ComposeError::AxisMismatch.code(), Some("AXIS_MISMATCH"));
    assert_eq!(ComposeError::WrongCount(2).message("g2"), "g2 requires 2 operands");
    assert_eq!(ComposeError::WrongCount(1).message("f4"), "f4 requires 1 operand");
}

#[test]
fn edges_are_put_by_a_body() {
    let mut store = test_store();
    let a = put(&mut store, b"a");
    let body = format!(
        r#"{{"source": "{a}", "relation": "refers-to", "target": "t", "metadata": {{"k": 1}}}}"#
    );
    put_edge_body(&mut store, &ns(), body.as_bytes(), "me").unwrap();
    let edges = query_edges(&store, &ns(), &a, "outbound", None, None);
    assert_eq!(edges.len(), 1);
    assert_eq!(edges[0].metadata.as_deref(), Some(&br#"{"k":1}"#[..]));
    // Another value for the same relationship takes the place of the first.
    let again = body.replace("1}}", "2}}");
    put_edge_body(&mut store, &ns(), again.as_bytes(), "me").unwrap();
    for (anchor, direction) in [(a.as_str(), "outbound"), ("t", "inbound")] {
        let edges = query_edges(&store, &ns(), anchor, direction, None, None);
        assert_eq!(edges.len(), 1);
        assert_eq!(edges[0].metadata.as_deref(), Some(&br#"{"k":2}"#[..]));
    }
    let out = put_edge_body(&mut store, &ns(), br#"{"source": "x"}"#, "me");
    assert!(matches!(out, Err(Denied::Body(BodyError::Missing(k))) if k == "relation"));
    let unknown = br#"{"source": "x", "relation": "r", "target": "t"}"#;
    let out = put_edge_body(&mut store, &ns(), unknown, "me");
    assert!(matches!(out, Err(Denied::Refused(EdgeRefusal::UnknownRelation(r))) if r == "r"));

    let want = format!(r#"{{"want": ["{a}"], "have": ["t"]}}"#);
    assert_eq!(edge_diff_body(&store, &ns(), want.as_bytes()).unwrap(), vec![a]);
    assert!(matches!(edge_diff_body(&store, &ns(), b""), Err(BodyError::NotJson)));
}

#[test]
fn pins_and_cascades_are_asked_for_by_a_body() {
    let mut store = test_store();
    let a = put(&mut store, b"a");
    let body = format!(r#"{{"kappa": "{a}", "ttl": 5, "controller": "c"}}"#);
    let pk = pin_body(&mut store, &ns(), body.as_bytes()).unwrap();
    let pin = store.blob_get(&pk).unwrap();
    assert_eq!(read_text(&pin, "kappa").unwrap(), Some(a.clone()));
    assert!(matches!(
        pin_body(&mut store, &ns(), b"{}"),
        Err(Denied::Body(BodyError::Missing(k))) if k == "kappa"
    ));
    let away = format!(r#"{{"pin_kappa": "{pk}"}}"#);
    assert!(matches!(
        unpin_body(&mut store, &ns(), away.as_bytes()),
        Err(Denied::Refused(StoreError::Conflict(c))) if c == "c"
    ));
    let release = format!(r#"{{"pin_kappa": "{pk}", "release": "true"}}"#);
    unpin_body(&mut store, &ns(), release.as_bytes()).unwrap();
    unpin_body(&mut store, &ns(), away.as_bytes()).unwrap();

    let roots = format!(r#"{{"roots": ["{a}"]}}"#);
    let report = cascade_body(&mut store, &ns(), roots.as_bytes()).unwrap();
    assert_eq!(report.deleted, 1);
    assert!(store.blob_get(&a).is_err());
    assert!(matches!(
        cascade_body(&mut store, &ns(), b"{}"),
        Err(Denied::Refused(m)) if m == "empty roots list"
    ));
}

#[test]
fn bundles_go_out_and_come_in_by_a_body() {
    let mut store = test_store();
    let a = put(&mut store, b"a");
    let body = format!(r#"{{"kappas": ["{a}"]}}"#);
    let entries = gather_body(&store, body.as_bytes()).unwrap();
    assert_eq!(entries[0].content, b"a");
    assert!(matches!(gather_body(&store, b"{}"), Err(Denied::Refused(BundleError::Empty))));

    let mut other = test_store();
    let wire = format!(r#"{{"entries": [{{"kappa": "{a}", "content": "61"}}]}}"#);
    assert_eq!(ingest_bundle_body(&mut other, wire.as_bytes()).unwrap(), vec![a.clone()]);
    assert_eq!(other.blob_get(&a).unwrap(), b"a");
    let wrong = format!(r#"{{"entries": [{{"kappa": "{a}", "content": "62"}}]}}"#);
    assert!(matches!(
        ingest_bundle_body(&mut other, wrong.as_bytes()),
        Err(Denied::Refused(BundleError::Mismatch(0)))
    ));
    let not_hex = format!(r#"{{"entries": [{{"kappa": "{a}", "content": "zz"}}]}}"#);
    assert!(matches!(
        ingest_bundle_body(&mut other, not_hex.as_bytes()),
        Err(Denied::Body(BodyError::Missing(_)))
    ));
}

#[test]
fn messages_of_a_reconciliation_are_answered() {
    let mut store = test_store();
    for i in 0..40 {
        store.tag_set(&ns(), &format!("t{i:02}"), &format!("k{i:02}")).unwrap();
    }
    let body = br#"{"type": "items_request", "lower": "t00", "upper": "t02"}"#;
    let r = reconcile_body(&store, &ns(), body).unwrap();
    assert!(matches!(r.reply, FingerprintReply::Items(v) if v == vec!["k00", "k01"]));
    let body = br#"{"type": "items", "lower": "t00", "upper": "t02", "items": ["k00"]}"#;
    let r = reconcile_body(&store, &ns(), body).unwrap();
    assert!(matches!(r.reply, FingerprintReply::Items(v) if v == vec!["k01"]));
    let body = br#"{"type": "fingerprint", "lower": "t", "upper": "u", "fingerprint": "00"}"#;
    let r = reconcile_body(&store, &ns(), body).unwrap();
    assert_eq!((r.lower.as_str(), r.upper.as_str()), ("t", "u"));
    let FingerprintReply::Subdivide(parts) = r.reply else { panic!("not subdivided") };
    // The range of each part holds its items, and the parts hold them all.
    let mut all = Vec::new();
    for p in &parts {
        let items = items_in_range(&store, &ns(), &p.lower, &p.upper);
        assert_eq!(items.len(), p.count);
        let digest = blake3::hash(items.join(",").as_bytes());
        assert_eq!(p.fingerprint, hex::encode(digest.as_bytes()));
        all.extend(items);
    }
    assert_eq!(all, items_in_range(&store, &ns(), "t", "u"));

    assert!(matches!(
        reconcile_body(&store, &ns(), b"{}"),
        Err(Denied::Body(BodyError::Missing(k))) if k == "type field"
    ));
    assert!(matches!(
        reconcile_body(&store, &ns(), br#"{"type": "x"}"#),
        Err(Denied::Refused(ReconcileRefusal::UnknownType(k))) if k == "x"
    ));
    let body = br#"{"type": "fingerprint", "lower": "t", "upper": "u", "fingerprint": "zz"}"#;
    assert!(matches!(
        reconcile_body(&store, &ns(), body),
        Err(Denied::Refused(ReconcileRefusal::BadFingerprint))
    ));
}

// -- Repositories -------------------------------------------------------------

#[test]
fn every_write_is_followed_by_a_commit() {
    let mut store = test_store();
    let account = br#"{"handle": "h", "password": "p", "did": "did:plc:x"}"#;
    let made = create_account_body(&mut store, account).unwrap();
    assert_eq!((made.did.as_str(), made.handle.as_str()), ("did:plc:x", "h"));

    let body = br#"{"repo": "did:plc:x", "collection": "c", "rkey": "r", "record": {"v": 1}}"#;
    let (w, due) = put_record_body(&mut store, body, "rev1").unwrap();
    assert_eq!(w.uri, "at://did:plc:x/c/r");
    assert_eq!(get_record(&store, "did:plc:x", "c", "r").unwrap().data, br#"{"v":1}"#);
    let (repo, first) = due.unwrap();
    assert!(first.prev.is_some());
    let sealed = seal_commit(&mut store, &repo, &first, b"sig").unwrap();
    assert_eq!(latest_commit(&store, "did:plc:x").unwrap(), (sealed.clone(), "rev1".to_string()));

    // The next commit has another root, and the one before as its predecessor.
    let body = br#"{"repo": "did:plc:x", "collection": "c", "record": {"v": 2}}"#;
    let (_, due) = create_record_body(&mut store, body, "rev2").unwrap();
    let (_, second) = due.unwrap();
    assert_ne!(second.data, first.data);
    let head = store.blob_get(&sealed).unwrap();
    assert_eq!(second.prev.as_deref(), Some(&cid_for_cbor(&head)[..]));

    let body = br#"{"repo": "did:plc:x", "collection": "c", "rkey": "r"}"#;
    let due = delete_record_body(&mut store, body, "rev3").unwrap().unwrap();
    assert_ne!(due.unwrap().1.data, second.data);
    assert!(get_record(&store, "did:plc:x", "c", "r").is_none());
    let nowhere = br#"{"repo": "did:plc:y", "collection": "c", "rkey": "r"}"#;
    assert!(delete_record_body(&mut store, nowhere, "rev4").unwrap().is_none());

    let body = br#"{"repo": "did:plc:x", "writes": [
        {"$type": "com.atproto.repo.applyWrites#create", "collection": "c", "rkey": "s", "value": 5},
        {"action": "update", "collection": "c", "rkey": "s", "record": 6}]}"#;
    assert!(apply_writes_body(&mut store, body, "rev5").unwrap().is_some());
    assert_eq!(get_record(&store, "did:plc:x", "c", "s").unwrap().data, b"6");
    let body = br#"{"repo": "did:plc:x", "writes": [{"action": "burn"}]}"#;
    assert!(matches!(
        apply_writes_body(&mut store, body, "rev6"),
        Err(Denied::Refused(m)) if m == "unknown write action: burn"
    ));
    assert!(matches!(
        apply_writes_body(&mut store, br#"{"repo": "did:plc:x"}"#, "rev7"),
        Err(Denied::Body(BodyError::Missing(k))) if k == "writes array"
    ));
    assert!(matches!(
        put_record_body(&mut store, br#"{"repo": "r", "collection": "c"}"#, "rev8"),
        Err(Denied::Body(BodyError::Missing(k))) if k == "rkey"
    ));
}

#[test]
fn sessions_and_accounts_need_both_parts() {
    let mut sessions = SessionStore::new();
    sessions.register_credentials("did:plc:x", "p");
    let body = br#"{"identifier": "did:plc:x", "password": "p", "dpopJkt": "j"}"#;
    let s = create_session_body(&mut sessions, body).unwrap();
    assert_eq!((s.did.as_str(), s.dpop_jkt.as_str()), ("did:plc:x", "j"));
    assert!(matches!(
        create_session_body(&mut sessions, br#"{"identifier": "x"}"#),
        Err(Denied::Refused(SignInRefusal::Incomplete))
    ));
    assert!(matches!(
        create_session_body(&mut sessions, br#"{"identifier": "x", "password": "y"}"#),
        Err(Denied::Refused(SignInRefusal::Session(SessionError::AuthenticationRequired)))
    ));
    let mut store = test_store();
    assert!(matches!(
        create_account_body(&mut store, br#"{"handle": "h"}"#),
        Err(Denied::Refused(AccountRefusal::Incomplete))
    ));
    assert!(matches!(create_account_body(&mut store, b"x"), Err(Denied::Body(BodyError::NotJson))));
}

// -- Identity -----------------------------------------------------------------

#[test]
fn identity_requests_are_read() {
    let body = br#"{"algorithm": "ed25519", "public_key": "0a", "subject": "s", "facet": "f",
        "value": "0b0c", "signature": "0d", "valid_until_ms": 9}"#;
    let r = read_assertion(body).unwrap();
    assert_eq!((r.algorithm.as_str(), r.public_key), ("ed25519", vec![10]));
    assert_eq!(r.assertion.value, vec![11, 12]);
    assert_eq!(r.assertion.signature, vec![13]);
    assert_eq!(r.assertion.basis, "self-asserted");
    assert_eq!((r.assertion.valid_from_ms, r.assertion.valid_until_ms), (0, Some(9)));
    assert_eq!((r.assertion.asserter.as_str(), r.audience), ("", None));
    let signed = signable_assertion(&r.assertion);
    assert_ne!(signed, canonical_assertion(&r.assertion));
    let other = read_assertion(&String::from_utf8(body.to_vec()).unwrap().replace("0d", "0e").into_bytes());
    assert_eq!(signable_assertion(&other.unwrap().assertion), signed);
    let plain = String::from_utf8(body.to_vec()).unwrap().replace("0b0c", "word");
    assert_eq!(read_assertion(plain.as_bytes()).unwrap().assertion.value, b"word");
    let bad = String::from_utf8(body.to_vec()).unwrap().replace("\"0a\"", "\"zz\"");
    assert!(matches!(
        read_assertion(bad.as_bytes()),
        Err(AssertionFault::NotHex(k)) if k == "public_key"
    ));
    assert!(matches!(
        read_assertion(b"{}"),
        Err(AssertionFault::Body(BodyError::Missing(k))) if k == "algorithm"
    ));

    let mut store = test_store();
    let body = br#"{"asserter": "a", "assertion_kappa": "k", "reason": "erroneous",
        "revoked_at_ms": 3, "signature": "nothex"}"#;
    let want = Revocation {
        asserter: "a".to_string(),
        assertion_kappa: "k".to_string(),
        reason: RevocationReason::Erroneous,
        revoked_at_ms: 3,
        signature: Vec::new(),
    };
    let kappa = revoke_body(&mut store, body, 7).unwrap();
    assert_eq!(kappa, kappa_from_bytes(&canonical_revocation(&want)));
    let ns = NamespaceRef::deterministic("a");
    assert_eq!(store.tag_get(&ns, &format!("revocation/{kappa}")).unwrap().kappa, kappa);

    let body = br#"{"asserter": "a", "invalidate_before_ms": 5}"#;
    let kappa = watermark_body(&mut store, body, 7).unwrap();
    assert_eq!(store.tag_get(&ns, &format!("watermark/{kappa}")).unwrap().kappa, kappa);
    assert!(matches!(
        watermark_body(&mut store, br#"{"asserter": "a"}"#, 7),
        Err(Denied::Body(BodyError::Missing(k))) if k == "invalidate_before_ms"
    ));

    // The anchor is the digest of the CBOR byte string of algorithm and key.
    let anchor = kappa_from_bytes(b"\x48ed25519\x0a");
    assert_eq!(key_anchor("ed25519", &[10]), anchor);
    let body = br#"{"algorithm": "ed25519", "public_key": "0a", "endpoint": "e"}"#;
    assert_eq!(anchor_body(&mut store, body).unwrap(), anchor);
    let home = NamespaceRef::deterministic(&anchor);
    let spec = store.tag_get(&home, "anchor/endpoint").unwrap().kappa;
    assert_eq!(read_text(&store.blob_get(&spec).unwrap(), "anchor").unwrap(), Some(anchor));
    let bad = br#"{"algorithm": "ed25519", "public_key": "z"}"#;
    assert!(matches!(anchor_body(&mut store, bad), Err(Denied::Refused(AnchorRefusal::BadKey))));
}

fn claim(store: &mut InMemoryStore, key: &str, facet: &str, from: u64, until: Option<u64>) -> String {
    let end = match until {
        Some(t) => format!(r#", "valid_until_ms": {t}"#),
        None => String::new(),
    };
    let body = format!(
        r#"{{"algorithm": "ed25519", "public_key": "{key}", "subject": "bob", "facet": "{facet}",
        "value": "01", "signature": "02", "valid_from_ms": {from}{end}}}"#
    );
    let request = read_assertion(body.as_bytes()).unwrap();
    publish_request(store, request, 1).unwrap()
}

fn counts(store: &InMemoryStore, at_ms: Option<u64>) -> (usize, usize, usize, usize) {
    let r = resolve_subject(&gather_identity(store, "bob"), at_ms);
    (r.valid.len(), r.revoked.len(), r.watermarked.len(), r.untimely.len())
}

#[test]
fn revocations_watermarks_and_time_decide_what_is_valid() {
    let mut store = test_store();
    let me = key_anchor("ed25519", &[1]);
    let first = claim(&mut store, "01", "a", 10, Some(20));
    claim(&mut store, "01", "b", 30, None);
    claim(&mut store, "02", "a", 10, None);
    assert_eq!(counts(&store, None), (3, 0, 0, 0));
    assert!(gather_identity(&store, "eve").assertions.is_empty());
    let r = resolve_subject(&gather_identity(&store, "bob"), None);
    assert_eq!(r.valid.iter().filter(|a| a.asserter == me).count(), 2);

    let verdicts: Vec<bool> = r.valid.iter().map(|a| a.asserter == me).collect();
    let kept = keep_trusted(&r.valid, &verdicts);
    assert_eq!(kept.len(), 2);
    assert!(kept.iter().all(|a| a.asserter == me));

    // At a time: from the beginning to the end, both with it.
    assert_eq!(counts(&store, Some(9)), (0, 0, 0, 3));
    assert_eq!(counts(&store, Some(10)), (2, 0, 0, 1));
    assert_eq!(counts(&store, Some(20)), (2, 0, 0, 1));
    assert_eq!(counts(&store, Some(21)), (1, 0, 0, 2));
    assert_eq!(counts(&store, Some(30)), (2, 0, 0, 1));

    // Only the asserter can take an assertion back.
    let other = format!(r#"{{"asserter": "someone", "assertion_kappa": "{first}"}}"#);
    revoke_body(&mut store, other.as_bytes(), 2).unwrap();
    assert_eq!(counts(&store, None), (3, 0, 0, 0));
    let own = format!(r#"{{"asserter": "{me}", "assertion_kappa": "{first}"}}"#);
    revoke_body(&mut store, own.as_bytes(), 3).unwrap();
    assert_eq!(counts(&store, None), (2, 1, 0, 0));

    // A watermark voids what holds from before it, and only of its asserter.
    let mark = format!(r#"{{"asserter": "{me}", "invalidate_before_ms": 30}}"#);
    watermark_body(&mut store, mark.as_bytes(), 4).unwrap();
    assert_eq!(counts(&store, None), (2, 1, 0, 0));
    let mark = format!(r#"{{"asserter": "{me}", "invalidate_before_ms": 31}}"#);
    watermark_body(&mut store, mark.as_bytes(), 5).unwrap();
    assert_eq!(counts(&store, None), (1, 1, 1, 0));
}

#[test]
fn a_succession_voids_what_the_old_anchor_asserted() {
    for (reason, left) in [("key-compromise", 0), ("rotation", 1)] {
        let mut store = test_store();
        let old = key_anchor("ed25519", &[1]);
        claim(&mut store, "01", "a", 10, None);
        claim(&mut store, "01", "b", 50, None);
        let s = IdentitySuccession {
            old_anchor: old,
            new_anchor: key_anchor("ed25519", &[2]),
            reason: reason.to_string(),
            effective_at_ms: 40,
        };
        store.identity_succession_put(&s, 60).unwrap();
        assert_eq!(counts(&store, None), (left, 0, 2 - left, 0));
    }
}
