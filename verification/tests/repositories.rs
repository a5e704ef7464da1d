use kappa_registry::atproto::account::{account_did, begin_repo, create_account};
use kappa_registry::atproto::car::decode_car;
use kappa_registry::atproto::chain::{build_tree, propose_commit, seal_commit};
use kappa_registry::atproto::cid::{cid_for_cbor, cid_from_string};
use kappa_registry::atproto::firehose::{
    action_name, FirehoseConfig, FirehoseMode, LagStep, Subscriber, TagChange,
};
use kappa_registry::atproto::repo::{
    describe_repo, get_blob, get_record, get_repo, latest_commit, list_records, list_repos,
    open_repo, resolve_handle, ArchiveError,
};
use kappa_registry::atproto::session::{
    base64url_encode, base64url_sha256, dpop_proof_to_check, jwk_thumbprint_p256,
    parse_and_verify_dpop_proof, DpopClaims, SessionError, SessionStore,
};
use kappa_registry::atproto::tid::{is_valid_tid, tid_from_parts};
use kappa_registry::atproto::writes::{
    apply_writes, create_record, delete_record, extract_bearer_token, put_record, verify_repo_auth,
    AuthRefusal, RepoWrite, SessionKnown,
};
use kappa_registry::kappa::kappa_from_bytes;
use kappa_registry::store::compression::blob_put_computed;
use kappa_registry::store::memory::{InMemoryStore, MemoryStoreConfig};
use kappa_registry::types::StoreError;

fn test_store() -> InMemoryStore {
    InMemoryStore::new(MemoryStoreConfig::new("blobs".to_string()))
}

#[test]
fn a_new_account_has_a_repository() {
    let mut store = test_store();
    let did = account_did("alice.example.com", None);
    let digest = hex::encode(<sha2::Sha256 as sha2::Digest>::digest(b"alice.example.com"));
    assert_eq!(did, format!("did:plc:{}", &digest[..32]));
    assert_eq!(account_did("alice", Some("did:web:a")), "did:web:a");
    let rev = create_account(&mut store, &did).unwrap();
    assert!(is_valid_tid(&rev));
    let (head, found) = latest_commit(&store, &did).unwrap();
    assert_eq!(found, rev);
    assert!(store.blob_exists(&head).unwrap());
    assert!(latest_commit(&store, "did:none").is_none());
    assert_eq!(list_repos(&store, None, 50), vec![did.clone()]);
    assert!(list_repos(&store, None, 0).is_empty());
    assert!(list_repos(&store, Some("z"), 50).is_empty());

    let car = get_repo(&store, &did).unwrap();
    let commit = store.blob_get(&head).unwrap();
    // The commit, framed by its digest, is the first thing behind the header.
    assert!(car.windows(commit.len()).any(|w| w == commit));
    assert_eq!(get_repo(&store, "did:none").unwrap_err(), ArchiveError::NotFound);
    assert!(decode_car(&car[..4]).is_err());
}

#[test]
fn the_first_commit_is_exact() {
    let mut store = test_store();
    create_record(&mut store, "did:x", "c", Some("r"), b"{}").0.unwrap();
    let ns = open_repo(&store, "did:x").unwrap();
    begin_repo(&mut store, &ns, "did:x", "3jzfcijpj2z2a").unwrap();
    let (head, rev) = latest_commit(&store, "did:x").unwrap();
    assert_eq!(rev, "3jzfcijpj2z2a");
    let commit = store.blob_get(&head).unwrap();
    assert_eq!(head, kappa_from_bytes(&commit));
    // An empty tree: no left subtree, no entries.
    let node = b"\xa2\x61e\x80\x61l\xf6".to_vec();
    let root = cid_for_cbor(&node);
    assert!(commit.windows(36).any(|w| w == root));
    let tag = format!("mst/{}", hex::encode(root));
    assert_eq!(store.tag_get(&ns, &tag).unwrap().kappa, kappa_from_bytes(&node));
}

#[test]
fn records_are_written_read_listed_and_deleted() {
    let mut store = test_store();
    assert!(get_record(&store, "did:a", "app.post", "1").is_none());
    let w = put_record(&mut store, "did:a", "app.post", "1", b"{\"n\":1}").unwrap();
    assert_eq!(w.uri, "at://did:a/app.post/1");
    assert_eq!(w.cid, kappa_from_bytes(b"{\"n\":1}"));
    let (made, key) = create_record(&mut store, "did:a", "app.like", None, b"{}");
    assert!(is_valid_tid(&key));
    assert_eq!(made.unwrap().uri, format!("at://did:a/app.like/{}", key));
    for k in ["2", "3"] {
        put_record(&mut store, "did:a", "app.post", k, b"{}").unwrap();
    }
    let r = get_record(&store, "did:a", "app.post", "1").unwrap();
    assert_eq!((r.uri.as_str(), r.data.as_slice()), ("at://did:a/app.post/1", &b"{\"n\":1}"[..]));
    let page = list_records(&store, "did:a", "app.post", None, 2).unwrap();
    assert_eq!(page.len(), 2);
    assert_eq!(page[0].uri, "at://did:a/app.post/1");
    assert_eq!(page[0].data.as_deref(), Some(&b"{\"n\":1}"[..]));
    let next = list_records(&store, "did:a", "app.post", Some("2"), 2).unwrap();
    assert_eq!(next.len(), 1);
    assert_eq!(next[0].uri, "at://did:a/app.post/3");
    assert!(list_records(&store, "did:a", "app.post", Some("none"), 2).unwrap().is_empty());
    assert!(list_records(&store, "did:b", "app.post", None, 2).is_none());
    let (did, collections) = describe_repo(&store, "did:a").unwrap();
    assert_eq!(did, "did:a");
    assert_eq!(collections, vec!["app.like", "app.post"]);
    assert!(describe_repo(&store, "did:b").is_none());
    assert!(delete_record(&mut store, "did:a", "app.post", "1"));
    assert!(get_record(&store, "did:a", "app.post", "1").is_none());
    assert!(!delete_record(&mut store, "did:b", "app.post", "1"));
}

#[test]
fn blobs_and_handles_are_found_by_name() {
    let mut store = test_store();
    put_record(&mut store, "did:a", "c", "r", b"{}").unwrap();
    let ns = open_repo(&store, "did:a").unwrap();
    let k = blob_put_computed(&mut store, b"picture").unwrap();
    store.tag_set(&ns, "blob/bafy", &k).unwrap();
    assert_eq!(get_blob(&store, "did:a", "bafy").unwrap(), b"picture");
    assert!(get_blob(&store, "did:a", "other").is_none());
    assert!(resolve_handle(&store, "alice").is_none());
    let handles = store.namespace_create("_handles", "node", None).unwrap();
    let h = blob_put_computed(&mut store, b"{\"anchor\":\"did:a\"}").unwrap();
    store.tag_set(&handles, "handle:atproto:alice", &h).unwrap();
    assert_eq!(resolve_handle(&store, "alice"), Some("did:a".to_string()));
    let e = blob_put_computed(&mut store, b"not json").unwrap();
    store.tag_set(&handles, "handle:atproto:bob", &e).unwrap();
    assert_eq!(resolve_handle(&store, "bob"), Some(String::new()));
}

fn write(action: &str, rkey: &str, record: Option<&[u8]>) -> RepoWrite {
    RepoWrite {
        action: action.to_string(),
        collection: "c".to_string(),
        rkey: rkey.to_string(),
        record: record.map(|r| r.to_vec()),
    }
}

#[test]
fn batches_stop_at_the_first_refusal() {
    let mut store = test_store();
    let good = vec![
        write("create", "", Some(b"1")),
        write("com.atproto.repo.applyWrites#update", "k", Some(b"2")),
        write("create", "gone", Some(b"3")),
        write("delete", "gone", None),
    ];
    apply_writes(&mut store, "did:a", &good).unwrap();
    let page = list_records(&store, "did:a", "c", None, 10).unwrap();
    assert_eq!(page.len(), 2);
    let cases = [
        (write("create", "x", None), "missing record in create"),
        (write("update", "x", None), "missing record in update"),
        (write("upsert", "x", None), "unknown write action: upsert"),
    ];
    for (bad, why) in cases {
        let batch = vec![write("update", "k", Some(b"4")), bad, write("delete", "k", None)];
        assert_eq!(apply_writes(&mut store, "did:a", &batch).unwrap_err(), why);
        assert_eq!(get_record(&store, "did:a", "c", "k").unwrap().data, b"4");
    }
}

#[test]
fn commits_form_a_chain() {
    let mut store = test_store();
    put_record(&mut store, "did:a", "app.post", "1", b"{}").unwrap();
    let ns = open_repo(&store, "did:a").unwrap();
    let tree = build_tree(&store, &ns);
    assert_eq!(tree.get("app.post/1"), Some(&cid_for_cbor(b"{}")));
    let first = propose_commit(&mut store, &ns, "did:a", "3jzfcijpj2z2a");
    assert!(first.prev.is_none());
    assert_eq!(first.data.len(), 36);
    let tag = format!("mst/{}", hex::encode(&first.data));
    assert!(store.tag_get(&ns, &tag).is_ok());
    let head = seal_commit(&mut store, &ns, &first, b"sig").unwrap();
    assert_eq!(latest_commit(&store, "did:a").unwrap().0, head);
    put_record(&mut store, "did:a", "app.post", "2", b"{\"x\":2}").unwrap();
    let second = propose_commit(&mut store, &ns, "did:a", "3jzfcijpj2z2b");
    assert_eq!(second.prev.unwrap(), cid_for_cbor(&store.blob_get(&head).unwrap()).to_vec());
    assert_ne!(second.data, first.data);
}

#[test]
fn only_the_owner_may_write() {
    assert_eq!(extract_bearer_token(Some("Bearer t1")), "t1");
    assert_eq!(extract_bearer_token(Some("DPoP t2")), "t2");
    assert_eq!(extract_bearer_token(Some("Basic t3")), "");
    assert_eq!(extract_bearer_token(None), "");
    assert_eq!(verify_repo_auth("t", &SessionKnown::NotKept, "did:a").unwrap(), "did:a");
    assert_eq!(
        verify_repo_auth("t", &SessionKnown::Of("did:a".into()), "did:a").unwrap(),
        "did:a"
    );
    let missing = verify_repo_auth("", &SessionKnown::NotKept, "did:a").unwrap_err();
    assert!(matches!(missing, AuthRefusal::MissingToken));
    assert_eq!((missing.status(), missing.error()), (401, "AuthenticationRequired"));
    let invalid = verify_repo_auth("t", &SessionKnown::Invalid, "did:a").unwrap_err();
    assert_eq!((invalid.status(), invalid.error()), (401, "ExpiredToken"));
    let other = verify_repo_auth("t", &SessionKnown::Of("did:b".into()), "did:a").unwrap_err();
    assert_eq!(other.status(), 403);
    assert_eq!(other.message(), "session DID did:b does not match repo did:a");
}

#[test]
fn subscribers_are_sent_everything_or_let_go() {
    let config = FirehoseConfig::default();
    assert_eq!(config.max_lag, 10000);
    assert!(config.listens(true));
    assert_eq!(config.poll_interval_ms(), 500);
    let polling = FirehoseConfig { mode: FirehoseMode::Poll { interval_ms: 9 }, ..config };
    assert!(!polling.listens(true));
    assert_eq!(polling.poll_interval_ms(), 9);
    let mut s = Subscriber::new(Some(5), 10);
    assert_eq!(s.next(), 6);
    assert!(matches!(s.lagged(10), LagStep::Continue));
    assert_eq!(s.seq, 16);
    match s.lagged(11) {
        LagStep::Close(m) => assert_eq!(m, "lagged 11 events, closing"),
        LagStep::Continue => panic!("too far behind"),
    }
    assert_eq!(s.advance(18), Some(17));
    assert!(!s.outdated(18));
    assert!(s.outdated(28));
    assert_eq!(s.advance(18), Some(18));
    assert_eq!(s.advance(18), None);
    assert_eq!(action_name(TagChange::Bound), "create");
    assert_eq!(action_name(TagChange::Other), "update");
}

#[test]
fn proofs_of_possession_are_read() {
    let header = b"{\"typ\":\"dpop+jwt\",\"alg\":\"ES256\",\"jwk\":{\"kty\":\"EC\",\"crv\":\"P-256\",\"x\":\"AAAAAAAAAAAAAAAAAAAAAAAAAAAAAAAAAAAAAAAAAAA\",\"y\":\"AAAAAAAAAAAAAAAAAAAAAAAAAAAAAAAAAAAAAAAAAAA\"}}";
    let payload = b"{\"jti\":\"j\",\"htm\":\"POST\",\"htu\":\"https://h/x\",\"iat\":7,\"ath\":\"a\"}";
    let jwt = format!(
        "{}.{}.{}",
        base64url_encode(header),
        base64url_encode(payload),
        base64url_encode(&[1; 64])
    );
    let (key, signed, sig) = dpop_proof_to_check(&jwt).unwrap();
    assert_eq!(key.len(), 65);
    assert_eq!(key[0], 4);
    assert_eq!(signed, jwt[..jwt.rfind('.').unwrap()].as_bytes());
    assert_eq!(sig, vec![1; 64]);
    let claims = parse_and_verify_dpop_proof(&jwt, true).unwrap();
    assert_eq!((claims.jti.as_str(), claims.htm.as_str(), claims.iat), ("j", "POST", 7));
    let zeros = "A".repeat(43);
    assert_eq!(claims.jkt, jwk_thumbprint_p256(&zeros, &zeros));
    assert!(parse_and_verify_dpop_proof(&jwt, false).is_err());
    assert!(parse_and_verify_dpop_proof("a.b", true).is_err());
}

#[test]
fn proofs_are_held_to_the_request() {
    let mut store = SessionStore::new();
    store.register_credentials("did:a", "pw");
    let s = store.create_session_at("did:a", "pw", "h", "jkt", 1_000_000).unwrap();
    let ath = base64url_sha256(s.access_token.as_bytes());
    let claims = |jti: &str, htm: &str, htu: &str, iat: u64, ath: &str| DpopClaims {
        jti: jti.to_string(),
        htm: htm.to_string(),
        htu: htu.to_string(),
        iat,
        ath: ath.to_string(),
        jkt: "jkt".to_string(),
    };
    let good = claims("1", "post", "https://h/x", 1_000, &ath);
    assert_eq!(
        store.verify_dpop_request_at(&s.access_token, &good, "POST", "https://h/x", 1_000_000).unwrap(),
        "did:a"
    );
    let uri = claims("2", "POST", "https://h/y", 1_000, &ath);
    assert!(matches!(
        store.verify_dpop_request_at(&s.access_token, &uri, "POST", "https://h/x", 1_000_000),
        Err(SessionError::UriMismatch)
    ));
    let hash = claims("3", "POST", "https://h/x", 1_000, "other");
    assert!(matches!(
        store.verify_dpop_request_at(&s.access_token, &hash, "POST", "https://h/x", 1_000_000),
        Err(SessionError::TokenHashMismatch)
    ));
    let stale = claims("4", "POST", "https://h/x", 1, &ath);
    assert!(matches!(
        store.verify_dpop_request_at(&s.access_token, &stale, "POST", "https://h/x", 1_000_000),
        Err(SessionError::ProofExpired)
    ));
    assert!(matches!(
        store.get_session_at("bogus", 1_000_000),
        Err(SessionError::InvalidToken)
    ));
    assert!(matches!(
        store.get_session_at(&s.access_token, u64::MAX),
        Err(SessionError::ExpiredToken)
    ));
}

#[test]
fn identifiers_have_exact_texts() {
    assert_eq!(tid_from_parts(0, 0), "2222222222222");
    assert_eq!(tid_from_parts(1, 31), "222222222232z");
    assert!(cid_from_string("zabc").is_err());
    let mut store = test_store();
    let before = store.blob_list().unwrap();
    assert!(before.is_empty());
    assert!(matches!(store.blob_get("sha256:x"), Err(StoreError::NotFound(_))));
    store.blob_put("anything", b"x").unwrap();
    assert_eq!(store.blob_size("anything").unwrap(), 1);
}
