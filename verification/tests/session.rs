use std::time::{SystemTime, UNIX_EPOCH};

use kappa_registry::atproto::session::{
    base64url_encode, base64url_sha256, jwk_thumbprint_p256, DpopClaims, SessionError, SessionStore,
};

fn now_millis() -> u64 {
    SystemTime::now().duration_since(UNIX_EPOCH).unwrap().as_millis() as u64
}

#[test]
fn session_create_and_get() {
    let mut store = SessionStore::new();
    store.register_credentials("did:plc:test", "secret");
    let session = store.create_session("did:plc:test", "secret", "test.handle", "jkt123").unwrap();
    assert!(!session.access_token.is_empty());
    assert!(!session.refresh_token.is_empty());
    assert_eq!(session.dpop_jkt, "jkt123");

    let got = store.get_session(&session.access_token).unwrap();
    assert_eq!(got.did, "did:plc:test");
    assert_eq!(got.dpop_jkt, "jkt123");
}

#[test]
fn session_refresh_rotates_tokens() {
    let mut store = SessionStore::new();
    store.register_credentials("did:plc:test", "pass");
    let session = store.create_session("did:plc:test", "pass", "h", "jkt").unwrap();

    let refreshed = store.refresh_session(&session.refresh_token).unwrap();
    assert_ne!(refreshed.access_token, session.access_token);
    assert_ne!(refreshed.refresh_token, session.refresh_token);
    assert_eq!(refreshed.dpop_jkt, "jkt"); // key binding preserved

    // Old tokens invalid
    assert!(store.get_session(&session.access_token).is_err());
    // New token works
    assert!(store.get_session(&refreshed.access_token).is_ok());
}

#[test]
fn session_delete_revokes() {
    let mut store = SessionStore::new();
    store.register_credentials("did:plc:test", "pass");
    let session = store.create_session("did:plc:test", "pass", "h", "jkt").unwrap();
    store.delete_session(&session.access_token).unwrap();
    assert!(store.get_session(&session.access_token).is_err());
}

#[test]
fn wrong_password_rejected() {
    let mut store = SessionStore::new();
    store.register_credentials("did:plc:test", "correct");
    assert!(store.create_session("did:plc:test", "wrong", "h", "jkt").is_err());
}

#[test]
fn dpop_verification_full_flow() {
    let mut store = SessionStore::new();
    store.register_credentials("did:plc:test", "pass");
    let session = store.create_session("did:plc:test", "pass", "h", "my-jkt").unwrap();

    let ath = base64url_sha256(session.access_token.as_bytes());
    let now_secs = now_millis() / 1000;

    let claims = DpopClaims {
        jti: "unique-1".to_string(),
        htm: "POST".to_string(),
        htu: "https://pds.example.com/xrpc/com.atproto.repo.createRecord".to_string(),
        iat: now_secs,
        ath,
        jkt: "my-jkt".to_string(),
    };

    let did = store.verify_dpop_request(
        &session.access_token, &claims,
        "POST", "https://pds.example.com/xrpc/com.atproto.repo.createRecord"
    ).unwrap();
    assert_eq!(did, "did:plc:test");
}

#[test]
fn dpop_replay_rejected() {
    let mut store = SessionStore::new();
    store.register_credentials("did:plc:test", "pass");
    let session = store.create_session("did:plc:test", "pass", "h", "jkt").unwrap();

    let ath = base64url_sha256(session.access_token.as_bytes());
    let claims = DpopClaims {
        jti: "replay-me".to_string(),
        htm: "GET".to_string(),
        htu: "https://pds.example.com/xrpc/test".to_string(),
        iat: now_millis() / 1000,
        ath,
        jkt: "jkt".to_string(),
    };

    // First request succeeds
    store.verify_dpop_request(&session.access_token, &claims, "GET",
        "https://pds.example.com/xrpc/test").unwrap();

    // Replay with same JTI fails
    let result = store.verify_dpop_request(&session.access_token, &claims, "GET",
        "https://pds.example.com/xrpc/test");
    assert!(matches!(result, Err(SessionError::ReplayDetected)));
}

#[test]
fn dpop_method_mismatch_rejected() {
    let mut store = SessionStore::new();
    store.register_credentials("did:plc:test", "pass");
    let session = store.create_session("did:plc:test", "pass", "h", "jkt").unwrap();

    let claims = DpopClaims {
        jti: "j1".to_string(),
        htm: "GET".to_string(), // proof says GET
        htu: "https://pds.example.com/xrpc/test".to_string(),
        iat: now_millis() / 1000,
        ath: base64url_sha256(session.access_token.as_bytes()),
        jkt: "jkt".to_string(),
    };

    // Request is POST but proof says GET
    let result = store.verify_dpop_request(&session.access_token, &claims,
        "POST", "https://pds.example.com/xrpc/test");
    assert!(matches!(result, Err(SessionError::MethodMismatch)));
}

#[test]
fn dpop_key_mismatch_rejected() {
    let mut store = SessionStore::new();
    store.register_credentials("did:plc:test", "pass");
    let session = store.create_session("did:plc:test", "pass", "h", "correct-jkt").unwrap();

    let claims = DpopClaims {
        jti: "j2".to_string(),
        htm: "GET".to_string(),
        htu: "https://pds.example.com/xrpc/test".to_string(),
        iat: now_millis() / 1000,
        ath: base64url_sha256(session.access_token.as_bytes()),
        jkt: "wrong-jkt".to_string(), // wrong key
    };

    let result = store.verify_dpop_request(&session.access_token, &claims,
        "GET", "https://pds.example.com/xrpc/test");
    assert!(matches!(result, Err(SessionError::KeyMismatch)));
}

#[test]
fn jwk_thumbprint_deterministic() {
    let t1 = jwk_thumbprint_p256("x-value", "y-value");
    let t2 = jwk_thumbprint_p256("x-value", "y-value");
    assert_eq!(t1, t2);
    assert!(!t1.is_empty());
}

#[test]
fn base64url_no_padding() {
    let encoded = base64url_encode(b"test");
    assert!(!encoded.contains('='));
    assert!(!encoded.contains('+'));
    assert!(!encoded.contains('/'));
}

#[test]
fn validate_token_simple() {
    let mut store = SessionStore::new();
    store.register_credentials("did:plc:test", "pass");
    let session = store.create_session("did:plc:test", "pass", "h", "jkt").unwrap();
    assert_eq!(store.validate_token(&session.access_token), Some("did:plc:test".to_string()));
    assert_eq!(store.validate_token("bogus"), None);
}
