//! Sessions whose access tokens are bound to the client's key.

use vstd::prelude::*;
use vstd::string::*;
use vstd::utf8::encode_utf8;

use crate::bytes::append_bytes;
use crate::digest::{sha256, sha256_of};
use crate::hexadecimal::{hex_encode, hex_of};
use crate::json::{json_part, json_part_of, json_text, json_text_of};
use crate::radix::{radix_decode, radix_decoded, radix_encode, radix_text, Radix};
use crate::table::Table;
use crate::text::{decimal, decimal_text, joined3, same_text, split_once, split_once_spec};
use crate::types::unix_millis;

verus! {

/// How long a session lasts, in milliseconds.
pub const SESSION_MS: u64 = 3600000;

/// How far the time of a proof may be off, in seconds.
pub const CLOCK_SKEW_SECS: u64 = 300;

/// A session.
#[derive(Debug)]
pub struct Session {
    pub did: String,
    pub access_token: String,
    pub refresh_token: String,
    /// Thumbprint of the key that the session is bound to.
    pub dpop_jkt: String,
    pub created_at_ms: u64,
    pub expires_at_ms: u64,
    pub handle: String,
}

/// What a session holds.
pub struct SessionView {
    pub did: Seq<char>,
    pub access_token: Seq<char>,
    pub refresh_token: Seq<char>,
    pub dpop_jkt: Seq<char>,
    pub created_at_ms: u64,
    pub expires_at_ms: u64,
    pub handle: Seq<char>,
}

impl DeepView for Session {
    type V = SessionView;

    open spec fn deep_view(&self) -> SessionView {
        SessionView {
            did: self.did@,
            access_token: self.access_token@,
            refresh_token: self.refresh_token@,
            dpop_jkt: self.dpop_jkt@,
            created_at_ms: self.created_at_ms,
            expires_at_ms: self.expires_at_ms,
            handle: self.handle@,
        }
    }
}

impl Session {
    /// A copy.
    pub fn copied(&self) -> (out: Self)
        ensures
            out.deep_view() == self.deep_view(),
    {
        Session {
            did: self.did.clone(),
            access_token: self.access_token.clone(),
            refresh_token: self.refresh_token.clone(),
            dpop_jkt: self.dpop_jkt.clone(),
            created_at_ms: self.created_at_ms,
            expires_at_ms: self.expires_at_ms,
            handle: self.handle.clone(),
        }
    }
}

/// What a proof of possession claims.
#[derive(Debug)]
pub struct DpopClaims {
    /// What tells the proof from all others.
    pub jti: String,
    pub htm: String,
    pub htu: String,
    /// When it was issued, in seconds.
    pub iat: u64,
    /// Hash of the access token.
    pub ath: String,
    /// Thumbprint of the key.
    pub jkt: String,
}

/// Why a request was turned down.
#[derive(Debug, Clone, Copy, PartialEq, Eq, Structural)]
pub enum SessionError {
    AuthenticationRequired,
    InvalidToken,
    ExpiredToken,
    ReplayDetected,
    MethodMismatch,
    UriMismatch,
    TokenHashMismatch,
    KeyMismatch,
    ProofExpired,
}

impl SessionError {
    /// The name of the error towards clients.
    pub fn xrpc_error(&self) -> (out: &'static str)
        ensures
            out@ == (match self {
                SessionError::AuthenticationRequired => "AuthenticationRequired"@,
                SessionError::InvalidToken => "ExpiredToken"@,
                SessionError::ExpiredToken => "ExpiredToken"@,
                SessionError::ProofExpired => "ExpiredToken"@,
                _ => "InvalidToken"@,
            }),
    {
        match self {
            SessionError::AuthenticationRequired => "AuthenticationRequired",
            SessionError::InvalidToken => "ExpiredToken",
            SessionError::ExpiredToken => "ExpiredToken",
            SessionError::ProofExpired => "ExpiredToken",
            _ => "InvalidToken",
        }
    }

    /// The status code of the error.
    pub fn status_code(&self) -> (code: u16)
        ensures
            code == 401,
    {
        401
    }
}

// -- Hashes ---------------------------------------------------------------------------------

/// The hash that a password is kept as.
pub open spec fn password_hash(password: Seq<char>) -> Seq<char> {
    hex_of(sha256_of(encode_utf8(password)))
}

fn hash_password(password: &str) -> (out: String)
    ensures
        out@ == password_hash(password@),
{
    hex_encode(sha256(password.as_bytes()).as_slice())
}

/// A token: the hash of whom it is for, when and what for it was made, and a
/// running number.
pub open spec fn token_text(did: Seq<char>, now_ms: u64, kind: Seq<char>, count: u64) -> Seq<char> {
    hex_of(
        sha256_of(
            encode_utf8(
                did + ":"@ + decimal(now_ms as nat) + ":"@ + kind + ":"@ + decimal(count as nat),
            ),
        ),
    )
}

fn generate_token(did: &str, now_ms: u64, kind: &str, count: u64) -> (out: String)
    ensures
        out@ == token_text(did@, now_ms, kind@, count),
{
    let front = joined3(did, ":", decimal_text(now_ms).as_str());
    let middle = joined3(front.as_str(), ":", kind);
    let input = joined3(middle.as_str(), ":", decimal_text(count).as_str());
    hex_encode(sha256(input.as_str().as_bytes()).as_slice())
}

/// The SHA-256 digest of data, in base64 for URLs.
pub open spec fn digest64(data: Seq<u8>) -> Seq<char> {
    radix_text(Radix::Base64Url, sha256_of(data))
}

/// The SHA-256 digest of data, in base64 for URLs.
pub fn base64url_sha256(data: &[u8]) -> (out: String)
    ensures
        out@ == digest64(data@),
{
    radix_encode(Radix::Base64Url, sha256(data).as_slice())
}

/// Data in base64 for URLs.
pub fn base64url_encode(data: &[u8]) -> (out: String)
    ensures
        out@ == radix_text(Radix::Base64Url, data@),
{
    radix_encode(Radix::Base64Url, data)
}

/// Reads base64 for URLs, passing over padding.
pub fn base64url_decode(input: &str) -> (out: Result<Vec<u8>, SessionError>)
    ensures
        match (out, radix_decoded(Radix::Base64Url, input@)) {
            (Ok(v), Some(d)) => v@ == d,
            (Err(e), None) => e == SessionError::InvalidToken,
            _ => false,
        },
{
    match radix_decode(Radix::Base64Url, input) {
        Some(data) => Ok(data),
        None => Err(SessionError::InvalidToken),
    }
}

/// The canonical form of a P-256 key.
pub open spec fn canonical_jwk(x: Seq<char>, y: Seq<char>) -> Seq<char> {
    "{\"crv\":\"P-256\",\"kty\":\"EC\",\"x\":\""@ + x + "\",\"y\":\""@ + y + "\"}"@
}

/// The thumbprint of a P-256 key.
pub fn jwk_thumbprint_p256(x_b64url: &str, y_b64url: &str) -> (out: String)
    ensures
        out@ == digest64(encode_utf8(canonical_jwk(x_b64url@, y_b64url@))),
{
    let front = joined3("{\"crv\":\"P-256\",\"kty\":\"EC\",\"x\":\"", x_b64url, "\",\"y\":\"");
    let canonical = joined3(front.as_str(), y_b64url, "\"}");
    base64url_sha256(canonical.as_str().as_bytes())
}

/// A text in upper case.
pub uninterp spec fn uppercase_of(s: Seq<char>) -> Seq<char>;

/// `str::to_uppercase`: the text in upper case, by Unicode's rules.
#[verifier::external_body]
pub(crate) fn uppercase(s: &str) -> (out: String)
    ensures
        out@ == uppercase_of(s@),
{
    s.to_uppercase()
}

// -- The store --------------------------------------------------------------------------------

/// The sessions of a server.
pub struct SessionStore {
    pub(crate) sessions: Table<String, Session>,
    pub(crate) refresh_index: Table<String, String>,
    pub(crate) credentials: Table<String, String>,
    pub(crate) seen_jtis: Table<String, bool>,
    pub(crate) counter: u64,
}

/// What the store holds: the sessions by access token, the access tokens by
/// refresh token, the password hashes by identifier, the proofs seen, and the
/// running number of tokens.
#[verifier::ext_equal]
pub struct SessionsView {
    pub sessions: Map<Seq<char>, SessionView>,
    pub refresh: Map<Seq<char>, Seq<char>>,
    pub credentials: Map<Seq<char>, Seq<char>>,
    pub seen: Set<Seq<char>>,
    pub counter: u64,
}

/// A running number further on, starting over after the last.
pub open spec fn counted(counter: u64, n: nat) -> u64 {
    ((counter + n) % 0x1_0000_0000_0000_0000) as u64
}

/// When a session ends: an hour after it began.
pub open spec fn expiry(now_ms: u64) -> u64 {
    if now_ms <= u64::MAX - SESSION_MS {
        (now_ms + SESSION_MS) as u64
    } else {
        u64::MAX
    }
}

/// A new session.
pub open spec fn new_session(
    did: Seq<char>,
    handle: Seq<char>,
    dpop_jkt: Seq<char>,
    now_ms: u64,
    counter: u64,
) -> SessionView {
    SessionView {
        did,
        access_token: token_text(did, now_ms, "access"@, counter),
        refresh_token: token_text(did, now_ms, "refresh"@, counted(counter, 1)),
        dpop_jkt,
        created_at_ms: now_ms,
        expires_at_ms: expiry(now_ms),
        handle,
    }
}

impl SessionsView {
    /// Whether a password is the one that was registered.
    pub open spec fn knows(self, identifier: Seq<char>, password: Seq<char>) -> bool {
        self.credentials.dom().contains(identifier) && self.credentials[identifier]
            == password_hash(password)
    }

    /// The store with a session added.
    pub open spec fn with_session(self, s: SessionView) -> SessionsView {
        SessionsView {
            sessions: self.sessions.insert(s.access_token, s),
            refresh: self.refresh.insert(s.refresh_token, s.access_token),
            counter: counted(self.counter, 2),
            ..self
        }
    }

    /// The session of an access token that has not expired.
    pub open spec fn session(self, token: Seq<char>, now_ms: u64) -> Result<SessionView, SessionError> {
        if !self.sessions.dom().contains(token) {
            Err(SessionError::InvalidToken)
        } else if self.sessions[token].expires_at_ms < now_ms {
            Err(SessionError::ExpiredToken)
        } else {
            Ok(self.sessions[token])
        }
    }

    /// What refreshing a session comes to.
    pub open spec fn refreshed(self, refresh_token: Seq<char>, now_ms: u64) -> (
        SessionsView,
        Result<SessionView, SessionError>,
    ) {
        if !self.refresh.dom().contains(refresh_token) {
            (self, Err(SessionError::InvalidToken))
        } else {
            let access = self.refresh[refresh_token];
            let spent = SessionsView { refresh: self.refresh.remove(refresh_token), ..self };
            if !self.sessions.dom().contains(access) {
                (spent, Err(SessionError::InvalidToken))
            } else {
                let old = self.sessions[access];
                let gone = SessionsView { sessions: self.sessions.remove(access), ..spent };
                let s = new_session(old.did, old.handle, old.dpop_jkt, now_ms, self.counter);
                (gone.with_session(s), Ok(s))
            }
        }
    }

    /// The store without a session.
    pub open spec fn without_session(self, token: Seq<char>) -> SessionsView {
        SessionsView {
            sessions: self.sessions.remove(token),
            refresh: self.refresh.remove(self.sessions[token].refresh_token),
            ..self
        }
    }
}

/// A URI without its query.
pub open spec fn without_query(uri: Seq<char>) -> Seq<char> {
    match split_once_spec(uri, '?') {
        Some((front, _)) => front,
        None => uri,
    }
}

/// Whether a proof was issued within five minutes of now.
pub open spec fn is_fresh(iat: u64, now_ms: u64) -> bool {
    let now = now_ms / 1000;
    iat + CLOCK_SKEW_SECS >= now && iat <= now + CLOCK_SKEW_SECS
}

/// What a proof of possession comes to, given the session and that the proof is
/// new.
pub open spec fn proof_verdict(
    s: SessionView,
    token: Seq<char>,
    claims: DpopClaims,
    method: Seq<char>,
    uri: Seq<char>,
    now_ms: u64,
) -> Result<Seq<char>, SessionError> {
    if uppercase_of(claims.htm@) != uppercase_of(method) {
        Err(SessionError::MethodMismatch)
    } else if claims.htu@ != without_query(uri) {
        Err(SessionError::UriMismatch)
    } else if claims.ath@ != digest64(encode_utf8(token)) {
        Err(SessionError::TokenHashMismatch)
    } else if claims.jkt@ != s.dpop_jkt {
        Err(SessionError::KeyMismatch)
    } else if !is_fresh(claims.iat, now_ms) {
        Err(SessionError::ProofExpired)
    } else {
        Ok(s.did)
    }
}

/// Whether a request was checked against its proof of possession.
pub open spec fn dpop_checked(
    before: SessionsView,
    after: SessionsView,
    token: Seq<char>,
    claims: DpopClaims,
    method: Seq<char>,
    uri: Seq<char>,
    now_ms: u64,
    out: Result<String, SessionError>,
) -> bool {
    match before.session(token, now_ms) {
        Err(f) => out == Err::<String, SessionError>(f) && after == before,
        Ok(s) => {
            &&& after == (SessionsView { seen: before.seen.insert(claims.jti@), ..before })
            &&& if before.seen.contains(claims.jti@) {
                out == Err::<String, SessionError>(SessionError::ReplayDetected)
            } else {
                match (out, proof_verdict(s, token, claims, method, uri, now_ms)) {
                    (Ok(did), Ok(d)) => did@ == d,
                    (Err(e), Err(f)) => e == f,
                    _ => false,
                }
            }
        },
    }
}

/// Whether a session was opened for an identifier with its password.
pub open spec fn session_opened(
    before: SessionsView,
    after: SessionsView,
    identifier: Seq<char>,
    password: Seq<char>,
    handle: Seq<char>,
    dpop_jkt: Seq<char>,
    out: Result<Session, SessionError>,
) -> bool {
    match out {
        Ok(s) => {
            &&& before.knows(identifier, password)
            &&& s.deep_view() == new_session(
                identifier,
                handle,
                dpop_jkt,
                s.created_at_ms,
                before.counter,
            )
            &&& after == before.with_session(s.deep_view())
        },
        Err(e) => e == SessionError::AuthenticationRequired && !before.knows(identifier, password)
            && after == before,
    }
}

impl SessionStore {
    /// Every table has distinct keys.
    pub open(crate) spec fn wf(&self) -> bool {
        &&& self.sessions.wf()
        &&& self.refresh_index.wf()
        &&& self.credentials.wf()
        &&& self.seen_jtis.wf()
    }

    /// What the store holds.
    pub open(crate) spec fn state(&self) -> SessionsView {
        SessionsView {
            sessions: self.sessions@,
            refresh: self.refresh_index@,
            credentials: self.credentials@,
            seen: self.seen_jtis@.dom(),
            counter: self.counter,
        }
    }

    /// A store without sessions.
    pub fn new() -> (out: Self)
        ensures
            out.wf(),
            out.state() == (SessionsView {
                sessions: Map::empty(),
                refresh: Map::empty(),
                credentials: Map::empty(),
                seen: Set::empty(),
                counter: 0,
            }),
    {
        let out = SessionStore {
            sessions: Table::new(),
            refresh_index: Table::new(),
            credentials: Table::new(),
            seen_jtis: Table::new(),
            counter: 0,
        };
        assert(out.state().seen =~= Set::<Seq<char>>::empty());
        out
    }

    /// Registers a password.
    pub fn register_credentials(&mut self, did: &str, password: &str)
        requires
            old(self).wf(),
        ensures
            final(self).wf(),
            final(self).state() == (SessionsView {
                credentials: old(self).state().credentials.insert(did@, password_hash(password@)),
                ..old(self).state()
            }),
    {
        let ghost before = self.state();
        self.credentials.insert(did.to_owned(), hash_password(password));
        assert(self.state() =~= (SessionsView {
            credentials: before.credentials.insert(did@, password_hash(password@)),
            ..before
        }));
    }

    fn add_session(&mut self, did: &str, handle: &str, dpop_jkt: &str, now_ms: u64) -> (out: Session)
        requires
            old(self).wf(),
        ensures
            final(self).wf(),
            out.deep_view() == new_session(did@, handle@, dpop_jkt@, now_ms, old(self).counter),
            final(self).state() == old(self).state().with_session(out.deep_view()),
    {
        let ghost before = self.state();
        let first: u64 = self.counter;
        let second: u64 = if first < u64::MAX { first + 1 } else { 0 };
        self.counter = if second < u64::MAX { second + 1 } else { 0 };
        let access_token = generate_token(did, now_ms, "access", first);
        let refresh_token = generate_token(did, now_ms, "refresh", second);
        let expires_at_ms: u64 = if now_ms <= u64::MAX - SESSION_MS {
            now_ms + SESSION_MS
        } else {
            u64::MAX
        };
        let session = Session {
            did: did.to_owned(),
            access_token: access_token.clone(),
            refresh_token: refresh_token.clone(),
            dpop_jkt: dpop_jkt.to_owned(),
            created_at_ms: now_ms,
            expires_at_ms,
            handle: handle.to_owned(),
        };
        self.sessions.insert(access_token.clone(), session.copied());
        self.refresh_index.insert(refresh_token, access_token);
        assert(self.state() =~= before.with_session(session.deep_view()));
        session
    }

    /// Opens a session for an identifier with its password, given the time.
    pub fn create_session_at(
        &mut self,
        identifier: &str,
        password: &str,
        handle: &str,
        dpop_jkt: &str,
        now_ms: u64,
    ) -> (out: Result<Session, SessionError>)
        requires
            old(self).wf(),
        ensures
            final(self).wf(),
            match out {
                Ok(s) => {
                    &&& old(self).state().knows(identifier@, password@)
                    &&& s.deep_view() == new_session(
                        identifier@,
                        handle@,
                        dpop_jkt@,
                        now_ms,
                        old(self).state().counter,
                    )
                    &&& final(self).state() == old(self).state().with_session(s.deep_view())
                },
                Err(e) => e == SessionError::AuthenticationRequired && !old(self).state().knows(
                    identifier@,
                    password@,
                ) && final(self).state() == old(self).state(),
            },
    {
        let hash = hash_password(password);
        let known = match self.credentials.get(&identifier.to_owned()) {
            Some(stored) => same_text(stored.as_str(), hash.as_str()),
            None => false,
        };
        if !known {
            return Err(SessionError::AuthenticationRequired);
        }
        Ok(self.add_session(identifier, handle, dpop_jkt, now_ms))
    }

    /// Opens a session for an identifier with its password.
    pub fn create_session(
        &mut self,
        identifier: &str,
        password: &str,
        handle: &str,
        dpop_jkt: &str,
    ) -> (out: Result<Session, SessionError>)
        requires
            old(self).wf(),
        ensures
            final(self).wf(),
            session_opened(
                old(self).state(),
                final(self).state(),
                identifier@,
                password@,
                handle@,
                dpop_jkt@,
                out,
            ),
    {
        self.create_session_at(identifier, password, handle, dpop_jkt, unix_millis())
    }

    /// Replaces a session by a new one with the same key, given the time. The
    /// refresh token is spent.
    pub fn refresh_session_at(&mut self, refresh_token: &str, now_ms: u64) -> (out: Result<
        Session,
        SessionError,
    >)
        requires
            old(self).wf(),
        ensures
            final(self).wf(),
            ({
                let (after, want) = old(self).state().refreshed(refresh_token@, now_ms);
                &&& final(self).state() == after
                &&& match (out, want) {
                    (Ok(s), Ok(v)) => s.deep_view() == v,
                    (Err(e), Err(f)) => e == f,
                    _ => false,
                }
            }),
    {
        let ghost before = self.state();
        let access = match self.refresh_index.remove(&refresh_token.to_owned()) {
            Some(access) => access,
            None => {
                assert(self.state() =~= before);
                return Err(SessionError::InvalidToken);
            },
        };
        let ghost spent = SessionsView { refresh: before.refresh.remove(refresh_token@), ..before };
        assert(self.state() =~= spent);
        let old_session = match self.sessions.remove(&access) {
            Some(s) => s,
            None => {
                assert(self.state() =~= spent);
                return Err(SessionError::InvalidToken);
            },
        };
        assert(self.state() =~= (SessionsView {
            sessions: before.sessions.remove(access@),
            ..spent
        }));
        Ok(
            self.add_session(
                old_session.did.as_str(),
                old_session.handle.as_str(),
                old_session.dpop_jkt.as_str(),
                now_ms,
            ),
        )
    }

    /// Replaces a session by a new one with the same key. The refresh token is
    /// spent.
    pub fn refresh_session(&mut self, refresh_token: &str) -> (out: Result<Session, SessionError>)
        requires
            old(self).wf(),
        ensures
            final(self).wf(),
            match out {
                Ok(s) => old(self).state().refreshed(refresh_token@, s.created_at_ms) == (
                    final(self).state(),
                    Ok::<SessionView, SessionError>(s.deep_view()),
                ),
                Err(e) => old(self).state().refreshed(refresh_token@, 0) == (
                    final(self).state(),
                    Err::<SessionView, SessionError>(e),
                ),
            },
    {
        self.refresh_session_at(refresh_token, unix_millis())
    }

    /// Ends a session.
    pub fn delete_session(&mut self, access_token: &str) -> (out: Result<(), SessionError>)
        requires
            old(self).wf(),
        ensures
            final(self).wf(),
            match out {
                Ok(_) => old(self).state().sessions.dom().contains(access_token@) && final(
                    self).state() == old(self).state().without_session(access_token@),
                Err(e) => e == SessionError::InvalidToken && !old(
                    self).state().sessions.dom().contains(access_token@) && final(self).state()
                    == old(self).state(),
            },
    {
        let ghost before = self.state();
        let session = match self.sessions.remove(&access_token.to_owned()) {
            Some(s) => s,
            None => {
                assert(self.state() =~= before);
                return Err(SessionError::InvalidToken);
            },
        };
        self.refresh_index.remove(&session.refresh_token);
        assert(self.state() =~= before.without_session(access_token@));
        Ok(())
    }

    /// The session of an access token, given the time.
    pub fn get_session_at(&self, access_token: &str, now_ms: u64) -> (out: Result<
        Session,
        SessionError,
    >)
        requires
            self.wf(),
        ensures
            match (out, self.state().session(access_token@, now_ms)) {
                (Ok(s), Ok(v)) => s.deep_view() == v,
                (Err(e), Err(f)) => e == f,
                _ => false,
            },
    {
        match self.sessions.get(&access_token.to_owned()) {
            Some(session) => if session.expires_at_ms < now_ms {
                Err(SessionError::ExpiredToken)
            } else {
                Ok(session.copied())
            },
            None => Err(SessionError::InvalidToken),
        }
    }

    /// The session of an access token.
    pub fn get_session(&self, access_token: &str) -> (out: Result<Session, SessionError>)
        requires
            self.wf(),
        ensures
            exists|now_ms: u64|
                match (out, #[trigger] self.state().session(access_token@, now_ms)) {
                    (Ok(s), Ok(v)) => s.deep_view() == v,
                    (Err(e), Err(f)) => e == f,
                    _ => false,
                },
    {
        self.get_session_at(access_token, unix_millis())
    }

    /// Checks a request against its proof of possession, given the time: the
    /// token, that the proof is new, the method, the address, the token's hash,
    /// the key and the time. Gives the identifier of the session. The proof is
    /// remembered once the token is found good.
    pub fn verify_dpop_request_at(
        &mut self,
        access_token: &str,
        dpop_claims: &DpopClaims,
        request_method: &str,
        request_uri: &str,
        now_ms: u64,
    ) -> (out: Result<String, SessionError>)
        requires
            old(self).wf(),
        ensures
            final(self).wf(),
            dpop_checked(
                old(self).state(),
                final(self).state(),
                access_token@,
                *dpop_claims,
                request_method@,
                request_uri@,
                now_ms,
                out,
            ),
    {
        let ghost before = self.state();
        let session = match self.get_session_at(access_token, now_ms) {
            Ok(s) => s,
            Err(e) => return Err(e),
        };
        let seen = self.seen_jtis.contains(&dpop_claims.jti);
        if seen {
            assert(before.seen.insert(dpop_claims.jti@) =~= before.seen);
            return Err(SessionError::ReplayDetected);
        }
        self.seen_jtis.insert(dpop_claims.jti.clone(), true);
        proof {
            assert(self.state().seen =~= before.seen.insert(dpop_claims.jti@));
            assert(self.state() =~= (SessionsView {
                seen: before.seen.insert(dpop_claims.jti@),
                ..before
            }));
        }
        let claimed = uppercase(dpop_claims.htm.as_str());
        let actual = uppercase(request_method);
        if !same_text(claimed.as_str(), actual.as_str()) {
            return Err(SessionError::MethodMismatch);
        }
        let clean: String = match split_once(request_uri, '?') {
            Some(parts) => parts.0,
            None => request_uri.to_owned(),
        };
        if !same_text(dpop_claims.htu.as_str(), clean.as_str()) {
            return Err(SessionError::UriMismatch);
        }
        let ath = base64url_sha256(access_token.as_bytes());
        if !same_text(dpop_claims.ath.as_str(), ath.as_str()) {
            return Err(SessionError::TokenHashMismatch);
        }
        if !same_text(dpop_claims.jkt.as_str(), session.dpop_jkt.as_str()) {
            return Err(SessionError::KeyMismatch);
        }
        let now: u64 = now_ms / 1000;
        let iat: u64 = dpop_claims.iat;
        if (iat < now && now - iat > CLOCK_SKEW_SECS) || (iat > now && iat - now
            > CLOCK_SKEW_SECS) {
            return Err(SessionError::ProofExpired);
        }
        Ok(session.did)
    }

    /// Checks a request against its proof of possession.
    pub fn verify_dpop_request(
        &mut self,
        access_token: &str,
        dpop_claims: &DpopClaims,
        request_method: &str,
        request_uri: &str,
    ) -> (out: Result<String, SessionError>)
        requires
            old(self).wf(),
        ensures
            final(self).wf(),
            exists|now_ms: u64|
                #[trigger] dpop_checked(
                    old(self).state(),
                    final(self).state(),
                    access_token@,
                    *dpop_claims,
                    request_method@,
                    request_uri@,
                    now_ms,
                    out,
                ),
    {
        self.verify_dpop_request_at(
            access_token,
            dpop_claims,
            request_method,
            request_uri,
            unix_millis(),
        )
    }

    /// The identifier of an access token's session, given the time.
    pub fn validate_token_at(&self, access_token: &str, now_ms: u64) -> (out: Option<String>)
        requires
            self.wf(),
        ensures
            match (out, self.state().session(access_token@, now_ms)) {
                (Some(did), Ok(s)) => did@ == s.did,
                (None, Err(_)) => true,
                _ => false,
            },
    {
        match self.get_session_at(access_token, now_ms) {
            Ok(s) => Some(s.did),
            Err(_) => None,
        }
    }

    /// The identifier of an access token's session.
    pub fn validate_token(&self, access_token: &str) -> (out: Option<String>)
        requires
            self.wf(),
        ensures
            exists|now_ms: u64|
                match (out, #[trigger] self.state().session(access_token@, now_ms)) {
                    (Some(did), Ok(s)) => did@ == s.did,
                    (None, Err(_)) => true,
                    _ => false,
                },
    {
        self.validate_token_at(access_token, unix_millis())
    }
}

impl Default for SessionStore {
    fn default() -> (out: Self)
        ensures
            out.wf(),
            out.state().sessions == Map::<Seq<char>, SessionView>::empty(),
            out.state().credentials == Map::<Seq<char>, Seq<char>>::empty(),
    {
        Self::new()
    }
}

// -- Laws ---------------------------------------------------------------------------------------

/// A session that was opened is found by its access token until it expires.
pub proof fn law_session_found(v: SessionsView, s: SessionView, now_ms: u64)
    ensures
        v.with_session(s).session(s.access_token, now_ms) == (if s.expires_at_ms < now_ms {
            Err(SessionError::ExpiredToken)
        } else {
            Ok(s)
        }),
{
}

/// A session that was ended is not found, and cannot be refreshed.
pub proof fn law_session_ended(v: SessionsView, token: Seq<char>, now_ms: u64)
    requires
        v.sessions.dom().contains(token),
    ensures
        v.without_session(token).session(token, now_ms) == Err::<SessionView, SessionError>(
            SessionError::InvalidToken,
        ),
        v.without_session(token).refreshed(v.sessions[token].refresh_token, now_ms).1 == Err::<
            SessionView,
            SessionError,
        >(SessionError::InvalidToken),
{
}

/// Refreshing a session keeps its identifier and its key, and spends both of its
/// tokens, unless they happen to be those of the new session.
pub proof fn law_refresh_rotates(v: SessionsView, refresh_token: Seq<char>, now_ms: u64)
    ensures
        ({
            let (after, out) = v.refreshed(refresh_token, now_ms);
            out matches Ok(s) ==> {
                let access = v.refresh[refresh_token];
                &&& s.did == v.sessions[access].did
                &&& s.dpop_jkt == v.sessions[access].dpop_jkt
                &&& after.session(s.access_token, now_ms) == Ok::<SessionView, SessionError>(s)
                &&& s.access_token != access ==> after.session(access, now_ms) == Err::<
                    SessionView,
                    SessionError,
                >(SessionError::InvalidToken)
                &&& s.refresh_token != refresh_token ==> after.refreshed(
                    refresh_token,
                    now_ms,
                ).1 == Err::<SessionView, SessionError>(SessionError::InvalidToken)
            }
        }),
{
}

/// A proof is good for one request: once it was checked with a good token, it is
/// turned down with any good token.
pub proof fn law_replay(
    v: SessionsView,
    w: SessionsView,
    x: SessionsView,
    token: Seq<char>,
    other: Seq<char>,
    claims: DpopClaims,
    method: Seq<char>,
    uri: Seq<char>,
    now_ms: u64,
    later_ms: u64,
    first: Result<String, SessionError>,
    second: Result<String, SessionError>,
)
    requires
        dpop_checked(v, w, token, claims, method, uri, now_ms, first),
        v.session(token, now_ms) is Ok,
        dpop_checked(w, x, other, claims, method, uri, later_ms, second),
        w.session(other, later_ms) is Ok,
    ensures
        second == Err::<String, SessionError>(SessionError::ReplayDetected),
{
}

// -- Proofs -------------------------------------------------------------------------------------

/// What the header of a proof says.
#[derive(Debug)]
pub struct ProofHeader {
    pub typ: Option<String>,
    pub alg: Option<String>,
    pub kty: Option<String>,
    pub crv: Option<String>,
    pub x: Option<String>,
    pub y: Option<String>,
}

/// What the header of a proof says.
pub struct HeaderFields {
    pub typ: Option<Seq<char>>,
    pub alg: Option<Seq<char>>,
    pub kty: Option<Seq<char>>,
    pub crv: Option<Seq<char>>,
    pub x: Option<Seq<char>>,
    pub y: Option<Seq<char>>,
}

/// What the payload of a proof says.
#[derive(Debug)]
pub struct ProofPayload {
    pub jti: Option<String>,
    pub htm: Option<String>,
    pub htu: Option<String>,
    pub iat: Option<u64>,
    pub ath: Option<String>,
}

/// What the payload of a proof says.
pub struct PayloadFields {
    pub jti: Option<Seq<char>>,
    pub htm: Option<Seq<char>>,
    pub htu: Option<Seq<char>>,
    pub iat: Option<u64>,
    pub ath: Option<Seq<char>>,
}

/// The text of an optional string.
pub open spec fn shown(s: Option<String>) -> Option<Seq<char>> {
    match s {
        Some(s) => Some(s@),
        None => None,
    }
}

impl DeepView for ProofHeader {
    type V = HeaderFields;

    open spec fn deep_view(&self) -> HeaderFields {
        HeaderFields {
            typ: shown(self.typ),
            alg: shown(self.alg),
            kty: shown(self.kty),
            crv: shown(self.crv),
            x: shown(self.x),
            y: shown(self.y),
        }
    }
}

impl DeepView for ProofPayload {
    type V = PayloadFields;

    open spec fn deep_view(&self) -> PayloadFields {
        PayloadFields {
            jti: shown(self.jti),
            htm: shown(self.htm),
            htu: shown(self.htu),
            iat: self.iat,
            ath: shown(self.ath),
        }
    }
}

/// The text under a key of a JSON object; none where there is no such text.
pub open spec fn text_under(data: Seq<u8>, key: Seq<char>) -> Option<Seq<char>> {
    match json_text_of(data, key) {
        Some(text) => text,
        None => None,
    }
}

/// The text under a key of the `jwk` of a proof's header.
pub open spec fn jwk_text(data: Seq<u8>, key: Seq<char>) -> Option<Seq<char>> {
    match json_part_of(data, "jwk"@) {
        Some(Some(jwk)) => text_under(jwk.bytes, key),
        _ => None,
    }
}

/// The fields of a proof's header in JSON: `typ` and `alg`, and those of `jwk`;
/// none where it is not JSON.
pub open spec fn proof_header_of(data: Seq<u8>) -> Option<HeaderFields> {
    if json_part_of(data, "jwk"@) is None {
        None
    } else {
        Some(
            HeaderFields {
                typ: text_under(data, "typ"@),
                alg: text_under(data, "alg"@),
                kty: jwk_text(data, "kty"@),
                crv: jwk_text(data, "crv"@),
                x: jwk_text(data, "x"@),
                y: jwk_text(data, "y"@),
            },
        )
    }
}

/// The fields of a proof's payload in JSON: `iat` is a number, the others are
/// texts; none where it is not JSON.
pub open spec fn proof_payload_of(data: Seq<u8>) -> Option<PayloadFields> {
    match json_part_of(data, "iat"@) {
        None => None,
        Some(iat) => Some(
            PayloadFields {
                jti: text_under(data, "jti"@),
                htm: text_under(data, "htm"@),
                htu: text_under(data, "htu"@),
                iat: match iat {
                    Some(part) => part.number,
                    None => None,
                },
                ath: text_under(data, "ath"@),
            },
        ),
    }
}

fn read_under(data: &[u8], key: &str) -> (out: Option<String>)
    ensures
        shown(out) == text_under(data@, key@),
{
    match json_text(data, key) {
        Some(text) => text,
        None => None,
    }
}

/// Reads the header of a proof.
fn read_proof_header(data: &[u8]) -> (out: Option<ProofHeader>)
    ensures
        match out {
            Some(h) => proof_header_of(data@) == Some(h.deep_view()),
            None => proof_header_of(data@) is None,
        },
{
    let found = match json_part(data, "jwk") {
        Some(found) => found,
        None => return None,
    };
    let typ = read_under(data, "typ");
    let alg = read_under(data, "alg");
    match found {
        Some(jwk) => {
            let key = jwk.bytes.as_slice();
            Some(
                ProofHeader {
                    typ,
                    alg,
                    kty: read_under(key, "kty"),
                    crv: read_under(key, "crv"),
                    x: read_under(key, "x"),
                    y: read_under(key, "y"),
                },
            )
        },
        None => Some(ProofHeader { typ, alg, kty: None, crv: None, x: None, y: None }),
    }
}

/// Reads the payload of a proof.
fn read_proof_payload(data: &[u8]) -> (out: Option<ProofPayload>)
    ensures
        match out {
            Some(p) => proof_payload_of(data@) == Some(p.deep_view()),
            None => proof_payload_of(data@) is None,
        },
{
    let iat: Option<u64> = match json_part(data, "iat") {
        Some(Some(part)) => part.number,
        Some(None) => None,
        None => return None,
    };
    Some(
        ProofPayload {
            jti: read_under(data, "jti"),
            htm: read_under(data, "htm"),
            htu: read_under(data, "htu"),
            iat,
            ath: read_under(data, "ath"),
        },
    )
}

/// The three parts of a proof, between its dots.
pub open spec fn proof_parts(jwt: Seq<char>) -> Option<(Seq<char>, Seq<char>, Seq<char>)> {
    match split_once_spec(jwt, '.') {
        None => None,
        Some((header, rest)) => match split_once_spec(rest, '.') {
            None => None,
            Some((payload, signature)) => if split_once_spec(signature, '.') is Some {
                None
            } else {
                Some((header, payload, signature))
            },
        },
    }
}

/// The public key that a header names, uncompressed: for a P-256 key that signs
/// with ES256.
pub open spec fn header_key(h: HeaderFields) -> Option<Seq<u8>> {
    match (h.x, h.y) {
        (Some(x), Some(y)) => if h.typ == Some("dpop+jwt"@) && h.alg == Some("ES256"@) && h.kty
            == Some("EC"@) && h.crv == Some("P-256"@) {
            match (radix_decoded(Radix::Base64Url, x), radix_decoded(Radix::Base64Url, y)) {
                (Some(a), Some(b)) => if a.len() == 32 && b.len() == 32 {
                    Some(seq![4u8] + a + b)
                } else {
                    None
                },
                _ => None,
            }
        } else {
            None
        },
        _ => None,
    }
}

/// What a proof's signature is checked against: the key, what was signed, the
/// signature.
pub open spec fn proof_to_check(jwt: Seq<char>) -> Option<(Seq<u8>, Seq<u8>, Seq<u8>)> {
    match proof_parts(jwt) {
        None => None,
        Some((header, payload, signature)) => match radix_decoded(Radix::Base64Url, header) {
            None => None,
            Some(data) => match proof_header_of(data) {
                None => None,
                Some(h) => match (header_key(h), radix_decoded(Radix::Base64Url, signature)) {
                    (Some(key), Some(sig)) => Some(
                        (key, encode_utf8(header + "."@ + payload), sig),
                    ),
                    _ => None,
                },
            },
        },
    }
}

/// Whether claims are those of a header and a payload.
pub open spec fn claims_of(c: DpopClaims, h: HeaderFields, p: PayloadFields) -> bool {
    &&& p.jti == Some(c.jti@)
    &&& p.htm == Some(c.htm@)
    &&& p.htu == Some(c.htu@)
    &&& p.iat == Some(c.iat)
    &&& c.ath@ == (match p.ath {
        Some(a) => a,
        None => Seq::empty(),
    })
    &&& c.jkt@ == digest64(encode_utf8(canonical_jwk(h.x->0, h.y->0)))
}

/// Whether a payload makes all the claims that it must.
pub open spec fn payload_complete(p: PayloadFields) -> bool {
    p.jti is Some && p.htm is Some && p.htu is Some && p.iat is Some
}

fn split_proof(jwt: &str) -> (out: Option<(String, String, String)>)
    ensures
        match (out, proof_parts(jwt@)) {
            (Some((a, b, c)), Some((x, y, z))) => a@ == x && b@ == y && c@ == z,
            (None, None) => true,
            _ => false,
        },
{
    let (header, rest) = match split_once(jwt, '.') {
        Some(parts) => parts,
        None => return None,
    };
    let (payload, signature) = match split_once(rest.as_str(), '.') {
        Some(parts) => parts,
        None => return None,
    };
    if split_once(signature.as_str(), '.').is_some() {
        return None;
    }
    Some((header, payload, signature))
}

fn is_text(s: &Option<String>, want: &str) -> (yes: bool)
    ensures
        yes == (shown(*s) == Some(want@)),
{
    match s {
        Some(t) => same_text(t.as_str(), want),
        None => false,
    }
}

fn key_bytes(h: &ProofHeader) -> (out: Option<Vec<u8>>)
    ensures
        match (out, header_key(h.deep_view())) {
            (Some(v), Some(k)) => v@ == k,
            (None, None) => true,
            _ => false,
        },
{
    let x = match &h.x {
        Some(x) => x,
        None => return None,
    };
    let y = match &h.y {
        Some(y) => y,
        None => return None,
    };
    if !is_text(&h.typ, "dpop+jwt") || !is_text(&h.alg, "ES256") || !is_text(&h.kty, "EC")
        || !is_text(&h.crv, "P-256") {
        return None;
    }
    let a = match radix_decode(Radix::Base64Url, x.as_str()) {
        Some(a) => a,
        None => return None,
    };
    let b = match radix_decode(Radix::Base64Url, y.as_str()) {
        Some(b) => b,
        None => return None,
    };
    if a.len() != 32 || b.len() != 32 {
        return None;
    }
    let mut key: Vec<u8> = Vec::new();
    key.push(4);
    assert(key@ =~= seq![4u8]);
    append_bytes(&mut key, a.as_slice());
    append_bytes(&mut key, b.as_slice());
    Some(key)
}

fn proof_header(header_b64: &str) -> (out: Option<ProofHeader>)
    ensures
        match (out, radix_decoded(Radix::Base64Url, header_b64@)) {
            (Some(h), Some(data)) => proof_header_of(data) == Some(h.deep_view()),
            (None, Some(data)) => proof_header_of(data) is None,
            (None, None) => true,
            _ => false,
        },
{
    match radix_decode(Radix::Base64Url, header_b64) {
        Some(data) => read_proof_header(data.as_slice()),
        None => None,
    }
}

/// What a proof's signature is to be checked against: the key, what was signed,
/// the signature.
pub fn dpop_proof_to_check(proof_jwt: &str) -> (out: Result<
    (Vec<u8>, Vec<u8>, Vec<u8>),
    SessionError,
>)
    ensures
        match (out, proof_to_check(proof_jwt@)) {
            (Ok((key, signed, sig)), Some((k, d, s))) => key@ == k && signed@ == d && sig@ == s,
            (Err(e), None) => e == SessionError::InvalidToken,
            _ => false,
        },
{
    let (header, payload, signature) = match split_proof(proof_jwt) {
        Some(parts) => parts,
        None => return Err(SessionError::InvalidToken),
    };
    let fields = match proof_header(header.as_str()) {
        Some(fields) => fields,
        None => return Err(SessionError::InvalidToken),
    };
    let key = match key_bytes(&fields) {
        Some(key) => key,
        None => return Err(SessionError::InvalidToken),
    };
    let sig = match radix_decode(Radix::Base64Url, signature.as_str()) {
        Some(sig) => sig,
        None => return Err(SessionError::InvalidToken),
    };
    let signed = joined3(header.as_str(), ".", payload.as_str());
    Ok((key, crate::bytes::copy_bytes(signed.as_str().as_bytes()), sig))
}

/// The header and payload of a proof that can be checked and makes all its
/// claims.
pub open spec fn proof_fields(jwt: Seq<char>) -> Option<(HeaderFields, PayloadFields)> {
    match proof_to_check(jwt) {
        None => None,
        Some(_) => {
            let (header, payload, _) = proof_parts(jwt)->0;
            let h = proof_header_of(radix_decoded(Radix::Base64Url, header)->0)->0;
            match radix_decoded(Radix::Base64Url, payload) {
                None => None,
                Some(data) => match proof_payload_of(data) {
                    None => None,
                    Some(p) => if payload_complete(p) {
                        Some((h, p))
                    } else {
                        None
                    },
                },
            }
        },
    }
}

/// The claims of a proof, given whether its signature is good.
pub fn parse_and_verify_dpop_proof(proof_jwt: &str, signature_good: bool) -> (out: Result<
    DpopClaims,
    SessionError,
>)
    ensures
        match out {
            Ok(c) => signature_good && (proof_fields(proof_jwt@) matches Some((h, p)) && claims_of(
                c,
                h,
                p,
            )),
            Err(e) => e == SessionError::InvalidToken && (!signature_good || proof_fields(
                proof_jwt@,
            ) is None),
        },
{
    let (header, payload, _) = match split_proof(proof_jwt) {
        Some(parts) => parts,
        None => return Err(SessionError::InvalidToken),
    };
    if dpop_proof_to_check(proof_jwt).is_err() {
        return Err(SessionError::InvalidToken);
    }
    if !signature_good {
        return Err(SessionError::InvalidToken);
    }
    let h = match proof_header(header.as_str()) {
        Some(h) => h,
        None => return Err(SessionError::InvalidToken),
    };
    let data = match radix_decode(Radix::Base64Url, payload.as_str()) {
        Some(data) => data,
        None => return Err(SessionError::InvalidToken),
    };
    let p = match read_proof_payload(data.as_slice()) {
        Some(p) => p,
        None => return Err(SessionError::InvalidToken),
    };
    let ghost fields = p.deep_view();
    let ath: String = match p.ath {
        Some(a) => a,
        None => String::new(),
    };
    assert(ath@ =~= (match fields.ath {
        Some(a) => a,
        None => Seq::empty(),
    }));
    match (p.jti, p.htm, p.htu, p.iat, &h.x, &h.y) {
        (Some(jti), Some(htm), Some(htu), Some(iat), Some(x), Some(y)) => Ok(
            DpopClaims { jti, htm, htu, iat, ath, jkt: jwk_thumbprint_p256(x.as_str(), y.as_str()) },
        ),
        _ => Err(SessionError::InvalidToken),
    }
}

// -- Laws of signing in and of proofs -------------------------------------------------------------

/// A session opens where the password has the SHA-256 digest that is on file for
/// the identifier, and nowhere else. It is the identifier's, lasts an hour, and is
/// found by its access token up to the end of that hour and not behind it.
pub proof fn law_sign_in(
    before: SessionsView,
    after: SessionsView,
    identifier: Seq<char>,
    password: Seq<char>,
    handle: Seq<char>,
    dpop_jkt: Seq<char>,
    out: Result<Session, SessionError>,
    now_ms: u64,
)
    requires
        session_opened(before, after, identifier, password, handle, dpop_jkt, out),
    ensures
        out is Ok <==> before.credentials.dom().contains(identifier)
            && before.credentials[identifier] == hex_of(sha256_of(encode_utf8(password))),
        out is Err ==> after == before,
        out matches Ok(s) ==> {
            &&& s.did@ == identifier && s.handle@ == handle && s.dpop_jkt@ == dpop_jkt
            &&& s.created_at_ms <= u64::MAX - 3_600_000 ==> s.expires_at_ms == s.created_at_ms
                + 3_600_000
            &&& after.session(s.access_token@, now_ms) is Ok <==> now_ms <= s.expires_at_ms
            &&& after.session(s.access_token@, now_ms) matches Ok(found) ==> found.did == identifier
            &&& after.refresh.dom().contains(s.refresh_token@)
            &&& after.refresh[s.refresh_token@] == s.access_token@
        },
{
}

/// A request passes where its token has a session that has not ended, its proof
/// was not seen before, and the proof names the method of the request in upper or
/// lower case, its URI without the query, the digest of the token, the key of the
/// session, and a time within five minutes of now. It is then the session's
/// identifier that is let in.
pub proof fn law_proof_accepted(
    before: SessionsView,
    after: SessionsView,
    token: Seq<char>,
    claims: DpopClaims,
    method: Seq<char>,
    front: Seq<char>,
    query: Seq<char>,
    now_ms: u64,
    out: Result<String, SessionError>,
)
    requires
        dpop_checked(before, after, token, claims, method, front + seq!['?'] + query, now_ms, out),
        !front.contains('?'),
    ensures
        out is Ok <==> {
            &&& before.sessions.dom().contains(token)
            &&& now_ms <= before.sessions[token].expires_at_ms
            &&& !before.seen.contains(claims.jti@)
            &&& uppercase_of(claims.htm@) == uppercase_of(method)
            &&& claims.htu@ == front
            &&& claims.ath@ == radix_text(Radix::Base64Url, sha256_of(encode_utf8(token)))
            &&& claims.jkt@ == before.sessions[token].dpop_jkt
            &&& claims.iat + 300 >= now_ms / 1000
            &&& claims.iat <= now_ms / 1000 + 300
        },
        out matches Ok(did) ==> did@ == before.sessions[token].did,
        out is Ok ==> after.seen.contains(claims.jti@),
        after.sessions == before.sessions,
{
    let uri = front + seq!['?'] + query;
    assert forall|k: int| 0 <= k < front.len() implies uri[k] != '?' by {
        assert(uri[k] == front[k]);
        assert(front.contains(front[k]));
    }
    assert(uri[front.len() as int] == '?');
    crate::text::lemma_first_index(uri, '?', front.len() as int);
    assert(uri.take(front.len() as int) =~= front);
}

/// Refreshing a session that is on file goes well, and the new one is the same
/// account's: its identifier, its handle and its key.
pub proof fn law_refresh_keeps(v: SessionsView, refresh_token: Seq<char>, now_ms: u64)
    ensures
        v.refreshed(refresh_token, now_ms).1 is Ok <==> v.refresh.dom().contains(refresh_token)
            && v.sessions.dom().contains(v.refresh[refresh_token]),
        v.refreshed(refresh_token, now_ms).1 matches Ok(s) ==> {
            let old = v.sessions[v.refresh[refresh_token]];
            &&& s.did == old.did && s.handle == old.handle && s.dpop_jkt == old.dpop_jkt
            &&& s.created_at_ms == now_ms
            &&& now_ms <= u64::MAX - 3_600_000 ==> s.expires_at_ms == now_ms + 3_600_000
        },
{
}

/// A proof is three parts with dots between them, and no more.
pub proof fn law_proof_parts(header: Seq<char>, payload: Seq<char>, signature: Seq<char>)
    requires
        !header.contains('.'),
        !payload.contains('.'),
    ensures
        !signature.contains('.') ==> proof_parts(
            header + seq!['.'] + payload + seq!['.'] + signature,
        ) == Some((header, payload, signature)),
        signature.contains('.') ==> proof_parts(
            header + seq!['.'] + payload + seq!['.'] + signature,
        ) is None,
{
    let rest = payload + seq!['.'] + signature;
    let jwt = header + seq!['.'] + payload + seq!['.'] + signature;
    assert(jwt =~= header + seq!['.'] + rest);
    lemma_dot(header, rest);
    lemma_dot(payload, signature);
    if !signature.contains('.') {
        assert forall|k: int| 0 <= k < signature.len() implies signature[k] != '.' by {
            assert(signature.contains(signature[k]));
        }
        crate::text::lemma_first_index(signature, '.', signature.len() as int);
    } else {
        let i = choose|i: int| 0 <= i < signature.len() && signature[i] == '.';
        if split_once_spec(signature, '.') is None {
            lemma_no_first(signature, '.', i);
        }
    }
}

proof fn lemma_dot(front: Seq<char>, back: Seq<char>)
    requires
        !front.contains('.'),
    ensures
        split_once_spec(front + seq!['.'] + back, '.') == Some((front, back)),
{
    let s = front + seq!['.'] + back;
    assert forall|k: int| 0 <= k < front.len() implies s[k] != '.' by {
        assert(s[k] == front[k]);
        assert(front.contains(front[k]));
    }
    assert(s[front.len() as int] == '.');
    crate::text::lemma_first_index(s, '.', front.len() as int);
    assert(s.take(front.len() as int) =~= front);
    assert(s.skip(front.len() as int + 1) =~= back);
}

proof fn lemma_no_first(s: Seq<char>, c: char, i: int)
    requires
        0 <= i < s.len(),
        s[i] == c,
    ensures
        crate::text::first_index(s, c) <= i,
    decreases s.len(),
{
    if s[0] != c {
        lemma_no_first(s.drop_first(), c, i - 1);
    }
}

} // verus!
