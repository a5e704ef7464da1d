//! Requests of the identity protocol, with their JSON bodies.

use vstd::prelude::*;
use vstd::utf8::encode_utf8;

use crate::body::{
    both, denied, needed_text, number_in, read_needed_text, read_number, read_text, read_text_else,
    text_else, text_in, BodyError, BodyFault, Denied,
};
use crate::bytes::copy_bytes;
use crate::hexadecimal::{hex_bytes, hex_decode};
use crate::identity::{
    anchor_blob, anchor_of, anchor_registered, assertion_published, key_anchor, publish_assertion,
    publish_revocation, publish_watermark, reason_named, register_anchor, revocation_published,
    watermark_published, AssertionView, IdentityAssertion, Revocation, RevocationReason,
    RevocationView,
};
use crate::json::shown_text;
use crate::store::identity::{Watermark, WatermarkView};
use crate::store::memory::InMemoryStore;
use crate::store::state::StoreState;
use crate::types::{deterministic_uuid, NamespaceRef, StoreError};

verus! {

/// A number, or zero where there is none.
pub open spec fn number_or_zero(n: Option<u64>) -> u64 {
    match n {
        Some(v) => v,
        None => 0,
    }
}

// -- Assertions -----------------------------------------------------------------------

/// What a body says in order to have an assertion published: the key that it is
/// signed with, and the assertion without its asserter.
#[derive(Debug)]
pub struct AssertionRequest {
    pub algorithm: String,
    pub public_key: Vec<u8>,
    pub assertion: IdentityAssertion,
    /// Whom the assertion is for, where it is not for everyone.
    pub audience: Option<String>,
}

/// Why what a body says is refused.
#[derive(Debug)]
pub enum AssertionFault {
    Body(BodyError),
    /// What stands under this key is not hexadecimal.
    NotHex(String),
}

/// What is wrong with what a body says.
pub enum AssertionFaultView {
    Body(BodyFault),
    NotHex(Seq<char>),
}

impl DeepView for AssertionFault {
    type V = AssertionFaultView;

    open spec fn deep_view(&self) -> AssertionFaultView {
        match self {
            AssertionFault::Body(e) => AssertionFaultView::Body(e.deep_view()),
            AssertionFault::NotHex(key) => AssertionFaultView::NotHex(key@),
        }
    }
}

/// What stands in hexadecimal under a key.
pub open spec fn hex_in(body: Seq<u8>, key: Seq<char>) -> Result<Seq<u8>, AssertionFaultView> {
    match needed_text(body, key) {
        Err(f) => Err(AssertionFaultView::Body(f)),
        Ok(digits) => match hex_bytes(digits) {
            Some(bytes) => Ok(bytes),
            None => Err(AssertionFaultView::NotHex(key)),
        },
    }
}

/// The bytes that a text stands for in hexadecimal, or its own bytes where it is
/// not hexadecimal.
pub open spec fn hex_or_text(text: Seq<char>) -> Seq<u8> {
    match hex_bytes(text) {
        Some(bytes) => bytes,
        None => encode_utf8(text),
    }
}

/// What is wrong with the body of an assertion: the first thing that is.
pub open spec fn assertion_fault(body: Seq<u8>) -> Option<AssertionFaultView> {
    match needed_text(body, "algorithm"@) {
        Err(f) => Some(AssertionFaultView::Body(f)),
        Ok(_) => match hex_in(body, "public_key"@) {
            Err(f) => Some(f),
            Ok(_) => match both(
                both(
                    both(needed_text(body, "subject"@), needed_text(body, "facet"@)),
                    text_else(body, "value"@, ""@),
                ),
                both(
                    text_else(body, "basis"@, "self-asserted"@),
                    both(number_in(body, "valid_from_ms"@), number_in(body, "valid_until_ms"@)),
                ),
            ) {
                Err(f) => Some(AssertionFaultView::Body(f)),
                Ok(_) => match hex_in(body, "signature"@) {
                    Err(f) => Some(f),
                    Ok(_) => match text_in(body, "audience"@) {
                        Err(f) => Some(AssertionFaultView::Body(f)),
                        Ok(_) => None,
                    },
                },
            },
        },
    }
}

/// Whether a request is what a body says.
pub open spec fn says_assertion(body: Seq<u8>, r: AssertionRequest) -> bool {
    let a = r.assertion;
    &&& needed_text(body, "algorithm"@) == Ok::<Seq<char>, BodyFault>(r.algorithm@)
    &&& hex_in(body, "public_key"@) == Ok::<Seq<u8>, AssertionFaultView>(r.public_key@)
    &&& a.asserter@.len() == 0
    &&& needed_text(body, "subject"@) == Ok::<Seq<char>, BodyFault>(a.subject@)
    &&& needed_text(body, "facet"@) == Ok::<Seq<char>, BodyFault>(a.facet@)
    &&& text_else(body, "value"@, ""@) matches Ok(v) && a.value@ == hex_or_text(v)
    &&& text_else(body, "basis"@, "self-asserted"@) == Ok::<Seq<char>, BodyFault>(a.basis@)
    &&& number_in(body, "valid_from_ms"@) matches Ok(n) && a.valid_from_ms == number_or_zero(n)
    &&& number_in(body, "valid_until_ms"@) == Ok::<Option<u64>, BodyFault>(a.valid_until_ms)
    &&& hex_in(body, "signature"@) == Ok::<Seq<u8>, AssertionFaultView>(a.signature@)
    &&& text_in(body, "audience"@) == Ok::<Option<Seq<char>>, BodyFault>(shown_text(r.audience))
}

fn read_hex(body: &[u8], key: &str) -> (out: Result<Vec<u8>, AssertionFault>)
    ensures
        match (out, hex_in(body@, key@)) {
            (Ok(v), Ok(s)) => v@ == s,
            (Err(e), Err(f)) => e.deep_view() == f,
            _ => false,
        },
{
    match read_needed_text(body, key) {
        Err(e) => Err(AssertionFault::Body(e)),
        Ok(digits) => match hex_decode(digits.as_str()) {
            Some(bytes) => Ok(bytes),
            None => Err(AssertionFault::NotHex(key.to_owned())),
        },
    }
}

/// Reads what a body says in order to have an assertion published.
pub fn read_assertion(body: &[u8]) -> (out: Result<AssertionRequest, AssertionFault>)
    ensures
        match (out, assertion_fault(body@)) {
            (Ok(r), None) => says_assertion(body@, r),
            (Err(e), Some(f)) => e.deep_view() == f,
            _ => false,
        },
{
    let algorithm = match read_needed_text(body, "algorithm") {
        Ok(v) => v,
        Err(e) => return Err(AssertionFault::Body(e)),
    };
    let public_key = match read_hex(body, "public_key") {
        Ok(v) => v,
        Err(e) => return Err(e),
    };
    let subject = match read_needed_text(body, "subject") {
        Ok(v) => v,
        Err(e) => return Err(AssertionFault::Body(e)),
    };
    let facet = match read_needed_text(body, "facet") {
        Ok(v) => v,
        Err(e) => return Err(AssertionFault::Body(e)),
    };
    let written = match read_text_else(body, "value", "") {
        Ok(v) => v,
        Err(e) => return Err(AssertionFault::Body(e)),
    };
    let basis = match read_text_else(body, "basis", "self-asserted") {
        Ok(v) => v,
        Err(e) => return Err(AssertionFault::Body(e)),
    };
    let valid_from_ms: u64 = match read_number(body, "valid_from_ms") {
        Ok(Some(n)) => n,
        Ok(None) => 0,
        Err(e) => return Err(AssertionFault::Body(e)),
    };
    let valid_until_ms = match read_number(body, "valid_until_ms") {
        Ok(v) => v,
        Err(e) => return Err(AssertionFault::Body(e)),
    };
    let signature = match read_hex(body, "signature") {
        Ok(v) => v,
        Err(e) => return Err(e),
    };
    let audience = match read_text(body, "audience") {
        Ok(v) => v,
        Err(e) => return Err(AssertionFault::Body(e)),
    };
    let value = match hex_decode(written.as_str()) {
        Some(bytes) => bytes,
        None => copy_bytes(written.as_str().as_bytes()),
    };
    let asserter = String::new();
    let assertion = IdentityAssertion {
        asserter,
        subject,
        facet,
        value,
        basis,
        valid_from_ms,
        valid_until_ms,
        signature,
    };
    Ok(AssertionRequest { algorithm, public_key, assertion, audience })
}

/// Whether an assertion was published with the anchor of a key as its asserter, in
/// the namespace of that anchor.
pub open spec fn request_published(
    st: StoreState,
    after: StoreState,
    r: AssertionRequest,
    now_ms: u64,
    out: Result<String, StoreError>,
) -> bool {
    let asserter = anchor_of(r.algorithm@, r.public_key@);
    exists|ns: NamespaceRef| #[trigger]
        is_namespace_of(ns, asserter) && assertion_published(
            st,
            after,
            ns,
            AssertionView { asserter, ..r.assertion.deep_view() },
            now_ms,
            out,
        )
}

/// Publishes the assertion of a request whose signature is good, given the time;
/// its address. The asserter is the anchor of the key.
pub fn publish_request(store: &mut InMemoryStore, r: AssertionRequest, now_ms: u64) -> (out: Result<
    String,
    StoreError,
>)
    requires
        old(store).wf(),
    ensures
        final(store).wf(),
        request_published(old(store).state(), final(store).state(), r, now_ms, out),
{
    let asserter = key_anchor(r.algorithm.as_str(), r.public_key.as_slice());
    let ns = NamespaceRef::deterministic(asserter.as_str());
    assert(is_namespace_of(ns, asserter@));
    let ghost name = asserter@;
    let mut assertion = r.assertion;
    assertion.asserter = asserter;
    assert(assertion.deep_view() == (AssertionView {
        asserter: name,
        ..r.assertion.deep_view()
    }));
    publish_assertion(store, &ns, &assertion, now_ms)
}

// -- Revocations and watermarks -------------------------------------------------------

/// What a body says of a revocation.
pub open spec fn revocation_asked(body: Seq<u8>) -> Result<
    ((Seq<char>, Seq<char>), (Seq<char>, (Option<u64>, Seq<char>))),
    BodyFault,
> {
    both(
        both(needed_text(body, "asserter"@), needed_text(body, "assertion_kappa"@)),
        both(
            text_else(body, "reason"@, "superseded"@),
            both(number_in(body, "revoked_at_ms"@), text_else(body, "signature"@, ""@)),
        ),
    )
}

/// The revocation that a body asks for; a signature that is not hexadecimal is
/// left out.
pub open spec fn revocation_said(
    parts: ((Seq<char>, Seq<char>), (Seq<char>, (Option<u64>, Seq<char>))),
) -> RevocationView {
    let ((asserter, assertion_kappa), (reason, (at, signature))) = parts;
    RevocationView {
        asserter,
        assertion_kappa,
        reason: reason_named(reason),
        revoked_at_ms: number_or_zero(at),
        signature: match hex_bytes(signature) {
            Some(bytes) => bytes,
            None => Seq::empty(),
        },
    }
}

/// Whether a namespace is the one that an anchor has on every node.
pub open spec fn is_namespace_of(ns: NamespaceRef, anchor: Seq<char>) -> bool {
    &&& ns.id() == deterministic_uuid(anchor)
    &&& ns.spec_name() == Some(anchor)
    &&& ns.spec_protocol() is None
}

/// Whether a revocation was published in the namespace of its asserter.
pub open spec fn revocation_done(
    st: StoreState,
    after: StoreState,
    r: RevocationView,
    now_ms: u64,
    out: Result<String, StoreError>,
) -> bool {
    exists|ns: NamespaceRef| #[trigger]
        is_namespace_of(ns, r.asserter) && revocation_published(st, after, ns, r, now_ms, out)
}

fn read_revocation(body: &[u8]) -> (out: Result<Revocation, BodyError>)
    ensures
        match (out, revocation_asked(body@)) {
            (Ok(r), Ok(parts)) => r.deep_view() == revocation_said(parts),
            (Err(e), Err(f)) => e.deep_view() == f,
            _ => false,
        },
{
    let asserter = match read_needed_text(body, "asserter") {
        Ok(v) => v,
        Err(e) => return Err(e),
    };
    let assertion_kappa = match read_needed_text(body, "assertion_kappa") {
        Ok(v) => v,
        Err(e) => return Err(e),
    };
    let reason = match read_text_else(body, "reason", "superseded") {
        Ok(v) => v,
        Err(e) => return Err(e),
    };
    let revoked_at_ms: u64 = match read_number(body, "revoked_at_ms") {
        Ok(Some(n)) => n,
        Ok(None) => 0,
        Err(e) => return Err(e),
    };
    let digits = match read_text_else(body, "signature", "") {
        Ok(v) => v,
        Err(e) => return Err(e),
    };
    let signature: Vec<u8> = match hex_decode(digits.as_str()) {
        Some(bytes) => bytes,
        None => Vec::new(),
    };
    assert(hex_bytes(digits@) is None ==> signature@ =~= Seq::<u8>::empty());
    Ok(
        Revocation {
            asserter,
            assertion_kappa,
            reason: RevocationReason::parse(reason.as_str()),
            revoked_at_ms,
            signature,
        },
    )
}

/// Publishes the revocation of a body, given the time.
pub fn revoke_body(store: &mut InMemoryStore, body: &[u8], now_ms: u64) -> (out: Result<
    String,
    Denied<StoreError>,
>)
    requires
        old(store).wf(),
    ensures
        final(store).wf(),
        match revocation_asked(body@) {
            Err(f) => denied(out, f) && final(store).state() == old(store).state(),
            Ok(parts) => crate::body::answer(out) is Some && revocation_done(
                old(store).state(),
                final(store).state(),
                revocation_said(parts),
                now_ms,
                crate::body::answer(out)->0,
            ),
        },
{
    let r = match read_revocation(body) {
        Ok(r) => r,
        Err(e) => return Err(Denied::Body(e)),
    };
    let ns = NamespaceRef::deterministic(r.asserter.as_str());
    let ghost before = store.state();
    let done = publish_revocation(store, &ns, &r, now_ms);
    let ghost kept = done;
    let out = match done {
        Ok(kappa) => Ok(kappa),
        Err(e) => Err(Denied::Refused(e)),
    };
    proof {
        assert(crate::body::answer(out)->0 == kept);
        assert(is_namespace_of(ns, r.asserter@));
        assert(revocation_done(before, store.state(), r.deep_view(), now_ms, kept));
    }
    out
}

/// What a body says of a watermark.
pub open spec fn watermark_asked(body: Seq<u8>) -> Result<WatermarkView, BodyFault> {
    match both(
        both(needed_text(body, "asserter"@), number_in(body, "invalidate_before_ms"@)),
        both(text_else(body, "reason"@, "unspecified"@), number_in(body, "set_at_ms"@)),
    ) {
        Err(f) => Err(f),
        Ok(((asserter, before), (reason, at))) => match before {
            None => Err(BodyFault::Missing("invalidate_before_ms"@)),
            Some(n) => Ok(
                WatermarkView {
                    asserter,
                    invalidate_before_ms: n,
                    reason,
                    set_at_ms: number_or_zero(at),
                },
            ),
        },
    }
}

/// Whether a watermark was published in the namespace of its asserter.
pub open spec fn watermark_done(
    st: StoreState,
    after: StoreState,
    w: WatermarkView,
    now_ms: u64,
    out: Result<String, StoreError>,
) -> bool {
    exists|ns: NamespaceRef| #[trigger]
        is_namespace_of(ns, w.asserter) && watermark_published(st, after, ns, w, now_ms, out)
}

/// Publishes the watermark of a body, given the time.
pub fn watermark_body(store: &mut InMemoryStore, body: &[u8], now_ms: u64) -> (out: Result<
    String,
    Denied<StoreError>,
>)
    requires
        old(store).wf(),
    ensures
        final(store).wf(),
        match watermark_asked(body@) {
            Err(f) => denied(out, f) && final(store).state() == old(store).state(),
            Ok(w) => crate::body::answer(out) is Some && watermark_done(
                old(store).state(),
                final(store).state(),
                w,
                now_ms,
                crate::body::answer(out)->0,
            ),
        },
{
    let asserter = match read_needed_text(body, "asserter") {
        Ok(v) => v,
        Err(e) => return Err(Denied::Body(e)),
    };
    let before = match read_number(body, "invalidate_before_ms") {
        Ok(v) => v,
        Err(e) => return Err(Denied::Body(e)),
    };
    let reason = match read_text_else(body, "reason", "unspecified") {
        Ok(v) => v,
        Err(e) => return Err(Denied::Body(e)),
    };
    let set_at_ms: u64 = match read_number(body, "set_at_ms") {
        Ok(Some(n)) => n,
        Ok(None) => 0,
        Err(e) => return Err(Denied::Body(e)),
    };
    let invalidate_before_ms: u64 = match before {
        Some(n) => n,
        None => return Err(Denied::Body(BodyError::Missing("invalidate_before_ms".to_owned()))),
    };
    let w = Watermark { asserter, invalidate_before_ms, reason, set_at_ms };
    let ns = NamespaceRef::deterministic(w.asserter.as_str());
    assert(is_namespace_of(ns, w.asserter@));
    let done = publish_watermark(store, &ns, &w, now_ms);
    let ghost kept = done;
    let out = match done {
        Ok(kappa) => Ok(kappa),
        Err(e) => Err(Denied::Refused(e)),
    };
    assert(crate::body::answer(out)->0 == kept);
    out
}

// -- Anchors --------------------------------------------------------------------------

/// Why an anchor was refused.
#[derive(Debug)]
pub enum AnchorRefusal {
    /// The public key is not hexadecimal.
    BadKey,
    Store(StoreError),
}

/// What a body says of an anchor: the algorithm of its key, the key, and where it
/// is reached.
pub open spec fn anchor_asked(body: Seq<u8>) -> Result<
    ((Seq<char>, Seq<char>), Seq<char>),
    BodyFault,
> {
    both(
        both(needed_text(body, "algorithm"@), needed_text(body, "public_key"@)),
        text_else(body, "endpoint"@, ""@),
    )
}

/// Whether an anchor was registered in its namespace.
#[verifier::opaque]
pub open spec fn anchor_stored(
    st: StoreState,
    after: StoreState,
    anchor: Seq<char>,
    blob: Seq<u8>,
    endpoint: Seq<char>,
    done: Result<String, StoreError>,
) -> bool {
    exists|ns: NamespaceRef| #[trigger]
        is_namespace_of(ns, anchor) && anchor_registered(
            st,
            after,
            ns,
            blob,
            endpoint.len() > 0,
            done,
        )
}

/// Whether an anchor was registered in its namespace, and is the answer.
pub open spec fn anchor_answered(
    st: StoreState,
    after: StoreState,
    anchor: Seq<char>,
    blob: Seq<u8>,
    endpoint: Seq<char>,
    out: Result<String, Denied<AnchorRefusal>>,
) -> bool {
    exists|done: Result<String, StoreError>| #[trigger]
        anchor_stored(st, after, anchor, blob, endpoint, done) && (match (done, out) {
            (Ok(_), Ok(a)) => a@ == anchor,
            (Err(e), Err(Denied::Refused(AnchorRefusal::Store(f)))) => e == f,
            _ => false,
        })
}

/// Whether the anchor of the key in a body was registered in its namespace; the
/// anchor.
pub open spec fn anchor_done(
    st: StoreState,
    after: StoreState,
    algorithm: Seq<char>,
    key: Seq<char>,
    endpoint: Seq<char>,
    out: Result<String, Denied<AnchorRefusal>>,
) -> bool {
    match hex_bytes(key) {
        None => out matches Err(Denied::Refused(AnchorRefusal::BadKey)) && after == st,
        Some(bytes) => anchor_answered(
            st,
            after,
            anchor_of(algorithm, bytes),
            anchor_blob(anchor_of(algorithm, bytes), algorithm, key, endpoint),
            endpoint,
            out,
        ),
    }
}

fn store_anchor(
    store: &mut InMemoryStore,
    anchor: &str,
    algorithm: &str,
    key: &str,
    endpoint: &str,
) -> (done: Result<String, StoreError>)
    requires
        old(store).wf(),
    ensures
        final(store).wf(),
        anchor_stored(
            old(store).state(),
            final(store).state(),
            anchor@,
            anchor_blob(anchor@, algorithm@, key@, endpoint@),
            endpoint@,
            done,
        ),
{
    reveal(anchor_stored);
    let ns = NamespaceRef::deterministic(anchor);
    assert(is_namespace_of(ns, anchor@));
    register_anchor(store, &ns, anchor, algorithm, key, endpoint)
}

/// Registers the anchor of the key in a body; the anchor.
pub fn anchor_body(store: &mut InMemoryStore, body: &[u8]) -> (out: Result<
    String,
    Denied<AnchorRefusal>,
>)
    requires
        old(store).wf(),
    ensures
        final(store).wf(),
        match anchor_asked(body@) {
            Err(f) => denied(out, f) && final(store).state() == old(store).state(),
            Ok(((algorithm, key), endpoint)) => anchor_done(
                old(store).state(),
                final(store).state(),
                algorithm,
                key,
                endpoint,
                out,
            ),
        },
{
    let algorithm = match read_needed_text(body, "algorithm") {
        Ok(v) => v,
        Err(e) => return Err(Denied::Body(e)),
    };
    let key = match read_needed_text(body, "public_key") {
        Ok(v) => v,
        Err(e) => return Err(Denied::Body(e)),
    };
    let endpoint = match read_text_else(body, "endpoint", "") {
        Ok(v) => v,
        Err(e) => return Err(Denied::Body(e)),
    };
    let key_bytes = match hex_decode(key.as_str()) {
        Some(bytes) => bytes,
        None => return Err(Denied::Refused(AnchorRefusal::BadKey)),
    };
    let anchor = key_anchor(algorithm.as_str(), key_bytes.as_slice());
    let ghost before = store.state();
    let ghost name = anchor@;
    let done = store_anchor(
        store,
        anchor.as_str(),
        algorithm.as_str(),
        key.as_str(),
        endpoint.as_str(),
    );
    let ghost kept = done;
    let out = match done {
        Ok(_) => Ok(anchor),
        Err(e) => Err(Denied::Refused(AnchorRefusal::Store(e))),
    };
    proof {
        let blob = anchor_blob(name, algorithm@, key@, endpoint@);
        assert(anchor_stored(before, store.state(), name, blob, endpoint@, kept));
        assert(anchor_answered(before, store.state(), name, blob, endpoint@, out));
        assert(anchor_done(
            before,
            store.state(),
            algorithm@,
            key@,
            endpoint@,
            out,
        ));
    }
    out
}

} // verus!
