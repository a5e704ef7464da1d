//! Identity: what is asserted of a subject, what is revoked, and the keys that
//! stand behind it.

use vstd::prelude::*;
use vstd::utf8::encode_utf8;

use crate::bytes::{append_bytes, copy_bytes};
use crate::canonical::{
    byte_string, decode_record, encode_bytes, encode_record, field_at, fields_view, lemma_value_at, plain_record, record_of,
    record_read_of, text_at, value_at, CborItem, CborView,
};
use crate::json::{json_fields, json_object, json_object_of, JsonItem, JsonView};
use crate::kappa::{kappa_from_bytes, kappa_of};
use crate::store::epochs::{epochs_left, next_epoch};
use crate::store::identity::{
    assertion_key, assertions_at, canonical_watermark, watermark_blob, watermark_fields, Watermark,
    WatermarkView,
};
use crate::store::memory::InMemoryStore;
use crate::store::state::StoreState;
use crate::text::{joined, joined3, same_text};
use crate::types::{
    name_hash, Edge, EdgeRelation, EdgeView, EpochMutation, MutationOp, NamespaceRef, StoreError,
    TagView,
};

verus! {

// -- Records ----------------------------------------------------------------------

/// What someone says of a subject.
#[derive(Debug)]
pub struct IdentityAssertion {
    pub asserter: String,
    pub subject: String,
    pub facet: String,
    pub value: Vec<u8>,
    pub basis: String,
    pub valid_from_ms: u64,
    pub valid_until_ms: Option<u64>,
    pub signature: Vec<u8>,
}

/// Why an assertion was taken back.
#[derive(Debug, Clone, Copy, PartialEq, Eq, Structural)]
pub enum RevocationReason {
    Superseded,
    KeyCompromise,
    Erroneous,
    PrivilegeWithdrawn,
    CessationOfOperation,
}

/// The reason that a text names: superseded where it names none.
pub open spec fn reason_named(s: Seq<char>) -> RevocationReason {
    if s == "key-compromise"@ {
        RevocationReason::KeyCompromise
    } else if s == "erroneous"@ {
        RevocationReason::Erroneous
    } else if s == "privilege-withdrawn"@ {
        RevocationReason::PrivilegeWithdrawn
    } else if s == "cessation-of-operation"@ {
        RevocationReason::CessationOfOperation
    } else {
        RevocationReason::Superseded
    }
}

impl RevocationReason {
    /// The reason that a text names.
    pub fn parse(s: &str) -> (out: Self)
        ensures
            out == reason_named(s@),
    {
        if same_text(s, "key-compromise") {
            RevocationReason::KeyCompromise
        } else if same_text(s, "erroneous") {
            RevocationReason::Erroneous
        } else if same_text(s, "privilege-withdrawn") {
            RevocationReason::PrivilegeWithdrawn
        } else if same_text(s, "cessation-of-operation") {
            RevocationReason::CessationOfOperation
        } else {
            RevocationReason::Superseded
        }
    }

    /// The number that stands for the reason in blobs.
    pub fn number(&self) -> (n: u64)
        ensures
            n == reason_number(*self),
    {
        match self {
            RevocationReason::Superseded => 0,
            RevocationReason::KeyCompromise => 1,
            RevocationReason::Erroneous => 2,
            RevocationReason::PrivilegeWithdrawn => 3,
            RevocationReason::CessationOfOperation => 4,
        }
    }
}

/// The number that stands for a reason in blobs.
pub open spec fn reason_number(r: RevocationReason) -> u64 {
    match r {
        RevocationReason::Superseded => 0,
        RevocationReason::KeyCompromise => 1,
        RevocationReason::Erroneous => 2,
        RevocationReason::PrivilegeWithdrawn => 3,
        RevocationReason::CessationOfOperation => 4,
    }
}

/// An assertion taken back.
#[derive(Debug)]
pub struct Revocation {
    pub asserter: String,
    pub assertion_kappa: String,
    pub reason: RevocationReason,
    pub revoked_at_ms: u64,
    pub signature: Vec<u8>,
}

/// What an assertion holds.
pub struct AssertionView {
    pub asserter: Seq<char>,
    pub subject: Seq<char>,
    pub facet: Seq<char>,
    pub value: Seq<u8>,
    pub basis: Seq<char>,
    pub valid_from_ms: u64,
    pub valid_until_ms: Option<u64>,
    pub signature: Seq<u8>,
}

impl DeepView for IdentityAssertion {
    type V = AssertionView;

    open spec fn deep_view(&self) -> AssertionView {
        AssertionView {
            asserter: self.asserter@,
            subject: self.subject@,
            facet: self.facet@,
            value: self.value@,
            basis: self.basis@,
            valid_from_ms: self.valid_from_ms,
            valid_until_ms: self.valid_until_ms,
            signature: self.signature@,
        }
    }
}

impl IdentityAssertion {
    /// A copy.
    pub fn copied(&self) -> (out: Self)
        ensures
            out.deep_view() == self.deep_view(),
    {
        IdentityAssertion {
            asserter: self.asserter.clone(),
            subject: self.subject.clone(),
            facet: self.facet.clone(),
            value: copy_bytes(self.value.as_slice()),
            basis: self.basis.clone(),
            valid_from_ms: self.valid_from_ms,
            valid_until_ms: self.valid_until_ms,
            signature: copy_bytes(self.signature.as_slice()),
        }
    }
}

/// What a revocation holds.
pub struct RevocationView {
    pub asserter: Seq<char>,
    pub assertion_kappa: Seq<char>,
    pub reason: RevocationReason,
    pub revoked_at_ms: u64,
    pub signature: Seq<u8>,
}

impl DeepView for Revocation {
    type V = RevocationView;

    open spec fn deep_view(&self) -> RevocationView {
        RevocationView {
            asserter: self.asserter@,
            assertion_kappa: self.assertion_kappa@,
            reason: self.reason,
            revoked_at_ms: self.revoked_at_ms,
            signature: self.signature@,
        }
    }
}

/// The fields of an assertion without its signature.
pub open spec fn unsigned_fields(a: AssertionView) -> Seq<(u64, CborView)> {
    let fixed = seq![
        (0u64, CborView::Text(a.asserter)),
        (1u64, CborView::Text(a.subject)),
        (2u64, CborView::Text(a.facet)),
        (3u64, CborView::Bytes(a.value)),
        (4u64, CborView::Text(a.basis)),
        (5u64, CborView::Unsigned(a.valid_from_ms)),
    ];
    match a.valid_until_ms {
        Some(t) => fixed.push((6u64, CborView::Unsigned(t))),
        None => fixed,
    }
}

/// The fields of an assertion.
pub open spec fn assertion_fields(a: AssertionView) -> Seq<(u64, CborView)> {
    unsigned_fields(a).push((7u64, CborView::Bytes(a.signature)))
}

/// The blob of an assertion.
pub open spec fn assertion_blob(a: AssertionView) -> Seq<u8> {
    record_of(assertion_fields(a))
}

/// The fields of a revocation.
pub open spec fn revocation_fields(r: RevocationView) -> Seq<(u64, CborView)> {
    seq![
        (0u64, CborView::Text(r.asserter)),
        (1u64, CborView::Text(r.assertion_kappa)),
        (2u64, CborView::Unsigned(reason_number(r.reason))),
        (3u64, CborView::Unsigned(r.revoked_at_ms)),
        (4u64, CborView::Bytes(r.signature)),
    ]
}

/// The blob of a revocation.
pub open spec fn revocation_blob(r: RevocationView) -> Seq<u8> {
    record_of(revocation_fields(r))
}

fn unsigned_items(a: &IdentityAssertion) -> (out: Vec<(u64, CborItem)>)
    ensures
        fields_view(out@) == unsigned_fields(a.deep_view()),
{
    let mut fields: Vec<(u64, CborItem)> = Vec::new();
    fields.push((0, CborItem::Text(a.asserter.clone())));
    fields.push((1, CborItem::Text(a.subject.clone())));
    fields.push((2, CborItem::Text(a.facet.clone())));
    fields.push((3, CborItem::Bytes(copy_bytes(a.value.as_slice()))));
    fields.push((4, CborItem::Text(a.basis.clone())));
    fields.push((5, CborItem::Unsigned(a.valid_from_ms)));
    let ghost fixed = fields_view(fields@);
    proof {
        assert(fixed =~= seq![
            (0u64, CborView::Text(a.asserter@)),
            (1u64, CborView::Text(a.subject@)),
            (2u64, CborView::Text(a.facet@)),
            (3u64, CborView::Bytes(a.value@)),
            (4u64, CborView::Text(a.basis@)),
            (5u64, CborView::Unsigned(a.valid_from_ms)),
        ]);
    }
    if let Some(t) = a.valid_until_ms {
        fields.push((6, CborItem::Unsigned(t)));
        assert(fields_view(fields@) =~= fixed.push((6u64, CborView::Unsigned(t))));
    }
    fields
}

/// What is signed of an assertion: its canonical bytes without the signature.
pub fn signable_assertion(a: &IdentityAssertion) -> (out: Vec<u8>)
    ensures
        out@ == record_of(unsigned_fields(a.deep_view())),
{
    let fields = unsigned_items(a);
    encode_record(fields.as_slice())
}

/// The canonical bytes of an assertion, from which it is read back where its
/// texts are ASCII.
pub fn canonical_assertion(a: &IdentityAssertion) -> (out: Vec<u8>)
    ensures
        out@ == assertion_blob(a.deep_view()),
        plain_record(assertion_fields(a.deep_view())) ==> assertion_in(out@) == Some(a.deep_view()),
{
    let mut fields = unsigned_items(a);
    let ghost before = fields_view(fields@);
    fields.push((7, CborItem::Bytes(copy_bytes(a.signature.as_slice()))));
    proof {
        assert(fields_view(fields@) =~= before.push((7u64, CborView::Bytes(a.signature@))));
        law_assertion_fields(a.deep_view());
    }
    encode_record(fields.as_slice())
}

/// The canonical bytes of a revocation, from which it is read back where its
/// texts are ASCII.
pub fn canonical_revocation(r: &Revocation) -> (out: Vec<u8>)
    ensures
        out@ == revocation_blob(r.deep_view()),
        plain_record(revocation_fields(r.deep_view())) ==> revocation_in(out@) == Some(
            r.deep_view(),
        ),
{
    let mut fields: Vec<(u64, CborItem)> = Vec::new();
    fields.push((0, CborItem::Text(r.asserter.clone())));
    fields.push((1, CborItem::Text(r.assertion_kappa.clone())));
    fields.push((2, CborItem::Unsigned(r.reason.number())));
    fields.push((3, CborItem::Unsigned(r.revoked_at_ms)));
    fields.push((4, CborItem::Bytes(copy_bytes(r.signature.as_slice()))));
    proof {
        assert(fields_view(fields@) =~= revocation_fields(r.deep_view()));
        law_revocation_fields(r.deep_view());
    }
    encode_record(fields.as_slice())
}

// -- Reading records ------------------------------------------------------------------

/// The text that a value is.
pub open spec fn as_text(v: Option<CborView>) -> Option<Seq<char>> {
    match v {
        Some(CborView::Text(s)) => Some(s),
        _ => None,
    }
}

/// The bytes that a value is.
pub open spec fn as_bytes(v: Option<CborView>) -> Option<Seq<u8>> {
    match v {
        Some(CborView::Bytes(b)) => Some(b),
        _ => None,
    }
}

/// The number that a value is.
pub open spec fn as_number(v: Option<CborView>) -> Option<u64> {
    match v {
        Some(CborView::Unsigned(n)) => Some(n),
        _ => None,
    }
}

/// The assertion that fields are those of; none where one is missing or of
/// another type.
pub open spec fn assertion_read(f: Seq<(u64, CborView)>) -> Option<AssertionView> {
    let until = as_number(value_at(f, 6));
    match (
        (as_text(value_at(f, 0)), as_text(value_at(f, 1)), as_text(value_at(f, 2))),
        (as_bytes(value_at(f, 3)), as_text(value_at(f, 4)), as_number(value_at(f, 5))),
        as_bytes(value_at(f, 7)),
    ) {
        (
            (Some(asserter), Some(subject), Some(facet)),
            (Some(value), Some(basis), Some(valid_from_ms)),
            Some(signature),
        ) => if value_at(f, 6) is Some && until is None {
            None
        } else {
            Some(
                AssertionView {
                    asserter,
                    subject,
                    facet,
                    value,
                    basis,
                    valid_from_ms,
                    valid_until_ms: until,
                    signature,
                },
            )
        },
        _ => None,
    }
}

/// The assertion that canonical bytes stand for.
pub open spec fn assertion_in(data: Seq<u8>) -> Option<AssertionView> {
    match record_read_of(data) {
        Some(f) => assertion_read(f),
        None => None,
    }
}

/// The reason with a number.
pub open spec fn reason_numbered(n: u64) -> Option<RevocationReason> {
    if n == 0 {
        Some(RevocationReason::Superseded)
    } else if n == 1 {
        Some(RevocationReason::KeyCompromise)
    } else if n == 2 {
        Some(RevocationReason::Erroneous)
    } else if n == 3 {
        Some(RevocationReason::PrivilegeWithdrawn)
    } else if n == 4 {
        Some(RevocationReason::CessationOfOperation)
    } else {
        None
    }
}

/// The revocation that fields are those of; none where one is missing or of
/// another type, or no reason has the number.
pub open spec fn revocation_read(f: Seq<(u64, CborView)>) -> Option<RevocationView> {
    match (
        (as_text(value_at(f, 0)), as_text(value_at(f, 1)), as_number(value_at(f, 2))),
        (as_number(value_at(f, 3)), as_bytes(value_at(f, 4))),
    ) {
        (
            (Some(asserter), Some(assertion_kappa), Some(n)),
            (Some(revoked_at_ms), Some(signature)),
        ) => match reason_numbered(n) {
            Some(reason) => Some(
                RevocationView { asserter, assertion_kappa, reason, revoked_at_ms, signature },
            ),
            None => None,
        },
        _ => None,
    }
}

/// The revocation that canonical bytes stand for.
pub open spec fn revocation_in(data: Seq<u8>) -> Option<RevocationView> {
    match record_read_of(data) {
        Some(f) => revocation_read(f),
        None => None,
    }
}

/// The watermark that fields are those of; none where one is missing or of
/// another type.
pub open spec fn watermark_read(f: Seq<(u64, CborView)>) -> Option<WatermarkView> {
    match (
        (as_text(value_at(f, 0)), as_number(value_at(f, 1))),
        (as_text(value_at(f, 2)), as_number(value_at(f, 3))),
    ) {
        (
            (Some(asserter), Some(invalidate_before_ms)),
            (Some(reason), Some(set_at_ms)),
        ) => Some(WatermarkView { asserter, invalidate_before_ms, reason, set_at_ms }),
        _ => None,
    }
}

/// The watermark that canonical bytes stand for.
pub open spec fn watermark_in(data: Seq<u8>) -> Option<WatermarkView> {
    match record_read_of(data) {
        Some(f) => watermark_read(f),
        None => None,
    }
}

/// An assertion is read back from its fields.
pub proof fn law_assertion_fields(a: AssertionView)
    ensures
        assertion_read(assertion_fields(a)) == Some(a),
{
    let f = assertion_fields(a);
    lemma_value_at(f, 0, 0);
    lemma_value_at(f, 1, 1);
    lemma_value_at(f, 2, 2);
    lemma_value_at(f, 3, 3);
    lemma_value_at(f, 4, 4);
    lemma_value_at(f, 5, 5);
    if a.valid_until_ms is Some {
        lemma_value_at(f, 6, 6);
    } else {
        lemma_value_at(f, 6, f.len() as int);
    }
    lemma_value_at(f, 7, f.len() - 1);
}

/// A revocation is read back from its fields.
pub proof fn law_revocation_fields(r: RevocationView)
    ensures
        revocation_read(revocation_fields(r)) == Some(r),
{
    let f = revocation_fields(r);
    lemma_value_at(f, 0, 0);
    lemma_value_at(f, 1, 1);
    lemma_value_at(f, 2, 2);
    lemma_value_at(f, 3, 3);
    lemma_value_at(f, 4, 4);
}

/// A watermark is read back from its fields.
pub proof fn law_watermark_fields(w: WatermarkView)
    ensures
        watermark_read(watermark_fields(w)) == Some(w),
{
    let f = watermark_fields(w);
    lemma_value_at(f, 0, 0);
    lemma_value_at(f, 1, 1);
    lemma_value_at(f, 2, 2);
    lemma_value_at(f, 3, 3);
}

fn bytes_at(fields: &Vec<(u64, CborItem)>, key: u64) -> (out: Option<Vec<u8>>)
    ensures
        crate::atproto::commit::shown_bytes(out) == as_bytes(value_at(fields_view(fields@), key)),
{
    match field_at(fields, key) {
        Some(CborItem::Bytes(b)) => Some(copy_bytes(b.as_slice())),
        _ => None,
    }
}

fn number_at(fields: &Vec<(u64, CborItem)>, key: u64) -> (out: Option<u64>)
    ensures
        out == as_number(value_at(fields_view(fields@), key)),
{
    match field_at(fields, key) {
        Some(CborItem::Unsigned(n)) => Some(*n),
        _ => None,
    }
}

/// The assertion that canonical bytes stand for; none where they are not those of
/// one.
pub fn assertion_from_canonical(data: &[u8]) -> (out: Option<IdentityAssertion>)
    ensures
        match (out, assertion_in(data@)) {
            (Some(a), Some(v)) => a.deep_view() == v,
            (None, None) => true,
            _ => false,
        },
{
    let fields = match decode_record(data) {
        Some(fields) => fields,
        None => return None,
    };
    let (asserter, subject) = match (text_at(&fields, 0), text_at(&fields, 1)) {
        (Some(asserter), Some(subject)) => (asserter, subject),
        _ => return None,
    };
    let (facet, basis) = match (text_at(&fields, 2), text_at(&fields, 4)) {
        (Some(facet), Some(basis)) => (facet, basis),
        _ => return None,
    };
    let (value, signature) = match (bytes_at(&fields, 3), bytes_at(&fields, 7)) {
        (Some(value), Some(signature)) => (value, signature),
        _ => return None,
    };
    let valid_from_ms: u64 = match number_at(&fields, 5) {
        Some(n) => n,
        None => return None,
    };
    let valid_until_ms = number_at(&fields, 6);
    if field_at(&fields, 6).is_some() && valid_until_ms.is_none() {
        return None;
    }
    Some(
        IdentityAssertion {
            asserter,
            subject,
            facet,
            value,
            basis,
            valid_from_ms,
            valid_until_ms,
            signature,
        },
    )
}

fn reason_from_number(n: u64) -> (out: Option<RevocationReason>)
    ensures
        out == reason_numbered(n),
{
    match n {
        0 => Some(RevocationReason::Superseded),
        1 => Some(RevocationReason::KeyCompromise),
        2 => Some(RevocationReason::Erroneous),
        3 => Some(RevocationReason::PrivilegeWithdrawn),
        4 => Some(RevocationReason::CessationOfOperation),
        _ => None,
    }
}

/// The revocation that canonical bytes stand for; none where they are not those of
/// one.
pub fn revocation_from_canonical(data: &[u8]) -> (out: Option<Revocation>)
    ensures
        match (out, revocation_in(data@)) {
            (Some(r), Some(v)) => r.deep_view() == v,
            (None, None) => true,
            _ => false,
        },
{
    let fields = match decode_record(data) {
        Some(fields) => fields,
        None => return None,
    };
    let (asserter, assertion_kappa) = match (text_at(&fields, 0), text_at(&fields, 1)) {
        (Some(asserter), Some(kappa)) => (asserter, kappa),
        _ => return None,
    };
    let (n, revoked_at_ms): (u64, u64) = match (number_at(&fields, 2), number_at(&fields, 3)) {
        (Some(n), Some(at)) => (n, at),
        _ => return None,
    };
    let signature = match bytes_at(&fields, 4) {
        Some(signature) => signature,
        None => return None,
    };
    match reason_from_number(n) {
        Some(reason) => Some(
            Revocation { asserter, assertion_kappa, reason, revoked_at_ms, signature },
        ),
        None => None,
    }
}

/// The watermark that canonical bytes stand for; none where they are not those of
/// one.
pub fn watermark_from_canonical(data: &[u8]) -> (out: Option<Watermark>)
    ensures
        match (out, watermark_in(data@)) {
            (Some(w), Some(v)) => w.deep_view() == v,
            (None, None) => true,
            _ => false,
        },
{
    let fields = match decode_record(data) {
        Some(fields) => fields,
        None => return None,
    };
    let (asserter, reason) = match (text_at(&fields, 0), text_at(&fields, 2)) {
        (Some(asserter), Some(reason)) => (asserter, reason),
        _ => return None,
    };
    let (invalidate_before_ms, set_at_ms): (u64, u64) = match (
        number_at(&fields, 1),
        number_at(&fields, 3),
    ) {
        (Some(before), Some(at)) => (before, at),
        _ => return None,
    };
    Some(Watermark { asserter, invalidate_before_ms, reason, set_at_ms })
}

/// The label of a facet of a subject in the transparency log.
pub fn log_label(subject: &str, facet: &str) -> (out: String)
    ensures
        out@ == subject@ + "/"@ + facet@,
{
    joined3(subject, "/", facet)
}

// -- Publishing -------------------------------------------------------------------

/// A store with a record in it: its blob, marked with its type.
pub open spec fn record_marked(st: StoreState, kind: Seq<char>, content: Seq<u8>) -> StoreState {
    let kappa = kappa_of(content);
    let stored = st.put_blob(kappa, content);
    StoreState {
        meta: stored.meta.insert(
            (name_hash(kappa), name_hash("object-type"@)),
            encode_utf8(kind),
        ),
        ..stored
    }
}

/// A store with a record in it: its blob, marked with its type, and a tag.
pub open spec fn record_tagged(
    st: StoreState,
    ns: NamespaceRef,
    kind: Seq<char>,
    name: Seq<char>,
    content: Seq<u8>,
) -> StoreState {
    record_marked(st, kind, content).tag_set(ns, name, kappa_of(content))
}

/// Whether a record was published under a name, `stored` being the store with the
/// record in it before its epoch. Where its name or the epochs are used up, what
/// was stored before that remains.
pub open spec fn published(
    st: StoreState,
    stored: StoreState,
    after: StoreState,
    ns: NamespaceRef,
    record: (Seq<char>, Seq<char>, Seq<u8>),
    op: MutationOp,
    now_ms: u64,
    out: Result<String, StoreError>,
) -> bool {
    let (kind, name, blob) = record;
    match out {
        Ok(kappa) => kappa@ == kappa_of(blob) && st.tag_version(ns, name) < u64::MAX && epochs_left(
            stored,
            ns,
        ) && epoch_follows(stored, after, ns, op, name, kappa@, now_ms),
        Err(e) => e is Rejected && if st.tag_version(ns, name) == u64::MAX {
            after == record_marked(st, kind, blob).ensured(ns)
        } else {
            !epochs_left(stored, ns) && after == stored.ensured(ns)
        },
    }
}

fn tag_record(
    store: &mut InMemoryStore,
    ns: &NamespaceRef,
    kind: &str,
    name: &str,
    kappa: &str,
    content: &[u8],
) -> (out: Result<(), StoreError>)
    requires
        old(store).wf(),
        kappa@ == kappa_of(content@),
        crate::kappa::label_parts(kappa@) == Some(
            (crate::kappa::Axis::Sha256, crate::digest::sha256_of(content@)),
        ),
    ensures
        final(store).wf(),
        match out {
            Ok(_) => old(store).state().tag_version(*ns, name@) < u64::MAX && final(store).state()
                == record_tagged(old(store).state(), *ns, kind@, name@, content@),
            Err(e) => e is Rejected && old(store).state().tag_version(*ns, name@) == u64::MAX
                && final(store).state() == record_marked(
                old(store).state(),
                kind@,
                content@,
            ).ensured(*ns),
        },
{
    match store.ingest_verified(kappa, content) {
        Ok(_) => {},
        Err(e) => return Err(e),
    }
    let _ = store.blob_put_meta(kappa, "object-type", kind.as_bytes());
    match store.tag_set(ns, name, kappa) {
        Ok(_) => Ok(()),
        Err(e) => Err(e),
    }
}

/// Whether an epoch records that a tag was published.
pub open spec fn epoch_follows(
    before: StoreState,
    after: StoreState,
    ns: NamespaceRef,
    op: MutationOp,
    name: Seq<char>,
    kappa: Seq<char>,
    now_ms: u64,
) -> bool {
    exists|tags: Seq<TagView>, m: EpochMutation|
        #![trigger before.is_listing(ns, Seq::empty(), tags), publishes(m, ns, op, name, kappa)]
        before.is_listing(ns, Seq::empty(), tags) && publishes(m, ns, op, name, kappa) && after
            == before.ensured(ns).advanced(ns, "_epoch"@).epoch_recorded(
            ns,
            next_epoch(before, ns, tags, seq![m], now_ms),
        )
}

/// Whether a change is that a tag was published.
pub open spec fn publishes(
    m: EpochMutation,
    ns: NamespaceRef,
    op: MutationOp,
    name: Seq<char>,
    kappa: Seq<char>,
) -> bool {
    &&& m.op == op
    &&& m.namespace@ == ns.shown()
    &&& m.tag_name@ == name
    &&& m.old_kappa is None
    &&& m.new_kappa matches Some(k) && k@ == kappa
}

fn follow_epoch(
    store: &mut InMemoryStore,
    ns: &NamespaceRef,
    op: MutationOp,
    name: &str,
    kappa: &str,
    now_ms: u64,
) -> (out: Result<(), StoreError>)
    requires
        old(store).wf(),
    ensures
        final(store).wf(),
        match out {
            Ok(_) => epochs_left(old(store).state(), *ns) && epoch_follows(
                old(store).state(),
                final(store).state(),
                *ns,
                op,
                name@,
                kappa@,
                now_ms,
            ),
            Err(e) => e is Rejected && !epochs_left(old(store).state(), *ns) && final(store).state()
                == old(store).state().ensured(*ns),
        },
{
    let m = EpochMutation {
        op,
        namespace: ns.as_str(),
        tag_name: name.to_owned(),
        old_kappa: None,
        new_kappa: Some(kappa.to_owned()),
    };
    let ghost shown = m;
    let mut list: Vec<EpochMutation> = Vec::new();
    list.push(m);
    let ghost before = store.state();
    assert(list@ =~= seq![shown]);
    assert(publishes(shown, *ns, op, name@, kappa@));
    match store.epoch_advance_at(ns, list, now_ms) {
        Ok(_) => Ok(()),
        Err(e) => Err(e),
    }
}

/// The edge from an asserter to what it speaks of.
pub open spec fn speaks_of(
    ns: NamespaceRef,
    target: Seq<char>,
    relation: EdgeRelation,
    kappa: Seq<char>,
) -> EdgeView {
    EdgeView {
        source: ns.shown(),
        target,
        relation,
        asserter: ns.shown(),
        value_kappa: Some(kappa),
        metadata: None,
    }
}

fn put_speech(store: &mut InMemoryStore, ns: &NamespaceRef, target: &str, relation: EdgeRelation, kappa: &str)
    requires
        old(store).wf(),
    ensures
        final(store).wf(),
        final(store).state() == old(store).state().edge_put(
            *ns,
            speaks_of(*ns, target@, relation, kappa@),
        ),
{
    let edge = Edge {
        source: ns.as_str(),
        target: target.to_owned(),
        relation,
        asserter: ns.as_str(),
        value_kappa: Some(kappa.to_owned()),
        metadata: None,
    };
    let _ = store.edge_put(ns, &edge);
}

/// A store with an assertion in it, before its epoch: tagged, filed under its
/// subject and facet, and with an edge from the asserter to the subject.
pub open spec fn asserted(st: StoreState, ns: NamespaceRef, a: AssertionView) -> StoreState {
    let kappa = kappa_of(assertion_blob(a));
    let tagged = record_tagged(st, ns, "assertion"@, "assertion/"@ + kappa, assertion_blob(a));
    let key = assertion_key(a.subject, a.facet);
    StoreState {
        assertions: tagged.assertions.insert(
            key,
            assertions_at(tagged.assertions, key).push(kappa),
        ),
        ..tagged
    }.edge_put(ns, speaks_of(ns, a.subject, EdgeRelation::Assertion, kappa))
}

/// Whether an assertion was published.
pub open spec fn assertion_published(
    st: StoreState,
    after: StoreState,
    ns: NamespaceRef,
    a: AssertionView,
    now_ms: u64,
    out: Result<String, StoreError>,
) -> bool {
    let name = "assertion/"@ + kappa_of(assertion_blob(a));
    published(
        st,
        asserted(st, ns, a),
        after,
        ns,
        ("assertion"@, name, assertion_blob(a)),
        MutationOp::AssertionPublish,
        now_ms,
        out,
    )
}

/// Publishes an assertion in the namespace of its asserter, given the time; its
/// address.
pub fn publish_assertion(
    store: &mut InMemoryStore,
    ns: &NamespaceRef,
    a: &IdentityAssertion,
    now_ms: u64,
) -> (out: Result<String, StoreError>)
    requires
        old(store).wf(),
    ensures
        final(store).wf(),
        assertion_published(
            old(store).state(),
            final(store).state(),
            *ns,
            a.deep_view(),
            now_ms,
            out,
        ),
{
    let bytes = canonical_assertion(a);
    let kappa = kappa_from_bytes(bytes.as_slice());
    let name = joined("assertion/", kappa.as_str());
    match tag_record(store, ns, "assertion", name.as_str(), kappa.as_str(), bytes.as_slice()) {
        Ok(_) => {},
        Err(e) => return Err(e),
    }
    let _ = store.assertion_index_put(a.subject.as_str(), a.facet.as_str(), kappa.as_str());
    put_speech(store, ns, a.subject.as_str(), EdgeRelation::Assertion, kappa.as_str());
    match follow_epoch(
        store,
        ns,
        MutationOp::AssertionPublish,
        name.as_str(),
        kappa.as_str(),
        now_ms,
    ) {
        Ok(_) => Ok(kappa),
        Err(e) => Err(e),
    }
}

/// A store with a revocation in it, before its epoch: tagged, and with an edge
/// from the asserter to the assertion.
pub open spec fn revoked(st: StoreState, ns: NamespaceRef, r: RevocationView) -> StoreState {
    let kappa = kappa_of(revocation_blob(r));
    record_tagged(
        st,
        ns,
        "revocation"@,
        "revocation/"@ + kappa,
        revocation_blob(r),
    ).edge_put(ns, speaks_of(ns, r.assertion_kappa, EdgeRelation::Revocation, kappa))
}

/// Whether a revocation was published.
pub open spec fn revocation_published(
    st: StoreState,
    after: StoreState,
    ns: NamespaceRef,
    r: RevocationView,
    now_ms: u64,
    out: Result<String, StoreError>,
) -> bool {
    let name = "revocation/"@ + kappa_of(revocation_blob(r));
    published(
        st,
        revoked(st, ns, r),
        after,
        ns,
        ("revocation"@, name, revocation_blob(r)),
        MutationOp::RevocationPublish,
        now_ms,
        out,
    )
}

/// Publishes a revocation in the namespace of its asserter, given the time; its
/// address.
pub fn publish_revocation(
    store: &mut InMemoryStore,
    ns: &NamespaceRef,
    r: &Revocation,
    now_ms: u64,
) -> (out: Result<String, StoreError>)
    requires
        old(store).wf(),
    ensures
        final(store).wf(),
        revocation_published(
            old(store).state(),
            final(store).state(),
            *ns,
            r.deep_view(),
            now_ms,
            out,
        ),
{
    let bytes = canonical_revocation(r);
    let kappa = kappa_from_bytes(bytes.as_slice());
    let name = joined("revocation/", kappa.as_str());
    match tag_record(store, ns, "revocation", name.as_str(), kappa.as_str(), bytes.as_slice()) {
        Ok(_) => {},
        Err(e) => return Err(e),
    }
    put_speech(store, ns, r.assertion_kappa.as_str(), EdgeRelation::Revocation, kappa.as_str());
    match follow_epoch(
        store,
        ns,
        MutationOp::RevocationPublish,
        name.as_str(),
        kappa.as_str(),
        now_ms,
    ) {
        Ok(_) => Ok(kappa),
        Err(e) => Err(e),
    }
}

/// Whether a watermark was published.
pub open spec fn watermark_published(
    st: StoreState,
    after: StoreState,
    ns: NamespaceRef,
    w: WatermarkView,
    now_ms: u64,
    out: Result<String, StoreError>,
) -> bool {
    let blob = watermark_blob(w);
    let name = "watermark/"@ + kappa_of(blob);
    published(
        st,
        record_tagged(st, ns, "watermark"@, name, blob),
        after,
        ns,
        ("watermark"@, name, blob),
        MutationOp::RevocationPublish,
        now_ms,
        out,
    )
}

/// Publishes a watermark in the namespace of its asserter, given the time; its
/// address.
pub fn publish_watermark(
    store: &mut InMemoryStore,
    ns: &NamespaceRef,
    w: &Watermark,
    now_ms: u64,
) -> (out: Result<String, StoreError>)
    requires
        old(store).wf(),
    ensures
        final(store).wf(),
        watermark_published(
            old(store).state(),
            final(store).state(),
            *ns,
            w.deep_view(),
            now_ms,
            out,
        ),
{
    let bytes = canonical_watermark(w);
    let kappa = kappa_from_bytes(bytes.as_slice());
    let name = joined("watermark/", kappa.as_str());
    match tag_record(store, ns, "watermark", name.as_str(), kappa.as_str(), bytes.as_slice()) {
        Ok(_) => {},
        Err(e) => return Err(e),
    }
    match follow_epoch(
        store,
        ns,
        MutationOp::RevocationPublish,
        name.as_str(),
        kappa.as_str(),
        now_ms,
    ) {
        Ok(_) => Ok(kappa),
        Err(e) => Err(e),
    }
}

// -- Anchors ----------------------------------------------------------------------

/// The anchor of a key: the SHA-256 label of the deterministic CBOR of the name of
/// its algorithm followed by its bytes.
pub open spec fn anchor_of(algorithm: Seq<char>, key: Seq<u8>) -> Seq<char> {
    kappa_of(byte_string(encode_utf8(algorithm) + key))
}

/// The anchor of a key.
pub fn key_anchor(algorithm: &str, key: &[u8]) -> (out: String)
    ensures
        out@ == anchor_of(algorithm@, key@),
{
    let mut data = copy_bytes(algorithm.as_bytes());
    append_bytes(&mut data, key);
    kappa_from_bytes(encode_bytes(data.as_slice()).as_slice())
}

/// The blob that says what an anchor stands for.
pub open spec fn anchor_blob(
    anchor: Seq<char>,
    algorithm: Seq<char>,
    public_key: Seq<char>,
    endpoint: Seq<char>,
) -> Seq<u8> {
    json_object_of(
        seq![
            ("anchor"@, JsonView::Text(anchor)),
            ("algorithm"@, JsonView::Text(algorithm)),
            ("public_key"@, JsonView::Text(public_key)),
            ("endpoint"@, JsonView::Text(endpoint)),
        ],
    )
}

/// A store with an anchor in it: tagged in its namespace, and once more where it
/// has an endpoint.
pub open spec fn anchored(st: StoreState, ns: NamespaceRef, blob: Seq<u8>, has_endpoint: bool) -> StoreState {
    let tagged = record_tagged(st, ns, "anchor-spec"@, "anchor/spec"@, blob);
    if has_endpoint {
        tagged.tag_set(ns, "anchor/endpoint"@, kappa_of(blob))
    } else {
        tagged
    }
}

/// Whether an anchor was registered. Where a name is used up, what was stored
/// before that remains.
pub open spec fn anchor_registered(
    st: StoreState,
    after: StoreState,
    ns: NamespaceRef,
    blob: Seq<u8>,
    has_endpoint: bool,
    out: Result<String, StoreError>,
) -> bool {
    let tagged = record_tagged(st, ns, "anchor-spec"@, "anchor/spec"@, blob);
    let spec_left = st.tag_version(ns, "anchor/spec"@) < u64::MAX;
    let endpoint_left = !has_endpoint || tagged.tag_version(ns, "anchor/endpoint"@) < u64::MAX;
    match out {
        Ok(kappa) => spec_left && endpoint_left && kappa@ == kappa_of(blob) && after == anchored(
            st,
            ns,
            blob,
            has_endpoint,
        ),
        Err(e) => e is Rejected && if !spec_left {
            after == record_marked(st, "anchor-spec"@, blob).ensured(ns)
        } else {
            !endpoint_left && after == tagged.ensured(ns)
        },
    }
}

/// Registers what an anchor stands for, in its namespace; the address.
pub fn register_anchor(
    store: &mut InMemoryStore,
    ns: &NamespaceRef,
    anchor: &str,
    algorithm: &str,
    public_key: &str,
    endpoint: &str,
) -> (out: Result<String, StoreError>)
    requires
        old(store).wf(),
    ensures
        final(store).wf(),
        anchor_registered(
            old(store).state(),
            final(store).state(),
            *ns,
            anchor_blob(anchor@, algorithm@, public_key@, endpoint@),
            endpoint@.len() > 0,
            out,
        ),
{
    let mut fields: Vec<(String, JsonItem)> = Vec::new();
    fields.push(("anchor".to_owned(), JsonItem::Text(anchor.to_owned())));
    fields.push(("algorithm".to_owned(), JsonItem::Text(algorithm.to_owned())));
    fields.push(("public_key".to_owned(), JsonItem::Text(public_key.to_owned())));
    fields.push(("endpoint".to_owned(), JsonItem::Text(endpoint.to_owned())));
    assert(json_fields(fields@) =~= seq![
        ("anchor"@, JsonView::Text(anchor@)),
        ("algorithm"@, JsonView::Text(algorithm@)),
        ("public_key"@, JsonView::Text(public_key@)),
        ("endpoint"@, JsonView::Text(endpoint@)),
    ]);
    let bytes = json_object(fields.as_slice());
    let kappa = kappa_from_bytes(bytes.as_slice());
    match tag_record(
        store,
        ns,
        "anchor-spec",
        "anchor/spec",
        kappa.as_str(),
        bytes.as_slice(),
    ) {
        Ok(_) => {},
        Err(e) => return Err(e),
    }
    if endpoint.unicode_len() > 0 {
        match store.tag_set(ns, "anchor/endpoint", kappa.as_str()) {
            Ok(_) => {},
            Err(e) => return Err(e),
        }
    }
    Ok(kappa)
}

// -- Gathering --------------------------------------------------------------------

/// The blobs at addresses, in order, of those at which something is stored.
pub open spec fn stored_blobs(st: StoreState, kappas: Seq<Seq<char>>) -> Seq<Seq<u8>>
    decreases kappas.len(),
{
    if kappas.len() == 0 {
        Seq::empty()
    } else {
        let before = stored_blobs(st, kappas.drop_last());
        if st.blobs.dom().contains(kappas.last()) {
            before.push(st.blobs[kappas.last()])
        } else {
            before
        }
    }
}

fn read_all(store: &InMemoryStore, kappas: &Vec<String>) -> (out: Vec<Vec<u8>>)
    requires
        store.wf(),
    ensures
        out.deep_view() == stored_blobs(store.state(), kappas.deep_view()),
{
    let ghost st = store.state();
    let ghost all = kappas.deep_view();
    let mut out: Vec<Vec<u8>> = Vec::new();
    let mut i: usize = 0;
    assert(all.take(0) =~= Seq::<Seq<char>>::empty());
    assert(out.deep_view() =~= Seq::<Seq<u8>>::empty());
    while i < kappas.len()
        invariant
            store.wf(),
            st == store.state(),
            i <= kappas@.len(),
            all == kappas.deep_view(),
            all.len() == kappas@.len(),
            out.deep_view() == stored_blobs(st, all.take(i as int)),
        decreases kappas@.len() - i,
    {
        let ghost had = out.deep_view();
        proof {
            assert(all[i as int] == kappas@[i as int]@);
            assert(all.take(i + 1).drop_last() =~= all.take(i as int));
            assert(all.take(i + 1).last() == all[i as int]);
        }
        if let Ok(blob) = store.blob_get(kappas[i].as_str()) {
            let ghost shown = blob@;
            assert(blob.deep_view() =~= blob@);
            out.push(blob);
            assert(out.deep_view() =~= had.push(shown));
        }
        i += 1;
    }
    assert(all.take(all.len() as int) =~= all);
    out
}

/// The stored assertions of a subject, by ascending address.
pub fn gather_assertions(store: &InMemoryStore, subject: &str) -> (out: Vec<Vec<u8>>)
    requires
        store.wf(),
    ensures
        exists|kappas: Seq<Seq<char>>|
            #![trigger crate::sorted::ascending(kappas)]
            crate::sorted::ascending(kappas) && (forall|k: Seq<char>| #[trigger]
                kappas.contains(k) <==> crate::store::identity::asserted_of(
                    store.state(),
                    subject@,
                    k,
                )) && out.deep_view() == stored_blobs(store.state(), kappas),
{
    let kappas = match store.assertion_index_query_subject(subject) {
        Ok(kappas) => kappas,
        Err(_) => Vec::new(),
    };
    let ghost shown = kappas.deep_view();
    assert(crate::sorted::ascending(shown));
    read_all(store, &kappas)
}

/// The addresses that tags are bound to.
pub open spec fn tag_targets(tags: Seq<TagView>) -> Seq<Seq<char>> {
    Seq::new(tags.len(), |i: int| tags[i].kappa)
}

/// The stored records that the tags of a namespace with a prefix are bound to,
/// by ascending name: its revocations, or its watermarks.
pub fn gather_tagged(store: &InMemoryStore, ns: &NamespaceRef, prefix: &str) -> (out: Vec<Vec<u8>>)
    requires
        store.wf(),
    ensures
        exists|tags: Seq<TagView>| #[trigger]
            store.state().is_listing(*ns, prefix@, tags) && out.deep_view() == stored_blobs(
                store.state(),
                tag_targets(tags),
            ),
{
    let tags = match store.tag_prefix(ns, prefix) {
        Ok(tags) => tags,
        Err(_) => Vec::new(),
    };
    let ghost all = tags.deep_view();
    assert(store.state().is_listing(*ns, prefix@, all));
    let mut kappas: Vec<String> = Vec::new();
    let mut i: usize = 0;
    assert(kappas.deep_view() =~= tag_targets(all).take(0));
    while i < tags.len()
        invariant
            i <= tags@.len(),
            all == tags.deep_view(),
            all.len() == tags@.len(),
            kappas.deep_view() == tag_targets(all).take(i as int),
        decreases tags@.len() - i,
    {
        let ghost had = kappas.deep_view();
        assert(all[i as int] == tags@[i as int].deep_view());
        kappas.push(tags[i].kappa.clone());
        proof {
            assert(kappas.deep_view() =~= had.push(all[i as int].kappa));
            assert(tag_targets(all).take(i + 1) =~= tag_targets(all).take(i as int).push(
                all[i as int].kappa,
            ));
        }
        i += 1;
    }
    assert(tag_targets(all).take(all.len() as int) =~= tag_targets(all));
    read_all(store, &kappas)
}

/// A published assertion is found under its subject.
pub proof fn law_assertion_found(st: StoreState, ns: NamespaceRef, a: AssertionView)
    ensures
        crate::store::identity::asserted_of(
            asserted(st, ns, a),
            a.subject,
            kappa_of(assertion_blob(a)),
        ),
{
    let kappa = kappa_of(assertion_blob(a));
    let key = assertion_key(a.subject, a.facet);
    let after = asserted(st, ns, a);
    let tagged = record_tagged(st, ns, "assertion"@, "assertion/"@ + kappa, assertion_blob(a));
    let list = assertions_at(tagged.assertions, key).push(kappa);
    assert(list[list.len() - 1] == kappa);
    assert(after.assertions.dom().contains(key) && after.assertions[key] == list);
    assert((a.subject + "\0"@).is_prefix_of(key)) by {
        assert(key.subrange(0, (a.subject + "\0"@).len() as int) =~= a.subject + "\0"@);
    }
}

/// What an epoch leaves alone: content, the index of assertions, and every tag but
/// its own.
proof fn lemma_epoch_leaves(
    before: StoreState,
    after: StoreState,
    ns: NamespaceRef,
    op: MutationOp,
    name: Seq<char>,
    kappa: Seq<char>,
    now_ms: u64,
)
    requires
        epoch_follows(before, after, ns, op, name, kappa, now_ms),
    ensures
        after.assertions == before.assertions,
        after.records.dom().contains(ns.id()),
        after.current.dom().contains(ns.id()),
        forall|k: Seq<char>| #[trigger]
            before.blobs.dom().contains(k) ==> after.blobs.dom().contains(k) && after.blobs[k]
                == before.blobs[k],
        name_hash(name) != name_hash("_epoch/current"@) ==> ({
            let k = StoreState::filed(ns, name);
            after.tags.dom().contains(k) == before.tags.dom().contains(k) && after.tags[k]
                == before.tags[k]
        }),
{
}

/// A revocation that was published is tagged in its asserter's namespace, under
/// `revocation/` and its address, and its canonical bytes are stored there where
/// nothing was; where its name and that of the epoch share no hash.
pub proof fn law_revocation_tagged(
    st: StoreState,
    after: StoreState,
    ns: NamespaceRef,
    r: RevocationView,
    now_ms: u64,
    kappa: String,
)
    requires
        revocation_published(st, after, ns, r, now_ms, Ok(kappa)),
        name_hash("revocation/"@ + kappa@) != name_hash("_epoch/current"@),
    ensures
        kappa@ == kappa_of(revocation_blob(r)),
        ({
            let k = StoreState::filed(ns, "revocation/"@ + kappa@);
            &&& after.tags.dom().contains(k)
            &&& after.tags[k].name == "revocation/"@ + kappa@
            &&& after.tags[k].kappa == kappa@
            &&& after.blobs.dom().contains(kappa@)
            &&& !st.blobs.dom().contains(kappa@) ==> after.blobs[kappa@] == revocation_blob(r)
            &&& after.records.dom().contains(ns.id())
        }),
{
    let stored = revoked(st, ns, r);
    let name = "revocation/"@ + kappa_of(revocation_blob(r));
    lemma_epoch_leaves(stored, after, ns, MutationOp::RevocationPublish, name, kappa@, now_ms);
    assert(stored.blobs.dom().contains(kappa@));
}

/// A watermark that was published is tagged in its asserter's namespace, under
/// `watermark/` and its address, and its canonical bytes are stored there where
/// nothing was; where its name and that of the epoch share no hash.
pub proof fn law_watermark_tagged(
    st: StoreState,
    after: StoreState,
    ns: NamespaceRef,
    w: WatermarkView,
    now_ms: u64,
    kappa: String,
)
    requires
        watermark_published(st, after, ns, w, now_ms, Ok(kappa)),
        name_hash("watermark/"@ + kappa@) != name_hash("_epoch/current"@),
    ensures
        kappa@ == kappa_of(watermark_blob(w)),
        ({
            let k = StoreState::filed(ns, "watermark/"@ + kappa@);
            &&& after.tags.dom().contains(k)
            &&& after.tags[k].name == "watermark/"@ + kappa@
            &&& after.tags[k].kappa == kappa@
            &&& after.blobs.dom().contains(kappa@)
            &&& !st.blobs.dom().contains(kappa@) ==> after.blobs[kappa@] == watermark_blob(w)
            &&& after.records.dom().contains(ns.id())
        }),
{
    let name = "watermark/"@ + kappa_of(watermark_blob(w));
    let stored = record_tagged(st, ns, "watermark"@, name, watermark_blob(w));
    lemma_epoch_leaves(stored, after, ns, MutationOp::RevocationPublish, name, kappa@, now_ms);
    assert(stored.blobs.dom().contains(kappa@));
}

/// An assertion that was published is filed under its subject, and its canonical
/// bytes are stored at its address where nothing was.
pub proof fn law_assertion_indexed(
    st: StoreState,
    after: StoreState,
    ns: NamespaceRef,
    a: AssertionView,
    now_ms: u64,
    kappa: String,
)
    requires
        assertion_published(st, after, ns, a, now_ms, Ok(kappa)),
    ensures
        kappa@ == kappa_of(assertion_blob(a)),
        crate::store::identity::asserted_of(after, a.subject, kappa@),
        after.blobs.dom().contains(kappa@),
        !st.blobs.dom().contains(kappa@) ==> after.blobs[kappa@] == assertion_blob(a),
{
    let stored = asserted(st, ns, a);
    let name = "assertion/"@ + kappa_of(assertion_blob(a));
    law_assertion_found(st, ns, a);
    lemma_epoch_leaves(stored, after, ns, MutationOp::AssertionPublish, name, kappa@, now_ms);
    let key = choose|key: Seq<char>| #[trigger]
        stored.assertions.dom().contains(key) && (a.subject + "\0"@).is_prefix_of(key)
            && stored.assertions[key].contains(kappa@);
    assert(after.assertions.dom().contains(key));
    assert(stored.blobs.dom().contains(kappa@));
}

/// What is signed of an assertion says everything about it but the signature:
/// assertions with the same fields to sign differ in their signatures at most.
pub proof fn law_signed_fields(a: AssertionView, b: AssertionView)
    requires
        unsigned_fields(a) == unsigned_fields(b),
    ensures
        a.asserter == b.asserter && a.subject == b.subject && a.facet == b.facet,
        a.value == b.value && a.basis == b.basis,
        a.valid_from_ms == b.valid_from_ms && a.valid_until_ms == b.valid_until_ms,
{
    let f = unsigned_fields(a);
    let g = unsigned_fields(b);
    assert(f[0] == g[0] && f[1] == g[1] && f[2] == g[2] && f[3] == g[3] && f[4] == g[4] && f[5]
        == g[5]);
    assert(f.len() == g.len());
    if f.len() == 7 {
        assert(f[6] == g[6]);
    }
}

} // verus!
