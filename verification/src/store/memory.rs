//! A store that keeps everything in memory.

use vstd::prelude::*;

use crate::bytes::{copy_bytes, copy_range};
use crate::epoch::EpochRoot;
use crate::kappa::{kappa_from_bytes, kappa_of, Axis};
use crate::sorted::insert_text;
use crate::store::identity::IdentityBinding;
use crate::store::state::{RecordView, StoreState};
use crate::store::uploads::{CompressionRecord, UploadSession};
use crate::table::{lemma_deep_bytes, lemma_deep_sixteen, PairKey, ScopedKey, Table, TableKey, TripleKey};
use crate::text::{joined, joined3};
use crate::types::{item_hash, name_hash, Edge, NamespaceRef, StoreError, TagEntry};
use crate::verified::VerifiedContent;

verus! {

broadcast use {lemma_deep_bytes, lemma_deep_sixteen};

/// What a namespace is known by, and who owns it.
#[derive(Debug)]
pub struct NamespaceRecord {
    pub uuid_hex: String,
    pub owner: String,
    pub created_at_ms: u64,
    pub protocol: Option<String>,
    pub aliases: Vec<String>,
    pub tombstoned: bool,
}

impl DeepView for NamespaceRecord {
    type V = RecordView;

    open spec fn deep_view(&self) -> RecordView {
        RecordView {
            uuid_hex: self.uuid_hex@,
            owner: self.owner@,
            created_at_ms: self.created_at_ms,
            protocol: match self.protocol {
                Some(p) => Some(p@),
                None => None,
            },
            aliases: self.aliases.deep_view(),
            tombstoned: self.tombstoned,
        }
    }
}

/// What ingesting content did.
#[derive(Debug)]
pub struct IngestResult {
    pub kappa: String,
    pub newly_stored: bool,
    pub additional_kappas: Vec<String>,
}

/// How a store is set up.
pub struct MemoryStoreConfig {
    pub blob_root: String,
    pub upload_timeout_secs: Option<u64>,
}

impl MemoryStoreConfig {
    /// A configuration without an upload timeout.
    pub fn new(blob_root: String) -> (out: Self)
        ensures
            out.blob_root@ == blob_root@,
            out.upload_timeout_secs is None,
    {
        MemoryStoreConfig { blob_root, upload_timeout_secs: None }
    }
}

/// A store that keeps everything in memory.
pub struct InMemoryStore {
    pub(crate) blobs: Table<String, Vec<u8>>,
    pub(crate) meta: Table<PairKey, Vec<u8>>,
    pub(crate) ns_meta: Table<TripleKey, Vec<String>>,
    pub(crate) tags: Table<ScopedKey, TagEntry>,
    pub(crate) edges: Table<ScopedKey, Edge>,
    pub(crate) fwd: Table<ScopedKey, Vec<String>>,
    pub(crate) rev: Table<ScopedKey, Vec<String>>,
    pub(crate) rel: Table<ScopedKey, Vec<String>>,
    pub(crate) asr: Table<ScopedKey, Vec<String>>,
    pub(crate) sequences: Table<ScopedKey, u64>,
    pub(crate) epochs: Table<String, EpochRoot>,
    pub(crate) current: Table<[u8; 16], String>,
    pub(crate) uploads: Table<String, UploadSession>,
    pub(crate) compressed: Table<String, CompressionRecord>,
    pub(crate) bindings: Table<String, Vec<IdentityBinding>>,
    pub(crate) successions: Table<String, String>,
    pub(crate) assertions: Table<String, Vec<String>>,
    pub(crate) aliases: Table<String, [u8; 16]>,
    pub(crate) records: Table<[u8; 16], NamespaceRecord>,
    pub(crate) upload_timeout_secs: Option<u64>,
}

impl InMemoryStore {
    /// What the store holds.
    pub open(crate) spec fn state(&self) -> StoreState {
        StoreState {
            blobs: self.blobs@,
            meta: self.meta@,
            ns_meta: self.ns_meta@,
            tags: self.tags@,
            edges: self.edges@,
            fwd: self.fwd@,
            rev: self.rev@,
            rel: self.rel@,
            asr: self.asr@,
            sequences: self.sequences@,
            epochs: self.epochs@,
            current: self.current@,
            uploads: self.uploads@,
            compressed: self.compressed@,
            bindings: self.bindings@,
            successions: self.successions@,
            assertions: self.assertions@,
            aliases: self.aliases@,
            records: self.records@,
            upload_timeout_secs: self.upload_timeout_secs,
        }
    }

    /// Every table has distinct keys, and every tag is filed under its name.
    pub open(crate) spec fn wf(&self) -> bool {
        &&& self.blobs.wf()
        &&& self.meta.wf()
        &&& self.ns_meta.wf()
        &&& self.tags.wf()
        &&& self.edges.wf()
        &&& self.fwd.wf()
        &&& self.rev.wf()
        &&& self.rel.wf()
        &&& self.asr.wf()
        &&& self.sequences.wf()
        &&& self.epochs.wf()
        &&& self.current.wf()
        &&& self.uploads.wf()
        &&& self.compressed.wf()
        &&& self.bindings.wf()
        &&& self.successions.wf()
        &&& self.assertions.wf()
        &&& self.aliases.wf()
        &&& self.records.wf()
        &&& self.state().wf()
    }

    /// A well-formed store holds a well-formed state.
    pub proof fn lemma_wf(&self)
        requires
            self.wf(),
        ensures
            self.state().wf(),
    {
    }

    /// An empty store.
    pub fn new(config: MemoryStoreConfig) -> (out: Self)
        ensures
            out.wf(),
            out.state() == StoreState::empty(config.upload_timeout_secs),
    {
        let out = InMemoryStore {
            blobs: Table::new(),
            meta: Table::new(),
            ns_meta: Table::new(),
            tags: Table::new(),
            edges: Table::new(),
            fwd: Table::new(),
            rev: Table::new(),
            rel: Table::new(),
            asr: Table::new(),
            sequences: Table::new(),
            epochs: Table::new(),
            current: Table::new(),
            uploads: Table::new(),
            compressed: Table::new(),
            bindings: Table::new(),
            successions: Table::new(),
            assertions: Table::new(),
            aliases: Table::new(),
            records: Table::new(),
            upload_timeout_secs: config.upload_timeout_secs,
        };
        assert(out.state() =~= StoreState::empty(config.upload_timeout_secs));
        out
    }

    // -- Blobs ------------------------------------------------------------------

    /// Stores content at an address, unless something is there already; tells
    /// whether it was stored.
    pub fn blob_put(&mut self, kappa: &str, content: &[u8]) -> (out: Result<bool, StoreError>)
        requires
            old(self).wf(),
        ensures
            final(self).wf(),
            final(self).state() == old(self).state().put_blob(kappa@, content@),
            out == Ok::<bool, StoreError>(!old(self).state().blobs.dom().contains(kappa@)),
    {
        let key = kappa.to_owned();
        if self.blobs.contains(&key) {
            return Ok(false);
        }
        let ghost before = self.state();
        self.blobs.insert(key, copy_bytes(content));
        assert(self.state() =~= before.put_blob(kappa@, content@));
        Ok(true)
    }

    /// Stores content that carries its address.
    pub fn blob_put_verified(&mut self, verified: &VerifiedContent) -> (out: Result<
        bool,
        StoreError,
    >)
        requires
            old(self).wf(),
        ensures
            final(self).wf(),
            final(self).state() == old(self).state().put_blob(
                crate::kappa::label_text(verified.spec_axis(), verified.spec_digest()),
                verified.spec_content(),
            ),
            out == Ok::<bool, StoreError>(
                !old(self).state().blobs.dom().contains(
                    crate::kappa::label_text(verified.spec_axis(), verified.spec_digest()),
                ),
            ),
            adds_addressed(old(self).state(), final(self).state()),
    {
        let label = verified.label();
        proof {
            label.lemma_wf();
            crate::kappa::law_label_roundtrip(label.spec_axis(), label.spec_digest());
            lemma_adds_one(
                self.state(),
                crate::kappa::label_text(verified.spec_axis(), verified.spec_digest()),
                verified.spec_content(),
            );
        }
        self.blob_put(verified.kappa(), verified.content())
    }

    /// The content at an address.
    pub fn blob_get(&self, kappa: &str) -> (out: Result<Vec<u8>, StoreError>)
        requires
            self.wf(),
        ensures
            match out {
                Ok(content) => self.state().blobs.dom().contains(kappa@) && content@
                    == self.state().blobs[kappa@],
                Err(StoreError::NotFound(k)) => !self.state().blobs.dom().contains(kappa@) && k@
                    == kappa@,
                Err(_) => false,
            },
    {
        match self.blobs.get(&kappa.to_owned()) {
            Some(content) => Ok(copy_bytes(content.as_slice())),
            None => Err(StoreError::NotFound(kappa.to_owned())),
        }
    }

    /// Whether something is stored at an address.
    pub fn blob_exists(&self, kappa: &str) -> (out: Result<bool, StoreError>)
        requires
            self.wf(),
        ensures
            out == Ok::<bool, StoreError>(self.state().blobs.dom().contains(kappa@)),
    {
        Ok(self.blobs.contains(&kappa.to_owned()))
    }

    /// Empties an address.
    pub fn blob_delete(&mut self, kappa: &str) -> (out: Result<(), StoreError>)
        requires
            old(self).wf(),
        ensures
            final(self).wf(),
            final(self).state() == old(self).state().drop_blob(kappa@),
            out is Ok,
    {
        let ghost before = self.state();
        self.blobs.remove(&kappa.to_owned());
        assert(self.state() =~= before.drop_blob(kappa@));
        Ok(())
    }

    /// Length of the content at an address.
    pub fn blob_size(&self, kappa: &str) -> (out: Result<u64, StoreError>)
        requires
            self.wf(),
        ensures
            match out {
                Ok(n) => self.state().blobs.dom().contains(kappa@) && n
                    == self.state().blobs[kappa@].len(),
                Err(StoreError::NotFound(k)) => !self.state().blobs.dom().contains(kappa@) && k@
                    == kappa@,
                Err(_) => false,
            },
    {
        match self.blobs.get(&kappa.to_owned()) {
            Some(content) => Ok(content.len() as u64),
            None => Err(StoreError::NotFound(kappa.to_owned())),
        }
    }

    /// Part of the content at an address: as much of `length` bytes from
    /// `offset` on as there is.
    pub fn blob_get_range(&self, kappa: &str, offset: u64, length: u64) -> (out: Result<
        Vec<u8>,
        StoreError,
    >)
        requires
            self.wf(),
        ensures
            match out {
                Ok(part) => self.state().blobs.dom().contains(kappa@) && part@ == range_of(
                    self.state().blobs[kappa@],
                    offset as nat,
                    length as nat,
                ),
                Err(StoreError::NotFound(k)) => !self.state().blobs.dom().contains(kappa@) && k@
                    == kappa@,
                Err(_) => false,
            },
    {
        match self.blobs.get(&kappa.to_owned()) {
            Some(content) => {
                let n: u64 = content.len() as u64;
                let from: u64 = if offset < n { offset } else { n };
                let to: u64 = if length < n - from { from + length } else { n };
                Ok(copy_range(content.as_slice(), from as usize, to as usize))
            },
            None => Err(StoreError::NotFound(kappa.to_owned())),
        }
    }

    /// All addresses, in ascending order.
    pub fn blob_list(&self) -> (out: Result<Vec<String>, StoreError>)
        requires
            self.wf(),
        ensures
            match out {
                Ok(list) => crate::sorted::ascending(list.deep_view()) && forall|k: Seq<char>|
                    #[trigger] list.deep_view().contains(k) <==> self.state().blobs.dom().contains(
                        k,
                    ),
                Err(_) => false,
            },
    {
        let mut list: Vec<String> = Vec::new();
        let mut i: usize = 0;
        assert(list.deep_view() =~= Seq::<Seq<char>>::empty());
        while i < self.blobs.rows.len()
            invariant
                self.blobs.wf(),
                i <= self.blobs.rows@.len(),
                crate::sorted::ascending(list.deep_view()),
                forall|k: Seq<char>| #[trigger]
                    list.deep_view().contains(k) <==> exists|j: int|
                        0 <= j < i && #[trigger] self.blobs.rows@[j].0.key() == k,
            decreases self.blobs.rows@.len() - i,
        {
            let ghost had = list.deep_view();
            insert_text(&mut list, self.blobs.rows[i].0.clone());
            assert forall|k: Seq<char>| #[trigger]
                list.deep_view().contains(k) <==> exists|j: int|
                    0 <= j < i + 1 && #[trigger] self.blobs.rows@[j].0.key() == k by {
                if k == self.blobs.rows@[i as int].0.key() {
                    assert(list.deep_view().contains(k));
                }
                if had.contains(k) {
                    let j = choose|j: int| 0 <= j < i && #[trigger] self.blobs.rows@[j].0.key() == k;
                    assert(self.blobs.rows@[j].0.key() == k);
                }
            }
            i += 1;
        }
        assert forall|k: Seq<char>| #[trigger]
            list.deep_view().contains(k) <==> self.state().blobs.dom().contains(k) by {
            assert(self.blobs@.dom().contains(k) == self.blobs.has(k));
        }
        Ok(list)
    }

    /// Stores content after checking its address, and at its SHA-256 address
    /// too.
    pub fn ingest_verified(&mut self, kappa: &str, content: &[u8]) -> (out: Result<
        IngestResult,
        StoreError,
    >)
        requires
            old(self).wf(),
        ensures
            final(self).wf(),
            match out {
                Ok(r) => ingest_ok(old(self).state(), final(self).state(), kappa@, content@, r),
                Err(e) => e is Rejected && !addresses(kappa@, content@) && final(self).state()
                    == old(self).state(),
            },
            adds_addressed(old(self).state(), final(self).state()),
    {
        proof {
            lemma_adds_none(self.state(), self.state());
        }
        match VerifiedContent::verify(kappa, copy_bytes(content)) {
            Ok(verified) => {
                let axis = verified.axis();
                Ok(self.ingest_known(axis, kappa, content))
            },
            Err(e) => Err(StoreError::Rejected(e.message())),
        }
    }

    /// Stores content at its address on an axis, and at its SHA-256 address
    /// too.
    pub fn ingest_compute(&mut self, axis: Axis, content: &[u8]) -> (out: Result<
        IngestResult,
        StoreError,
    >)
        requires
            old(self).wf(),
        ensures
            final(self).wf(),
            match out {
                Ok(r) => crate::kappa::content_label(axis, content@) == Some(r.kappa@) && ingest_ok(
                    old(self).state(),
                    final(self).state(),
                    r.kappa@,
                    content@,
                    r,
                ),
                Err(e) => e is Rejected && crate::kappa::content_label(axis, content@) is None
                    && final(self).state() == old(self).state(),
            },
            adds_addressed(old(self).state(), final(self).state()),
    {
        proof {
            lemma_adds_none(self.state(), self.state());
        }
        match VerifiedContent::compute(axis, copy_bytes(content)) {
            Ok(verified) => {
                let label = verified.label();
                proof {
                    label.lemma_wf();
                    crate::kappa::law_label_roundtrip(axis, label.spec_digest());
                }
                Ok(self.ingest_known(axis, verified.kappa(), content))
            },
            Err(e) => Err(StoreError::Rejected(e.message())),
        }
    }

    fn ingest_known(&mut self, axis: Axis, kappa: &str, content: &[u8]) -> (r: IngestResult)
        requires
            old(self).wf(),
            addresses(kappa@, content@),
            crate::kappa::label_parts(kappa@) is Some,
            (crate::kappa::label_parts(kappa@)->0).0 == axis,
        ensures
            final(self).wf(),
            ingest_ok(old(self).state(), final(self).state(), kappa@, content@, r),
            r.kappa@ == kappa@,
            adds_addressed(old(self).state(), final(self).state()),
    {
        proof {
            lemma_adds_one(self.state(), kappa@, content@);
        }
        let newly_stored = match self.blob_put(kappa, content) {
            Ok(b) => b,
            Err(_) => false,
        };
        let mut additional_kappas: Vec<String> = Vec::new();
        match axis {
            Axis::Sha256 => {},
            _ => {
                let other = kappa_from_bytes(content);
                proof {
                    lemma_adds_one(self.state(), other@, content@);
                    lemma_adds_both(
                        old(self).state(),
                        self.state(),
                        self.state().put_blob(other@, content@),
                    );
                }
                let _ = self.blob_put(other.as_str(), content);
                additional_kappas.push(other);
            },
        }
        assert(additional_kappas.deep_view() =~= (if axis == Axis::Sha256 {
            Seq::<Seq<char>>::empty()
        } else {
            seq![kappa_of(content@)]
        }));
        IngestResult { kappa: kappa.to_owned(), newly_stored, additional_kappas }
    }
}

/// As much of `length` bytes from `offset` on as there is.
pub open spec fn range_of(content: Seq<u8>, offset: nat, length: nat) -> Seq<u8> {
    let from = if offset < content.len() {
        offset
    } else {
        content.len()
    };
    let to = if from + length < content.len() {
        from + length
    } else {
        content.len()
    };
    content.subrange(from as int, to as int)
}

/// Whether a label is well formed and is that of the content.
pub open spec fn addresses(kappa: Seq<char>, content: Seq<u8>) -> bool {
    match crate::kappa::label_parts(kappa) {
        Some((axis, digest)) => crate::kappa::content_digest(axis, content) == Some(digest),
        None => false,
    }
}

/// Whether every blob of a store is at an address of its content.
pub open spec fn addressed(st: StoreState) -> bool {
    forall|k: Seq<char>| #[trigger]
        st.blobs.dom().contains(k) ==> addresses(k, st.blobs[k])
}

/// Whether every blob of a store was there before, or is at an address of its
/// content.
#[verifier::opaque]
pub open spec fn adds_addressed(before: StoreState, after: StoreState) -> bool {
    forall|k: Seq<char>| #[trigger]
        after.blobs.dom().contains(k) ==> (before.blobs.dom().contains(k) && before.blobs[k]
            == after.blobs[k]) || addresses(k, after.blobs[k])
}

/// A store in which every blob is at an address of its content stays so where
/// only such blobs are added.
pub proof fn law_addressed(before: StoreState, after: StoreState)
    requires
        addressed(before),
        adds_addressed(before, after),
    ensures
        addressed(after),
{
    reveal(adds_addressed);
}

/// Ingesting content again changes nothing: the same bytes share one stored
/// copy at an address.
pub proof fn law_ingest_once(st: StoreState, axis: Axis, kappa: Seq<char>, content: Seq<u8>)
    ensures
        st.ingested(axis, kappa, content).ingested(axis, kappa, content) == st.ingested(
            axis,
            kappa,
            content,
        ),
{
}

/// Ingested content is found at its address, and at its SHA-256 address whatever
/// its axis; and nothing that was stored is changed.
pub proof fn law_ingest_found(
    st: StoreState,
    axis: Axis,
    kappa: Seq<char>,
    content: Seq<u8>,
    other: Seq<char>,
)
    requires
        axis == Axis::Sha256 ==> kappa == kappa_of(content),
    ensures
        st.ingested(axis, kappa, content).blobs.dom().contains(kappa),
        st.ingested(axis, kappa, content).blobs.dom().contains(kappa_of(content)),
        !st.blobs.dom().contains(kappa) ==> st.ingested(axis, kappa, content).blobs[kappa]
            == content,
        !st.blobs.dom().contains(kappa_of(content)) ==> st.ingested(
            axis,
            kappa,
            content,
        ).blobs[kappa_of(content)] == content,
        st.blobs.dom().contains(other) ==> st.ingested(axis, kappa, content).blobs.dom().contains(
            other,
        ) && st.ingested(axis, kappa, content).blobs[other] == st.blobs[other],
{
}

/// Where blobs stay or go, none is added.
pub proof fn lemma_adds_none(before: StoreState, after: StoreState)
    requires
        forall|k: Seq<char>| #[trigger]
            after.blobs.dom().contains(k) ==> before.blobs.dom().contains(k) && before.blobs[k]
                == after.blobs[k],
    ensures
        adds_addressed(before, after),
{
    reveal(adds_addressed);
}

/// A blob at an address of its content may be added.
pub proof fn lemma_adds_one(st: StoreState, kappa: Seq<char>, content: Seq<u8>)
    requires
        addresses(kappa, content),
    ensures
        adds_addressed(st, st.put_blob(kappa, content)),
{
    reveal(adds_addressed);
}

/// What two steps add is added.
pub proof fn lemma_adds_both(a: StoreState, b: StoreState, c: StoreState)
    requires
        adds_addressed(a, b),
        adds_addressed(b, c),
    ensures
        adds_addressed(a, c),
{
    reveal(adds_addressed);
}

/// What is added to a store is added to another with the same blobs.
pub proof fn lemma_adds_same(a: StoreState, b: StoreState, c: StoreState, d: StoreState)
    requires
        adds_addressed(a, b),
        a.blobs == c.blobs,
        b.blobs == d.blobs,
    ensures
        adds_addressed(c, d),
{
    reveal(adds_addressed);
}

/// What a successful ingest did.
pub open spec fn ingest_ok(
    before: StoreState,
    after: StoreState,
    kappa: Seq<char>,
    content: Seq<u8>,
    r: IngestResult,
) -> bool {
    &&& addresses(kappa, content)
    &&& after == before.ingested((crate::kappa::label_parts(kappa)->0).0, kappa, content)
    &&& r.kappa@ == kappa
    &&& r.newly_stored == !before.blobs.dom().contains(kappa)
    &&& r.additional_kappas.deep_view() == (if (crate::kappa::label_parts(kappa)->0).0
        == Axis::Sha256 {
        Seq::<Seq<char>>::empty()
    } else {
        seq![kappa_of(content)]
    })
}


// -- Metadata -------------------------------------------------------------------

impl InMemoryStore {
    /// Stores a value under a blob's address and a key.
    pub fn blob_put_meta(&mut self, kappa: &str, key: &str, value: &[u8]) -> (out: Result<
        (),
        StoreError,
    >)
        requires
            old(self).wf(),
        ensures
            final(self).wf(),
            final(self).state() == (StoreState {
                meta: old(self).state().meta.insert(
                    (name_hash(kappa@), name_hash(key@)),
                    value@,
                ),
                ..old(self).state()
            }),
            out is Ok,
    {
        let ghost before = self.state();
        self.meta.insert(PairKey(item_hash(kappa), item_hash(key)), copy_bytes(value));
        assert(self.state() =~= (StoreState {
            meta: before.meta.insert((name_hash(kappa@), name_hash(key@)), value@),
            ..before
        }));
        Ok(())
    }

    /// The value under a blob's address and a key.
    pub fn blob_get_meta(&self, kappa: &str, key: &str) -> (out: Result<Vec<u8>, StoreError>)
        requires
            self.wf(),
        ensures
            ({
                let k = (name_hash(kappa@), name_hash(key@));
                match out {
                    Ok(value) => self.state().meta.dom().contains(k) && value@
                        == self.state().meta[k],
                    Err(StoreError::NotFound(m)) => !self.state().meta.dom().contains(k) && m@
                        == "meta "@ + kappa@ + ":"@ + key@,
                    Err(_) => false,
                }
            }),
    {
        match self.meta.get(&PairKey(item_hash(kappa), item_hash(key))) {
            Some(value) => Ok(copy_bytes(value.as_slice())),
            None => {
                let head = joined3("meta ", kappa, ":");
                Err(StoreError::NotFound(joined(head.as_str(), key)))
            },
        }
    }

    /// Removes the value under a blob's address and a key.
    pub fn blob_delete_meta(&mut self, kappa: &str, key: &str) -> (out: Result<(), StoreError>)
        requires
            old(self).wf(),
        ensures
            final(self).wf(),
            final(self).state() == (StoreState {
                meta: old(self).state().meta.remove((name_hash(kappa@), name_hash(key@))),
                ..old(self).state()
            }),
            out is Ok,
    {
        let ghost before = self.state();
        self.meta.remove(&PairKey(item_hash(kappa), item_hash(key)));
        assert(self.state() =~= (StoreState {
            meta: before.meta.remove((name_hash(kappa@), name_hash(key@))),
            ..before
        }));
        Ok(())
    }

    /// Puts a namespace on record.
    pub(crate) fn ensure_namespace(&mut self, ns: &NamespaceRef)
        requires
            old(self).wf(),
        ensures
            final(self).wf(),
            final(self).state() == old(self).state().ensured(*ns),
    {
        let ghost before = self.state();
        if self.records.contains(ns.uuid()) {
            return;
        }
        let name: String = match ns.display_name() {
            Some(n) => n.to_owned(),
            None => String::new(),
        };
        let mut aliases: Vec<String> = Vec::new();
        let named = !name.as_str().is_empty();
        if named {
            aliases.push(name.clone());
        }
        proof {
            if named {
                assert(aliases.deep_view() =~= seq![name@]);
            } else {
                assert(aliases.deep_view() =~= Seq::<Seq<char>>::empty());
            }
        }
        let record = NamespaceRecord {
            uuid_hex: ns.uuid_hex(),
            owner: String::new(),
            created_at_ms: 0,
            protocol: None,
            aliases,
            tombstoned: false,
        };
        self.records.insert(*ns.uuid(), record);
        if named {
            self.aliases.insert(name, *ns.uuid());
        }
        assert(self.state() =~= before.ensured(*ns));
    }

    /// Notes a value under a key for an address in a namespace.
    pub fn meta_set(&mut self, ns: &NamespaceRef, kappa: &str, key: &str, value: &str) -> (out: Result<
        (),
        StoreError,
    >)
        requires
            old(self).wf(),
        ensures
            final(self).wf(),
            final(self).state() == meta_noted(old(self).state(), *ns, kappa@, key@, value@),
            out is Ok,
    {
        self.ensure_namespace(ns);
        let ghost before = self.state();
        let k = TripleKey(*ns.uuid(), item_hash(key), item_hash(value));
        let mut list: Vec<String> = match self.ns_meta.remove(&k) {
            Some(list) => list,
            None => Vec::new(),
        };
        let ghost had = list.deep_view();
        list.push(kappa.to_owned());
        assert(list.deep_view() =~= had.push(kappa@));
        self.ns_meta.insert(k, list);
        proof {
            let kk = (ns.id(), name_hash(key@), name_hash(value@));
            if !before.ns_meta.dom().contains(kk) {
                assert(had =~= Seq::<Seq<char>>::empty());
            }
            let want = before.ns_meta.insert(
                kk,
                (if before.ns_meta.dom().contains(kk) {
                    before.ns_meta[kk]
                } else {
                    Seq::empty()
                }).push(kappa@),
            );
            assert(self.ns_meta@ =~= want);
            assert(self.state() =~= (StoreState { ns_meta: want, ..before }));
        }
        Ok(())
    }

    /// The addresses noted under a key with a value, or with any value where
    /// `value` is empty; in ascending order, each once.
    pub fn meta_query(&self, ns: &NamespaceRef, key: &str, value: &str) -> (out: Result<
        Vec<String>,
        StoreError,
    >)
        requires
            self.wf(),
        ensures
            match out {
                Ok(list) => crate::sorted::ascending(list.deep_view()) && forall|x: Seq<char>|
                    #[trigger] list.deep_view().contains(x) <==> is_noted(
                        self.state(),
                        *ns,
                        key@,
                        value@,
                        x,
                    ),
                Err(_) => false,
            },
    {
        let key_hash: u64 = item_hash(key);
        let value_hash: u64 = item_hash(value);
        let any = value.is_empty();
        let mut list: Vec<String> = Vec::new();
        assert(list.deep_view() =~= Seq::<Seq<char>>::empty());
        let mut i: usize = 0;
        while i < self.ns_meta.rows.len()
            invariant
                self.wf(),
                i <= self.ns_meta.rows@.len(),
                key_hash == name_hash(key@),
                value_hash == name_hash(value@),
                any == (value@.len() == 0),
                crate::sorted::ascending(list.deep_view()),
                forall|x: Seq<char>| #[trigger]
                    list.deep_view().contains(x) <==> exists|j: int|
                        0 <= j < i && (#[trigger] self.note_row(ns, key_hash, value_hash, any, j))
                            && self.ns_meta.rows@[j].1.deep_view().contains(x),
            decreases self.ns_meta.rows@.len() - i,
        {
            let row = &self.ns_meta.rows[i];
            let wanted = crate::bytes::same_bytes(row.0.0.as_slice(), ns.uuid().as_slice()) && row.0.1
                == key_hash && (any || row.0.2 == value_hash);
            assert(wanted == self.note_row(ns, key_hash, value_hash, any, i as int));
            let ghost before_row = list.deep_view();
            if wanted {
                let mut k: usize = 0;
                while k < row.1.len()
                    invariant
                        k <= row.1@.len(),
                        crate::sorted::ascending(list.deep_view()),
                        forall|x: Seq<char>| #[trigger]
                            list.deep_view().contains(x) <==> before_row.contains(x) || exists|
                                m: int,
                            |
                                0 <= m < k && #[trigger] row.1@[m]@ == x,
                    decreases row.1@.len() - k,
                {
                    let ghost had = list.deep_view();
                    insert_text(&mut list, row.1[k].clone());
                    assert forall|x: Seq<char>| #[trigger]
                        list.deep_view().contains(x) <==> before_row.contains(x) || exists|m: int|
                            0 <= m < k + 1 && #[trigger] row.1@[m]@ == x by {
                        if x == row.1@[k as int]@ {
                            assert(row.1@[k as int]@ == x);
                        }
                        if had.contains(x) && !before_row.contains(x) {
                            let m = choose|m: int| 0 <= m < k && #[trigger] row.1@[m]@ == x;
                            assert(row.1@[m]@ == x);
                        }
                    }
                    k += 1;
                }
            }
            proof {
                let views = self.ns_meta.rows@[i as int].1.deep_view();
                assert forall|x: Seq<char>| #[trigger]
                    list.deep_view().contains(x) <==> exists|j: int|
                        0 <= j < i + 1 && (#[trigger] self.note_row(ns, key_hash, value_hash, any, j))
                            && self.ns_meta.rows@[j].1.deep_view().contains(x) by {
                    if before_row.contains(x) {
                        let j = choose|j: int|
                            0 <= j < i && (#[trigger] self.note_row(ns, key_hash, value_hash, any, j))
                                && self.ns_meta.rows@[j].1.deep_view().contains(x);
                        assert(self.note_row(ns, key_hash, value_hash, any, j));
                    }
                    if wanted && views.contains(x) {
                        let m = choose|m: int| 0 <= m < views.len() && views[m] == x;
                        assert(row.1@[m]@ == x);
                        assert(self.note_row(ns, key_hash, value_hash, any, i as int));
                    }
                    if list.deep_view().contains(x) && !before_row.contains(x) {
                        let m = choose|m: int| 0 <= m < row.1@.len() && #[trigger] row.1@[m]@ == x;
                        assert(views[m] == x);
                        assert(self.note_row(ns, key_hash, value_hash, any, i as int));
                    }
                }
            }
            i += 1;
        }
        proof {
            assert forall|x: Seq<char>| #[trigger]
                list.deep_view().contains(x) <==> is_noted(self.state(), *ns, key@, value@, x) by {
                if list.deep_view().contains(x) {
                    let j = choose|j: int|
                        0 <= j < i && (#[trigger] self.note_row(ns, key_hash, value_hash, any, j))
                            && self.ns_meta.rows@[j].1.deep_view().contains(x);
                    self.ns_meta.lemma_row(j);
                    let v = self.ns_meta.rows@[j].0.2;
                    assert(self.state().ns_meta.dom().contains((ns.id(), key_hash, v)));
                    assert(self.state().ns_meta[(ns.id(), key_hash, v)].contains(x));
                }
                if is_noted(self.state(), *ns, key@, value@, x) {
                    let v = choose|v: u64|
                        (value@.len() == 0 || v == name_hash(value@)) && (
                        #[trigger] self.state().ns_meta.dom().contains(
                            (ns.id(), name_hash(key@), v),
                        )) && self.state().ns_meta[(ns.id(), name_hash(key@), v)].contains(x);
                    let kk = (ns.id(), key_hash, v);
                    assert(self.ns_meta.has(kk));
                    let j = self.ns_meta.row_of(kk);
                    assert(self.ns_meta.rows@[j].0.key() == kk);
                    self.ns_meta.lemma_row(j);
                    assert(self.note_row(ns, key_hash, value_hash, any, j));
                }
            }
        }
        Ok(list)
    }

    spec fn note_row(&self, ns: &NamespaceRef, key_hash: u64, value_hash: u64, any: bool, j: int) -> bool {
        let k = self.ns_meta.rows@[j].0.key();
        k.0 == ns.id() && k.1 == key_hash && (any || k.2 == value_hash)
    }
}

/// The state after an address is noted under a key with a value.
pub open spec fn meta_noted(
    before: StoreState,
    ns: NamespaceRef,
    kappa: Seq<char>,
    key: Seq<char>,
    value: Seq<char>,
) -> StoreState {
    let here = before.ensured(ns);
    let k = (ns.id(), name_hash(key), name_hash(value));
    let list = if here.ns_meta.dom().contains(k) {
        here.ns_meta[k]
    } else {
        Seq::empty()
    };
    StoreState { ns_meta: here.ns_meta.insert(k, list.push(kappa)), ..here }
}

/// Whether an address is noted under a key with a value, or with any value
/// where the value is empty.
pub open spec fn is_noted(
    st: StoreState,
    ns: NamespaceRef,
    key: Seq<char>,
    value: Seq<char>,
    kappa: Seq<char>,
) -> bool {
    exists|v: u64|
        (value.len() == 0 || v == name_hash(value)) && (#[trigger] st.ns_meta.dom().contains(
            (ns.id(), name_hash(key), v),
        )) && st.ns_meta[(ns.id(), name_hash(key), v)].contains(kappa)
}

/// A range of content is the bytes from its offset on, as many as were asked for or
/// as there are.
pub proof fn law_range(content: Seq<u8>, offset: nat, length: nat, i: int)
    ensures
        offset + length <= content.len() ==> range_of(content, offset, length).len() == length,
        offset <= content.len() < offset + length ==> range_of(content, offset, length).len()
            == content.len() - offset,
        offset > content.len() ==> range_of(content, offset, length).len() == 0,
        0 <= i < range_of(content, offset, length).len() ==> range_of(content, offset, length)[i]
            == content[offset + i],
{
}

/// An address that was noted under a key with a value is found by the key with that
/// value, and by the key alone; what was noted before stays.
pub proof fn law_noted(
    st: StoreState,
    ns: NamespaceRef,
    kappa: Seq<char>,
    key: Seq<char>,
    value: Seq<char>,
    other: Seq<char>,
    any: Seq<char>,
)
    ensures
        is_noted(meta_noted(st, ns, kappa, key, value), ns, key, value, kappa),
        is_noted(meta_noted(st, ns, kappa, key, value), ns, key, Seq::empty(), kappa),
        is_noted(st, ns, key, any, other) ==> is_noted(
            meta_noted(st, ns, kappa, key, value),
            ns,
            key,
            any,
            other,
        ),
{
    let after = meta_noted(st, ns, kappa, key, value);
    let k = (ns.id(), name_hash(key), name_hash(value));
    let had = if st.ns_meta.dom().contains(k) {
        st.ns_meta[k]
    } else {
        Seq::empty()
    };
    crate::git::walk::lemma_push_contains(had, kappa, kappa);
    crate::git::walk::lemma_push_contains(had, kappa, other);
    assert(after.ns_meta.dom().contains((ns.id(), name_hash(key), name_hash(value))));
    if is_noted(st, ns, key, any, other) {
        let v = choose|v: u64|
            (any.len() == 0 || v == name_hash(any)) && (#[trigger] st.ns_meta.dom().contains(
                (ns.id(), name_hash(key), v),
            )) && st.ns_meta[(ns.id(), name_hash(key), v)].contains(other);
        assert(after.ns_meta.dom().contains((ns.id(), name_hash(key), v)));
    }
}

/// Content that is ingested is found at its address and at its SHA-256 address; what
/// was stored stays as it was.
pub proof fn law_ingested_at_both(
    st: StoreState,
    axis: Axis,
    kappa: Seq<char>,
    content: Seq<u8>,
    other: Seq<char>,
)
    requires
        axis == Axis::Sha256 ==> kappa == kappa_of(content),
    ensures
        ({
            let after = st.ingested(axis, kappa, content);
            &&& after.blobs.dom().contains(kappa)
            &&& after.blobs.dom().contains(kappa_of(content))
            &&& !st.blobs.dom().contains(kappa) ==> after.blobs[kappa] == content
            &&& !st.blobs.dom().contains(kappa_of(content)) ==> after.blobs[kappa_of(content)]
                == content
            &&& st.blobs.dom().contains(other) ==> after.blobs.dom().contains(other)
                && after.blobs[other] == st.blobs[other]
            &&& after.blobs.dom().contains(other) && other != kappa && other != kappa_of(content)
                ==> st.blobs.dom().contains(other)
        }),
{
}

} // verus!
