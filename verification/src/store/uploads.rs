//! Uploads in parts, and blobs stored compressed.

use vstd::prelude::*;

use crate::bytes::append_bytes;
use crate::digest::md5_digest;
use crate::hexadecimal::{hex_encode, hex_of};
use crate::store::memory::{
    adds_addressed, ingest_ok, lemma_adds_both, lemma_adds_none, InMemoryStore, IngestResult,
};
use crate::store::state::{CompressionView, StoreState, UploadView};
use crate::table::{lemma_deep_bytes, lemma_deep_sixteen, TableKey};
use crate::text::{decimal, decimal_text, joined, joined3, same_text, split_once};
use crate::types::{NamespaceRef, StoreError};
use crate::verified::streaming_compute_kappa;

verus! {

broadcast use {lemma_deep_bytes, lemma_deep_sixteen};

/// One part of an upload: its number, its MD5 digest and its size.
pub struct PartDigest {
    pub number: u32,
    pub md5: [u8; 16],
    pub size: u64,
}

impl DeepView for PartDigest {
    type V = (u32, Seq<u8>, u64);

    open spec fn deep_view(&self) -> (u32, Seq<u8>, u64) {
        (self.number, self.md5@, self.size)
    }
}

/// An upload in progress.
pub struct UploadSession {
    pub namespace: String,
    pub data: Vec<u8>,
    pub max_size: u64,
    pub created_ms: u64,
    pub parts: Vec<PartDigest>,
}

impl DeepView for UploadSession {
    type V = UploadView;

    open spec fn deep_view(&self) -> UploadView {
        UploadView {
            namespace: self.namespace@,
            data: self.data@,
            max_size: self.max_size,
            created_ms: self.created_ms,
            parts: self.parts.deep_view(),
        }
    }
}

/// What is known of a blob stored compressed.
pub struct CompressionRecord {
    pub kappa: String,
    pub algorithm: String,
    pub compressed: Vec<u8>,
    pub uncompressed_size: u64,
}

impl DeepView for CompressionRecord {
    type V = CompressionView;

    open spec fn deep_view(&self) -> CompressionView {
        CompressionView {
            kappa: self.kappa@,
            algorithm: self.algorithm@,
            compressed: self.compressed@,
            uncompressed_size: self.uncompressed_size,
        }
    }
}

/// Whether more than `timeout` seconds have passed between two times in
/// milliseconds.
pub open spec fn timed_out(created_ms: u64, now_ms: u64, timeout_secs: u64) -> bool {
    now_ms - created_ms > timeout_secs * 1000
}

/// Whether an upload has been open for longer than the store allows.
pub open spec fn upload_expired(st: StoreState, id: Seq<char>, now_ms: u64) -> bool {
    &&& st.uploads.dom().contains(id)
    &&& st.upload_timeout_secs matches Some(t) && timed_out(st.uploads[id].created_ms, now_ms, t)
}

/// The state without an upload.
pub open spec fn upload_gone(st: StoreState, id: Seq<char>) -> StoreState {
    StoreState { uploads: st.uploads.remove(id), ..st }
}

/// An upload with one more part.
pub open spec fn with_part(u: UploadView, data: Seq<u8>) -> UploadView {
    UploadView {
        data: u.data + data,
        parts: u.parts.push(
            ((u.parts.len() + 1) as u32, crate::digest::md5_of(data), data.len() as u64),
        ),
        ..u
    }
}

/// Whether a part can be added: it starts where the data ends, the whole stays
/// within the limit, and both can be counted.
pub open spec fn part_fits(u: UploadView, data: Seq<u8>) -> bool {
    &&& u.data.len() + data.len() <= usize::MAX
    &&& u.max_size > 0 ==> u.data.len() + data.len() <= u.max_size
    &&& u.parts.len() < u32::MAX
}

/// What a part that cannot be added is reported as.
pub open spec fn part_refusal(u: UploadView, data: Seq<u8>) -> Seq<char> {
    if u.data.len() + data.len() > usize::MAX {
        "upload exceeds memory"@
    } else if u.max_size > 0 && u.data.len() + data.len() > u.max_size {
        "upload exceeds max size "@ + decimal(u.max_size as nat)
    } else {
        "too many parts"@
    }
}

/// What an upload that cannot be completed is reported as: for its axis, for the
/// traces of a collision attack, or for a digest other than the claimed one.
pub open spec fn completion_refusal(claimed: Option<Seq<char>>, content: Seq<u8>) -> Seq<char> {
    match crate::kappa::axis_named(claimed_axis(claimed)) {
        None => "unknown axis: "@ + claimed_axis(claimed),
        Some(axis) => match crate::kappa::content_label(axis, content) {
            None => "sha1 collision detected"@,
            Some(kappa) => "digest mismatch: expected "@ + claimed->0 + ", computed "@ + kappa,
        },
    }
}

/// The axis that a claimed digest names; SHA-256 where none does.
pub open spec fn claimed_axis(claimed: Option<Seq<char>>) -> Seq<char> {
    match claimed {
        Some(d) => match crate::text::split_once_spec(d, ':') {
            Some((axis, _)) => axis,
            None => "sha256"@,
        },
        None => "sha256"@,
    }
}

/// `uuid::Uuid::new_v4`, as text. Nothing is known of the value.
#[verifier::external_body]
pub(crate) fn new_uuid() -> (out: String) {
    uuid::Uuid::new_v4().to_string()
}

fn is_timed_out(created_ms: u64, now_ms: u64, timeout_secs: u64) -> (yes: bool)
    ensures
        yes == timed_out(created_ms, now_ms, timeout_secs),
{
    if now_ms < created_ms {
        return false;
    }
    let elapsed: u64 = now_ms - created_ms;
    elapsed as u128 > timeout_secs as u128 * 1000
}

impl InMemoryStore {
    fn is_expired(&self, upload_id: &String, now_ms: u64) -> (yes: bool)
        requires
            self.wf(),
        ensures
            yes == upload_expired(self.state(), upload_id@, now_ms),
    {
        match self.upload_timeout_secs {
            Some(timeout) => match self.uploads.get(upload_id) {
                Some(session) => is_timed_out(session.created_ms, now_ms, timeout),
                None => false,
            },
            None => false,
        }
    }

    fn forget_upload(&mut self, upload_id: &String)
        requires
            old(self).wf(),
        ensures
            final(self).wf(),
            final(self).state() == upload_gone(old(self).state(), upload_id@),
    {
        let ghost before = self.state();
        self.uploads.remove(upload_id);
        assert(self.state() =~= upload_gone(before, upload_id@));
    }

    /// Opens an upload under an identifier.
    pub fn upload_open(
        &mut self,
        id: &str,
        namespace: &NamespaceRef,
        max_size: u64,
        now_ms: u64,
    )
        requires
            old(self).wf(),
        ensures
            final(self).wf(),
            final(self).state() == (StoreState {
                uploads: old(self).state().uploads.insert(
                    id@,
                    UploadView {
                        namespace: namespace.shown(),
                        data: Seq::empty(),
                        max_size,
                        created_ms: now_ms,
                        parts: Seq::empty(),
                    },
                ),
                ..old(self).state()
            }),
    {
        let ghost before = self.state();
        let session = UploadSession {
            namespace: namespace.as_str(),
            data: Vec::new(),
            max_size,
            created_ms: now_ms,
            parts: Vec::new(),
        };
        let ghost fresh = UploadView {
            namespace: namespace.shown(),
            data: Seq::empty(),
            max_size,
            created_ms: now_ms,
            parts: Seq::empty(),
        };
        proof {
            assert(session.deep_view().data =~= Seq::<u8>::empty());
            assert(session.deep_view().parts =~= fresh.parts);
            assert(session.deep_view() == fresh);
        }
        self.uploads.insert(id.to_owned(), session);
        assert(self.state() =~= (StoreState { uploads: before.uploads.insert(id@, fresh), ..before }));
    }

    /// Opens an upload; its identifier.
    pub fn upload_begin(&mut self, namespace: &NamespaceRef, max_size: u64, now_ms: u64) -> (out: Result<
        String,
        StoreError,
    >)
        requires
            old(self).wf(),
        ensures
            final(self).wf(),
            match out {
                Ok(id) => final(self).state() == (StoreState {
                    uploads: old(self).state().uploads.insert(
                        id@,
                        UploadView {
                            namespace: namespace.shown(),
                            data: Seq::empty(),
                            max_size,
                            created_ms: now_ms,
                            parts: Seq::empty(),
                        },
                    ),
                    ..old(self).state()
                }),
                Err(_) => false,
            },
    {
        let id = new_uuid();
        self.upload_open(id.as_str(), namespace, max_size, now_ms);
        Ok(id)
    }

    /// Adds a part to an upload; the bytes received so far.
    pub fn upload_put_part(&mut self, upload_id: &str, offset: u64, data: &[u8], now_ms: u64) -> (out: Result<
        u64,
        StoreError,
    >)
        requires
            old(self).wf(),
        ensures
            final(self).wf(),
            ({
                let before = old(self).state();
                let u = before.uploads[upload_id@];
                match out {
                    Ok(total) => {
                        &&& before.uploads.dom().contains(upload_id@)
                        &&& !upload_expired(before, upload_id@, now_ms)
                        &&& offset == u.data.len()
                        &&& part_fits(u, data@)
                        &&& total == u.data.len() + data@.len()
                        &&& final(self).state() == (StoreState {
                            uploads: before.uploads.insert(upload_id@, with_part(u, data@)),
                            ..before
                        })
                    },
                    Err(StoreError::NotFound(m)) => if upload_expired(before, upload_id@, now_ms) {
                        m@ == "upload "@ + upload_id@ + " expired"@ && final(self).state()
                            == upload_gone(before, upload_id@)
                    } else {
                        !before.uploads.dom().contains(upload_id@) && m@ == "upload "@ + upload_id@
                            && final(self).state() == before
                    },
                    Err(StoreError::Conflict(m)) => before.uploads.dom().contains(upload_id@)
                        && !upload_expired(before, upload_id@, now_ms) && offset != u.data.len()
                        && m@ == "out-of-order: expected offset "@ + decimal(u.data.len())
                        + ", got "@ + decimal(offset as nat) && final(self).state() == before,
                    Err(StoreError::Rejected(m)) => before.uploads.dom().contains(upload_id@)
                        && !upload_expired(before, upload_id@, now_ms) && offset == u.data.len()
                        && !part_fits(u, data@) && m@ == part_refusal(u, data@)
                        && final(self).state() == before,
                    Err(_) => false,
                }
            }),
    {
        let ghost before = self.state();
        let id = upload_id.to_owned();
        if self.is_expired(&id, now_ms) {
            self.forget_upload(&id);
            return Err(StoreError::NotFound(joined3("upload ", upload_id, " expired")));
        }
        let at: usize = match self.uploads.find(&id) {
            Some(i) => i,
            None => return Err(StoreError::NotFound(joined("upload ", upload_id))),
        };
        let have: u64 = self.uploads.rows[at].1.data.len() as u64;
        let count: usize = self.uploads.rows[at].1.parts.len();
        let limit: u64 = self.uploads.rows[at].1.max_size;
        if offset != have {
            let head = joined3("out-of-order: expected offset ", decimal_text(have).as_str(), ", got ");
            return Err(StoreError::Conflict(joined(head.as_str(), decimal_text(offset).as_str())));
        }
        let room: u64 = (usize::MAX - self.uploads.rows[at].1.data.len()) as u64;
        if data.len() as u64 > room {
            return Err(StoreError::Rejected("upload exceeds memory".to_owned()));
        }
        if limit > 0 && have + data.len() as u64 > limit {
            return Err(
                StoreError::Rejected(joined("upload exceeds max size ", decimal_text(limit).as_str())),
            );
        }
        if count >= u32::MAX as usize {
            return Err(StoreError::Rejected("too many parts".to_owned()));
        }
        match self.uploads.remove(&id) {
            Some(session) => {
                let mut bytes = session.data;
                let mut parts = session.parts;
                let ghost had = parts.deep_view();
                append_bytes(&mut bytes, data);
                parts.push(
                    PartDigest {
                        number: count as u32 + 1,
                        md5: md5_digest(data),
                        size: data.len() as u64,
                    },
                );
                let total: u64 = bytes.len() as u64;
                let renewed = UploadSession {
                    namespace: session.namespace,
                    data: bytes,
                    max_size: session.max_size,
                    created_ms: session.created_ms,
                    parts,
                };
                proof {
                    let u = before.uploads[upload_id@];
                    assert(renewed.deep_view().parts =~= with_part(u, data@).parts);
                    assert(renewed.deep_view() == with_part(u, data@));
                }
                self.uploads.insert(id, renewed);
                proof {
                    let u = before.uploads[upload_id@];
                    assert(self.uploads@ =~= before.uploads.insert(
                        upload_id@,
                        with_part(u, data@),
                    ));
                    assert(self.state() =~= (StoreState {
                        uploads: before.uploads.insert(upload_id@, with_part(u, data@)),
                        ..before
                    }));
                }
                Ok(total)
            },
            None => Err(StoreError::NotFound(joined("upload ", upload_id))),
        }
    }

    /// Closes an upload and ingests what was received, checked against the
    /// digest that was claimed.
    pub fn upload_complete(&mut self, upload_id: &str, claimed_digest: Option<&str>, now_ms: u64) -> (out: Result<
        IngestResult,
        StoreError,
    >)
        requires
            old(self).wf(),
        ensures
            final(self).wf(),
            ({
                let before = old(self).state();
                let gone = upload_gone(before, upload_id@);
                let content = before.uploads[upload_id@].data;
                let claimed = match claimed_digest {
                    Some(d) => Some(d@),
                    None => None,
                };
                let axis = crate::kappa::axis_named(claimed_axis(claimed));
                match out {
                    Ok(r) => {
                        &&& before.uploads.dom().contains(upload_id@)
                        &&& !upload_expired(before, upload_id@, now_ms)
                        &&& axis is Some
                        &&& crate::kappa::content_label(axis->0, content) == Some(r.kappa@)
                        &&& claimed matches Some(c) ==> c == r.kappa@
                        &&& ingest_ok(gone, final(self).state(), r.kappa@, content, r)
                    },
                    Err(StoreError::NotFound(m)) => (!before.uploads.dom().contains(upload_id@)
                        || upload_expired(before, upload_id@, now_ms)) && m@ == (
                    if before.uploads.dom().contains(upload_id@) {
                        "upload "@ + upload_id@ + " expired"@
                    } else {
                        "upload "@ + upload_id@
                    }) && final(self).state() == gone,
                    Err(StoreError::Rejected(m)) => {
                        &&& m@ == completion_refusal(claimed, content)
                        &&& before.uploads.dom().contains(upload_id@)
                        &&& !upload_expired(before, upload_id@, now_ms)
                        &&& final(self).state() == gone
                        &&& (axis is None || crate::kappa::content_label(axis->0, content) is None
                            || (claimed matches Some(c) && crate::kappa::content_label(
                            axis->0,
                            content,
                        ) != Some(c)))
                    },
                    Err(_) => false,
                }
            }),
            adds_addressed(old(self).state(), final(self).state()),
    {
        proof {
            lemma_adds_none(self.state(), upload_gone(self.state(), upload_id@));
        }
        let id = upload_id.to_owned();
        let expired = self.is_expired(&id, now_ms);
        let ghost before = self.state();
        let content = match self.uploads.remove(&id) {
            Some(session) => session.data,
            None => {
                assert(self.state() =~= upload_gone(before, upload_id@));
                return Err(StoreError::NotFound(joined("upload ", upload_id)));
            },
        };
        assert(self.state() =~= upload_gone(before, upload_id@));
        if expired {
            return Err(StoreError::NotFound(joined3("upload ", upload_id, " expired")));
        }
        let axis: String = match claimed_digest {
            Some(d) => match split_once(d, ':') {
                Some(parts) => parts.0,
                None => "sha256".to_owned(),
            },
            None => "sha256".to_owned(),
        };
        let kappa = match streaming_compute_kappa(axis.as_str(), content.as_slice()) {
            Ok(p) => p.into_parts().0,
            Err(e) => return Err(StoreError::Rejected(e.message())),
        };
        if let Some(claimed) = claimed_digest {
            if !same_text(kappa.as_str(), claimed) {
                let head = joined3("digest mismatch: expected ", claimed, ", computed ");
                return Err(StoreError::Rejected(joined(head.as_str(), kappa.as_str())));
            }
        }
        let ghost gone = self.state();
        let out = self.ingest_verified(kappa.as_str(), content.as_slice());
        proof {
            lemma_adds_both(before, gone, self.state());
        }
        out
    }

    /// Drops an upload.
    pub fn upload_abort(&mut self, upload_id: &str) -> (out: Result<(), StoreError>)
        requires
            old(self).wf(),
        ensures
            final(self).wf(),
            final(self).state() == upload_gone(old(self).state(), upload_id@),
            out is Ok,
    {
        self.forget_upload(&upload_id.to_owned());
        Ok(())
    }

    /// Bytes received by an upload that is still open. An expired upload is
    /// dropped.
    pub fn upload_bytes_received(&mut self, upload_id: &str, now_ms: u64) -> (out: Option<u64>)
        requires
            old(self).wf(),
        ensures
            final(self).wf(),
            ({
                let before = old(self).state();
                if upload_expired(before, upload_id@, now_ms) {
                    out is None && final(self).state() == upload_gone(before, upload_id@)
                } else {
                    &&& final(self).state() == before
                    &&& match out {
                        Some(n) => before.uploads.dom().contains(upload_id@) && n
                            == before.uploads[upload_id@].data.len(),
                        None => !before.uploads.dom().contains(upload_id@),
                    }
                }
            }),
    {
        let id = upload_id.to_owned();
        if self.is_expired(&id, now_ms) {
            self.forget_upload(&id);
            return None;
        }
        match self.uploads.get(&id) {
            Some(session) => Some(session.data.len() as u64),
            None => None,
        }
    }

    /// Namespace of an upload that is still open. An expired upload is dropped.
    pub fn upload_namespace(&mut self, upload_id: &str, now_ms: u64) -> (out: Option<String>)
        requires
            old(self).wf(),
        ensures
            final(self).wf(),
            ({
                let before = old(self).state();
                if upload_expired(before, upload_id@, now_ms) {
                    out is None && final(self).state() == upload_gone(before, upload_id@)
                } else {
                    &&& final(self).state() == before
                    &&& match out {
                        Some(n) => before.uploads.dom().contains(upload_id@) && n@
                            == before.uploads[upload_id@].namespace,
                        None => !before.uploads.dom().contains(upload_id@),
                    }
                }
            }),
    {
        let id = upload_id.to_owned();
        if self.is_expired(&id, now_ms) {
            self.forget_upload(&id);
            return None;
        }
        match self.uploads.get(&id) {
            Some(session) => Some(session.namespace.clone()),
            None => None,
        }
    }

    /// The parts of an upload: number, quoted MD5 digest, size.
    pub fn upload_part_info(&self, upload_id: &str) -> (out: Vec<(u32, String, u64)>)
        requires
            self.wf(),
        ensures
            ({
                let parts = if self.state().uploads.dom().contains(upload_id@) {
                    self.state().uploads[upload_id@].parts
                } else {
                    Seq::empty()
                };
                &&& out@.len() == parts.len()
                &&& forall|i: int|
                    0 <= i < out@.len() ==> (#[trigger] out@[i]).0 == parts[i].0 && out@[i].1@
                        == seq!['"'] + hex_of(parts[i].1) + seq!['"'] && out@[i].2 == parts[i].2
            }),
    {
        let mut out: Vec<(u32, String, u64)> = Vec::new();
        match self.uploads.get(&upload_id.to_owned()) {
            Some(session) => {
                let ghost parts = session.parts.deep_view();
                let mut i: usize = 0;
                while i < session.parts.len()
                    invariant
                        i <= session.parts@.len(),
                        parts == session.parts.deep_view(),
                        out@.len() == i,
                        forall|k: int|
                            0 <= k < i ==> (#[trigger] out@[k]).0 == parts[k].0 && out@[k].1@
                                == seq!['"'] + hex_of(parts[k].1) + seq!['"'] && out@[k].2
                                == parts[k].2,
                    decreases session.parts@.len() - i,
                {
                    let part = &session.parts[i];
                    let digits = hex_encode(part.md5.as_slice());
                    proof {
                        reveal_strlit("\"");
                    }
                    let quoted = joined3("\"", digits.as_str(), "\"");
                    assert("\""@ =~= seq!['"']);
                    out.push((part.number, quoted, part.size));
                    i += 1;
                }
            },
            None => {},
        }
        out
    }

    /// Drops the uploads that have been open for longer than `timeout_secs`;
    /// how many there were.
    pub fn upload_evict_expired(&mut self, timeout_secs: u64, now_ms: u64) -> (n: usize)
        requires
            old(self).wf(),
        ensures
            final(self).wf(),
            final(self).state() == (StoreState {
                uploads: final(self).state().uploads,
                ..old(self).state()
            }),
            forall|id: Seq<char>| #[trigger]
                final(self).state().uploads.dom().contains(id) <==> (old(
                    self).state().uploads.dom().contains(id) && !timed_out(
                    old(self).state().uploads[id].created_ms,
                    now_ms,
                    timeout_secs,
                )),
            forall|id: Seq<char>| #[trigger]
                final(self).state().uploads.dom().contains(id) ==> final(self).state().uploads[id]
                    == old(self).state().uploads[id],
            n == old(self).state().uploads.dom().len() - final(self).state().uploads.dom().len(),
    {
        let ghost before = self.state();
        let all: usize = self.uploads.len();
        let mut n: usize = 0;
        let mut i: usize = 0;
        while i < self.uploads.rows.len()
            invariant
                self.wf(),
                i <= self.uploads.rows@.len(),
                n + self.uploads.rows@.len() == all,
                self.state() == (StoreState { uploads: self.state().uploads, ..before }),
                forall|j: int|
                    0 <= j < i ==> !timed_out(
                        (#[trigger] self.uploads.rows@[j]).1.created_ms,
                        now_ms,
                        timeout_secs,
                    ),
                forall|id: Seq<char>| #[trigger]
                    self.uploads@.dom().contains(id) ==> before.uploads.dom().contains(id)
                        && self.uploads@[id] == before.uploads[id],
                forall|id: Seq<char>| #[trigger]
                    before.uploads.dom().contains(id) && !self.uploads@.dom().contains(id)
                        ==> timed_out(before.uploads[id].created_ms, now_ms, timeout_secs),
            decreases self.uploads.rows@.len() - i,
        {
            if is_timed_out(self.uploads.rows[i].1.created_ms, now_ms, timeout_secs) {
                let id = self.uploads.rows[i].0.clone();
                let ghost held = self.uploads@;
                let ghost prev = self.state();
                proof {
                    self.uploads.lemma_row(i as int);
                }
                self.uploads.remove_at(i);
                n += 1;
                proof {
                    assert(self.uploads@ == held.remove(id@));
                    assert(self.state() =~= (StoreState { uploads: self.uploads@, ..before }));
                    assert(self.state().tags == prev.tags);
                    assert(prev.wf());
                    assert(self.state().wf());
                }
            } else {
                i += 1;
            }
        }
        proof {
            self.uploads.lemma_len();
            assert forall|id: Seq<char>| #[trigger]
                self.state().uploads.dom().contains(id) <==> (before.uploads.dom().contains(id)
                    && !timed_out(before.uploads[id].created_ms, now_ms, timeout_secs)) by {
                if self.uploads@.dom().contains(id) {
                    assert(self.uploads.has(id));
                    let j = self.uploads.row_of(id);
                    assert(self.uploads.rows@[j].0.key() == id);
                    self.uploads.lemma_row(j);
                }
            }
        }
        n
    }
}

// -- Laws ---------------------------------------------------------------------------

/// An upload gathers its parts in the order in which they come: their data one
/// behind the other, and of each its number, its MD5 digest and its size.
pub proof fn law_parts_gathered(u: UploadView, a: Seq<u8>, b: Seq<u8>)
    requires
        u.parts.len() + 2 <= u32::MAX,
        a.len() <= u64::MAX,
        b.len() <= u64::MAX,
    ensures
        ({
            let after = with_part(with_part(u, a), b);
            let n = u.parts.len() as int;
            &&& after.data == u.data + (a + b)
            &&& after.parts.len() == n + 2
            &&& after.parts[n].0 == n + 1 && after.parts[n + 1].0 == n + 2
            &&& after.parts[n].1 == crate::digest::md5_of(a) && after.parts[n].2 == a.len()
            &&& after.parts[n + 1].1 == crate::digest::md5_of(b) && after.parts[n + 1].2 == b.len()
            &&& after.created_ms == u.created_ms && after.max_size == u.max_size
        }),
{
    let after = with_part(with_part(u, a), b);
    assert(after.data =~= u.data + (a + b));
}

/// A part that keeps the upload at or under its limit can be added, and none that
/// takes it over the limit; a limit of zero is none.
pub proof fn law_part_limit(u: UploadView, data: Seq<u8>)
    requires
        u.data.len() + data.len() <= usize::MAX,
        u.parts.len() < u32::MAX,
    ensures
        part_fits(u, data) <==> u.max_size == 0 || u.data.len() + data.len() <= u.max_size,
{
}

/// An upload is dropped once more than its seconds have passed, and not before.
pub proof fn law_upload_times_out(created_ms: u64, now_ms: u64, timeout_secs: u64)
    ensures
        timed_out(created_ms, now_ms, timeout_secs) <==> now_ms > created_ms + 1000 * timeout_secs,
{
}

} // verus!
