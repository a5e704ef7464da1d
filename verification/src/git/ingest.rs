//! Ingesting packs: every entry becomes an object in the store.

use std::collections::HashMap;

use gix_hash::Kind as GixHash;
use gix_pack::data::entry::Header::{Blob, Commit, OfsDelta, RefDelta, Tag, Tree};
use gix_pack::data::input::{BytesToEntriesIter, EntryDataMode, Mode};
use vstd::prelude::*;
use vstd::slice::slice_subrange;

use crate::git::delta::{apply_delta_checked, delta_result, DeltaFault};
use crate::git::envelope::{
    envelope_of, envelope_parts, fault_text, git_object_id, hash_axis, hash_name, object_kappa,
    oid_kappa, oid_to_kappa, unwrap, wrap, EnvelopeError, EnvelopeFault,
};
use crate::git::layout::{is_pack_of, items_entries, PackItem};
use crate::git::object::{loose_header, loose_header_of, HashKind, Kind, ObjectId};
use crate::git::restore::{
    agrees, is_full_pack, is_sorted_pack, law_full_pack_restored, law_sorted_pack_restored,
    restored, Blobs,
};
use crate::git::zlib::{inflate, inflated_of};
use crate::hexadecimal::hex_of;
use crate::store::memory::{adds_addressed, lemma_adds_both, lemma_adds_none, InMemoryStore};
use crate::store::state::StoreState;
use crate::text::{decimal, decimal_text, joined, joined3};
use crate::types::{NamespaceRef, StoreError};

verus! {

broadcast use vstd::std_specs::hash::group_hash_axioms;

/// Objects above this size are stored through an upload.
pub const STREAMING_THRESHOLD: u64 = 262144;

/// Size of the parts of such an upload.
pub const UPLOAD_CHUNK_SIZE: usize = 65536;

/// What ingesting a pack did.
#[derive(Debug)]
pub struct PackIngestResult {
    pub objects_ingested: usize,
    pub objects_deduplicated: usize,
}

/// Why a pack was refused.
#[derive(Debug)]
pub enum IngestError {
    Pack(String),
    Store(StoreError),
    Envelope(EnvelopeError),
    Io(String),
    Delta(String),
    UnknownEntryType,
}

/// What a delta fault is reported as.
pub open spec fn delta_fault_text(f: DeltaFault) -> Seq<char> {
    match f {
        DeltaFault::BaseSizeCut => "truncated base_size varint"@,
        DeltaFault::ResultSizeCut => "truncated result_size varint"@,
        DeltaFault::BaseSize(declared, actual) => "base size mismatch: delta says "@ + decimal(
            declared as nat,
        ) + ", actual "@ + decimal(actual as nat),
        DeltaFault::Reserved => "reserved opcode 0x00"@,
        DeltaFault::CopyCut => "truncated copy"@,
        DeltaFault::CopyRange(offset, size, base_len) => "copy out of bounds: offset="@ + decimal(
            offset as nat,
        ) + ", size="@ + decimal(size as nat) + ", base_len="@ + decimal(base_len as nat),
        DeltaFault::InsertCut => "truncated insert data"@,
        DeltaFault::ResultSize(actual, declared) => "result size mismatch: got "@ + decimal(
            actual as nat,
        ) + ", expected "@ + decimal(declared as nat),
    }
}

fn delta_fault_message(f: DeltaFault) -> (out: String)
    ensures
        out@ == delta_fault_text(f),
{
    match f {
        DeltaFault::BaseSizeCut => "truncated base_size varint".to_owned(),
        DeltaFault::ResultSizeCut => "truncated result_size varint".to_owned(),
        DeltaFault::BaseSize(declared, actual) => {
            let head = joined3(
                "base size mismatch: delta says ",
                decimal_text(declared).as_str(),
                ", actual ",
            );
            joined(head.as_str(), decimal_text(actual).as_str())
        },
        DeltaFault::Reserved => "reserved opcode 0x00".to_owned(),
        DeltaFault::CopyCut => "truncated copy".to_owned(),
        DeltaFault::CopyRange(offset, size, base_len) => {
            let head = joined3(
                "copy out of bounds: offset=",
                decimal_text(offset).as_str(),
                ", size=",
            );
            let more = joined3(head.as_str(), decimal_text(size).as_str(), ", base_len=");
            joined(more.as_str(), decimal_text(base_len).as_str())
        },
        DeltaFault::InsertCut => "truncated insert data".to_owned(),
        DeltaFault::ResultSize(actual, declared) => {
            let head = joined3(
                "result size mismatch: got ",
                decimal_text(actual).as_str(),
                ", expected ",
            );
            joined(head.as_str(), decimal_text(declared).as_str())
        },
    }
}

/// Applies a delta to its base.
pub fn apply_delta(base: &[u8], delta: &[u8]) -> (out: Result<Vec<u8>, IngestError>)
    ensures
        match (out, delta_result(base@, delta@)) {
            (Ok(v), Ok(s)) => v@ == s,
            (Err(IngestError::Delta(m)), Err(f)) => m@ == delta_fault_text(f),
            _ => false,
        },
{
    match apply_delta_checked(base, delta) {
        Ok(v) => Ok(v),
        Err(f) => Err(IngestError::Delta(delta_fault_message(f))),
    }
}

// -- Entries ----------------------------------------------------------------------

/// What an entry of a pack is.
#[derive(Debug)]
pub enum EntryHeader {
    Commit,
    Tree,
    Blob,
    Tag,
    /// A delta to the object with this name.
    RefDelta(Vec<u8>),
    /// A delta to the object of the entry that begins this far before.
    OfsDelta(u64),
}

/// An entry of a pack: where it begins, what it is, its compressed data, and
/// the size of the data decompressed.
#[derive(Debug)]
pub struct PackEntry {
    pub offset: u64,
    pub header: EntryHeader,
    pub compressed: Vec<u8>,
    pub size: u64,
}

/// What an entry is.
pub enum HeaderView {
    Object(Kind),
    RefDelta(Seq<u8>),
    OfsDelta(u64),
}

/// What an entry holds.
pub struct EntryView {
    pub offset: u64,
    pub header: HeaderView,
    pub compressed: Seq<u8>,
    pub size: u64,
}

impl DeepView for PackEntry {
    type V = EntryView;

    open spec fn deep_view(&self) -> EntryView {
        EntryView {
            offset: self.offset,
            header: match self.header {
                EntryHeader::Commit => HeaderView::Object(Kind::Commit),
                EntryHeader::Tree => HeaderView::Object(Kind::Tree),
                EntryHeader::Blob => HeaderView::Object(Kind::Blob),
                EntryHeader::Tag => HeaderView::Object(Kind::Tag),
                EntryHeader::RefDelta(id) => HeaderView::RefDelta(id@),
                EntryHeader::OfsDelta(distance) => HeaderView::OfsDelta(distance),
            },
            compressed: self.compressed@,
            size: self.size,
        }
    }
}

/// The entries that a pack is read as, and whether reading stopped at a fault.
pub uninterp spec fn pack_read_of(hash: HashKind, pack: Seq<u8>) -> (Seq<EntryView>, bool);

/// `gix_pack::data::input::BytesToEntriesIter`, verifying and keeping the
/// compressed data, iterated to its end: the entries it gives, and the text of
/// the error that ended it, if one did. An error comes for a damaged header,
/// entry or checksum, after the entries before it. A pack that holds its entries
/// one behind the other, each an object or a delta to an entry before it, with
/// their number in front and the checksum behind, is read as those entries
/// without an error.
#[verifier::external_body]
pub(crate) fn read_pack(hash: HashKind, pack: &[u8]) -> (out: (Vec<PackEntry>, Option<String>))
    ensures
        (out.0.deep_view(), out.1 is Some) == pack_read_of(hash, pack@),
        forall|items: Seq<PackItem>| #[trigger]
            is_pack_of(hash, pack@, items) ==> out.0.deep_view() == items_entries(items)
                && out.1 is None,
{
    let kind = if hash == HashKind::Sha1 { GixHash::Sha1 } else { GixHash::Sha256 };
    let mut entries = vec![];
    let read = BytesToEntriesIter::new_from_header(pack, Mode::Verify, EntryDataMode::Keep, kind);
    let end = read.and_then(|mut iter| iter.try_for_each(|e| e.map(|e| entries.push(PackEntry {
        header: match e.header {
            Commit => EntryHeader::Commit,
            Tree => EntryHeader::Tree,
            Blob => EntryHeader::Blob,
            Tag => EntryHeader::Tag,
            RefDelta { base_id } => EntryHeader::RefDelta(base_id.as_slice().into()),
            OfsDelta { base_distance } => EntryHeader::OfsDelta(base_distance),
        },
        compressed: e.compressed.unwrap_or_default(), offset: e.pack_offset, size: e.decompressed_size
    }))));
    (entries, end.err().map(|e| e.to_string()))
}

// -- What ingesting means -----------------------------------------------------------

/// Why an entry, or the pack as a whole, was refused.
pub enum IngestFault {
    /// The compressed data cannot be decompressed.
    Inflate,
    /// The decompressed data has another size: actual, declared.
    Size(u64, u64),
    /// The distance to the base reaches before the pack: distance, offset.
    BaseDistance(u64, u64),
    /// No entry begins where the base should.
    BaseOffset(u64),
    /// The base is not stored.
    BaseMissing(Seq<char>),
    /// The base is not an object.
    Base(EnvelopeFault),
    /// The delta cannot be applied.
    Delta(DeltaFault),
    /// SHA-1 finds the traces of a collision attack.
    Collision,
    /// The same, in an object stored through an upload.
    StreamCollision,
    /// The object is too large for an upload.
    TooLarge,
    /// The pack cannot be read any further.
    Pack,
}

/// Whether an error reports a fault.
pub open spec fn reports(e: IngestError, f: IngestFault) -> bool {
    match f {
        IngestFault::Inflate => e is Io,
        IngestFault::Size(actual, declared) => e matches IngestError::Pack(m) && m@
            == "decompressed size mismatch: got "@ + decimal(actual as nat) + ", expected "@
            + decimal(declared as nat),
        IngestFault::BaseDistance(distance, offset) => e matches IngestError::Delta(m) && m@
            == "OFS_DELTA base_distance "@ + decimal(distance as nat) + " exceeds pack_offset "@
            + decimal(offset as nat),
        IngestFault::BaseOffset(offset) => e matches IngestError::Delta(m) && m@
            == "OFS_DELTA base at offset "@ + decimal(offset as nat) + " not in offset map"@,
        IngestFault::BaseMissing(kappa) => e matches IngestError::Delta(m) && m@ == "base "@ + kappa
            + " not found: not found: "@ + kappa,
        IngestFault::Base(g) => e matches IngestError::Envelope(EnvelopeError::Invalid(m)) && m@
            == fault_text(g),
        IngestFault::Delta(g) => e matches IngestError::Delta(m) && m@ == delta_fault_text(g),
        IngestFault::Collision => e matches IngestError::Envelope(EnvelopeError::Hash(_)),
        IngestFault::StreamCollision => e is Pack,
        IngestFault::TooLarge => e matches IngestError::Store(StoreError::Rejected(_)),
        IngestFault::Pack => e is Pack,
    }
}

/// The data of an entry.
pub open spec fn entry_data(compressed: Seq<u8>, size: u64) -> Result<Seq<u8>, IngestFault> {
    match inflated_of(compressed) {
        None => Err(IngestFault::Inflate),
        Some(data) => if data.len() != size {
            Err(IngestFault::Size(data.len() as u64, size))
        } else {
            Ok(data)
        },
    }
}

/// The object that a delta to a stored object stands for.
pub open spec fn delta_object(
    blobs: Map<Seq<char>, Seq<u8>>,
    base: Seq<char>,
    compressed: Seq<u8>,
    size: u64,
) -> Result<(Kind, Seq<u8>), IngestFault> {
    match entry_data(compressed, size) {
        Err(f) => Err(f),
        Ok(delta) => if !blobs.dom().contains(base) {
            Err(IngestFault::BaseMissing(base))
        } else {
            match envelope_parts(blobs[base]) {
                Err(g) => Err(IngestFault::Base(g)),
                Ok((kind, content)) => match delta_result(content, delta) {
                    Err(g) => Err(IngestFault::Delta(g)),
                    Ok(result) => Ok((kind, result)),
                },
            }
        },
    }
}

/// Whether an object fits into an upload: the whole into memory, and its parts
/// into their numbering.
pub open spec fn streamable(kind: Kind, size: nat) -> bool {
    &&& loose_header_of(kind, size).len() + size <= usize::MAX
    &&& size <= 65536 * (u32::MAX - 1)
}

/// How far a pack has been ingested.
pub struct Progress {
    /// What the store holds.
    pub st: StoreState,
    /// The addresses of the objects, by where their entries begin.
    pub offsets: Map<u64, Seq<char>>,
    pub ingested: nat,
    pub deduplicated: nat,
}

/// The progress after one more object. An object counts as ingested where it is
/// new and not a delta, or was stored through an upload.
pub open spec fn object_taken(
    p: Progress,
    hash: HashKind,
    offset: u64,
    object: (Kind, Seq<u8>),
    streamed: bool,
    delta: bool,
) -> Result<Progress, IngestFault> {
    match object_kappa(hash, object.0, object.1) {
        None => Err(
            if streamed {
                IngestFault::StreamCollision
            } else {
                IngestFault::Collision
            },
        ),
        Some(kappa) => {
            let fresh = streamed || (!delta && !p.st.blobs.dom().contains(kappa));
            Ok(
                Progress {
                    st: p.st.ingested(hash_axis(hash), kappa, envelope_of(object.0, object.1)),
                    offsets: p.offsets.insert(offset, kappa),
                    ingested: if fresh { p.ingested + 1 } else { p.ingested },
                    deduplicated: if fresh { p.deduplicated } else { p.deduplicated + 1 },
                },
            )
        },
    }
}

/// The progress after one more entry.
pub open spec fn entry_taken(p: Progress, hash: HashKind, e: EntryView) -> Result<
    Progress,
    IngestFault,
> {
    match e.header {
        HeaderView::Object(kind) => match entry_data(e.compressed, e.size) {
            Err(f) => Err(f),
            Ok(content) => if e.size > STREAMING_THRESHOLD && !streamable(kind, content.len()) {
                Err(IngestFault::TooLarge)
            } else {
                object_taken(
                    p,
                    hash,
                    e.offset,
                    (kind, content),
                    e.size > STREAMING_THRESHOLD,
                    false,
                )
            },
        },
        HeaderView::RefDelta(id) => match delta_object(
            p.st.blobs,
            oid_kappa(hash, id),
            e.compressed,
            e.size,
        ) {
            Err(f) => Err(f),
            Ok(object) => object_taken(p, hash, e.offset, object, false, true),
        },
        HeaderView::OfsDelta(distance) => if distance > e.offset {
            Err(IngestFault::BaseDistance(distance, e.offset))
        } else if !p.offsets.dom().contains((e.offset - distance) as u64) {
            Err(IngestFault::BaseOffset((e.offset - distance) as u64))
        } else {
            match delta_object(
                p.st.blobs,
                p.offsets[(e.offset - distance) as u64],
                e.compressed,
                e.size,
            ) {
                Err(f) => Err(f),
                Ok(object) => object_taken(p, hash, e.offset, object, false, true),
            }
        },
    }
}

/// The progress after entries, up to the first that is refused.
pub open spec fn entries_taken(p: Progress, hash: HashKind, entries: Seq<EntryView>) -> (
    Progress,
    Option<IngestFault>,
)
    decreases entries.len(),
{
    if entries.len() == 0 {
        (p, None)
    } else {
        let (before, fault) = entries_taken(p, hash, entries.drop_last());
        match fault {
            Some(f) => (before, Some(f)),
            None => match entry_taken(before, hash, entries.last()) {
                Ok(after) => (after, None),
                Err(f) => (before, Some(f)),
            },
        }
    }
}

/// Where ingesting a pack begins.
pub open spec fn no_progress(st: StoreState) -> Progress {
    Progress { st, offsets: Map::empty(), ingested: 0, deduplicated: 0 }
}

/// What ingesting the entries of a pack comes to, `cut` telling whether more
/// should have followed.
pub open spec fn pack_taken(st: StoreState, hash: HashKind, entries: Seq<EntryView>, cut: bool) -> (
    Progress,
    Option<IngestFault>,
) {
    let (p, fault) = entries_taken(no_progress(st), hash, entries);
    match fault {
        Some(f) => (p, Some(f)),
        None => if cut {
            (p, Some(IngestFault::Pack))
        } else {
            (p, None)
        },
    }
}

/// Whether two states differ in uploads at most, the first having no upload
/// that the second has not.
pub open spec fn same_but_uploads(a: StoreState, b: StoreState) -> bool {
    &&& a == (StoreState { uploads: a.uploads, ..b })
    &&& forall|id: Seq<char>| #[trigger]
        a.uploads.dom().contains(id) ==> b.uploads.dom().contains(id) && a.uploads[id]
            == b.uploads[id]
}

fn decompress_entry(compressed: &[u8], expected_size: u64) -> (out: Result<Vec<u8>, IngestError>)
    ensures
        match (out, entry_data(compressed@, expected_size)) {
            (Ok(v), Ok(s)) => v@ == s,
            (Err(e), Err(f)) => reports(e, f),
            _ => false,
        },
{
    match inflate(compressed) {
        None => Err(IngestError::Io("corrupt deflate stream".to_owned())),
        Some(data) => {
            if data.len() as u64 != expected_size {
                let head = joined3(
                    "decompressed size mismatch: got ",
                    decimal_text(data.len() as u64).as_str(),
                    ", expected ",
                );
                return Err(
                    IngestError::Pack(joined(head.as_str(), decimal_text(expected_size).as_str())),
                );
            }
            Ok(data)
        },
    }
}

/// The address of an object, for a pack of a given hash.
pub fn compute_git_kappa(hash: HashKind, kind: Kind, content: &[u8]) -> (out: Result<
    String,
    IngestError,
>)
    ensures
        match out {
            Ok(kappa) => object_kappa(hash, kind, content@) == Some(kappa@)
                && crate::kappa::label_parts(kappa@) is Some && (crate::kappa::label_parts(
                kappa@,
            )->0).0 == hash_axis(hash) && crate::kappa::content_label(
                hash_axis(hash),
                envelope_of(kind, content@),
            ) == Some(kappa@) && crate::store::memory::addresses(
                kappa@,
                envelope_of(kind, content@),
            ),
            Err(e) => object_kappa(hash, kind, content@) is None && reports(
                e,
                IngestFault::Collision,
            ),
        },
{
    match git_object_id(hash, kind, content) {
        Ok(kappa) => Ok(kappa),
        Err(e) => Err(IngestError::Envelope(e)),
    }
}

/// Stores an object through an upload, part by part.
pub fn ingest_streaming(
    store: &mut InMemoryStore,
    namespace: &NamespaceRef,
    kind: Kind,
    compressed: &[u8],
    decompressed_size: u64,
    hash: HashKind,
    now_ms: u64,
) -> (out: Result<String, IngestError>)
    requires
        old(store).wf(),
    ensures
        final(store).wf(),
        match (out, entry_data(compressed@, decompressed_size)) {
            (Err(e), Err(f)) => reports(e, f) && final(store).state() == old(store).state(),
            (Err(e), Ok(content)) => final(store).state() == old(store).state() && if streamable(
                kind,
                content.len(),
            ) {
                object_kappa(hash, kind, content) is None && reports(
                    e,
                    IngestFault::StreamCollision,
                )
            } else {
                reports(e, IngestFault::TooLarge)
            },
            (Ok(kappa), Ok(content)) => streamable(kind, content.len()) && object_kappa(
                hash,
                kind,
                content,
            ) == Some(kappa@) && same_but_uploads(
                final(store).state(),
                old(store).state().ingested(hash_axis(hash), kappa@, envelope_of(kind, content)),
            ),
            (Ok(_), Err(_)) => false,
        },
        adds_addressed(old(store).state(), final(store).state()),
{
    proof {
        lemma_adds_none(store.state(), store.state());
    }
    let content = match decompress_entry(compressed, decompressed_size) {
        Ok(content) => content,
        Err(e) => return Err(e),
    };
    let header = loose_header(kind, decompressed_size);
    if header.len() > usize::MAX - content.len() || content.len() as u64 > 65536u64 * (u32::MAX
        - 1) as u64 {
        return Err(IngestError::Store(StoreError::Rejected("object too large".to_owned())));
    }
    let kappa = match git_object_id(hash, kind, content.as_slice()) {
        Ok(kappa) => kappa,
        Err(_) => return Err(
            IngestError::Pack("hash finalize: sha1 collision detected".to_owned()),
        ),
    };
    let ghost before = store.state();
    let upload_id = match store.upload_begin(namespace, 0, now_ms) {
        Ok(id) => id,
        Err(e) => return Err(IngestError::Store(e)),
    };
    let mut offset: u64 = match store.upload_put_part(
        upload_id.as_str(),
        0,
        header.as_slice(),
        now_ms,
    ) {
        Ok(total) => total,
        Err(e) => return Err(IngestError::Store(e)),
    };
    let mut at: usize = 0;
    assert(Seq::<u8>::empty() + header@ =~= header@ + content@.take(0));
    let ghost mut count: nat = 0;
    while at < content.len()
        invariant
            store.wf(),
            at <= content@.len(),
            streamable(kind, content@.len()),
            header@ == loose_header_of(kind, content@.len()),
            store.state() == (StoreState { uploads: store.state().uploads, ..before }),
            store.state().uploads.dom() == before.uploads.dom().insert(upload_id@),
            forall|id: Seq<char>|
                id != upload_id@ && #[trigger] before.uploads.dom().contains(id)
                    ==> store.state().uploads[id] == before.uploads[id],
            store.state().uploads[upload_id@].data == header@ + content@.take(at as int),
            store.state().uploads[upload_id@].max_size == 0,
            store.state().uploads[upload_id@].created_ms == now_ms,
            store.state().uploads[upload_id@].parts.len() == 1 + count,
            offset == header@.len() + at,
            at == count * 65536 || at == content@.len(),
            count * 65536 < at + 65536,
        decreases content@.len() - at,
    {
        let room: usize = content.len() - at;
        let n: usize = if room < UPLOAD_CHUNK_SIZE { room } else { UPLOAD_CHUNK_SIZE };
        let part = slice_subrange(content.as_slice(), at, at + n);
        let ghost had = store.state().uploads[upload_id@];
        let ghost prev = store.state();
        offset = match store.upload_put_part(upload_id.as_str(), offset, part, now_ms) {
            Ok(total) => total,
            Err(e) => return Err(IngestError::Store(e)),
        };
        proof {
            assert(had.data + part@ =~= header@ + content@.take(at + n));
            assert(store.state().uploads.dom() =~= before.uploads.dom().insert(upload_id@));
            count = count + 1;
        }
        at = at + n;
    }
    proof {
        assert(content@.take(at as int) =~= content@);
        assert(store.state().uploads[upload_id@].data == envelope_of(kind, content@));
    }
    let ghost filled = store.state();
    let done = store.upload_complete(upload_id.as_str(), Some(kappa.as_str()), now_ms);
    proof {
        lemma_adds_none(before, filled);
        lemma_adds_both(before, filled, store.state());
    }
    match done {
        Ok(_) => Ok(kappa),
        Err(e) => Err(IngestError::Store(e)),
    }
}

/// Stores the object that a delta to a stored object stands for.
pub fn resolve_delta(
    store: &mut InMemoryStore,
    compressed: &[u8],
    size: u64,
    base_kappa: &str,
    hash: HashKind,
) -> (out: Result<String, IngestError>)
    requires
        old(store).wf(),
    ensures
        final(store).wf(),
        match (out, delta_object(old(store).state().blobs, base_kappa@, compressed@, size)) {
            (Err(e), Err(f)) => reports(e, f) && final(store).state() == old(store).state(),
            (Err(e), Ok(object)) => object_kappa(hash, object.0, object.1) is None && reports(
                e,
                IngestFault::Collision,
            ) && final(store).state() == old(store).state(),
            (Ok(kappa), Ok(object)) => object_kappa(hash, object.0, object.1) == Some(kappa@)
                && final(store).state() == old(store).state().ingested(
                hash_axis(hash),
                kappa@,
                envelope_of(object.0, object.1),
            ),
            (Ok(_), Err(_)) => false,
        },
        adds_addressed(old(store).state(), final(store).state()),
{
    proof {
        lemma_adds_none(store.state(), store.state());
    }
    let delta = match decompress_entry(compressed, size) {
        Ok(delta) => delta,
        Err(e) => return Err(e),
    };
    let base_envelope = match store.blob_get(base_kappa) {
        Ok(envelope) => envelope,
        Err(_) => {
            let head = joined3("base ", base_kappa, " not found: not found: ");
            return Err(IngestError::Delta(joined(head.as_str(), base_kappa)));
        },
    };
    let (kind, base) = match unwrap(base_envelope.as_slice()) {
        Ok(parts) => parts,
        Err(e) => return Err(IngestError::Envelope(e)),
    };
    let content = match apply_delta(base, delta.as_slice()) {
        Ok(content) => content,
        Err(e) => return Err(e),
    };
    let kappa = match compute_git_kappa(hash, kind, content.as_slice()) {
        Ok(kappa) => kappa,
        Err(e) => return Err(e),
    };
    let envelope = wrap(kind, content.as_slice());
    match store.ingest_verified(kappa.as_str(), envelope.as_slice()) {
        Ok(_) => Ok(kappa),
        Err(e) => Err(IngestError::Store(e)),
    }
}

/// Whether a map holds the given addresses.
spec fn maps_to(m: Map<u64, String>, offsets: Map<u64, Seq<char>>) -> bool {
    &&& m.dom() == offsets.dom()
    &&& forall|k: u64| #[trigger] m.dom().contains(k) ==> m[k]@ == offsets[k]
}

/// Ingests one entry: the address of its object, and whether it counts as
/// ingested.
fn ingest_entry(
    store: &mut InMemoryStore,
    namespace: &NamespaceRef,
    entry: &PackEntry,
    offsets: &HashMap<u64, String>,
    hash: HashKind,
    now_ms: u64,
    Ghost(p): Ghost<Progress>,
) -> (out: Result<(String, bool), IngestError>)
    requires
        old(store).wf(),
        same_but_uploads(old(store).state(), p.st),
        maps_to(offsets@, p.offsets),
    ensures
        final(store).wf(),
        match (out, entry_taken(p, hash, entry.deep_view())) {
            (Err(e), Err(f)) => reports(e, f) && same_but_uploads(final(store).state(), p.st),
            (Ok((kappa, fresh)), Ok(q)) => same_but_uploads(final(store).state(), q.st) && q.offsets
                == p.offsets.insert(entry.offset, kappa@) && q.ingested == p.ingested + (if fresh {
                1nat
            } else {
                0
            }) && q.deduplicated == p.deduplicated + (if fresh {
                0nat
            } else {
                1
            }),
            _ => false,
        },
        adds_addressed(old(store).state(), final(store).state()),
{
    proof {
        lemma_adds_none(store.state(), store.state());
    }
    let kind = match &entry.header {
        EntryHeader::Commit => Kind::Commit,
        EntryHeader::Tree => Kind::Tree,
        EntryHeader::Blob => Kind::Blob,
        EntryHeader::Tag => Kind::Tag,
        EntryHeader::RefDelta(id) => {
            let base = match oid_to_kappa(&ObjectId { kind: hash, bytes: id.clone() }) {
                Ok(base) => base,
                Err(e) => return Err(IngestError::Envelope(e)),
            };
            let kappa = match resolve_delta(
                store,
                entry.compressed.as_slice(),
                entry.size,
                base.as_str(),
                hash,
            ) {
                Ok(kappa) => kappa,
                Err(e) => return Err(e),
            };
            let present = match store.blob_exists(kappa.as_str()) {
                Ok(b) => b,
                Err(_) => false,
            };
            return Ok((kappa, !present));
        },
        EntryHeader::OfsDelta(distance) => {
            let distance: u64 = *distance;
            if distance > entry.offset {
                let head = joined3(
                    "OFS_DELTA base_distance ",
                    decimal_text(distance).as_str(),
                    " exceeds pack_offset ",
                );
                return Err(
                    IngestError::Delta(joined(head.as_str(), decimal_text(entry.offset).as_str())),
                );
            }
            let base_offset: u64 = entry.offset - distance;
            let base = match offsets.get(&base_offset) {
                Some(base) => base,
                None => return Err(
                    IngestError::Delta(
                        joined3(
                            "OFS_DELTA base at offset ",
                            decimal_text(base_offset).as_str(),
                            " not in offset map",
                        ),
                    ),
                ),
            };
            let kappa = match resolve_delta(
                store,
                entry.compressed.as_slice(),
                entry.size,
                base.as_str(),
                hash,
            ) {
                Ok(kappa) => kappa,
                Err(e) => return Err(e),
            };
            let present = match store.blob_exists(kappa.as_str()) {
                Ok(b) => b,
                Err(_) => false,
            };
            return Ok((kappa, !present));
        },
    };
    if entry.size > STREAMING_THRESHOLD {
        return match ingest_streaming(
            store,
            namespace,
            kind,
            entry.compressed.as_slice(),
            entry.size,
            hash,
            now_ms,
        ) {
            Ok(kappa) => Ok((kappa, true)),
            Err(e) => Err(e),
        };
    }
    let content = match decompress_entry(entry.compressed.as_slice(), entry.size) {
        Ok(content) => content,
        Err(e) => return Err(e),
    };
    let kappa = match compute_git_kappa(hash, kind, content.as_slice()) {
        Ok(kappa) => kappa,
        Err(e) => return Err(e),
    };
    let envelope = wrap(kind, content.as_slice());
    match store.ingest_verified(kappa.as_str(), envelope.as_slice()) {
        Ok(r) => Ok((kappa, r.newly_stored)),
        Err(e) => Err(IngestError::Store(e)),
    }
}

/// Ingests the entries that a pack was read as, up to the first that is
/// refused. `fault` tells why more could not be read.
pub fn ingest_entries(
    store: &mut InMemoryStore,
    namespace: &NamespaceRef,
    entries: &[PackEntry],
    fault: Option<String>,
    hash: HashKind,
    now_ms: u64,
) -> (out: Result<PackIngestResult, IngestError>)
    requires
        old(store).wf(),
    ensures
        final(store).wf(),
        ({
            let (p, f) = pack_taken(old(store).state(), hash, entries.deep_view(), fault is Some);
            &&& same_but_uploads(final(store).state(), p.st)
            &&& match (out, f) {
                (Ok(r), None) => r.objects_ingested == p.ingested && r.objects_deduplicated
                    == p.deduplicated,
                (Err(e), Some(f)) => reports(e, f),
                _ => false,
            }
        }),
        adds_addressed(old(store).state(), final(store).state()),
{
    proof {
        lemma_adds_none(store.state(), store.state());
    }
    let ghost st = store.state();
    let ghost all = entries.deep_view();
    let mut offsets: HashMap<u64, String> = HashMap::new();
    let mut ingested: usize = 0;
    let mut deduplicated: usize = 0;
    let mut i: usize = 0;
    proof {
        assert(all.take(0) =~= Seq::<EntryView>::empty());
        assert(offsets@.dom() =~= no_progress(st).offsets.dom());
    }
    while i < entries.len()
        invariant
            store.wf(),
            st == old(store).state(),
            adds_addressed(st, store.state()),
            i <= entries@.len(),
            all == entries.deep_view(),
            all.len() == entries@.len(),
            ({
                let (p, f) = entries_taken(no_progress(st), hash, all.take(i as int));
                &&& f is None
                &&& same_but_uploads(store.state(), p.st)
                &&& maps_to(offsets@, p.offsets)
                &&& p.ingested == ingested
                &&& p.deduplicated == deduplicated
                &&& ingested + deduplicated == i
            }),
        decreases entries@.len() - i,
    {
        let ghost p = entries_taken(no_progress(st), hash, all.take(i as int)).0;
        proof {
            assert(all.take(i + 1).drop_last() =~= all.take(i as int));
            assert(all.take(i + 1).last() == entries@[i as int].deep_view());
        }
        let entry = &entries[i];
        let ghost here = store.state();
        let taken = ingest_entry(store, namespace, entry, &offsets, hash, now_ms, Ghost(p));
        proof {
            lemma_adds_both(st, here, store.state());
        }
        match taken {
            Ok((kappa, fresh)) => {
                let ghost q = entry_taken(p, hash, entry.deep_view())->Ok_0;
                if fresh {
                    ingested += 1;
                } else {
                    deduplicated += 1;
                }
                offsets.insert(entry.offset, kappa);
                assert(offsets@.dom() =~= q.offsets.dom());
            },
            Err(e) => {
                proof {
                    lemma_fault_stays(no_progress(st), hash, all, i + 1);
                }
                return Err(e);
            },
        }
        i += 1;
    }
    assert(all.take(i as int) =~= all);
    match fault {
        Some(m) => Err(IngestError::Pack(m)),
        None => Ok(
            PackIngestResult { objects_ingested: ingested, objects_deduplicated: deduplicated },
        ),
    }
}

/// Entries after one that is refused change nothing.
proof fn lemma_fault_stays(p: Progress, hash: HashKind, entries: Seq<EntryView>, n: int)
    requires
        0 <= n <= entries.len(),
        entries_taken(p, hash, entries.take(n)).1 is Some,
    ensures
        entries_taken(p, hash, entries) == entries_taken(p, hash, entries.take(n)),
    decreases entries.len() - n,
{
    if n < entries.len() {
        assert(entries.take(n + 1).drop_last() =~= entries.take(n));
        lemma_fault_stays(p, hash, entries, n + 1);
    } else {
        assert(entries.take(n) =~= entries);
    }
}

/// Whether ingesting entries succeeds and stores objects again.
spec fn taken_back(
    st: StoreState,
    hash: HashKind,
    entries: Seq<EntryView>,
    cut: bool,
    blobs: Blobs,
    kappas: Seq<Seq<char>>,
) -> bool {
    let (p, fault) = pack_taken(st, hash, entries, cut);
    fault is None && restored(p.st.blobs, blobs, kappas)
}

/// Ingests a pack: every entry becomes an object in the store, up to the first
/// that is refused. A pack that was generated out of objects is taken, and those
/// are stored again.
pub fn ingest_pack(
    store: &mut InMemoryStore,
    namespace: &NamespaceRef,
    pack: &[u8],
    hash: HashKind,
    now_ms: u64,
) -> (out: Result<PackIngestResult, IngestError>)
    requires
        old(store).wf(),
    ensures
        final(store).wf(),
        ({
            let (entries, cut) = pack_read_of(hash, pack@);
            let (p, f) = pack_taken(old(store).state(), hash, entries, cut);
            &&& same_but_uploads(final(store).state(), p.st)
            &&& match (out, f) {
                (Ok(r), None) => r.objects_ingested == p.ingested && r.objects_deduplicated
                    == p.deduplicated,
                (Err(e), Some(f)) => reports(e, f),
                _ => false,
            }
        }),
        adds_addressed(old(store).state(), final(store).state()),
        forall|blobs: Blobs, kappas: Seq<Seq<char>>| #[trigger]
            is_full_pack(hash, pack@, blobs, kappas) && agrees(
                old(store).state().blobs,
                blobs,
                kappas,
            ) ==> out is Ok && restored(final(store).state().blobs, blobs, kappas),
        forall|blobs: Blobs, kappas: Seq<Seq<char>>, hints: Map<Seq<char>, Seq<char>>| #[trigger]
            is_sorted_pack(hash, pack@, blobs, kappas, hints) && agrees(
                old(store).state().blobs,
                blobs,
                kappas,
            ) ==> out is Ok && restored(final(store).state().blobs, blobs, kappas),
{
    let (entries, fault) = read_pack(hash, pack);
    let list = entries.as_slice();
    assert(list.deep_view() =~= entries.deep_view());
    proof {
        let st = store.state();
        assert forall|blobs: Blobs, kappas: Seq<Seq<char>>| #[trigger]
            is_full_pack(hash, pack@, blobs, kappas) && agrees(
                st.blobs,
                blobs,
                kappas,
            ) implies taken_back(st, hash, list.deep_view(), fault is Some, blobs, kappas) by {
            law_full_pack_restored(st, hash, pack@, blobs, kappas);
        }
        assert forall|blobs: Blobs, kappas: Seq<Seq<char>>, hints: Map<Seq<char>, Seq<char>>|
            #[trigger]
            is_sorted_pack(hash, pack@, blobs, kappas, hints) && agrees(
                st.blobs,
                blobs,
                kappas,
            ) implies taken_back(st, hash, list.deep_view(), fault is Some, blobs, kappas) by {
            law_sorted_pack_restored(st, hash, pack@, blobs, kappas, hints);
        }
    }
    ingest_entries(store, namespace, list, fault, hash, now_ms)
}

/// Ingesting entries takes nothing away and changes nothing that is stored, and
/// something is stored at every address that an entry was resolved to.
pub proof fn law_ingest_keeps(p: Progress, hash: HashKind, entries: Seq<EntryView>)
    requires
        forall|k: u64| #[trigger]
            p.offsets.dom().contains(k) ==> p.st.blobs.dom().contains(p.offsets[k]),
    ensures
        ({
            let q = entries_taken(p, hash, entries).0;
            &&& forall|kappa: Seq<char>| #[trigger]
                p.st.blobs.dom().contains(kappa) ==> q.st.blobs.dom().contains(kappa)
                    && q.st.blobs[kappa] == p.st.blobs[kappa]
            &&& forall|k: u64| #[trigger]
                q.offsets.dom().contains(k) ==> q.st.blobs.dom().contains(q.offsets[k])
            &&& q.ingested + q.deduplicated <= p.ingested + p.deduplicated + entries.len()
        }),
    decreases entries.len(),
{
    if entries.len() > 0 {
        law_ingest_keeps(p, hash, entries.drop_last());
    }
}

/// Entries are taken one after the other, each from where the ones before it
/// led.
proof fn lemma_taken_at(p: Progress, hash: HashKind, entries: Seq<EntryView>, i: int)
    requires
        entries_taken(p, hash, entries).1 is None,
        0 <= i < entries.len(),
    ensures
        entries_taken(p, hash, entries.take(i)).1 is None,
        entries_taken(p, hash, entries.take(i + 1)).1 is None,
        entry_taken(entries_taken(p, hash, entries.take(i)).0, hash, entries[i]) == Ok::<
            Progress,
            IngestFault,
        >(entries_taken(p, hash, entries.take(i + 1)).0),
    decreases entries.len(),
{
    let front = entries.drop_last();
    if i < front.len() {
        lemma_taken_at(p, hash, front, i);
        assert(front.take(i) =~= entries.take(i));
        assert(front.take(i + 1) =~= entries.take(i + 1));
        assert(front[i] == entries[i]);
    } else {
        assert(entries.take(i) =~= front);
        assert(entries.take(i + 1) =~= entries);
    }
}

/// What more entries bring is added to what the first ones brought.
proof fn lemma_taken_grows(p: Progress, hash: HashKind, entries: Seq<EntryView>, i: int, kappa: Seq<char>)
    requires
        entries_taken(p, hash, entries).1 is None,
        0 <= i <= entries.len(),
        entries_taken(p, hash, entries.take(i)).0.st.blobs.dom().contains(kappa),
    ensures
        entries_taken(p, hash, entries).0.st.blobs.dom().contains(kappa),
        entries_taken(p, hash, entries).0.st.blobs[kappa] == entries_taken(
            p,
            hash,
            entries.take(i),
        ).0.st.blobs[kappa],
    decreases entries.len(),
{
    if i < entries.len() {
        let front = entries.drop_last();
        assert(front.take(i) =~= entries.take(i));
        lemma_taken_grows(p, hash, front, i, kappa);
    } else {
        assert(entries.take(i) =~= entries);
    }
}

/// Every object of a pack that was taken is stored at the address of its
/// envelope, the envelope itself where nothing was stored there when its entry
/// came.
pub proof fn law_object_ingested(
    st: StoreState,
    hash: HashKind,
    entries: Seq<EntryView>,
    i: int,
    kind: Kind,
    content: Seq<u8>,
    kappa: Seq<char>,
)
    requires
        pack_taken(st, hash, entries, false).1 is None,
        0 <= i < entries.len(),
        entries[i].header == HeaderView::Object(kind),
        inflated_of(entries[i].compressed) == Some(content),
        object_kappa(hash, kind, content) == Some(kappa),
    ensures
        ({
            let before = entries_taken(no_progress(st), hash, entries.take(i)).0.st;
            let after = pack_taken(st, hash, entries, false).0.st;
            &&& content.len() == entries[i].size
            &&& after.blobs.dom().contains(kappa)
            &&& !before.blobs.dom().contains(kappa) ==> after.blobs[kappa] == envelope_of(
                kind,
                content,
            )
            &&& before.blobs.dom().contains(kappa) ==> after.blobs[kappa] == before.blobs[kappa]
        }),
{
    lemma_taken_at(no_progress(st), hash, entries, i);
    lemma_taken_grows(no_progress(st), hash, entries, i + 1, kappa);
}

/// Every delta of a pack that was taken is stored as the object that it makes of
/// its base, of the kind of the base: at the address of the envelope, where
/// nothing was stored there when its entry came.
pub proof fn law_delta_ingested(
    st: StoreState,
    hash: HashKind,
    entries: Seq<EntryView>,
    i: int,
    base: Seq<char>,
    kind: Kind,
    content: Seq<u8>,
    delta: Seq<u8>,
    result: Seq<u8>,
    kappa: Seq<char>,
)
    requires
        pack_taken(st, hash, entries, false).1 is None,
        0 <= i < entries.len(),
        ({
            let before = entries_taken(no_progress(st), hash, entries.take(i)).0;
            &&& match entries[i].header {
                HeaderView::RefDelta(id) => base == hash_name(hash) + seq![':'] + hex_of(id),
                HeaderView::OfsDelta(distance) => distance <= entries[i].offset
                    && base == before.offsets[(entries[i].offset - distance) as u64],
                HeaderView::Object(_) => false,
            }
            &&& inflated_of(entries[i].compressed) == Some(delta)
            &&& envelope_parts(before.st.blobs[base]) matches Ok(object) && object.0 == kind
                && object.1 == content
            &&& delta_result(content, delta) matches Ok(r) && r == result
            &&& object_kappa(hash, kind, result) == Some(kappa)
        }),
    ensures
        ({
            let before = entries_taken(no_progress(st), hash, entries.take(i)).0.st;
            let after = pack_taken(st, hash, entries, false).0.st;
            &&& before.blobs.dom().contains(base)
            &&& after.blobs.dom().contains(kappa)
            &&& !before.blobs.dom().contains(kappa) ==> after.blobs[kappa] == envelope_of(
                kind,
                result,
            )
        }),
{
    lemma_taken_at(no_progress(st), hash, entries, i);
    lemma_taken_grows(no_progress(st), hash, entries, i + 1, kappa);
}

/// A pack that was not read to its end is refused, and so is one with an entry
/// whose data has not the size that the entry says.
pub proof fn law_pack_refused(
    st: StoreState,
    hash: HashKind,
    entries: Seq<EntryView>,
    i: int,
    data: Seq<u8>,
)
    ensures
        pack_taken(st, hash, entries, true).1 is Some,
        0 <= i < entries.len() && inflated_of(entries[i].compressed) == Some(data) && data.len()
            != entries[i].size ==> pack_taken(st, hash, entries, false).1 is Some,
        0 <= i < entries.len() && inflated_of(entries[i].compressed) is None ==> pack_taken(
            st,
            hash,
            entries,
            false,
        ).1 is Some,
{
    if 0 <= i < entries.len() && pack_taken(st, hash, entries, false).1 is None {
        lemma_taken_at(no_progress(st), hash, entries, i);
    }
}

/// Ingesting entries leaves every tag, edge and record alone.
pub proof fn law_ingest_touches_content(p: Progress, hash: HashKind, entries: Seq<EntryView>)
    ensures
        entries_taken(p, hash, entries).0.st.tags == p.st.tags,
        entries_taken(p, hash, entries).0.st.edges == p.st.edges,
        entries_taken(p, hash, entries).0.st.records == p.st.records,
    decreases entries.len(),
{
    if entries.len() > 0 {
        law_ingest_touches_content(p, hash, entries.drop_last());
    }
}

} // verus!
