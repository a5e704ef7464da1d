//! Generating packs out of stored objects.

use vstd::prelude::*;
use vstd::slice::slice_subrange;
use vstd::utf8::{decode_utf8, valid_utf8};

use crate::bytes::{append_bytes, copy_bytes, copy_range, find_byte, first_byte};
use crate::digest::{git_digest, git_digest_of};
use crate::git::delta::{compute_delta, delta_for};
use crate::git::envelope::{envelope_parts, unwrap, EnvelopeError};
use crate::git::object::{kind_from_bytes, kind_named, HashKind, Kind};
use crate::git::packheader::{
    encode_ofs_delta_header, encode_pack_entry_header, entry_header, ofs_bytes,
};
use crate::git::restore::{
    all_recoverable, contents_recoverable, recoverable, sorted_items, sorted_pack_items,
};
use crate::git::zlib::{deflate, deflated_of};
use crate::store::memory::InMemoryStore;
use crate::table::Table;
use crate::text::{less_text, parse_u64, parse_u64_spec, same_text, split_once, split_once_spec, text_below, utf8_text};
use crate::types::{be_bytes, big_endian, StoreError};

verus! {

/// Recent objects among which the base of a delta is looked for.
pub const DELTA_WINDOW: usize = 10;

/// What generating a pack did.
#[derive(Debug)]
pub struct PackGenerateResult {
    pub objects_written: usize,
    pub bytes_written: u64,
}

/// Why a pack was not generated.
#[derive(Debug)]
pub enum PackGenError {
    Store(StoreError),
    Envelope(EnvelopeError),
    Io(String),
    Hash(String),
}

/// What is wrong with the head of a stored object.
pub enum HeadFault {
    /// No zero byte ends it.
    Eof,
    /// It has more than 64 bytes.
    TooLong,
    NotUtf8,
    NoSpace,
    UnknownKind,
    SizeNotDecimal,
}

/// What a fault in a head is reported as. The report on an unknown kind is left
/// open.
pub open spec fn head_fault_shown(m: Seq<char>, f: HeadFault) -> bool {
    match f {
        HeadFault::Eof => m == "unexpected EOF in envelope header"@,
        HeadFault::TooLong => m == "envelope header too long"@,
        HeadFault::NotUtf8 => m == "envelope header not utf8"@,
        HeadFault::NoSpace => m == "no space in envelope header"@,
        HeadFault::UnknownKind => true,
        HeadFault::SizeNotDecimal => m == "envelope size not decimal"@,
    }
}

/// The head of a stored object: kind, declared size, and where the content
/// begins.
pub open spec fn envelope_head(envelope: Seq<u8>) -> Result<(Kind, u64, int), HeadFault> {
    let nul = first_byte(envelope, 0);
    if nul > 64 {
        Err(HeadFault::TooLong)
    } else if nul >= envelope.len() {
        Err(HeadFault::Eof)
    } else if !valid_utf8(envelope.take(nul)) {
        Err(HeadFault::NotUtf8)
    } else {
        match split_once_spec(decode_utf8(envelope.take(nul)), ' ') {
            None => Err(HeadFault::NoSpace),
            Some((name, digits)) => match kind_named(vstd::utf8::encode_utf8(name)) {
                None => Err(HeadFault::UnknownKind),
                Some(kind) => match parse_u64_spec(digits) {
                    None => Err(HeadFault::SizeNotDecimal),
                    Some(size) => Ok((kind, size, nul + 1)),
                },
            },
        }
    }
}

/// Reads the head of a stored object: kind, declared size, and where the
/// content begins.
pub fn read_envelope_header(envelope: &[u8]) -> (out: Result<(Kind, u64, usize), PackGenError>)
    ensures
        match (out, envelope_head(envelope@)) {
            (Ok((kind, size, at)), Ok((k, s, n))) => kind == k && size == s && at == n && at
                <= envelope@.len(),
            (Err(PackGenError::Io(m)), Err(f)) => head_fault_shown(m@, f),
            _ => false,
        },
{
    proof {
        crate::bytes::lemma_first_byte_bounds(envelope@, 0);
    }
    let nul: usize = match find_byte(envelope, 0) {
        Some(i) => i,
        None => {
            if envelope.len() > 64 {
                return Err(PackGenError::Io("envelope header too long".to_owned()));
            }
            return Err(PackGenError::Io("unexpected EOF in envelope header".to_owned()));
        },
    };
    if nul > 64 {
        return Err(PackGenError::Io("envelope header too long".to_owned()));
    }
    assert(envelope@.subrange(0, nul as int) =~= envelope@.take(nul as int));
    let header = match utf8_text(copy_range(envelope, 0, nul)) {
        Some(header) => header,
        None => return Err(PackGenError::Io("envelope header not utf8".to_owned())),
    };
    let (name, digits) = match split_once(header.as_str(), ' ') {
        Some(parts) => parts,
        None => return Err(PackGenError::Io("no space in envelope header".to_owned())),
    };
    let kind = match kind_from_bytes(name.as_str().as_bytes()) {
        Some(kind) => kind,
        None => return Err(PackGenError::Io("unknown object kind".to_owned())),
    };
    match parse_u64(digits.as_str()) {
        Some(size) => Ok((kind, size, nul + 1)),
        None => Err(PackGenError::Io("envelope size not decimal".to_owned())),
    }
}

/// The number that stands for a kind in entry headers.
pub open spec fn kind_type(kind: Kind) -> u8 {
    match kind {
        Kind::Commit => 1,
        Kind::Tree => 2,
        Kind::Blob => 3,
        Kind::Tag => 4,
    }
}

fn type_id(kind: Kind) -> (out: u8)
    ensures
        out == kind_type(kind),
{
    match kind {
        Kind::Commit => 1,
        Kind::Tree => 2,
        Kind::Blob => 3,
        Kind::Tag => 4,
    }
}

/// The header of a pack: its magic, its version, and the number of its objects.
pub open spec fn pack_header(count: nat) -> Seq<u8> {
    seq![80u8, 65, 67, 75, 0, 0, 0, 2] + be_bytes(count as int, 4)
}

fn write_pack_header(count: usize) -> (out: Vec<u8>)
    ensures
        out@ == pack_header(count as nat),
{
    let mut out: Vec<u8> = Vec::new();
    out.push(80);
    out.push(65);
    out.push(67);
    out.push(75);
    out.push(0);
    out.push(0);
    out.push(0);
    out.push(2);
    assert(out@ =~= seq![80u8, 65, 67, 75, 0, 0, 0, 2]);
    let number = big_endian(count as u64, 4);
    append_bytes(&mut out, number.as_slice());
    out
}

/// Why a pack was not generated.
pub enum PackGenFault {
    /// Nothing is stored at an address.
    Missing(Seq<char>),
    /// What is stored has no head.
    Head(HeadFault),
    /// The compressor failed.
    Deflate,
    /// SHA-1 finds the traces of a collision attack in the pack.
    Collision,
}

/// Whether an error reports a fault.
pub open spec fn gen_reports(e: PackGenError, f: PackGenFault) -> bool {
    match f {
        PackGenFault::Missing(kappa) => e matches PackGenError::Store(StoreError::NotFound(k)) && k@
            == kappa,
        PackGenFault::Head(g) => e matches PackGenError::Io(m) && head_fault_shown(m@, g),
        PackGenFault::Deflate => e is Io,
        PackGenFault::Collision => e is Hash,
    }
}

/// Bytes written and, where writing stopped early, why.
pub type Written = (Seq<u8>, Option<PackGenFault>);

/// A compressed entry written behind `before`: head, then data.
pub open spec fn entry_written(before: Seq<u8>, head: Seq<u8>, data: Seq<u8>) -> Written {
    match deflated_of(data) {
        None => (before + head, Some(PackGenFault::Deflate)),
        Some(stream) => (before + head + stream, None),
    }
}

/// Objects written in full, one after the other, as they are stored.
pub open spec fn objects_written(blobs: Map<Seq<char>, Seq<u8>>, kappas: Seq<Seq<char>>) -> Written
    decreases kappas.len(),
{
    if kappas.len() == 0 {
        (Seq::empty(), None)
    } else {
        let (before, fault) = objects_written(blobs, kappas.drop_last());
        let kappa = kappas.last();
        if fault is Some {
            (before, fault)
        } else if !blobs.dom().contains(kappa) {
            (before, Some(PackGenFault::Missing(kappa)))
        } else {
            match envelope_head(blobs[kappa]) {
                Err(f) => (before, Some(PackGenFault::Head(f))),
                Ok((kind, size, at)) => entry_written(
                    before,
                    entry_header(kind_type(kind), size as nat),
                    blobs[kappa].skip(at),
                ),
            }
        }
    }
}

/// A pack closed by its checksum, where its entries could be written.
pub open spec fn pack_closed(hash: HashKind, header: Seq<u8>, entries: Written) -> Written {
    let body = header + entries.0;
    match entries.1 {
        Some(f) => (body, Some(f)),
        None => match git_digest_of(hash, body) {
            None => (body, Some(PackGenFault::Collision)),
            Some(digest) => (body + digest, None),
        },
    }
}

/// What generating a pack writes.
pub open spec fn pack_written(
    blobs: Map<Seq<char>, Seq<u8>>,
    kappas: Seq<Seq<char>>,
    hash: HashKind,
) -> Written {
    pack_closed(hash, pack_header(kappas.len()), objects_written(blobs, kappas))
}

/// Whether generating a pack did what was to be written.
pub open spec fn generated(
    before: Seq<u8>,
    after: Seq<u8>,
    count: nat,
    want: Written,
    out: Result<PackGenerateResult, PackGenError>,
) -> bool {
    &&& after == before + want.0
    &&& match (out, want.1) {
        (Ok(r), None) => r.objects_written == count % 0x1_0000_0000 && r.bytes_written
            == want.0.len(),
        (Err(e), Some(f)) => gen_reports(e, f),
        _ => false,
    }
}

/// Appends a compressed entry.
fn write_entry(out: &mut Vec<u8>, head: &[u8], data: &[u8]) -> (fault: Option<PackGenError>)
    ensures
        ({
            let want = entry_written(old(out)@, head@, data@);
            &&& final(out)@ == want.0
            &&& match (fault, want.1) {
                (Some(e), Some(f)) => gen_reports(e, f),
                (None, None) => recoverable(data@),
                _ => false,
            }
        }),
{
    append_bytes(out, head);
    match deflate(data) {
        Some(stream) => {
            append_bytes(out, stream.as_slice());
            None
        },
        None => Some(PackGenError::Io("deflate failed".to_owned())),
    }
}

/// Closes a pack that holds all its entries.
fn close_pack(pack: &mut Vec<u8>, hash: HashKind, count: usize, Ghost(header): Ghost<Seq<u8>>, Ghost(
    entries,
): Ghost<Seq<u8>>) -> (out: Result<PackGenerateResult, PackGenError>)
    requires
        old(pack)@ == header + entries,
    ensures
        generated(
            Seq::empty(),
            final(pack)@,
            count as nat,
            pack_closed(hash, header, (entries, None)),
            out,
        ),
{
    let ghost body = pack@;
    assert(Seq::<u8>::empty() + body =~= body);
    match git_digest(hash, pack.as_slice()) {
        Some(trailer) => {
            append_bytes(pack, trailer.as_slice());
            assert(Seq::<u8>::empty() + pack@ =~= pack@);
            let written: usize = (count as u64 % 0x1_0000_0000) as usize;
            Ok(PackGenerateResult { objects_written: written, bytes_written: pack.len() as u64 })
        },
        None => Err(PackGenError::Hash("sha1 collision detected".to_owned())),
    }
}

fn generate_entries(store: &InMemoryStore, object_kappas: &[String], hash: HashKind, pack: &mut Vec<u8>) -> (out:
    Result<PackGenerateResult, PackGenError>)
    requires
        store.wf(),
        old(pack)@.len() == 0,
    ensures
        generated(
            Seq::empty(),
            final(pack)@,
            object_kappas@.len(),
            pack_written(store.state().blobs, object_kappas.deep_view(), hash),
            out,
        ),
        out is Ok ==> contents_recoverable(store.state().blobs, object_kappas.deep_view()),
{
    let ghost blobs = store.state().blobs;
    let ghost kappas = object_kappas.deep_view();
    let header = write_pack_header(object_kappas.len());
    append_bytes(pack, header.as_slice());
    let mut i: usize = 0;
    proof {
        assert(kappas.take(0) =~= Seq::<Seq<char>>::empty());
        assert(pack@ =~= header@ + objects_written(blobs, kappas.take(0)).0);
    }
    while i < object_kappas.len()
        invariant
            store.wf(),
            i <= object_kappas@.len(),
            blobs == store.state().blobs,
            kappas == object_kappas.deep_view(),
            kappas.len() == object_kappas@.len(),
            header@ == pack_header(kappas.len()),
            objects_written(blobs, kappas.take(i as int)).1 is None,
            pack@ == header@ + objects_written(blobs, kappas.take(i as int)).0,
            contents_recoverable(blobs, kappas.take(i as int)),
        decreases object_kappas@.len() - i,
    {
        let kappa = object_kappas[i].as_str();
        let ghost done = objects_written(blobs, kappas.take(i as int)).0;
        proof {
            assert(kappas.take(i + 1).drop_last() =~= kappas.take(i as int));
            assert(kappas.take(i + 1).last() == kappa@);
            assert(Seq::<u8>::empty() + pack@ =~= pack@);
            if objects_written(blobs, kappas.take(i + 1)).1 is Some {
                lemma_written_stays(blobs, kappas, i + 1);
            }
        }
        let envelope = match store.blob_get(kappa) {
            Ok(envelope) => envelope,
            Err(e) => {
                return Err(PackGenError::Store(e));
            },
        };
        let (kind, size, at) = match read_envelope_header(envelope.as_slice()) {
            Ok(head) => head,
            Err(e) => return Err(e),
        };
        let head = encode_pack_entry_header(type_id(kind), size);
        let content = slice_subrange(envelope.as_slice(), at, envelope.len());
        assert(content@ =~= envelope@.skip(at as int));
        let fault = write_entry(pack, head.as_slice(), content);
        proof {
            let shorter = entry_written(done, head@, content@).0;
            if let Some(stream) = deflated_of(content@) {
                assert(header@ + done + head@ + stream =~= header@ + (done + head@ + stream));
            }
            assert(header@ + done + head@ =~= header@ + (done + head@));
            assert(pack@ == header@ + shorter);
            assert(Seq::<u8>::empty() + pack@ =~= pack@);
        }
        if let Some(e) = fault {
            return Err(e);
        }
        proof {
            let more = kappas.take(i + 1);
            assert forall|k: int| 0 <= k < more.len() implies (envelope_head(
                blobs[#[trigger] more[k]],
            ) matches Ok(head) ==> recoverable(blobs[more[k]].skip(head.2))) by {
                if k < i {
                    assert(more[k] == kappas.take(i as int)[k]);
                }
            }
        }
        i += 1;
    }
    assert(kappas.take(i as int) =~= kappas);
    let ghost entries = objects_written(blobs, kappas).0;
    close_pack(pack, hash, object_kappas.len(), Ghost(header@), Ghost(entries))
}

/// Objects after one that cannot be written change nothing.
proof fn lemma_written_stays(blobs: Map<Seq<char>, Seq<u8>>, kappas: Seq<Seq<char>>, n: int)
    requires
        0 <= n <= kappas.len(),
        objects_written(blobs, kappas.take(n)).1 is Some,
    ensures
        objects_written(blobs, kappas) == objects_written(blobs, kappas.take(n)),
    decreases kappas.len() - n,
{
    if n < kappas.len() {
        assert(kappas.take(n + 1).drop_last() =~= kappas.take(n));
        lemma_written_stays(blobs, kappas, n + 1);
    } else {
        assert(kappas.take(n) =~= kappas);
    }
}

/// Generates a pack of stored objects, each in full and in the given order.
/// Where that fails, what was written before remains.
pub fn generate_pack(
    store: &InMemoryStore,
    object_kappas: &[String],
    hash: HashKind,
    writer: &mut Vec<u8>,
) -> (out: Result<PackGenerateResult, PackGenError>)
    requires
        store.wf(),
    ensures
        generated(
            old(writer)@,
            final(writer)@,
            object_kappas@.len(),
            pack_written(store.state().blobs, object_kappas.deep_view(), hash),
            out,
        ),
        out is Ok ==> contents_recoverable(store.state().blobs, object_kappas.deep_view()),
{
    let mut pack: Vec<u8> = Vec::new();
    let out = generate_entries(store, object_kappas, hash, &mut pack);
    assert(Seq::<u8>::empty() + pack@ =~= pack@);
    append_bytes(writer, pack.as_slice());
    out
}

// -- Sorted packs -------------------------------------------------------------------

/// An object to be packed, and what it is sorted by.
pub struct PackObject {
    pub kappa: String,
    pub kind: Kind,
    pub size: u64,
    pub name_hint: String,
}

/// What an object to be packed holds.
pub struct ObjectView {
    pub kappa: Seq<char>,
    pub kind: Kind,
    pub size: u64,
    pub name_hint: Seq<char>,
}

impl DeepView for PackObject {
    type V = ObjectView;

    open spec fn deep_view(&self) -> ObjectView {
        ObjectView {
            kappa: self.kappa@,
            kind: self.kind,
            size: self.size,
            name_hint: self.name_hint@,
        }
    }
}

/// The place of a kind in a sorted pack.
pub open spec fn kind_rank(kind: Kind) -> u8 {
    match kind {
        Kind::Commit => 0,
        Kind::Tree => 1,
        Kind::Blob => 2,
        Kind::Tag => 3,
    }
}

/// The place of a kind in a sorted pack.
pub fn kind_sort_key(kind: Kind) -> (out: u8)
    ensures
        out == kind_rank(kind),
{
    match kind {
        Kind::Commit => 0,
        Kind::Tree => 1,
        Kind::Blob => 2,
        Kind::Tag => 3,
    }
}

/// Whether an object comes strictly before another: by kind, then by name hint,
/// then the larger first.
pub open spec fn packs_before(a: ObjectView, b: ObjectView) -> bool {
    if kind_rank(a.kind) != kind_rank(b.kind) {
        kind_rank(a.kind) < kind_rank(b.kind)
    } else if a.name_hint != b.name_hint {
        text_below(a.name_hint, b.name_hint)
    } else {
        a.size > b.size
    }
}

/// A list with an object put in behind all that do not come after it.
pub open spec fn object_inserted(list: Seq<ObjectView>, x: ObjectView) -> Seq<ObjectView>
    decreases list.len(),
{
    if list.len() > 0 && packs_before(x, list.last()) {
        object_inserted(list.drop_last(), x).push(list.last())
    } else {
        list.push(x)
    }
}

/// A list in the order of a pack; objects that are equal in it stay in place.
pub open spec fn pack_order(list: Seq<ObjectView>) -> Seq<ObjectView>
    decreases list.len(),
{
    if list.len() == 0 {
        list
    } else {
        object_inserted(pack_order(list.drop_last()), list.last())
    }
}

/// The hint for an address, empty where there is none.
pub open spec fn hint_for(hints: Map<Seq<char>, Seq<char>>, kappa: Seq<char>) -> Seq<char> {
    if hints.dom().contains(kappa) {
        hints[kappa]
    } else {
        Seq::empty()
    }
}

/// The stored objects among a list of addresses.
pub open spec fn objects_found(
    blobs: Map<Seq<char>, Seq<u8>>,
    kappas: Seq<Seq<char>>,
    hints: Map<Seq<char>, Seq<char>>,
) -> Seq<ObjectView>
    decreases kappas.len(),
{
    if kappas.len() == 0 {
        Seq::empty()
    } else {
        let before = objects_found(blobs, kappas.drop_last(), hints);
        let kappa = kappas.last();
        if !blobs.dom().contains(kappa) {
            before
        } else {
            match envelope_parts(blobs[kappa]) {
                Err(_) => before,
                Ok((kind, content)) => before.push(
                    ObjectView {
                        kappa,
                        kind,
                        size: content.len() as u64,
                        name_hint: hint_for(hints, kappa),
                    },
                ),
            }
        }
    }
}

fn comes_before(a: &PackObject, b: &PackObject) -> (yes: bool)
    ensures
        yes == packs_before(a.deep_view(), b.deep_view()),
{
    let x: u8 = kind_sort_key(a.kind);
    let y: u8 = kind_sort_key(b.kind);
    if x != y {
        x < y
    } else if !same_text(a.name_hint.as_str(), b.name_hint.as_str()) {
        less_text(a.name_hint.as_str(), b.name_hint.as_str())
    } else {
        a.size > b.size
    }
}

proof fn lemma_inserted_at(list: Seq<ObjectView>, x: ObjectView, at: int)
    requires
        0 <= at <= list.len(),
        forall|k: int| at <= k < list.len() ==> packs_before(x, #[trigger] list[k]),
        at > 0 ==> !packs_before(x, list[at - 1]),
    ensures
        object_inserted(list, x) == list.insert(at, x),
    decreases list.len(),
{
    if at < list.len() {
        lemma_inserted_at(list.drop_last(), x, at);
        assert(list.drop_last().insert(at, x).push(list.last()) =~= list.insert(at, x));
    } else {
        assert(list.insert(at, x) =~= list.push(x));
    }
}

fn insert_object(list: &mut Vec<PackObject>, x: PackObject)
    ensures
        final(list).deep_view() == object_inserted(old(list).deep_view(), x.deep_view()),
{
    let ghost had = list.deep_view();
    let mut at: usize = list.len();
    while at > 0 && comes_before(&x, &list[at - 1])
        invariant
            at <= list@.len(),
            had == list.deep_view(),
            forall|k: int| at <= k < had.len() ==> packs_before(x.deep_view(), #[trigger] had[k]),
        decreases at,
    {
        at -= 1;
    }
    proof {
        lemma_inserted_at(had, x.deep_view(), at as int);
    }
    let ghost shown = x.deep_view();
    list.insert(at, x);
    assert(list.deep_view() =~= had.insert(at as int, shown));
}

/// The stored objects among a list of addresses, in the order of a pack.
pub fn sort_objects(store: &InMemoryStore, kappas: &[String], name_hints: &Table<String, String>) -> (out: Vec<
    PackObject,
>)
    requires
        store.wf(),
        name_hints.wf(),
    ensures
        out.deep_view() == pack_order(
            objects_found(store.state().blobs, kappas.deep_view(), name_hints@),
        ),
{
    let ghost blobs = store.state().blobs;
    let ghost all = kappas.deep_view();
    let mut out: Vec<PackObject> = Vec::new();
    let mut i: usize = 0;
    proof {
        assert(all.take(0) =~= Seq::<Seq<char>>::empty());
        assert(out.deep_view() =~= Seq::<ObjectView>::empty());
    }
    while i < kappas.len()
        invariant
            store.wf(),
            name_hints.wf(),
            i <= kappas@.len(),
            blobs == store.state().blobs,
            all == kappas.deep_view(),
            all.len() == kappas@.len(),
            out.deep_view() == pack_order(objects_found(blobs, all.take(i as int), name_hints@)),
        decreases kappas@.len() - i,
    {
        let kappa = &kappas[i];
        let ghost before = objects_found(blobs, all.take(i as int), name_hints@);
        proof {
            assert(all.take(i + 1).drop_last() =~= all.take(i as int));
            assert(all.take(i + 1).last() == kappa@);
        }
        if let Ok(envelope) = store.blob_get(kappa.as_str()) {
            if let Ok((kind, content)) = unwrap(envelope.as_slice()) {
                let name_hint: String = match name_hints.get(kappa) {
                    Some(hint) => hint.clone(),
                    None => String::new(),
                };
                let object = PackObject {
                    kappa: kappa.clone(),
                    kind,
                    size: content.len() as u64,
                    name_hint,
                };
                proof {
                    assert(name_hint@ =~= hint_for(name_hints@, kappa@));
                    assert(before.push(object.deep_view()).drop_last() =~= before);
                }
                insert_object(&mut out, object);
            }
        }
        i += 1;
    }
    assert(all.take(i as int) =~= all);
    out
}

/// A recent object: kind, content, and where its entry begins.
pub type Recent = (Kind, Seq<u8>, u64);

/// The shortest delta from one of the `n` latest objects of a kind, the latest
/// of the shortest, and where its base begins.
pub open spec fn best_delta(window: Seq<Recent>, n: nat, kind: Kind, content: Seq<u8>) -> Option<
    (Seq<u8>, u64),
>
    decreases n,
{
    if n == 0 {
        None
    } else {
        let best = best_delta(window, (n - 1) as nat, kind, content);
        let (k, base, offset) = window[window.len() - n];
        if k != kind {
            best
        } else {
            match delta_for(base, content) {
                None => best,
                Some(delta) => match best {
                    Some((prev, _)) => if delta.len() < prev.len() {
                        Some((delta, offset))
                    } else {
                        best
                    },
                    None => Some((delta, offset)),
                },
            }
        }
    }
}

/// The delta that an object is written as, if any.
pub open spec fn delta_choice(window: Seq<Recent>, kind: Kind, content: Seq<u8>) -> Option<
    (Seq<u8>, u64),
> {
    if content.len() < 32 {
        None
    } else {
        best_delta(window, window.len(), kind, content)
    }
}

/// The window after one more object.
pub open spec fn window_after(window: Seq<Recent>, object: Recent) -> Seq<Recent> {
    let more = window.push(object);
    if more.len() > DELTA_WINDOW {
        more.drop_first()
    } else {
        more
    }
}

/// An object written behind `before`, as a delta or in full.
pub open spec fn object_written(before: Seq<u8>, window: Seq<Recent>, kind: Kind, content: Seq<u8>) -> Written {
    match delta_choice(window, kind, content) {
        Some((delta, base)) => entry_written(
            before,
            entry_header(6, delta.len()) + ofs_bytes((before.len() - base) as nat),
            delta,
        ),
        None => entry_written(before, entry_header(kind_type(kind), content.len()), content),
    }
}

/// Objects written behind a header, and the window after them.
pub open spec fn sorted_written(blobs: Map<Seq<char>, Seq<u8>>, header: Seq<u8>, list: Seq<ObjectView>) -> (
    Written,
    Seq<Recent>,
)
    decreases list.len(),
{
    if list.len() == 0 {
        ((header, None), Seq::empty())
    } else {
        let ((before, fault), window) = sorted_written(blobs, header, list.drop_last());
        if fault is Some {
            ((before, fault), window)
        } else {
            match envelope_parts(blobs[list.last().kappa]) {
                Err(_) => ((before, fault), window),
                Ok((kind, content)) => (
                    object_written(before, window, kind, content),
                    window_after(window, (kind, content, before.len() as u64)),
                ),
            }
        }
    }
}

/// What generating a sorted pack writes.
pub open spec fn sorted_pack_written(
    blobs: Map<Seq<char>, Seq<u8>>,
    kappas: Seq<Seq<char>>,
    hints: Map<Seq<char>, Seq<char>>,
    hash: HashKind,
) -> Written {
    let list = pack_order(objects_found(blobs, kappas, hints));
    let (body, fault) = sorted_written(blobs, pack_header(list.len()), list).0;
    match fault {
        Some(f) => (body, Some(f)),
        None => match git_digest_of(hash, body) {
            None => (body, Some(PackGenFault::Collision)),
            Some(digest) => (body + digest, None),
        },
    }
}

/// A recent object and where its entry begins.
pub struct RecentObject {
    pub kind: Kind,
    pub content: Vec<u8>,
    pub offset: u64,
}

impl DeepView for RecentObject {
    type V = Recent;

    open spec fn deep_view(&self) -> Recent {
        (self.kind, self.content@, self.offset)
    }
}

fn choose_delta(window: &Vec<RecentObject>, kind: Kind, content: &[u8]) -> (out: Option<
    (Vec<u8>, u64),
>)
    ensures
        match (out, delta_choice(window.deep_view(), kind, content@)) {
            (Some((delta, base)), Some((d, b))) => delta@ == d && base == b && exists|i: int|
                0 <= i < window@.len() && (#[trigger] window@[i]).offset == base,
            (None, None) => true,
            _ => false,
        },
{
    if content.len() < 32 {
        return None;
    }
    let ghost seen = window.deep_view();
    let mut best: Option<(Vec<u8>, u64)> = None;
    let mut n: usize = 0;
    while n < window.len()
        invariant
            n <= window@.len(),
            seen == window.deep_view(),
            seen.len() == window@.len(),
            match (best, best_delta(seen, n as nat, kind, content@)) {
                (Some((delta, base)), Some((d, b))) => delta@ == d && base == b && exists|i: int|
                    0 <= i < window@.len() && (#[trigger] window@[i]).offset == base,
                (None, None) => true,
                _ => false,
            },
        decreases window@.len() - n,
    {
        let object = &window[window.len() - n - 1];
        proof {
            assert(seen[seen.len() - (n + 1)] == object.deep_view());
        }
        if object.kind == kind {
            if let Some(delta) = compute_delta(object.content.as_slice(), content) {
                let better = match &best {
                    Some(prev) => delta.len() < prev.0.len(),
                    None => true,
                };
                if better {
                    best = Some((delta, object.offset));
                    assert(window@[window@.len() - n - 1].offset == object.offset);
                }
            }
        }
        n += 1;
    }
    best
}

/// Putting an object into a list adds that object and no other.
proof fn lemma_inserted_multiset(list: Seq<ObjectView>, x: ObjectView)
    ensures
        object_inserted(list, x).to_multiset() == list.to_multiset().insert(x),
        object_inserted(list, x).len() == list.len() + 1,
    decreases list.len(),
{
    broadcast use vstd::seq_lib::group_to_multiset_ensures;

    if list.len() > 0 && packs_before(x, list.last()) {
        lemma_inserted_multiset(list.drop_last(), x);
        assert(list.drop_last().push(list.last()) =~= list);
        assert(list.to_multiset().insert(x) =~= list.drop_last().to_multiset().insert(x).insert(
            list.last(),
        ));
    }
}

/// The order of a pack is transitive where it says nothing against it.
proof fn lemma_not_before_transitive(a: ObjectView, b: ObjectView, c: ObjectView)
    requires
        !packs_before(b, a),
        !packs_before(c, b),
    ensures
        !packs_before(c, a),
{
    crate::text::lemma_text_below_total(a.name_hint, b.name_hint);
    crate::text::lemma_text_below_total(b.name_hint, c.name_hint);
    crate::text::lemma_text_below_irreflexive(a.name_hint);
    crate::text::lemma_text_below_irreflexive(c.name_hint);
    if text_below(a.name_hint, b.name_hint) && text_below(b.name_hint, c.name_hint) {
        crate::text::lemma_text_below_transitive(a.name_hint, b.name_hint, c.name_hint);
    }
    if text_below(c.name_hint, a.name_hint) && text_below(a.name_hint, c.name_hint) {
        crate::text::lemma_text_below_transitive(c.name_hint, a.name_hint, c.name_hint);
    }
}

proof fn lemma_before_asymmetric(a: ObjectView, b: ObjectView)
    requires
        packs_before(a, b),
    ensures
        !packs_before(b, a),
{
    if text_below(a.name_hint, b.name_hint) && text_below(b.name_hint, a.name_hint) {
        crate::text::lemma_text_below_transitive(a.name_hint, b.name_hint, a.name_hint);
        crate::text::lemma_text_below_irreflexive(a.name_hint);
    }
}

/// Whether no object comes before one that stands earlier.
pub open spec fn in_pack_order(list: Seq<ObjectView>) -> bool {
    forall|i: int, j: int|
        0 <= i < j < list.len() ==> !packs_before(#[trigger] list[j], #[trigger] list[i])
}

proof fn lemma_inserted_ordered(list: Seq<ObjectView>, x: ObjectView)
    requires
        in_pack_order(list),
    ensures
        in_pack_order(object_inserted(list, x)),
    decreases list.len(),
{
    if list.len() > 0 && packs_before(x, list.last()) {
        let front = object_inserted(list.drop_last(), x);
        lemma_inserted_ordered(list.drop_last(), x);
        lemma_inserted_multiset(list.drop_last(), x);
        lemma_before_asymmetric(x, list.last());
        let all = front.push(list.last());
        assert forall|i: int, j: int| 0 <= i < j < all.len() implies !packs_before(
            #[trigger] all[j],
            #[trigger] all[i],
        ) by {
            if j == front.len() {
                lemma_member(list.drop_last(), x, i);
                if front[i] != x {
                    let k = choose|k: int|
                        0 <= k < list.drop_last().len() && #[trigger] list.drop_last()[k]
                            == front[i];
                    assert(list[k] == front[i]);
                    assert(list[list.len() - 1] == list.last());
                }
            }
        }
    } else {
        let all = list.push(x);
        assert forall|i: int, j: int| 0 <= i < j < all.len() implies !packs_before(
            #[trigger] all[j],
            #[trigger] all[i],
        ) by {
            if j == list.len() {
                if i < list.len() - 1 {
                    assert(list[list.len() - 1] == list.last());
                    lemma_not_before_transitive(list[i], list.last(), x);
                }
            }
        }
    }
}

proof fn lemma_member(list: Seq<ObjectView>, x: ObjectView, i: int)
    requires
        0 <= i < object_inserted(list, x).len(),
    ensures
        object_inserted(list, x)[i] == x || exists|k: int|
            0 <= k < list.len() && #[trigger] list[k] == object_inserted(list, x)[i],
    decreases list.len(),
{
    if list.len() > 0 && packs_before(x, list.last()) {
        let front = object_inserted(list.drop_last(), x);
        if i < front.len() {
            lemma_member(list.drop_last(), x, i);
            if front[i] != x {
                let k = choose|k: int|
                    0 <= k < list.drop_last().len() && #[trigger] list.drop_last()[k] == front[i];
                assert(list[k] == front[i]);
            }
        } else {
            assert(list[list.len() - 1] == object_inserted(list, x)[i]);
        }
    } else if i < list.len() {
        assert(list[i] == object_inserted(list, x)[i]);
    }
}

/// The order of a pack holds the same objects, and none comes before one that
/// stands earlier.
pub proof fn law_pack_order(list: Seq<ObjectView>)
    ensures
        in_pack_order(pack_order(list)),
        pack_order(list).to_multiset() == list.to_multiset(),
        pack_order(list).len() == list.len(),
    decreases list.len(),
{
    broadcast use vstd::seq_lib::group_to_multiset_ensures;

    if list.len() > 0 {
        law_pack_order(list.drop_last());
        lemma_inserted_ordered(pack_order(list.drop_last()), list.last());
        lemma_inserted_multiset(pack_order(list.drop_last()), list.last());
        assert(list.drop_last().push(list.last()) =~= list);
    }
}

/// Whether something is stored at an object's address, and is that object.
pub open spec fn is_stored(blobs: Map<Seq<char>, Seq<u8>>, x: ObjectView) -> bool {
    &&& blobs.dom().contains(x.kappa)
    &&& envelope_parts(blobs[x.kappa]) matches Ok((kind, content)) && kind == x.kind
        && content.len() as u64 == x.size
}

proof fn lemma_found_stored(
    blobs: Map<Seq<char>, Seq<u8>>,
    kappas: Seq<Seq<char>>,
    hints: Map<Seq<char>, Seq<char>>,
)
    ensures
        forall|i: int|
            0 <= i < objects_found(blobs, kappas, hints).len() ==> is_stored(
                blobs,
                #[trigger] objects_found(blobs, kappas, hints)[i],
            ),
    decreases kappas.len(),
{
    if kappas.len() > 0 {
        lemma_found_stored(blobs, kappas.drop_last(), hints);
        let before = objects_found(blobs, kappas.drop_last(), hints);
        let all = objects_found(blobs, kappas, hints);
        assert forall|i: int| 0 <= i < all.len() implies is_stored(blobs, #[trigger] all[i]) by {
            if i < before.len() {
                assert(all[i] == before[i]);
            }
        }
    }
}

proof fn lemma_order_stored(blobs: Map<Seq<char>, Seq<u8>>, list: Seq<ObjectView>)
    requires
        forall|i: int| 0 <= i < list.len() ==> is_stored(blobs, #[trigger] list[i]),
    ensures
        forall|i: int|
            0 <= i < pack_order(list).len() ==> is_stored(blobs, #[trigger] pack_order(list)[i]),
    decreases list.len(),
{
    if list.len() > 0 {
        lemma_order_stored(blobs, list.drop_last());
        let front = pack_order(list.drop_last());
        assert forall|i: int| 0 <= i < pack_order(list).len() implies is_stored(
            blobs,
            #[trigger] pack_order(list)[i],
        ) by {
            lemma_member(front, list.last(), i);
            assert(list[list.len() - 1] == list.last());
        }
    }
}

proof fn lemma_sorted_stays(
    blobs: Map<Seq<char>, Seq<u8>>,
    header: Seq<u8>,
    list: Seq<ObjectView>,
    n: int,
)
    requires
        0 <= n <= list.len(),
        ((sorted_written(blobs, header, list.take(n)).0).1) is Some,
    ensures
        sorted_written(blobs, header, list) == sorted_written(blobs, header, list.take(n)),
    decreases list.len() - n,
{
    if n < list.len() {
        assert(list.take(n + 1).drop_last() =~= list.take(n));
        lemma_sorted_stays(blobs, header, list, n + 1);
    } else {
        assert(list.take(n) =~= list);
    }
}

/// How many objects of a list are written before writing stops.
pub open spec fn written_count(blobs: Map<Seq<char>, Seq<u8>>, header: Seq<u8>, list: Seq<ObjectView>) -> nat
    decreases list.len(),
{
    if list.len() == 0 || (sorted_written(blobs, header, list).0).1 is None {
        list.len()
    } else {
        written_count(blobs, header, list.drop_last())
    }
}

/// The reports on the objects of a pack: how many are written, and of how many.
pub open spec fn progress_reports(written: nat, total: nat) -> Seq<(u32, u32)> {
    Seq::new(
        written,
        |i: int| (((i + 1) % 0x1_0000_0000) as u32, (total % 0x1_0000_0000) as u32),
    )
}

/// The reports that generating a sorted pack makes.
pub open spec fn sorted_reports(
    blobs: Map<Seq<char>, Seq<u8>>,
    kappas: Seq<Seq<char>>,
    hints: Map<Seq<char>, Seq<char>>,
) -> Seq<(u32, u32)> {
    let list = pack_order(objects_found(blobs, kappas, hints));
    progress_reports(written_count(blobs, pack_header(list.len()), list), list.len())
}

/// Objects after one that cannot be written are not written either.
proof fn lemma_count_stays(
    blobs: Map<Seq<char>, Seq<u8>>,
    header: Seq<u8>,
    list: Seq<ObjectView>,
    n: int,
)
    requires
        0 <= n < list.len(),
        ((sorted_written(blobs, header, list.take(n)).0).1) is None,
        ((sorted_written(blobs, header, list.take(n + 1)).0).1) is Some,
    ensures
        written_count(blobs, header, list) == n,
    decreases list.len(),
{
    reveal_with_fuel(written_count, 2);
    assert(list.take(n + 1).drop_last() =~= list.take(n));
    lemma_sorted_stays(blobs, header, list, n + 1);
    let front = list.drop_last();
    if n + 1 < list.len() {
        assert(front.take(n) =~= list.take(n));
        assert(front.take(n + 1) =~= list.take(n + 1));
        lemma_count_stays(blobs, header, front, n);
    } else {
        assert(list.take(n + 1) =~= list);
        assert(front =~= list.take(n));
    }
}

fn generate_sorted(
    store: &InMemoryStore,
    object_kappas: &[String],
    hash: HashKind,
    name_hints: &Table<String, String>,
    progress: &mut Vec<(u32, u32)>,
    pack: &mut Vec<u8>,
) -> (out: Result<PackGenerateResult, PackGenError>)
    requires
        store.wf(),
        name_hints.wf(),
        old(pack)@.len() == 0,
    ensures
        generated(
            Seq::empty(),
            final(pack)@,
            objects_found(store.state().blobs, object_kappas.deep_view(), name_hints@).len(),
            sorted_pack_written(
                store.state().blobs,
                object_kappas.deep_view(),
                name_hints@,
                hash,
            ),
            out,
        ),
        out is Ok ==> all_recoverable(
            sorted_pack_items(store.state().blobs, object_kappas.deep_view(), name_hints@),
        ),
        final(progress)@ == old(progress)@ + sorted_reports(
            store.state().blobs,
            object_kappas.deep_view(),
            name_hints@,
        ),
{
    let ghost blobs = store.state().blobs;
    let ghost found = objects_found(blobs, object_kappas.deep_view(), name_hints@);
    let sorted = sort_objects(store, object_kappas, name_hints);
    let ghost list = sorted.deep_view();
    proof {
        law_pack_order(found);
        lemma_found_stored(blobs, object_kappas.deep_view(), name_hints@);
        lemma_order_stored(blobs, found);
    }
    let header = write_pack_header(sorted.len());
    append_bytes(pack, header.as_slice());
    let mut window: Vec<RecentObject> = Vec::new();
    let mut i: usize = 0;
    let ghost had = progress@;
    let total: u32 = (sorted.len() as u64 % 0x1_0000_0000) as u32;
    proof {
        assert(had =~= had + progress_reports(0, list.len()));
        assert(list.take(0) =~= Seq::<ObjectView>::empty());
        assert(pack@ =~= header@);
        assert(window.deep_view() =~= Seq::<Recent>::empty());
    }
    while i < sorted.len()
        invariant
            store.wf(),
            i <= sorted@.len(),
            blobs == store.state().blobs,
            list == sorted.deep_view(),
            list.len() == sorted@.len(),
            list == pack_order(found),
            found == objects_found(blobs, object_kappas.deep_view(), name_hints@),
            found.len() == list.len(),
            header@ == pack_header(list.len()),
            forall|k: int| 0 <= k < list.len() ==> is_stored(blobs, #[trigger] list[k]),
            had == old(progress)@,
            total == list.len() % 0x1_0000_0000,
            progress@ == had + progress_reports(i as nat, list.len()),
            sorted_written(blobs, header@, list.take(i as int)) == (
                (pack@, None::<PackGenFault>),
                window.deep_view(),
            ),
            all_recoverable(sorted_items(blobs, header@, list.take(i as int))),
            forall|k: int| 0 <= k < window@.len() ==> (#[trigger] window@[k]).offset <= pack@.len(),
        decreases sorted@.len() - i,
    {
        let object = &sorted[i];
        let ghost before = pack@;
        let ghost seen = window.deep_view();
        proof {
            assert(list.take(i + 1).drop_last() =~= list.take(i as int));
            assert(list.take(i + 1).last() == list[i as int]);
            assert(is_stored(blobs, list[i as int]));
        }
        let envelope = match store.blob_get(object.kappa.as_str()) {
            Ok(envelope) => envelope,
            Err(e) => return Err(PackGenError::Store(e)),
        };
        let (kind, content) = match unwrap(envelope.as_slice()) {
            Ok(parts) => parts,
            Err(e) => return Err(PackGenError::Envelope(e)),
        };
        let offset: u64 = pack.len() as u64;
        let fault = match choose_delta(&window, kind, content) {
            Some((delta, base)) => {
                let mut head = encode_pack_entry_header(6, delta.len() as u64);
                let distance = encode_ofs_delta_header(offset - base);
                append_bytes(&mut head, distance.as_slice());
                write_entry(pack, head.as_slice(), delta.as_slice())
            },
            None => {
                let head = encode_pack_entry_header(type_id(kind), content.len() as u64);
                write_entry(pack, head.as_slice(), content)
            },
        };
        let ghost recent = (kind, content@, offset);
        window.push(RecentObject { kind, content: copy_bytes(content), offset });
        assert(window.deep_view() =~= seen.push(recent));
        if window.len() > DELTA_WINDOW {
            let ghost more = window.deep_view();
            window.remove(0);
            assert(window.deep_view() =~= more.drop_first());
        }
        assert(Seq::<u8>::empty() + pack@ =~= pack@);
        if let Some(e) = fault {
            proof {
                lemma_sorted_stays(blobs, header@, list, i + 1);
                lemma_count_stays(blobs, header@, list, i as int);
            }
            return Err(e);
        }
        proof {
            let items = sorted_items(blobs, header@, list.take(i + 1));
            let earlier = sorted_items(blobs, header@, list.take(i as int));
            assert forall|k: int| 0 <= k < items.len() implies recoverable(
                (#[trigger] items[k]).data,
            ) by {
                if k < earlier.len() {
                    assert(items[k] == earlier[k]);
                }
            }
        }
        let done: u32 = ((i as u64 + 1) % 0x1_0000_0000) as u32;
        progress.push((done, total));
        assert(progress@ =~= had + progress_reports((i + 1) as nat, list.len()));
        i += 1;
    }
    proof {
        assert(list.take(i as int) =~= list);
        assert(header@ + pack@.skip(header@.len() as int) =~= pack@) by {
            lemma_sorted_header(blobs, header@, list);
        }
    }
    let ghost entries = pack@.skip(header@.len() as int);
    close_pack(pack, hash, sorted.len(), Ghost(header@), Ghost(entries))
}

proof fn lemma_sorted_header(blobs: Map<Seq<char>, Seq<u8>>, header: Seq<u8>, list: Seq<ObjectView>)
    ensures
        header.is_prefix_of((sorted_written(blobs, header, list).0).0),
    decreases list.len(),
{
    if list.len() > 0 {
        lemma_sorted_header(blobs, header, list.drop_last());
    }
}

/// Generates a pack of stored objects, sorted, each as a delta to one of the
/// objects before it where that is shorter. Addresses without an object are
/// passed over. Each object that is written is reported, with how many are and of
/// how many. Where writing fails, what was written before remains.
pub fn generate_pack_sorted(
    store: &InMemoryStore,
    object_kappas: &[String],
    hash: HashKind,
    name_hints: &Table<String, String>,
    progress: &mut Vec<(u32, u32)>,
    writer: &mut Vec<u8>,
) -> (out: Result<PackGenerateResult, PackGenError>)
    requires
        store.wf(),
        name_hints.wf(),
    ensures
        generated(
            old(writer)@,
            final(writer)@,
            objects_found(store.state().blobs, object_kappas.deep_view(), name_hints@).len(),
            sorted_pack_written(
                store.state().blobs,
                object_kappas.deep_view(),
                name_hints@,
                hash,
            ),
            out,
        ),
        out is Ok ==> all_recoverable(
            sorted_pack_items(store.state().blobs, object_kappas.deep_view(), name_hints@),
        ),
        final(progress)@ == old(progress)@ + sorted_reports(
            store.state().blobs,
            object_kappas.deep_view(),
            name_hints@,
        ),
{
    let mut pack: Vec<u8> = Vec::new();
    let out = generate_sorted(store, object_kappas, hash, name_hints, progress, &mut pack);
    assert(Seq::<u8>::empty() + pack@ =~= pack@);
    append_bytes(writer, pack.as_slice());
    out
}

/// The delta that an object is written as, applied to its base, gives the
/// object's content back.
pub proof fn law_delta_choice(window: Seq<Recent>, kind: Kind, content: Seq<u8>)
    requires
        content.len() <= u64::MAX,
    ensures
        delta_choice(window, kind, content) matches Some((delta, offset)) ==> delta.len()
            < content.len() && exists|i: int|
            0 <= i < window.len() && (#[trigger] window[i]).0 == kind && window[i].2 == offset
                && crate::git::delta::delta_result(window[i].1, delta) == Ok::<
                Seq<u8>,
                crate::git::delta::DeltaFault,
            >(content),
{
    if content.len() >= 32 {
        lemma_best_delta(window, window.len(), kind, content);
    }
}

proof fn lemma_best_delta(window: Seq<Recent>, n: nat, kind: Kind, content: Seq<u8>)
    requires
        n <= window.len(),
        content.len() <= u64::MAX,
    ensures
        best_delta(window, n, kind, content) matches Some((delta, offset)) ==> delta.len()
            < content.len() && exists|i: int|
            0 <= i < window.len() && (#[trigger] window[i]).0 == kind && window[i].2 == offset
                && crate::git::delta::delta_result(window[i].1, delta) == Ok::<
                Seq<u8>,
                crate::git::delta::DeltaFault,
            >(content),
    decreases n,
{
    if n > 0 {
        lemma_best_delta(window, (n - 1) as nat, kind, content);
        let i = window.len() - n;
        crate::git::delta::law_delta_roundtrip(window[i].1, content);
    }
}

/// In the order of a pack commits come before trees, trees before blobs and blobs
/// before tags; objects of a kind come by ascending name, and those of one name the
/// largest first.
pub proof fn law_pack_grouped(list: Seq<ObjectView>, i: int, j: int)
    requires
        0 <= i < j < list.len(),
    ensures
        ({
            let a = pack_order(list)[i];
            let b = pack_order(list)[j];
            &&& b.kind == Kind::Commit ==> a.kind == Kind::Commit
            &&& b.kind == Kind::Tree ==> a.kind == Kind::Commit || a.kind == Kind::Tree
            &&& b.kind == Kind::Blob ==> a.kind != Kind::Tag
            &&& a.kind == b.kind ==> !text_below(b.name_hint, a.name_hint)
            &&& a.kind == b.kind && a.name_hint == b.name_hint ==> a.size >= b.size
        }),
{
    law_pack_order(list);
    let all = pack_order(list);
    let a = all[i];
    let b = all[j];
    assert(!packs_before(b, a));
    crate::text::lemma_text_below_irreflexive(a.name_hint);
}

} // verus!
