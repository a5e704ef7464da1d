//! The envelope that Git hashes: `"{kind} {size}\0{content}"`.

use vstd::prelude::*;
use vstd::slice::slice_subrange;
use vstd::utf8::{decode_utf8, valid_utf8};

use crate::bytes::{append_bytes, copy_range, find_byte, first_byte};
use crate::git::object::{
    compute_hash, kind_from_bytes, kind_name, kind_named, loose_header, loose_header_of,
    oid_from_hex, oid_of_hex, HashKind, Kind, ObjectId,
};
use crate::hexadecimal::{hex_encode, hex_of};
use crate::text::{
    decimal, decimal_text, joined, joined3, parse_u64, parse_u64_spec, same_text, split_once,
    split_once_spec, utf8_text,
};

verus! {

/// Why an envelope, or an address that should name one, was refused.
#[derive(Debug)]
pub enum EnvelopeError {
    Invalid(String),
    Hash(String),
}

/// What is wrong with an envelope.
pub enum EnvelopeFault {
    /// No zero byte ends the header.
    NoNul,
    /// No space separates kind and size.
    NoSpace,
    /// The kind is none of Git's.
    UnknownKind,
    /// The size is not UTF-8.
    SizeNotText,
    /// The size is not a decimal number.
    SizeNotDecimal,
    /// The content has another size: declared, actual.
    WrongSize(u64, u64),
}

/// What a fault is reported as.
pub open spec fn fault_text(fault: EnvelopeFault) -> Seq<char> {
    match fault {
        EnvelopeFault::NoNul => "no NUL byte in envelope"@,
        EnvelopeFault::NoSpace => "no space in header"@,
        EnvelopeFault::UnknownKind => "unknown object kind"@,
        EnvelopeFault::SizeNotText => "size not utf8"@,
        EnvelopeFault::SizeNotDecimal => "size not decimal"@,
        EnvelopeFault::WrongSize(declared, actual) => "declared size "@ + decimal(declared as nat)
            + " but content is "@ + decimal(actual as nat) + " bytes"@,
    }
}

/// The envelope of an object.
pub open spec fn envelope_of(kind: Kind, content: Seq<u8>) -> Seq<u8> {
    loose_header_of(kind, content.len()) + content
}

/// What an envelope holds: kind and content.
pub open spec fn envelope_parts(envelope: Seq<u8>) -> Result<(Kind, Seq<u8>), EnvelopeFault> {
    let nul = first_byte(envelope, 0);
    if nul >= envelope.len() {
        Err(EnvelopeFault::NoNul)
    } else {
        let header = envelope.take(nul);
        let space = first_byte(header, 32);
        if space >= header.len() {
            Err(EnvelopeFault::NoSpace)
        } else {
            match kind_named(header.take(space)) {
                None => Err(EnvelopeFault::UnknownKind),
                Some(kind) => {
                    let size = header.skip(space + 1);
                    let content = envelope.skip(nul + 1);
                    if !valid_utf8(size) {
                        Err(EnvelopeFault::SizeNotText)
                    } else {
                        match parse_u64_spec(decode_utf8(size)) {
                            None => Err(EnvelopeFault::SizeNotDecimal),
                            Some(declared) => if content.len() != declared {
                                Err(EnvelopeFault::WrongSize(declared, content.len() as u64))
                            } else {
                                Ok((kind, content))
                            },
                        }
                    }
                },
            }
        }
    }
}

/// Unwrapping a wrapped object gives its kind and content back.
pub proof fn law_envelope_roundtrip(kind: Kind, content: Seq<u8>)
    requires
        content.len() <= u64::MAX,
    ensures
        envelope_parts(envelope_of(kind, content)) == Ok::<(Kind, Seq<u8>), EnvelopeFault>(
            (kind, content),
        ),
{
    let name = kind_name(kind);
    let digits = crate::text::decimal_bytes(content.len());
    let header = name + seq![32u8] + digits;
    let envelope = envelope_of(kind, content);
    let n = header.len() as int;
    let m = name.len() as int;
    crate::git::object::law_kind_named(kind);
    crate::text::lemma_decimal_bytes(content.len());
    assert(envelope =~= header + seq![0u8] + content);
    assert forall|k: int| 0 <= k < n implies envelope[k] != 0 by {
        assert(envelope[k] == header[k]);
        if k < m {
            assert(header[k] == name[k]);
        } else if k > m {
            assert(header[k] == digits[k - m - 1]);
        }
    }
    crate::bytes::lemma_first_byte(envelope, 0, n);
    assert(envelope.take(n) =~= header);
    assert forall|k: int| 0 <= k < m implies header[k] != 32 by {
        assert(header[k] == name[k]);
    }
    crate::bytes::lemma_first_byte(header, 32, m);
    assert(header.take(m) =~= name);
    assert(header.skip(m + 1) =~= digits);
    assert(envelope.skip(n + 1) =~= content);
    crate::text::law_decimal_roundtrip(content.len() as u64);
}

/// Wraps content in an envelope.
pub fn wrap(kind: Kind, content: &[u8]) -> (out: Vec<u8>)
    ensures
        out@ == envelope_of(kind, content@),
{
    let mut out = loose_header(kind, content.len() as u64);
    append_bytes(&mut out, content);
    out
}

fn fault(f: EnvelopeFault) -> (out: EnvelopeError)
    ensures
        out matches EnvelopeError::Invalid(m) && m@ == fault_text(f),
{
    let text = match f {
        EnvelopeFault::NoNul => "no NUL byte in envelope".to_owned(),
        EnvelopeFault::NoSpace => "no space in header".to_owned(),
        EnvelopeFault::UnknownKind => "unknown object kind".to_owned(),
        EnvelopeFault::SizeNotText => "size not utf8".to_owned(),
        EnvelopeFault::SizeNotDecimal => "size not decimal".to_owned(),
        EnvelopeFault::WrongSize(declared, actual) => {
            let d = decimal_text(declared);
            let a = decimal_text(actual);
            let head = joined3("declared size ", d.as_str(), " but content is ");
            joined3(head.as_str(), a.as_str(), " bytes")
        },
    };
    EnvelopeError::Invalid(text)
}

/// Parses an envelope: its kind, and where the content begins.
fn parse_envelope(envelope: &[u8]) -> (out: Result<(Kind, usize), EnvelopeFault>)
    ensures
        match (out, envelope_parts(envelope@)) {
            (Ok((kind, at)), Ok((k, c))) => kind == k && at <= envelope@.len() && c
                == envelope@.skip(at as int),
            (Err(f), Err(g)) => f == g,
            _ => false,
        },
{
    let nul: usize = match find_byte(envelope, 0) {
        Some(i) => i,
        None => return Err(EnvelopeFault::NoNul),
    };
    let header = slice_subrange(envelope, 0, nul);
    assert(header@ =~= envelope@.take(nul as int));
    let space: usize = match find_byte(header, 32) {
        Some(i) => i,
        None => return Err(EnvelopeFault::NoSpace),
    };
    assert(header@.subrange(0, space as int) =~= header@.take(space as int));
    let kind = match kind_from_bytes(slice_subrange(header, 0, space)) {
        Some(kind) => kind,
        None => return Err(EnvelopeFault::UnknownKind),
    };
    assert(header@.subrange(space + 1, header@.len() as int) =~= header@.skip(space + 1));
    let digits = match utf8_text(copy_range(header, space + 1, header.len())) {
        Some(digits) => digits,
        None => return Err(EnvelopeFault::SizeNotText),
    };
    let declared: u64 = match parse_u64(digits.as_str()) {
        Some(n) => n,
        None => return Err(EnvelopeFault::SizeNotDecimal),
    };
    let actual: u64 = (envelope.len() - (nul + 1)) as u64;
    if actual != declared {
        return Err(EnvelopeFault::WrongSize(declared, actual));
    }
    Ok((kind, nul + 1))
}

/// Takes an envelope apart into kind and content.
pub fn unwrap(envelope: &[u8]) -> (out: Result<(Kind, &[u8]), EnvelopeError>)
    ensures
        match (out, envelope_parts(envelope@)) {
            (Ok((kind, content)), Ok((k, c))) => kind == k && content@ == c,
            (Err(EnvelopeError::Invalid(m)), Err(f)) => m@ == fault_text(f),
            _ => false,
        },
{
    match parse_envelope(envelope) {
        Ok((kind, at)) => {
            assert(envelope@.subrange(at as int, envelope@.len() as int) =~= envelope@.skip(
                at as int,
            ));
            Ok((kind, slice_subrange(envelope, at, envelope.len())))
        },
        Err(f) => Err(fault(f)),
    }
}

/// The kind of the object in an envelope.
pub fn kind_from_envelope(envelope: &[u8]) -> (out: Result<Kind, EnvelopeError>)
    ensures
        match (out, envelope_parts(envelope@)) {
            (Ok(kind), Ok((k, _))) => kind == k,
            (Err(EnvelopeError::Invalid(m)), Err(f)) => m@ == fault_text(f),
            _ => false,
        },
{
    match unwrap(envelope) {
        Ok(parts) => Ok(parts.0),
        Err(e) => Err(e),
    }
}

/// The prefix of the addresses of objects named by a hash.
pub open spec fn hash_name(hash: HashKind) -> Seq<char> {
    match hash {
        HashKind::Sha1 => "sha1"@,
        HashKind::Sha256 => "sha256"@,
    }
}

/// The address of a digest.
pub open spec fn oid_kappa(hash: HashKind, digest: Seq<u8>) -> Seq<char> {
    hash_name(hash) + seq![':'] + hex_of(digest)
}

/// The address of an object; none where SHA-1 finds the traces of a collision
/// attack.
pub open spec fn object_kappa(hash: HashKind, kind: Kind, content: Seq<u8>) -> Option<Seq<char>> {
    match crate::digest::git_digest_of(hash, envelope_of(kind, content)) {
        Some(digest) => Some(oid_kappa(hash, digest)),
        None => None,
    }
}

/// The axis of the addresses of objects named by a hash.
pub open spec fn hash_axis(hash: HashKind) -> crate::kappa::Axis {
    match hash {
        HashKind::Sha1 => crate::kappa::Axis::Sha1,
        HashKind::Sha256 => crate::kappa::Axis::Sha256,
    }
}

/// The name that a repository's hash has before the colon.
pub fn hash_prefix(hash: HashKind) -> (out: &'static str)
    ensures
        out@ == hash_name(hash),
{
    match hash {
        HashKind::Sha1 => "sha1",
        HashKind::Sha256 => "sha256",
    }
}

fn kappa_of_digest(hash: HashKind, digest: &[u8]) -> (out: String)
    ensures
        out@ == oid_kappa(hash, digest@),
{
    let digits = hex_encode(digest);
    proof {
        reveal_strlit(":");
    }
    assert(":"@ =~= seq![':']);
    joined3(hash_prefix(hash), ":", digits.as_str())
}

/// The address of an object under a repository's hash.
pub fn git_object_id(hash: HashKind, kind: Kind, content: &[u8]) -> (out: Result<
    String,
    EnvelopeError,
>)
    ensures
        match out {
            Ok(kappa) => object_kappa(hash, kind, content@) == Some(kappa@)
                && crate::kappa::label_parts(kappa@) is Some && (crate::kappa::label_parts(
                kappa@,
            )->0).0 == hash_axis(hash) && crate::kappa::content_label(
                hash_axis(hash),
                envelope_of(kind, content@),
            ) == Some(kappa@) && crate::store::memory::addresses(
                kappa@,
                envelope_of(kind, content@),
            ),
            Err(e) => e is Hash && object_kappa(hash, kind, content@) is None && hash
                == HashKind::Sha1,
        },
{
    match compute_hash(hash, kind, content) {
        Some(digest) => {
            proof {
                crate::kappa::law_label_roundtrip(hash_axis(hash), digest@);
            }
            Ok(kappa_of_digest(hash, digest.as_slice()))
        },
        None => Err(EnvelopeError::Hash("sha1 collision detected".to_owned())),
    }
}

/// The SHA-1 address of an object.
pub fn git_object_id_sha1(kind: Kind, content: &[u8]) -> (out: Result<String, EnvelopeError>)
    ensures
        match out {
            Ok(kappa) => object_kappa(HashKind::Sha1, kind, content@) == Some(kappa@),
            Err(e) => e is Hash && object_kappa(HashKind::Sha1, kind, content@) is None,
        },
{
    git_object_id(HashKind::Sha1, kind, content)
}

/// The SHA-256 address of an object.
pub fn git_object_id_sha256(kind: Kind, content: &[u8]) -> (out: Result<String, EnvelopeError>)
    ensures
        out matches Ok(kappa) && object_kappa(HashKind::Sha256, kind, content@) == Some(kappa@),
{
    git_object_id(HashKind::Sha256, kind, content)
}

/// The object name in an address: `sha1` with 40 digits or `sha256` with 64.
pub open spec fn kappa_oid(kappa: Seq<char>) -> Option<(HashKind, Seq<u8>)> {
    match split_once_spec(kappa, ':') {
        None => None,
        Some((name, digits)) => match oid_of_hex(digits) {
            None => None,
            Some((hash, digest)) => if hash_name(hash) == name {
                Some((hash, digest))
            } else {
                None
            },
        },
    }
}

/// The object name in an address.
pub fn kappa_to_oid(kappa: &str) -> (out: Result<ObjectId, EnvelopeError>)
    ensures
        match out {
            Ok(id) => id.wf() && kappa_oid(kappa@) == Some((id.kind, id.bytes@)),
            Err(e) => e is Invalid && kappa_oid(kappa@) is None,
        },
{
    proof {
        reveal_strlit("sha1");
        reveal_strlit("sha256");
    }
    let (name, digits) = match split_once(kappa, ':') {
        Some(parts) => parts,
        None => return Err(EnvelopeError::Invalid("no colon in kappa-label".to_owned())),
    };
    assert("sha1"@.len() != "sha256"@.len());
    let hash = if same_text(name.as_str(), "sha1") {
        HashKind::Sha1
    } else if same_text(name.as_str(), "sha256") {
        HashKind::Sha256
    } else {
        return Err(EnvelopeError::Invalid(joined("unsupported git hash: ", name.as_str())));
    };
    match oid_from_hex(digits.as_str()) {
        Some(id) => if id.kind == hash {
            Ok(id)
        } else {
            Err(EnvelopeError::Invalid("hash kind mismatch".to_owned()))
        },
        None => Err(EnvelopeError::Invalid("invalid hex".to_owned())),
    }
}

/// The address of an object name.
pub fn oid_to_kappa(id: &ObjectId) -> (out: Result<String, EnvelopeError>)
    ensures
        out matches Ok(kappa) && kappa@ == oid_kappa(id.kind, id.bytes@),
{
    Ok(kappa_of_digest(id.kind, id.bytes.as_slice()))
}

/// The object name in the address of an object name is that name.
pub proof fn law_oid_roundtrip(hash: HashKind, digest: Seq<u8>)
    requires
        digest.len() == crate::git::object::hash_len(hash),
    ensures
        kappa_oid(oid_kappa(hash, digest)) == Some((hash, digest)),
{
    reveal_strlit("sha1");
    reveal_strlit("sha256");
    let text = oid_kappa(hash, digest);
    let n = hash_name(hash).len() as int;
    assert forall|k: int| 0 <= k < n implies text[k] != ':' by {
        assert(text[k] == hash_name(hash)[k]);
    }
    crate::text::lemma_first_index(text, ':', n);
    assert(text.take(n) =~= hash_name(hash));
    assert(text.skip(n + 1) =~= hex_of(digest));
    crate::hexadecimal::law_hex_roundtrip(digest);
}

} // verus!
