//! The kinds of Git objects and of the hashes that name them.

use vstd::prelude::*;

use crate::bytes::same_bytes;

verus! {

/// The hash that names the objects of a repository.
#[derive(Debug, Clone, Copy, PartialEq, Eq, Structural)]
pub enum HashKind {
    Sha1,
    Sha256,
}

/// The four kinds of Git objects.
#[derive(Debug, Clone, Copy, PartialEq, Eq, Structural)]
pub enum Kind {
    Tree,
    Blob,
    Commit,
    Tag,
}

/// Name of a kind, as it begins an object's header.
pub open spec fn kind_name(kind: Kind) -> Seq<u8> {
    match kind {
        Kind::Tree => seq![116, 114, 101, 101],
        Kind::Blob => seq![98, 108, 111, 98],
        Kind::Commit => seq![99, 111, 109, 109, 105, 116],
        Kind::Tag => seq![116, 97, 103],
    }
}

/// The kind with a given name.
pub open spec fn kind_named(name: Seq<u8>) -> Option<Kind> {
    if name == kind_name(Kind::Tree) {
        Some(Kind::Tree)
    } else if name == kind_name(Kind::Blob) {
        Some(Kind::Blob)
    } else if name == kind_name(Kind::Commit) {
        Some(Kind::Commit)
    } else if name == kind_name(Kind::Tag) {
        Some(Kind::Tag)
    } else {
        None
    }
}

/// The name of a kind names that kind, and holds no space and no zero byte.
pub proof fn law_kind_named(kind: Kind)
    ensures
        kind_named(kind_name(kind)) == Some(kind),
        forall|i: int|
            0 <= i < kind_name(kind).len() ==> #[trigger] kind_name(kind)[i] != 32 && kind_name(
                kind,
            )[i] != 0,
{
    assert(kind_name(Kind::Tree)[0] == 116);
    assert(kind_name(Kind::Blob)[0] == 98);
    assert(kind_name(Kind::Tree).len() == 4 && kind_name(Kind::Blob).len() == 4);
    assert(kind_name(Kind::Commit).len() == 6 && kind_name(Kind::Tag).len() == 3);
}

/// `gix_object::Kind::from_bytes`: the kind with exactly this name.
#[verifier::external_body]
pub(crate) fn kind_from_bytes(name: &[u8]) -> (out: Option<Kind>)
    ensures
        out == kind_named(name@),
{
    match gix_object::Kind::from_bytes(name) {
        Ok(gix_object::Kind::Tree) => Some(Kind::Tree),
        Ok(gix_object::Kind::Blob) => Some(Kind::Blob),
        Ok(gix_object::Kind::Commit) => Some(Kind::Commit),
        Ok(gix_object::Kind::Tag) => Some(Kind::Tag),
        Err(_) => None,
    }
}

/// Bytes of a digest of this kind.
pub open spec fn hash_len(kind: HashKind) -> nat {
    match kind {
        HashKind::Sha1 => 20,
        HashKind::Sha256 => 32,
    }
}

/// The header of an object: kind, space, decimal size, zero byte.
pub open spec fn loose_header_of(kind: Kind, size: nat) -> Seq<u8> {
    kind_name(kind) + seq![32u8] + crate::text::decimal_bytes(size) + seq![0u8]
}

/// `gix_object::encode::loose_header`: kind, space, decimal size, zero byte.
#[verifier::external_body]
pub(crate) fn loose_header(kind: Kind, size: u64) -> (out: Vec<u8>)
    ensures
        out@ == loose_header_of(kind, size as nat),
{
    let kind = match kind {
        Kind::Tree => gix_object::Kind::Tree,
        Kind::Blob => gix_object::Kind::Blob,
        Kind::Commit => gix_object::Kind::Commit,
        Kind::Tag => gix_object::Kind::Tag,
    };
    gix_object::encode::loose_header(kind, size).to_vec()
}

/// `gix_object::compute_hash`: the digest of an object's header and content
/// together; none where SHA-1 finds the traces of a collision attack. SHA-256
/// digests are those of `sha2::Sha256`.
#[verifier::external_body]
pub(crate) fn compute_hash(hash: HashKind, kind: Kind, content: &[u8]) -> (out: Option<Vec<u8>>)
    ensures
        match out {
            Some(digest) => crate::digest::git_digest_of(
                hash,
                loose_header_of(kind, content@.len()) + content@,
            ) == Some(digest@) && digest@.len() == hash_len(hash) && (hash == HashKind::Sha256
                ==> digest@ == crate::digest::sha256_of(
                loose_header_of(kind, content@.len()) + content@,
            )),
            None => crate::digest::git_digest_of(
                hash,
                loose_header_of(kind, content@.len()) + content@,
            ) is None && hash == HashKind::Sha1,
        },
{
    let hash = match hash {
        HashKind::Sha1 => gix_hash::Kind::Sha1,
        HashKind::Sha256 => gix_hash::Kind::Sha256,
    };
    let kind = match kind {
        Kind::Tree => gix_object::Kind::Tree,
        Kind::Blob => gix_object::Kind::Blob,
        Kind::Commit => gix_object::Kind::Commit,
        Kind::Tag => gix_object::Kind::Tag,
    };
    gix_object::compute_hash(hash, kind, content).ok().map(|id| id.as_slice().to_vec())
}

/// The name of an object: a digest of a known kind.
#[derive(Debug)]
pub struct ObjectId {
    pub kind: HashKind,
    pub bytes: Vec<u8>,
}

impl ObjectId {
    /// The digest has the length of its kind.
    pub open spec fn wf(&self) -> bool {
        self.bytes@.len() == hash_len(self.kind)
    }

    /// Whether two names are the same.
    pub fn same(&self, other: &ObjectId) -> (yes: bool)
        ensures
            yes == (self.kind == other.kind && self.bytes@ == other.bytes@),
    {
        self.kind == other.kind && same_bytes(self.bytes.as_slice(), other.bytes.as_slice())
    }
}

/// The object name that hexadecimal text stands for: 40 digits under SHA-1,
/// 64 under SHA-256.
pub open spec fn oid_of_hex(text: Seq<char>) -> Option<(HashKind, Seq<u8>)> {
    match crate::hexadecimal::hex_bytes(text) {
        Some(digest) => if digest.len() == 20 {
            Some((HashKind::Sha1, digest))
        } else if digest.len() == 32 {
            Some((HashKind::Sha256, digest))
        } else {
            None
        },
        None => None,
    }
}

/// `gix_hash::ObjectId::from_hex`: 40 or 64 hexadecimal digits of either case.
#[verifier::external_body]
pub(crate) fn oid_from_hex(text: &str) -> (out: Option<ObjectId>)
    ensures
        match out {
            Some(id) => oid_of_hex(text@) == Some((id.kind, id.bytes@)) && id.wf(),
            None => oid_of_hex(text@) is None,
        },
{
    let id = gix_hash::ObjectId::from_hex(text.as_bytes()).ok()?;
    let kind = match id.kind() {
        gix_hash::Kind::Sha1 => HashKind::Sha1,
        _ => HashKind::Sha256,
    };
    Some(ObjectId { kind, bytes: id.as_slice().to_vec() })
}

} // verus!
