//! Digests and checksums.

use md5::Md5;
use sha2::{Digest, Sha256, Sha512};
use sha3::{Keccak256, Sha3_256};
use vstd::prelude::*;

use crate::git::object::{HashKind, Kind};

verus! {

/// The SHA-256 digest of a byte string.
pub uninterp spec fn sha256_of(data: Seq<u8>) -> Seq<u8>;

/// The SHA-512 digest of a byte string.
pub uninterp spec fn sha512_of(data: Seq<u8>) -> Seq<u8>;

/// The SHA3-256 digest of a byte string.
pub uninterp spec fn sha3_256_of(data: Seq<u8>) -> Seq<u8>;

/// The Keccak-256 digest of a byte string.
pub uninterp spec fn keccak256_of(data: Seq<u8>) -> Seq<u8>;

/// The BLAKE3 digest of a byte string.
pub uninterp spec fn blake3_of(data: Seq<u8>) -> Seq<u8>;

/// The keyed BLAKE3 digest of a byte string.
pub uninterp spec fn blake3_keyed_of(key: Seq<u8>, data: Seq<u8>) -> Seq<u8>;

/// The MD5 digest of a byte string.
pub uninterp spec fn md5_of(data: Seq<u8>) -> Seq<u8>;

/// The digest that Git's object hasher gives for a byte string; none where it
/// finds the traces of a SHA-1 collision attack.
pub uninterp spec fn git_digest_of(kind: HashKind, data: Seq<u8>) -> Option<Seq<u8>>;

/// `sha2::Sha256::digest`: the SHA-256 digest, always 32 bytes.
#[verifier::external_body]
pub(crate) fn sha256(data: &[u8]) -> (out: [u8; 32])
    ensures
        out@ == sha256_of(data@),
{
    Sha256::digest(data).into()
}

/// `sha2::Sha512::digest`: the SHA-512 digest, always 64 bytes.
#[verifier::external_body]
pub(crate) fn sha512(data: &[u8]) -> (out: [u8; 64])
    ensures
        out@ == sha512_of(data@),
{
    Sha512::digest(data).into()
}

/// `sha3::Sha3_256::digest`: the SHA3-256 digest, always 32 bytes.
#[verifier::external_body]
pub(crate) fn sha3_256(data: &[u8]) -> (out: [u8; 32])
    ensures
        out@ == sha3_256_of(data@),
{
    Sha3_256::digest(data).into()
}

/// `sha3::Keccak256::digest`: the Keccak-256 digest, always 32 bytes.
#[verifier::external_body]
pub(crate) fn keccak256(data: &[u8]) -> (out: [u8; 32])
    ensures
        out@ == keccak256_of(data@),
{
    Keccak256::digest(data).into()
}

/// `blake3::hash`: the BLAKE3 digest, always 32 bytes.
#[verifier::external_body]
pub(crate) fn blake3_hash(data: &[u8]) -> (out: [u8; 32])
    ensures
        out@ == blake3_of(data@),
{
    *blake3::hash(data).as_bytes()
}

/// `blake3::keyed_hash`: the keyed BLAKE3 digest, always 32 bytes.
#[verifier::external_body]
pub(crate) fn blake3_keyed_hash(key: &[u8; 32], data: &[u8]) -> (out: [u8; 32])
    ensures
        out@ == blake3_keyed_of(key@, data@),
{
    *blake3::keyed_hash(key, data).as_bytes()
}

/// `md5::Md5::digest`: the MD5 digest, always 16 bytes.
#[verifier::external_body]
pub(crate) fn md5_digest(data: &[u8]) -> (out: [u8; 16])
    ensures
        out@ == md5_of(data@),
{
    Md5::digest(data).into()
}

/// `gix_hash::hasher`, fed once and finalized: the digest that Git names
/// objects by, 20 bytes under SHA-1 and 32 under SHA-256. None stands for the
/// error of `try_finalize`, which SHA-256 never gives. Under SHA-256 the hasher
/// is `sha2::Sha256`, so the digest is that of [`sha256`].
#[verifier::external_body]
pub(crate) fn git_digest(kind: HashKind, data: &[u8]) -> (out: Option<Vec<u8>>)
    ensures
        match out {
            Some(digest) => git_digest_of(kind, data@) == Some(digest@) && digest@.len() == (
            match kind {
                HashKind::Sha1 => 20nat,
                HashKind::Sha256 => 32nat,
            }) && (kind == HashKind::Sha256 ==> digest@ == sha256_of(data@)),
            None => git_digest_of(kind, data@) is None && kind == HashKind::Sha1,
        },
{
    let mut hasher = gix_hash::hasher(match kind {
        HashKind::Sha1 => gix_hash::Kind::Sha1,
        HashKind::Sha256 => gix_hash::Kind::Sha256,
    });
    hasher.update(data);
    hasher.try_finalize().ok().map(|id| id.as_slice().to_vec())
}

} // verus!
