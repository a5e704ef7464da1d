//! Content identifiers of DAG-CBOR blocks.

use vstd::prelude::*;
use vstd::slice::slice_subrange;

use crate::bytes::same_bytes;
use crate::digest::{sha256, sha256_of};
use crate::radix::{radix_decode, radix_decoded, radix_encode, radix_text, Radix};
use crate::text::{chars_of, joined, text_range};

verus! {

/// Why text is not a content identifier.
#[derive(Debug, Clone, Copy, PartialEq, Eq, Structural)]
pub enum CidError {
    UnsupportedMultibase,
    InvalidBase32,
    TooShort,
}

/// What a content identifier begins with: the version, the DAG-CBOR codec, the
/// SHA-256 hash and its length.
pub open spec fn cid_prefix() -> Seq<u8> {
    seq![0x01u8, 0x71, 0x12, 0x20]
}

/// The content identifier of a block.
pub open spec fn cid_of(data: Seq<u8>) -> Seq<u8> {
    cid_prefix() + sha256_of(data)
}

/// The content identifier of a block.
pub fn cid_for_cbor(data: &[u8]) -> (cid: [u8; 36])
    ensures
        cid@ == cid_of(data@),
        digest_in(cid@) == Some(sha256_of(data@)),
{
    let hash = sha256(data);
    let mut cid = [0u8; 36];
    cid[0] = 0x01;
    cid[1] = 0x71;
    cid[2] = 0x12;
    cid[3] = 0x20;
    let mut i: usize = 0;
    while i < 32
        invariant
            i <= 32,
            cid@.len() == 36,
            hash@ == sha256_of(data@),
            hash@.len() == 32,
            cid@.take(4) =~= cid_prefix(),
            forall|k: int| 0 <= k < i ==> cid@[4 + k] == hash@[k],
        decreases 32 - i,
    {
        cid[4 + i] = hash[i];
        i += 1;
    }
    assert(cid@ =~= cid_of(data@)) by {
        assert forall|k: int| 0 <= k < 36 implies cid@[k] == cid_of(data@)[k] by {
            if k < 4 {
                assert(cid@.take(4)[k] == cid_prefix()[k]);
            } else {
                assert(cid@[4 + (k - 4)] == hash@[k - 4]);
            }
        }
    }
    assert(cid@.subrange(4, 36) =~= sha256_of(data@));
    cid
}

/// A content identifier as text: `b`, then its bytes in base32.
pub open spec fn cid_text(cid: Seq<u8>) -> Seq<char> {
    seq!['b'] + radix_text(Radix::Base32, cid)
}

/// Writes a content identifier as text.
pub fn cid_to_string(cid: &[u8]) -> (out: String)
    ensures
        out@ == cid_text(cid@),
{
    let digits = radix_encode(Radix::Base32, cid);
    proof {
        reveal_strlit("b");
    }
    assert("b"@ =~= seq!['b']);
    joined("b", digits.as_str())
}

/// What a content identifier in text stands for.
pub open spec fn text_cid(s: Seq<char>) -> Result<Seq<u8>, CidError> {
    if s.len() == 0 || s[0] != 'b' {
        Err(CidError::UnsupportedMultibase)
    } else {
        match radix_decoded(Radix::Base32, s.skip(1)) {
            Some(cid) => Ok(cid),
            None => Err(CidError::InvalidBase32),
        }
    }
}

/// Reads a content identifier in text.
pub fn cid_from_string(s: &str) -> (out: Result<Vec<u8>, CidError>)
    ensures
        match (out, text_cid(s@)) {
            (Ok(v), Ok(c)) => v@ == c,
            (Err(e), Err(f)) => e == f,
            _ => false,
        },
{
    let chars = chars_of(s);
    if chars.len() == 0 || chars[0] != 'b' {
        return Err(CidError::UnsupportedMultibase);
    }
    let digits = text_range(s, 1, chars.len());
    assert(digits@ =~= s@.skip(1));
    match radix_decode(Radix::Base32, digits.as_str()) {
        Some(cid) => Ok(cid),
        None => Err(CidError::InvalidBase32),
    }
}

/// Reading a content identifier that was written as text gives it back.
pub proof fn law_cid_text(cid: Seq<u8>)
    ensures
        text_cid(cid_text(cid)) == Ok::<Seq<u8>, CidError>(cid),
{
    crate::radix::law_radix_roundtrip(Radix::Base32, cid);
    assert(cid_text(cid).skip(1) =~= radix_text(Radix::Base32, cid));
}

/// Whether a content identifier is that of a block.
pub fn verify_cid(cid: &[u8], data: &[u8]) -> (yes: bool)
    ensures
        yes == (cid@ == cid_of(data@)),
{
    let expected = cid_for_cbor(data);
    if cid.len() != 36 {
        return false;
    }
    same_bytes(cid, expected.as_slice())
}

/// The digest in a content identifier of version one with a SHA-256 hash.
pub open spec fn digest_in(cid: Seq<u8>) -> Option<Seq<u8>> {
    if cid.len() >= 36 && cid[0] == 0x01 && cid[2] == 0x12 {
        Some(cid.subrange(4, 36))
    } else {
        None
    }
}

/// The digest in a content identifier.
pub fn cid_digest(cid: &[u8]) -> (out: Option<&[u8]>)
    ensures
        match (out, digest_in(cid@)) {
            (Some(v), Some(d)) => v@ == d,
            (None, None) => true,
            _ => false,
        },
{
    if cid.len() >= 36 && cid[0] == 0x01 && cid[2] == 0x12 {
        Some(slice_subrange(cid, 4, 36))
    } else {
        None
    }
}

/// A content identifier of a block is of the first version, for DAG-CBOR, and has the
/// SHA-256 digest of the block in thirty-two bytes.
pub proof fn law_cid_shape(data: Seq<u8>)
    ensures
        cid_of(data) == seq![1u8, 0x71, 0x12, 32] + sha256_of(data),
        sha256_of(data).len() == 32 ==> digest_in(cid_of(data)) == Some(sha256_of(data)),
{
    if sha256_of(data).len() == 32 {
        assert(cid_of(data).subrange(4, 36) =~= sha256_of(data));
    }
}

} // verus!
