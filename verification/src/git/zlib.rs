//! Zlib streams.

use std::io::{Read, Write};

use vstd::prelude::*;

verus! {

/// What a zlib stream decompresses to; none where it is damaged or cut off.
pub uninterp spec fn inflated_of(data: Seq<u8>) -> Option<Seq<u8>>;

/// The zlib stream that data compresses to, at the default level.
pub uninterp spec fn deflated_of(data: Seq<u8>) -> Option<Seq<u8>>;

/// `flate2::read::ZlibDecoder`, read to its end: the data in a zlib stream;
/// none where the decoder fails.
#[verifier::external_body]
pub(crate) fn inflate(data: &[u8]) -> (out: Option<Vec<u8>>)
    ensures
        match out {
            Some(v) => inflated_of(data@) == Some(v@),
            None => inflated_of(data@) is None,
        },
{
    let mut out = Vec::new();
    flate2::read::ZlibDecoder::new(data).read_to_end(&mut out).ok().map(|_| out)
}

/// `flate2::write::ZlibEncoder` at the default level, into memory: the zlib
/// stream of the data, which decompresses to the data again. None stands for
/// the error of `write_all` or `finish`.
#[verifier::external_body]
pub(crate) fn deflate(data: &[u8]) -> (out: Option<Vec<u8>>)
    ensures
        match out {
            Some(v) => deflated_of(data@) == Some(v@) && inflated_of(v@) == Some(data@),
            None => deflated_of(data@) is None,
        },
{
    let level = flate2::Compression::default();
    let mut encoder = flate2::write::ZlibEncoder::new(Vec::new(), level);
    encoder.write_all(data).ok()?;
    encoder.finish().ok()
}

} // verus!
