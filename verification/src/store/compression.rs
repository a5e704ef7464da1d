//! Blobs stored compressed, and served either way.

use std::io::Read;

use vstd::prelude::*;

use crate::bytes::copy_bytes;
use crate::kappa::{kappa_from_bytes, kappa_of};
use crate::store::memory::{InMemoryStore, IngestResult};
use crate::store::state::{CompressionView, StoreState};
use crate::store::uploads::CompressionRecord;
use crate::table::{lemma_deep_bytes, lemma_deep_sixteen};
use crate::text::{joined, same_text};
use crate::types::StoreError;

verus! {

broadcast use {lemma_deep_bytes, lemma_deep_sixteen};

/// What a Zstandard stream decompresses to; none where it is damaged.
pub uninterp spec fn zstd_decoded_of(data: Seq<u8>) -> Option<Seq<u8>>;

/// What an xz stream decompresses to; none where it is damaged.
pub uninterp spec fn xz_decoded_of(data: Seq<u8>) -> Option<Seq<u8>>;

/// What a bzip2 stream decompresses to; none where it is damaged.
pub uninterp spec fn bzip2_decoded_of(data: Seq<u8>) -> Option<Seq<u8>>;

/// `zstd::decode_all`: the data in a Zstandard stream; none where it fails.
#[verifier::external_body]
pub(crate) fn zstd_decode(data: &[u8]) -> (out: Option<Vec<u8>>)
    ensures
        match out {
            Some(v) => zstd_decoded_of(data@) == Some(v@),
            None => zstd_decoded_of(data@) is None,
        },
{
    zstd::decode_all(data).ok()
}

/// `xz2::read::XzDecoder`, read to its end: the data in an xz stream; none where
/// it fails.
#[verifier::external_body]
pub(crate) fn xz_decode(data: &[u8]) -> (out: Option<Vec<u8>>)
    ensures
        match out {
            Some(v) => xz_decoded_of(data@) == Some(v@),
            None => xz_decoded_of(data@) is None,
        },
{
    let mut out = Vec::new();
    xz2::read::XzDecoder::new(data).read_to_end(&mut out).ok().map(|_| out)
}

/// `bzip2::read::BzDecoder`, read to its end: the data in a bzip2 stream; none
/// where it fails.
#[verifier::external_body]
pub(crate) fn bzip2_decode(data: &[u8]) -> (out: Option<Vec<u8>>)
    ensures
        match out {
            Some(v) => bzip2_decoded_of(data@) == Some(v@),
            None => bzip2_decoded_of(data@) is None,
        },
{
    let mut out = Vec::new();
    bzip2::read::BzDecoder::new(data).read_to_end(&mut out).ok().map(|_| out)
}

/// Why data was not decompressed.
pub enum DecompressFault {
    /// The stream is damaged.
    Damaged,
    /// The algorithm is none of those known.
    Unsupported,
}

/// What data compressed by an algorithm decompresses to.
pub open spec fn decompressed(data: Seq<u8>, algorithm: Seq<char>) -> Result<
    Seq<u8>,
    DecompressFault,
> {
    let decoded = if algorithm == "none"@ {
        Some(data)
    } else if algorithm == "zstd"@ {
        zstd_decoded_of(data)
    } else if algorithm == "xz"@ || algorithm == "lzma"@ {
        xz_decoded_of(data)
    } else {
        bzip2_decoded_of(data)
    };
    if algorithm != "none"@ && algorithm != "zstd"@ && algorithm != "xz"@ && algorithm != "lzma"@
        && algorithm != "bzip2"@ {
        Err(DecompressFault::Unsupported)
    } else {
        match decoded {
            Some(v) => Ok(v),
            None => Err(DecompressFault::Damaged),
        }
    }
}

/// Decompresses data.
pub fn decompress_bytes(data: &[u8], algorithm: &str) -> (out: Result<Vec<u8>, StoreError>)
    ensures
        match (out, decompressed(data@, algorithm@)) {
            (Ok(v), Ok(s)) => v@ == s,
            (Err(StoreError::Io(_)), Err(DecompressFault::Damaged)) => true,
            (Err(StoreError::Rejected(m)), Err(DecompressFault::Unsupported)) => m@
                == "unsupported compression: "@ + algorithm@,
            _ => false,
        },
{
    let decoded = if same_text(algorithm, "none") {
        Some(copy_bytes(data))
    } else if same_text(algorithm, "zstd") {
        zstd_decode(data)
    } else if same_text(algorithm, "xz") || same_text(algorithm, "lzma") {
        xz_decode(data)
    } else if same_text(algorithm, "bzip2") {
        bzip2_decode(data)
    } else {
        return Err(StoreError::Rejected(joined("unsupported compression: ", algorithm)));
    };
    match decoded {
        Some(v) => Ok(v),
        None => Err(StoreError::Io(joined(algorithm, ": corrupt stream"))),
    }
}

impl StoreState {
    /// Compressed content stored under its own address, and on record under the
    /// digest of what it decompresses to.
    pub open spec fn compressed_put(
        self,
        uncompressed_hash: Seq<char>,
        content: Seq<u8>,
        algorithm: Seq<char>,
        uncompressed_size: u64,
    ) -> StoreState {
        let kappa = kappa_of(content);
        let stored = self.put_blob(kappa, content);
        StoreState {
            compressed: stored.compressed.insert(
                uncompressed_hash,
                CompressionView { kappa, algorithm, compressed: content, uncompressed_size },
            ),
            ..stored
        }
    }
}

impl InMemoryStore {
    /// Stores content that is compressed already.
    pub fn ingest_compressed(
        &mut self,
        uncompressed_hash: &str,
        compressed_content: &[u8],
        compression: &str,
        uncompressed_size: u64,
    ) -> (out: Result<IngestResult, StoreError>)
        requires
            old(self).wf(),
        ensures
            final(self).wf(),
            final(self).state() == old(self).state().compressed_put(
                uncompressed_hash@,
                compressed_content@,
                compression@,
                uncompressed_size,
            ),
            out matches Ok(r) && r.kappa@ == kappa_of(compressed_content@) && r.newly_stored
                && r.additional_kappas@.len() == 0,
            crate::store::memory::adds_addressed(old(self).state(), final(self).state()),
    {
        let ghost before = self.state();
        let kappa = kappa_from_bytes(compressed_content);
        proof {
            crate::store::memory::lemma_adds_one(self.state(), kappa@, compressed_content@);
        }
        let ghost stored = before.put_blob(kappa@, compressed_content@);
        let _ = self.blob_put(kappa.as_str(), compressed_content);
        let record = CompressionRecord {
            kappa: kappa.clone(),
            algorithm: compression.to_owned(),
            compressed: copy_bytes(compressed_content),
            uncompressed_size,
        };
        self.compressed.insert(uncompressed_hash.to_owned(), record);
        assert(self.state() =~= before.compressed_put(
            uncompressed_hash@,
            compressed_content@,
            compression@,
            uncompressed_size,
        ));
        proof {
            crate::store::memory::lemma_adds_same(before, stored, before, self.state());
        }
        Ok(IngestResult { kappa, newly_stored: true, additional_kappas: Vec::new() })
    }

    /// The content on record under a digest, as it was stored.
    pub fn blob_open_compressed(&self, uncompressed_hash: &str) -> (out: Result<
        Vec<u8>,
        StoreError,
    >)
        requires
            self.wf(),
        ensures
            match out {
                Ok(v) => self.state().compressed.dom().contains(uncompressed_hash@) && v@
                    == self.state().compressed[uncompressed_hash@].compressed,
                Err(StoreError::NotFound(k)) => !self.state().compressed.dom().contains(
                    uncompressed_hash@,
                ) && k@ == uncompressed_hash@,
                Err(_) => false,
            },
    {
        match self.compressed.get(&uncompressed_hash.to_owned()) {
            Some(record) => Ok(copy_bytes(record.compressed.as_slice())),
            None => Err(StoreError::NotFound(uncompressed_hash.to_owned())),
        }
    }

    /// The content on record under a digest, decompressed.
    pub fn blob_open_decompressed(&self, uncompressed_hash: &str) -> (out: Result<
        Vec<u8>,
        StoreError,
    >)
        requires
            self.wf(),
        ensures
            ({
                let known = self.state().compressed.dom().contains(uncompressed_hash@);
                let record = self.state().compressed[uncompressed_hash@];
                let want = decompressed(record.compressed, record.algorithm);
                match out {
                    Ok(v) => known && want == Ok::<Seq<u8>, DecompressFault>(v@),
                    Err(StoreError::NotFound(k)) => !known && k@ == uncompressed_hash@,
                    Err(StoreError::Io(_)) => known && want == Err::<Seq<u8>, DecompressFault>(
                        DecompressFault::Damaged,
                    ),
                    Err(StoreError::Rejected(m)) => known && want == Err::<
                        Seq<u8>,
                        DecompressFault,
                    >(DecompressFault::Unsupported) && m@ == "unsupported compression: "@
                        + record.algorithm,
                    Err(_) => false,
                }
            }),
    {
        match self.compressed.get(&uncompressed_hash.to_owned()) {
            Some(record) => decompress_bytes(
                record.compressed.as_slice(),
                record.algorithm.as_str(),
            ),
            None => Err(StoreError::NotFound(uncompressed_hash.to_owned())),
        }
    }
}

/// Stores content under its SHA-256 address; the address.
pub fn blob_put_computed(store: &mut InMemoryStore, content: &[u8]) -> (out: Result<
    String,
    StoreError,
>)
    requires
        old(store).wf(),
    ensures
        final(store).wf(),
        final(store).state() == old(store).state().put_blob(kappa_of(content@), content@),
        out matches Ok(kappa) && kappa@ == kappa_of(content@),
        crate::store::memory::adds_addressed(old(store).state(), final(store).state()),
{
    let kappa = kappa_from_bytes(content);
    proof {
        crate::store::memory::lemma_adds_one(store.state(), kappa@, content@);
    }
    match store.blob_put(kappa.as_str(), content) {
        Ok(_) => Ok(kappa),
        Err(e) => Err(e),
    }
}

/// Compressed content is decompressed by the algorithm that is named: not at all,
/// as Zstandard, as xz under either of its names, or as bzip2; none other is known.
pub proof fn law_decompressed(data: Seq<u8>, algorithm: Seq<char>)
    ensures
        decompressed(data, "none"@) == Ok::<Seq<u8>, DecompressFault>(data),
        zstd_decoded_of(data) matches Some(v) ==> decompressed(data, "zstd"@) == Ok::<
            Seq<u8>,
            DecompressFault,
        >(v),
        xz_decoded_of(data) matches Some(v) ==> decompressed(data, "xz"@) == Ok::<
            Seq<u8>,
            DecompressFault,
        >(v) && decompressed(data, "lzma"@) == Ok::<Seq<u8>, DecompressFault>(v),
        bzip2_decoded_of(data) matches Some(v) ==> decompressed(data, "bzip2"@) == Ok::<
            Seq<u8>,
            DecompressFault,
        >(v),
        algorithm != "none"@ && algorithm != "zstd"@ && algorithm != "xz"@ && algorithm != "lzma"@
            && algorithm != "bzip2"@ ==> decompressed(data, algorithm) is Err,
{
    reveal_strlit("none");
    reveal_strlit("zstd");
    reveal_strlit("xz");
    reveal_strlit("lzma");
    reveal_strlit("bzip2");
    assert("none"@[0] == 'n' && "zstd"@[0] == 'z' && "xz"@[0] == 'x' && "lzma"@[0] == 'l'
        && "bzip2"@[0] == 'b');
}

/// Content that came compressed is stored at the address of the compressed bytes
/// where nothing was, and found under the hash of what it decompresses to.
pub proof fn law_compressed_put(
    st: StoreState,
    hash: Seq<char>,
    content: Seq<u8>,
    algorithm: Seq<char>,
    size: u64,
)
    ensures
        ({
            let after = st.compressed_put(hash, content, algorithm, size);
            &&& after.compressed.dom().contains(hash)
            &&& after.compressed[hash].kappa == kappa_of(content)
            &&& after.compressed[hash].compressed == content
            &&& after.compressed[hash].algorithm == algorithm
            &&& after.compressed[hash].uncompressed_size == size
            &&& after.blobs.dom().contains(kappa_of(content))
            &&& !st.blobs.dom().contains(kappa_of(content)) ==> after.blobs[kappa_of(content)]
                == content
        }),
{
}

} // verus!
