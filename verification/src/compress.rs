//! The compression adapter: a closed tagged set of per-stream codecs.
//!
//! Tag values on the wire are 0 for no compression, 1 for bzip2 and
//! 2 for brotli. Brotli writes at quality 11 with log-window 20.

use vstd::prelude::*;
use std::io::Read;
use std::io::Write;
use crate::error::PatchError;

verus! {

#[derive(Debug, Clone, Copy, PartialEq, Eq, Structural)]
pub enum CompressionAlgorithm {
    Plain,
    Bz2,
    Brotli,
}

/// The wire tag of a compression algorithm.
pub open spec fn tag_spec(alg: CompressionAlgorithm) -> int {
    match alg {
        CompressionAlgorithm::Plain => 0,
        CompressionAlgorithm::Bz2 => 1,
        CompressionAlgorithm::Brotli => 2,
    }
}

impl CompressionAlgorithm {
    /// Reads a compression tag byte; tags above 2 are rejected.
    pub fn from_u8(value: u8) -> (r: Result<Self, PatchError>)
        ensures
            value <= 2 ==> r is Ok && tag_spec(r->Ok_0) == value as int,
            value > 2 ==> r == Err::<Self, PatchError>(PatchError::InvalidData),
    {
        match value {
            0u8 => Ok(Self::Plain),
            1u8 => Ok(Self::Bz2),
            2u8 => Ok(Self::Brotli),
            _ => Err(PatchError::InvalidData),
        }
    }

    /// The wire tag byte of this algorithm.
    pub fn to_u8(self) -> (r: u8)
        ensures
            r as int == tag_spec(self),
    {
        match self {
            Self::Plain => 0u8,
            Self::Bz2 => 1u8,
            Self::Brotli => 2u8,
        }
    }
}

/// What the bzip2 encoder produces for the given input bytes.
pub uninterp spec fn bz2_of(s: Seq<u8>) -> Seq<u8>;

/// What the brotli encoder produces for the given input bytes.
pub uninterp spec fn brotli_of(s: Seq<u8>) -> Seq<u8>;

/// The bytes that stand for `s` on the wire under the algorithm `alg`.
pub open spec fn compressed_of(alg: CompressionAlgorithm, s: Seq<u8>) -> Seq<u8> {
    match alg {
        CompressionAlgorithm::Plain => s,
        CompressionAlgorithm::Bz2 => bz2_of(s),
        CompressionAlgorithm::Brotli => brotli_of(s),
    }
}

/// Relies on bzip2::write::BzEncoder at the best level: the compressed
/// bytes are a deterministic function of the input bytes alone, and the
/// encoder only fails where the sink does, which an in-memory buffer
/// never does.
#[verifier::external_body]
fn bz2_compress(data: &[u8]) -> (r: Result<Vec<u8>, PatchError>)
    ensures
        r is Ok,
        r->Ok_0@ == bz2_of(data@),
{
    let mut encoder = bzip2::write::BzEncoder::new(Vec::new(), bzip2::Compression::best());
    if encoder.write_all(data).is_err() {
        return Err(PatchError::Compression);
    }
    match encoder.finish() {
        Ok(v) => Ok(v),
        Err(_) => Err(PatchError::Compression),
    }
}

/// Relies on bzip2::read::BzDecoder: decompressing what the bzip2 encoder
/// produced yields the original bytes back.
#[verifier::external_body]
fn bz2_decompress(data: &[u8]) -> (r: Result<Vec<u8>, PatchError>)
    ensures
        forall|s: Seq<u8>| data@ == bz2_of(s) ==> r is Ok && r->Ok_0@ == s,
        r is Err ==> r->Err_0 == PatchError::Compression,
{
    let mut decompressed = Vec::new();
    let mut decoder = bzip2::read::BzDecoder::new(data);
    match decoder.read_to_end(&mut decompressed) {
        Ok(_) => Ok(decompressed),
        Err(_) => Err(PatchError::Compression),
    }
}

/// Relies on brotli::CompressorWriter at quality 11 and log-window 20: the
/// compressed bytes are a deterministic function of the input bytes alone,
/// and the encoder only fails where the sink does, which an in-memory
/// buffer never does.
#[verifier::external_body]
fn brotli_compress(data: &[u8]) -> (r: Result<Vec<u8>, PatchError>)
    ensures
        r is Ok,
        r->Ok_0@ == brotli_of(data@),
{
    let mut compressed = Vec::new();
    {
        let mut encoder = brotli::CompressorWriter::new(&mut compressed, 4096, 11, 20);
        if encoder.write_all(data).is_err() {
            return Err(PatchError::Compression);
        }
        if encoder.flush().is_err() {
            return Err(PatchError::Compression);
        }
    }
    Ok(compressed)
}

/// Relies on brotli::Decompressor: decompressing what the brotli encoder
/// produced yields the original bytes back.
#[verifier::external_body]
fn brotli_decompress(data: &[u8]) -> (r: Result<Vec<u8>, PatchError>)
    ensures
        forall|s: Seq<u8>| data@ == brotli_of(s) ==> r is Ok && r->Ok_0@ == s,
        r is Err ==> r->Err_0 == PatchError::Compression,
{
    let mut decompressed = Vec::new();
    let mut decoder = brotli::Decompressor::new(data, 4096);
    match decoder.read_to_end(&mut decompressed) {
        Ok(_) => Ok(decompressed),
        Err(_) => Err(PatchError::Compression),
    }
}

/// Compresses one stream under the chosen algorithm; compression into
/// memory always succeeds.
pub(crate) fn compress(alg: CompressionAlgorithm, data: &[u8]) -> (r: Result<Vec<u8>, PatchError>)
    ensures
        r is Ok,
        r->Ok_0@ == compressed_of(alg, data@),
{
    match alg {
        CompressionAlgorithm::Plain => Ok(vstd::slice::slice_to_vec(data)),
        CompressionAlgorithm::Bz2 => bz2_compress(data),
        CompressionAlgorithm::Brotli => brotli_compress(data),
    }
}

/// Decompresses one stream under the chosen algorithm. Whatever bytes the
/// matching compressor produced come back as the original stream.
pub(crate) fn decompress(alg: CompressionAlgorithm, data: &[u8]) -> (r: Result<Vec<u8>, PatchError>)
    ensures
        forall|s: Seq<u8>| data@ == compressed_of(alg, s) ==> r is Ok && r->Ok_0@ == s,
        alg == CompressionAlgorithm::Plain ==> r is Ok && r->Ok_0@ == data@,
        r is Err ==> r->Err_0 == PatchError::Compression,
{
    match alg {
        CompressionAlgorithm::Plain => Ok(vstd::slice::slice_to_vec(data)),
        CompressionAlgorithm::Bz2 => bz2_decompress(data),
        CompressionAlgorithm::Brotli => brotli_decompress(data),
    }
}

} // verus!
