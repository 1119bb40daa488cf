//! The compression container around the codec stream: an independent layer,
//! so codec correctness never depends on it. Compression and decompression
//! are outside calls; what the library states of them is that the container
//! is lossless.

use vstd::prelude::*;

use crate::codec::{dec_corpus, decode_corpus, enc_corpus, CodecError};
use crate::corpus::Corpus;

verus! {

/// The fixed compression level corpus files are written with.
pub const COMPRESSION_LEVEL: i32 = 10;

/// What decompressing a container frame yields, if the frame is valid: a
/// function of the bytes alone.
pub uninterp spec fn zstd_unframe(b: Seq<u8>) -> Option<Seq<u8>>;

/// Relies on zstd::stream::encode_all: the container it writes is lossless,
/// so decompressing it yields exactly the input bytes.
#[verifier::external_body]
fn zstd_compress(data: &[u8], level: i32) -> (r: Option<Vec<u8>>)
    ensures
        r matches Some(v) ==> zstd_unframe(v@) == Some(data@),
{
    zstd::stream::encode_all(data, level).ok()
}

/// Relies on zstd::decode_all: decompression is a function of the bytes
/// alone, and fails exactly on an invalid container.
#[verifier::external_body]
fn zstd_decompress(data: &[u8]) -> (r: Option<Vec<u8>>)
    ensures
        match r {
            Some(v) => zstd_unframe(data@) == Some(v@),
            None => zstd_unframe(data@) is None,
        },
{
    zstd::decode_all(data).ok()
}

/// The bytes of a corpus file: the codec stream wrapped in the compression
/// container at the fixed level. `None` only if the compressor itself
/// failed.
pub fn corpus_file_bytes(c: &Corpus) -> (r: Option<Vec<u8>>)
    requires
        c.wf(),
    ensures
        r matches Some(v) ==> zstd_unframe(v@) == Some(enc_corpus(c.model())),
{
    let encoded = c.encode();
    zstd_compress(encoded.as_slice(), COMPRESSION_LEVEL)
}

/// Reads a corpus file's bytes back: unwraps the container, then decodes
/// the stream.
pub fn corpus_from_file_bytes(data: &[u8]) -> (r: Result<Corpus, CodecError>)
    ensures
        match r {
            Ok(c) => c.wf() && match zstd_unframe(data@) {
                Some(pb) => dec_corpus(pb) == Some(c.model()),
                None => false,
            },
            Err(_) => match zstd_unframe(data@) {
                Some(pb) => dec_corpus(pb) is None,
                None => true,
            },
        },
{
    match zstd_decompress(data) {
        None => Err(CodecError::Malformed),
        Some(raw) => decode_corpus(raw.as_slice()),
    }
}

} // verus!
