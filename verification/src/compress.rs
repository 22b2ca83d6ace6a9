//! Reversible byte-stream compression used to shrink objects on disk.
//!
//! Only the round trip is a contract: `decompress(compress(x)) == x` for
//! every byte sequence, the empty one included. Decompression of anything
//! that is not a valid compressed stream fails with a recoverable error.

use std::io::Read;
use vstd::prelude::*;

use crate::errors::StoreError;

verus! {

/// What zlib decompression yields on a byte sequence: the decoded bytes
/// of a valid stream, nothing for an invalid one. The outcome is a
/// function of the input bytes alone.
pub uninterp spec fn inflate_of(data: Seq<u8>) -> Option<Seq<u8>>;

/// Relies on `flate2::bufread::ZlibEncoder`: compressing in-memory bytes
/// cannot fail, and zlib compression is lossless, so the stream it
/// produces decompresses to exactly the input bytes.
#[verifier::external_body]
fn zlib_compress(data: &Vec<u8>) -> (r: Vec<u8>)
    ensures
        inflate_of(r@) == Some(data@),
{
    let mut enc = flate2::bufread::ZlibEncoder::new(
        data.as_slice(),
        flate2::Compression::default(),
    );
    let mut out = Vec::new();
    enc.read_to_end(&mut out).expect("reading compressed bytes from memory cannot fail");
    out
}

/// Relies on `flate2::bufread::ZlibDecoder`: it decodes a valid zlib
/// stream to its original bytes and reports an error on an invalid one
/// (truncated input, wrong magic bytes, checksum mismatch), always the
/// same way for the same input.
#[verifier::external_body]
fn zlib_decompress(data: &Vec<u8>) -> (r: Option<Vec<u8>>)
    ensures
        match r {
            Some(d) => inflate_of(data@) == Some(d@),
            None => inflate_of(data@) is None,
        },
{
    let mut dec = flate2::bufread::ZlibDecoder::new(data.as_slice());
    let mut out = Vec::new();
    match dec.read_to_end(&mut out) {
        Ok(_) => Some(out),
        Err(_) => None,
    }
}

/// Compress bytes for storage. Every byte sequence compresses to a
/// stream that decompresses back to it exactly.
pub fn compress(data: &Vec<u8>) -> (r: Vec<u8>)
    ensures
        inflate_of(r@) == Some(data@),
{
    zlib_compress(data)
}

/// Decompress a stored stream. A valid stream yields its original bytes;
/// anything else fails with [`StoreError::CorruptStream`].
pub fn decompress(data: &Vec<u8>) -> (r: Result<Vec<u8>, StoreError>)
    ensures
        match r {
            Ok(d) => inflate_of(data@) == Some(d@),
            Err(e) => inflate_of(data@) is None && e == StoreError::CorruptStream,
        },
{
    match zlib_decompress(data) {
        Some(d) => Ok(d),
        None => Err(StoreError::CorruptStream),
    }
}

} // verus!
