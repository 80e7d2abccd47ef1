//! The compression layer around a document's bytes, done by flate2.
use vstd::prelude::*;
use crate::types::{Compression, NbtError};

verus! {

/// What flate2's gzip decoder makes of a stream: the decoded bytes, or
/// `None` where it reports an error.
pub uninterp spec fn gunzipped(b: Seq<u8>) -> Option<Seq<u8>>;

/// What flate2's zlib decoder makes of a stream: the decoded bytes, or `None`
/// where it reports an error.
pub uninterp spec fn zlib_inflated(b: Seq<u8>) -> Option<Seq<u8>>;

/// What flate2's gzip encoder, at the default level, makes of bytes: the
/// stream, or `None` where it reports an error.
pub uninterp spec fn gzipped(b: Seq<u8>) -> Option<Seq<u8>>;

/// What flate2's zlib encoder, at the default level, makes of bytes: the
/// stream, or `None` where it reports an error.
pub uninterp spec fn zlib_deflated(b: Seq<u8>) -> Option<Seq<u8>>;

/// Relies on flate2::read::GzDecoder over a byte slice, read to its end:
/// whether it fails and what it decodes depend on the stream alone.
#[verifier::external_body]
fn gunzip(b: &[u8]) -> (r: Result<Vec<u8>, std::io::Error>)
    ensures
        match gunzipped(b@) {
            Some(s) => r matches Ok(v) && v@ == s,
            None => r is Err,
        },
{
    let mut out = Vec::new();
    let mut dec = flate2::read::GzDecoder::new(b);
    std::io::Read::read_to_end(&mut dec, &mut out).map(|_| out)
}

/// Relies on flate2::read::ZlibDecoder over a byte slice, read to its end:
/// whether it fails and what it decodes depend on the stream alone.
#[verifier::external_body]
fn zlib_inflate(b: &[u8]) -> (r: Result<Vec<u8>, std::io::Error>)
    ensures
        match zlib_inflated(b@) {
            Some(s) => r matches Ok(v) && v@ == s,
            None => r is Err,
        },
{
    let mut out = Vec::new();
    let mut dec = flate2::read::ZlibDecoder::new(b);
    std::io::Read::read_to_end(&mut dec, &mut out).map(|_| out)
}

/// Relies on flate2::write::GzEncoder at the default level, writing into a
/// `Vec`: whether it fails and its stream depend on the bytes alone (the
/// header carries no time and a fixed system byte).
#[verifier::external_body]
fn gzip(b: &[u8]) -> (r: Result<Vec<u8>, std::io::Error>)
    ensures
        match gzipped(b@) {
            Some(s) => r matches Ok(v) && v@ == s,
            None => r is Err,
        },
{
    let mut enc = flate2::write::GzEncoder::new(Vec::new(), flate2::Compression::default());
    std::io::Write::write_all(&mut enc, b)?;
    enc.finish()
}

/// Relies on flate2::write::ZlibEncoder at the default level, writing into a
/// `Vec`: whether it fails and its stream depend on the bytes alone.
#[verifier::external_body]
fn zlib_deflate(b: &[u8]) -> (r: Result<Vec<u8>, std::io::Error>)
    ensures
        match zlib_deflated(b@) {
            Some(s) => r matches Ok(v) && v@ == s,
            None => r is Err,
        },
{
    let mut enc = flate2::write::ZlibEncoder::new(Vec::new(), flate2::Compression::default());
    std::io::Write::write_all(&mut enc, b)?;
    enc.finish()
}

/// The bytes inside `b` under `c`, or `None` where the stream does not decode.
pub open spec fn decompressed(b: Seq<u8>, c: Compression) -> Option<Seq<u8>> {
    match c {
        Compression::Uncompressed => Some(b),
        Compression::Gzip => gunzipped(b),
        Compression::Zlib => zlib_inflated(b),
    }
}

/// The bytes that carry `b` under `c`, or `None` where the encoder fails.
pub open spec fn compressed(b: Seq<u8>, c: Compression) -> Option<Seq<u8>> {
    match c {
        Compression::Uncompressed => Some(b),
        Compression::Gzip => gzipped(b),
        Compression::Zlib => zlib_deflated(b),
    }
}

/// Removes the compression `compression` from `data`. A stream that does not
/// decode gives `IoError`.
pub fn decompress(data: &[u8], compression: Compression) -> (r: Result<Vec<u8>, NbtError>)
    ensures
        match decompressed(data@, compression) {
            Some(s) => r matches Ok(v) && v@ == s,
            None => r matches Err(e) && e is IoError,
        },
{
    let out = match compression {
        Compression::Uncompressed => Ok(vstd::slice::slice_to_vec(data)),
        Compression::Gzip => gunzip(data),
        Compression::Zlib => zlib_inflate(data),
    };
    match out {
        Ok(v) => Ok(v),
        Err(e) => Err(NbtError::IoError(e)),
    }
}

/// Wraps `data` in the compression `compression`. An encoder failure gives
/// `IoError`.
pub fn compress(data: &[u8], compression: Compression) -> (r: Result<Vec<u8>, NbtError>)
    ensures
        match compressed(data@, compression) {
            Some(s) => r matches Ok(v) && v@ == s,
            None => r matches Err(e) && e is IoError,
        },
{
    let out = match compression {
        Compression::Uncompressed => Ok(vstd::slice::slice_to_vec(data)),
        Compression::Gzip => gzip(data),
        Compression::Zlib => zlib_deflate(data),
    };
    match out {
        Ok(v) => Ok(v),
        Err(e) => Err(NbtError::IoError(e)),
    }
}

} // verus!
