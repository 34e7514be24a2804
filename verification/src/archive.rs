//! Decompression of stored fixtures and baselines.

use vstd::prelude::*;
use crate::error::HarnessError;

verus! {

/// `std::io::Error`, the error of `zstd::decode_all`. Nothing is read of it.
#[verifier::external_type_specification]
#[verifier::external_body]
pub struct ExIoError(std::io::Error);

/// What decoding `data` as a sequence of zstd frames yields: the content, or
/// `None` where the stream is truncated or malformed.
pub uninterp spec fn zstd_decoded(data: Seq<u8>) -> Option<Seq<u8>>;

/// `zstd::decode_all` on a byte slice. Trusted: the call returns the decoded
/// content, or an error where the stream cannot be decoded, and the outcome
/// depends on the input bytes alone.
#[verifier::external_body]
fn zstd_decode_all(data: &[u8]) -> (r: Result<Vec<u8>, std::io::Error>)
    ensures
        match r {
            Ok(raw) => zstd_decoded(data@) == Some(raw@),
            Err(_) => zstd_decoded(data@) is None,
        },
{
    zstd::decode_all(data)
}

/// What `decompress` returns for a stream that decodes to `decoded`.
pub open spec fn decompressed(decoded: Option<Seq<u8>>, r: Result<Vec<u8>, HarnessError>) -> bool {
    match decoded {
        Some(raw) => r is Ok && r->Ok_0@ == raw,
        None => r is Err && r->Err_0 is CorruptArchive,
    }
}

/// Wraps the outcome of decoding: the content, or `CorruptArchive`.
pub fn decoded_content(outcome: Option<Vec<u8>>) -> (r: Result<Vec<u8>, HarnessError>)
    ensures
        decompressed(
            match outcome {
                Some(raw) => Some(raw@),
                None => None,
            },
            r,
        ),
{
    match outcome {
        Some(raw) => Ok(raw),
        None => Err(HarnessError::CorruptArchive),
    }
}

/// Decompresses a stored blob, of a fixture or of a baseline alike.
/// Fails with `CorruptArchive` exactly when the stream cannot be decoded.
pub fn decompress(bytes: &[u8]) -> (r: Result<Vec<u8>, HarnessError>)
    ensures
        decompressed(zstd_decoded(bytes@), r),
{
    match zstd_decode_all(bytes) {
        Ok(raw) => decoded_content(Some(raw)),
        Err(_) => decoded_content(None),
    }
}

} // verus!
