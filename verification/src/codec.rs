//! Raw deflate (RFC 1951) compression of request and message bodies,
//! through the `flate2` crate.
use vstd::prelude::*;
use std::io::{Read, Write};

verus! {

#[verifier::external_type_specification]
#[verifier::external_body]
pub struct ExIoError(std::io::Error);

/// What `flate2`'s raw deflate decoder reads out of `data` to its end, or
/// none when it reports the data as corrupt.
pub uninterp spec fn inflated(data: Seq<u8>) -> Option<Seq<u8>>;

/// Reads `data` to its end through `flate2::read::DeflateDecoder`: the
/// decompressed bytes, or the error that stopped the decoder.
#[verifier::external_body]
pub(crate) fn inflate(data: &[u8]) -> (r: Result<Vec<u8>, std::io::Error>)
    ensures
        r is Ok <==> inflated(data@) is Some,
        r matches Ok(v) ==> inflated(data@) == Some(v@),
{
    let mut decoder = flate2::read::DeflateDecoder::new(data);
    let mut out = Vec::new();
    decoder.read_to_end(&mut out).map(|_| out)
}

/// The message of an I/O error (`ToString::to_string`). Nothing is promised
/// of the text.
#[verifier::external_body]
pub(crate) fn io_error_text(e: &std::io::Error) -> String {
    e.to_string()
}

/// The raw deflate stream `flate2` produces for `data` at its fast
/// compression level.
pub uninterp spec fn deflated(data: Seq<u8>) -> Seq<u8>;

/// Compresses `data` through `flate2::write::DeflateEncoder` at
/// `Compression::fast()` (`write_all`, then `finish`). Deflate is
/// lossless: the stream inflates back to `data`. Writing into a `Vec` does
/// not fail: the `Vec` takes every byte, and compressing a buffer in memory
/// yields no error status from the encoder.
#[verifier::external_body]
pub(crate) fn deflate(data: &[u8]) -> (r: Result<Vec<u8>, std::io::Error>)
    ensures
        r is Ok,
        r matches Ok(v) ==> v@ == deflated(data@) && inflated(v@) == Some(data@),
{
    let mut encoder = flate2::write::DeflateEncoder::new(Vec::new(), flate2::Compression::fast());
    encoder.write_all(data)?;
    encoder.finish()
}

} // verus!
