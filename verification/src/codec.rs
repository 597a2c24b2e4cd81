//! Whole-payload compression with an embedded content checksum.

use std::io::Write;
use vstd::prelude::*;

verus! {

/// The error the compression library reports; nothing is read out of it.
#[verifier::external_type_specification]
#[verifier::external_body]
pub struct ExIoError(std::io::Error);

/// Why a payload could not be compressed or restored.
#[derive(Debug, Clone, Copy, PartialEq, Eq, Structural)]
pub enum CodecError {
    /// The stream is truncated, malformed, or fails its checksum.
    CorruptStream,
    /// The encoder reported an error while producing the stream.
    EncoderFailed,
}

/// What the `zstd` crate's stream encoder writes for `data` at `level`: the
/// zstd frame, content checksum included, or `None` where the encoder reports
/// an error.
pub uninterp spec fn zstd_frame(data: Seq<u8>, level: int) -> Option<Seq<u8>>;

/// What the `zstd` crate's decoder reads out of `bytes`: the restored payload,
/// or `None` where it rejects the stream.
pub uninterp spec fn zstd_unframe(bytes: Seq<u8>) -> Option<Seq<u8>>;

/// What compressing `data` at `level` returns: the frame the encoder writes
/// for that input, which restores to `data`, or `EncoderFailed` where the
/// encoder reports an error.
pub open spec fn compress_outcome(data: Seq<u8>, level: int, r: Result<Vec<u8>, CodecError>) -> bool {
    match zstd_frame(data, level) {
        Some(frame) => r matches Ok(out) && out@ == frame && zstd_unframe(frame) == Some(data),
        None => r == Err::<Vec<u8>, CodecError>(CodecError::EncoderFailed),
    }
}

/// What decompressing `bytes` returns: the payload the decoder restores, or
/// `CorruptStream` where it rejects the stream.
pub open spec fn decompress_outcome(bytes: Seq<u8>, r: Result<Vec<u8>, CodecError>) -> bool {
    match zstd_unframe(bytes) {
        Some(payload) => r matches Ok(out) && out@ == payload,
        None => r == Err::<Vec<u8>, CodecError>(CodecError::CorruptStream),
    }
}

/// Runs `zstd::stream::Encoder` over `data`: `new` at `level`,
/// `include_checksum(true)`, one `write_all`, then `finish`. The outcome is the
/// one named by `zstd_frame`, a function of the data and the level alone: an
/// error stands for the encoder's refusal. The bytes of a frame are such that
/// the crate's decoder restores `data` from them.
#[verifier::external_body]
fn zstd_encode(data: &[u8], level: i32) -> (r: Result<Vec<u8>, std::io::Error>)
    ensures
        match r {
            Ok(out) => zstd_frame(data@, level as int) == Some(out@) && zstd_unframe(out@) == Some(
                data@,
            ),
            Err(_) => zstd_frame(data@, level as int) is None,
        },
{
    let mut enc = zstd::stream::Encoder::new(Vec::new(), level)?;
    enc.include_checksum(true)?;
    enc.write_all(data)?;
    enc.finish()
}

/// Calls `zstd::stream::decode_all`, which decodes every frame of `data` and
/// verifies a frame's checksum where it carries one. The outcome is the one
/// named by `zstd_unframe`: an error stands for a rejected stream.
#[verifier::external_body]
fn zstd_decode(data: &[u8]) -> (r: Result<Vec<u8>, std::io::Error>)
    ensures
        match r {
            Ok(out) => zstd_unframe(data@) == Some(out@),
            Err(_) => zstd_unframe(data@) is None,
        },
{
    zstd::stream::decode_all(data)
}

/// Turns the encoder's outcome into the codec's: the bytes pass through, any
/// error becomes `EncoderFailed`.
pub fn encoded_or_failed(outcome: Result<Vec<u8>, std::io::Error>) -> (r: Result<
    Vec<u8>,
    CodecError,
>)
    ensures
        match outcome {
            Ok(bytes) => r == Ok::<Vec<u8>, CodecError>(bytes),
            Err(_) => r == Err::<Vec<u8>, CodecError>(CodecError::EncoderFailed),
        },
{
    match outcome {
        Ok(bytes) => Ok(bytes),
        Err(_) => Err(CodecError::EncoderFailed),
    }
}

/// Turns the decoder's outcome into the codec's: the payload passes through,
/// any error becomes `CorruptStream`.
pub fn decoded_or_corrupt(outcome: Result<Vec<u8>, std::io::Error>) -> (r: Result<
    Vec<u8>,
    CodecError,
>)
    ensures
        match outcome {
            Ok(bytes) => r == Ok::<Vec<u8>, CodecError>(bytes),
            Err(_) => r == Err::<Vec<u8>, CodecError>(CodecError::CorruptStream),
        },
{
    match outcome {
        Ok(bytes) => Ok(bytes),
        Err(_) => Err(CodecError::CorruptStream),
    }
}

/// Compresses `data` into a self-describing stream that carries a checksum of
/// its content.
pub fn compress_zstd(data: &[u8], level: i32) -> (r: Result<Vec<u8>, CodecError>)
    ensures
        compress_outcome(data@, level as int, r),
{
    encoded_or_failed(zstd_encode(data, level))
}

/// Restores the payload of a compressed stream, validating its checksum.
pub fn decompress_zstd(data: &[u8]) -> (r: Result<Vec<u8>, CodecError>)
    ensures
        decompress_outcome(data@, r),
{
    decoded_or_corrupt(zstd_decode(data))
}

/// Decompressing what compression produced gives the input back: whenever
/// compressing `data` succeeds with `packed`, decompressing `packed` succeeds
/// with `data`. Compressing succeeds exactly where the encoder writes a frame.
pub proof fn lemma_decompress_inverts_compress(
    data: Seq<u8>,
    level: int,
    packed: Result<Vec<u8>, CodecError>,
    restored: Result<Vec<u8>, CodecError>,
)
    requires
        compress_outcome(data, level, packed),
        packed matches Ok(bytes) ==> decompress_outcome(bytes@, restored),
    ensures
        packed is Ok <==> zstd_frame(data, level) is Some,
        packed matches Err(e) ==> e == CodecError::EncoderFailed,
        packed is Ok ==> (restored matches Ok(out) && out@ == data),
{
}

/// Decompression fails in one way only: whatever the bytes, an error it
/// returns is `CorruptStream`, and a payload it returns is the one the decoder
/// restores from exactly those bytes.
pub proof fn lemma_decompress_fails_as_corrupt(bytes: Seq<u8>, r: Result<Vec<u8>, CodecError>)
    requires
        decompress_outcome(bytes, r),
    ensures
        r matches Err(e) ==> e == CodecError::CorruptStream,
        r matches Ok(out) ==> zstd_unframe(bytes) == Some(out@),
{
}

} // verus!
