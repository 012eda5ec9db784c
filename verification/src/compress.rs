use vstd::prelude::*;
use vstd::utf8::{encode_utf8, valid_utf8};
use std::io::{Read, Write};

verus! {

/// The LZ4 frame that the `lz4` crate's encoder makes of `data`, with no
/// content checksum, the default block size and linked blocks; `None` where
/// the encoder reports an error.
pub uninterp spec fn lz4_frame(data: Seq<u8>) -> Option<Seq<u8>>;

/// What the `lz4` crate's decoder makes of an LZ4 frame; `None` where the
/// decoder reports an error, while it reads or when it is asked whether the
/// frame was complete.
pub uninterp spec fn lz4_unframe(data: Seq<u8>) -> Option<Seq<u8>>;

/// The Zstandard frame that the `zstd` crate's encoder makes of `data` at
/// level 5; `None` where the encoder reports an error.
pub uninterp spec fn zstd_frame(data: Seq<u8>) -> Option<Seq<u8>>;

/// What the `zstd` crate's decoder makes of a Zstandard frame; `None` where
/// the decoder reports an error.
pub uninterp spec fn zstd_unframe(data: Seq<u8>) -> Option<Seq<u8>>;

/// Runs `lz4::EncoderBuilder` (no content checksum, default block size,
/// linked blocks) and `lz4::Encoder` over `data`. The result is the frame
/// named `lz4_frame`. LZ4 is lossless: the frame that the encoder made of
/// `data` decodes to `data`.
#[verifier::external_body]
pub(crate) fn lz4_compress(data: &[u8]) -> (r: Option<Vec<u8>>)
    ensures
        match r {
            Some(out) => lz4_frame(data@) == Some(out@) && lz4_unframe(out@) == Some(data@),
            None => lz4_frame(data@) is None,
        },
{
    let mut co = lz4::EncoderBuilder::new()
        .checksum(lz4::ContentChecksum::NoChecksum)
        .block_size(lz4::BlockSize::Default)
        .block_mode(lz4::BlockMode::Linked)
        .build(Vec::new())
        .ok()?;
    co.write_all(data).ok()?;
    let (out, res) = co.finish();
    res.ok()?;
    Some(out)
}

/// Runs `lz4::Decoder` over `data` to its end and asks it with `finish`
/// whether the frame was complete. The result is the one named
/// `lz4_unframe`.
#[verifier::external_body]
pub(crate) fn lz4_decompress(data: &[u8]) -> (r: Option<Vec<u8>>)
    ensures
        match r {
            Some(out) => lz4_unframe(data@) == Some(out@),
            None => lz4_unframe(data@) is None,
        },
{
    let mut d = lz4::Decoder::new(data).ok()?;
    let mut out: Vec<u8> = Vec::new();
    d.read_to_end(&mut out).ok()?;
    d.finish().1.ok()?;
    Some(out)
}

/// Runs `zstd::stream::Encoder` at level 5 over `data`. The result is the
/// frame named `zstd_frame`. Zstandard is lossless: the frame that the
/// encoder made of `data` decodes to `data`.
#[verifier::external_body]
pub(crate) fn zstd_compress(data: &[u8]) -> (r: Option<Vec<u8>>)
    ensures
        match r {
            Some(out) => zstd_frame(data@) == Some(out@) && zstd_unframe(out@) == Some(data@),
            None => zstd_frame(data@) is None,
        },
{
    let mut encoder = zstd::stream::Encoder::new(Vec::new(), 5).ok()?;
    encoder.write_all(data).ok()?;
    encoder.finish().ok()
}

/// Runs `zstd::stream::Decoder` over `data` to its end. The result is the
/// one named `zstd_unframe`.
#[verifier::external_body]
pub(crate) fn zstd_decompress(data: &[u8]) -> (r: Option<Vec<u8>>)
    ensures
        match r {
            Some(out) => zstd_unframe(data@) == Some(out@),
            None => zstd_unframe(data@) is None,
        },
{
    let mut d = zstd::stream::Decoder::new(data).ok()?;
    let mut out: Vec<u8> = Vec::new();
    d.read_to_end(&mut out).ok()?;
    Some(out)
}

/// `String::from_utf8`: a string whose UTF-8 encoding is the given bytes,
/// where they are valid UTF-8, and no string where they are not.
#[verifier::external_body]
pub(crate) fn string_from_utf8(bytes: Vec<u8>) -> (r: Option<String>)
    ensures
        r is Some <==> valid_utf8(bytes@),
        r matches Some(s) ==> encode_utf8(s@) == bytes@,
{
    String::from_utf8(bytes).ok()
}

} // verus!
