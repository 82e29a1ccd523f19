//! The checksum and compression services, provided by the `crc` and
//! `miniz_oxide` crates.

use vstd::prelude::*;

verus! {

/// CRC-32 (ISO-HDLC, the zlib polynomial) of a byte sequence.
pub uninterp spec fn crc32_of(data: Seq<u8>) -> u32;

/// zlib stream that deflating a byte sequence at level 8 gives.
pub uninterp spec fn zlib_deflated(data: Seq<u8>) -> Seq<u8>;

/// What inflating a zlib stream gives, or `None` where it is not one.
pub uninterp spec fn zlib_inflated(data: Seq<u8>) -> Option<Seq<u8>>;

/// Relies on `crc::Crc::<u32>::checksum` with `CRC_32_ISO_HDLC`: the
/// checksum depends on the bytes alone.
#[verifier::external_body]
pub(crate) fn crc32(data: &[u8]) -> (r: u32)
    ensures
        r == crc32_of(data@),
{
    crc::Crc::<u32>::new(&crc::CRC_32_ISO_HDLC).checksum(data)
}

/// Relies on `miniz_oxide::deflate::compress_to_vec_zlib` at level 8: the
/// output depends on the input alone, and, deflate being lossless,
/// inflating it gives the input back.
#[verifier::external_body]
pub(crate) fn zlib_deflate(data: &[u8]) -> (r: Vec<u8>)
    ensures
        r@ == zlib_deflated(data@),
        zlib_inflated(r@) == Some(data@),
{
    miniz_oxide::deflate::compress_to_vec_zlib(data, 8)
}

/// The error `miniz_oxide` reports when a stream does not inflate.
#[verifier::external_type_specification]
#[verifier::external_body]
pub struct ExDecompressError(miniz_oxide::inflate::DecompressError);

/// Relies on `miniz_oxide::inflate::decompress_to_vec_zlib`: it succeeds
/// exactly on a valid zlib stream and returns what it decodes to.
#[verifier::external_body]
pub(crate) fn zlib_inflate(data: &[u8]) -> (r: Result<Vec<u8>, miniz_oxide::inflate::DecompressError>)
    ensures
        match r {
            Ok(v) => zlib_inflated(data@) == Some(v@),
            Err(_) => zlib_inflated(data@) is None,
        },
{
    miniz_oxide::inflate::decompress_to_vec_zlib(data)
}

} // verus!
