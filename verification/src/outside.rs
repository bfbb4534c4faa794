//! The trusted boundary: the few calls into outside crates and into
//! parts of the standard library that the verifier has no specification
//! for.  Each item's contract states only what the called code's source
//! or documentation plainly shows.

use vstd::prelude::*;

use crate::model::StoreError;

verus! {

/// What the zstd decoder returns for a byte stream: the decompressed
/// bytes, or nothing when the stream is not a readable frame.  Decoding
/// depends on the bytes alone.
pub uninterp spec fn zstd_decode_of(bytes: Seq<u8>) -> Option<Seq<u8>>;

/// Whether the zstd encoder accepts the given bytes; for an in-memory
/// buffer the outcome depends on the bytes alone.
pub uninterp spec fn zstd_encode_ok(bytes: Seq<u8>) -> bool;

/// Relies on zstd::stream::encode_all: compression is lossless, so the
/// decoder gives the input back from whatever frame the encoder built,
/// and encoding an in-memory buffer succeeds or fails by the bytes
/// alone.
#[verifier::external_body]
pub(crate) fn zstd_compress(data: &Vec<u8>) -> (r: Result<Vec<u8>, StoreError>)
    ensures
        r is Ok <==> zstd_encode_ok(data@),
        r matches Ok(v) ==> zstd_decode_of(v@) == Some(data@),
        r matches Err(e) ==> e == StoreError::Io,
{
    zstd::stream::encode_all(data.as_slice(), 3).map_err(|_| StoreError::Io)
}

/// Relies on zstd::stream::decode_all: decompression is a pure function
/// of the input bytes, failing exactly on streams that are not valid
/// frames.
#[verifier::external_body]
pub(crate) fn zstd_decompress(data: &Vec<u8>) -> (r: Result<Vec<u8>, StoreError>)
    ensures
        r matches Ok(v) ==> zstd_decode_of(data@) == Some(v@),
        r is Err ==> zstd_decode_of(data@) is None,
        r matches Err(e) ==> e == StoreError::CorruptArchive,
{
    zstd::stream::decode_all(data.as_slice()).map_err(|_| StoreError::CorruptArchive)
}

/// Whether the raster decoder accepts the given bytes; decoding depends
/// on the bytes alone.
pub uninterp spec fn image_decodable(bytes: Seq<u8>) -> bool;

#[verifier::external_type_specification]
#[verifier::external_body]
pub struct ExDynamicImage(image::DynamicImage);

/// Relies on image::load_from_memory: decoding a raster from bytes is a
/// pure function of the bytes, succeeding exactly when their format is
/// readable.
#[verifier::external_body]
pub(crate) fn decode_image(bytes: &Vec<u8>) -> (r: Result<image::DynamicImage, StoreError>)
    ensures
        r is Ok <==> image_decodable(bytes@),
        r matches Err(e) ==> e == StoreError::BadImage,
{
    image::load_from_memory(bytes.as_slice()).map_err(|_| StoreError::BadImage)
}

/// Relies on uuid::Uuid::new_v4 and its display form: a fresh random
/// identifier, rendered as the 36-character hyphenated text form.
/// Nothing more is promised of a random value.
#[verifier::external_body]
pub(crate) fn new_uuid_string() -> (r: String)
    ensures
        r@.len() == 36,
{
    uuid::Uuid::new_v4().to_string()
}

/// Relies on String::from_utf8: succeeds exactly on valid UTF-8 and
/// decodes it.
#[verifier::external_body]
pub(crate) fn string_from_utf8(bytes: Vec<u8>) -> (r: Option<String>)
    ensures
        r matches Some(s) ==> vstd::utf8::valid_utf8(bytes@) && s@ == vstd::utf8::decode_utf8(
            bytes@,
        ),
        r is None ==> !vstd::utf8::valid_utf8(bytes@),
{
    match String::from_utf8(bytes) {
        Ok(s) => Some(s),
        Err(_) => None,
    }
}

} // verus!
