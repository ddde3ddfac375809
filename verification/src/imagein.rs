//! The uploaded photo as pixels: the image crate decodes PNG or JPEG bytes
//! and applies the Exif orientation that phones record in place of turning
//! the picture, giving RGBA pixels row by row.
use vstd::prelude::*;
use image::ImageDecoder;

verus! {

/// Why the photo could not be decoded, with the image crate's message.
#[derive(Clone, Debug)]
pub enum ImageDecodeError {
    /// The format could not be told from the bytes.
    FormatGuess(String),
    /// No decoder could be set up for the format.
    DecoderInit(String),
    /// The decoder failed on the data.
    Decode(String),
}

/// What the image crate decodes from `bytes`, the Exif orientation applied:
/// the RGBA pixels row by row, the width and the height; `None` when the
/// bytes cannot be decoded.
pub uninterp spec fn decoded_rgba_of(bytes: Seq<u8>) -> Option<(Seq<u8>, u32, u32)>;

/// image's `ImageReader::new` over the bytes with `with_guessed_format`, then
/// `into_decoder`, the decoder's Exif `orientation` (none when it has none or
/// cannot read it), `DynamicImage::from_decoder`, `apply_orientation` and
/// `into_rgba8`; each `ImageError` turned into the matching
/// `ImageDecodeError` with its message. Claimed: the pixels, width and
/// height are `decoded_rgba_of(bytes)`, a function of the bytes alone (the
/// PNG and JPEG decoders are deterministic, their vector code paths
/// computing the same integers as the scalar ones), it fails exactly when
/// that is `None`, and decoded pixels are four bytes for each of `w * h`
/// pixels (`into_rgba8` gives an `ImageBuffer` of that size).
#[verifier::external_body]
fn decode_image_bytes(bytes: &[u8]) -> (r: Result<(Vec<u8>, u32, u32), ImageDecodeError>)
    ensures
        (r is Ok) == (decoded_rgba_of(bytes@) is Some),
        r matches Ok((px, w, h)) ==> decoded_rgba_of(bytes@) == Some((px@, w, h)),
        r matches Ok((px, w, h)) ==> px@.len() == 4 * (w as int) * (h as int),
{
    let reader = image::ImageReader::new(std::io::Cursor::new(bytes))
        .with_guessed_format()
        .map_err(|e| ImageDecodeError::FormatGuess(format!("{e}")))?;
    let mut decoder = reader.into_decoder().map_err(|e| ImageDecodeError::DecoderInit(format!("{e}")))?;
    let orientation = decoder.orientation().unwrap_or(image::metadata::Orientation::NoTransforms);
    let mut img = image::DynamicImage::from_decoder(decoder).map_err(|e| ImageDecodeError::Decode(format!("{e}")))?;
    img.apply_orientation(orientation);
    let rgba = img.into_rgba8();
    let (w, h) = rgba.dimensions();
    Ok((rgba.into_raw(), w, h))
}

/// Decodes an uploaded photo (PNG or JPEG bytes) into RGBA pixels with its
/// width and height, the Exif orientation applied; the pixels are four bytes
/// for each of `width * height` pixels, row by row. The reason, with the
/// decoder's message, when the bytes cannot be decoded; the outcome is
/// `decoded_rgba_of(bytes)`.
pub fn decode_oriented_rgba(bytes: &[u8]) -> (r: Result<(Vec<u8>, u32, u32), ImageDecodeError>)
    ensures
        (r is Ok) == (decoded_rgba_of(bytes@) is Some),
        r matches Ok((px, w, h)) ==> decoded_rgba_of(bytes@) == Some((px@, w, h)),
        r matches Ok((px, w, h)) ==> px@.len() == 4 * (w as int) * (h as int),
{
    decode_image_bytes(bytes)
}

} // verus!
