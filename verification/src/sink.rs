//! The finished buffer as a grayscale PNG file's bytes.

use image::codecs::png::PngEncoder;
use image::ColorType;
use image::ImageEncoder;
use vstd::prelude::*;

verus! {

/// `image::ImageError`, the error of the `image` crate's encoders: carried
/// from the encoder to `file_bytes`, and never looked into.
#[verifier::external_type_specification]
#[verifier::external_body]
pub struct ExImageError(image::ImageError);

/// The bytes of the PNG file that the encoder of the `image` crate makes of
/// a buffer of 8-bit gray pixels of the given width and height, at its
/// default settings; `None` where the encoder refuses the image.
pub uninterp spec fn png_encoding(pixels: Seq<u8>, width: u32, height: u32) -> Option<Seq<u8>>;

/// Calls `PngEncoder::new` on an empty byte vector and `write_image` with
/// the color type `L8`. The encoder's result depends on its arguments alone,
/// and this contract only gives it its name: the file's bytes where the
/// encoder succeeds, nothing where it reports an error. `write_image` panics
/// unless the buffer has one byte for each pixel, hence the `requires`.
#[verifier::external_body]
fn encode_gray(pixels: &[u8], width: u32, height: u32) -> (r: Result<Vec<u8>, image::ImageError>)
    requires
        pixels@.len() == width * height,
    ensures
        match r {
            Ok(bytes) => png_encoding(pixels@, width, height) == Some(bytes@),
            Err(_) => png_encoding(pixels@, width, height) is None,
        },
{
    let mut bytes: Vec<u8> = Vec::new();
    match PngEncoder::new(&mut bytes).write_image(pixels, width, height, ColorType::L8) {
        Ok(()) => Ok(bytes),
        Err(e) => Err(e),
    }
}

/// Why an image could not be encoded.
#[derive(Clone, Copy, Debug, PartialEq, Eq, Structural)]
pub enum SinkError {
    /// The width or the height does not fit the 32 bits that the format has
    /// for it.
    TooLarge,
    /// The encoder refused the image.
    Refused,
}

/// Both sides of the image fit the 32 bits that a PNG file has for each.
pub open spec fn fits_png(bounds: (usize, usize)) -> bool {
    bounds.0 <= u32::MAX && bounds.1 <= u32::MAX
}

/// What `png_image` returns for a buffer and its bounds, given what the
/// encoder makes of them.
pub open spec fn png_image_spec(pixels: Seq<u8>, bounds: (usize, usize)) -> Result<
    Seq<u8>,
    SinkError,
> {
    if !fits_png(bounds) {
        Err(SinkError::TooLarge)
    } else {
        match png_encoding(pixels, bounds.0 as u32, bounds.1 as u32) {
            Some(bytes) => Ok(bytes),
            None => Err(SinkError::Refused),
        }
    }
}

/// Sorts out the encoder's answer: its bytes, or that it refused.
pub fn file_bytes(encoded: Result<Vec<u8>, image::ImageError>) -> (r: Result<Vec<u8>, SinkError>)
    ensures
        match encoded {
            Ok(bytes) => r == Ok::<Vec<u8>, SinkError>(bytes),
            Err(_) => r == Err::<Vec<u8>, SinkError>(SinkError::Refused),
        },
{
    match encoded {
        Ok(bytes) => Ok(bytes),
        Err(_) => Err(SinkError::Refused),
    }
}

/// The bytes of a grayscale PNG file that shows the row-major buffer
/// `pixels` as an image `bounds.0` wide and `bounds.1` high.
pub fn png_image(pixels: &[u8], bounds: (usize, usize)) -> (r: Result<Vec<u8>, SinkError>)
    requires
        pixels@.len() == bounds.0 * bounds.1,
    ensures
        match r {
            Ok(bytes) => png_image_spec(pixels@, bounds) == Ok::<Seq<u8>, SinkError>(bytes@),
            Err(e) => png_image_spec(pixels@, bounds) == Err::<Seq<u8>, SinkError>(e),
        },
{
    if bounds.0 > u32::MAX as usize || bounds.1 > u32::MAX as usize {
        return Err(SinkError::TooLarge);
    }
    file_bytes(encode_gray(pixels, bounds.0 as u32, bounds.1 as u32))
}

} // verus!
