//! The image encoder, which this library calls and does not implement.

use vstd::prelude::*;

verus! {

/// The error type of the `png` crate's encoder. Its content is not looked at.
#[verifier::external_type_specification]
#[verifier::external_body]
pub struct ExEncodingError(png::EncodingError);

/// The PNG file that the `png` crate's encoder makes of a canvas of `width`
/// by `height` pixels, given row after row as three bytes per pixel, or
/// nothing where the encoder refuses it.
pub uninterp spec fn png_rgb8(width: u32, height: u32, data: Seq<u8>) -> Option<Seq<u8>>;

/// Encodes a canvas as a PNG image of eight bits for each of red, green and
/// blue.
///
/// Trusted: this is `png::Encoder::new` on a buffer in memory, with
/// `set_color(Rgb)`, `set_depth(Eight)`, `write_header`, then
/// `Writer::write_image_data` and `Writer::finish`. The contract claims only
/// that the outcome is a function of the size and the pixels: the encoder
/// keeps its default settings and reads nothing else.
#[verifier::external_body]
pub(crate) fn encode_rgb8(width: u32, height: u32, data: &Vec<u8>) -> (r: Result<
    Vec<u8>,
    png::EncodingError,
>)
    requires
        data@.len() == 3 * width * height,
    ensures
        match r {
            Ok(bytes) => png_rgb8(width, height, data@) == Some(bytes@),
            Err(_) => png_rgb8(width, height, data@) is None,
        },
{
    let mut buffer = Vec::new();
    let mut encoder = png::Encoder::new(std::io::Cursor::new(&mut buffer), width, height);
    encoder.set_color(png::ColorType::Rgb);
    encoder.set_depth(png::BitDepth::Eight);
    let mut writer = encoder.write_header()?;
    writer.write_image_data(data)?;
    writer.finish()?;
    Ok(buffer)
}

} // verus!
