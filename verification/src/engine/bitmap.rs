//! Page images from the bytes an engine renders: RGBA bytes, RGB samples,
//! or an encoded image file.
use crate::engine::mupdf::{rgb_to_rgba, rgba_of_rgb};
use crate::engine::webview::{color_image_from_rgba, rgba_image};
use crate::engine::EngineError;
use egui::ColorImage;
use vstd::prelude::*;

verus! {

/// What `image::load_from_memory` followed by `to_rgba8` makes of an
/// encoded image: its width, its height and its RGBA bytes row by row;
/// `None` when decoding fails.
pub uninterp spec fn decoded_rgba8(bytes: Seq<u8>) -> Option<(u32, u32, Seq<u8>)>;

/// `image::load_from_memory(bytes)`, then `to_rgba8`: the decoded image's
/// width, height and RGBA bytes, or the decoder's error, formatted with
/// `{:?}`.  What that message says is left to the decoder.
#[verifier::external_body]
fn decode_rgba8(bytes: &[u8]) -> (r: Result<(u32, u32, Vec<u8>), String>)
    ensures
        r is Err <==> decoded_rgba8(bytes@) is None,
        r matches Ok(t) ==> decoded_rgba8(bytes@) == Some((t.0, t.1, t.2@)),
{
    match image::load_from_memory(bytes) {
        Ok(img) => {
            let rgba = img.to_rgba8();
            let (w, h) = rgba.dimensions();
            Ok((w, h, rgba.into_raw()))
        },
        Err(e) => Err(format!("{:?}", e)),
    }
}

/// `width * height * k`, when it fits in usize.
fn pixel_bytes(width: usize, height: usize, k: usize) -> (r: Option<usize>)
    requires
        k > 0,
    ensures
        match r {
            Some(n) => n == width * height * k,
            None => width * height * k > usize::MAX,
        },
{
    match width.checked_mul(height) {
        Some(p) => p.checked_mul(k),
        None => {
            assert(width * height * k >= width * height) by (nonlinear_arith)
                requires
                    k > 0,
            ;
            None
        },
    }
}

/// The image of `width` by `height` pixels given row by row as
/// unmultiplied RGBA bytes; an error when the bytes do not fill it.
pub fn image_from_rgba(width: usize, height: usize, rgba: &[u8]) -> (r: Result<ColorImage, EngineError>)
    ensures
        r is Ok <==> width * height * 4 == rgba@.len(),
        r matches Ok(img) ==> img == rgba_image(width, height, rgba@),
        r matches Err(e) ==> e is ImageSize,
{
    assert(rgba@.len() == rgba.len());
    match pixel_bytes(width, height, 4) {
        Some(n) => if n == rgba.len() {
            Ok(color_image_from_rgba(width, height, rgba))
        } else {
            Err(EngineError::ImageSize)
        },
        None => Err(EngineError::ImageSize),
    }
}

/// The image of `width` by `height` pixels given row by row as RGB samples,
/// each pixel made opaque; an error when the samples do not fill it.
pub fn rgb_samples_image(width: usize, height: usize, samples: &[u8]) -> (r: Result<
    ColorImage,
    EngineError,
>)
    ensures
        r is Ok <==> samples@.len() == width * height * 3,
        r matches Ok(img) ==> img == rgba_image(width, height, rgba_of_rgb(samples@)),
        r matches Err(e) ==> e is ImageSize,
{
    assert(samples@.len() == samples.len());
    match pixel_bytes(width, height, 3) {
        Some(n) => if n == samples.len() {
            let rgba = rgb_to_rgba(samples);
            assert(rgba@.len() == width * height * 4) by (nonlinear_arith)
                requires
                    rgba@.len() == samples@.len() / 3 * 4,
                    samples@.len() == width * height * 3,
            ;
            Ok(color_image_from_rgba(width, height, rgba.as_slice()))
        } else {
            Err(EngineError::ImageSize)
        },
        None => Err(EngineError::ImageSize),
    }
}

/// The image an encoded page (an image file's bytes) decodes to; the
/// decoder's message when it cannot be decoded, and an error when the
/// decoded bytes do not fill the decoded size.
pub fn decode_page_image(encoded: &[u8]) -> (r: Result<ColorImage, EngineError>)
    ensures
        r is Ok <==> (decoded_rgba8(encoded@) matches Some(t) && t.2.len() == t.0 * t.1 * 4),
        r matches Ok(img) ==> (decoded_rgba8(encoded@) matches Some(t) && img == rgba_image(
            t.0 as usize,
            t.1 as usize,
            t.2,
        )),
        r matches Err(e) ==> (e is Decode <==> decoded_rgba8(encoded@) is None),
        r matches Err(e) ==> (e is Decode || e is ImageSize),
{
    match decode_rgba8(encoded) {
        Ok((w, h, rgba)) => image_from_rgba(w as usize, h as usize, rgba.as_slice()),
        Err(msg) => Err(EngineError::Decode(msg)),
    }
}

} // verus!
