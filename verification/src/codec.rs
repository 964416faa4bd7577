//! The two things that are left to the `image` crate: reading a picture out
//! of an encoded file, and resampling a picture to another size.
//!
//! Neither is proved here. Each call stands behind one function whose
//! contract says what is taken on trust, and gives what the call returns a
//! name, so that the verified code around it can say exactly what it does
//! with the result.

use vstd::prelude::*;
use crate::bitmap::{Bitmap, Channels, RawImage};

verus! {

#[verifier::external_type_specification]
#[verifier::external_body]
pub struct ExImageError(image::ImageError);

/// The picture that `image::load_from_memory` reads out of the bytes of an
/// encoded file, eight bits to the sample: gray where the file holds
/// eight-bit gray, RGB for everything else. `None` where it reads none.
pub uninterp spec fn decoded(bytes: Seq<u8>) -> Option<Bitmap>;

/// The picture that `image::DynamicImage::resize` makes of an RGB picture
/// with the Lanczos filter of radius three, for a box of `nwidth` by
/// `nheight` that is not the picture's own size.
pub uninterp spec fn lanczos3_resized(source: Bitmap, nwidth: u32, nheight: u32) -> Bitmap;

/// A picture as the decoder hands it over, before anything is known of it.
pub struct Decoded {
    pub width: u32,
    pub height: u32,
    pub channels: Channels,
    pub samples: Vec<u8>,
}

impl View for Decoded {
    type V = Bitmap;

    open spec fn view(&self) -> Bitmap {
        Bitmap {
            width: self.width as nat,
            height: self.height as nat,
            depth: self.channels.count(),
            samples: self.samples@,
        }
    }
}

/// Calls `image::load_from_memory`, which guesses the format from the first
/// bytes and decodes, and copies the result out as plain samples: as gray for
/// the variant of eight-bit gray, through `into_rgb8` for every other one.
///
/// Taken on trust: the call succeeds or fails, and returns what it returns,
/// by the bytes alone.
#[verifier::external_body]
pub(crate) fn load_from_memory(bytes: &[u8]) -> (r: Result<Decoded, image::ImageError>)
    ensures
        r is Ok <==> decoded(bytes@) is Some,
        r matches Ok(picture) ==> decoded(bytes@) == Some(picture@),
{
    let picture = image::load_from_memory(bytes)?;
    let (width, height) = (picture.width(), picture.height());
    let (channels, samples) = match picture {
        image::DynamicImage::ImageLuma8(gray) => (Channels::Gray, gray.into_raw()),
        other => (Channels::Rgb, other.into_rgb8().into_raw()),
    };
    Ok(Decoded { width, height, channels, samples })
}

/// Calls `to_string` on the decoder's error. Nothing is claimed of the text.
#[verifier::external_body]
pub(crate) fn describe(error: &image::ImageError) -> (text: String) {
    error.to_string()
}

/// Calls `image::DynamicImage::resize` on an RGB picture with the Lanczos
/// filter of radius three.
///
/// Taken on trust, as the crate documents and its source shows: a box of the
/// picture's own size gives the picture back unchanged; the result is an RGB
/// picture of at least one pixel that fits within the box; and it depends on
/// the picture and the box alone. Room for the buffers is assumed to be
/// there, as it is for every vector.
#[verifier::external_body]
pub(crate) fn lanczos3_fit(source: &RawImage, nwidth: u32, nheight: u32) -> (r: RawImage)
    requires
        source@.depth == 3,
        source@.inhabited(),
        nwidth >= 1,
        nheight >= 1,
    ensures
        r@ == (if nwidth == source@.width && nheight == source@.height {
            source@
        } else {
            lanczos3_resized(source@, nwidth, nheight)
        }),
        r@.wf(),
        r@.depth == 3,
        1 <= r@.width <= nwidth,
        1 <= r@.height <= nheight,
{
    let samples = source.samples.clone();
    let buffer = image::RgbImage::from_raw(source.width, source.height, samples).unwrap();
    let filter = image::imageops::FilterType::Lanczos3;
    let resized = image::DynamicImage::ImageRgb8(buffer).resize(nwidth, nheight, filter).into_rgb8();
    let (width, height) = (resized.width(), resized.height());
    RawImage { width, height, channels: Channels::Rgb, samples: resized.into_raw() }
}

} // verus!
