//! From the bytes of an upload to the tensor that is fed to the model.
//!
//! The steps, in this order: decode; gray to RGB; for a picture more than
//! twice as high as wide, keep the middle four fifths of its rows; fit into
//! the box that the target size and the aspect ratio give; lay on a black
//! square canvas; hand the samples over as they are, from 0 to 255.

use vstd::prelude::*;
use crate::bitmap::{fit_bounds, resize_bounds, Bitmap, Channels, RawImage};
use crate::codec::{decoded, describe, lanczos3_fit, lanczos3_resized, load_from_memory};
use crate::error::PredictError;

verus! {

/// Side of the square that the model takes, in pixels.
pub const TARGET_SIZE: u32 = 600;

/// Samples per pixel of the tensor.
pub const TENSOR_CHANNELS: u32 = 3;

/// Number of values in a tensor: one picture of 600 by 600 pixels of three
/// samples.
pub const TENSOR_LENGTH: usize = 1_080_000;

/// The picture fitted into a box of `nwidth` by `nheight`: itself where the
/// box has its size, resampled otherwise.
pub open spec fn fitted(picture: Bitmap, nwidth: u32, nheight: u32) -> Bitmap {
    if nwidth == picture.width && nheight == picture.height {
        picture
    } else {
        lanczos3_resized(picture, nwidth, nheight)
    }
}

/// The picture, in RGB, fitted into the box that `resize_bounds` gives for
/// its size and the target.
pub open spec fn resized(picture: Bitmap, target: u32) -> Bitmap {
    let bounds = resize_bounds(picture.width, picture.height, target as nat);
    fitted(picture.to_rgb(), bounds.0 as u32, bounds.1 as u32)
}

/// The picture in RGB, cut to the middle four fifths of its rows where it is
/// more than twice as high as wide.
pub open spec fn straightened(picture: Bitmap) -> Bitmap {
    let rgb = picture.to_rgb();
    if rgb.is_tall() {
        rgb.center_crop_tall()
    } else {
        rgb
    }
}

/// The square canvas that a decoded picture ends on.
pub open spec fn squared(picture: Bitmap) -> Bitmap {
    resized(straightened(picture), TARGET_SIZE).padded(TARGET_SIZE as nat)
}

/// A decoded picture can be worked on: it has as many samples as its size
/// asks for, and at least one pixel.
pub open spec fn usable(picture: Bitmap) -> bool {
    picture.wf() && picture.inhabited()
}

/// The values of the tensor that the bytes of an upload lead to; `None`
/// where they hold no picture that can be worked on.
pub open spec fn preprocessed(bytes: Seq<u8>) -> Option<Seq<u8>> {
    match decoded(bytes) {
        Some(picture) => if usable(picture) {
            Some(squared(picture).samples)
        } else {
            None
        },
        None => None,
    }
}

/// The input of the model: one picture of 600 by 600 pixels, row by row,
/// red, green and blue of a pixel side by side. Each value is a whole number
/// from 0 to 255, the sample as it is; the model reads it as the number of
/// that value, unscaled. Its shape is `[1, 600, 600, 3]`.
pub struct NormalizedTensor {
    values: Vec<u8>,
}

impl View for NormalizedTensor {
    type V = Seq<u8>;

    closed spec fn view(&self) -> Seq<u8> {
        self.values@
    }
}

impl NormalizedTensor {
    #[verifier::type_invariant]
    pub closed spec fn well_formed(&self) -> bool {
        self.values@.len() == TENSOR_LENGTH
    }

    /// The tensor of a picture that is RGB and 600 by 600: its samples. No
    /// tensor for any other picture.
    pub fn from_image(picture: &RawImage) -> (r: Option<NormalizedTensor>)
        ensures
            r is Some <==> picture@.width == TARGET_SIZE && picture@.height == TARGET_SIZE
                && picture@.depth == 3,
            r matches Some(tensor) ==> tensor@ == picture@.samples,
    {
        proof {
            use_type_invariant(picture);
        }
        match picture.channels() {
            Channels::Gray => None,
            Channels::Rgb => {
                if picture.width() == TARGET_SIZE && picture.height() == TARGET_SIZE {
                    let values = picture.samples().clone();
                    assert(values@ =~= picture@.samples);
                    Some(NormalizedTensor { values })
                } else {
                    None
                }
            },
        }
    }

    /// The values, `TENSOR_LENGTH` of them.
    pub fn values(&self) -> (v: &Vec<u8>)
        ensures
            v@ == self@,
            v@.len() == TENSOR_LENGTH,
    {
        proof {
            use_type_invariant(self);
        }
        &self.values
    }
}

impl RawImage {
    /// Fits the picture, in RGB, into the box that its aspect ratio and the
    /// target give, keeping the aspect ratio: a picture at least as wide as
    /// high gets the target as the bound of its width and the target times
    /// width over height, rounded down, as the bound of its height; a higher
    /// one the other way round. The resampling filter is Lanczos of radius
    /// three. A picture that already has the size of its box stays as it is.
    pub fn resize_image_aspect_ratio(&self, target_size: u32) -> (r: RawImage)
        requires
            self@.inhabited(),
            target_size >= 1,
        ensures
            r@ == resized(self@, target_size),
            r@.wf(),
            r@.depth == 3,
            1 <= r@.width,
            1 <= r@.height,
            self@.width >= self@.height ==> r@.width <= target_size,
            self@.width < self@.height ==> r@.height <= target_size,
    {
        let width: u32 = self.width();
        let height: u32 = self.height();
        let bounds = fit_bounds(width, height, target_size);
        let rgb = self.to_rgb();
        proof {
            use_type_invariant(self);
            let long: int = if width >= height {
                width as int
            } else {
                height as int
            };
            let short: int = if width >= height {
                height as int
            } else {
                width as int
            };
            assert(target_size * long / short >= 1) by (nonlinear_arith)
                requires
                    target_size >= 1,
                    long >= short,
                    short >= 1,
            ;
        }
        lanczos3_fit(&rgb, bounds.0, bounds.1)
    }
}

/// The decoded picture brought to the square: RGB, cropped where it is tall,
/// fitted, padded.
pub fn square_up(picture: &RawImage) -> (r: RawImage)
    requires
        picture@.inhabited(),
    ensures
        r@ == squared(picture@),
        r@.width == TARGET_SIZE,
        r@.height == TARGET_SIZE,
        r@.depth == 3,
{
    let rgb = picture.to_rgb();
    let straight = if rgb.is_tall() {
        rgb.center_crop_tall_image()
    } else {
        rgb
    };
    let small = straight.resize_image_aspect_ratio(TARGET_SIZE);
    small.pad_to_square(TARGET_SIZE)
}

/// Turns the bytes of an upload into the tensor for the model, or says that
/// they hold no picture. The tensor depends on the bytes alone: the same
/// bytes give the same tensor, value for value, every time.
pub fn preprocess_image(image_data: &[u8]) -> (r: Result<NormalizedTensor, PredictError>)
    ensures
        match preprocessed(image_data@) {
            Some(values) => r matches Ok(tensor) && tensor@ == values,
            None => r matches Err(PredictError::Decode(_)),
        },
{
    match load_from_memory(image_data) {
        Err(error) => Err(PredictError::Decode(describe(&error))),
        Ok(parts) => {
            if parts.width == 0 || parts.height == 0 {
                return Err(PredictError::Decode("The image has no pixels".to_owned()));
            }
            match RawImage::new(parts.width, parts.height, parts.channels, parts.samples) {
                None => Err(
                    PredictError::Decode("The image data does not match its dimensions".to_owned()),
                ),
                Some(picture) => {
                    let square = square_up(&picture);
                    match NormalizedTensor::from_image(&square) {
                        Some(tensor) => Ok(tensor),
                        None => Err(PredictError::Decode("The image could not be resized".to_owned())),
                    }
                },
            }
        },
    }
}

/// A picture of the target size on both sides passes through unchanged but
/// for the conversion to RGB: it is not cropped, it is fitted into a box of
/// its own size, and it covers the canvas exactly.
pub proof fn lemma_target_square_passes(picture: Bitmap)
    requires
        picture.wf(),
        picture.width == TARGET_SIZE,
        picture.height == TARGET_SIZE,
    ensures
        squared(picture) == picture.to_rgb(),
        picture.depth == 3 ==> squared(picture) == picture,
{
    let rgb = picture.to_rgb();
    crate::bitmap::lemma_to_rgb(picture, 0, 0, 0);
    assert(straightened(picture) == rgb);
    assert(rgb.to_rgb() == rgb);
    assert(resize_bounds(rgb.width, rgb.height, TARGET_SIZE as nat) == (600nat, 600nat));
    assert(resized(rgb, TARGET_SIZE) == rgb);
    crate::bitmap::lemma_padding_fits_exactly(rgb, TARGET_SIZE as nat);
}

/// A picture more than twice as high as wide is cropped before it is
/// fitted: what is fitted has the width it had and four fifths of its
/// height, rounded to the nearest whole number.
pub proof fn lemma_tall_is_cropped_first(picture: Bitmap)
    requires
        picture.wf(),
        picture.is_tall(),
    ensures
        squared(picture) == resized(picture.to_rgb().center_crop_tall(), TARGET_SIZE).padded(
            TARGET_SIZE as nat,
        ),
        straightened(picture).width == picture.width,
        -5 <= 8 * picture.height - 10 * straightened(picture).height < 5,
{
}

/// What the bytes of an upload lead to depends on the bytes alone, and a
/// tensor that comes out has the full length.
pub proof fn lemma_preprocessed_length(bytes: Seq<u8>)
    requires
        preprocessed(bytes) is Some,
    ensures
        preprocessed(bytes)->0.len() == TENSOR_LENGTH,
{
}

} // verus!
