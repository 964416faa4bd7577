//! Decoded pictures as plain data, and the geometry that brings one to the
//! square the model expects.
//!
//! A picture is `width` by `height` pixels of eight-bit samples, one sample
//! per pixel (gray) or three (red, green, blue), stored row by row with the
//! samples of a pixel side by side.

use vstd::prelude::*;

verus! {

/// How many samples a pixel has.
#[derive(Clone, Copy, Debug, PartialEq, Eq, Structural)]
pub enum Channels {
    /// One sample: luminance.
    Gray,
    /// Three samples: red, green, blue.
    Rgb,
}

impl Channels {
    /// The number of samples per pixel.
    pub open spec fn count(self) -> nat {
        match self {
            Channels::Gray => 1,
            Channels::Rgb => 3,
        }
    }
}

/// The mathematical picture: its size, its samples per pixel, and the
/// samples row by row.
pub struct Bitmap {
    pub width: nat,
    pub height: nat,
    pub depth: nat,
    pub samples: Seq<u8>,
}

impl Bitmap {
    /// One or three samples per pixel, and exactly as many samples as the
    /// size asks for.
    pub open spec fn wf(self) -> bool {
        &&& self.depth == 1 || self.depth == 3
        &&& self.samples.len() == self.width * self.height * self.depth
    }

    /// The picture has at least one pixel.
    pub open spec fn inhabited(self) -> bool {
        self.width >= 1 && self.height >= 1
    }

    /// Where the sample of channel `c` of the pixel in column `x` of row `y`
    /// stands.
    pub open spec fn position(self, x: int, y: int, c: int) -> int {
        (y * self.width + x) * self.depth + c
    }

    /// The sample of channel `c` of the pixel in column `x` of row `y`.
    pub open spec fn sample(self, x: int, y: int, c: int) -> u8 {
        self.samples[self.position(x, y, c)]
    }

    /// `(x, y, c)` names a sample of the picture.
    pub open spec fn holds(self, x: int, y: int, c: int) -> bool {
        0 <= x < self.width && 0 <= y < self.height && 0 <= c < self.depth
    }
}

/// Four fifths of `n`, rounded to the nearest whole number. The exact value
/// never lies halfway, so no rule for halves is needed.
pub open spec fn four_fifths(n: nat) -> nat {
    (8 * n + 5) / 10
}

/// The blank margin before a side of the given length when it is centred
/// in `target`; none when the side does not fit.
pub open spec fn margin(target: nat, side: nat) -> nat {
    if side < target {
        ((target - side) / 2) as nat
    } else {
        0
    }
}

/// The lesser of `n` and the largest 32-bit number.
pub open spec fn capped(n: nat) -> nat {
    if n > u32::MAX {
        u32::MAX as nat
    } else {
        n
    }
}

/// The box into which a picture of the given size is fitted: the target on
/// the longer side's axis, and on the other axis the target times the ratio
/// of the longer to the shorter side, rounded down.
pub open spec fn resize_bounds(width: nat, height: nat, target: nat) -> (nat, nat) {
    if width >= height {
        (target, capped(target * width / height))
    } else {
        (capped(target * height / width), target)
    }
}

impl Bitmap {
    /// The same picture with three samples per pixel: a gray sample stands
    /// for red, green and blue alike.
    pub open spec fn to_rgb(self) -> Bitmap {
        if self.depth == 3 {
            self
        } else {
            Bitmap {
                width: self.width,
                height: self.height,
                depth: 3,
                samples: Seq::new(3 * self.samples.len(), |i: int| self.samples[i / 3]),
            }
        }
    }

    /// `count` rows of the picture, from row `first` on.
    pub open spec fn rows(self, first: nat, count: nat) -> Bitmap {
        Bitmap {
            width: self.width,
            height: count,
            depth: self.depth,
            samples: self.samples.subrange(
                (first * (self.width * self.depth)) as int,
                ((first + count) * (self.width * self.depth)) as int,
            ),
        }
    }

    /// The middle four fifths of the rows.
    pub open spec fn center_crop_tall(self) -> Bitmap {
        let kept = four_fifths(self.height);
        self.rows(((self.height - kept) / 2) as nat, kept)
    }

    /// Taller than twice the width.
    pub open spec fn is_tall(self) -> bool {
        self.height > 2 * self.width
    }

    /// The sample that the square canvas of side `target` shows at
    /// `(x, y, c)` once the picture, in RGB, is laid on it behind its
    /// margins: the picture's sample where it covers the canvas, black
    /// elsewhere.
    pub open spec fn padded_sample(self, target: nat, x: int, y: int, c: int) -> u8 {
        let source = self.to_rgb();
        let left = margin(target, source.width);
        let top = margin(target, source.height);
        if left <= x < left + source.width && top <= y < top + source.height {
            source.sample(x - left, y - top, c)
        } else {
            0u8
        }
    }

    /// The square canvas of side `target` with the picture laid on it.
    pub open spec fn padded(self, target: nat) -> Bitmap {
        Bitmap {
            width: target,
            height: target,
            depth: 3,
            samples: Seq::new(
                target * target * 3,
                |i: int| self.padded_sample(target, (i / 3) % (target as int), (i / 3) / (target as int), i % 3),
            ),
        }
    }
}

/// The position of a sample that the picture holds is within its samples.
pub proof fn lemma_position_in_range(b: Bitmap, x: int, y: int, c: int)
    requires
        b.wf(),
        b.holds(x, y, c),
    ensures
        0 <= b.position(x, y, c) < b.samples.len(),
{
    let w = b.width as int;
    let h = b.height as int;
    let d = b.depth as int;
    assert(0 <= y * w && y * w + x < h * w && (y * w + x) * d + c < w * h * d && 0 <= (y * w + x)
        * d) by (nonlinear_arith)
        requires
            0 <= x < w,
            0 <= y < h,
            0 <= c < d,
    ;
}

/// A decoded picture.
pub struct RawImage {
    pub(crate) width: u32,
    pub(crate) height: u32,
    pub(crate) channels: Channels,
    pub(crate) samples: Vec<u8>,
}

impl View for RawImage {
    type V = Bitmap;

    closed spec fn view(&self) -> Bitmap {
        Bitmap {
            width: self.width as nat,
            height: self.height as nat,
            depth: self.channels.count(),
            samples: self.samples@,
        }
    }
}

impl RawImage {
    /// What holds of every picture: it has exactly as many samples as its
    /// size asks for.
    #[verifier::type_invariant]
    pub open spec fn well_formed(&self) -> bool {
        self@.wf()
    }

    /// A picture of the given size and samples, where there are exactly as
    /// many samples as the size asks for.
    pub fn new(width: u32, height: u32, channels: Channels, samples: Vec<u8>) -> (r: Option<
        RawImage,
    >)
        ensures
            r is Some <==> samples@.len() == width * height * channels.count(),
            r matches Some(img) ==> img@ == (Bitmap {
                width: width as nat,
                height: height as nat,
                depth: channels.count(),
                samples: samples@,
            }),
    {
        let depth: u128 = match channels {
            Channels::Gray => 1,
            Channels::Rgb => 3,
        };
        assert(width * height * depth <= 0xFFFF_FFFF * 0xFFFF_FFFF * 3) by (nonlinear_arith)
            requires
                0 <= width <= 0xFFFF_FFFF,
                0 <= height <= 0xFFFF_FFFF,
                0 <= depth <= 3,
        ;
        assert(width * height <= 0xFFFF_FFFF * 0xFFFF_FFFF) by (nonlinear_arith)
            requires
                0 <= width <= 0xFFFF_FFFF,
                0 <= height <= 0xFFFF_FFFF,
        ;
        let wanted: u128 = (width as u128) * (height as u128) * depth;
        if samples.len() as u128 == wanted {
            Some(RawImage { width, height, channels, samples })
        } else {
            None
        }
    }

    /// The number of pixels in a row.
    pub fn width(&self) -> (w: u32)
        ensures
            w == self@.width,
    {
        self.width
    }

    /// The number of rows.
    pub fn height(&self) -> (h: u32)
        ensures
            h == self@.height,
    {
        self.height
    }

    /// Whether a pixel has one sample or three.
    pub fn channels(&self) -> (c: Channels)
        ensures
            c.count() == self@.depth,
    {
        self.channels
    }

    /// The samples, row by row.
    pub fn samples(&self) -> (s: &Vec<u8>)
        ensures
            s@ == self@.samples,
    {
        &self.samples
    }
}

impl RawImage {
    /// The picture in RGB: a gray picture has each sample repeated for red,
    /// green and blue; an RGB picture is copied.
    pub fn to_rgb(&self) -> (r: RawImage)
        ensures
            r@ == self@.to_rgb(),
            r@.depth == 3,
    {
        proof {
            use_type_invariant(self);
        }
        match self.channels {
            Channels::Rgb => {
                let samples = self.samples.clone();
                assert(samples@ =~= self.samples@);
                RawImage { width: self.width, height: self.height, channels: Channels::Rgb, samples }
            },
            Channels::Gray => {
                let n: usize = self.samples.len();
                let mut out: Vec<u8> = Vec::new();
                let mut i: usize = 0;
                while i < n
                    invariant
                        n == self.samples@.len(),
                        i <= n,
                        out@.len() == 3 * i,
                        forall|j: int| 0 <= j < out@.len() ==> out@[j] == self.samples@[j / 3],
                    decreases n - i,
                {
                    let v: u8 = self.samples[i];
                    out.push(v);
                    out.push(v);
                    out.push(v);
                    i = i + 1;
                }
                assert(out@ =~= self@.to_rgb().samples);
                assert(out@.len() == self.width * self.height * 3) by (nonlinear_arith)
                    requires
                        out@.len() == 3 * n,
                        n == self.width * self.height * 1,
                ;
                RawImage { width: self.width, height: self.height, channels: Channels::Rgb, samples: out }
            },
        }
    }
}

/// The box into which a picture of the given size is fitted: the target
/// for the longer side, and for the other the target times the longer side
/// over the shorter, rounded down and held to 32 bits.
pub fn fit_bounds(width: u32, height: u32, target_size: u32) -> (b: (u32, u32))
    requires
        width >= 1,
        height >= 1,
    ensures
        (b.0 as nat, b.1 as nat) == resize_bounds(
            width as nat,
            height as nat,
            target_size as nat,
        ),
{
    let long: u64 = if width >= height {
        width as u64
    } else {
        height as u64
    };
    let short: u64 = if width >= height {
        height as u64
    } else {
        width as u64
    };
    assert(target_size * long <= 0xFFFF_FFFF * 0xFFFF_FFFF) by (nonlinear_arith)
        requires
            0 <= target_size <= 0xFFFF_FFFF,
            0 <= long <= 0xFFFF_FFFF,
    ;
    let scaled: u64 = (target_size as u64 * long) / short;
    let other: u32 = if scaled > u32::MAX as u64 {
        u32::MAX
    } else {
        scaled as u32
    };
    if width >= height {
        (target_size, other)
    } else {
        (other, target_size)
    }
}

impl RawImage {
    /// `count` rows of the picture, from row `first` on.
    fn rows(&self, first: u32, count: u32) -> (r: RawImage)
        requires
            first + count <= self@.height,
        ensures
            r@ == self@.rows(first as nat, count as nat),
    {
        proof {
            use_type_invariant(self);
        }
        let depth: usize = match self.channels {
            Channels::Gray => 1,
            Channels::Rgb => 3,
        };
        let length: usize = self.samples.len();
        let ghost total = length as int;
        let ghost row = self.width * depth;
        assert(0 <= first * row <= (first + count) * row <= total && (self.height >= 1 ==> row
            <= total)) by (nonlinear_arith)
            requires
                total == self.width * self.height * depth,
                row == self.width * depth,
                first + count <= self.height,
                count >= 0,
                first >= 0,
                depth >= 1,
                self.width >= 0,
        ;
        if count == 0 {
            let r = RawImage {
                width: self.width,
                height: 0,
                channels: self.channels,
                samples: Vec::new(),
            };
            assert(r@.samples =~= self@.rows(first as nat, 0).samples);
            return r;
        }
        let stride: usize = self.width as usize * depth;
        assert(first * stride == first * row && (first + count) * stride == (first + count) * row);
        let start: usize = first as usize * stride;
        let end: usize = (first as usize + count as usize) * stride;
        let mut out: Vec<u8> = Vec::new();
        let mut i: usize = start;
        while i < end
            invariant
                start <= i <= end,
                end <= length,
                length == self.samples@.len(),
                out@ == self.samples@.subrange(start as int, i as int),
            decreases end - i,
        {
            out.push(self.samples[i]);
            i = i + 1;
            assert(out@ =~= self.samples@.subrange(start as int, i as int));
        }
        assert(out@.len() == self.width * count * depth) by (nonlinear_arith)
            requires
                out@.len() == end - start,
                start == first * stride,
                end == (first + count) * stride,
                stride == self.width * depth,
        ;
        RawImage { width: self.width, height: count, channels: self.channels, samples: out }
    }

    /// Whether the picture is more than twice as high as it is wide.
    pub fn is_tall(&self) -> (b: bool)
        ensures
            b == self@.is_tall(),
    {
        self.height as u64 > 2 * (self.width as u64)
    }

    /// Keeps the middle four fifths of the rows: the height becomes four
    /// fifths of what it was, rounded to the nearest whole number, and as many
    /// rows are dropped above as below (one more below where their number is
    /// odd). The width stays.
    pub fn center_crop_tall_image(&self) -> (r: RawImage)
        ensures
            r@ == self@.center_crop_tall(),
            r@.width == self@.width,
            r@.depth == self@.depth,
            -5 <= 8 * self@.height - 10 * r@.height < 5,
    {
        let kept: u32 = ((8 * (self.height as u64) + 5) / 10) as u32;
        let first: u32 = (self.height - kept) / 2;
        self.rows(first, kept)
    }

    /// Lays the picture, in RGB, on a black square canvas of side
    /// `target_size`, centred: the margin on the left is half of what the
    /// width leaves free, rounded down, and likewise at the top. A picture
    /// wider or higher than the canvas starts at the edge and is cut off.
    pub fn pad_to_square(&self, target_size: u32) -> (r: RawImage)
        ensures
            r@ == self@.padded(target_size as nat),
    {
        let source = self.to_rgb();
        proof {
            use_type_invariant(&source);
        }
        let w: u32 = source.width;
        let h: u32 = source.height;
        let left: u32 = if w < target_size {
            (target_size - w) / 2
        } else {
            0
        };
        let top: u32 = if h < target_size {
            (target_size - h) / 2
        } else {
            0
        };
        let length: usize = source.samples.len();
        let ghost goal = self@.padded(target_size as nat).samples;
        let ghost side = target_size as int;
        let mut out: Vec<u8> = Vec::new();
        let mut y: u32 = 0;
        while y < target_size
            invariant
                y <= target_size,
                side == target_size,
                source@ == self@.to_rgb(),
                source@.wf(),
                source@.depth == 3,
                w == source@.width,
                h == source@.height,
                w == source.width,
                length == source.samples@.len(),
                left == margin(target_size as nat, w as nat),
                top == margin(target_size as nat, h as nat),
                goal == self@.padded(target_size as nat).samples,
                out@.len() == y * side * 3,
                forall|i: int| 0 <= i < out@.len() ==> out@[i] == goal[i],
            decreases target_size - y,
        {
            let mut x: u32 = 0;
            while x < target_size
                invariant
                    x <= target_size,
                    y < target_size,
                    side == target_size,
                    source@ == self@.to_rgb(),
                    source@.wf(),
                    source@.depth == 3,
                    w == source@.width,
                    h == source@.height,
                    w == source.width,
                    length == source.samples@.len(),
                    left == margin(target_size as nat, w as nat),
                    top == margin(target_size as nat, h as nat),
                    goal == self@.padded(target_size as nat).samples,
                    out@.len() == (y * side + x) * 3,
                    forall|i: int| 0 <= i < out@.len() ==> out@[i] == goal[i],
                decreases target_size - x,
            {
                let ghost pixel = y * side + x;
                proof {
                    assert(0 <= pixel && pixel * 3 + 2 < side * side * 3) by (nonlinear_arith)
                        requires
                            pixel == y * side + x,
                            0 <= x < side,
                            0 <= y < side,
                    ;
                    vstd::arithmetic::div_mod::lemma_fundamental_div_mod_converse(
                        pixel,
                        side,
                        y as int,
                        x as int,
                    );
                }
                let ghost before = out@;
                if left <= x && x - left < w && top <= y && y - top < h {
                    let sx: usize = (x - left) as usize;
                    let sy: usize = (y - top) as usize;
                    proof {
                        lemma_position_in_range(source@, sx as int, sy as int, 0);
                        lemma_position_in_range(source@, sx as int, sy as int, 2);
                        assert(0 <= sy * w && sy * w + sx <= (sy * w + sx) * 3) by (nonlinear_arith)
                            requires
                                0 <= sx,
                                0 <= sy,
                                0 <= w,
                        ;
                    }
                    let base: usize = (sy * (w as usize) + sx) * 3;
                    let red: u8 = source.samples[base];
                    let green: u8 = source.samples[base + 1];
                    let blue: u8 = source.samples[base + 2];
                    out.push(red);
                    out.push(green);
                    out.push(blue);
                    proof {
                        assert(red == self@.padded_sample(target_size as nat, x as int, y as int, 0));
                        assert(green == self@.padded_sample(
                            target_size as nat,
                            x as int,
                            y as int,
                            1,
                        ));
                        assert(blue == self@.padded_sample(target_size as nat, x as int, y as int, 2));
                    }
                } else {
                    out.push(0);
                    out.push(0);
                    out.push(0);
                }
                proof {
                    assert((pixel * 3) / 3 == pixel && (pixel * 3 + 1) / 3 == pixel && (pixel * 3
                        + 2) / 3 == pixel);
                    assert forall|i: int| 0 <= i < out@.len() implies out@[i] == goal[i] by {
                        if i < before.len() {
                            assert(out@[i] == before[i]);
                        } else {
                            assert(i / 3 == pixel);
                        }
                    }
                    assert((y * side + (x + 1)) * 3 == (y * side + x) * 3 + 3) by (nonlinear_arith);
                }
                x = x + 1;
            }
            proof {
                assert((y * side + side) * 3 == (y + 1) * side * 3) by (nonlinear_arith);
            }
            y = y + 1;
        }
        proof {
            assert(out@.len() == side * side * 3);
            assert(out@ =~= goal);
        }
        RawImage { width: target_size, height: target_size, channels: Channels::Rgb, samples: out }
    }
}

/// `four_fifths` rounds to the nearest whole number: ten times the result
/// is less than five away from eight times the argument.
pub proof fn lemma_four_fifths_is_nearest(n: nat)
    ensures
        -5 <= 8 * n - 10 * four_fifths(n) < 5,
        four_fifths(n) <= n,
{
}

/// The picture in RGB has the size it had, three samples per pixel, and at
/// each pixel the sample it had there: for every colour the gray one, or the
/// one of that colour.
pub proof fn lemma_to_rgb(b: Bitmap, x: int, y: int, c: int)
    requires
        b.wf(),
        0 <= x < b.width,
        0 <= y < b.height,
        0 <= c < 3,
    ensures
        b.to_rgb().wf(),
        b.to_rgb().width == b.width,
        b.to_rgb().height == b.height,
        b.to_rgb().depth == 3,
        b.to_rgb().sample(x, y, c) == b.sample(x, y, if b.depth == 1 {
            0
        } else {
            c
        }),
{
    let w = b.width as int;
    let h = b.height as int;
    assert(w * h * 3 == 3 * (w * h * 1)) by (nonlinear_arith);
    if b.depth == 1 {
        lemma_position_in_range(b, x, y, 0);
        let pixel = y * w + x;
        assert(pixel * 1 + 0 == pixel);
        assert((pixel * 3 + c) / 3 == pixel);
        assert(0 <= pixel * 3 + c < 3 * b.samples.len());
    }
}

/// The rows cut out of a picture show, row for row, what the picture shows
/// from the first of them on.
pub proof fn lemma_rows(b: Bitmap, first: nat, count: nat, x: int, y: int, c: int)
    requires
        b.wf(),
        first + count <= b.height,
        0 <= x < b.width,
        0 <= y < count,
        0 <= c < b.depth,
    ensures
        b.rows(first, count).wf(),
        b.rows(first, count).sample(x, y, c) == b.sample(x, y + first, c),
{
    let w = b.width as int;
    let d = b.depth as int;
    let cut = b.rows(first, count);
    let row = w * d;
    assert(0 <= first * row <= (first + count) * row <= b.samples.len() && (first + count) * row
        - first * row == w * count * d) by (nonlinear_arith)
        requires
            b.samples.len() == w * b.height * d,
            row == w * d,
            first + count <= b.height,
            w >= 0,
            d >= 1,
    ;
    lemma_position_in_range(cut, x, y, c);
    assert(cut.position(x, y, c) + first * row == b.position(x, y + first, c))
        by (nonlinear_arith)
        requires
            cut.position(x, y, c) == (y * w + x) * d + c,
            b.position(x, y + first, c) == ((y + first) * w + x) * d + c,
            row == w * d,
    ;
}

/// The canvas shows at each of its places the sample that `padded_sample`
/// names.
pub proof fn lemma_padded(b: Bitmap, target: nat, x: int, y: int, c: int)
    requires
        0 <= x < target,
        0 <= y < target,
        0 <= c < 3,
    ensures
        b.padded(target).wf(),
        b.padded(target).sample(x, y, c) == b.padded_sample(target, x, y, c),
{
    let side = target as int;
    let pixel = y * side + x;
    assert(0 <= pixel && pixel * 3 + 2 < side * side * 3) by (nonlinear_arith)
        requires
            pixel == y * side + x,
            0 <= x < side,
            0 <= y < side,
    ;
    vstd::arithmetic::div_mod::lemma_fundamental_div_mod_converse(pixel, side, y, x);
    assert((pixel * 3 + c) / 3 == pixel && (pixel * 3 + c) % 3 == c);
}

/// An RGB picture that is as wide and as high as the canvas covers it
/// exactly: the canvas is the picture.
pub proof fn lemma_padding_fits_exactly(b: Bitmap, target: nat)
    requires
        b.wf(),
        b.depth == 3,
        b.width == target,
        b.height == target,
    ensures
        b.padded(target) == b,
{
    let side = target as int;
    let canvas = b.padded(target);
    assert(canvas.samples.len() == b.samples.len());
    assert forall|i: int| 0 <= i < canvas.samples.len() implies canvas.samples[i]
        == b.samples[i] by {
        let pixel = i / 3;
        assert(0 <= pixel < side * side);
        assert(side > 0) by (nonlinear_arith)
            requires
                side >= 0,
                0 <= pixel < side * side,
        ;
        vstd::arithmetic::div_mod::lemma_fundamental_div_mod(pixel, side);
        vstd::arithmetic::div_mod::lemma_mod_bound(pixel, side);
        let x = pixel % side;
        let y = pixel / side;
        assert(0 <= y < side) by (nonlinear_arith)
            requires
                pixel == side * y + x,
                0 <= x < side,
                0 <= pixel < side * side,
        ;
        assert((y * side + x) * 3 + i % 3 == i) by (nonlinear_arith)
            requires
                pixel == side * y + x,
                i == 3 * pixel + i % 3,
        ;
    }
    assert(canvas.samples =~= b.samples);
}

} // verus!
