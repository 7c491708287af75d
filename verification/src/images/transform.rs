//! Raster transforms: downsampling, color conversion, cropping and color
//! complexity reduction.
//!
//! Color conversion to RGB:
//!
//! DeviceCMYK converts through the Neugebauer (Demichel) mixing model with
//! the published default coefficients: each of the 16 ink overprint
//! primaries has an RGB color, and a pixel with ink amounts c, m, y, k is
//! the sum of the primaries weighted by the product, over the four inks, of
//! the amount if the primary contains the ink and one minus the amount
//! otherwise. The model is multilinear, so it reproduces a profile with a
//! 3-point grid of these colors exactly.
//!
//! Images with an embedded ICC profile convert through the profile with
//! `moxcms`. Gray images are left alone: converting them to RGB would only
//! triple their size.
use vstd::prelude::*;

use fast_image_resize::images::{Image, ImageRef};
use fast_image_resize::{FilterType, PixelType, ResizeAlg, ResizeOptions, Resizer};
use moxcms::{ColorProfile, Layout, TransformOptions};

use crate::backend;
use crate::bytes;
use crate::images::raster;
use crate::images::raster::{Format, Raster};

verus! {

// ------------------------------------------------------------- downsampling

/// How pixels are resampled.
#[derive(Debug, Clone, Copy, PartialEq, Eq, Structural)]
pub enum Resampling {
    /// The nearest pixel: for palette indices.
    Nearest,
    /// The average of the area: for bitonal images taken as gray.
    Area,
    /// Lanczos with three lobes: for continuous tone.
    Lanczos3,
}

/// What the resampler may make of pixels of `samples` bytes each. A relation
/// and not a function: the filter weights come out of floating point, and how
/// the sums round is up to the instructions that the machine has.
pub uninterp spec fn may_resize(
    data: Seq<u8>,
    samples: int,
    from: (int, int),
    to: (int, int),
    how: Resampling,
    out: Seq<u8>,
) -> bool;

/// Whether the pixels of the two images, and those between the two passes of
/// the resampler, can be held in memory.
pub open spec fn resizable(samples: int, from: (int, int), to: (int, int)) -> bool {
    &&& from.0 * from.1 * samples + samples <= isize::MAX
    &&& from.0 * to.1 * samples + samples <= isize::MAX
    &&& to.0 * to.1 * samples <= isize::MAX
}

/// `fast_image_resize::Resizer::resize` on an image of `samples` bytes per
/// pixel, taken whole. It does not fail: the buffer has the size that the
/// image needs, bytes need no alignment, and both images have one pixel type.
/// The result has the size asked for and is one that the resampler may make
/// of the image. Which of them is left unsaid.
#[verifier::external_body]
fn resize_bytes(
    data: &Vec<u8>,
    samples: usize,
    from: (u32, u32),
    to: (u32, u32),
    how: Resampling,
) -> (r: Option<Vec<u8>>)
    requires
        samples == 1 || samples == 3 || samples == 4,
        to.0 > 0,
        to.1 > 0,
        data@.len() == from.0 * from.1 * samples,
        resizable(
            samples as int,
            (from.0 as int, from.1 as int),
            (to.0 as int, to.1 as int),
        ),
    ensures
        r is Some,
        r->0@.len() == to.0 * to.1 * samples,
        may_resize(
            data@,
            samples as int,
            (from.0 as int, from.1 as int),
            (to.0 as int, to.1 as int),
            how,
            r->0@,
        ),
{
    let pixel = [PixelType::U8, PixelType::U8, PixelType::U8, PixelType::U8x3, PixelType::U8x4][samples];
    let alg = match how {
        Resampling::Nearest => ResizeAlg::Nearest,
        Resampling::Area => ResizeAlg::Convolution(FilterType::Box),
        Resampling::Lanczos3 => ResizeAlg::Convolution(FilterType::Lanczos3),
    };
    let src = ImageRef::new(from.0, from.1, data, pixel).ok()?;
    let mut dst = Image::new(to.0, to.1, pixel);
    Resizer::new().resize(&src, &mut dst, &ResizeOptions::new().resize_alg(alg)).ok()?;
    Some(dst.into_vec())
}

/// How much ink makes a downsampled pixel ink: three tenths of it, so that a
/// one-pixel line still comes through a reduction by two, which mid-gray
/// thresholding would erase.
pub const INK_CUTOFF: u8 = 76;

/// Whether a gray pixel of an averaged bitonal image counts as ink.
pub open spec fn is_ink(v: u8, ink_is_black: bool) -> bool {
    (if ink_is_black {
        255 - v
    } else {
        v as int
    }) >= INK_CUTOFF
}

/// Averaged gray as black and white, by the ink's coverage.
pub open spec fn thresholded(gray: Seq<u8>, ink_is_black: bool) -> Seq<u8> {
    gray.map_values(
        |v: u8|
            if is_ink(v, ink_is_black) == ink_is_black {
                0u8
            } else {
                255u8
            },
    )
}

/// How many of the first `n` bytes are zero.
pub open spec fn zeros(data: Seq<u8>, n: int) -> int
    decreases n,
{
    if n <= 0 {
        0
    } else {
        zeros(data, n - 1) + (if data[n - 1] == 0 {
            1int
        } else {
            0
        })
    }
}

/// Ink is the color of at most half of the pixels, black in a text scan.
pub open spec fn ink_black(gray: Seq<u8>) -> bool {
    zeros(gray, gray.len() as int) * 2 <= gray.len()
}

fn black_is_ink(gray: &Vec<u8>) -> (r: bool)
    ensures
        r == ink_black(gray@),
{
    let mut n: usize = 0;
    let mut i: usize = 0;
    while i < gray.len()
        invariant
            i <= gray@.len(),
            n <= i,
            n == zeros(gray@, i as int),
        decreases gray@.len() - i,
    {
        if gray[i] == 0 {
            n += 1;
        }
        i += 1;
    }
    n as u128 * 2 <= gray.len() as u128
}

/// A bitonal image from averaged gray: a pixel takes the ink color where the
/// ink covers enough of it.
pub fn threshold_toward_ink(gray: &Raster, ink_is_black: bool) -> (r: Raster)
    requires
        gray.wf(),
        gray.format == Format::Gray8,
    ensures
        r.wf(),
        r@.width == gray@.width,
        r@.height == gray@.height,
        r.format == Format::Gray1,
        r@.data == raster::packed(
            gray@.width,
            gray@.height,
            thresholded(gray@.data, ink_is_black),
        ),
{
    let mut out: Vec<u8> = Vec::new();
    let mut i: usize = 0;
    let ghost goal = thresholded(gray.data@, ink_is_black);
    while i < gray.data.len()
        invariant
            i <= gray.data@.len(),
            goal == thresholded(gray.data@, ink_is_black),
            out@ == goal.take(i as int),
        decreases gray.data@.len() - i,
    {
        let v = gray.data[i];
        let coverage = if ink_is_black {
            255 - v
        } else {
            v
        };
        let ink = coverage >= INK_CUTOFF;
        out.push(
            if ink == ink_is_black {
                0
            } else {
                255
            },
        );
        i += 1;
        assert(out@ =~= goal.take(i as int));
    }
    assert(out@ =~= goal);
    let packed = Raster {
        width: gray.width,
        height: gray.height,
        format: Format::Gray8,
        data: out,
    };
    packed.gray8_to_gray1()
}

/// Whether the bytes of a bitonal image are the thresholding of `gray`, which
/// is what the resampler may make of an image as gray.
pub open spec fn inked(
    from: raster::RasterView,
    width: int,
    height: int,
    gray: Seq<u8>,
    data: Seq<u8>,
) -> bool {
    let unpacked = raster::as_gray8(from).data;
    &&& gray.len() == width * height
    &&& may_resize(
        unpacked,
        1,
        (from.width, from.height),
        (width, height),
        Resampling::Area,
        gray,
    )
    &&& data == raster::packed(width, height, thresholded(gray, ink_black(unpacked)))
}

/// What a downsampled image is: the size asked for in the same layout. Its
/// bytes are what the resampler makes of the image; for a bitonal image the
/// thresholding of what it makes of the image as gray.
pub open spec fn downsampled(
    from: raster::RasterView,
    width: int,
    height: int,
    out: raster::RasterView,
) -> bool {
    &&& out.whole()
    &&& out.width == width
    &&& out.height == height
    &&& out.format == from.format
    &&& if from.format == Format::Gray1 {
        exists|gray: Seq<u8>| #[trigger] inked(from, width, height, gray, out.data)
    } else {
        may_resize(
            from.data,
            from.format.samples(),
            (from.width, from.height),
            (width, height),
            if from.format == Format::Indexed8 {
                Resampling::Nearest
            } else {
                Resampling::Lanczos3
            },
            out.data,
        )
    }
}

/// Resample to `width` x `height`. Continuous-tone images use Lanczos3;
/// palette indices use nearest neighbour; bitonal images are resampled as
/// gray by area averaging and thresholded toward the ink color. `None` where
/// there is nothing to do.
pub fn downsample(from: &Raster, width: u32, height: u32) -> (r: Option<Raster>)
    requires
        from.wf(),
        resizable(
            from.format.samples(),
            (from.width as int, from.height as int),
            (width as int, height as int),
        ),
    ensures
        match r {
            Some(out) => downsampled(from@, width as int, height as int, out@),
            None => true,
        },
        r is None <==> width == 0 || height == 0 || (width == from.width && height == from.height),
{
    if width == 0 || height == 0 || (width == from.width && height == from.height) {
        return None;
    }
    let n = from.format.samples_per_pixel();
    match from.format {
        Format::Gray1 => {
            let unpacked = from.gray1_to_gray8();
            let ink_is_black = black_is_ink(&unpacked.data);
            let gray = resize_bytes(
                &unpacked.data,
                1,
                (from.width, from.height),
                (width, height),
                Resampling::Area,
            )?;
            let ghost bytes = gray@;
            let image = Raster { width, height, format: Format::Gray8, data: gray };
            proof {
                raster::lemma_within(0, 0, width as int, height as int);
            }
            let out = threshold_toward_ink(&image, ink_is_black);
            assert(inked(from@, width as int, height as int, bytes, out@.data));
            Some(out)
        },
        _ => {
            let how = if from.format == Format::Indexed8 {
                Resampling::Nearest
            } else {
                Resampling::Lanczos3
            };
            assert(from.width * from.height * n == from.width * n * from.height)
                by (nonlinear_arith);
            assert(width * height * n == width * n * height) by (nonlinear_arith);
            let data = resize_bytes(
                &from.data,
                n,
                (from.width, from.height),
                (width, height),
                how,
            )?;
            let out = Raster { width, height, format: from.format, data };
            Some(out)
        },
    }
}

// ------------------------------------------------------------- color

/// The color of an overprint of inks in millionths, by a mask of the inks
/// present: 1 = C, 2 = M, 4 = Y, 8 = K.
pub open spec fn primary(mask: int) -> (int, int, int) {
    if mask == 0 {
        (996078, 996078, 996078)
    } else if mask == 1 {
        (0, 686275, 937255)
    } else if mask == 2 {
        (925490, 149020, 560784)
    } else if mask == 3 {
        (243137, 247059, 584314)
    } else if mask == 4 {
        (1000000, 949020, 66667)
    } else if mask == 5 {
        (0, 658824, 349020)
    } else if mask == 6 {
        (929412, 196078, 215686)
    } else if mask == 7 {
        (266667, 266667, 274510)
    } else if mask == 8 {
        (215686, 203922, 207843)
    } else if mask == 9 {
        (66667, 176471, 215686)
    } else if mask == 10 {
        (215686, 101961, 141176)
    } else if mask == 11 {
        (133333, 98039, 160784)
    } else if mask == 12 {
        (200000, 196078, 125490)
    } else if mask == 13 {
        (74510, 180392, 133333)
    } else if mask == 14 {
        (215686, 121569, 113725)
    } else {
        (125490, 121569, 121569)
    }
}

fn primary_of(mask: u8) -> (r: (u32, u32, u32))
    requires
        mask < 16,
    ensures
        r.0 == primary(mask as int).0,
        r.1 == primary(mask as int).1,
        r.2 == primary(mask as int).2,
        r.0 <= 1000000,
        r.1 <= 1000000,
        r.2 <= 1000000,
{
    if mask == 0 {
        (996078, 996078, 996078)
    } else if mask == 1 {
        (0, 686275, 937255)
    } else if mask == 2 {
        (925490, 149020, 560784)
    } else if mask == 3 {
        (243137, 247059, 584314)
    } else if mask == 4 {
        (1000000, 949020, 66667)
    } else if mask == 5 {
        (0, 658824, 349020)
    } else if mask == 6 {
        (929412, 196078, 215686)
    } else if mask == 7 {
        (266667, 266667, 274510)
    } else if mask == 8 {
        (215686, 203922, 207843)
    } else if mask == 9 {
        (66667, 176471, 215686)
    } else if mask == 10 {
        (215686, 101961, 141176)
    } else if mask == 11 {
        (133333, 98039, 160784)
    } else if mask == 12 {
        (200000, 196078, 125490)
    } else if mask == 13 {
        (74510, 180392, 133333)
    } else if mask == 14 {
        (215686, 121569, 113725)
    } else {
        (125490, 121569, 121569)
    }
}

/// The share of an ink in an overprint, in 255ths: its amount if the
/// overprint has it, what is left of the paper otherwise.
pub open spec fn share(amount: u8, present: bool) -> int {
    if present {
        amount as int
    } else {
        255 - amount
    }
}

/// The weight of an overprint: the product of the shares of the four inks.
pub open spec fn mixing_weight(mask: int, c: u8, m: u8, y: u8, k: u8) -> int {
    share(c, mask % 2 == 1) * share(m, mask / 2 % 2 == 1) * (share(y, mask / 4 % 2 == 1) * share(
        k,
        mask / 8 == 1,
    ))
}

/// The colors of the first `n` overprints, weighted and added up.
pub open spec fn mixed(n: int, c: u8, m: u8, y: u8, k: u8) -> (int, int, int)
    decreases n,
{
    if n <= 0 {
        (0, 0, 0)
    } else {
        let before = mixed(n - 1, c, m, y, k);
        let w = mixing_weight(n - 1, c, m, y, k);
        let p = primary(n - 1);
        (before.0 + w * p.0, before.1 + w * p.1, before.2 + w * p.2)
    }
}

/// What the weighted sum of a full channel is.
pub const FULL_CHANNEL: u64 = 16_581_375_000_000;

/// A weighted sum as a byte: the nearest, at most 255.
pub open spec fn channel(sum: int) -> u8 {
    let v = (2 * sum + FULL_CHANNEL) / (2 * FULL_CHANNEL as int);
    if v > 255 {
        255
    } else {
        v as u8
    }
}

/// The color of a pixel with these ink amounts.
pub open spec fn ink_color(c: u8, m: u8, y: u8, k: u8) -> Seq<u8> {
    let sum = mixed(16, c, m, y, k);
    seq![channel(sum.0), channel(sum.1), channel(sum.2)]
}

fn to_channel(sum: u64) -> (r: u8)
    requires
        sum <= 0x2000_0000_0000_0000,
    ensures
        r == channel(sum as int),
{
    let v: u64 = (2 * sum + FULL_CHANNEL) / (2 * FULL_CHANNEL);
    if v > 255 {
        255
    } else {
        v as u8
    }
}

fn share_of(amount: u8, present: bool) -> (r: u64)
    ensures
        r == share(amount, present),
        r <= 255,
{
    if present {
        amount as u64
    } else {
        255 - amount as u64
    }
}

/// One CMYK pixel (0..255 ink amounts) to RGB by the Neugebauer model.
pub fn neugebauer(cmyk: [u8; 4]) -> (r: [u8; 3])
    ensures
        r@ == ink_color(cmyk[0], cmyk[1], cmyk[2], cmyk[3]),
{
    let (c, m, y, k) = (cmyk[0], cmyk[1], cmyk[2], cmyk[3]);
    let mut sums: (u64, u64, u64) = (0, 0, 0);
    let mut mask: u8 = 0;
    while mask < 16
        invariant
            mask <= 16,
            sums.0 == mixed(mask as int, c, m, y, k).0,
            sums.1 == mixed(mask as int, c, m, y, k).1,
            sums.2 == mixed(mask as int, c, m, y, k).2,
            sums.0 <= mask * 4_228_250_625_000_000,
            sums.1 <= mask * 4_228_250_625_000_000,
            sums.2 <= mask * 4_228_250_625_000_000,
        decreases 16 - mask,
    {
        let a = share_of(c, mask % 2 == 1);
        let b = share_of(m, mask / 2 % 2 == 1);
        let d = share_of(y, mask / 4 % 2 == 1);
        let e = share_of(k, mask / 8 == 1);
        assert(0 <= a * b <= 65025 && 0 <= d * e <= 65025) by (nonlinear_arith)
            requires
                0 <= a <= 255,
                0 <= b <= 255,
                0 <= d <= 255,
                0 <= e <= 255,
        ;
        let ab: u64 = a * b;
        let de: u64 = d * e;
        assert(0 <= ab * de <= 4_228_250_625) by (nonlinear_arith)
            requires
                0 <= ab <= 65025,
                0 <= de <= 65025,
        ;
        let w: u64 = ab * de;
        let p = primary_of(mask);
        assert(0 <= w * p.0 <= 4_228_250_625_000_000 && 0 <= w * p.1 <= 4_228_250_625_000_000 && 0
            <= w * p.2 <= 4_228_250_625_000_000) by (nonlinear_arith)
            requires
                0 <= w <= 4_228_250_625,
                0 <= p.0 <= 1000000,
                0 <= p.1 <= 1000000,
                0 <= p.2 <= 1000000,
        ;
        sums = (
            sums.0 + w * p.0 as u64,
            sums.1 + w * p.1 as u64,
            sums.2 + w * p.2 as u64,
        );
        mask += 1;
    }
    let r = [to_channel(sums.0), to_channel(sums.1), to_channel(sums.2)];
    assert(r@ =~= ink_color(cmyk[0], cmyk[1], cmyk[2], cmyk[3]));
    r
}

/// The pixels up to `n` of CMYK data as RGB.
pub open spec fn converted(data: Seq<u8>, n: int) -> Seq<u8>
    decreases n,
{
    if n <= 0 {
        Seq::empty()
    } else {
        converted(data, n - 1) + ink_color(
            data[4 * n - 4],
            data[4 * n - 3],
            data[4 * n - 2],
            data[4 * n - 1],
        )
    }
}

/// DeviceCMYK raster to RGB.
pub fn cmyk_to_rgb(from: &Raster) -> (r: Option<Raster>)
    requires
        from.wf(),
    ensures
        match r {
            Some(out) => {
                &&& from.format == Format::Cmyk8
                &&& out.wf()
                &&& out.width == from.width
                &&& out.height == from.height
                &&& out.format == Format::Rgb8
                &&& out@.data == converted(from@.data, from.width * from.height)
            },
            None => from.format != Format::Cmyk8,
        },
{
    if from.format != Format::Cmyk8 {
        return None;
    }
    let ghost pixels = from.width * from.height;
    assert(from.width * 4 * from.height == 4 * (from.width * from.height)) by (nonlinear_arith);
    let len: usize = from.data.len();
    let n: usize = len / 4;
    let mut out: Vec<u8> = Vec::new();
    let mut i: usize = 0;
    while i < n
        invariant
            i <= n,
            n == pixels,
            len == from.data@.len() == 4 * n,
            out@.len() == 3 * i,
            out@ == converted(from.data@, i as int),
        decreases n - i,
    {
        let at: usize = 4 * i;
        let color = neugebauer(
            [from.data[at], from.data[at + 1], from.data[at + 2], from.data[at + 3]],
        );
        let ghost before = out@;
        out.push(color[0]);
        out.push(color[1]);
        out.push(color[2]);
        assert(out@ =~= before + color@);
        i += 1;
    }
    assert(from.width * 3 * from.height == 3 * (from.width * from.height)) by (nonlinear_arith);
    Some(Raster { width: from.width, height: from.height, format: Format::Rgb8, data: out })
}

/// What a color transform from a profile to sRGB may make of pixels of
/// `samples` bytes each, or that it makes none. A relation and not a
/// function: the transform computes in floating point, with the instructions
/// that the machine has.
pub uninterp spec fn may_convert(
    data: Seq<u8>,
    samples: int,
    profile: Seq<u8>,
    out: Option<Seq<u8>>,
) -> bool;

/// `moxcms`: the profile that `ColorProfile::new_from_slice` reads, and the
/// transform to sRGB that `create_transform_8bit` makes of it, applied to
/// pixels of `samples` bytes. A result has three bytes per pixel and is one
/// that the transform may make of them. Which of them, and when there is
/// none, is left unsaid.
#[verifier::external_body]
fn through_profile(data: &Vec<u8>, samples: usize, profile: &[u8]) -> (r: Option<Vec<u8>>)
    requires
        samples == 1 || samples == 3 || samples == 4,
        data@.len() % samples as nat == 0,
        data@.len() / samples as nat * 3 <= usize::MAX,
    ensures
        r is Some ==> r->0@.len() == data@.len() / samples as nat * 3,
        may_convert(data@, samples as int, profile@, backend::bytes_view(r)),
{
    let layout = [Layout::Gray, Layout::Gray, Layout::Gray, Layout::Rgb, Layout::Rgba][samples];
    let src = ColorProfile::new_from_slice(profile).ok()?;
    let dst = ColorProfile::new_srgb();
    let options = TransformOptions::default();
    let transform = src.create_transform_8bit(layout, &dst, Layout::Rgb, options).ok()?;
    let mut out = vec![0u8; data.len() / samples * 3];
    transform.transform(data, &mut out).ok()?;
    Some(out)
}

/// Convert through an embedded ICC profile to sRGB. Gray, RGB and CMYK
/// sources; `None` when the profile does not parse or does not match.
pub fn icc_to_rgb(from: &Raster, profile: &[u8]) -> (r: Option<Raster>)
    requires
        from.wf(),
        from.width * from.height * 3 <= usize::MAX,
    ensures
        match r {
            Some(out) => {
                &&& out.wf()
                &&& out.width == from.width
                &&& out.height == from.height
                &&& out.format == Format::Rgb8
                &&& may_convert(
                    from@.data,
                    from.format.samples(),
                    profile@,
                    Some(out@.data),
                )
            },
            None => from.format == Format::Gray1 || from.format == Format::Indexed8 || may_convert(
                from@.data,
                from.format.samples(),
                profile@,
                None,
            ),
        },
        from.format == Format::Gray1 || from.format == Format::Indexed8 ==> r is None,
{
    if from.format == Format::Gray1 || from.format == Format::Indexed8 {
        return None;
    }
    let n = from.format.samples_per_pixel();
    let ghost pixels = from.width * from.height;
    assert(from.width * n * from.height == pixels * n) by (nonlinear_arith)
        requires
            pixels == from.width * from.height,
    ;
    assert(from.width * 3 * from.height == pixels * 3) by (nonlinear_arith)
        requires
            pixels == from.width * from.height,
    ;
    assert((pixels * n) / (n as int) == pixels && (pixels * n) % (n as int) == 0)
        by (nonlinear_arith)
        requires
            n > 0,
    ;
    let data = through_profile(&from.data, n, profile)?;
    Some(Raster { width: from.width, height: from.height, format: Format::Rgb8, data })
}

// ------------------------------------------------------------- crop

/// A pixel rectangle: left, top, width, height (rows counted from the top).
#[derive(Debug, Clone, Copy, PartialEq, Eq, Structural)]
pub struct PixelRect {
    pub x: u32,
    pub y: u32,
    pub w: u32,
    pub h: u32,
}

/// The bytes of a window of rows with `n` bytes per pixel.
pub open spec fn window(from: raster::RasterView, r: PixelRect, n: int) -> Seq<u8> {
    Seq::new(
        (r.w * n * r.h) as nat,
        |i: int| from.data[(r.y + i / (r.w * n)) * (from.width * n) + (r.x * n + i % (r.w * n))],
    )
}

/// The window of an image; none where it is empty or leaves the image.
pub open spec fn cropped(from: raster::RasterView, r: PixelRect) -> Option<raster::RasterView> {
    if r.x + r.w > from.width || r.y + r.h > from.height || r.w == 0 || r.h == 0 {
        None
    } else if from.format == Format::Gray1 {
        let gray = raster::RasterView {
            width: r.w as int,
            height: r.h as int,
            format: Format::Gray8,
            data: window(raster::as_gray8(from), r, 1),
        };
        Some(raster::as_gray1(gray))
    } else {
        Some(
            raster::RasterView {
                width: r.w as int,
                height: r.h as int,
                format: from.format,
                data: window(from, r, from.format.samples()),
            },
        )
    }
}

fn crop_bytes(from: &Raster, r: PixelRect) -> (out: Raster)
    requires
        from.wf(),
        from.format != Format::Gray1,
        r.x + r.w <= from.width,
        r.y + r.h <= from.height,
        r.w > 0,
        r.h > 0,
    ensures
        out.wf(),
        out.width == r.w,
        out.height == r.h,
        out.format == from.format,
        out@.data == window(from@, r, from.format.samples()),
{
    let n = from.format.samples_per_pixel();
    let len: usize = from.data.len();
    let ghost goal = window(from@, r, n as int);
    let ghost stride = from.width * n;
    let ghost line = r.w * n;
    proof {
        raster::lemma_within(0, 0, stride, from.height as int);
        assert(line <= stride) by (nonlinear_arith)
            requires
                r.w <= from.width,
                line == r.w * n,
                stride == from.width * n,
                n > 0,
        ;
        assert(line > 0) by (nonlinear_arith)
            requires
                r.w > 0,
                n > 0,
                line == r.w * n,
        ;
    }
    let full: usize = from.width as usize * n;
    let part: usize = r.w as usize * n;
    assert(r.x * n + line <= stride) by (nonlinear_arith)
        requires
            r.x + r.w <= from.width,
            line == r.w * n,
            stride == from.width * n,
            n > 0,
    ;
    let offset: usize = r.x as usize * n;
    let mut out: Vec<u8> = Vec::new();
    let mut row: u32 = 0;
    assert(goal.take(0) =~= Seq::empty());
    assert(0 * line == 0);
    while row < r.h
        invariant
            row <= r.h,
            full == stride == from.width * n,
            part == line == r.w * n,
            line > 0,
            offset == r.x * n,
            offset + line <= stride,
            r.y + r.h <= from.height,
            len == from.data@.len() == stride * from.height,
            n == from.format.samples(),
            goal == window(from@, r, n as int),
            out@ == goal.take(row * line),
        decreases r.h - row,
    {
        proof {
            raster::lemma_within(r.y + row, offset + line - 1, stride, from.height as int);
            raster::lemma_within(row as int, line - 1, line, r.h as int);
        }
        let start: usize = (r.y + row) as usize * full + offset;
        let ghost before = out@;
        bytes::append_range(&mut out, &from.data, start, start + part);
        proof {
            let i = row * line;
            assert(i + line == (row + 1) * line) by (nonlinear_arith)
                requires
                    i == row * line,
            ;
            let next = goal.take(i + line);
            assert forall|j: int| 0 <= j < next.len() implies #[trigger] out@[j] == next[j] by {
                if j >= i {
                    raster::lemma_place(row as int, j - i, line);
                }
            }
            assert(out@ =~= next);
        }
        row += 1;
    }
    assert(row * line == line * r.h) by (nonlinear_arith)
        requires
            row == r.h,
    ;
    assert(out@ =~= goal);
    Raster { width: r.w, height: r.h, format: from.format, data: out }
}

/// The window of an image; `None` where it leaves the image.
pub fn crop(from: &Raster, r: PixelRect) -> (out: Option<Raster>)
    requires
        from.wf(),
    ensures
        match out {
            Some(image) => cropped(from@, r) == Some(image@) && image.wf(),
            None => cropped(from@, r) is None,
        },
{
    if r.x as u64 + r.w as u64 > from.width as u64 || r.y as u64 + r.h as u64 > from.height as u64
        || r.w == 0 || r.h == 0 {
        return None;
    }
    if from.format == Format::Gray1 {
        let gray = crop_bytes(&from.gray1_to_gray8(), r);
        return Some(gray.gray8_to_gray1());
    }
    Some(crop_bytes(from, r))
}

// ------------------------------------------------------------- complexity

/// Whether every pixel is like the first.
pub open spec fn flat(data: Seq<u8>, n: int) -> bool {
    forall|i: int| 0 <= i < data.len() ==> #[trigger] data[i] == data[i % n]
}

/// A flat image of more than one pixel as one pixel.
pub open spec fn flattened(from: raster::RasterView) -> Option<raster::RasterView> {
    let plain = if from.format == Format::Gray1 {
        raster::as_gray8(from)
    } else {
        from
    };
    let n = plain.format.samples();
    if from.width * from.height <= 1 || !flat(plain.data, n) {
        None
    } else {
        let one = raster::RasterView {
            width: 1,
            height: 1,
            format: plain.format,
            data: plain.data.take(n),
        };
        Some(
            if from.format == Format::Gray1 {
                raster::as_gray1(one)
            } else {
                one
            },
        )
    }
}

/// The gray of a pixel whose channels say it is gray.
pub open spec fn gray_pixel(format: Format, data: Seq<u8>, i: int) -> Option<u8> {
    match format {
        Format::Rgb8 => if data[3 * i] == data[3 * i + 1] && data[3 * i + 1] == data[3 * i + 2] {
            Some(data[3 * i])
        } else {
            None
        },
        Format::Cmyk8 => if data[4 * i] == 0 && data[4 * i + 1] == 0 && data[4 * i + 2] == 0 {
            Some((255 - data[4 * i + 3]) as u8)
        } else {
            None
        },
        _ => None,
    }
}

/// A color image whose pixels are all gray, as gray.
pub open spec fn grayed(from: raster::RasterView) -> Option<raster::RasterView> {
    let pixels = from.width * from.height;
    if (from.format == Format::Rgb8 || from.format == Format::Cmyk8) && forall|i: int|
        0 <= i < pixels ==> #[trigger] gray_pixel(from.format, from.data, i) is Some {
        Some(
            raster::RasterView {
                width: from.width,
                height: from.height,
                format: Format::Gray8,
                data: Seq::new(
                    pixels as nat,
                    |i: int| gray_pixel(from.format, from.data, i)->0,
                ),
            },
        )
    } else {
        None
    }
}

/// A gray image of black and white alone, as bitonal.
pub open spec fn two_level(from: raster::RasterView) -> Option<raster::RasterView> {
    if from.format == Format::Gray8 && forall|i: int|
        0 <= i < from.data.len() ==> #[trigger] from.data[i] == 0 || from.data[i] == 255 {
        Some(raster::as_gray1(from))
    } else {
        None
    }
}

/// An image after a step that may apply.
pub open spec fn after(
    from: raster::RasterView,
    step: Option<raster::RasterView>,
) -> raster::RasterView {
    match step {
        Some(next) => next,
        None => from,
    }
}

/// The image after every reduction that applies, if one does.
pub open spec fn reduced(from: raster::RasterView) -> Option<raster::RasterView> {
    let a = flattened(from);
    let first = after(from, a);
    let b = grayed(first);
    let second = after(first, b);
    let c = two_level(second);
    if a is None && b is None && c is None {
        None
    } else {
        Some(after(second, c))
    }
}

/// The view of an image, if there is one.
pub open spec fn image_view(r: Option<Raster>) -> Option<raster::RasterView> {
    match r {
        Some(image) => Some(image@),
        None => None,
    }
}

fn is_flat(data: &Vec<u8>, n: usize) -> (r: bool)
    requires
        1 <= n <= data@.len(),
    ensures
        r == flat(data@, n as int),
{
    let mut i: usize = 0;
    while i < data.len()
        invariant
            i <= data@.len(),
            1 <= n <= data@.len(),
            forall|k: int| 0 <= k < i ==> #[trigger] data@[k] == data@[k % (n as int)],
        decreases data@.len() - i,
    {
        if data[i] != data[i % n] {
            assert(data@[i as int] != data@[i as int % n as int]);
            return false;
        }
        i += 1;
    }
    true
}

fn flatten(from: &Raster) -> (r: Option<Raster>)
    requires
        from.wf(),
    ensures
        image_view(r) == flattened(from@),
        r is Some ==> r->0.wf(),
{
    assert(from.width * from.height <= 0xFFFF_FFFF * 0xFFFF_FFFF) by (nonlinear_arith)
        requires
            0 <= from.width <= 0xFFFF_FFFF,
            0 <= from.height <= 0xFFFF_FFFF,
    ;
    if from.width as u64 * from.height as u64 <= 1 {
        return None;
    }
    let plain = if from.format == Format::Gray1 {
        from.gray1_to_gray8()
    } else {
        from.copied()
    };
    let n = plain.format.samples_per_pixel();
    proof {
        let row = plain.width * n;
        assert(row >= n) by (nonlinear_arith)
            requires
                plain.width > 0,
                n > 0,
                row == plain.width * n,
        ;
        raster::lemma_within(0, n - 1, row, plain.height as int);
    }
    if !is_flat(&plain.data, n) {
        return None;
    }
    let first = bytes::copy_range(&plain.data, 0, n);
    assert(first@ =~= plain.data@.take(n as int));
    let one = Raster { width: 1, height: 1, format: plain.format, data: first };
    assert(1 * n * 1 == n);
    if from.format == Format::Gray1 {
        Some(one.gray8_to_gray1())
    } else {
        Some(one)
    }
}

fn gray_if_gray(from: &Raster) -> (r: Option<Raster>)
    requires
        from.wf(),
    ensures
        image_view(r) == grayed(from@),
        r is Some ==> r->0.wf(),
{
    if from.format != Format::Rgb8 && from.format != Format::Cmyk8 {
        return None;
    }
    let ghost pixels = from.width * from.height;
    let n = from.format.samples_per_pixel();
    assert(from.width * n * from.height == pixels * n) by (nonlinear_arith)
        requires
            pixels == from.width * from.height,
    ;
    let len: usize = from.data.len();
    let count: usize = len / n;
    assert(count == pixels) by (nonlinear_arith)
        requires
            count == (pixels * n) / (n as int),
            n > 0,
    ;
    let mut out: Vec<u8> = Vec::new();
    let mut i: usize = 0;
    while i < count
        invariant
            i <= count,
            count == pixels == from.width * from.height,
            n == from.format.samples(),
            len == from.data@.len() == count * n,
            from.format == Format::Rgb8 || from.format == Format::Cmyk8,
            out@.len() == i,
            forall|k: int|
                0 <= k < i ==> gray_pixel(from.format, from.data@, k) == Some(#[trigger] out@[k]),
        decreases count - i,
    {
        assert(count * n == if from.format == Format::Rgb8 {
            count * 3
        } else {
            count * 4
        });
        let v: u8 = if from.format == Format::Rgb8 {
            let at: usize = 3 * i;
            let p = from.data[at];
            if p != from.data[at + 1] || from.data[at + 1] != from.data[at + 2] {
                assert(gray_pixel(from.format, from.data@, i as int) is None);
                return None;
            }
            p
        } else {
            let at: usize = 4 * i;
            if from.data[at] != 0 || from.data[at + 1] != 0 || from.data[at + 2] != 0 {
                assert(gray_pixel(from.format, from.data@, i as int) is None);
                return None;
            }
            255 - from.data[at + 3]
        };
        out.push(v);
        assert(gray_pixel(from.format, from.data@, i as int) == Some(v));
        i += 1;
    }
    proof {
        assert forall|k: int| 0 <= k < pixels implies #[trigger] gray_pixel(
            from.format,
            from.data@,
            k,
        ) is Some by {
            assert(gray_pixel(from.format, from.data@, k) == Some(out@[k]));
        }
        assert(out@ =~= grayed(from@)->0.data);
    }
    Some(Raster { width: from.width, height: from.height, format: Format::Gray8, data: out })
}

fn bitonal_if_two_level(from: &Raster) -> (r: Option<Raster>)
    requires
        from.wf(),
    ensures
        image_view(r) == two_level(from@),
        r is Some ==> r->0.wf(),
{
    if from.format != Format::Gray8 {
        return None;
    }
    let mut i: usize = 0;
    while i < from.data.len()
        invariant
            i <= from.data@.len(),
            forall|k: int|
                0 <= k < i ==> #[trigger] from.data@[k] == 0 || from.data@[k] == 255,
        decreases from.data@.len() - i,
    {
        let v = from.data[i];
        if v != 0 && v != 255 {
            assert(from.data@[i as int] == v);
            return None;
        }
        i += 1;
    }
    Some(from.gray8_to_gray1())
}

/// Color complexity reduction: a flat image becomes one pixel; RGB or CMYK
/// whose pixels are all gray becomes gray; gray with only black and white
/// becomes bitonal. `None` when nothing applies.
pub fn reduce(from: &Raster) -> (r: Option<Raster>)
    requires
        from.wf(),
    ensures
        image_view(r) == reduced(from@),
        r is Some ==> r->0.wf(),
{
    let mut current = from.copied();
    let mut changed: bool = false;
    if let Some(next) = flatten(&current) {
        current = next;
        changed = true;
    }
    if let Some(next) = gray_if_gray(&current) {
        current = next;
        changed = true;
    }
    if let Some(next) = bitonal_if_two_level(&current) {
        current = next;
        changed = true;
    }
    if changed {
        Some(current)
    } else {
        None
    }
}

// ------------------------------------------------------------- laws

/// Reducing never makes an image larger: not in pixels, and not in bytes.
pub proof fn reducing_never_grows(from: raster::RasterView)
    requires
        from.whole(),
        reduced(from) is Some,
    ensures
        reduced(from)->0.width <= from.width,
        reduced(from)->0.height <= from.height,
        reduced(from)->0.data.len() <= from.data.len(),
{
    let a = flattened(from);
    let first = after(from, a);
    let n = from.format.samples();
    assert(first.data.len() <= from.data.len() && first.width <= from.width && first.height
        <= from.height && first.whole()) by {
        if a is Some {
            if from.format == Format::Gray1 {
                let stride = (from.width + 7) / 8;
                raster::lemma_within(0, 0, stride, from.height);
                raster::lemma_within(0, 0, from.width, from.height);
                assert(first.data.len() == 1);
            } else {
                let row = from.width * n;
                assert(row >= n) by (nonlinear_arith)
                    requires
                        from.width > 0,
                        n > 0,
                        row == from.width * n,
                ;
                raster::lemma_within(0, n - 1, row, from.height);
                assert(first.data.len() == n);
            }
        }
    }
    let b = grayed(first);
    let second = after(first, b);
    assert(second.data.len() <= first.data.len() && second.whole()) by {
        if b is Some {
            let m = first.format.samples();
            let pixels = first.width * first.height;
            assert(first.width * m * first.height == pixels * m) by (nonlinear_arith)
                requires
                    pixels == first.width * first.height,
            ;
            assert(pixels > 0) by (nonlinear_arith)
                requires
                    first.width > 0,
                    first.height > 0,
                    pixels == first.width * first.height,
            ;
            assert(pixels <= pixels * m && first.width * 1 * first.height == pixels)
                by (nonlinear_arith)
                requires
                    pixels > 0,
                    m >= 1,
                    pixels == first.width * first.height,
            ;
            assert(first.data.len() == pixels * m);
            assert(second.data.len() == pixels);
        }
    }
    let c = two_level(second);
    if c is Some {
        let stride = (second.width + 7) / 8;
        assert(stride * second.height <= second.width * second.height && stride * second.height
            >= 0) by (nonlinear_arith)
            requires
                0 <= stride <= second.width,
                second.height > 0,
        ;
    }
}

/// A bitonal image made of black and white alone shows what the gray image
/// showed.
pub proof fn reducing_to_bits_loses_nothing(from: raster::RasterView)
    requires
        from.whole(),
        two_level(from) is Some,
    ensures
        raster::as_gray8(two_level(from)->0) == from,
{
    raster::packing_round_trips(from.width, from.height, from.data);
}

/// The pixels of an image with a byte or more each.
pub open spec fn plain_pixels(from: raster::RasterView) -> Seq<u8> {
    if from.format == Format::Gray1 {
        raster::as_gray8(from).data
    } else {
        from.data
    }
}

/// There is nothing to reduce in an image, CMYK aside, exactly where it is one
/// pixel or not flat, is not color that is all gray, and is not gray that is all
/// black and white.
pub proof fn nothing_to_reduce(from: raster::RasterView)
    requires
        from.whole(),
        from.format != Format::Cmyk8,
    ensures
        reduced(from) is None <==> {
            &&& from.width * from.height == 1 || !flat(plain_pixels(from), from.format.samples())
            &&& !(from.format == Format::Rgb8 && forall|i: int|
                0 <= i < from.width * from.height ==> #[trigger] gray_pixel(
                    Format::Rgb8,
                    from.data,
                    i,
                ) is Some)
            &&& !(from.format == Format::Gray8 && forall|i: int|
                0 <= i < from.data.len() ==> #[trigger] from.data[i] == 0 || from.data[i] == 255)
        },
{
    assert(from.width * from.height >= 1) by (nonlinear_arith)
        requires
            from.width > 0,
            from.height > 0,
    ;
}

/// What was reduced cannot be reduced again, but for CMYK images, of which
/// different pixels can have one gray.
pub proof fn reducing_again_changes_nothing(from: raster::RasterView)
    requires
        from.whole(),
        from.format != Format::Cmyk8,
        reduced(from) is Some,
    ensures
        reduced(reduced(from)->0) is None,
{
    let a = flattened(from);
    let first = after(from, a);
    let b = grayed(first);
    let second = after(first, b);
    let c = two_level(second);
    let last = after(second, c);
    let pixels = from.width * from.height;
    assert(flattened(last) is None) by {
        if a is Some {
            assert(last.width * last.height == 1);
        } else if pixels > 1 {
            assert(first == from);
            if b is Some {
                assert(from.width * 3 * from.height == 3 * pixels) by (nonlinear_arith)
                    requires
                        pixels == from.width * from.height,
                ;
                let gray = second.data;
                if flat(gray, 1) {
                    assert forall|i: int| 0 <= i < from.data.len() implies #[trigger] from.data[i]
                        == from.data[i % 3] by {
                        let p = i / 3;
                        assert(gray_pixel(Format::Rgb8, from.data, p) is Some);
                        assert(gray_pixel(Format::Rgb8, from.data, 0) is Some);
                        assert(gray[p] == gray[p % 1]);
                        assert(p % 1 == 0);
                        assert(i == 3 * p || i == 3 * p + 1 || i == 3 * p + 2);
                    }
                    assert(flat(from.data, 3));
                }
                assert(!flat(gray, 1));
            }
            assert(!flat(second.data, 1) || c is None);
            if c is Some {
                assert(second.data.len() == pixels) by {
                    assert(from.width * 1 * from.height == pixels) by (nonlinear_arith)
                        requires
                            pixels == from.width * from.height,
                    ;
                }
                raster::packing_round_trips(from.width, from.height, second.data);
            }
        }
    }
}

/// The ink amounts of a pixel with one of them replaced.
pub open spec fn with_ink(px: (u8, u8, u8, u8), ink: int, x: u8) -> (u8, u8, u8, u8) {
    if ink == 0 {
        (x, px.1, px.2, px.3)
    } else if ink == 1 {
        (px.0, x, px.2, px.3)
    } else if ink == 2 {
        (px.0, px.1, x, px.3)
    } else {
        (px.0, px.1, px.2, x)
    }
}

/// The color of a pixel.
pub open spec fn color_of(px: (u8, u8, u8, u8)) -> Seq<u8> {
    ink_color(px.0, px.1, px.2, px.3)
}

/// Whether a number lies between two others.
pub open spec fn between(a: int, b: int, c: int) -> bool {
    a <= b <= c || c <= b <= a
}

spec fn sums_of(n: int, px: (u8, u8, u8, u8)) -> (int, int, int) {
    mixed(n, px.0, px.1, px.2, px.3)
}

spec fn weight_of(mask: int, px: (u8, u8, u8, u8)) -> int {
    mixing_weight(mask, px.0, px.1, px.2, px.3)
}

/// A share grows or falls evenly with its ink.
proof fn lemma_share(x: u8, present: bool)
    ensures
        255 * share(x, present) == x * share(255, present) + (255 - x) * share(0, present),
{
}

proof fn lemma_scaled(s: int, s1: int, s0: int, x: int, rest: int)
    by (nonlinear_arith)
    requires
        255 * s == x * s1 + (255 - x) * s0,
    ensures
        255 * (s * rest) == x * (s1 * rest) + (255 - x) * (s0 * rest),
{
}

proof fn lemma_order(a: int, b: int, c: int, d: int)
    by (nonlinear_arith)
    ensures
        a * b * (c * d) == a * (b * (c * d)),
        a * b * (c * d) == b * (a * (c * d)),
        a * b * (c * d) == c * (a * b * d),
        a * b * (c * d) == d * (a * b * c),
{
}

/// The weight of an overprint grows or falls evenly with each ink.
proof fn lemma_weight(mask: int, px: (u8, u8, u8, u8), ink: int, x: u8)
    requires
        0 <= ink < 4,
    ensures
        255 * weight_of(mask, with_ink(px, ink, x)) == x * weight_of(mask, with_ink(px, ink, 255))
            + (255 - x) * weight_of(mask, with_ink(px, ink, 0)),
{
    let (pc, pm, py, pk) = (mask % 2 == 1, mask / 2 % 2 == 1, mask / 4 % 2 == 1, mask / 8 == 1);
    let (c, m, y, k) = (share(px.0, pc), share(px.1, pm), share(px.2, py), share(px.3, pk));
    if ink == 0 {
        lemma_share(x, pc);
        lemma_scaled(share(x, pc), share(255, pc), share(0, pc), x as int, m * (y * k));
        lemma_order(share(x, pc), m, y, k);
        lemma_order(share(255, pc), m, y, k);
        lemma_order(share(0, pc), m, y, k);
    } else if ink == 1 {
        lemma_share(x, pm);
        lemma_scaled(share(x, pm), share(255, pm), share(0, pm), x as int, c * (y * k));
        lemma_order(c, share(x, pm), y, k);
        lemma_order(c, share(255, pm), y, k);
        lemma_order(c, share(0, pm), y, k);
    } else if ink == 2 {
        lemma_share(x, py);
        lemma_scaled(share(x, py), share(255, py), share(0, py), x as int, c * m * k);
        lemma_order(c, m, share(x, py), k);
        lemma_order(c, m, share(255, py), k);
        lemma_order(c, m, share(0, py), k);
    } else {
        lemma_share(x, pk);
        lemma_scaled(share(x, pk), share(255, pk), share(0, pk), x as int, c * m * y);
        lemma_order(c, m, y, share(x, pk));
        lemma_order(c, m, y, share(255, pk));
        lemma_order(c, m, y, share(0, pk));
    }
}

proof fn lemma_sum_step(s: int, s1: int, s0: int, w: int, w1: int, w0: int, x: int, p: int)
    by (nonlinear_arith)
    requires
        255 * s == x * s1 + (255 - x) * s0,
        255 * w == x * w1 + (255 - x) * w0,
    ensures
        255 * (s + w * p) == x * (s1 + w1 * p) + (255 - x) * (s0 + w0 * p),
{
}

/// The weighted sums grow or fall evenly with each ink.
proof fn lemma_sums(n: int, px: (u8, u8, u8, u8), ink: int, x: u8)
    requires
        0 <= ink < 4,
    ensures
        ({
            let (s, s1, s0) = (
                sums_of(n, with_ink(px, ink, x)),
                sums_of(n, with_ink(px, ink, 255)),
                sums_of(n, with_ink(px, ink, 0)),
            );
            &&& 255 * s.0 == x * s1.0 + (255 - x) * s0.0
            &&& 255 * s.1 == x * s1.1 + (255 - x) * s0.1
            &&& 255 * s.2 == x * s1.2 + (255 - x) * s0.2
        }),
    decreases n,
{
    if n > 0 {
        lemma_sums(n - 1, px, ink, x);
        lemma_weight(n - 1, px, ink, x);
        let (s, s1, s0) = (
            sums_of(n - 1, with_ink(px, ink, x)),
            sums_of(n - 1, with_ink(px, ink, 255)),
            sums_of(n - 1, with_ink(px, ink, 0)),
        );
        let (w, w1, w0) = (
            weight_of(n - 1, with_ink(px, ink, x)),
            weight_of(n - 1, with_ink(px, ink, 255)),
            weight_of(n - 1, with_ink(px, ink, 0)),
        );
        let p = primary(n - 1);
        lemma_sum_step(s.0, s1.0, s0.0, w, w1, w0, x as int, p.0);
        lemma_sum_step(s.1, s1.1, s0.1, w, w1, w0, x as int, p.1);
        lemma_sum_step(s.2, s1.2, s0.2, w, w1, w0, x as int, p.2);
    } else {
        assert(x * 0 + (255 - x) * 0 == 0) by (nonlinear_arith);
    }
}

proof fn lemma_sums_positive(n: int, px: (u8, u8, u8, u8))
    ensures
        sums_of(n, px).0 >= 0 && sums_of(n, px).1 >= 0 && sums_of(n, px).2 >= 0,
    decreases n,
{
    if n > 0 {
        lemma_sums_positive(n - 1, px);
        let mask = n - 1;
        let (a, b, c, d) = (
            share(px.0, mask % 2 == 1),
            share(px.1, mask / 2 % 2 == 1),
            share(px.2, mask / 4 % 2 == 1),
            share(px.3, mask / 8 == 1),
        );
        let p = primary(mask);
        let w = weight_of(mask, px);
        assert(a * b * (c * d) >= 0) by (nonlinear_arith)
            requires
                a >= 0,
                b >= 0,
                c >= 0,
                d >= 0,
        ;
        assert(w * p.0 >= 0 && w * p.1 >= 0 && w * p.2 >= 0) by (nonlinear_arith)
            requires
                w >= 0,
                p.0 >= 0,
                p.1 >= 0,
                p.2 >= 0,
        ;
    }
}

/// A number that grows or falls evenly lies between its neighbours.
proof fn lemma_between(ma: int, mb: int, mc: int, top: int, bottom: int, a: int, b: int, c: int)
    by (nonlinear_arith)
    requires
        a <= b <= c,
        255 * ma == a * top + (255 - a) * bottom,
        255 * mb == b * top + (255 - b) * bottom,
        255 * mc == c * top + (255 - c) * bottom,
    ensures
        ma <= mb <= mc || mc <= mb <= ma,
{
    assert(255 * (mb - ma) == (b - a) * (top - bottom));
    assert(255 * (mc - mb) == (c - b) * (top - bottom));
}

/// A channel follows its sum.
proof fn lemma_channel(a: int, b: int)
    requires
        0 <= a <= b,
    ensures
        channel(a) <= channel(b),
{
    vstd::arithmetic::div_mod::lemma_div_is_ordered(
        2 * a + FULL_CHANNEL,
        2 * b + FULL_CHANNEL,
        2 * FULL_CHANNEL as int,
    );
}

proof fn lemma_channels(a: int, b: int, c: int)
    requires
        a >= 0,
        b >= 0,
        c >= 0,
        between(a, b, c),
    ensures
        between(channel(a) as int, channel(b) as int, channel(c) as int),
{
    if a <= b <= c {
        lemma_channel(a, b);
        lemma_channel(b, c);
    } else {
        lemma_channel(c, b);
        lemma_channel(b, a);
    }
}

/// The mixing model runs evenly along each ink: a channel of a color lies
/// between the same channels of its neighbours in one ink.
pub proof fn colors_lie_between_their_neighbours(
    px: (u8, u8, u8, u8),
    ink: int,
    a: u8,
    b: u8,
    c: u8,
    i: int,
)
    requires
        0 <= ink < 4,
        a <= b <= c,
        0 <= i < 3,
    ensures
        between(
            color_of(with_ink(px, ink, a))[i] as int,
            color_of(with_ink(px, ink, b))[i] as int,
            color_of(with_ink(px, ink, c))[i] as int,
        ),
{
    let (pa, pb, pc) = (with_ink(px, ink, a), with_ink(px, ink, b), with_ink(px, ink, c));
    let (sa, sb, sc) = (sums_of(16, pa), sums_of(16, pb), sums_of(16, pc));
    let top = sums_of(16, with_ink(px, ink, 255));
    let bottom = sums_of(16, with_ink(px, ink, 0));
    lemma_sums(16, px, ink, a);
    lemma_sums(16, px, ink, b);
    lemma_sums(16, px, ink, c);
    lemma_sums_positive(16, pa);
    lemma_sums_positive(16, pb);
    lemma_sums_positive(16, pc);
    lemma_between(sa.0, sb.0, sc.0, top.0, bottom.0, a as int, b as int, c as int);
    lemma_between(sa.1, sb.1, sc.1, top.1, bottom.1, a as int, b as int, c as int);
    lemma_between(sa.2, sb.2, sc.2, top.2, bottom.2, a as int, b as int, c as int);
    lemma_channels(sa.0, sb.0, sc.0);
    lemma_channels(sa.1, sb.1, sc.1);
    lemma_channels(sa.2, sb.2, sc.2);
}

/// The published color of an overprint of inks, as bytes.
pub open spec fn published(c: bool, m: bool, y: bool, k: bool) -> Seq<int> {
    match (c, m, y, k) {
        (false, false, false, false) => seq![254, 254, 254],
        (true, false, false, false) => seq![0, 175, 239],
        (false, true, false, false) => seq![236, 38, 143],
        (true, true, false, false) => seq![62, 63, 149],
        (false, false, true, false) => seq![255, 242, 17],
        (true, false, true, false) => seq![0, 168, 89],
        (false, true, true, false) => seq![237, 50, 55],
        (true, true, true, false) => seq![68, 68, 70],
        (false, false, false, true) => seq![55, 52, 53],
        (true, false, false, true) => seq![17, 45, 55],
        (false, true, false, true) => seq![55, 26, 36],
        (true, true, false, true) => seq![34, 25, 41],
        (false, false, true, true) => seq![51, 50, 32],
        (true, false, true, true) => seq![19, 46, 34],
        (false, true, true, true) => seq![55, 31, 29],
        (true, true, true, true) => seq![32, 31, 31],
    }
}

/// Between two amounts, by 255ths.
pub open spec fn blend(x: u8, without: int, with: int) -> int {
    (255 - x) * without + x * with
}

/// A channel of the published colors, blended along one ink after the other.
pub open spec fn blended(px: (u8, u8, u8, u8), ch: int) -> int {
    let at = |c: bool, m: bool, y: bool, k: bool| published(c, m, y, k)[ch];
    let along_k = |c: bool, m: bool, y: bool| blend(px.3, at(c, m, y, false), at(c, m, y, true));
    let along_y = |c: bool, m: bool| blend(px.2, along_k(c, m, false), along_k(c, m, true));
    let along_m = |c: bool| blend(px.1, along_y(c, false), along_y(c, true));
    blend(px.0, along_m(false), along_m(true))
}

/// 255 to the fourth power.
pub const WHOLE_WEIGHT: u64 = 4_228_250_625;

proof fn lemma_blend_step(x: int, y: u8, a: int, a1: int, a0: int, b: int, b1: int, b0: int)
    requires
        255 * a == x * a1 + (255 - x) * a0,
        255 * b == x * b1 + (255 - x) * b0,
    ensures
        255 * blend(y, a, b) == x * blend(y, a1, b1) + (255 - x) * blend(y, a0, b0),
{
    let (p, q) = (255 - y as int, y as int);
    lemma_scaled(a, a1, a0, x, p);
    lemma_scaled(b, b1, b0, x, q);
    let (u1, v1, u0, v0) = (a1 * p, b1 * q, a0 * p, b0 * q);
    assert(x * (u1 + v1) == x * u1 + x * v1) by (nonlinear_arith);
    assert((255 - x) * (u0 + v0) == (255 - x) * u0 + (255 - x) * v0) by (nonlinear_arith);
    assert(a * p == p * a && b * q == q * b) by (nonlinear_arith);
    assert(a1 * p == p * a1 && b1 * q == q * b1) by (nonlinear_arith);
    assert(a0 * p == p * a0 && b0 * q == q * b0) by (nonlinear_arith);
}

proof fn lemma_blend_even(x: u8, a: int, b: int)
    ensures
        255 * blend(x, a, b) == x * blend(255, a, b) + (255 - x) * blend(0, a, b),
{
    let (p, q) = (255 - x as int, x as int);
    assert(255 * (p * a + q * b) == q * (0 * a + 255 * b) + p * (255 * a + 0 * b))
        by (nonlinear_arith);
}

spec fn corner_k(px: (u8, u8, u8, u8), c: bool, m: bool, y: bool, ch: int) -> int {
    blend(px.3, published(c, m, y, false)[ch], published(c, m, y, true)[ch])
}

spec fn corner_y(px: (u8, u8, u8, u8), c: bool, m: bool, ch: int) -> int {
    blend(px.2, corner_k(px, c, m, false, ch), corner_k(px, c, m, true, ch))
}

spec fn corner_m(px: (u8, u8, u8, u8), c: bool, ch: int) -> int {
    blend(px.1, corner_y(px, c, false, ch), corner_y(px, c, true, ch))
}

proof fn lemma_blended(px: (u8, u8, u8, u8), ch: int)
    ensures
        blended(px, ch) == blend(px.0, corner_m(px, false, ch), corner_m(px, true, ch)),
{
}

proof fn lemma_even_k(px: (u8, u8, u8, u8), ink: int, x: u8, c: bool, m: bool, y: bool, ch: int)
    requires
        0 <= ink < 4,
    ensures
        255 * corner_k(with_ink(px, ink, x), c, m, y, ch) == x * corner_k(
            with_ink(px, ink, 255),
            c,
            m,
            y,
            ch,
        ) + (255 - x) * corner_k(with_ink(px, ink, 0), c, m, y, ch),
{
    let (a, b) = (published(c, m, y, false)[ch], published(c, m, y, true)[ch]);
    if ink == 3 {
        lemma_blend_even(x, a, b);
    } else {
        lemma_blend_same(x as int, corner_k(px, c, m, y, ch));
    }
}

proof fn lemma_blend_same(x: int, v: int)
    ensures
        255 * v == x * v + (255 - x) * v,
{
    assert(255 * v == x * v + (255 - x) * v) by (nonlinear_arith);
}

proof fn lemma_even_y(px: (u8, u8, u8, u8), ink: int, x: u8, c: bool, m: bool, ch: int)
    requires
        0 <= ink < 4,
    ensures
        255 * corner_y(with_ink(px, ink, x), c, m, ch) == x * corner_y(
            with_ink(px, ink, 255),
            c,
            m,
            ch,
        ) + (255 - x) * corner_y(with_ink(px, ink, 0), c, m, ch),
{
    let (p, t, b) = (with_ink(px, ink, x), with_ink(px, ink, 255), with_ink(px, ink, 0));
    if ink == 2 {
        lemma_blend_even(x, corner_k(px, c, m, false, ch), corner_k(px, c, m, true, ch));
    } else {
        lemma_even_k(px, ink, x, c, m, false, ch);
        lemma_even_k(px, ink, x, c, m, true, ch);
        lemma_blend_step(
            x as int,
            px.2,
            corner_k(p, c, m, false, ch),
            corner_k(t, c, m, false, ch),
            corner_k(b, c, m, false, ch),
            corner_k(p, c, m, true, ch),
            corner_k(t, c, m, true, ch),
            corner_k(b, c, m, true, ch),
        );
    }
}

proof fn lemma_even_m(px: (u8, u8, u8, u8), ink: int, x: u8, c: bool, ch: int)
    requires
        0 <= ink < 4,
    ensures
        255 * corner_m(with_ink(px, ink, x), c, ch) == x * corner_m(with_ink(px, ink, 255), c, ch)
            + (255 - x) * corner_m(with_ink(px, ink, 0), c, ch),
{
    let (p, t, b) = (with_ink(px, ink, x), with_ink(px, ink, 255), with_ink(px, ink, 0));
    if ink == 1 {
        lemma_blend_even(x, corner_y(px, c, false, ch), corner_y(px, c, true, ch));
    } else {
        lemma_even_y(px, ink, x, c, false, ch);
        lemma_even_y(px, ink, x, c, true, ch);
        lemma_blend_step(
            x as int,
            px.1,
            corner_y(p, c, false, ch),
            corner_y(t, c, false, ch),
            corner_y(b, c, false, ch),
            corner_y(p, c, true, ch),
            corner_y(t, c, true, ch),
            corner_y(b, c, true, ch),
        );
    }
}

proof fn lemma_even(px: (u8, u8, u8, u8), ink: int, x: u8, ch: int)
    requires
        0 <= ink < 4,
    ensures
        255 * blended(with_ink(px, ink, x), ch) == x * blended(with_ink(px, ink, 255), ch) + (255
            - x) * blended(with_ink(px, ink, 0), ch),
{
    let (p, t, b) = (with_ink(px, ink, x), with_ink(px, ink, 255), with_ink(px, ink, 0));
    lemma_blended(p, ch);
    lemma_blended(t, ch);
    lemma_blended(b, ch);
    if ink == 0 {
        lemma_blend_even(x, corner_m(px, false, ch), corner_m(px, true, ch));
    } else {
        lemma_even_m(px, ink, x, false, ch);
        lemma_even_m(px, ink, x, true, ch);
        lemma_blend_step(
            x as int,
            px.0,
            corner_m(p, false, ch),
            corner_m(t, false, ch),
            corner_m(b, false, ch),
            corner_m(p, true, ch),
            corner_m(t, true, ch),
            corner_m(b, true, ch),
        );
    }
}

/// The sum of a channel.
spec fn sum_in(px: (u8, u8, u8, u8), ch: int) -> int {
    let s = sums_of(16, px);
    if ch == 0 {
        s.0
    } else if ch == 1 {
        s.1
    } else {
        s.2
    }
}

/// How far the sum of a channel is from the blended one.
spec fn miss(px: (u8, u8, u8, u8), ch: int) -> int {
    255 * sum_in(px, ch) - 1_000_000 * blended(px, ch)
}

spec fn close(px: (u8, u8, u8, u8), ch: int) -> bool {
    -128 * WHOLE_WEIGHT <= miss(px, ch) <= 128 * WHOLE_WEIGHT
}

proof fn lemma_close(px: (u8, u8, u8, u8), ink: int, x: u8, ch: int)
    requires
        0 <= ink < 4,
        0 <= ch < 3,
        close(with_ink(px, ink, 255), ch),
        close(with_ink(px, ink, 0), ch),
    ensures
        close(with_ink(px, ink, x), ch),
{
    lemma_sums(16, px, ink, x);
    lemma_even(px, ink, x, ch);
    let (p, t, b) = (with_ink(px, ink, x), with_ink(px, ink, 255), with_ink(px, ink, 0));
    let (s, s1, s0) = (sum_in(p, ch), sum_in(t, ch), sum_in(b, ch));
    let (v, v1, v0) = (blended(p, ch), blended(t, ch), blended(b, ch));
    let w = 128 * WHOLE_WEIGHT as int;
    let y = x as int;
    assert(255 * (255 * s - 1_000_000 * v) == y * (255 * s1 - 1_000_000 * v1) + (255 - y) * (255
        * s0 - 1_000_000 * v0)) by (nonlinear_arith)
        requires
            255 * s == y * s1 + (255 - y) * s0,
            255 * v == y * v1 + (255 - y) * v0,
    ;
    let (m, m1, m0) = (miss(p, ch), miss(t, ch), miss(b, ch));
    assert(-w <= m <= w) by (nonlinear_arith)
        requires
            255 * m == y * m1 + (255 - y) * m0,
            -w <= m1 <= w,
            -w <= m0 <= w,
            0 <= y <= 255,
    ;
}

/// An amount of ink that is there in full, or not at all.
spec fn full(present: bool) -> u8 {
    if present {
        255
    } else {
        0
    }
}

/// The pixel of an overprint.
spec fn corner(mask: int) -> (u8, u8, u8, u8) {
    (full(mask % 2 == 1), full(mask / 2 % 2 == 1), full(mask / 4 % 2 == 1), full(mask / 8 == 1))
}

proof fn lemma_corner_weight(mask: int, at: int)
    requires
        0 <= mask < 16,
        0 <= at < 16,
    ensures
        weight_of(at, corner(mask)) == if at == mask {
            WHOLE_WEIGHT as int
        } else {
            0
        },
{
    let px = corner(mask);
    let (a, b, c, d) = (
        share(px.0, at % 2 == 1),
        share(px.1, at / 2 % 2 == 1),
        share(px.2, at / 4 % 2 == 1),
        share(px.3, at / 8 == 1),
    );
    if at == mask {
        assert(a == 255 && b == 255 && c == 255 && d == 255);
        assert(255 * 255 * (255 * 255) == 4_228_250_625) by (nonlinear_arith);
    } else {
        assert(a == 0 || b == 0 || c == 0 || d == 0);
        assert(a * b * (c * d) == 0) by (nonlinear_arith)
            requires
                a == 0 || b == 0 || c == 0 || d == 0,
        ;
    }
}

proof fn lemma_corner_sums(mask: int, n: int)
    requires
        0 <= mask < 16,
        0 <= n <= 16,
    ensures
        ({
            let s = sums_of(n, corner(mask));
            let p = primary(mask);
            &&& n <= mask ==> s == (0int, 0int, 0int)
            &&& n > mask ==> s.0 == WHOLE_WEIGHT * p.0 && s.1 == WHOLE_WEIGHT * p.1 && s.2
                == WHOLE_WEIGHT * p.2
        }),
    decreases n,
{
    if n > 0 {
        lemma_corner_sums(mask, n - 1);
        lemma_corner_weight(mask, n - 1);
        let p = primary(n - 1);
        assert(0 * p.0 == 0 && 0 * p.1 == 0 && 0 * p.2 == 0) by (nonlinear_arith);
    }
}

proof fn lemma_corner_blend(present: bool, a: int, b: int)
    ensures
        blend(full(present), a, b) == 255 * if present {
            b
        } else {
            a
        },
{
    assert(255 * a + 0 * b == 255 * a && 0 * a + 255 * b == 255 * b) by (nonlinear_arith);
}

proof fn lemma_corner_blended(mask: int, ch: int)
    requires
        0 <= mask < 16,
        0 <= ch < 3,
    ensures
        blended(corner(mask), ch) == WHOLE_WEIGHT * published(
            mask % 2 == 1,
            mask / 2 % 2 == 1,
            mask / 4 % 2 == 1,
            mask / 8 == 1,
        )[ch],
{
    let px = corner(mask);
    let (c, m, y, k) = (mask % 2 == 1, mask / 2 % 2 == 1, mask / 4 % 2 == 1, mask / 8 == 1);
    lemma_blended(px, ch);
    lemma_corner_blend(c, corner_m(px, false, ch), corner_m(px, true, ch));
    lemma_corner_blend(m, corner_y(px, c, false, ch), corner_y(px, c, true, ch));
    lemma_corner_blend(y, corner_k(px, c, m, false, ch), corner_k(px, c, m, true, ch));
    lemma_corner_blend(k, published(c, m, y, false)[ch], published(c, m, y, true)[ch]);
}

proof fn lemma_corner_close(mask: int, ch: int)
    requires
        0 <= mask < 16,
        0 <= ch < 3,
    ensures
        close(corner(mask), ch),
{
    lemma_corner_sums(mask, 16);
    lemma_corner_blended(mask, ch);
    let p = primary(mask);
    let v = if ch == 0 {
        p.0
    } else if ch == 1 {
        p.1
    } else {
        p.2
    };
    let q = published(mask % 2 == 1, mask / 2 % 2 == 1, mask / 4 % 2 == 1, mask / 8 == 1)[ch];
    assert(-128 <= 255 * v - 1_000_000 * q <= 128);
    assert(255 * (4_228_250_625 * v) - 1_000_000 * (4_228_250_625 * q) == 4_228_250_625 * (255 * v
        - 1_000_000 * q)) by (nonlinear_arith);
}

proof fn lemma_all_close(c: u8, m: u8, y: u8, k: u8, ch: int)
    requires
        0 <= ch < 3,
    ensures
        close((c, m, y, k), ch),
{
    assert forall|pc: bool, pm: bool, py: bool, pk: bool|
        close((#[trigger] full(pc), #[trigger] full(pm), #[trigger] full(py), #[trigger] full(pk)), ch) by {
        let mask = (if pc {
            1int
        } else {
            0
        }) + (if pm {
            2int
        } else {
            0
        }) + (if py {
            4int
        } else {
            0
        }) + (if pk {
            8int
        } else {
            0
        });
        lemma_corner_close(mask, ch);
        assert(corner(mask) == (full(pc), full(pm), full(py), full(pk)));
    }
    assert forall|pc: bool, pm: bool, py: bool|
        close((#[trigger] full(pc), #[trigger] full(pm), #[trigger] full(py), k), ch) by {
        let px = (full(pc), full(pm), full(py), k);
        assert(with_ink(px, 3, 255) == (full(pc), full(pm), full(py), full(true)));
        assert(with_ink(px, 3, 0) == (full(pc), full(pm), full(py), full(false)));
        lemma_close(px, 3, k, ch);
    }
    assert forall|pc: bool, pm: bool|
        close((#[trigger] full(pc), #[trigger] full(pm), y, k), ch) by {
        let px = (full(pc), full(pm), y, k);
        assert(with_ink(px, 2, 255) == (full(pc), full(pm), full(true), k));
        assert(with_ink(px, 2, 0) == (full(pc), full(pm), full(false), k));
        lemma_close(px, 2, y, ch);
    }
    assert forall|pc: bool| close((#[trigger] full(pc), m, y, k), ch) by {
        let px = (full(pc), m, y, k);
        assert(with_ink(px, 1, 255) == (full(pc), full(true), y, k));
        assert(with_ink(px, 1, 0) == (full(pc), full(false), y, k));
        lemma_close(px, 1, m, ch);
    }
    let px = (c, m, y, k);
    assert(with_ink(px, 0, 255) == (full(true), m, y, k));
    assert(with_ink(px, 0, 0) == (full(false), m, y, k));
    lemma_close(px, 0, c, ch);
}

proof fn lemma_blend_range(x: u8, a: int, b: int, top: int)
    requires
        0 <= a <= top,
        0 <= b <= top,
    ensures
        0 <= blend(x, a, b) <= 255 * top,
{
    let (p, q) = (255 - x as int, x as int);
    assert(0 <= p * a + q * b <= 255 * top) by (nonlinear_arith)
        requires
            0 <= a <= top,
            0 <= b <= top,
            0 <= p,
            0 <= q,
            p + q == 255,
    ;
}

/// Every color is the published colors blended along the four inks, to within
/// what the nearest byte and the sixth digit of a coefficient make out.
pub proof fn colors_are_blended(c: u8, m: u8, y: u8, k: u8, ch: int)
    requires
        0 <= ch < 3,
    ensures
        ({
            let off = ink_color(c, m, y, k)[ch] * WHOLE_WEIGHT - blended((c, m, y, k), ch);
            -500_128 * WHOLE_WEIGHT <= 1_000_000 * off <= 500_128 * WHOLE_WEIGHT
        }),
{
    let px = (c, m, y, k);
    lemma_all_close(c, m, y, k, ch);
    lemma_sums_positive(16, px);
    let s = sum_in(px, ch);
    let f = FULL_CHANNEL as int;
    let v = (2 * s + f) / (2 * f);
    assert(2 * f * v <= 2 * s + f < 2 * f * (v + 1)) by {
        vstd::arithmetic::div_mod::lemma_fundamental_div_mod(2 * s + f, 2 * f);
    }
    let top = blended(px, ch);
    assert(0 <= top <= 255 * WHOLE_WEIGHT) by {
        lemma_blended(px, ch);
        assert forall|a: bool, b: bool, d: bool|
            0 <= #[trigger] corner_k(px, a, b, d, ch) <= 65025 by {
            lemma_blend_range(px.3, published(a, b, d, false)[ch], published(a, b, d, true)[ch], 255);
        }
        assert forall|a: bool, b: bool| 0 <= #[trigger] corner_y(px, a, b, ch)
            <= 16581375 by {
            lemma_blend_range(
                px.2,
                corner_k(px, a, b, false, ch),
                corner_k(px, a, b, true, ch),
                65025int,
            );
        }
        assert forall|a: bool| 0 <= #[trigger] corner_m(px, a, ch) <= 4228250625 by {
            lemma_blend_range(
                px.1,
                corner_y(px, a, false, ch),
                corner_y(px, a, true, ch),
                16581375int,
            );
        }
        lemma_blend_range(px.0, corner_m(px, false, ch), corner_m(px, true, ch), 4228250625int);
    }
    assert(v <= 255);
    assert(ink_color(c, m, y, k)[ch] == v);
}

/// The overprint of some inks.
spec fn mask_of(c: bool, m: bool, y: bool, k: bool) -> int {
    (if c {
        1int
    } else {
        0
    }) + (if m {
        2int
    } else {
        0
    }) + (if y {
        4int
    } else {
        0
    }) + (if k {
        8int
    } else {
        0
    })
}

proof fn lemma_same_bytes(v: int, p: int)
    requires
        -500_128 * WHOLE_WEIGHT <= 1_000_000 * (v * WHOLE_WEIGHT - WHOLE_WEIGHT * p) <= 500_128
            * WHOLE_WEIGHT,
    ensures
        v == p,
{
    let d = v - p;
    assert(v * WHOLE_WEIGHT - WHOLE_WEIGHT * p == WHOLE_WEIGHT * d);
}

proof fn lemma_corner_channel(c: bool, m: bool, y: bool, k: bool, ch: int)
    requires
        0 <= ch < 3,
    ensures
        ink_color(full(c), full(m), full(y), full(k))[ch] == published(c, m, y, k)[ch],
{
    let mask = mask_of(c, m, y, k);
    assert((mask % 2 == 1) == c && (mask / 2 % 2 == 1) == m && (mask / 4 % 2 == 1) == y && (mask / 8
        == 1) == k);
    lemma_corner_blended(mask, ch);
    colors_are_blended(full(c), full(m), full(y), full(k), ch);
    lemma_same_bytes(
        ink_color(full(c), full(m), full(y), full(k))[ch] as int,
        published(c, m, y, k)[ch],
    );
}

proof fn lemma_three_channels(c: bool, m: bool, y: bool, k: bool)
    ensures
        ({
            let color = ink_color(full(c), full(m), full(y), full(k));
            let bytes = published(c, m, y, k);
            color.len() == 3 && color[0] == bytes[0] && color[1] == bytes[1] && color[2] == bytes[2]
        }),
{
    lemma_corner_channel(c, m, y, k, 0);
    lemma_corner_channel(c, m, y, k, 1);
    lemma_corner_channel(c, m, y, k, 2);
}

/// An overprint of full inks has its published color.
pub proof fn overprints_have_their_colors()
    ensures
        ink_color(0, 0, 0, 0) == seq![254u8, 254u8, 254u8],
        ink_color(255, 0, 0, 0) == seq![0u8, 175u8, 239u8],
        ink_color(0, 255, 0, 0) == seq![236u8, 38u8, 143u8],
        ink_color(255, 255, 0, 0) == seq![62u8, 63u8, 149u8],
        ink_color(0, 0, 255, 0) == seq![255u8, 242u8, 17u8],
        ink_color(255, 0, 255, 0) == seq![0u8, 168u8, 89u8],
        ink_color(0, 255, 255, 0) == seq![237u8, 50u8, 55u8],
        ink_color(255, 255, 255, 0) == seq![68u8, 68u8, 70u8],
        ink_color(0, 0, 0, 255) == seq![55u8, 52u8, 53u8],
        ink_color(255, 0, 0, 255) == seq![17u8, 45u8, 55u8],
        ink_color(0, 255, 0, 255) == seq![55u8, 26u8, 36u8],
        ink_color(255, 255, 0, 255) == seq![34u8, 25u8, 41u8],
        ink_color(0, 0, 255, 255) == seq![51u8, 50u8, 32u8],
        ink_color(255, 0, 255, 255) == seq![19u8, 46u8, 34u8],
        ink_color(0, 255, 255, 255) == seq![55u8, 31u8, 29u8],
        ink_color(255, 255, 255, 255) == seq![32u8, 31u8, 31u8],
{
    lemma_three_channels(false, false, false, false);
    lemma_three_channels(true, false, false, false);
    lemma_three_channels(false, true, false, false);
    lemma_three_channels(true, true, false, false);
    lemma_three_channels(false, false, true, false);
    lemma_three_channels(true, false, true, false);
    lemma_three_channels(false, true, true, false);
    lemma_three_channels(true, true, true, false);
    lemma_three_channels(false, false, false, true);
    lemma_three_channels(true, false, false, true);
    lemma_three_channels(false, true, false, true);
    lemma_three_channels(true, true, false, true);
    lemma_three_channels(false, false, true, true);
    lemma_three_channels(true, false, true, true);
    lemma_three_channels(false, true, true, true);
    lemma_three_channels(true, true, true, true);
}

/// Every pixel of CMYK data becomes the color of its own four inks, three
/// bytes in its own place.
pub proof fn pixels_convert_one_by_one(data: Seq<u8>, n: int, i: int, ch: int)
    requires
        0 <= i < n,
        0 <= ch < 3,
    ensures
        converted(data, n).len() == 3 * n,
        converted(data, n)[3 * i + ch] == ink_color(
            data[4 * i],
            data[4 * i + 1],
            data[4 * i + 2],
            data[4 * i + 3],
        )[ch],
    decreases n,
{
    if i < n - 1 {
        pixels_convert_one_by_one(data, n - 1, i, ch);
    } else if n > 1 {
        pixels_convert_one_by_one(data, n - 1, n - 2, 0);
    } else {
        assert(converted(data, 0).len() == 0);
    }
    let last = ink_color(data[4 * n - 4], data[4 * n - 3], data[4 * n - 2], data[4 * n - 1]);
    assert(last.len() == 3);
    assert(converted(data, n) == converted(data, n - 1) + last);
}

/// A pixel that the ink covers to 76 parts of 255 or more is ink, whichever of
/// the two colors the ink has, and the others are not.
pub proof fn ink_is_kept_by_its_coverage(gray: Seq<u8>, i: int)
    requires
        0 <= i < gray.len(),
    ensures
        thresholded(gray, true)[i] == 0 <==> 255 - gray[i] >= 76,
        thresholded(gray, true)[i] == 255 <==> 255 - gray[i] < 76,
        thresholded(gray, false)[i] == 255 <==> gray[i] >= 76,
        thresholded(gray, false)[i] == 0 <==> gray[i] < 76,
{
}

/// A window shows what stood at its place: byte `c` of its row `y` is the byte
/// so far behind the left edge in the row so far below the top edge.
pub proof fn windows_show_their_place(
    from: raster::RasterView,
    r: PixelRect,
    y: int,
    c: int,
)
    requires
        from.format != Format::Gray1,
        r.x + r.w <= from.width,
        r.y + r.h <= from.height,
        0 <= y < r.h,
        0 <= c < r.w * from.format.samples(),
    ensures
        ({
            let n = from.format.samples();
            &&& cropped(from, r) matches Some(out) && out.width == r.w && out.height == r.h
                && out.format == from.format && out.data[y * (r.w * n) + c] == from.data[(r.y + y)
                * (from.width * n) + (r.x * n + c)]
        }),
{
    let n = from.format.samples();
    let wide = r.w * n;
    assert(r.w > 0) by (nonlinear_arith)
        requires
            c < r.w * n,
            0 <= c,
            r.w >= 0,
    ;
    raster::lemma_place(y, c, wide);
    raster::lemma_within(y, c, wide, r.h as int);
    assert(window(from, r, n).len() == wide * r.h);
}

/// A color image is turned gray only where every pixel is: three equal
/// channels, or no ink but black; and each pixel keeps its lightness.
pub proof fn gray_images_keep_their_lightness(from: raster::RasterView, i: int)
    requires
        0 <= i < from.width * from.height,
    ensures
        grayed(from) matches Some(g) ==> {
            &&& g.format == Format::Gray8 && g.width == from.width && g.height == from.height
            &&& from.format == Format::Rgb8 || from.format == Format::Cmyk8
            &&& from.format == Format::Rgb8 ==> from.data[3 * i] == g.data[i] && from.data[3 * i
                + 1] == g.data[i] && from.data[3 * i + 2] == g.data[i]
            &&& from.format == Format::Cmyk8 ==> from.data[4 * i] == 0 && from.data[4 * i + 1] == 0
                && from.data[4 * i + 2] == 0 && from.data[4 * i + 3] == 255 - g.data[i]
        },
{
    if grayed(from) is Some {
        assert(gray_pixel(from.format, from.data, i) is Some);
    }
}

} // verus!
