//! Turn an image stream into a [`Raster`].
//!
//! Handled: raw or standard-filter samples (lopdf applies Flate, LZW,
//! RunLength, ASCII filters and PNG/TIFF predictors) at 1, 2, 4, 8 and 16
//! bits in Gray, RGB, CMYK and Indexed spaces, with `Decode` arrays; DCT
//! via zune-jpeg; CCITT, JBIG2 and JPX via hayro's decoders; and
//! Separation, DeviceN and Lab samples mapped into their device
//! alternate. Everything else returns `Skip` with the reason, and the
//! caller keeps the image untouched.
use vstd::prelude::*;
use vstd::string::StringExecFns;

use hayro_jpeg2000::{ColorSpace as JpxColor, DecodeSettings, DecoderContext, Image};
use zune_core::bytestream::ZCursor;
use zune_core::colorspace::ColorSpace as ZColor;
use zune_core::options::DecoderOptions;
use zune_jpeg::JpegDecoder;

use crate::backend;
use crate::bytes;
use crate::document;
use crate::document::Pdf;
use crate::font::decimal;
use crate::font::decimal::Decimal;
use crate::font::std14;
use crate::images::classify;
use crate::images::classify::{Class, ColorModel, ColorSpace, ImageInfo, Mapping};
use crate::images::encode;
use crate::images::function;
use crate::images::function::Quantity;
use crate::images::jp2;
use crate::images::raster;
use crate::images::raster::{Format, Raster};
use crate::object;
use crate::object::{DataStream, Dict, Value, ValueView};
use crate::text;

verus! {

/// The most bytes that an image may have.
pub const MAX_DECODED_BYTES: usize = 536_870_912;

/// Why an image was left alone. Shown in the report.
#[derive(Debug, PartialEq, Eq)]
pub struct Skip(pub String);

fn skip(reason: &str) -> (r: Skip)
    ensures
        r.0@ == reason@,
{
    Skip(reason.to_owned())
}

fn skip_with(reason: &str, detail: &String) -> (r: Skip)
    ensures
        r.0@ == reason@ + detail@,
{
    let mut s = reason.to_owned();
    s.append(detail.as_str());
    Skip(s)
}

/// What a step gives: an image, or why there is none.
pub open spec fn outcome(r: Result<Raster, Skip>) -> Result<raster::RasterView, Seq<char>> {
    match r {
        Ok(image) => Ok(image@),
        Err(why) => Err(why.0@),
    }
}

// ------------------------------------------------------------- samples

/// A depth that samples of device colors may have.
pub open spec fn plain_depth(bpc: u8) -> bool {
    bpc == 1 || bpc == 2 || bpc == 4 || bpc == 8 || bpc == 16
}

/// The layout that an image's samples unpack to.
pub open spec fn sample_format_of(info: classify::InfoView) -> Option<Format> {
    if info.bpc == 1 && classify::class_of(info) == Class::Bitonal {
        Some(Format::Gray1)
    } else {
        match info.color {
            classify::SpaceView::Indexed { .. } => if plain_depth(info.bpc) && info.bpc != 16 {
                Some(Format::Indexed8)
            } else {
                None
            },
            classify::SpaceView::Device(m) => if plain_depth(info.bpc) {
                Some(device_format_of(m))
            } else {
                None
            },
            _ => None,
        }
    }
}

/// The layout of a device model.
pub open spec fn device_format_of(m: ColorModel) -> Format {
    match m {
        ColorModel::Gray => Format::Gray8,
        ColorModel::Rgb => Format::Rgb8,
        ColorModel::Cmyk => Format::Cmyk8,
    }
}

/// The layout of a device model.
pub fn device_format(m: ColorModel) -> (r: Format)
    ensures
        r == device_format_of(m),
{
    match m {
        ColorModel::Gray => Format::Gray8,
        ColorModel::Rgb => Format::Rgb8,
        ColorModel::Cmyk => Format::Cmyk8,
    }
}

fn sample_format(info: &ImageInfo) -> (r: Option<Format>)
    ensures
        r == sample_format_of(info@),
{
    let bpc = info.bpc;
    if bpc == 1 && info.class() == Class::Bitonal {
        return Some(Format::Gray1);
    }
    let plain = bpc == 1 || bpc == 2 || bpc == 4 || bpc == 8 || bpc == 16;
    match &info.color {
        ColorSpace::Indexed { .. } => if plain && bpc != 16 {
            Some(Format::Indexed8)
        } else {
            None
        },
        ColorSpace::Device(m) => if plain {
            Some(device_format(*m))
        } else {
            None
        },
        _ => None,
    }
}

/// How many bytes a row of `count` samples takes.
pub open spec fn packed_len(count: int, bpc: int) -> int {
    (count * bpc + 7) / 8
}

/// A sample of a row.
pub open spec fn sample_at(data: Seq<u8>, row_in: int, row: int, column: int, bpc: int) -> int {
    function::bits_value(encode::row_at(data, row_in, row), column * bpc, bpc)
}

/// A sample as a byte: scaled to the full range, but for indices.
pub open spec fn sample_byte(v: int, bpc: int, indices: bool) -> u8 {
    if bpc == 16 {
        (v / 256) as u8
    } else if bpc == 8 || indices {
        v as u8
    } else if bpc == 4 {
        (v * 17) as u8
    } else if bpc == 2 {
        (v * 85) as u8
    } else {
        (v * 255) as u8
    }
}

/// Rows of `count` samples, one byte each.
pub open spec fn unpacked_rows(
    data: Seq<u8>,
    count: int,
    height: int,
    bpc: int,
    indices: bool,
) -> Seq<u8> {
    Seq::new(
        (count * height) as nat,
        |i: int|
            sample_byte(
                sample_at(data, packed_len(count, bpc), i / count, i % count, bpc),
                bpc,
                indices,
            ),
    )
}

proof fn lemma_sample_bound(data: Seq<u8>, pos: int, n: int)
    requires
        n == 1 || n == 2 || n == 4 || n == 8 || n == 16,
    ensures
        0 <= function::bits_value(data, pos, n),
        n == 1 ==> function::bits_value(data, pos, n) < 2,
        n == 2 ==> function::bits_value(data, pos, n) < 4,
        n == 4 ==> function::bits_value(data, pos, n) < 16,
        n == 8 ==> function::bits_value(data, pos, n) < 256,
        n == 16 ==> function::bits_value(data, pos, n) < 65536,
{
    reveal_with_fuel(function::bits_value, 17);
}

fn to_byte(v: u64, bpc: u8, indices: bool) -> (r: u8)
    requires
        plain_depth(bpc),
        bpc == 1 ==> v < 2,
        bpc == 2 ==> v < 4,
        bpc == 4 ==> v < 16,
        bpc == 8 ==> v < 256,
        bpc == 16 ==> v < 65536,
    ensures
        r == sample_byte(v as int, bpc as int, indices),
{
    if bpc == 16 {
        (v / 256) as u8
    } else if bpc == 8 || indices {
        v as u8
    } else if bpc == 4 {
        (v * 17) as u8
    } else if bpc == 2 {
        (v * 85) as u8
    } else {
        (v * 255) as u8
    }
}

/// Expand samples of any supported depth to one byte each, scaling to the
/// full 0..255 range (indices are not scaled).
fn unpack_to_8bit(data: &Vec<u8>, count: u64, height: u32, bpc: u8, indices: bool) -> (r: Vec<u8>)
    requires
        plain_depth(bpc),
        0 < count <= 0x4_0000_0000,
        packed_len(count as int, bpc as int) * height <= data@.len(),
    ensures
        r@ == unpacked_rows(data@, count as int, height as int, bpc as int, indices),
{
    let len: usize = data.len();
    let ghost goal = unpacked_rows(data@, count as int, height as int, bpc as int, indices);
    let ghost w = count as int;
    let ghost row_in = packed_len(w, bpc as int);
    assert(0 < w * bpc <= 0x4_0000_0000 * 16) by (nonlinear_arith)
        requires
            0 < w <= 0x4_0000_0000,
            1 <= bpc <= 16,
    ;
    let row_len: u64 = (count * bpc as u64 + 7) / 8;
    let mut out: Vec<u8> = Vec::new();
    let mut y: u32 = 0;
    assert(goal.take(0) =~= Seq::empty());
    assert(0 * w == 0);
    while y < height
        invariant
            y <= height,
            plain_depth(bpc),
            w == count,
            0 < count <= 0x4_0000_0000,
            row_len == row_in == packed_len(w, bpc as int),
            row_in > 0,
            row_in * height <= len,
            len == data@.len(),
            goal == unpacked_rows(data@, w, height as int, bpc as int, indices),
            out@ == goal.take(y * w),
        decreases height - y,
    {
        proof {
            raster::lemma_within(y as int, row_in - 1, row_in, height as int);
        }
        let size: usize = row_len as usize;
        let start: usize = y as usize * size;
        let row = bytes::copy_range(data, start, start + size);
        assert(row@ =~= encode::row_at(data@, row_in, y as int));
        let mut x: u64 = 0;
        while x < count
            invariant
                x <= count,
                y < height,
                plain_depth(bpc),
                w == count,
                0 < count <= 0x4_0000_0000,
                row_in == packed_len(w, bpc as int),
                row@ == encode::row_at(data@, row_in, y as int),
                goal == unpacked_rows(data@, w, height as int, bpc as int, indices),
                out@ == goal.take(y * w + x),
            decreases count - x,
        {
            assert(0 <= x * bpc <= 0x4_0000_0000 * 16) by (nonlinear_arith)
                requires
                    0 <= x <= 0x4_0000_0000,
                    1 <= bpc <= 16,
            ;
            let v = function::read_bits(&row, x * bpc as u64, bpc as u32);
            proof {
                lemma_sample_bound(row@, x * bpc, bpc as int);
                raster::lemma_within(y as int, x as int, w, height as int);
                raster::lemma_place(y as int, x as int, w);
            }
            out.push(to_byte(v, bpc, indices));
            assert(goal[y * w + x] == out@[y * w + x]);
            assert(out@ =~= goal.take(y * w + x + 1));
            x += 1;
        }
        assert(y * w + w == (y + 1) * w) by (nonlinear_arith);
        y += 1;
    }
    assert(y * w == w * height) by (nonlinear_arith)
        requires
            y == height,
    ;
    assert(out@ =~= goal);
    out
}

/// How many samples a pixel has in the data.
pub open spec fn stored_components(s: classify::SpaceView) -> int {
    match s {
        classify::SpaceView::Device(m) => classify::components_of(m),
        _ => 1,
    }
}

/// The image that samples make, as far as they are read: none at a depth that
/// is not supported, or where data are missing.
pub open spec fn samples_image(data: Seq<u8>, info: classify::InfoView) -> Result<
    raster::RasterView,
    Seq<char>,
> {
    match sample_format_of(info) {
        None => Err(text::number(info.bpc as nat) + " bits per component"@),
        Some(format) => {
            let other = info.color matches classify::SpaceView::Other(_);
            let count = info.width * stored_components(info.color);
            let row_in = packed_len(count, info.bpc as int);
            if other {
                Err(info.color->Other_0 + " color space"@)
            } else if data.len() < row_in * info.height {
                Err("sample data is shorter than the image"@)
            } else {
                Ok(
                    raster::RasterView {
                        width: info.width as int,
                        height: info.height as int,
                        format,
                        data: if format == Format::Gray1 {
                            data.take(row_in * info.height)
                        } else {
                            unpacked_rows(
                                data,
                                count,
                                info.height as int,
                                info.bpc as int,
                                format == Format::Indexed8,
                            )
                        },
                    },
                )
            }
        },
    }
}

/// A stencil has one sample per pixel.
pub open spec fn one_plane(info: classify::InfoView) -> bool {
    info.is_stencil ==> stored_components(info.color) == 1
}

/// The image that samples make.
pub fn unpack_samples(data: &Vec<u8>, info: &ImageInfo) -> (r: Result<Raster, Skip>)
    requires
        info.width > 0,
        info.height > 0,
    ensures
        outcome(r) == samples_image(data@, info@),
        r is Ok && one_plane(info@) ==> r->Ok_0.wf(),
{
    let format = match sample_format(info) {
        Some(f) => f,
        None => {
            let mut why = text::of_number(info.bpc as u128);
            why.append(" bits per component");
            return Err(Skip(why));
        },
    };
    let components: u64 = match &info.color {
        ColorSpace::Device(m) => classify::components(*m) as u64,
        ColorSpace::Other(s) => {
            let mut why = s.clone();
            why.append(" color space");
            return Err(Skip(why));
        },
        _ => 1,
    };
    let ghost n = stored_components(info@.color);
    let ghost w = info.width * n;
    assert(0 < w <= 0x4_0000_0000) by (nonlinear_arith)
        requires
            w == info.width * n,
            0 < info.width <= 0xFFFF_FFFF,
            1 <= n <= 4,
    ;
    let count: u64 = info.width as u64 * components;
    let bpc = info.bpc;
    assert(0 <= w * bpc <= 0x4_0000_0000 * 255) by (nonlinear_arith)
        requires
            0 < w <= 0x4_0000_0000,
            0 <= bpc <= 255,
    ;
    let row_in: u64 = (count * bpc as u64 + 7) / 8;
    assert(0 <= row_in * info.height <= 0x100_0000_0000 * 0xFFFF_FFFF) by (nonlinear_arith)
        requires
            0 <= row_in <= 0x100_0000_0000,
            0 <= info.height <= 0xFFFF_FFFF,
    ;
    let need: u128 = row_in as u128 * info.height as u128;
    if (data.len() as u128) < need {
        return Err(skip("sample data is shorter than the image"));
    }
    if format == Format::Gray1 {
        let rows = bytes::copy_range(data, 0, need as usize);
        assert(rows@ =~= data@.take(need as int));
        return Ok(
            Raster { width: info.width, height: info.height, format: Format::Gray1, data: rows },
        );
    }
    let out = unpack_to_8bit(data, count, info.height, bpc, format == Format::Indexed8);
    Ok(Raster { width: info.width, height: info.height, format, data: out })
}

// ------------------------------------------------------------- Decode arrays

/// A number that is zero or one.
pub open spec fn is_unit(q: function::QuantityView, one: bool) -> bool {
    match q {
        function::QuantityView::Whole(i) => i == if one {
            1int
        } else {
            0
        },
        function::QuantityView::Text(t) => decimal::decimal_of(t) == Some(
            Decimal {
                digits: if one {
                    1
                } else {
                    0
                },
                exponent: 0,
            },
        ),
    }
}

fn unit(q: &Quantity, one: bool) -> (r: bool)
    ensures
        r == is_unit(q@, one),
{
    match q {
        Quantity::Whole(i) => *i == if one {
            1i64
        } else {
            0
        },
        Quantity::Text(t) => match Decimal::parse(t) {
            Some(d) => d.exponent == 0 && d.digits == if one {
                1i128
            } else {
                0
            },
            None => false,
        },
    }
}

/// An image with every bit flipped.
pub open spec fn inverted(r: raster::RasterView) -> raster::RasterView {
    raster::RasterView { data: r.data.map_values(|b: u8| !b), ..r }
}

/// How far an image is decoded.
pub enum Decoded {
    /// Decoded in full.
    Done(Raster),
    /// All but the `Decode` array, whose tables [`apply_tables`] takes.
    Tables(Raster),
    /// Colors that are still YCCK, the `Decode` array not applied.
    Ycck(Raster),
    /// Group 3 or 4 data with its parameters.
    Fax { data: Vec<u8>, parms: Option<Dict> },
    /// JBIG2 data with its globals.
    Jbig2 { data: Vec<u8>, globals: Option<Vec<u8>> },
    /// Samples that a mapping turns into device colors, pixel by pixel.
    Mapped { mapping: Mapping, rows: Rows, bpc: u8, decode: Vec<Quantity> },
}

/// How far an image is decoded.
pub enum DecodedView {
    Done(raster::RasterView),
    Tables(raster::RasterView),
    Ycck(raster::RasterView),
    Fax { data: Seq<u8>, parms: Option<object::DictView> },
    Jbig2 { data: Seq<u8>, globals: Option<Seq<u8>> },
    Mapped {
        mapping: classify::MappingView,
        rows: RowsView,
        bpc: u8,
        decode: Seq<function::QuantityView>,
    },
}

impl View for Decoded {
    type V = DecodedView;

    open spec fn view(&self) -> DecodedView {
        match *self {
            Decoded::Done(r) => DecodedView::Done(r@),
            Decoded::Tables(r) => DecodedView::Tables(r@),
            Decoded::Ycck(r) => DecodedView::Ycck(r@),
            Decoded::Fax { data, parms } => DecodedView::Fax {
                data: data@,
                parms: dict_view(parms),
            },
            Decoded::Jbig2 { data, globals } => DecodedView::Jbig2 {
                data: data@,
                globals: backend::bytes_view(globals),
            },
            Decoded::Mapped { mapping, rows, bpc, decode } => DecodedView::Mapped {
                mapping: mapping@,
                rows: rows@,
                bpc,
                decode: function::quantities_view(decode@),
            },
        }
    }
}

pub open spec fn dict_view(d: Option<Dict>) -> Option<object::DictView> {
    match d {
        Some(d) => Some(d@),
        None => None,
    }
}

/// What decoding gives: how far it went, or why it did not start.
pub open spec fn step(r: Result<Decoded, Skip>) -> Result<DecodedView, Seq<char>> {
    match r {
        Ok(d) => Ok(d@),
        Err(why) => Err(why.0@),
    }
}

/// An image under a `Decode` array: as it is without one; flipped or as it is
/// where it is bitonal; through tables otherwise.
pub open spec fn under_decode(
    r: raster::RasterView,
    decode: Option<Seq<function::QuantityView>>,
) -> Result<DecodedView, Seq<char>> {
    match decode {
        None => Ok(DecodedView::Done(r)),
        Some(d) => if d.len() < 2 * r.format.samples() {
            Err("short Decode array"@)
        } else if r.format != Format::Gray1 {
            Ok(DecodedView::Tables(r))
        } else if is_unit(d[0], false) && is_unit(d[1], true) {
            Ok(DecodedView::Done(r))
        } else if is_unit(d[0], true) && is_unit(d[1], false) {
            Ok(DecodedView::Done(inverted(r)))
        } else {
            Err("fractional Decode array on a bitonal image"@)
        },
    }
}

fn invert(raster: &Raster) -> (r: Raster)
    ensures
        r@ == inverted(raster@),
        raster.wf() ==> r.wf(),
{
    let mut out: Vec<u8> = Vec::new();
    let ghost goal = inverted(raster@).data;
    let mut i: usize = 0;
    while i < raster.data.len()
        invariant
            i <= raster.data@.len(),
            goal == inverted(raster@).data,
            out@ == goal.take(i as int),
        decreases raster.data@.len() - i,
    {
        out.push(!raster.data[i]);
        i += 1;
        assert(out@ =~= goal.take(i as int));
    }
    assert(out@ =~= goal);
    Raster { width: raster.width, height: raster.height, format: raster.format, data: out }
}

/// Apply a `Decode` array. Bitonal images accept the identity and full
/// inversion; other samples go through a lookup table per component.
pub fn apply_decode(raster: Raster, decode: &Option<Vec<Quantity>>) -> (r: Result<Decoded, Skip>)
    ensures
        step(r) == under_decode(raster@, function::some_quantities(*decode)),
        raster.wf() ==> match r {
            Ok(Decoded::Done(image)) => image.wf(),
            Ok(Decoded::Tables(image)) => image.wf(),
            _ => true,
        },
{
    let d = match decode {
        Some(d) => d,
        None => {
            return Ok(Decoded::Done(raster));
        },
    };
    let ghost view = function::quantities_view(d@);
    if d.len() / 2 < raster.format.samples_per_pixel() {
        return Err(skip("short Decode array"));
    }
    if raster.format != Format::Gray1 {
        return Ok(Decoded::Tables(raster));
    }
    assert(view[0] == d@[0]@ && view[1] == d@[1]@);
    if unit(&d[0], false) && unit(&d[1], true) {
        Ok(Decoded::Done(raster))
    } else if unit(&d[0], true) && unit(&d[1], false) {
        Ok(Decoded::Done(invert(&raster)))
    } else {
        Err(skip("fractional Decode array on a bitonal image"))
    }
}

/// An image with every sample looked up in its component's table.
pub open spec fn looked_up(r: raster::RasterView, tables: Seq<Seq<u8>>) -> raster::RasterView {
    raster::RasterView {
        data: Seq::new(
            r.data.len(),
            |i: int| tables[i % r.format.samples()][r.data[i] as int],
        ),
        ..r
    }
}

/// An image with every sample looked up in its component's table.
pub fn apply_tables(raster: Raster, tables: &Vec<Vec<u8>>) -> (r: Raster)
    requires
        tables@.len() >= raster.format.samples(),
        forall|i: int| 0 <= i < tables@.len() ==> (#[trigger] tables@[i])@.len() == 256,
    ensures
        r@ == looked_up(raster@, classify::names_view(tables@)),
        raster.wf() ==> r.wf(),
{
    let n: usize = raster.format.samples_per_pixel();
    let ghost views = classify::names_view(tables@);
    let ghost goal = looked_up(raster@, views).data;
    let mut out: Vec<u8> = Vec::new();
    let mut i: usize = 0;
    while i < raster.data.len()
        invariant
            i <= raster.data@.len(),
            n == raster.format.samples(),
            1 <= n <= tables@.len(),
            forall|k: int| 0 <= k < tables@.len() ==> (#[trigger] tables@[k])@.len() == 256,
            views == classify::names_view(tables@),
            goal == looked_up(raster@, views).data,
            out@ == goal.take(i as int),
        decreases raster.data@.len() - i,
    {
        let table = &tables[i % n];
        assert(views[(i % n) as int] == table@);
        out.push(table[raster.data[i] as usize]);
        i += 1;
        assert(out@ =~= goal.take(i as int));
    }
    assert(out@ =~= goal);
    Raster { width: raster.width, height: raster.height, format: raster.format, data: out }
}

// ------------------------------------------------------------- codestream

/// A filter that may stand in front of an image codec.
pub open spec fn is_standard(f: Seq<u8>) -> bool {
    ||| f == bytes::text("FlateDecode"@)
    ||| f == bytes::text("LZWDecode"@)
    ||| f == bytes::text("RunLengthDecode"@)
    ||| f == bytes::text("ASCII85Decode"@)
    ||| f == bytes::text("ASCIIHexDecode"@)
    ||| f == bytes::text("Fl"@)
}

fn standard(f: &Vec<u8>) -> (r: bool)
    ensures
        r == is_standard(f@),
{
    bytes::is_text(f, "FlateDecode") || bytes::is_text(f, "LZWDecode") || bytes::is_text(
        f,
        "RunLengthDecode",
    ) || bytes::is_text(f, "ASCII85Decode") || bytes::is_text(f, "ASCIIHexDecode")
        || bytes::is_text(f, "Fl")
}

/// Names as objects.
pub open spec fn name_objects(names: Seq<Seq<u8>>) -> Seq<ValueView> {
    names.map_values(|n: Seq<u8>| ValueView::Name(n))
}

/// The dictionary of what stands in front of the codec: the filters before the
/// last with the parameters that belong to them.
pub open spec fn wrapper_dict(d: object::DictView, filters: Seq<Seq<u8>>) -> object::DictView {
    let front = object::with_entry(
        Seq::empty(),
        bytes::text("Filter"@),
        ValueView::Array(name_objects(filters.drop_last())),
    );
    match object::lookup(d, bytes::text("DecodeParms"@)) {
        Some(ValueView::Array(parms)) => object::with_entry(
            front,
            bytes::text("DecodeParms"@),
            ValueView::Array(
                parms.take(
                    if parms.len() < filters.len() - 1 {
                        parms.len() as int
                    } else {
                        filters.len() - 1
                    },
                ),
            ),
        ),
        _ => front,
    }
}

/// What a failure is reported as.
pub open spec fn reported(reason: Seq<char>, r: Result<Seq<u8>, Seq<char>>) -> Result<
    Seq<u8>,
    Seq<char>,
> {
    match r {
        Ok(b) => Ok(b),
        Err(e) => Err(reason + e),
    }
}

/// The bytes that the image codec sees.
pub open spec fn codestream_of(
    d: object::DictView,
    content: Seq<u8>,
    filters: Seq<Seq<u8>>,
) -> Result<Seq<u8>, Seq<char>> {
    if filters.len() == 0 {
        Ok(content)
    } else if classify::codec_from(filters, 0) != Some(filters.last()) {
        Err("image codec is not the last filter"@)
    } else if filters.len() == 1 {
        Ok(content)
    } else if exists|i: int|
        0 <= i < filters.len() - 1 && !is_standard(#[trigger] filters[i]) {
        Err("unsupported filter in front of the image codec"@)
    } else {
        reported(
            "wrapper filters do not decode: "@,
            backend::decompressed(wrapper_dict(d, filters), content, MAX_DECODED_BYTES),
        )
    }
}

pub open spec fn bytes_step(r: Result<Vec<u8>, Skip>) -> Result<Seq<u8>, Seq<char>> {
    match r {
        Ok(b) => Ok(b@),
        Err(why) => Err(why.0@),
    }
}

fn front_filters(filters: &Vec<Vec<u8>>) -> (r: Option<Vec<Value>>)
    requires
        filters@.len() > 0,
    ensures
        ({
            let view = classify::names_view(filters@);
            match r {
                Some(v) => object::objects_view(v@) == name_objects(view.drop_last()) && forall|
                    i: int,
                |
                    0 <= i < view.len() - 1 ==> is_standard(#[trigger] view[i]),
                None => exists|i: int|
                    0 <= i < view.len() - 1 && !is_standard(#[trigger] view[i]),
            }
        }),
{
    let ghost view = classify::names_view(filters@);
    let ghost goal = name_objects(view.drop_last());
    let mut out: Vec<Value> = Vec::new();
    let mut i: usize = 0;
    assert(object::objects_view(out@) =~= goal.take(0));
    while i < filters.len() - 1
        invariant
            i <= filters@.len() - 1,
            view == classify::names_view(filters@),
            goal == name_objects(view.drop_last()),
            object::objects_view(out@) == goal.take(i as int),
            forall|k: int| 0 <= k < i ==> is_standard(#[trigger] view[k]),
        decreases filters@.len() - i,
    {
        let ghost before = object::objects_view(out@);
        assert(view[i as int] == filters@[i as int]@);
        if !standard(&filters[i]) {
            return None;
        }
        let name = Value::Name(bytes::copy(&filters[i]));
        assert(name@ == goal[i as int]);
        out.push(name);
        assert(object::objects_view(out@) =~= before.push(goal[i as int]));
        i += 1;
        assert(object::objects_view(out@) =~= goal.take(i as int));
    }
    assert(goal.take(i as int) =~= goal);
    Some(out)
}

fn first_items(items: &Vec<Value>, n: usize) -> (r: Vec<Value>)
    requires
        n <= items@.len(),
    ensures
        object::objects_view(r@) == object::objects_view(items@).take(n as int),
{
    let ghost goal = object::objects_view(items@);
    let mut out: Vec<Value> = Vec::new();
    let mut i: usize = 0;
    assert(object::objects_view(out@) =~= goal.take(0));
    while i < n
        invariant
            i <= n <= items@.len(),
            goal == object::objects_view(items@),
            object::objects_view(out@) == goal.take(i as int),
        decreases n - i,
    {
        let ghost before = object::objects_view(out@);
        out.push(items[i].copied());
        assert(object::objects_view(out@) =~= before.push(goal[i as int]));
        i += 1;
        assert(object::objects_view(out@) =~= goal.take(i as int));
    }
    out
}

/// The bytes the image codec sees: the stored bytes with any standard
/// filters in front of the codec applied (pdflatex wraps JPEGs in Flate).
/// The codec must be the last filter.
pub fn codestream(stream: &DataStream, info: &ImageInfo) -> (r: Result<Vec<u8>, Skip>)
    ensures
        bytes_step(r) == codestream_of(stream.dict@, stream.content@, info@.filters),
{
    let n: usize = info.filters.len();
    let ghost view = classify::names_view(info.filters@);
    if n == 0 {
        return Ok(bytes::copy(&stream.content));
    }
    let last = &info.filters[n - 1];
    assert(view.last() == last@);
    let at_end = match info.image_codec() {
        Some(c) => bytes::same(c, last),
        None => false,
    };
    if !at_end {
        return Err(skip("image codec is not the last filter"));
    }
    if n == 1 {
        return Ok(bytes::copy(&stream.content));
    }
    let names = match front_filters(&info.filters) {
        Some(v) => v,
        None => {
            return Err(skip("unsupported filter in front of the image codec"));
        },
    };
    proof {
        object::lemma_array_view(names);
    }
    let mut dict = Dict::new();
    dict.put("Filter", Value::Array(names));
    if let Some(Value::Array(parms)) = stream.dict.get("DecodeParms".as_bytes()) {
        proof {
            object::lemma_array_view(*parms);
        }
        let m: usize = if parms.len() < n - 1 {
            parms.len()
        } else {
            n - 1
        };
        let kept = first_items(parms, m);
        proof {
            object::lemma_array_view(kept);
        }
        dict.put("DecodeParms", Value::Array(kept));
    }
    let wrapped = DataStream { dict, content: bytes::copy(&stream.content) };
    match backend::decompress(&wrapped, MAX_DECODED_BYTES) {
        Ok(b) => Ok(b),
        Err(e) => Err(skip_with("wrapper filters do not decode: ", &e)),
    }
}

// ------------------------------------------------------------- parameters

/// The parameters of the image codec, which is the last filter: the one
/// dictionary, or the last item.
pub open spec fn codec_parms_of(
    t: document::TableView,
    d: object::DictView,
    filters: int,
) -> Option<object::DictView> {
    let parms = match object::lookup(d, bytes::text("DecodeParms"@)) {
        Some(v) => Some(v),
        None => object::lookup(d, bytes::text("DP"@)),
    };
    let entry = match parms {
        None => None,
        Some(p) => match std14::target(t, p) {
            ValueView::Dictionary(e) => if filters == 1 {
                Some(ValueView::Dictionary(e))
            } else {
                None
            },
            ValueView::Array(items) => if 1 <= filters <= items.len() {
                Some(items[filters - 1])
            } else {
                None
            },
            _ => None,
        },
    };
    match entry {
        None => None,
        Some(e) => match std14::target(t, e) {
            ValueView::Dictionary(parms) => Some(parms),
            _ => None,
        },
    }
}

/// The `DecodeParms` entry that belongs to the image codec (the last
/// filter): the single dictionary, or the last array element. Either may
/// be an indirect reference.
fn codec_parms(doc: &Pdf, stream: &DataStream, info: &ImageInfo) -> (r: Option<Dict>)
    requires
        doc.wf(),
    ensures
        dict_view(r) == codec_parms_of(doc@.objects, stream.dict@, info.filters@.len() as int),
{
    let n: usize = info.filters.len();
    let found = match stream.dict.get("DecodeParms".as_bytes()) {
        Some(v) => Some(v),
        None => stream.dict.get("DP".as_bytes()),
    };
    let parms = match found {
        Some(p) => function::deref(doc, p),
        None => {
            return None;
        },
    };
    let entry = match parms {
        Value::Dictionary(_) => if n == 1 {
            parms
        } else {
            return None;
        },
        Value::Array(items) => {
            proof {
                object::lemma_array_view(*items);
            }
            if n < 1 || n > items.len() {
                return None;
            }
            &items[n - 1]
        },
        _ => {
            return None;
        },
    };
    match function::deref(doc, entry) {
        Value::Dictionary(d) => Some(d.copied()),
        _ => None,
    }
}

/// The globals that parameters refer to.
pub open spec fn globals_of(
    t: document::TableView,
    parms: Option<object::DictView>,
) -> Option<Seq<u8>> {
    match parms {
        None => None,
        Some(d) => match object::lookup(d, bytes::text("JBIG2Globals"@)) {
            Some(ValueView::Reference(id)) => match document::object_at(t, id) {
                Some(ValueView::Stream(s, c)) => match backend::decompressed(
                    s,
                    c,
                    MAX_DECODED_BYTES,
                ) {
                    Ok(b) => Some(b),
                    Err(_) => None,
                },
                _ => None,
            },
            _ => None,
        },
    }
}

fn jbig2_globals(doc: &Pdf, parms: &Option<Dict>) -> (r: Option<Vec<u8>>)
    requires
        doc.wf(),
    ensures
        backend::bytes_view(r) == globals_of(doc@.objects, dict_view(*parms)),
{
    let d = match parms {
        Some(d) => d,
        None => {
            return None;
        },
    };
    match d.get("JBIG2Globals".as_bytes()) {
        Some(Value::Reference(id)) => match doc.get_object(*id) {
            Some(Value::Stream(s)) => match backend::decompress(s, MAX_DECODED_BYTES) {
                Ok(b) => Some(b),
                Err(_) => None,
            },
            _ => None,
        },
        _ => None,
    }
}

// ------------------------------------------------------------- mapped rows

/// Where a mapped image's rows come from: packed samples at any depth, or
/// one byte per sample from a codec, which may still be YCCK.
#[derive(Debug)]
pub enum Rows {
    Packed { data: Vec<u8>, row_in: usize },
    Bytes { data: Vec<u8>, ycck: bool },
}

/// Where rows come from.
pub enum RowsView {
    Packed { data: Seq<u8>, row_in: int },
    Bytes { data: Seq<u8>, ycck: bool },
}

impl View for Rows {
    type V = RowsView;

    open spec fn view(&self) -> RowsView {
        match *self {
            Rows::Packed { data, row_in } => RowsView::Packed { data: data@, row_in: row_in as int },
            Rows::Bytes { data, ycck } => RowsView::Bytes { data: data@, ycck },
        }
    }
}

/// Whether there are data for `height` rows of `count` samples.
pub open spec fn enough(rows: RowsView, count: int, height: int, bpc: int) -> bool {
    match rows {
        RowsView::Packed { data, row_in } => row_in == packed_len(count, bpc) && row_in * height
            <= data.len(),
        RowsView::Bytes { data, .. } => count * height <= data.len(),
    }
}

/// A sample of any depth: its last sixteen bits.
pub open spec fn sample_word(row: Seq<u8>, column: int, bpc: int) -> u16 {
    if bpc <= 16 {
        function::bits_value(row, column * bpc, bpc) as u16
    } else {
        function::bits_value(row, column * bpc + (bpc - 16), 16) as u16
    }
}

/// A row of samples.
pub open spec fn row_words(rows: RowsView, y: int, count: int, bpc: int) -> Seq<u16> {
    match rows {
        RowsView::Packed { data, row_in } => Seq::new(
            count as nat,
            |x: int| sample_word(encode::row_at(data, row_in, y), x, bpc),
        ),
        RowsView::Bytes { data, .. } => Seq::new(
            count as nat,
            |x: int| encode::row_at(data, count, y)[x] as u16,
        ),
    }
}

fn packed_word(row: &Vec<u8>, x: usize, bpc: u8) -> (r: u16)
    requires
        x * bpc + bpc <= u64::MAX,
    ensures
        r == sample_word(row@, x as int, bpc as int),
{
    assert(0 <= x * bpc) by (nonlinear_arith);
    let at: u64 = x as u64 * bpc as u64;
    if bpc <= 16 {
        function::read_bits(row, at, bpc as u32) as u16
    } else {
        function::read_bits(row, at + (bpc - 16) as u64, 16) as u16
    }
}

impl Rows {
    /// Row `y`, as `count` samples of `bpc` bits.
    pub fn read(&self, y: usize, count: usize, bpc: u8) -> (r: Vec<u16>)
        requires
            enough(self@, count as int, y + 1, bpc as int),
            count * bpc <= u64::MAX,
        ensures
            r@ == row_words(self@, y as int, count as int, bpc as int),
    {
        let ghost goal = row_words(self@, y as int, count as int, bpc as int);
        let mut out: Vec<u16> = Vec::new();
        let mut x: usize = 0;
        match self {
            Rows::Packed { data, row_in } => {
                let size: usize = *row_in;
                let len: usize = data.len();
                assert(size * (y + 1) == y * size + size && 0 <= y * size) by (nonlinear_arith);
                let row = bytes::copy_range(data, y * size, y * size + size);
                assert(row@ =~= encode::row_at(data@, size as int, y as int));
                while x < count
                    invariant
                        x <= count,
                        count * bpc <= u64::MAX,
                        goal == Seq::new(
                            count as nat,
                            |x: int| sample_word(row@, x, bpc as int),
                        ),
                        out@ == goal.take(x as int),
                    decreases count - x,
                {
                    assert(x * bpc + bpc <= count * bpc) by (nonlinear_arith)
                        requires
                            x + 1 <= count,
                            0 <= bpc,
                    ;
                    out.push(packed_word(&row, x, bpc));
                    x += 1;
                    assert(out@ =~= goal.take(x as int));
                }
            },
            Rows::Bytes { data, .. } => {
                let len: usize = data.len();
                assert(count * (y + 1) == y * count + count && 0 <= y * count) by (nonlinear_arith);
                let row = bytes::copy_range(data, y * count, y * count + count);
                assert(row@ =~= encode::row_at(data@, count as int, y as int));
                while x < count
                    invariant
                        x <= count,
                        row@.len() == count,
                        goal == Seq::new(count as nat, |x: int| row@[x] as u16),
                        out@ == goal.take(x as int),
                    decreases count - x,
                {
                    out.push(row[x] as u16);
                    x += 1;
                    assert(out@ =~= goal.take(x as int));
                }
            },
        }
        assert(out@ =~= goal);
        out
    }
}

// ------------------------------------------------------------- JPEG

/// The colors that a JPEG is stored in.
#[derive(Debug, Clone, Copy, PartialEq, Eq, Structural)]
pub enum JpegColors {
    Cmyk,
    Ycck,
    Fewer,
}

/// The colors that a JPEG is decoded to.
#[derive(Debug, Clone, Copy, PartialEq, Eq, Structural)]
pub enum JpegOutput {
    Luma,
    Rgb,
    Cmyk,
    Ycck,
}

/// What a JPEG's header says of its colors, or why it does not read; nothing
/// where there is none.
pub uninterp spec fn jpeg_colors(data: Seq<u8>) -> Result<Option<JpegColors>, Seq<char>>;

pub open spec fn colors_view(r: Result<Option<JpegColors>, String>) -> Result<
    Option<JpegColors>,
    Seq<char>,
> {
    match r {
        Ok(c) => Ok(c),
        Err(e) => Err(e@),
    }
}

/// `zune_jpeg::JpegDecoder::decode_headers` for sides of at most 65536, then
/// `input_colorspace`, an error by its text.
#[verifier::external_body]
fn jpeg_header(data: &Vec<u8>) -> (r: Result<Option<JpegColors>, String>)
    ensures
        colors_view(r) == jpeg_colors(data@),
{
    let options = DecoderOptions::new_safe().set_max_width(1 << 16).set_max_height(1 << 16);
    let mut decoder = JpegDecoder::new_with_options(ZCursor::new(data), options);
    decoder.decode_headers().map_err(|e| e.to_string())?;
    Ok(
        decoder.input_colorspace().map(
            |c| match c {
                ZColor::CMYK => JpegColors::Cmyk,
                ZColor::YCCK => JpegColors::Ycck,
                _ => JpegColors::Fewer,
            },
        ),
    )
}

/// What the samples of a JPEG in given colors may be, with the size that its
/// header gives, or why there are none. A relation and not a function: how a
/// transform rounds is up to the instructions that the machine has.
pub uninterp spec fn jpeg_may_give(
    data: Seq<u8>,
    out: JpegOutput,
    pixels: Result<(Seq<u8>, Option<(u16, u16)>), Seq<char>>,
) -> bool;

/// `zune_jpeg::JpegDecoder::decode` to given colors, with the size that `info`
/// gives, an error by its text: what the decoder may give for the data. Which
/// of it is left unsaid. The decoder takes the size of its output for granted,
/// which it has once the header is read.
#[verifier::external_body]
fn jpeg_pixels(data: &Vec<u8>, out: JpegOutput) -> (r: Result<
    (Vec<u8>, Option<(u16, u16)>),
    String,
>)
    requires
        jpeg_colors(data@) is Ok,
    ensures
        jpeg_may_give(data@, out, pixels_view(r)),
{
    let out = match out {
        JpegOutput::Luma => ZColor::Luma,
        JpegOutput::Rgb => ZColor::RGB,
        JpegOutput::Cmyk => ZColor::CMYK,
        JpegOutput::Ycck => ZColor::YCCK,
    };
    let options = DecoderOptions::new_safe().jpeg_set_out_colorspace(out);
    let options = options.set_max_width(1 << 16).set_max_height(1 << 16);
    let mut decoder = JpegDecoder::new_with_options(ZCursor::new(data), options);
    let pixels = decoder.decode().map_err(|e| e.to_string())?;
    Ok((pixels, decoder.info().map(|i| (i.width, i.height))))
}

/// Output colors to request from the decoder and the layout they have, given
/// the dictionary's model and the codestream's own.
pub open spec fn jpeg_output_of(model: ColorModel, input: JpegColors) -> Result<
    (JpegOutput, Format),
    Seq<char>,
> {
    match (model, input) {
        (ColorModel::Gray, _) => Ok((JpegOutput::Luma, Format::Gray8)),
        (ColorModel::Rgb, JpegColors::Fewer) => Ok((JpegOutput::Rgb, Format::Rgb8)),
        (ColorModel::Rgb, _) => Err("four-component JPEG in an RGB color space"@),
        (ColorModel::Cmyk, JpegColors::Cmyk) => Ok((JpegOutput::Cmyk, Format::Cmyk8)),
        (ColorModel::Cmyk, JpegColors::Ycck) => Ok((JpegOutput::Ycck, Format::Cmyk8)),
        (ColorModel::Cmyk, JpegColors::Fewer) => Err(
            "JPEG channels differ from the CMYK color space"@,
        ),
    }
}

pub open spec fn output_step(r: Result<(JpegOutput, Format), Skip>) -> Result<
    (JpegOutput, Format),
    Seq<char>,
> {
    match r {
        Ok(o) => Ok(o),
        Err(why) => Err(why.0@),
    }
}

/// Output colors to request from the decoder and the layout they have, given
/// the dictionary's model and the codestream's own.
pub fn jpeg_output(model: ColorModel, input: JpegColors) -> (r: Result<(JpegOutput, Format), Skip>)
    ensures
        output_step(r) == jpeg_output_of(model, input),
{
    match (model, input) {
        (ColorModel::Gray, _) => Ok((JpegOutput::Luma, Format::Gray8)),
        (ColorModel::Rgb, JpegColors::Fewer) => Ok((JpegOutput::Rgb, Format::Rgb8)),
        (ColorModel::Rgb, _) => Err(skip("four-component JPEG in an RGB color space")),
        (ColorModel::Cmyk, JpegColors::Cmyk) => Ok((JpegOutput::Cmyk, Format::Cmyk8)),
        (ColorModel::Cmyk, JpegColors::Ycck) => Ok((JpegOutput::Ycck, Format::Cmyk8)),
        (ColorModel::Cmyk, JpegColors::Fewer) => Err(
            skip("JPEG channels differ from the CMYK color space"),
        ),
    }
}

/// What a JPEG is to be decoded to, from what its header says.
pub open spec fn jpeg_plan(
    header: Result<Option<JpegColors>, Seq<char>>,
    model: ColorModel,
) -> Result<(JpegOutput, Format), Seq<char>> {
    match header {
        Err(e) => Err("JPEG header: "@ + e),
        Ok(None) => Err("JPEG header missing"@),
        Ok(Some(c)) => jpeg_output_of(model, c),
    }
}

/// What a decoder hands back: samples and their size, or why there are none.
pub open spec fn pixels_view(r: Result<(Vec<u8>, Option<(u16, u16)>), String>) -> Result<
    (Seq<u8>, Option<(u16, u16)>),
    Seq<char>,
> {
    match r {
        Ok((p, size)) => Ok((p@, size)),
        Err(e) => Err(e@),
    }
}

/// An image of given samples; none where there are too few or too many.
pub open spec fn exact_image(
    width: int,
    height: int,
    format: Format,
    data: Seq<u8>,
    mismatch: Seq<char>,
) -> Result<raster::RasterView, Seq<char>> {
    let image = raster::RasterView { width, height, format, data };
    if image.whole() {
        Ok(image)
    } else {
        Err(mismatch)
    }
}

/// The image that a JPEG's samples make, where they have the size that the
/// dictionary gives.
pub open spec fn jpeg_image(
    pixels: Result<(Seq<u8>, Option<(u16, u16)>), Seq<char>>,
    format: Format,
    width: u32,
    height: u32,
) -> Result<raster::RasterView, Seq<char>> {
    match pixels {
        Err(e) => Err("JPEG does not decode: "@ + e),
        Ok((_, None)) => Err("JPEG header missing"@),
        Ok((data, Some((w, h)))) => if w != width || h != height {
            Err("JPEG size differs from the dictionary"@)
        } else {
            exact_image(w as int, h as int, format, data, "JPEG sample count mismatch"@)
        },
    }
}

/// The image that a JPEG's samples make.
pub fn jpeg_finish(
    pixels: Result<(Vec<u8>, Option<(u16, u16)>), String>,
    format: Format,
    info: &ImageInfo,
) -> (r: Result<Raster, Skip>)
    ensures
        outcome(r) == jpeg_image(pixels_view(pixels), format, info.width, info.height),
        r is Ok ==> r->Ok_0.wf(),
{
    let (data, size) = match pixels {
        Ok(p) => p,
        Err(e) => {
            return Err(skip_with("JPEG does not decode: ", &e));
        },
    };
    let (w, h) = match size {
        Some(s) => s,
        None => {
            return Err(skip("JPEG header missing"));
        },
    };
    if w as u32 != info.width || h as u32 != info.height {
        return Err(skip("JPEG size differs from the dictionary"));
    }
    match Raster::new(w as u32, h as u32, format, data) {
        Some(image) => Ok(image),
        None => Err(skip("JPEG sample count mismatch")),
    }
}

/// How a JPEG decodes: by what the decoder may give for it.
pub open spec fn jpeg_decodes(
    r: Result<(raster::RasterView, bool), Seq<char>>,
    stream: Result<Seq<u8>, Seq<char>>,
    model: ColorModel,
    width: u32,
    height: u32,
) -> bool {
    match stream {
        Err(e) => r == Err::<(raster::RasterView, bool), Seq<char>>(e),
        Ok(data) => match jpeg_plan(jpeg_colors(data), model) {
            Err(e) => r == Err::<(raster::RasterView, bool), Seq<char>>(e),
            Ok((out, format)) => exists|pixels: Result<(Seq<u8>, Option<(u16, u16)>), Seq<char>>| #[trigger]
                jpeg_may_give(data, out, pixels) && match jpeg_image(
                    pixels,
                    format,
                    width,
                    height,
                ) {
                    Ok(image) => r == Ok::<(raster::RasterView, bool), Seq<char>>(
                        (image, out == JpegOutput::Ycck),
                    ),
                    Err(e) => r == Err::<(raster::RasterView, bool), Seq<char>>(e),
                },
        },
    }
}

pub open spec fn colored(r: Result<(Raster, bool), Skip>) -> Result<
    (raster::RasterView, bool),
    Seq<char>,
> {
    match r {
        Ok((image, ycck)) => Ok((image@, ycck)),
        Err(why) => Err(why.0@),
    }
}

/// Decode the JPEG codestream into the raster format `model` implies, and
/// whether its colors are still YCCK.
pub fn jpeg_raster(stream: &DataStream, info: &ImageInfo, model: ColorModel) -> (r: Result<
    (Raster, bool),
    Skip,
>)
    ensures
        jpeg_decodes(
            colored(r),
            codestream_of(stream.dict@, stream.content@, info@.filters),
            model,
            info.width,
            info.height,
        ),
        r is Ok ==> r->Ok_0.0.wf(),
{
    let data = match codestream(stream, info) {
        Ok(b) => b,
        Err(why) => {
            return Err(why);
        },
    };
    let input = match jpeg_header(&data) {
        Ok(Some(c)) => c,
        Ok(None) => {
            return Err(skip("JPEG header missing"));
        },
        Err(e) => {
            return Err(skip_with("JPEG header: ", &e));
        },
    };
    let (out, format) = match jpeg_output(model, input) {
        Ok(o) => o,
        Err(why) => {
            return Err(why);
        },
    };
    let pixels = jpeg_pixels(&data, out);
    assert(jpeg_may_give(data@, out, pixels_view(pixels)));
    assert(jpeg_plan(jpeg_colors(data@), model) == Ok::<(JpegOutput, Format), Seq<char>>(
        (out, format),
    ));
    match jpeg_finish(pixels, format, info) {
        Ok(raster) => Ok((raster, out == JpegOutput::Ycck)),
        Err(why) => Err(why),
    }
}

// ------------------------------------------------------------- JPX

/// What a JPEG 2000 image says of itself.
#[derive(Debug, Clone, Copy, PartialEq, Eq, Structural)]
pub struct JpxHeader {
    pub width: u32,
    pub height: u32,
    pub alpha: bool,
    pub channels: u8,
    pub known: bool,
}

/// What a JPEG 2000 image says of itself, or why it does not read.
pub uninterp spec fn jpx_says(data: Seq<u8>) -> Result<JpxHeader, Seq<char>>;

pub open spec fn header_view(r: Result<JpxHeader, String>) -> Result<JpxHeader, Seq<char>> {
    match r {
        Ok(h) => Ok(h),
        Err(e) => Err(e@),
    }
}

/// `hayro_jpeg2000::Image::new` with the default settings, and what its
/// `width`, `height`, `has_alpha` and `color_space` give, an error by its
/// debug text.
#[verifier::external_body]
fn jpx_header(data: &Vec<u8>) -> (r: Result<JpxHeader, String>)
    ensures
        header_view(r) == jpx_says(data@),
{
    let image = Image::new(data, &DecodeSettings::default()).map_err(|e| format!("{e:?}"))?;
    let known = !matches!(image.color_space(), JpxColor::Unknown { .. });
    Ok(
        JpxHeader {
            width: image.width(),
            height: image.height(),
            alpha: image.has_alpha(),
            channels: image.color_space().num_channels(),
            known,
        },
    )
}

/// Whether the samples of a JPEG 2000 image can be counted in memory.
pub open spec fn jpx_fits(width: u32, height: u32) -> bool {
    width * height * 16 <= usize::MAX
}

/// Whether the samples of a JPEG 2000 image can be counted in memory.
fn fits_memory(width: u32, height: u32) -> (r: bool)
    ensures
        r == jpx_fits(width, height),
{
    proof {
        lemma_area(width, height);
    }
    width as u128 * height as u128 * 16 <= usize::MAX as u128
}

proof fn lemma_area(width: u32, height: u32)
    ensures
        0 <= width * height <= 0xFFFF_FFFF * 0xFFFF_FFFF,
{
    assert(0 <= width * height <= 0xFFFF_FFFF * 0xFFFF_FFFF) by (nonlinear_arith)
        requires
            0 <= width <= 0xFFFF_FFFF,
            0 <= height <= 0xFFFF_FFFF,
    ;
}

/// What the samples of a JPEG 2000 image may be, or why there are none. A
/// relation and not a function: the transforms compute with rounded numbers,
/// as the machine does them.
pub uninterp spec fn jpx_may_give(data: Seq<u8>, pixels: Result<Seq<u8>, Seq<char>>) -> bool;

/// `hayro_jpeg2000::Image::decode` with the default settings, and its
/// `data_u8`, an error by its debug text: what the decoder may give for the
/// data. Which of it is left unsaid. The decoder takes its first component
/// for granted, which a mapping without entries leaves it without, shifts by
/// the depth of the samples, and allocates four bytes for each.
#[verifier::external_body]
fn jpx_pixels(data: &Vec<u8>) -> (r: Result<Vec<u8>, String>)
    requires
        jp2::palette_resolves(data@),
        jpx_says(data@) matches Ok(h) && jpx_fits(h.width, h.height),
    ensures
        jpx_may_give(data@, backend::outcome_view(r)),
{
    let image = Image::new(data, &DecodeSettings::default()).map_err(|e| format!("{e:?}"))?;
    let mut context = DecoderContext::default();
    let decoded = image.decode(&mut context).map_err(|e| format!("{e:?}"))?;
    Ok(decoded.data_u8())
}

/// The layout that a JPEG 2000 image is decoded to.
pub open spec fn jpx_plan(
    header: Result<JpxHeader, Seq<char>>,
    width: u32,
    height: u32,
    color: classify::SpaceView,
) -> Result<Format, Seq<char>> {
    match header {
        Err(e) => Err("JPX does not decode: "@ + e),
        Ok(h) => if h.alpha {
            Err("JPX with an alpha channel"@)
        } else if h.width != width || h.height != height {
            Err("JPX size differs from the dictionary"@)
        } else if h.channels != 1 && h.channels != 3 && h.channels != 4 {
            Err("JPX with "@ + text::number(h.channels as nat) + " channels"@)
        } else if !h.known {
            Err("JPX with an unknown color space"@)
        } else if color is Device && classify::components_of(color->Device_0) != h.channels {
            Err("JPX channels differ from the dictionary color space"@)
        } else if h.channels == 1 {
            Ok(Format::Gray8)
        } else if h.channels == 3 {
            Ok(Format::Rgb8)
        } else {
            Ok(Format::Cmyk8)
        },
    }
}

pub open spec fn format_step(r: Result<Format, Skip>) -> Result<Format, Seq<char>> {
    match r {
        Ok(f) => Ok(f),
        Err(why) => Err(why.0@),
    }
}

/// The layout that a JPEG 2000 image is decoded to. The codestream's own color
/// space wins (the dictionary may omit one); images with an alpha channel are
/// left alone because `SMaskInData` semantics are not implemented.
pub fn jpx_format(header: Result<JpxHeader, String>, info: &ImageInfo) -> (r: Result<Format, Skip>)
    ensures
        format_step(r) == jpx_plan(header_view(header), info.width, info.height, info@.color),
{
    let h = match header {
        Ok(h) => h,
        Err(e) => {
            return Err(skip_with("JPX does not decode: ", &e));
        },
    };
    if h.alpha {
        return Err(skip("JPX with an alpha channel"));
    }
    if h.width != info.width || h.height != info.height {
        return Err(skip("JPX size differs from the dictionary"));
    }
    let format = match h.channels {
        1 => Format::Gray8,
        3 => Format::Rgb8,
        4 => Format::Cmyk8,
        n => {
            let mut why = "JPX with ".to_owned();
            why.append(text::of_number(n as u128).as_str());
            why.append(" channels");
            return Err(Skip(why));
        },
    };
    if !h.known {
        return Err(skip("JPX with an unknown color space"));
    }
    if let ColorSpace::Device(model) = &info.color {
        if classify::components(*model) != format.samples_per_pixel() {
            return Err(skip("JPX channels differ from the dictionary color space"));
        }
    }
    Ok(format)
}

/// The image that JPEG 2000 samples make.
pub open spec fn jpx_image(
    pixels: Result<Seq<u8>, Seq<char>>,
    format: Format,
    width: u32,
    height: u32,
) -> Result<raster::RasterView, Seq<char>> {
    match pixels {
        Err(e) => Err("JPX does not decode: "@ + e),
        Ok(data) => exact_image(
            width as int,
            height as int,
            format,
            data,
            "JPX sample count mismatch"@,
        ),
    }
}

/// The image that JPEG 2000 samples make.
pub fn jpx_finish(pixels: Result<Vec<u8>, String>, format: Format, info: &ImageInfo) -> (r: Result<
    Raster,
    Skip,
>)
    ensures
        outcome(r) == jpx_image(backend::outcome_view(pixels), format, info.width, info.height),
        r is Ok ==> r->Ok_0.wf(),
{
    match pixels {
        Ok(data) => match Raster::new(info.width, info.height, format, data) {
            Some(image) => Ok(image),
            None => Err(skip("JPX sample count mismatch")),
        },
        Err(e) => Err(skip_with("JPX does not decode: ", &e)),
    }
}

/// How a JPEG 2000 image decodes: by what the decoder may give for it.
pub open spec fn jpx_decodes(
    r: Result<raster::RasterView, Seq<char>>,
    stream: Result<Seq<u8>, Seq<char>>,
    info: classify::InfoView,
) -> bool {
    match stream {
        Err(e) => r == Err::<raster::RasterView, Seq<char>>(e),
        Ok(data) => match jpx_plan(jpx_says(data), info.width, info.height, info.color) {
            Err(e) => r == Err::<raster::RasterView, Seq<char>>(e),
            Ok(format) => if !jp2::palette_resolves(data) {
                r == Err::<raster::RasterView, Seq<char>>(
                    "JPX does not decode: its palette does not resolve"@,
                )
            } else if !jpx_fits(info.width, info.height) {
                r == Err::<raster::RasterView, Seq<char>>("JPX does not decode: it is too large"@)
            } else {
                exists|pixels: Result<Seq<u8>, Seq<char>>| #[trigger]
                    jpx_may_give(data, pixels) && r == jpx_image(
                        pixels,
                        format,
                        info.width,
                        info.height,
                    )
            },
        },
    }
}

fn decode_jpx(stream: &DataStream, info: &ImageInfo) -> (r: Result<Raster, Skip>)
    ensures
        jpx_decodes(
            outcome(r),
            codestream_of(stream.dict@, stream.content@, info@.filters),
            info@,
        ),
        r is Ok ==> r->Ok_0.wf(),
{
    let data = match codestream(stream, info) {
        Ok(b) => b,
        Err(why) => {
            return Err(why);
        },
    };
    let format = match jpx_format(jpx_header(&data), info) {
        Ok(f) => f,
        Err(why) => {
            return Err(why);
        },
    };
    if !jp2::palette_usable(&data) {
        return Err(skip("JPX does not decode: its palette does not resolve"));
    }
    if !fits_memory(info.width, info.height) {
        return Err(skip("JPX does not decode: it is too large"));
    }
    let pixels = jpx_pixels(&data);
    assert(jpx_may_give(data@, backend::outcome_view(pixels)));
    jpx_finish(pixels, format, info)
}

// ------------------------------------------------------------- all kinds

/// The rows of a mapped image that no codec holds.
pub open spec fn packed_rows(
    data: Result<Seq<u8>, Seq<char>>,
    info: classify::InfoView,
    n: int,
) -> Result<(RowsView, u8), Seq<char>> {
    match data {
        Err(e) => Err("stream does not decode: "@ + e),
        Ok(data) => {
            let row_in = packed_len(info.width * n, info.bpc as int);
            if data.len() < row_in * info.height {
                Err("sample data is shorter than the image"@)
            } else {
                Ok((RowsView::Packed { data, row_in }, info.bpc))
            }
        },
    }
}

/// A device model of `n` components.
pub open spec fn model_of(n: int) -> Option<ColorModel> {
    if n == 1 {
        Some(ColorModel::Gray)
    } else if n == 3 {
        Some(ColorModel::Rgb)
    } else if n == 4 {
        Some(ColorModel::Cmyk)
    } else {
        None
    }
}

/// How a mapped image's rows are read.
pub open spec fn rows_read(
    r: Result<(RowsView, u8), Seq<char>>,
    d: object::DictView,
    content: Seq<u8>,
    info: classify::InfoView,
    n: int,
) -> bool {
    match classify::codec_from(info.filters, 0) {
        None => r == packed_rows(backend::decompressed(d, content, MAX_DECODED_BYTES), info, n),
        Some(c) => if c != bytes::text("DCTDecode"@) {
            r == Err::<(RowsView, u8), Seq<char>>(
                classify::lossy_text(c) + " in a mapped color space"@,
            )
        } else {
            match model_of(n) {
                None => r == Err::<(RowsView, u8), Seq<char>>(
                    "JPEG with "@ + text::number(n as nat) + " components"@,
                ),
                Some(m) => exists|j: Result<(raster::RasterView, bool), Seq<char>>|
                    #[trigger] jpeg_decodes(
                        j,
                        codestream_of(d, content, info.filters),
                        m,
                        info.width,
                        info.height,
                    ) && r == jpeg_rows(j),
            }
        },
    }
}

/// The samples of a JPEG as rows.
pub open spec fn jpeg_rows(j: Result<(raster::RasterView, bool), Seq<char>>) -> Result<
    (RowsView, u8),
    Seq<char>,
> {
    match j {
        Ok((image, ycck)) => Ok((RowsView::Bytes { data: image.data, ycck }, 8)),
        Err(e) => Err(e),
    }
}

pub open spec fn rows_step(r: Result<(Rows, u8), Skip>) -> Result<(RowsView, u8), Seq<char>> {
    match r {
        Ok((rows, bpc)) => Ok((rows@, bpc)),
        Err(why) => Err(why.0@),
    }
}

/// The stored samples of a mapped image and their depth: packed at the
/// dictionary's depth, or one byte per sample out of a JPEG.
fn mapped_rows(stream: &DataStream, info: &ImageInfo, n: usize) -> (r: Result<(Rows, u8), Skip>)
    requires
        info.height > 0,
    ensures
        rows_read(rows_step(r), stream.dict@, stream.content@, info@, n as int),
{
    match info.image_codec() {
        None => {
            return packed_mapped(stream, info, n);
        },
        Some(c) => {
            if !bytes::is_text(c, "DCTDecode") {
                let mut why = classify::lossy(c);
                why.append(" in a mapped color space");
                return Err(Skip(why));
            }
        },
    }
    let model = match n {
        1 => ColorModel::Gray,
        3 => ColorModel::Rgb,
        4 => ColorModel::Cmyk,
        _ => {
            let mut why = "JPEG with ".to_owned();
            why.append(text::of_number(n as u128).as_str());
            why.append(" components");
            return Err(Skip(why));
        },
    };
    assert(model_of(n as int) == Some(model));
    let image = jpeg_raster(stream, info, model);
    let ghost j = colored(image);
    assert(jpeg_decodes(
        j,
        codestream_of(stream.dict@, stream.content@, info@.filters),
        model,
        info@.width,
        info@.height,
    ));
    let r = match image {
        Ok((raster, ycck)) => Ok((Rows::Bytes { data: raster.data, ycck }, 8u8)),
        Err(why) => Err(why),
    };
    assert(rows_step(r) == jpeg_rows(j));
    r
}

fn packed_mapped(stream: &DataStream, info: &ImageInfo, n: usize) -> (r: Result<(Rows, u8), Skip>)
    requires
        info.height > 0,
    ensures
        rows_step(r) == packed_rows(
            backend::decompressed(stream.dict@, stream.content@, MAX_DECODED_BYTES),
            info@,
            n as int,
        ),
{
    let data = match backend::decompress(stream, MAX_DECODED_BYTES) {
        Ok(b) => b,
        Err(e) => {
            return Err(skip_with("stream does not decode: ", &e));
        },
    };
    let len: usize = data.len();
    let ghost count = info.width * n;
    assert(0 <= count <= 0xFFFF_FFFF * 0xFFFF_FFFF_FFFF_FFFF) by (nonlinear_arith)
        requires
            count == info.width * n,
            0 <= info.width <= 0xFFFF_FFFF,
            0 <= n <= 0xFFFF_FFFF_FFFF_FFFF,
    ;
    assert(0 <= count * info.bpc <= count * 255) by (nonlinear_arith)
        requires
            0 <= count,
            0 <= info.bpc <= 255,
    ;
    let row_in: u128 = (info.width as u128 * n as u128 * info.bpc as u128 + 7) / 8;
    if row_in > len as u128 {
        assert(row_in * info.height >= row_in) by (nonlinear_arith)
            requires
                info.height >= 1,
                row_in >= 0,
        ;
        return Err(skip("sample data is shorter than the image"));
    }
    assert(0 <= row_in * info.height <= 0xFFFF_FFFF_FFFF_FFFF * 0xFFFF_FFFF) by (nonlinear_arith)
        requires
            0 <= row_in <= 0xFFFF_FFFF_FFFF_FFFF,
            0 <= info.height <= 0xFFFF_FFFF,
    ;
    if (len as u128) < row_in * info.height as u128 {
        return Err(skip("sample data is shorter than the image"));
    }
    Ok((Rows::Packed { data, row_in: row_in as usize }, info.bpc))
}

/// How a mapped image decodes.
pub open spec fn mapped_decodes(
    r: Result<DecodedView, Seq<char>>,
    t: document::TableView,
    d: object::DictView,
    content: Seq<u8>,
    info: classify::InfoView,
    source: ValueView,
) -> bool {
    match classify::mapping_of(t, source, classify::MAX_ALTERNATES as nat) {
        None => r == Err::<DecodedView, Seq<char>>(
            "tint transform or Lab dictionary does not parse"@,
        ),
        Some(mapping) => exists|rows: Result<(RowsView, u8), Seq<char>>|
            #[trigger] rows_read(rows, d, content, info, mapping.components as int) && r
                == mapped_of(rows, mapping, info.decode),
    }
}

/// A mapped image with its rows at hand.
pub open spec fn mapped_of(
    rows: Result<(RowsView, u8), Seq<char>>,
    mapping: classify::MappingView,
    decode: Option<Seq<function::QuantityView>>,
) -> Result<DecodedView, Seq<char>> {
    match rows {
        Err(e) => Err(e),
        Ok((rows, bpc)) => {
            let decode = match decode {
                Some(d) => d,
                None => classify::natural_decode(mapping),
            };
            if decode.len() < 2 * mapping.components {
                Err("short Decode array"@)
            } else {
                Ok(DecodedView::Mapped { mapping, rows, bpc, decode })
            }
        },
    }
}

fn copy_quantities(q: &Vec<Quantity>) -> (r: Vec<Quantity>)
    ensures
        function::quantities_view(r@) == function::quantities_view(q@),
{
    let ghost goal = function::quantities_view(q@);
    let mut out: Vec<Quantity> = Vec::new();
    let mut i: usize = 0;
    assert(function::quantities_view(out@) =~= goal.take(0));
    while i < q.len()
        invariant
            i <= q@.len(),
            goal == function::quantities_view(q@),
            function::quantities_view(out@) == goal.take(i as int),
        decreases q@.len() - i,
    {
        let ghost before = function::quantities_view(out@);
        let item = match &q[i] {
            Quantity::Whole(n) => Quantity::Whole(*n),
            Quantity::Text(t) => Quantity::Text(bytes::copy(t)),
        };
        assert(item@ == goal[i as int]);
        out.push(item);
        assert(function::quantities_view(out@) =~= before.push(goal[i as int]));
        i += 1;
        assert(function::quantities_view(out@) =~= goal.take(i as int));
    }
    assert(function::quantities_view(out@) =~= goal);
    out
}

/// Separation, DeviceN and Lab: the samples at their stored depth with the
/// mapping that every pixel goes through.
fn decode_mapped(doc: &Pdf, stream: &DataStream, info: &ImageInfo, source: &Value) -> (r: Result<
    Decoded,
    Skip,
>)
    requires
        doc.wf(),
        info.height > 0,
    ensures
        mapped_decodes(
            step(r),
            doc@.objects,
            stream.dict@,
            stream.content@,
            info@,
            source@,
        ),
{
    let mapping = match Mapping::build(doc, source) {
        Some(m) => m,
        None => {
            return Err(skip("tint transform or Lab dictionary does not parse"));
        },
    };
    let n: usize = mapping.components;
    let rows = mapped_rows(stream, info, n);
    let ghost found = rows_step(rows);
    assert(rows_read(found, stream.dict@, stream.content@, info@, mapping@.components as int));
    let (rows, bpc) = match rows {
        Ok(p) => p,
        Err(why) => {
            return Err(why);
        },
    };
    let decode = match &info.decode {
        Some(d) => copy_quantities(d),
        None => mapping.default_decode(),
    };
    if decode.len() / 2 < n {
        return Err(skip("short Decode array"));
    }
    Ok(Decoded::Mapped { mapping, rows, bpc, decode })
}

/// The image that mapped pixels make.
pub fn mapped_finish(info: &ImageInfo, model: ColorModel, pixels: Vec<u8>) -> (r: Result<
    Raster,
    Skip,
>)
    ensures
        outcome(r) == exact_image(
            info.width as int,
            info.height as int,
            device_format_of(model),
            pixels@,
            "mapped sample count mismatch"@,
        ),
        r is Ok ==> r->Ok_0.wf(),
{
    match Raster::new(info.width, info.height, device_format(model), pixels) {
        Some(image) => Ok(image),
        None => Err(skip("mapped sample count mismatch")),
    }
}

/// An image under its `Decode` array.
pub open spec fn then_decode(
    image: Result<raster::RasterView, Seq<char>>,
    decode: Option<Seq<function::QuantityView>>,
) -> Result<DecodedView, Seq<char>> {
    match image {
        Ok(r) => under_decode(r, decode),
        Err(e) => Err(e),
    }
}

/// An image of plain samples.
pub open spec fn samples_of(
    data: Result<Seq<u8>, Seq<char>>,
    info: classify::InfoView,
) -> Result<DecodedView, Seq<char>> {
    match data {
        Err(e) => Err("stream does not decode: "@ + e),
        Ok(data) => then_decode(samples_image(data, info), info.decode),
    }
}

fn decode_samples(stream: &DataStream, info: &ImageInfo) -> (r: Result<Decoded, Skip>)
    requires
        info.width > 0,
        info.height > 0,
    ensures
        step(r) == samples_of(
            backend::decompressed(stream.dict@, stream.content@, MAX_DECODED_BYTES),
            info@,
        ),
{
    let data = match backend::decompress(stream, MAX_DECODED_BYTES) {
        Ok(b) => b,
        Err(e) => {
            return Err(skip_with("stream does not decode: ", &e));
        },
    };
    match unpack_samples(&data, info) {
        Ok(raster) => apply_decode(raster, &info.decode),
        Err(why) => Err(why),
    }
}

/// A decoded JPEG, its `Decode` array applied where its colors are final.
pub open spec fn jpeg_of(
    j: Result<(raster::RasterView, bool), Seq<char>>,
    decode: Option<Seq<function::QuantityView>>,
) -> Result<DecodedView, Seq<char>> {
    match j {
        Ok((image, ycck)) => if ycck {
            Ok(DecodedView::Ycck(image))
        } else {
            under_decode(image, decode)
        },
        Err(e) => Err(e),
    }
}

/// How an image in a DCT codestream decodes.
pub open spec fn dct_decodes(
    r: Result<DecodedView, Seq<char>>,
    stream: Result<Seq<u8>, Seq<char>>,
    info: classify::InfoView,
) -> bool {
    match info.color {
        classify::SpaceView::Device(model) => exists|
            j: Result<(raster::RasterView, bool), Seq<char>>,
        | #[trigger]
            jpeg_decodes(j, stream, model, info.width, info.height) && r == jpeg_of(
                j,
                info.decode,
            ),
        _ => r == Err::<DecodedView, Seq<char>>("JPEG in an unsupported color space"@),
    }
}

fn decode_jpeg(stream: &DataStream, info: &ImageInfo) -> (r: Result<Decoded, Skip>)
    ensures
        dct_decodes(
            step(r),
            codestream_of(stream.dict@, stream.content@, info@.filters),
            info@,
        ),
{
    let model = match &info.color {
        ColorSpace::Device(m) => *m,
        _ => {
            return Err(skip("JPEG in an unsupported color space"));
        },
    };
    let image = jpeg_raster(stream, info, model);
    let ghost j = colored(image);
    assert(jpeg_decodes(
        j,
        codestream_of(stream.dict@, stream.content@, info@.filters),
        model,
        info@.width,
        info@.height,
    ));
    match image {
        Ok((raster, ycck)) => if ycck {
            Ok(Decoded::Ycck(raster))
        } else {
            apply_decode(raster, &info.decode)
        },
        Err(why) => Err(why),
    }
}

/// Fax data as the decoder takes them.
pub open spec fn fax_of(
    stream: Result<Seq<u8>, Seq<char>>,
    parms: Option<object::DictView>,
) -> Result<DecodedView, Seq<char>> {
    match stream {
        Ok(data) => Ok(DecodedView::Fax { data, parms }),
        Err(e) => Err(e),
    }
}

/// JBIG2 data as the decoder takes them.
pub open spec fn jbig2_of(
    stream: Result<Seq<u8>, Seq<char>>,
    globals: Option<Seq<u8>>,
) -> Result<DecodedView, Seq<char>> {
    match stream {
        Ok(data) => Ok(DecodedView::Jbig2 { data, globals }),
        Err(e) => Err(e),
    }
}

/// A decoded JPEG 2000 image.
pub open spec fn jpx_of(image: Result<raster::RasterView, Seq<char>>) -> Result<
    DecodedView,
    Seq<char>,
> {
    match image {
        Ok(r) => Ok(DecodedView::Done(r)),
        Err(e) => Err(e),
    }
}

/// How an image decodes: by its color space and its codec.
pub open spec fn decodes(
    r: Result<DecodedView, Seq<char>>,
    t: document::TableView,
    d: object::DictView,
    content: Seq<u8>,
    info: classify::InfoView,
) -> bool {
    let stream = codestream_of(d, content, info.filters);
    let parms = codec_parms_of(t, d, info.filters.len() as int);
    match (info.color, classify::codec_from(info.filters, 0)) {
        (classify::SpaceView::Mapped { source, .. }, _) => mapped_decodes(
            r,
            t,
            d,
            content,
            info,
            source,
        ),
        (_, None) => r == samples_of(backend::decompressed(d, content, MAX_DECODED_BYTES), info),
        (_, Some(c)) => if c == bytes::text("DCTDecode"@) {
            dct_decodes(r, stream, info)
        } else if c == bytes::text("CCITTFaxDecode"@) {
            r == fax_of(stream, parms)
        } else if c == bytes::text("JBIG2Decode"@) {
            r == jbig2_of(stream, globals_of(t, parms))
        } else {
            exists|image: Result<raster::RasterView, Seq<char>>|
                #[trigger] jpx_decodes(image, stream, info) && r == jpx_of(image)
        },
    }
}

/// Decode an image as far as whole numbers go.
pub fn decode(doc: &Pdf, stream: &DataStream, info: &ImageInfo) -> (r: Result<Decoded, Skip>)
    requires
        doc.wf(),
        info.width > 0,
        info.height > 0,
    ensures
        decodes(step(r), doc@.objects, stream.dict@, stream.content@, info@),
{
    if let ColorSpace::Mapped { source, .. } = &info.color {
        return decode_mapped(doc, stream, info, source);
    }
    let codec = match info.image_codec() {
        None => {
            return decode_samples(stream, info);
        },
        Some(c) => c,
    };
    if bytes::is_text(codec, "DCTDecode") {
        return decode_jpeg(stream, info);
    }
    if bytes::is_text(codec, "CCITTFaxDecode") {
        return match codestream(stream, info) {
            Ok(data) => Ok(Decoded::Fax { data, parms: codec_parms(doc, stream, info) }),
            Err(why) => Err(why),
        };
    }
    if bytes::is_text(codec, "JBIG2Decode") {
        return match codestream(stream, info) {
            Ok(data) => {
                let parms = codec_parms(doc, stream, info);
                Ok(Decoded::Jbig2 { data, globals: jbig2_globals(doc, &parms) })
            },
            Err(why) => Err(why),
        };
    }
    let image = decode_jpx(stream, info);
    let ghost found = outcome(image);
    assert(jpx_decodes(
        found,
        codestream_of(stream.dict@, stream.content@, info@.filters),
        info@,
    ));
    match image {
        Ok(raster) => Ok(Decoded::Done(raster)),
        Err(why) => Err(why),
    }
}

// ------------------------------------------------------------- laws

/// A sample that is scaled keeps its share of the full range; one of sixteen
/// bits keeps its high byte; an index keeps its value.
pub proof fn samples_keep_their_share(v: int, bpc: int)
    requires
        0 <= v,
        bpc == 1 ==> v < 2,
        bpc == 2 ==> v < 4,
        bpc == 4 ==> v < 16,
        bpc == 8 ==> v < 256,
        bpc == 16 ==> v < 65536,
    ensures
        bpc == 1 ==> sample_byte(v, bpc, false) == 255 * v,
        bpc == 2 ==> 3 * sample_byte(v, bpc, false) == 255 * v,
        bpc == 4 ==> 15 * sample_byte(v, bpc, false) == 255 * v,
        bpc == 8 ==> sample_byte(v, bpc, false) == v,
        bpc == 16 ==> 256 * sample_byte(v, bpc, false) <= v < 256 * sample_byte(v, bpc, false) + 256,
        bpc == 1 || bpc == 2 || bpc == 4 || bpc == 8 ==> sample_byte(v, bpc, true) == v,
{
}

/// Turning the bits of an image round leaves of each byte what it lacks to
/// white, and nothing else changes.
pub proof fn inverting_mirrors(r: raster::RasterView, i: int)
    requires
        0 <= i < r.data.len(),
    ensures
        inverted(r).data[i] == 255 - r.data[i],
        inverted(r).data.len() == r.data.len(),
        inverted(r).width == r.width,
        inverted(r).height == r.height,
        inverted(r).format == r.format,
{
    let b = r.data[i];
    assert(!b == 255 - b) by (bit_vector);
}

/// On a bitonal image the array that runs from zero to one changes nothing
/// and the one that runs from one to zero turns every bit round.
pub proof fn bitonal_ranges_keep_or_mirror(r: raster::RasterView)
    requires
        r.format == Format::Gray1,
    ensures
        under_decode(
            r,
            Some(seq![function::QuantityView::Whole(0), function::QuantityView::Whole(1)]),
        ) == Ok::<DecodedView, Seq<char>>(DecodedView::Done(r)),
        under_decode(
            r,
            Some(seq![function::QuantityView::Whole(1), function::QuantityView::Whole(0)]),
        ) == Ok::<DecodedView, Seq<char>>(DecodedView::Done(inverted(r))),
        under_decode(r, None) == Ok::<DecodedView, Seq<char>>(DecodedView::Done(r)),
{
}

/// A JPEG is decoded to as many channels as the dictionary's model has
/// components, from a codestream of four only where the model has four or is
/// gray; colors of four channels that are not yet inks are asked for as they
/// are.
pub proof fn jpegs_have_the_components_of_the_model(model: ColorModel, input: JpegColors)
    ensures
        match jpeg_output_of(model, input) {
            Ok((out, format)) => {
                &&& format.samples() == classify::components_of(model)
                &&& format != Format::Indexed8 && format != Format::Gray1
                &&& classify::components_of(model) == 4 <==> out == JpegOutput::Cmyk || out
                    == JpegOutput::Ycck
                &&& out == JpegOutput::Ycck ==> input == JpegColors::Ycck
                &&& out == JpegOutput::Cmyk ==> input == JpegColors::Cmyk
                &&& out == JpegOutput::Luma <==> classify::components_of(model) == 1
                &&& classify::components_of(model) == 3 ==> input == JpegColors::Fewer
            },
            Err(_) => classify::components_of(model) == 3 && input != JpegColors::Fewer
                || classify::components_of(model) == 4 && input == JpegColors::Fewer,
        },
{
}

/// A JPEG 2000 image keeps the channels that its header says: one, three or
/// four, without alpha, in the size of the dictionary and, in a device space,
/// as many as that has components.
pub proof fn jpx_images_keep_their_channels(
    h: JpxHeader,
    width: u32,
    height: u32,
    color: classify::SpaceView,
)
    ensures
        jpx_plan(Ok(h), width, height, color) matches Ok(format) ==> {
            &&& format.samples() == h.channels
            &&& format != Format::Indexed8 && format != Format::Gray1
            &&& !h.alpha && h.known
            &&& h.width == width && h.height == height
            &&& color matches classify::SpaceView::Device(m) ==> classify::components_of(m)
                == h.channels
        },
        jpx_plan(Ok(h), width, height, color) is Ok <==> !h.alpha && h.known && h.width == width
            && h.height == height && (h.channels == 1 || h.channels == 3 || h.channels == 4) && (
        color matches classify::SpaceView::Device(m) ==> classify::components_of(m) == h.channels),
{
}

/// A model has the number of components by which it is found.
pub proof fn models_have_their_components(n: int)
    ensures
        model_of(n) matches Some(m) ==> classify::components_of(m) == n && device_format_of(
            m,
        ).samples() == n,
        model_of(n) is Some <==> n == 1 || n == 3 || n == 4,
{
}

/// The samples of an image of whole bytes are its data in order.
pub proof fn samples_stand_in_order(
    data: Seq<u8>,
    count: int,
    height: int,
    y: int,
    x: int,
    indices: bool,
)
    requires
        0 <= x < count,
        0 <= y < height,
        packed_len(count, 8) * height <= data.len(),
    ensures
        unpacked_rows(data, count, height, 8, indices).len() == count * height,
        unpacked_rows(data, count, height, 8, indices)[y * count + x] == data[y * count + x],
{
    let i = y * count + x;
    assert(0 <= i < count * height) by (nonlinear_arith)
        requires
            i == y * count + x,
            0 <= x < count,
            0 <= y < height,
    ;
    assert(i / count == y && i % count == x) by (nonlinear_arith)
        requires
            i == y * count + x,
            0 <= x < count,
            0 <= y,
    ;
    let row = encode::row_at(data, count, y);
    assert(y * count + count <= count * height) by (nonlinear_arith)
        requires
            0 <= y < height,
            0 < count,
    ;
    assert(packed_len(count, 8) == count);
    assert(row[x] == data[i]);
    lemma_byte_sample(row, x);
}

/// The eight bits of a byte spell it.
proof fn lemma_byte_sample(row: Seq<u8>, x: int)
    requires
        0 <= x < row.len(),
    ensures
        function::bits_value(row, x * 8, 8) == row[x],
{
    let b = row[x];
    let at = x * 8;
    assert(b == 128 * (b / 128 % 2) + 64 * (b / 64 % 2) + 32 * (b / 32 % 2) + 16 * (b / 16 % 2) + 8
        * (b / 8 % 2) + 4 * (b / 4 % 2) + 2 * (b / 2 % 2) + b % 2) by (bit_vector);
    lemma_bit_sample(row, x, 0);
    lemma_bit_sample(row, x, 1);
    lemma_bit_sample(row, x, 2);
    lemma_bit_sample(row, x, 3);
    lemma_bit_sample(row, x, 4);
    lemma_bit_sample(row, x, 5);
    lemma_bit_sample(row, x, 6);
    lemma_bit_sample(row, x, 7);
    assert(function::bits_value(row, at, 0) == 0);
    assert(function::bits_value(row, at, 1) == b / 128 % 2);
    assert(function::bits_value(row, at, 2) == 2 * (b / 128 % 2) + b / 64 % 2);
    assert(function::bits_value(row, at, 3) == 4 * (b / 128 % 2) + 2 * (b / 64 % 2) + b / 32 % 2);
    assert(function::bits_value(row, at, 4) == 2 * function::bits_value(row, at, 3) + b / 16 % 2);
    assert(function::bits_value(row, at, 5) == 2 * function::bits_value(row, at, 4) + b / 8 % 2);
    assert(function::bits_value(row, at, 6) == 2 * function::bits_value(row, at, 5) + b / 4 % 2);
    assert(function::bits_value(row, at, 7) == 2 * function::bits_value(row, at, 6) + b / 2 % 2);
    assert(function::bits_value(row, at, 8) == 2 * function::bits_value(row, at, 7) + b % 2);
}

proof fn lemma_bit_sample(row: Seq<u8>, x: int, k: int)
    requires
        0 <= x < row.len(),
        0 <= k < 8,
    ensures
        function::bit_at(row, x * 8 + k) == row[x] as int / raster::weight(k) % 2,
        function::bit_at(row, x * 8 + (k + 1) - 1) == row[x] as int / raster::weight(k) % 2,
{
    assert((x * 8 + k) / 8 == x && (x * 8 + k) % 8 == k);
}

} // verus!
