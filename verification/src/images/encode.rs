//! Encoders. Each returns the stream bytes plus the dictionary entries that
//! describe them (`Filter`, `DecodeParms`); the caller picks the smallest.
use vstd::prelude::*;

use std::io::Write;

use crate::bytes;
use crate::images::raster;
use crate::images::raster::{Format, Raster};
use crate::object;
use crate::object::{DataStream, Dict, Value, ValueView};

verus! {

/// An encoded image: the stream's bytes and what describes them.
#[derive(Debug)]
pub struct Encoded {
    pub codec: &'static str,
    pub bytes: Vec<u8>,
    pub filter: Option<Value>,
    pub decode_parms: Option<Dict>,
}

/// What an encoded image is.
pub struct EncodedView {
    pub codec: Seq<char>,
    pub bytes: Seq<u8>,
    pub filter: Option<ValueView>,
    pub decode_parms: Option<object::DictView>,
}

impl View for Encoded {
    type V = EncodedView;

    open spec fn view(&self) -> EncodedView {
        EncodedView {
            codec: self.codec@,
            bytes: self.bytes@,
            filter: match self.filter {
                Some(f) => Some(f@),
                None => None,
            },
            decode_parms: match self.decode_parms {
                Some(d) => Some(d@),
                None => None,
            },
        }
    }
}

/// The view of an encoded image, if there is one.
pub open spec fn encoded_view(e: Option<Encoded>) -> Option<EncodedView> {
    match e {
        Some(e) => Some(e@),
        None => None,
    }
}

/// A name by its text.
pub open spec fn name_value(name: Seq<char>) -> ValueView {
    ValueView::Name(bytes::text(name))
}

// ------------------------------------------------------------- predictors

/// The sample to the left, `bpp` bytes before; nothing before the row.
pub open spec fn left_of(row: Seq<u8>, bpp: int, i: int) -> u8 {
    if i >= bpp {
        row[i - bpp]
    } else {
        0
    }
}

pub open spec fn distance(a: int, b: int) -> int {
    if a < b {
        b - a
    } else {
        a - b
    }
}

/// Of left, above and upper left, the one nearest to left plus above less
/// upper left.
pub open spec fn nearest(a: u8, b: u8, c: u8) -> u8 {
    let p = a + b - c;
    let (pa, pb, pc) = (distance(p, a as int), distance(p, b as int), distance(p, c as int));
    if pa <= pb && pa <= pc {
        a
    } else if pb <= pc {
        b
    } else {
        c
    }
}

/// What a PNG filter predicts for a sample from those before it.
pub open spec fn predicted(kind: int, row: Seq<u8>, prev: Seq<u8>, bpp: int, i: int) -> u8 {
    if kind == 1 {
        left_of(row, bpp, i)
    } else if kind == 2 {
        prev[i]
    } else if kind == 3 {
        ((left_of(row, bpp, i) + prev[i]) / 2) as u8
    } else if kind == 4 {
        nearest(left_of(row, bpp, i), prev[i], left_of(prev, bpp, i))
    } else {
        0
    }
}

/// A row with each sample less what the filter predicts for it.
pub open spec fn filtered(kind: int, row: Seq<u8>, prev: Seq<u8>, bpp: int) -> Seq<u8> {
    Seq::new(
        row.len(),
        |i: int| ((row[i] - predicted(kind, row, prev, bpp, i)) % 256) as u8,
    )
}

/// A filtered byte's distance from zero as a signed number.
pub open spec fn size_of_byte(b: u8) -> int {
    if b < 128 {
        b as int
    } else {
        256 - b
    }
}

/// The sum of the distances from zero of the first `n` bytes.
pub open spec fn total_size(f: Seq<u8>, n: int) -> int
    decreases n,
{
    if n <= 0 {
        0
    } else {
        total_size(f, n - 1) + size_of_byte(f[n - 1])
    }
}

/// What a filter costs for a row.
pub open spec fn filter_cost(kind: int, row: Seq<u8>, prev: Seq<u8>, bpp: int) -> int {
    total_size(filtered(kind, row, prev, bpp), row.len() as int)
}

/// Of the first `n` filters, the first with the least cost.
pub open spec fn best_of(n: int, row: Seq<u8>, prev: Seq<u8>, bpp: int) -> int
    decreases n,
{
    if n <= 1 {
        0
    } else {
        let best = best_of(n - 1, row, prev, bpp);
        if filter_cost(n - 1, row, prev, bpp) < filter_cost(best, row, prev, bpp) {
            n - 1
        } else {
            best
        }
    }
}

/// A row as it is written: its best filter and the filtered samples.
pub open spec fn written_row(row: Seq<u8>, prev: Seq<u8>, bpp: int) -> Seq<u8> {
    let kind = best_of(5, row, prev, bpp);
    seq![kind as u8] + filtered(kind, row, prev, bpp)
}

/// The row of an image.
pub open spec fn row_at(data: Seq<u8>, stride: int, y: int) -> Seq<u8> {
    data.subrange(y * stride, y * stride + stride)
}

/// The row above a row; zeros above the first.
pub open spec fn row_above(data: Seq<u8>, stride: int, y: int) -> Seq<u8> {
    if y <= 0 {
        Seq::new(stride as nat, |i: int| 0u8)
    } else {
        row_at(data, stride, y - 1)
    }
}

/// The first `n` rows as they are written.
pub open spec fn written_rows(data: Seq<u8>, stride: int, bpp: int, n: int) -> Seq<u8>
    decreases n,
{
    if n <= 0 {
        Seq::empty()
    } else {
        written_rows(data, stride, bpp, n - 1) + written_row(
            row_at(data, stride, n - 1),
            row_above(data, stride, n - 1),
            bpp,
        )
    }
}

/// How far back the sample to the left stands.
pub open spec fn bytes_back(format: Format) -> int {
    if format == Format::Gray1 {
        1
    } else {
        format.samples()
    }
}

/// The rows of an image as they are written with predictors.
pub open spec fn predicted_rows(r: raster::RasterView) -> Seq<u8> {
    written_rows(r.data, r.format.row_len(r.width), bytes_back(r.format), r.height)
}

fn paeth(a: u8, b: u8, c: u8) -> (r: u8)
    ensures
        r == nearest(a, b, c),
{
    let p: i16 = a as i16 + b as i16 - c as i16;
    let pa: i16 = if p < a as i16 {
        a as i16 - p
    } else {
        p - a as i16
    };
    let pb: i16 = if p < b as i16 {
        b as i16 - p
    } else {
        p - b as i16
    };
    let pc: i16 = if p < c as i16 {
        c as i16 - p
    } else {
        p - c as i16
    };
    if pa <= pb && pa <= pc {
        a
    } else if pb <= pc {
        b
    } else {
        c
    }
}

fn predict(kind: u8, row: &[u8], prev: &[u8], bpp: usize, i: usize) -> (r: u8)
    requires
        kind < 5,
        bpp > 0,
        row@.len() == prev@.len(),
        i < row@.len(),
    ensures
        r == predicted(kind as int, row@, prev@, bpp as int, i as int),
{
    let left: u8 = if i >= bpp {
        row[i - bpp]
    } else {
        0
    };
    let corner: u8 = if i >= bpp {
        prev[i - bpp]
    } else {
        0
    };
    if kind == 1 {
        left
    } else if kind == 2 {
        prev[i]
    } else if kind == 3 {
        ((left as u16 + prev[i] as u16) / 2) as u8
    } else if kind == 4 {
        paeth(left, prev[i], corner)
    } else {
        0
    }
}

fn filter(kind: u8, row: &[u8], prev: &[u8], bpp: usize) -> (r: Vec<u8>)
    requires
        kind < 5,
        bpp > 0,
        row@.len() == prev@.len(),
    ensures
        r@ == filtered(kind as int, row@, prev@, bpp as int),
{
    let ghost goal = filtered(kind as int, row@, prev@, bpp as int);
    let mut out: Vec<u8> = Vec::new();
    let mut i: usize = 0;
    while i < row.len()
        invariant
            i <= row@.len(),
            kind < 5,
            bpp > 0,
            row@.len() == prev@.len(),
            goal == filtered(kind as int, row@, prev@, bpp as int),
            out@ == goal.take(i as int),
        decreases row@.len() - i,
    {
        let p = predict(kind, row, prev, bpp, i);
        let b: u8 = if row[i] >= p {
            row[i] - p
        } else {
            (256 + row[i] as u16 - p as u16) as u8
        };
        out.push(b);
        i += 1;
        assert(out@ =~= goal.take(i as int));
    }
    assert(out@ =~= goal);
    out
}

fn cost(f: &Vec<u8>) -> (r: u128)
    ensures
        r == total_size(f@, f@.len() as int),
{
    let mut total: u128 = 0;
    let mut i: usize = 0;
    while i < f.len()
        invariant
            i <= f@.len(),
            total == total_size(f@, i as int),
            total <= i * 128,
        decreases f@.len() - i,
    {
        let b = f[i];
        total = total + (if b < 128 {
            b as u128
        } else {
            256 - b as u128
        });
        i += 1;
    }
    total
}

fn best_filter(row: &[u8], prev: &[u8], bpp: usize) -> (r: (u8, Vec<u8>))
    requires
        bpp > 0,
        row@.len() == prev@.len(),
    ensures
        seq![r.0] + r.1@ == written_row(row@, prev@, bpp as int),
{
    let mut best: u8 = 0;
    let mut chosen = filter(0, row, prev, bpp);
    let mut least = cost(&chosen);
    let mut kind: u8 = 1;
    assert(best_of(1, row@, prev@, bpp as int) == 0);
    while kind < 5
        invariant
            1 <= kind <= 5,
            best < 5,
            bpp > 0,
            row@.len() == prev@.len(),
            best == best_of(kind as int, row@, prev@, bpp as int),
            chosen@ == filtered(best as int, row@, prev@, bpp as int),
            least == filter_cost(best as int, row@, prev@, bpp as int),
        decreases 5 - kind,
    {
        let f = filter(kind, row, prev, bpp);
        let c = cost(&f);
        assert(c == filter_cost(kind as int, row@, prev@, bpp as int));
        if c < least {
            best = kind;
            chosen = f;
            least = c;
        }
        kind += 1;
    }
    (best, chosen)
}

fn predict_rows(r: &Raster) -> (out: Vec<u8>)
    requires
        r.wf(),
    ensures
        out@ == predicted_rows(r@),
{
    let len: usize = r.data.len();
    let ghost w = r.format.row_len(r.width as int);
    proof {
        assert(w > 0) by (nonlinear_arith)
            requires
                w == (r.width + 7) / 8 || w == r.width * r.format.samples(),
                r.width > 0,
                r.format.samples() >= 1,
        ;
        raster::lemma_within(0, 0, w, r.height as int);
        assert(w <= w * r.height) by (nonlinear_arith)
            requires
                w > 0,
                r.height > 0,
        ;
    }
    let stride: usize = r.format.row_bytes(r.width);
    let bpp: usize = if r.format == Format::Gray1 {
        1
    } else {
        r.format.samples_per_pixel()
    };
    let mut prev: Vec<u8> = Vec::new();
    let mut k: usize = 0;
    while k < stride
        invariant
            k <= stride,
            prev@ == Seq::new(k as nat, |i: int| 0u8),
        decreases stride - k,
    {
        prev.push(0);
        k += 1;
        assert(prev@ =~= Seq::new(k as nat, |i: int| 0u8));
    }
    let mut out: Vec<u8> = Vec::new();
    let mut y: u32 = 0;
    assert(out@ =~= Seq::empty());
    while y < r.height
        invariant
            y <= r.height,
            stride > 0,
            bpp > 0,
            bpp == bytes_back(r.format),
            stride == r.format.row_len(r.width as int),
            len == r.data@.len() == stride * r.height,
            prev@ == row_above(r.data@, stride as int, y as int),
            prev@.len() == stride,
            out@ == written_rows(r.data@, stride as int, bpp as int, y as int),
        decreases r.height - y,
    {
        proof {
            raster::lemma_within(y as int, stride - 1, stride as int, r.height as int);
        }
        let start: usize = y as usize * stride;
        let row = bytes::copy_range(&r.data, start, start + stride);
        assert(row@ =~= row_at(r.data@, stride as int, y as int));
        let (kind, f) = best_filter(&row, &prev, bpp);
        let ghost before = out@;
        out.push(kind);
        bytes::append(&mut out, &f);
        assert(out@ =~= before + (seq![kind] + f@));
        prev = row;
        y += 1;
    }
    out
}

// ------------------------------------------------------------- Flate

/// Data compressed in the zlib format at the best level.
pub uninterp spec fn deflated(data: Seq<u8>) -> Option<Seq<u8>>;

/// The bytes, if there are any.
pub open spec fn data_view(data: Option<Vec<u8>>) -> Option<Seq<u8>> {
    match data {
        Some(d) => Some(d@),
        None => None,
    }
}

/// `flate2::write::ZlibEncoder` at `Compression::best`, over all of the data.
#[verifier::external_body]
fn zlib(data: &[u8]) -> (r: Option<Vec<u8>>)
    ensures
        data_view(r) == deflated(data@),
{
    let mut enc = flate2::write::ZlibEncoder::new(Vec::new(), flate2::Compression::best());
    enc.write_all(data).ok()?;
    enc.finish().ok()
}

/// What describes predicted rows to a reader.
pub open spec fn predictor_parms(r: raster::RasterView) -> object::DictView {
    let d = object::with_entry(Seq::empty(), bytes::text("Predictor"@), ValueView::Integer(15));
    let d = object::with_entry(
        d,
        bytes::text("Colors"@),
        ValueView::Integer(r.format.samples() as i64),
    );
    let d = object::with_entry(
        d,
        bytes::text("BitsPerComponent"@),
        ValueView::Integer(
            if r.format == Format::Gray1 {
                1
            } else {
                8
            },
        ),
    );
    object::with_entry(d, bytes::text("Columns"@), ValueView::Integer(r.width as i64))
}

/// The encoding of an image from its data compressed as they are and with
/// predictors: the shorter of the two, the first of two that are as long.
pub open spec fn flate_of(
    r: raster::RasterView,
    plain: Option<Seq<u8>>,
    predicted: Option<Seq<u8>>,
) -> Option<EncodedView> {
    match plain {
        None => None,
        Some(p) => {
            let better = predicted is Some && predicted->0.len() < p.len();
            Some(
                EncodedView {
                    codec: "FlateDecode"@,
                    bytes: if better {
                        predicted->0
                    } else {
                        p
                    },
                    filter: Some(name_value("FlateDecode"@)),
                    decode_parms: if better {
                        Some(predictor_parms(r))
                    } else {
                        None
                    },
                },
            )
        },
    }
}

/// The encoding of an image from its two compressed forms.
pub fn flate_from(r: &Raster, plain: Option<Vec<u8>>, predicted: Option<Vec<u8>>) -> (e: Option<
    Encoded,
>)
    ensures
        encoded_view(e) == flate_of(r@, data_view(plain), data_view(predicted)),
{
    let plain = plain?;
    let filter = Some(Value::Name(bytes::of("FlateDecode")));
    match predicted {
        Some(f) => {
            if f.len() < plain.len() {
                let mut d = Dict::new();
                d.put("Predictor", Value::Integer(15));
                d.put("Colors", Value::Integer(r.format.samples_per_pixel() as i64));
                d.put(
                    "BitsPerComponent",
                    Value::Integer(r.format.bits_per_component() as i64),
                );
                d.put("Columns", Value::Integer(r.width as i64));
                return Some(
                    Encoded { codec: "FlateDecode", bytes: f, filter, decode_parms: Some(d) },
                );
            }
        },
        None => {},
    }
    Some(Encoded { codec: "FlateDecode", bytes: plain, filter, decode_parms: None })
}

/// Flate with the best PNG predictor per row (the "optimum" PNG heuristic:
/// the filter whose output has the smallest sum of absolute values), or no
/// predictor at all when that is smaller.
pub fn flate(r: &Raster) -> (e: Option<Encoded>)
    requires
        r.wf(),
    ensures
        encoded_view(e) == flate_of(r@, deflated(r@.data), deflated(predicted_rows(r@))),
{
    let plain = zlib(&r.data);
    let rows = predict_rows(r);
    let predicted = zlib(&rows);
    flate_from(r, plain, predicted)
}

// ------------------------------------------------------------- JPEG

/// How many channels a JPEG of an image has; none where it cannot be one.
pub open spec fn jpeg_channels_of(format: Format) -> Option<u8> {
    match format {
        Format::Gray8 => Some(1),
        Format::Rgb8 => Some(3),
        Format::Cmyk8 => Some(4),
        _ => None,
    }
}

/// How many channels a JPEG of an image has. CMYK is stored as-is with an
/// Adobe marker; PDF readers take CMYK JPEG samples directly (no inversion),
/// as the decoder side does.
pub fn jpeg_channels(format: Format) -> (r: Option<u8>)
    ensures
        r == jpeg_channels_of(format),
{
    match format {
        Format::Gray8 => Some(1),
        Format::Rgb8 => Some(3),
        Format::Cmyk8 => Some(4),
        _ => None,
    }
}

/// A JPEG as an encoded image.
pub fn jpeg_encoded(data: Vec<u8>) -> (e: Encoded)
    ensures
        e@ == (EncodedView {
            codec: "DCTDecode"@,
            bytes: data@,
            filter: Some(name_value("DCTDecode"@)),
            decode_parms: None,
        }),
{
    Encoded {
        codec: "DCTDecode",
        bytes: data,
        filter: Some(Value::Name(bytes::of("DCTDecode"))),
        decode_parms: None,
    }
}

// ------------------------------------------------------------- write back

/// Whether an image is a stencil mask.
pub open spec fn stencil(dict: object::DictView) -> bool {
    object::lookup(dict, bytes::text("ImageMask"@)) == Some(ValueView::Boolean(true))
}

/// The device color space of an image's layout.
pub open spec fn device_name(format: Format) -> Seq<char> {
    match format {
        Format::Rgb8 => "DeviceRGB"@,
        Format::Cmyk8 => "DeviceCMYK"@,
        _ => "DeviceGray"@,
    }
}

/// The size and depth of an image in its dictionary.
pub open spec fn with_size(d: object::DictView, r: raster::RasterView) -> object::DictView {
    let sized = object::with_entry(
        object::with_entry(d, bytes::text("Width"@), ValueView::Integer(r.width as i64)),
        bytes::text("Height"@),
        ValueView::Integer(r.height as i64),
    );
    if stencil(d) {
        sized
    } else {
        object::with_entry(
            sized,
            bytes::text("BitsPerComponent"@),
            ValueView::Integer(
                if r.format == Format::Gray1 {
                    1
                } else {
                    8
                },
            ),
        )
    }
}

/// The color space of an image that says none: the device space of its
/// layout. Only a JPX source can lack one.
pub open spec fn with_space(
    d: object::DictView,
    is_stencil: bool,
    format: Format,
) -> object::DictView {
    if is_stencil || object::lookup(d, bytes::text("ColorSpace"@)) is Some {
        d
    } else {
        object::with_entry(d, bytes::text("ColorSpace"@), name_value(device_name(format)))
    }
}

/// A dictionary without what described the encoding before.
pub open spec fn without_coding(d: object::DictView) -> object::DictView {
    object::without_key(
        object::without_key(
            object::without_key(
                object::without_key(d, bytes::text("Decode"@)),
                bytes::text("DecodeParms"@),
            ),
            bytes::text("DP"@),
        ),
        bytes::text("F"@),
    )
}

/// A dictionary with what describes the encoding now, and its length.
pub open spec fn with_coding(d: object::DictView, e: EncodedView) -> object::DictView {
    let filtered = match e.filter {
        Some(f) => object::with_entry(d, bytes::text("Filter"@), f),
        None => object::without_key(d, bytes::text("Filter"@)),
    };
    let described = match e.decode_parms {
        Some(p) => object::with_entry(
            filtered,
            bytes::text("DecodeParms"@),
            ValueView::Dictionary(p),
        ),
        None => filtered,
    };
    object::with_entry(
        described,
        bytes::text("Length"@),
        ValueView::Integer(e.bytes.len() as i64),
    )
}

/// The dictionary of an image that is written back.
pub open spec fn applied(
    d: object::DictView,
    r: raster::RasterView,
    e: EncodedView,
) -> object::DictView {
    with_coding(
        without_coding(
            object::without_key(
                with_space(with_size(d, r), stencil(d), r.format),
                bytes::text("SMaskInData"@),
            ),
        ),
        e,
    )
}

/// Whether an image is a stencil mask.
pub fn is_stencil(dict: &Dict) -> (r: bool)
    ensures
        r == stencil(dict@),
{
    match dict.get("ImageMask".as_bytes()) {
        Some(v) => match v.as_bool() {
            Some(b) => b,
            None => false,
        },
        None => false,
    }
}

/// Writes an image's size and depth into its dictionary.
pub fn set_size(dict: &mut Dict, r: &Raster)
    ensures
        final(dict)@ == with_size(old(dict)@, r@),
        old(dict).wf() ==> final(dict).wf(),
{
    let mask = is_stencil(dict);
    dict.put("Width", Value::Integer(r.width as i64));
    dict.put("Height", Value::Integer(r.height as i64));
    if !mask {
        dict.put("BitsPerComponent", Value::Integer(r.format.bits_per_component() as i64));
    }
}

/// Replaces what describes a stream's encoding, and its content.
pub fn set_coding(stream: &mut DataStream, e: &Encoded)
    requires
        e.bytes@.len() <= i64::MAX,
    ensures
        final(stream).dict@ == with_coding(without_coding(old(stream).dict@), e@),
        final(stream).content@ == e.bytes@,
        old(stream).dict.wf() ==> final(stream).dict.wf(),
{
    stream.dict.drop_key("Decode");
    stream.dict.drop_key("DecodeParms");
    stream.dict.drop_key("DP");
    stream.dict.drop_key("F");
    match &e.filter {
        Some(f) => {
            stream.dict.put("Filter", f.copied());
        },
        None => {
            stream.dict.drop_key("Filter");
        },
    }
    match &e.decode_parms {
        Some(p) => {
            stream.dict.put("DecodeParms", Value::Dictionary(p.copied()));
        },
        None => {},
    }
    stream.dict.put("Length", Value::Integer(e.bytes.len() as i64));
    stream.content = bytes::copy(&e.bytes);
}

/// Replace the stream's data and the keys that describe it. Keys that stay
/// meaningful (`ColorSpace` for indexed and device images, `SMask`,
/// `Mask`, `Interpolate`, `Intent`, `Name`) are kept; ones that described
/// the old encoding (`Decode`, `DecodeParms`, `Filter`) are replaced.
pub fn apply(stream: &mut DataStream, r: &Raster, encoded: &Encoded)
    requires
        encoded.bytes@.len() <= i64::MAX,
    ensures
        final(stream).dict@ == applied(old(stream).dict@, r@, encoded@),
        final(stream).content@ == encoded.bytes@,
        old(stream).dict.wf() ==> final(stream).dict.wf(),
{
    let mask = is_stencil(&stream.dict);
    set_size(&mut stream.dict, r);
    if !mask && !stream.dict.has("ColorSpace".as_bytes()) {
        let name = match r.format {
            Format::Rgb8 => bytes::of("DeviceRGB"),
            Format::Cmyk8 => bytes::of("DeviceCMYK"),
            _ => bytes::of("DeviceGray"),
        };
        stream.dict.put("ColorSpace", Value::Name(name));
    }
    stream.dict.drop_key("SMaskInData");
    set_coding(stream, encoded);
}

// ------------------------------------------------------------- laws

/// The first `n` samples that a reader of a filtered row gets: each filtered
/// byte and what the filter predicts from the samples before it.
pub open spec fn read_row(kind: int, f: Seq<u8>, prev: Seq<u8>, bpp: int, n: int) -> Seq<u8>
    decreases n,
{
    if n <= 0 {
        Seq::empty()
    } else {
        let before = read_row(kind, f, prev, bpp, n - 1);
        before.push(((f[n - 1] + predicted(kind, before, prev, bpp, n - 1)) % 256) as u8)
    }
}

/// The first `n` rows that a reader of predicted rows gets.
pub open spec fn read_rows(s: Seq<u8>, stride: int, bpp: int, n: int) -> Seq<u8>
    decreases n,
{
    if n <= 0 {
        Seq::empty()
    } else {
        let before = read_rows(s, stride, bpp, n - 1);
        let start = (n - 1) * (stride + 1);
        before + read_row(
            s[start] as int,
            s.subrange(start + 1, start + 1 + stride),
            row_above(before, stride, n - 1),
            bpp,
            stride,
        )
    }
}

proof fn lemma_read_row(kind: int, row: Seq<u8>, prev: Seq<u8>, bpp: int, n: int)
    requires
        bpp > 0,
        0 <= n <= row.len(),
        row.len() == prev.len(),
    ensures
        read_row(kind, filtered(kind, row, prev, bpp), prev, bpp, n) == row.take(n),
    decreases n,
{
    let f = filtered(kind, row, prev, bpp);
    if n > 0 {
        lemma_read_row(kind, row, prev, bpp, n - 1);
        let before = row.take(n - 1);
        assert(left_of(before, bpp, n - 1) == left_of(row, bpp, n - 1));
        assert(predicted(kind, before, prev, bpp, n - 1) == predicted(kind, row, prev, bpp, n - 1));
        assert(row.take(n) =~= before.push(row[n - 1]));
    } else {
        assert(row.take(0) =~= Seq::empty());
    }
}

proof fn lemma_written_len(data: Seq<u8>, stride: int, bpp: int, n: int)
    requires
        stride > 0,
        0 <= n,
        n * stride <= data.len(),
    ensures
        written_rows(data, stride, bpp, n).len() == n * (stride + 1),
    decreases n,
{
    if n > 0 {
        assert((n - 1) * stride <= n * stride && (n - 1) * stride + stride == n * stride && (n - 1)
            * (stride + 1) + stride + 1 == n * (stride + 1) && (n - 1) * stride >= 0)
            by (nonlinear_arith)
            requires
                n > 0,
                stride > 0,
        ;
        lemma_written_len(data, stride, bpp, n - 1);
        assert(row_at(data, stride, n - 1).len() == stride);
    } else {
        assert(n * (stride + 1) == 0) by (nonlinear_arith)
            requires
                n == 0,
        ;
    }
}

proof fn lemma_best(n: int, row: Seq<u8>, prev: Seq<u8>, bpp: int)
    requires
        1 <= n,
    ensures
        0 <= best_of(n, row, prev, bpp) < n,
    decreases n,
{
    if n > 1 {
        lemma_best(n - 1, row, prev, bpp);
    }
}

proof fn lemma_read_rows(data: Seq<u8>, s: Seq<u8>, stride: int, bpp: int, n: int)
    requires
        stride > 0,
        bpp > 0,
        0 <= n,
        n * stride <= data.len(),
        n * (stride + 1) <= s.len(),
        s.take(n * (stride + 1)) == written_rows(data, stride, bpp, n),
    ensures
        read_rows(s, stride, bpp, n) == data.take(n * stride),
    decreases n,
{
    if n > 0 {
        let m = n - 1;
        let start = m * (stride + 1);
        assert(m * stride >= 0 && m * stride + stride == n * stride && start >= 0 && start + stride
            + 1 == n * (stride + 1)) by (nonlinear_arith)
            requires
                m == n - 1,
                n > 0,
                stride > 0,
                start == m * (stride + 1),
        ;
        lemma_written_len(data, stride, bpp, m);
        let whole = written_rows(data, stride, bpp, n);
        let row = row_at(data, stride, m);
        let prev = row_above(data, stride, m);
        let kind = best_of(5, row, prev, bpp);
        lemma_best(5, row, prev, bpp);
        let f = filtered(kind, row, prev, bpp);
        assert(s.take(start) =~= written_rows(data, stride, bpp, m)) by {
            assert(s.take(start) =~= whole.take(start));
            assert(whole.take(start) =~= written_rows(data, stride, bpp, m));
        }
        lemma_read_rows(data, s, stride, bpp, m);
        let before = data.take(m * stride);
        assert(s[start] == whole[start]);
        assert(whole[start] == kind as u8);
        assert(s.subrange(start + 1, start + 1 + stride) =~= f) by {
            assert forall|i: int| 0 <= i < stride implies s[start + 1 + i] == f[i] by {
                assert(s[start + 1 + i] == whole[start + 1 + i]);
            }
        }
        assert(row_above(before, stride, m) =~= prev) by {
            if m > 0 {
                assert((m - 1) * stride + stride == m * stride && (m - 1) * stride >= 0)
                    by (nonlinear_arith)
                    requires
                        m > 0,
                        stride > 0,
                ;
            }
        }
        assert(prev.len() == stride) by {
            if m > 0 {
                assert((m - 1) * stride + stride == m * stride && (m - 1) * stride >= 0)
                    by (nonlinear_arith)
                    requires
                        m > 0,
                        stride > 0,
                ;
            }
        }
        lemma_read_row(kind, row, prev, bpp, stride);
        assert(row.take(stride) =~= row);
        assert(data.take(n * stride) =~= before + row);
    } else {
        assert(0 * stride == 0);
        assert(data.take(0) =~= Seq::empty());
    }
}

/// Whatever filters win, a reader of the predicted rows gets the image back.
pub proof fn predictors_round_trip(r: raster::RasterView)
    requires
        r.whole(),
    ensures
        read_rows(
            predicted_rows(r),
            r.format.row_len(r.width),
            bytes_back(r.format),
            r.height,
        ) == r.data,
{
    let stride = r.format.row_len(r.width);
    let n = r.format.samples();
    assert(stride > 0) by (nonlinear_arith)
        requires
            stride == (r.width + 7) / 8 || stride == r.width * n,
            r.width > 0,
            n >= 1,
    ;
    assert(r.height * stride == stride * r.height) by (nonlinear_arith);
    lemma_written_len(r.data, stride, bytes_back(r.format), r.height);
    let s = predicted_rows(r);
    assert(s.take(s.len() as int) =~= s);
    lemma_read_rows(r.data, s, stride, bytes_back(r.format), r.height);
    assert(r.data.take(r.data.len() as int) =~= r.data);
}

/// What tells the keys of an image apart.
proof fn lemma_image_keys()
    ensures
        "Width"@.len() == 5,
        "Height"@.len() == 6 && "Height"@[0] == 'H',
        "BitsPerComponent"@.len() == 16,
        "ColorSpace"@.len() == 10,
        "SMaskInData"@.len() == 11 && "SMaskInData"@[0] == 'S',
        "Decode"@.len() == 6 && "Decode"@[0] == 'D',
        "DecodeParms"@.len() == 11 && "DecodeParms"@[0] == 'D',
        "DP"@.len() == 2,
        "F"@.len() == 1,
        "Filter"@.len() == 6 && "Filter"@[0] == 'F',
        "Length"@.len() == 6 && "Length"@[0] == 'L',
        "ImageMask"@.len() == 9 && "ImageMask"@[0] == 'I',
        "Predictor"@.len() == 9 && "Predictor"@[0] == 'P',
        "Colors"@.len() == 6 && "Colors"@[0] == 'C',
        "Columns"@.len() == 7,
{
    reveal_strlit("Width");
    reveal_strlit("Height");
    reveal_strlit("BitsPerComponent");
    reveal_strlit("ColorSpace");
    reveal_strlit("SMaskInData");
    reveal_strlit("Decode");
    reveal_strlit("DecodeParms");
    reveal_strlit("DP");
    reveal_strlit("F");
    reveal_strlit("Filter");
    reveal_strlit("Length");
    reveal_strlit("ImageMask");
    reveal_strlit("Predictor");
    reveal_strlit("Colors");
    reveal_strlit("Columns");
}

/// The dictionary that is written back describes the image that was written:
/// its size, its depth unless it is a stencil, its filter with the parameters,
/// and its length. What described the data before is gone.
pub proof fn written_dictionaries_describe_the_image(
    d: object::DictView,
    r: raster::RasterView,
    e: EncodedView,
)
    requires
        object::distinct_keys(d),
    ensures
        ({
            let w = applied(d, r, e);
            &&& object::lookup(w, bytes::text("Width"@)) == Some(ValueView::Integer(r.width as i64))
            &&& object::lookup(w, bytes::text("Height"@)) == Some(
                ValueView::Integer(r.height as i64),
            )
            &&& object::lookup(d, bytes::text("ImageMask"@)) != Some(ValueView::Boolean(true))
                ==> object::lookup(w, bytes::text("BitsPerComponent"@)) == Some(
                ValueView::Integer(
                    if r.format == Format::Gray1 {
                        1
                    } else {
                        8
                    },
                ),
            )
            &&& object::lookup(w, bytes::text("Filter"@)) == e.filter
            &&& object::lookup(w, bytes::text("DecodeParms"@)) == match e.decode_parms {
                Some(p) => Some(ValueView::Dictionary(p)),
                None => None,
            }
            &&& object::lookup(w, bytes::text("Length"@)) == Some(
                ValueView::Integer(e.bytes.len() as i64),
            )
            &&& object::lookup(w, bytes::text("Decode"@)) is None
            &&& object::lookup(w, bytes::text("DP"@)) is None
            &&& object::lookup(w, bytes::text("F"@)) is None
            &&& object::lookup(w, bytes::text("SMaskInData"@)) is None
            &&& object::lookup(d, bytes::text("ColorSpace"@)) is Some ==> object::lookup(
                w,
                bytes::text("ColorSpace"@),
            ) == object::lookup(d, bytes::text("ColorSpace"@))
            &&& object::lookup(d, bytes::text("ColorSpace"@)) is None && object::lookup(
                d,
                bytes::text("ImageMask"@),
            ) != Some(ValueView::Boolean(true)) ==> object::lookup(w, bytes::text("ColorSpace"@))
                == Some(
                ValueView::Name(
                    if r.format.samples() == 4 {
                        bytes::text("DeviceCMYK"@)
                    } else if r.format.samples() == 3 {
                        bytes::text("DeviceRGB"@)
                    } else {
                        bytes::text("DeviceGray"@)
                    },
                ),
            )
            &&& object::lookup(w, bytes::text("ImageMask"@)) == object::lookup(
                d,
                bytes::text("ImageMask"@),
            )
        }),
{
    bytes::lemma_texts_differ();
    lemma_image_keys();
    let width = ValueView::Integer(r.width as i64);
    let height = ValueView::Integer(r.height as i64);
    let d1 = object::with_entry(d, bytes::text("Width"@), width);
    object::lemma_with_entry(d, bytes::text("Width"@), width);
    let d2 = object::with_entry(d1, bytes::text("Height"@), height);
    object::lemma_with_entry(d1, bytes::text("Height"@), height);
    let depth = ValueView::Integer(
        if r.format == Format::Gray1 {
            1
        } else {
            8
        },
    );
    let d3 = with_size(d, r);
    object::lemma_with_entry(d2, bytes::text("BitsPerComponent"@), depth);
    let d4 = with_space(d3, stencil(d), r.format);
    object::lemma_with_entry(d3, bytes::text("ColorSpace"@), name_value(device_name(r.format)));
    let d5 = object::without_key(d4, bytes::text("SMaskInData"@));
    object::lemma_without_key(d4, bytes::text("SMaskInData"@));
    let d6 = object::without_key(d5, bytes::text("Decode"@));
    object::lemma_without_key(d5, bytes::text("Decode"@));
    let d7 = object::without_key(d6, bytes::text("DecodeParms"@));
    object::lemma_without_key(d6, bytes::text("DecodeParms"@));
    let d8 = object::without_key(d7, bytes::text("DP"@));
    object::lemma_without_key(d7, bytes::text("DP"@));
    let d9 = object::without_key(d8, bytes::text("F"@));
    object::lemma_without_key(d8, bytes::text("F"@));
    assert(d9 == without_coding(d5));
    let e1 = match e.filter {
        Some(f) => object::with_entry(d9, bytes::text("Filter"@), f),
        None => object::without_key(d9, bytes::text("Filter"@)),
    };
    match e.filter {
        Some(f) => object::lemma_with_entry(d9, bytes::text("Filter"@), f),
        None => object::lemma_without_key(d9, bytes::text("Filter"@)),
    }
    let e2 = match e.decode_parms {
        Some(p) => object::with_entry(e1, bytes::text("DecodeParms"@), ValueView::Dictionary(p)),
        None => e1,
    };
    if let Some(p) = e.decode_parms {
        object::lemma_with_entry(e1, bytes::text("DecodeParms"@), ValueView::Dictionary(p));
    }
    object::lemma_with_entry(
        e2,
        bytes::text("Length"@),
        ValueView::Integer(e.bytes.len() as i64),
    );
}

/// Predicted rows are described as what they are: the predictor that each row
/// chooses, the number of samples to a pixel, their depth and the width.
pub proof fn predictor_parameters_describe_the_rows(r: raster::RasterView)
    ensures
        object::lookup(predictor_parms(r), bytes::text("Predictor"@)) == Some(
            ValueView::Integer(15),
        ),
        object::lookup(predictor_parms(r), bytes::text("Colors"@)) == Some(
            ValueView::Integer(r.format.samples() as i64),
        ),
        object::lookup(predictor_parms(r), bytes::text("BitsPerComponent"@)) == Some(
            ValueView::Integer(
                if r.format == Format::Gray1 {
                    1
                } else {
                    8
                },
            ),
        ),
        object::lookup(predictor_parms(r), bytes::text("Columns"@)) == Some(
            ValueView::Integer(r.width as i64),
        ),
{
    bytes::lemma_texts_differ();
    lemma_image_keys();
    let none: object::DictView = Seq::empty();
    let a = object::with_entry(none, bytes::text("Predictor"@), ValueView::Integer(15));
    object::lemma_with_entry(none, bytes::text("Predictor"@), ValueView::Integer(15));
    let colors = ValueView::Integer(r.format.samples() as i64);
    let b = object::with_entry(a, bytes::text("Colors"@), colors);
    object::lemma_with_entry(a, bytes::text("Colors"@), colors);
    let depth = ValueView::Integer(
        if r.format == Format::Gray1 {
            1
        } else {
            8
        },
    );
    let c = object::with_entry(b, bytes::text("BitsPerComponent"@), depth);
    object::lemma_with_entry(b, bytes::text("BitsPerComponent"@), depth);
    object::lemma_with_entry(c, bytes::text("Columns"@), ValueView::Integer(r.width as i64));
}

/// Of the plain and the predicted data the shorter are taken, with parameters
/// just where they are the predicted ones.
pub proof fn shorter_data_are_taken(
    r: raster::RasterView,
    plain: Seq<u8>,
    predicted: Option<Seq<u8>>,
)
    ensures
        flate_of(r, Some(plain), predicted) matches Some(e) && {
            &&& e.bytes.len() <= plain.len()
            &&& predicted matches Some(p) ==> e.bytes.len() <= p.len()
            &&& e.decode_parms is None ==> e.bytes == plain
            &&& e.decode_parms is Some ==> predicted == Some(e.bytes)
            &&& e.filter == Some(ValueView::Name(bytes::text("FlateDecode"@)))
        },
        flate_of(r, None, predicted) is None,
{
}

} // verus!
