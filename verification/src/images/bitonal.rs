//! Bitonal codecs: what CCITT and JBIG2 input decoding needs and collects,
//! and CCITT G4 and JBIG2 (generic region, lossless) output.
//!
//! Raster convention throughout is PDF DeviceGray at 1 bit: 1 = white,
//! 0 = black, rows padded to a byte. The filters' own conventions
//! (`BlackIs1`, JBIG2's 1 = black) are translated at the boundary.
//!
//! JBIG2 output uses generic-region coding because the available encoder's
//! symbol mode substitutes glyphs (lossy) and has no refinement.
use vstd::prelude::*;
use vstd::string::StringExecFns;

use fax::encoder::Encoder;
use fax::{Color, VecWriter};

use crate::bytes;
use crate::images::decode::Skip;
use crate::images::encode;
use crate::images::encode::Encoded;
use crate::images::raster;
use crate::images::raster::{Format, Raster};
use crate::object;
use crate::object::{Dict, Value, ValueView};
use crate::text;

verus! {

// ------------------------------------------------------------- collecting

/// Collects decoder callbacks into packed 1-bit rows.
pub struct BitCollector {
    width: u32,
    height: u32,
    data: Vec<u8>,
    x: u64,
    y: u64,
}

/// What has been collected: the rows, and where the next pixel goes.
pub struct CollectorView {
    pub width: int,
    pub height: int,
    pub data: Seq<u8>,
    pub x: int,
    pub y: int,
}

/// A byte with one of its bits set.
pub open spec fn with_bit(b: u8, k: int) -> u8 {
    if raster::bit(b, k) {
        b
    } else {
        (b + raster::weight(k)) as u8
    }
}

/// The rows with one pixel made white.
pub open spec fn with_white(width: int, data: Seq<u8>, x: int, y: int) -> Seq<u8> {
    let at = y * ((width + 7) / 8) + x / 8;
    data.update(at, with_bit(data[at], x % 8))
}

/// What a pixel changes: nothing outside the image.
pub open spec fn after_pixel(c: CollectorView, white: bool) -> CollectorView {
    if c.y < c.height && c.x < c.width {
        CollectorView {
            data: if white {
                with_white(c.width, c.data, c.x, c.y)
            } else {
                c.data
            },
            x: c.x + 1,
            ..c
        }
    } else {
        c
    }
}

/// What a run of pixels changes.
pub open spec fn after_run(c: CollectorView, white: bool, n: nat) -> CollectorView
    decreases n,
{
    if n == 0 {
        c
    } else {
        after_pixel(after_run(c, white, (n - 1) as nat), white)
    }
}

/// What the end of a line changes. Lines beyond what can be counted are not.
pub open spec fn after_line(c: CollectorView) -> CollectorView {
    CollectorView {
        x: 0,
        y: if c.y < u64::MAX {
            c.y + 1
        } else {
            c.y
        },
        ..c
    }
}

/// Why a collected image is not whole.
pub open spec fn rows_missing(y: nat, height: nat) -> Seq<char> {
    "decoded "@ + text::number(y) + " of "@ + text::number(height) + " rows"@
}

impl View for BitCollector {
    type V = CollectorView;

    closed spec fn view(&self) -> CollectorView {
        CollectorView {
            width: self.width as int,
            height: self.height as int,
            data: self.data@,
            x: self.x as int,
            y: self.y as int,
        }
    }
}

impl BitCollector {
    /// There is a row of bytes for every row of the image.
    pub open spec fn wf(self) -> bool {
        &&& self@.width > 0
        &&& self@.height >= 0
        &&& self@.data.len() == (self@.width + 7) / 8 * self@.height
        &&& 0 <= self@.x <= self@.width
        &&& 0 <= self@.y <= u64::MAX
    }

    /// A black image to fill.
    pub fn new(width: u32, height: u32) -> (r: BitCollector)
        requires
            width > 0,
            (width + 7) / 8 * height <= usize::MAX,
        ensures
            r.wf(),
            r@ == (CollectorView {
                width: width as int,
                height: height as int,
                data: Seq::new(((width + 7) / 8 * height) as nat, |i: int| 0u8),
                x: 0,
                y: 0,
            }),
    {
        let stride: usize = Format::Gray1.row_bytes(width);
        assert(stride * height >= 0) by (nonlinear_arith)
            requires
                stride >= 0,
                height >= 0,
        ;
        let len: usize = stride * height as usize;
        let mut data: Vec<u8> = Vec::new();
        let mut i: usize = 0;
        while i < len
            invariant
                i <= len,
                data@ == Seq::new(i as nat, |i: int| 0u8),
            decreases len - i,
        {
            data.push(0);
            i += 1;
            assert(data@ =~= Seq::new(i as nat, |i: int| 0u8));
        }
        BitCollector { width, height, data, x: 0, y: 0 }
    }

    /// Adds a pixel to the row.
    pub fn push(&mut self, white: bool)
        requires
            old(self).wf(),
        ensures
            final(self).wf(),
            final(self)@ == after_pixel(old(self)@, white),
    {
        if self.y < self.height as u64 && self.x < self.width as u64 {
            let stride: usize = Format::Gray1.row_bytes(self.width);
            if white {
                let len: usize = self.data.len();
                proof {
                    raster::lemma_within(
                        self.y as int,
                        self.x as int / 8,
                        stride as int,
                        self.height as int,
                    );
                }
                let at: usize = self.y as usize * stride + (self.x / 8) as usize;
                let b = self.data[at];
                let k: usize = (self.x % 8) as usize;
                if !raster::get_bit(b, k) {
                    self.data[at] = set_bit(b, k);
                }
                assert(self.data@ =~= with_white(
                    self.width as int,
                    old(self).data@,
                    self.x as int,
                    self.y as int,
                ));
            }
            self.x = self.x + 1;
        }
    }

    /// Adds a run of pixels to the row.
    pub fn push_run(&mut self, white: bool, pixels: usize)
        requires
            old(self).wf(),
        ensures
            final(self).wf(),
            final(self)@ == after_run(old(self)@, white, pixels as nat),
    {
        let ghost before = self@;
        let mut i: usize = 0;
        while i < pixels
            invariant
                i <= pixels,
                self.wf(),
                self@ == after_run(before, white, i as nat),
            decreases pixels - i,
        {
            self.push(white);
            i += 1;
        }
    }

    /// Ends the row.
    pub fn end_line(&mut self)
        requires
            old(self).wf(),
        ensures
            final(self).wf(),
            final(self)@ == after_line(old(self)@),
    {
        self.x = 0;
        if self.y < u64::MAX {
            self.y = self.y + 1;
        }
    }

    /// The image; refused where rows are missing.
    pub fn finish(self) -> (r: Result<Raster, Skip>)
        requires
            self.wf(),
        ensures
            match r {
                Ok(image) => {
                    &&& self@.y >= self@.height
                    &&& self@.height > 0
                    &&& image.wf()
                    &&& image@ == (raster::RasterView {
                        width: self@.width,
                        height: self@.height,
                        format: Format::Gray1,
                        data: self@.data,
                    })
                },
                Err(why) => if self@.y < self@.height {
                    why.0@ == rows_missing(self@.y as nat, self@.height as nat)
                } else {
                    self@.height == 0 && why.0@ == "bitonal size mismatch"@
                },
            },
    {
        if self.y < self.height as u64 {
            let mut why = "decoded ".to_owned();
            text::push_number(&mut why, self.y as u128);
            why.append(" of ");
            text::push_number(&mut why, self.height as u128);
            why.append(" rows");
            return Err(Skip(why));
        }
        match Raster::new(self.width, self.height, Format::Gray1, self.data) {
            Some(image) => Ok(image),
            None => Err(Skip("bitonal size mismatch".to_owned())),
        }
    }
}

fn set_bit(b: u8, k: usize) -> (r: u8)
    requires
        k < 8,
        !raster::bit(b, k as int),
    ensures
        r == with_bit(b, k as int),
{
    if k == 0 {
        assert(raster::weight(0) == 128 && b as int / 128 % 2 != 1);
        b + 128
    } else if k == 1 {
        assert(raster::weight(1) == 64 && b as int / 64 % 2 != 1);
        b + 64
    } else if k == 2 {
        assert(raster::weight(2) == 32 && b as int / 32 % 2 != 1);
        b + 32
    } else if k == 3 {
        assert(raster::weight(3) == 16 && b as int / 16 % 2 != 1);
        b + 16
    } else if k == 4 {
        assert(raster::weight(4) == 8 && b as int / 8 % 2 != 1);
        b + 8
    } else if k == 5 {
        assert(raster::weight(5) == 4 && b as int / 4 % 2 != 1);
        b + 4
    } else if k == 6 {
        assert(raster::weight(6) == 2 && b as int / 2 % 2 != 1);
        b + 2
    } else {
        assert(raster::weight(7) == 1 && b as int / 1 % 2 != 1);
        b + 1
    }
}

// ------------------------------------------------------------- decoding

/// How CCITT data are coded.
#[derive(Debug, Clone, Copy, PartialEq, Eq, Structural)]
pub enum CcittMode {
    Group4,
    Group3OneD,
    Group3TwoD(u32),
}

/// What a CCITT decoder is told.
#[derive(Debug, Clone, Copy, PartialEq, Eq, Structural)]
pub struct CcittSettings {
    pub columns: u32,
    pub rows: u32,
    pub end_of_block: bool,
    pub end_of_line: bool,
    pub rows_are_byte_aligned: bool,
    pub mode: CcittMode,
    pub black_is_1: bool,
}

/// An integer of the parameters, or its default.
pub open spec fn parm_int(parms: Option<object::DictView>, key: Seq<char>, default: i64) -> i64 {
    match parms {
        Some(p) => match object::lookup(p, bytes::text(key)) {
            Some(ValueView::Integer(i)) => i,
            _ => default,
        },
        None => default,
    }
}

/// A flag of the parameters, or its default.
pub open spec fn parm_flag(parms: Option<object::DictView>, key: Seq<char>, default: bool) -> bool {
    match parms {
        Some(p) => match object::lookup(p, bytes::text(key)) {
            Some(ValueView::Boolean(b)) => b,
            _ => default,
        },
        None => default,
    }
}

/// The mode that a `K` stands for: two-dimensional below zero, mixed above
/// it.
pub open spec fn ccitt_mode(k: i64) -> CcittMode {
    if k < 0 {
        CcittMode::Group4
    } else if k == 0 {
        CcittMode::Group3OneD
    } else {
        CcittMode::Group3TwoD((k as int % 0x1_0000_0000) as u32)
    }
}

/// The width that the parameters speak of.
pub open spec fn ccitt_columns(parms: Option<object::DictView>) -> u32 {
    let c = parm_int(parms, "Columns"@, 1728);
    if c < 1 {
        1
    } else {
        (c as int % 0x1_0000_0000) as u32
    }
}

/// What the filter's parameters tell a decoder.
pub open spec fn ccitt_settings_of(parms: Option<object::DictView>, height: u32) -> CcittSettings {
    CcittSettings {
        columns: ccitt_columns(parms),
        rows: height,
        end_of_block: parm_flag(parms, "EndOfBlock"@, true),
        end_of_line: parm_flag(parms, "EndOfLine"@, false),
        rows_are_byte_aligned: parm_flag(parms, "EncodedByteAlign"@, false),
        mode: ccitt_mode(parm_int(parms, "K"@, 0)),
        black_is_1: parm_flag(parms, "BlackIs1"@, false),
    }
}

/// What a dictionary holds, if there is one.
pub open spec fn parms_view(parms: Option<&Dict>) -> Option<object::DictView> {
    match parms {
        Some(p) => Some(p@),
        None => None,
    }
}

fn int_parm(parms: Option<&Dict>, key: &str, default: i64) -> (r: i64)
    ensures
        r == parm_int(parms_view(parms), key@, default),
{
    match parms {
        Some(p) => match p.get(key.as_bytes()) {
            Some(v) => match v.as_i64() {
                Some(i) => i,
                None => default,
            },
            None => default,
        },
        None => default,
    }
}

fn flag_parm(parms: Option<&Dict>, key: &str, default: bool) -> (r: bool)
    ensures
        r == parm_flag(parms_view(parms), key@, default),
{
    match parms {
        Some(p) => match p.get(key.as_bytes()) {
            Some(v) => match v.as_bool() {
                Some(b) => b,
                None => default,
            },
            None => default,
        },
        None => default,
    }
}

/// What the filter's `DecodeParms` tell a decoder; refused where they speak
/// of another width. The output follows the filter's `BlackIs1` convention,
/// exactly as a reader would see it, so any `Decode` array applies on top as
/// usual.
pub fn ccitt_settings(parms: Option<&Dict>, width: u32, height: u32) -> (r: Result<
    CcittSettings,
    Skip,
>)
    ensures
        match r {
            Ok(s) => s.columns == width && s == ccitt_settings_of(parms_view(parms), height),
            Err(why) => ccitt_columns(parms_view(parms)) != width && why.0@
                == "CCITT Columns differs from Width"@,
        },
{
    let k = int_parm(parms, "K", 0);
    let c = int_parm(parms, "Columns", 1728);
    let columns: u32 = if c < 1 {
        1
    } else {
        (c % 0x1_0000_0000) as u32
    };
    if columns != width {
        return Err(Skip("CCITT Columns differs from Width".to_owned()));
    }
    Ok(
        CcittSettings {
            columns,
            rows: height,
            end_of_block: flag_parm(parms, "EndOfBlock", true),
            end_of_line: flag_parm(parms, "EndOfLine", false),
            rows_are_byte_aligned: flag_parm(parms, "EncodedByteAlign", false),
            mode: if k < 0 {
                CcittMode::Group4
            } else if k == 0 {
                CcittMode::Group3OneD
            } else {
                CcittMode::Group3TwoD((k % 0x1_0000_0000) as u32)
            },
            black_is_1: flag_parm(parms, "BlackIs1", false),
        },
    )
}

/// Whether a pixel that a CCITT decoder calls white is a set bit.
pub fn ccitt_bit(settings: &CcittSettings, white: bool) -> (r: bool)
    ensures
        r == (white != settings.black_is_1),
{
    white != settings.black_is_1
}

/// Where the `n`th run of a row ends: at the change of color there, or at the
/// end of the row.
pub open spec fn run_end(changes: Seq<u32>, columns: u32, n: int) -> int {
    if n < 0 {
        0
    } else if n < changes.len() {
        changes[n] as int
    } else {
        columns as int
    }
}

/// How long the `n`th run of a row is.
pub open spec fn run_len(changes: Seq<u32>, columns: u32, n: int) -> nat {
    let len = run_end(changes, columns, n) - run_end(changes, columns, n - 1);
    if len < 0 {
        0
    } else {
        len as nat
    }
}

/// What the first `n` runs of a row change. The first run is white, and the
/// colors alternate.
pub open spec fn after_runs(
    c: CollectorView,
    settings: CcittSettings,
    changes: Seq<u32>,
    n: int,
) -> CollectorView
    decreases n,
{
    if n <= 0 {
        c
    } else {
        after_run(
            after_runs(c, settings, changes, n - 1),
            ((n - 1) % 2 == 0) != settings.black_is_1,
            run_len(changes, settings.columns, n - 1),
        )
    }
}

/// Adds a row that a CCITT decoder gives by the places where its color
/// changes, and ends it.
pub fn push_row(collector: &mut BitCollector, settings: &CcittSettings, changes: &[u32])
    requires
        old(collector).wf(),
        changes.len() < usize::MAX,
    ensures
        final(collector).wf(),
        final(collector)@ == after_line(
            after_runs(old(collector)@, *settings, changes@, changes@.len() as int + 1),
        ),
{
    let ghost before = collector@;
    let mut white = true;
    let mut at: u32 = 0;
    let mut i: usize = 0;
    while i <= changes.len()
        invariant
            i <= changes@.len() + 1,
            changes.len() < usize::MAX,
            collector.wf(),
            white == (i % 2 == 0),
            at == run_end(changes@, settings.columns, i - 1),
            collector@ == after_runs(before, *settings, changes@, i as int),
        decreases changes@.len() + 1 - i,
    {
        let end: u32 = if i < changes.len() {
            changes[i]
        } else {
            settings.columns
        };
        let len: u32 = if end > at {
            end - at
        } else {
            0
        };
        collector.push_run(ccitt_bit(settings, white), len as usize);
        at = end;
        white = !white;
        i += 1;
    }
    collector.end_line();
}

/// Why a JBIG2 image is refused.
pub open spec fn jbig2_too_small(
    have_width: nat,
    have_height: nat,
    width: nat,
    height: nat,
) -> Seq<char> {
    "JBIG2 codestream is "@ + text::number(have_width) + "x"@ + text::number(have_height)
        + " but the dictionary says "@ + text::number(width) + "x"@ + text::number(height)
}

/// Codestreams are sometimes padded a little wider than the dictionary
/// says (encoders round up to bytes); the collector drops the excess.
/// Smaller than declared would leave rows undefined, so that is refused.
pub fn check_jbig2_size(have_width: u32, have_height: u32, width: u32, height: u32) -> (r: Result<
    (),
    Skip,
>)
    ensures
        match r {
            Ok(_) => have_width >= width && have_height >= height,
            Err(why) => (have_width < width || have_height < height) && why.0@ == jbig2_too_small(
                have_width as nat,
                have_height as nat,
                width as nat,
                height as nat,
            ),
        },
{
    if have_width < width || have_height < height {
        let mut why = "JBIG2 codestream is ".to_owned();
        text::push_number(&mut why, have_width as u128);
        why.append("x");
        text::push_number(&mut why, have_height as u128);
        why.append(" but the dictionary says ");
        text::push_number(&mut why, width as u128);
        why.append("x");
        text::push_number(&mut why, height as u128);
        return Err(Skip(why));
    }
    Ok(())
}

// ------------------------------------------------------------- encoding

/// The pixels of a row: whether each is white.
pub open spec fn row_pixels(r: raster::RasterView, y: int) -> Seq<bool> {
    Seq::new(r.width as nat, |x: int| raster::pixel_bit(r.width, r.data, y, x))
}

/// The pixels of the rows of a bitonal image.
pub open spec fn pixels_of(r: raster::RasterView) -> Seq<Seq<bool>> {
    Seq::new(r.height as nat, |y: int| row_pixels(r, y))
}

/// Rows of pixels, each by its flags.
pub open spec fn rows_view(rows: Seq<Vec<bool>>) -> Seq<Seq<bool>> {
    rows.map_values(|r: Vec<bool>| r@)
}

/// Rows of pixels in CCITT Group 4 coding.
pub uninterp spec fn group4(rows: Seq<Seq<bool>>, width: u32) -> Option<Seq<u8>>;

/// Where a color change or the end of a row of pixels stands: the pixel in front
/// of the row is white.
pub open spec fn is_edge(row: Seq<bool>, width: int, p: int) -> bool {
    p == width || (0 <= p < row.len() && row[p] != (p == 0 || row[p - 1]))
}

/// Whether two close places stand on two sides of an odd multiple of 32768, so
/// that their difference does not fit in 16 bits once each is cut to 16.
pub open spec fn far_apart(p: int, q: int) -> bool {
    -3 <= p - q <= 3 && p / 32768 != q / 32768 && (p / 32768 + q / 32768) % 4 == 1
}

/// The row in front of a row: empty in front of the first.
pub open spec fn row_before(rows: Seq<Seq<bool>>, y: int) -> Seq<bool> {
    if y > 0 {
        rows[y - 1]
    } else {
        Seq::empty()
    }
}

/// Whether the places of changes in every row and the one in front of it can be
/// subtracted as 16-bit numbers, and the sum of two places fits in 32 bits.
pub open spec fn steps_fit(rows: Seq<Seq<bool>>, width: int) -> bool {
    width <= 0x7FFF_FFFF && forall|y: int, p: int, q: int|
        0 <= y < rows.len() && #[trigger] is_edge(rows[y], width, p) && #[trigger] is_edge(
            row_before(rows, y),
            width,
            q,
        ) ==> !far_apart(p, q)
}

/// The places in an image of at most 32767 pixels across can be subtracted.
pub proof fn narrow_images_fit(r: raster::RasterView)
    requires
        0 <= r.width <= 32767,
    ensures
        steps_fit(pixels_of(r), r.width),
{
}

/// `fax::encoder::Encoder`: every row of pixels by `encode_line`, then
/// `finish`. The encoder subtracts places of changes that are close to each
/// other as 16-bit numbers.
#[verifier::external_body]
fn g4(rows: &Vec<Vec<bool>>, width: u32) -> (r: Option<Vec<u8>>)
    requires
        forall|i: int| 0 <= i < rows@.len() ==> (#[trigger] rows@[i])@.len() == width,
        steps_fit(rows_view(rows@), width as int),
    ensures
        encode::data_view(r) == group4(rows_view(rows@), width),
{
    let mut encoder = Encoder::new(VecWriter::new());
    for row in rows {
        let pels = row.iter().map(|w| if *w { Color::White } else { Color::Black });
        encoder.encode_line(pels, width).ok()?;
    }
    Some(encoder.finish().ok()?.finish())
}

/// What describes Group 4 data to a reader: `BlackIs1 false`, so the stream
/// decodes straight into DeviceGray convention.
pub open spec fn g4_parms(r: raster::RasterView) -> object::DictView {
    let d = object::with_entry(Seq::empty(), bytes::text("K"@), ValueView::Integer((-1) as i64));
    let d = object::with_entry(
        d,
        bytes::text("Columns"@),
        ValueView::Integer(r.width as i64),
    );
    let d = object::with_entry(d, bytes::text("Rows"@), ValueView::Integer(r.height as i64));
    object::with_entry(d, bytes::text("BlackIs1"@), ValueView::Boolean(false))
}

/// The encoding of an image from its Group 4 data.
pub open spec fn g4_of(r: raster::RasterView, data: Option<Seq<u8>>) -> Option<
    encode::EncodedView,
> {
    if r.format != Format::Gray1 {
        None
    } else {
        match data {
            Some(b) => Some(
                encode::EncodedView {
                    codec: "CCITTFaxDecode"@,
                    bytes: b,
                    filter: Some(encode::name_value("CCITTFaxDecode"@)),
                    decode_parms: Some(g4_parms(r)),
                },
            ),
            None => None,
        }
    }
}

fn pixels(r: &Raster) -> (rows: Vec<Vec<bool>>)
    requires
        r.wf(),
        r.format == Format::Gray1,
    ensures
        rows_view(rows@) == pixels_of(r@),
{
    let len: usize = r.data.len();
    let stride: usize = Format::Gray1.row_bytes(r.width);
    let ghost goal = pixels_of(r@);
    let mut rows: Vec<Vec<bool>> = Vec::new();
    let mut y: u32 = 0;
    assert(rows_view(rows@) =~= goal.take(0));
    while y < r.height
        invariant
            y <= r.height,
            r.width > 0,
            stride == (r.width + 7) / 8,
            len == r.data@.len() == stride * r.height,
            goal == pixels_of(r@),
            rows_view(rows@) == goal.take(y as int),
        decreases r.height - y,
    {
        let mut row: Vec<bool> = Vec::new();
        let mut x: u32 = 0;
        while x < r.width
            invariant
                x <= r.width,
                y < r.height,
                stride == (r.width + 7) / 8,
                len == r.data@.len() == stride * r.height,
                row@ == row_pixels(r@, y as int).take(x as int),
            decreases r.width - x,
        {
            proof {
                raster::lemma_within(y as int, x as int / 8, stride as int, r.height as int);
            }
            let b = r.data[y as usize * stride + (x / 8) as usize];
            row.push(raster::get_bit(b, (x % 8) as usize));
            x += 1;
            assert(row@ =~= row_pixels(r@, y as int).take(x as int));
        }
        assert(row@ =~= row_pixels(r@, y as int));
        let ghost before = rows_view(rows@);
        rows.push(row);
        y += 1;
        assert(rows_view(rows@) =~= before.push(goal[y - 1]));
        assert(rows_view(rows@) =~= goal.take(y as int));
    }
    assert(goal.take(y as int) =~= goal);
    rows
}

/// An image from its Group 4 data.
pub fn g4_from(r: &Raster, data: Option<Vec<u8>>) -> (e: Option<Encoded>)
    ensures
        encode::encoded_view(e) == g4_of(r@, encode::data_view(data)),
{
    if r.format != Format::Gray1 {
        return None;
    }
    let data = data?;
    let mut d = Dict::new();
    d.put("K", Value::Integer(-1));
    d.put("Columns", Value::Integer(r.width as i64));
    d.put("Rows", Value::Integer(r.height as i64));
    d.put("BlackIs1", Value::Boolean(false));
    Some(
        Encoded {
            codec: "CCITTFaxDecode",
            bytes: data,
            filter: Some(Value::Name(bytes::of("CCITTFaxDecode"))),
            decode_parms: Some(d),
        },
    )
}

/// CCITT Group 4 with `BlackIs1 false`, so the stream decodes straight
/// into DeviceGray convention. Bitonal images only.
pub fn encode_g4(r: &Raster) -> (e: Option<Encoded>)
    requires
        r.wf(),
        r.format == Format::Gray1 ==> steps_fit(pixels_of(r@), r@.width),
    ensures
        encode::encoded_view(e) == g4_of(r@, group4(pixels_of(r@), r.width)),
{
    if r.format != Format::Gray1 {
        return None;
    }
    let rows = pixels(r);
    assert forall|i: int| 0 <= i < rows@.len() implies (#[trigger] rows@[i])@.len() == r.width by {
        assert(rows_view(rows@)[i] == rows@[i]@);
        assert(rows_view(rows@).len() == r@.height);
        assert(pixels_of(r@)[i] == row_pixels(r@, i));
    }
    let data = g4(&rows, r.width);
    g4_from(r, data)
}

/// The pixels of a bitonal image, one byte each: 1 for black.
pub open spec fn black_bytes(r: raster::RasterView) -> Seq<u8> {
    raster::as_gray8(r).data.map_values(
        |v: u8|
            if v == 0 {
                1u8
            } else {
                0u8
            },
    )
}

/// A page of JBIG2 data, and whether it needs globals.
pub uninterp spec fn jbig2_page(pixels: Seq<u8>, width: u32, height: u32) -> Option<(Seq<u8>, bool)>;

/// A page and its flag, if there is one.
pub open spec fn page_view(page: Option<(Vec<u8>, bool)>) -> Option<(Seq<u8>, bool)> {
    match page {
        Some(p) => Some((p.0@, p.1)),
        None => None,
    }
}

/// `jbig2enc_rust::encode_single_image_lossless` in PDF mode: the page data,
/// and whether there are global data.
#[verifier::external_body]
fn jbig2(pixels: &Vec<u8>, width: u32, height: u32) -> (r: Option<(Vec<u8>, bool)>)
    ensures
        page_view(r) == jbig2_page(pixels@, width, height),
{
    let page = jbig2enc_rust::encode_single_image_lossless(pixels, width, height, true).ok()?;
    let globals = page.global_data.as_ref().is_some_and(|g| !g.is_empty());
    Some((page.page_data, globals))
}

/// The encoding of an image from its JBIG2 page: none with globals.
pub open spec fn jbig2_of(r: raster::RasterView, page: Option<(Seq<u8>, bool)>) -> Option<
    encode::EncodedView,
> {
    if r.format != Format::Gray1 {
        None
    } else {
        match page {
            Some((data, false)) => Some(
                encode::EncodedView {
                    codec: "JBIG2Decode"@,
                    bytes: data,
                    filter: Some(encode::name_value("JBIG2Decode"@)),
                    decode_parms: None,
                },
            ),
            _ => None,
        }
    }
}

/// An image from its JBIG2 page.
pub fn jbig2_from(r: &Raster, page: Option<(Vec<u8>, bool)>) -> (e: Option<Encoded>)
    ensures
        encode::encoded_view(e) == jbig2_of(r@, page_view(page)),
{
    if r.format != Format::Gray1 {
        return None;
    }
    let (data, globals) = page?;
    if globals {
        return None;
    }
    Some(
        Encoded {
            codec: "JBIG2Decode",
            bytes: data,
            filter: Some(Value::Name(bytes::of("JBIG2Decode"))),
            decode_parms: None,
        },
    )
}

/// JBIG2 generic region (lossless), embedded organisation, no globals.
/// Bitonal images only.
pub fn encode_jbig2(r: &Raster) -> (e: Option<Encoded>)
    requires
        r.wf(),
    ensures
        encode::encoded_view(e) == jbig2_of(r@, jbig2_page(black_bytes(r@), r.width, r.height)),
{
    if r.format != Format::Gray1 {
        return None;
    }
    let gray = r.gray1_to_gray8();
    let mut black: Vec<u8> = Vec::new();
    let ghost goal = black_bytes(r@);
    let mut i: usize = 0;
    while i < gray.data.len()
        invariant
            i <= gray.data@.len(),
            gray@ == raster::as_gray8(r@),
            goal == black_bytes(r@),
            black@ == goal.take(i as int),
        decreases gray.data@.len() - i,
    {
        black.push(
            if gray.data[i] == 0 {
                1
            } else {
                0
            },
        );
        i += 1;
        assert(black@ =~= goal.take(i as int));
    }
    assert(black@ =~= goal);
    let page = jbig2(&black, r.width, r.height);
    jbig2_from(r, page)
}

/// Fax data are read as their parameters say: `K` below zero is the
/// two-dimensional scheme, zero the one-dimensional one and above zero the
/// mixed one; the width is `Columns`, or 1728; ones are black only where
/// `BlackIs1` says so, and data end with a block unless `EndOfBlock` denies it.
pub proof fn fax_parameters_are_followed(p: object::DictView, height: u32)
    ensures
        ({
            let s = ccitt_settings_of(Some(p), height);
            &&& s.rows == height
            &&& object::lookup(p, bytes::text("K"@)) matches Some(ValueView::Integer(k)) ==> {
                &&& k < 0 <==> s.mode == CcittMode::Group4
                &&& k == 0 <==> s.mode == CcittMode::Group3OneD
                &&& 0 < k <= u32::MAX ==> s.mode == CcittMode::Group3TwoD(k as u32)
            }
            &&& object::lookup(p, bytes::text("K"@)) is None ==> s.mode == CcittMode::Group3OneD
            &&& object::lookup(p, bytes::text("Columns"@)) matches Some(ValueView::Integer(c))
                ==> (0 < c <= u32::MAX ==> s.columns == c)
            &&& object::lookup(p, bytes::text("Columns"@)) is None ==> s.columns == 1728
            &&& s.black_is_1 <==> object::lookup(p, bytes::text("BlackIs1"@)) == Some(
                ValueView::Boolean(true),
            )
            &&& s.end_of_line <==> object::lookup(p, bytes::text("EndOfLine"@)) == Some(
                ValueView::Boolean(true),
            )
            &&& s.rows_are_byte_aligned <==> object::lookup(p, bytes::text("EncodedByteAlign"@))
                == Some(ValueView::Boolean(true))
            &&& s.end_of_block <==> object::lookup(p, bytes::text("EndOfBlock"@)) != Some(
                ValueView::Boolean(false),
            )
        }),
        ({
            let s = ccitt_settings_of(None, height);
            &&& s.rows == height && s.columns == 1728 && s.mode == CcittMode::Group3OneD
            &&& !s.black_is_1 && !s.end_of_line && !s.rows_are_byte_aligned && s.end_of_block
        }),
{
}

} // verus!
