//! What the pipeline did, in a form a human can check against the reference
//! tool. Every stage appends to this; nothing else prints.
use vstd::prelude::*;
use vstd::string::StringExecFns;

use crate::object::ObjectId;
use crate::text;

verus! {

/// One row per image XObject the image stage looked at.
#[derive(Debug)]
pub struct ImageRow {
    pub object: ObjectId,
    pub width: u32,
    pub height: u32,
    pub bits_per_component: u8,
    pub color_space: String,
    pub filter_in: String,
    /// Minimum effective resolution across all placements, if known, to the
    /// nearest whole number.
    pub effective_dpi: Option<u64>,
    pub bytes_in: usize,
    /// Short verb: "kept", "downsampled", "recoded", "gray", "skipped: `<why>`".
    pub action: String,
    pub filter_out: String,
    pub bytes_out: usize,
}

/// One row per embedded font program the font stage looked at.
#[derive(Debug)]
pub struct FontRow {
    pub object: ObjectId,
    pub name: String,
    /// Program kind: Type1, TrueType, CFF, CIDFontType0C, OpenType.
    pub program: String,
    pub bytes_in: usize,
    /// Short verb: "kept", "unembedded", "subset", "merged", "cff", "kept: `<why>`".
    pub action: String,
    pub bytes_out: usize,
}

/// What one stage did to the size, and how long it took.
#[derive(Debug)]
pub struct StageSummary {
    pub name: &'static str,
    pub bytes_before: usize,
    pub bytes_after: usize,
    /// In nanoseconds.
    pub elapsed: u64,
}

/// What the pipeline did.
#[derive(Debug)]
pub struct Report {
    pub input_bytes: usize,
    pub output_bytes: usize,
    pub images: Vec<ImageRow>,
    pub fonts: Vec<FontRow>,
    pub stages: Vec<StageSummary>,
    /// Free-form observations (unsupported features hit, fallbacks taken).
    pub notes: Vec<String>,
}

// ------------------------------------------------------------- quantities

/// A quotient to the nearest whole number; halfway, to the even one.
pub open spec fn rounded(n: nat, d: nat) -> nat {
    let q = n / d;
    let r = n % d;
    if 2 * r > d || (2 * r == d && q % 2 == 1) {
        q + 1
    } else {
        q
    }
}

fn round(n: u128, d: u128) -> (r: u128)
    requires
        0 < d,
        n < u128::MAX / 4,
        d < u128::MAX / 4,
    ensures
        r == rounded(n as nat, d as nat),
{
    let q = n / d;
    let r = n % d;
    assert(q <= n) by (nonlinear_arith)
        requires
            q == n / d,
            d > 0,
    ;
    if 2 * r > d || (2 * r == d && q % 2 == 1) {
        q + 1
    } else {
        q
    }
}

/// A number of bytes: exactly below a kibibyte, to a tenth of the largest
/// unit it reaches above it.
pub open spec fn human_text(bytes: nat) -> Seq<char> {
    if bytes < 1024 {
        text::number(bytes) + " B"@
    } else if bytes < 1024 * 1024 {
        text::tenths(rounded(bytes * 10, 1024)) + " KiB"@
    } else if bytes < 1024 * 1024 * 1024 {
        text::tenths(rounded(bytes * 10, 1024 * 1024)) + " MiB"@
    } else {
        text::tenths(rounded(bytes * 10, 1024 * 1024 * 1024)) + " GiB"@
    }
}

/// A number of bytes in the largest unit it reaches.
pub fn human(bytes: usize) -> (r: String)
    ensures
        r@ == human_text(bytes as nat),
{
    let mut out = String::new();
    let n: u128 = bytes as u128;
    if n < 1024 {
        text::push_number(&mut out, n);
        out.append(" B");
    } else if n < 1024 * 1024 {
        text::push_tenths(&mut out, round(n * 10, 1024));
        out.append(" KiB");
    } else if n < 1024 * 1024 * 1024 {
        text::push_tenths(&mut out, round(n * 10, 1024 * 1024));
        out.append(" MiB");
    } else {
        text::push_tenths(&mut out, round(n * 10, 1024 * 1024 * 1024));
        out.append(" GiB");
    }
    assert(out@ =~= human_text(bytes as nat));
    out
}

/// A change as a percentage of what was there, to a tenth and with its sign.
pub open spec fn pct_text(before: nat, after: nat) -> Seq<char> {
    if before == 0 {
        "-"@
    } else if after < before {
        "-"@ + text::tenths(rounded(((before - after) * 1000) as nat, before)) + "%"@
    } else {
        "+"@ + text::tenths(rounded(((after - before) * 1000) as nat, before)) + "%"@
    }
}

/// A change as a percentage.
pub fn pct(before: usize, after: usize) -> (r: String)
    ensures
        r@ == pct_text(before as nat, after as nat),
{
    let mut out = String::new();
    if before == 0 {
        out.append("-");
    } else if after < before {
        out.append("-");
        text::push_tenths(&mut out, round((before - after) as u128 * 1000, before as u128));
        out.append("%");
    } else {
        out.append("+");
        text::push_tenths(&mut out, round((after - before) as u128 * 1000, before as u128));
        out.append("%");
    }
    assert(out@ =~= pct_text(before as nat, after as nat));
    out
}

// ------------------------------------------------------------- rows

/// An object's number and generation.
pub open spec fn id_text(id: ObjectId) -> Seq<char> {
    text::number(id.0 as nat) + " "@ + text::number(id.1 as nat)
}

fn id_string(id: ObjectId) -> (r: String)
    ensures
        r@ == id_text(id),
{
    let mut out = text::of_number(id.0 as u128);
    out.append(" ");
    text::push_number(&mut out, id.1 as u128);
    out
}

/// The heading of the image rows.
pub open spec fn image_heading() -> Seq<char> {
    text::left("object"@, 9) + " "@ + text::right("size"@, 11) + " "@ + text::right("bpc"@, 4)
        + " "@ + text::left("colorspace"@, 12) + " "@ + text::left("filter"@, 10) + " "@
        + text::right("dpi"@, 7) + " "@ + text::right("bytes in"@, 10) + " "@ + text::left(
        "action"@,
        14,
    ) + " "@ + text::left("filter out"@, 10) + " "@ + text::right("bytes out"@, 10) + "\n"@
}

/// An image's resolution; a question mark where it is not known.
pub open spec fn dpi_text(dpi: Option<u64>) -> Seq<char> {
    match dpi {
        Some(d) => text::number(d as nat),
        None => "?"@,
    }
}

/// The line of an image.
pub open spec fn image_line(r: ImageRow) -> Seq<char> {
    text::left(id_text(r.object), 9) + " "@ + text::right(
        text::number(r.width as nat) + "x"@ + text::number(r.height as nat),
        11,
    ) + " "@ + text::right(text::number(r.bits_per_component as nat), 4) + " "@ + text::left(
        r.color_space@,
        12,
    ) + " "@ + text::left(r.filter_in@, 10) + " "@ + text::right(dpi_text(r.effective_dpi), 7)
        + " "@ + text::right(text::number(r.bytes_in as nat), 10) + " "@ + text::left(
        r.action@,
        14,
    ) + " "@ + text::left(r.filter_out@, 10) + " "@ + text::right(
        text::number(r.bytes_out as nat),
        10,
    ) + "\n"@
}

fn image_row(r: &ImageRow) -> (line: String)
    ensures
        line@ == image_line(*r),
{
    let mut out = String::new();
    text::push_left(&mut out, id_string(r.object).as_str(), 9);
    assert(out@ =~= text::left(id_text(r.object), 9));
    out.append(" ");
    let mut size = text::of_number(r.width as u128);
    size.append("x");
    text::push_number(&mut size, r.height as u128);
    text::push_right(&mut out, size.as_str(), 11);
    out.append(" ");
    text::push_right(&mut out, text::of_number(r.bits_per_component as u128).as_str(), 4);
    out.append(" ");
    text::push_left(&mut out, r.color_space.as_str(), 12);
    out.append(" ");
    text::push_left(&mut out, r.filter_in.as_str(), 10);
    out.append(" ");
    match r.effective_dpi {
        Some(d) => {
            text::push_right(&mut out, text::of_number(d as u128).as_str(), 7);
        },
        None => {
            text::push_right(&mut out, "?", 7);
        },
    }
    out.append(" ");
    text::push_right(&mut out, text::of_number(r.bytes_in as u128).as_str(), 10);
    out.append(" ");
    text::push_left(&mut out, r.action.as_str(), 14);
    out.append(" ");
    text::push_left(&mut out, r.filter_out.as_str(), 10);
    out.append(" ");
    text::push_right(&mut out, text::of_number(r.bytes_out as u128).as_str(), 10);
    out.append("\n");
    out
}

fn image_title() -> (r: String)
    ensures
        r@ == image_heading(),
{
    let mut out = String::new();
    text::push_left(&mut out, "object", 9);
    assert(out@ =~= text::left("object"@, 9));
    out.append(" ");
    text::push_right(&mut out, "size", 11);
    out.append(" ");
    text::push_right(&mut out, "bpc", 4);
    out.append(" ");
    text::push_left(&mut out, "colorspace", 12);
    out.append(" ");
    text::push_left(&mut out, "filter", 10);
    out.append(" ");
    text::push_right(&mut out, "dpi", 7);
    out.append(" ");
    text::push_right(&mut out, "bytes in", 10);
    out.append(" ");
    text::push_left(&mut out, "action", 14);
    out.append(" ");
    text::push_left(&mut out, "filter out", 10);
    out.append(" ");
    text::push_right(&mut out, "bytes out", 10);
    out.append("\n");
    out
}

/// The heading of the font rows.
pub open spec fn font_heading() -> Seq<char> {
    text::left("object"@, 9) + " "@ + text::left("font"@, 32) + " "@ + text::left("program"@, 14)
        + " "@ + text::right("bytes in"@, 10) + " "@ + text::left("action"@, 22) + " "@
        + text::right("bytes out"@, 10) + "\n"@
}

/// The line of a font.
pub open spec fn font_line(r: FontRow) -> Seq<char> {
    text::left(id_text(r.object), 9) + " "@ + text::left(r.name@, 32) + " "@ + text::left(
        r.program@,
        14,
    ) + " "@ + text::right(text::number(r.bytes_in as nat), 10) + " "@ + text::left(r.action@, 22)
        + " "@ + text::right(text::number(r.bytes_out as nat), 10) + "\n"@
}

fn font_title() -> (r: String)
    ensures
        r@ == font_heading(),
{
    let mut out = String::new();
    text::push_left(&mut out, "object", 9);
    assert(out@ =~= text::left("object"@, 9));
    out.append(" ");
    text::push_left(&mut out, "font", 32);
    out.append(" ");
    text::push_left(&mut out, "program", 14);
    out.append(" ");
    text::push_right(&mut out, "bytes in", 10);
    out.append(" ");
    text::push_left(&mut out, "action", 22);
    out.append(" ");
    text::push_right(&mut out, "bytes out", 10);
    out.append("\n");
    out
}

fn font_row(r: &FontRow) -> (line: String)
    ensures
        line@ == font_line(*r),
{
    let mut out = String::new();
    text::push_left(&mut out, id_string(r.object).as_str(), 9);
    assert(out@ =~= text::left(id_text(r.object), 9));
    out.append(" ");
    text::push_left(&mut out, r.name.as_str(), 32);
    out.append(" ");
    text::push_left(&mut out, r.program.as_str(), 14);
    out.append(" ");
    text::push_right(&mut out, text::of_number(r.bytes_in as u128).as_str(), 10);
    out.append(" ");
    text::push_left(&mut out, r.action.as_str(), 22);
    out.append(" ");
    text::push_right(&mut out, text::of_number(r.bytes_out as u128).as_str(), 10);
    out.append("\n");
    out
}

/// The heading of the stage rows.
pub open spec fn stage_heading() -> Seq<char> {
    text::left("stage"@, 12) + " "@ + text::right("before"@, 12) + " "@ + text::right("after"@, 12)
        + " "@ + text::right("delta"@, 8) + " "@ + text::right("time"@, 8) + "\n"@
}

/// The line of a stage, with its time in whole milliseconds.
pub open spec fn stage_line(s: StageSummary) -> Seq<char> {
    text::left(s.name@, 12) + " "@ + text::right(human_text(s.bytes_before as nat), 12) + " "@
        + text::right(human_text(s.bytes_after as nat), 12) + " "@ + text::right(
        pct_text(s.bytes_before as nat, s.bytes_after as nat),
        8,
    ) + " "@ + text::right(text::number(rounded(s.elapsed as nat, 1_000_000)), 7) + "ms\n"@
}

fn stage_title() -> (r: String)
    ensures
        r@ == stage_heading(),
{
    let mut out = String::new();
    text::push_left(&mut out, "stage", 12);
    assert(out@ =~= text::left("stage"@, 12));
    out.append(" ");
    text::push_right(&mut out, "before", 12);
    out.append(" ");
    text::push_right(&mut out, "after", 12);
    out.append(" ");
    text::push_right(&mut out, "delta", 8);
    out.append(" ");
    text::push_right(&mut out, "time", 8);
    out.append("\n");
    out
}

fn stage_row(s: &StageSummary) -> (r: String)
    ensures
        r@ == stage_line(*s),
{
    let mut out = String::new();
    text::push_left(&mut out, s.name, 12);
    assert(out@ =~= text::left(s.name@, 12));
    out.append(" ");
    text::push_right(&mut out, human(s.bytes_before).as_str(), 12);
    out.append(" ");
    text::push_right(&mut out, human(s.bytes_after).as_str(), 12);
    out.append(" ");
    text::push_right(&mut out, pct(s.bytes_before, s.bytes_after).as_str(), 8);
    out.append(" ");
    let ms = round(s.elapsed as u128, 1_000_000);
    text::push_right(&mut out, text::of_number(ms).as_str(), 7);
    out.append("ms\n");
    out
}

// ------------------------------------------------------------- the report

/// The lines of the first `n` images.
pub open spec fn image_lines(rows: Seq<ImageRow>, n: int) -> Seq<char>
    decreases n,
{
    if n <= 0 {
        Seq::empty()
    } else {
        image_lines(rows, n - 1) + image_line(rows[n - 1])
    }
}

/// The lines of the first `n` fonts.
pub open spec fn font_lines(rows: Seq<FontRow>, n: int) -> Seq<char>
    decreases n,
{
    if n <= 0 {
        Seq::empty()
    } else {
        font_lines(rows, n - 1) + font_line(rows[n - 1])
    }
}

/// The lines of the first `n` stages.
pub open spec fn stage_lines(rows: Seq<StageSummary>, n: int) -> Seq<char>
    decreases n,
{
    if n <= 0 {
        Seq::empty()
    } else {
        stage_lines(rows, n - 1) + stage_line(rows[n - 1])
    }
}

/// The lines of the first `n` notes.
pub open spec fn note_lines(notes: Seq<String>, n: int) -> Seq<char>
    decreases n,
{
    if n <= 0 {
        Seq::empty()
    } else {
        note_lines(notes, n - 1) + "note: "@ + notes[n - 1]@ + "\n"@
    }
}

/// The table of images, if there are any.
pub open spec fn image_table(rows: Seq<ImageRow>) -> Seq<char> {
    if rows.len() > 0 {
        image_heading() + image_lines(rows, rows.len() as int) + "\n"@
    } else {
        Seq::empty()
    }
}

/// The table of fonts, if there are any.
pub open spec fn font_table(rows: Seq<FontRow>) -> Seq<char> {
    if rows.len() > 0 {
        font_heading() + font_lines(rows, rows.len() as int) + "\n"@
    } else {
        Seq::empty()
    }
}

/// The table of stages, if there are any.
pub open spec fn stage_table(rows: Seq<StageSummary>) -> Seq<char> {
    if rows.len() > 0 {
        stage_heading() + stage_lines(rows, rows.len() as int) + "\n"@
    } else {
        Seq::empty()
    }
}

/// The change in total.
pub open spec fn total_line(before: nat, after: nat) -> Seq<char> {
    "total: "@ + human_text(before) + " -> "@ + human_text(after) + " ("@ + pct_text(
        before,
        after,
    ) + ")\n"@
}

/// The tables that have rows, each followed by an empty line; the notes; and
/// the change in total.
pub open spec fn report_text(r: Report) -> Seq<char> {
    image_table(r.images@) + font_table(r.fonts@) + stage_table(r.stages@) + note_lines(
        r.notes@,
        r.notes@.len() as int,
    ) + total_line(r.input_bytes as nat, r.output_bytes as nat)
}

fn images_text(rows: &Vec<ImageRow>) -> (r: String)
    ensures
        r@ == image_table(rows@),
{
    let mut out = String::new();
    if rows.len() > 0 {
        out = image_title();
        let ghost head = out@;
        let mut i: usize = 0;
        assert(out@ =~= head + image_lines(rows@, 0));
        while i < rows.len()
            invariant
                i <= rows@.len(),
                out@ == head + image_lines(rows@, i as int),
            decreases rows@.len() - i,
        {
            let ghost here = image_lines(rows@, i as int);
            let line = image_row(&rows[i]);
            out.append(line.as_str());
            i += 1;
            assert(head + here + line@ =~= head + (here + line@));
        }
        out.append("\n");
    } else {
        assert(out@ =~= Seq::empty());
    }
    out
}

fn fonts_text(rows: &Vec<FontRow>) -> (r: String)
    ensures
        r@ == font_table(rows@),
{
    let mut out = String::new();
    if rows.len() > 0 {
        out = font_title();
        let ghost head = out@;
        let mut i: usize = 0;
        assert(out@ =~= head + font_lines(rows@, 0));
        while i < rows.len()
            invariant
                i <= rows@.len(),
                out@ == head + font_lines(rows@, i as int),
            decreases rows@.len() - i,
        {
            let ghost here = font_lines(rows@, i as int);
            let line = font_row(&rows[i]);
            out.append(line.as_str());
            i += 1;
            assert(head + here + line@ =~= head + (here + line@));
        }
        out.append("\n");
    } else {
        assert(out@ =~= Seq::empty());
    }
    out
}

fn stages_text(rows: &Vec<StageSummary>) -> (r: String)
    ensures
        r@ == stage_table(rows@),
{
    let mut out = String::new();
    if rows.len() > 0 {
        out = stage_title();
        let ghost head = out@;
        let mut i: usize = 0;
        assert(out@ =~= head + stage_lines(rows@, 0));
        while i < rows.len()
            invariant
                i <= rows@.len(),
                out@ == head + stage_lines(rows@, i as int),
            decreases rows@.len() - i,
        {
            let ghost here = stage_lines(rows@, i as int);
            let line = stage_row(&rows[i]);
            out.append(line.as_str());
            i += 1;
            assert(head + here + line@ =~= head + (here + line@));
        }
        out.append("\n");
    } else {
        assert(out@ =~= Seq::empty());
    }
    out
}

fn notes_text(notes: &Vec<String>) -> (r: String)
    ensures
        r@ == note_lines(notes@, notes@.len() as int),
{
    let mut out = String::new();
    let mut i: usize = 0;
    assert(out@ =~= note_lines(notes@, 0));
    while i < notes.len()
        invariant
            i <= notes@.len(),
            out@ == note_lines(notes@, i as int),
        decreases notes@.len() - i,
    {
        out.append("note: ");
        out.append(notes[i].as_str());
        out.append("\n");
        i += 1;
    }
    out
}

fn total_text(before: usize, after: usize) -> (r: String)
    ensures
        r@ == total_line(before as nat, after as nat),
{
    let mut out = "total: ".to_owned();
    out.append(human(before).as_str());
    out.append(" -> ");
    out.append(human(after).as_str());
    out.append(" (");
    out.append(pct(before, after).as_str());
    out.append(")\n");
    out
}

impl Report {
    /// The notes.
    pub open spec fn said(self) -> Seq<Seq<char>> {
        self.notes@.map_values(|n: String| n@)
    }

    /// A report of nothing yet.
    pub fn new(input_bytes: usize) -> (r: Report)
        ensures
            r.input_bytes == input_bytes,
            r.output_bytes == 0,
            r.images@.len() == 0,
            r.fonts@.len() == 0,
            r.stages@.len() == 0,
            r.notes@.len() == 0,
    {
        Report {
            input_bytes,
            output_bytes: 0,
            images: Vec::new(),
            fonts: Vec::new(),
            stages: Vec::new(),
            notes: Vec::new(),
        }
    }

    /// Adds an observation.
    pub fn note(&mut self, msg: &str)
        ensures
            final(self).notes@.len() == old(self).notes@.len() + 1,
            final(self).notes@.drop_last() == old(self).notes@,
            final(self).notes@.last()@ == msg@,
            final(self).said() == old(self).said().push(msg@),
            final(self).input_bytes == old(self).input_bytes,
            final(self).output_bytes == old(self).output_bytes,
            final(self).images == old(self).images,
            final(self).fonts == old(self).fonts,
            final(self).stages == old(self).stages,
    {
        self.notes.push(msg.to_owned());
        assert(self.notes@.drop_last() =~= old(self).notes@);
        assert(self.said() =~= old(self).said().push(msg@));
    }

    /// The report as text.
    pub fn to_text(&self) -> (r: String)
        ensures
            r@ == report_text(*self),
    {
        let mut out = images_text(&self.images);
        out.append(fonts_text(&self.fonts).as_str());
        out.append(stages_text(&self.stages).as_str());
        out.append(notes_text(&self.notes).as_str());
        out.append(total_text(self.input_bytes, self.output_bytes).as_str());
        out
    }
}

// ------------------------------------------------------------- laws

/// A quotient is rounded to a whole number that is no more than half of the
/// divisor away, and to an even one where two are as near.
pub proof fn rounding_is_to_the_nearest(n: nat, d: nat)
    requires
        d > 0,
    ensures
        2 * n <= 2 * (rounded(n, d) * d) + d,
        2 * (rounded(n, d) * d) <= 2 * n + d,
        2 * n == 2 * (rounded(n, d) * d) + d || 2 * (rounded(n, d) * d) == 2 * n + d ==> rounded(
            n,
            d,
        ) % 2 == 0,
{
    let q = n / d;
    let r = n % d;
    assert(n == q * d + r && r < d) by (nonlinear_arith)
        requires
            q == n / d,
            r == n % d,
            d > 0,
    ;
    assert((q + 1) * d == q * d + d) by (nonlinear_arith);
}

} // verus!
