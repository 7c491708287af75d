//! What font programs hold, as `read_fonts` reads them.
use vstd::prelude::*;

use read_fonts::TableProvider;

use crate::font::codes;

verus! {

// ------------------------------------------------------------- names

/// The character that a glyph name stands for.
pub uninterp spec fn glyph_unicode(name: Seq<u8>) -> Option<u32>;

/// `read_fonts::ps::agl::name_to_char`: the character that a glyph name
/// stands for in the Adobe Glyph List or by its `uniXXXX` form.
#[verifier::external_body]
pub(crate) fn unicode(name: &[u8]) -> (r: Option<u32>)
    ensures
        r == glyph_unicode(name@),
{
    read_fonts::ps::agl::name_to_char(std::str::from_utf8(name).ok()?).map(|c| c as u32)
}

// ------------------------------------------------------------- CFF

/// How many glyphs a CFF program has; none where it is not one.
pub uninterp spec fn cff_glyphs(program: Seq<u8>) -> Option<u32>;

/// `CffFontRef::num_glyphs` of a program that `CffFontRef::new_cff` reads.
#[verifier::external_body]
pub(crate) fn num_glyphs(program: &[u8]) -> (r: Option<u32>)
    ensures
        r == cff_glyphs(program@),
{
    let cff = read_fonts::ps::cff::CffFontRef::new_cff(program, 0, None).ok()?;
    Some(cff.num_glyphs())
}

/// Whether a CFF program is CID-keyed.
pub uninterp spec fn cff_is_cid(program: Seq<u8>) -> bool;

/// `CffFontRef::is_cid`; a program that does not read is not CID-keyed.
#[verifier::external_body]
pub(crate) fn is_cid(program: &[u8]) -> (r: bool)
    ensures
        r == cff_is_cid(program@),
{
    read_fonts::ps::cff::CffFontRef::new_cff(program, 0, None).is_ok_and(|cff| cff.is_cid())
}

/// The glyphs of a CFF program with their string numbers, in charset order.
pub uninterp spec fn cff_charset(program: Seq<u8>) -> Option<Seq<(u32, u16)>>;

/// The pairs of a charset, if there is one.
pub open spec fn pairs_view(pairs: Option<Vec<(u32, u16)>>) -> Option<Seq<(u32, u16)>> {
    match pairs {
        Some(p) => Some(p@),
        None => None,
    }
}

/// `CffFontRef::charset`, with what its iterator yields.
#[verifier::external_body]
pub(crate) fn charset(program: &[u8]) -> (r: Option<Vec<(u32, u16)>>)
    ensures
        pairs_view(r) == cff_charset(program@),
{
    let cff = read_fonts::ps::cff::CffFontRef::new_cff(program, 0, None).ok()?;
    Some(cff.charset()?.iter().map(|(g, s)| (g.to_u32(), s.to_u16())).collect())
}

/// The glyph of a CFF program that has a string number or CID.
pub uninterp spec fn cff_glyph_of(program: Seq<u8>, sid: u16) -> Option<u32>;

/// `Charset::glyph_id` of the program's charset.
#[verifier::external_body]
pub(crate) fn glyph_of(program: &[u8], sid: u16) -> (r: Option<u32>)
    ensures
        r == cff_glyph_of(program@, sid),
{
    let cff = read_fonts::ps::cff::CffFontRef::new_cff(program, 0, None).ok()?;
    cff.charset()?.glyph_id(read_fonts::ps::Sid::new(sid)).map(|g| g.to_u32())
}

/// The string of a CFF program with a number.
pub uninterp spec fn cff_string(program: Seq<u8>, sid: u16) -> Option<Seq<u8>>;

/// `CffFontRef::string`.
#[verifier::external_body]
pub(crate) fn string(program: &[u8], sid: u16) -> (r: Option<Vec<u8>>)
    ensures
        codes::name_view(r) == cff_string(program@, sid),
{
    let cff = read_fonts::ps::cff::CffFontRef::new_cff(program, 0, None).ok()?;
    cff.string(read_fonts::ps::Sid::new(sid)).map(|s| s.to_vec())
}

/// The glyph that the encoding built into a CFF program gives a code.
pub uninterp spec fn cff_code(program: Seq<u8>, code: u8) -> Option<u32>;

/// `Encoding::map` of the program's own encoding.
#[verifier::external_body]
pub(crate) fn builtin(program: &[u8], code: u8) -> (r: Option<u32>)
    ensures
        r == cff_code(program@, code),
{
    let cff = read_fonts::ps::cff::CffFontRef::new_cff(program, 0, None).ok()?;
    cff.encoding()?.map(code).map(|g| g.to_u32())
}

// ------------------------------------------------------------- sfnt

/// Whether an sfnt program's table directory reads.
pub uninterp spec fn sfnt_reads(program: Seq<u8>) -> bool;

/// `read_fonts::FontRef::new`.
#[verifier::external_body]
pub(crate) fn reads(program: &[u8]) -> (r: bool)
    ensures
        r == sfnt_reads(program@),
{
    read_fonts::FontRef::new(program).is_ok()
}

/// How many glyphs an sfnt program says it has.
pub uninterp spec fn sfnt_glyphs(program: Seq<u8>) -> Option<u16>;

/// The glyph count of the `maxp` table, where `FontRef::maxp` reads it.
#[verifier::external_body]
pub(crate) fn glyph_count(program: &[u8]) -> (r: Option<u16>)
    ensures
        r == sfnt_glyphs(program@),
{
    Some(read_fonts::FontRef::new(program).ok()?.maxp().ok()?.num_glyphs())
}

/// The CFF program inside an OpenType font.
pub uninterp spec fn sfnt_cff(program: Seq<u8>) -> Option<Seq<u8>>;

/// `FontRef::table_data` of the `CFF ` table.
#[verifier::external_body]
pub(crate) fn cff_data(program: &[u8]) -> (r: Option<Vec<u8>>)
    ensures
        codes::name_view(r) == sfnt_cff(program@),
{
    let face = read_fonts::FontRef::new(program).ok()?;
    Some(face.table_data(read_fonts::types::Tag::new(b"CFF "))?.as_bytes().to_vec())
}

/// A record of a `cmap` table: its platform and encoding, and whether its
/// subtable reads.
pub type Record = (u16, u16, bool);

/// The records of an sfnt program's `cmap` table; none without one.
pub uninterp spec fn sfnt_records(program: Seq<u8>) -> Option<Seq<(u16, u16, bool)>>;

/// The records of a table, if there is one.
pub open spec fn records_view(records: Option<Vec<Record>>) -> Option<Seq<Record>> {
    match records {
        Some(r) => Some(r@),
        None => None,
    }
}

/// `Cmap::encoding_records`, each with its platform, its encoding, and
/// whether `EncodingRecord::subtable` reads.
#[verifier::external_body]
pub(crate) fn records(program: &[u8]) -> (r: Option<Vec<Record>>)
    ensures
        records_view(r) == sfnt_records(program@),
{
    let face = read_fonts::FontRef::new(program).ok()?;
    let cmap = face.cmap().ok()?;
    let data = cmap.offset_data();
    let all = cmap.encoding_records().iter();
    Some(all.map(|r| (r.platform_id() as u16, r.encoding_id(), r.subtable(data).is_ok())).collect())
}

/// The glyph that the subtable of a `cmap` record gives a code point.
pub uninterp spec fn sfnt_code(program: Seq<u8>, record: usize, point: u32) -> Option<u32>;

/// `CmapSubtable::map_codepoint` of the record's subtable.
#[verifier::external_body]
pub(crate) fn code_glyph(program: &[u8], record: usize, point: u32) -> (r: Option<u32>)
    ensures
        r == sfnt_code(program@, record, point),
{
    let face = read_fonts::FontRef::new(program).ok()?;
    let cmap = face.cmap().ok()?;
    let subtable = cmap.encoding_records().get(record)?.subtable(cmap.offset_data()).ok()?;
    subtable.map_codepoint(point).map(|g| g.to_u32())
}

/// How many glyphs the `post` table names.
pub uninterp spec fn sfnt_named(program: Seq<u8>) -> usize;

/// `Post::num_names`; nothing without the table.
#[verifier::external_body]
pub(crate) fn named(program: &[u8]) -> (r: usize)
    ensures
        r == sfnt_named(program@),
{
    read_fonts::FontRef::new(program).ok().and_then(|f| f.post().ok()).map_or(0, |p| p.num_names())
}

/// The name that the `post` table gives a glyph.
pub uninterp spec fn sfnt_name(program: Seq<u8>, glyph: u16) -> Option<Seq<u8>>;

/// `Post::glyph_name`.
#[verifier::external_body]
pub(crate) fn post_name(program: &[u8], glyph: u16) -> (r: Option<Vec<u8>>)
    ensures
        codes::name_view(r) == sfnt_name(program@, glyph),
{
    let post = read_fonts::FontRef::new(program).ok()?.post().ok()?;
    post.glyph_name(read_fonts::types::GlyphId16::new(glyph)).map(|n| n.as_bytes().to_vec())
}

} // verus!
