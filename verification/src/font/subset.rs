//! What a subset of a font program keeps. Glyph IDs are retained, so nothing
//! in the PDF that refers to a glyph (content strings, CMaps, `CIDToGIDMap`,
//! the font's own `cmap`) has to change: unused glyphs keep their ID and lose
//! their outline.
use vstd::prelude::*;

use crate::bytes;
use crate::font::codes;
use crate::font::sfnt;
use crate::idset::IdSet;

verus! {

/// What kind of program the bytes are, which decides the container.
#[derive(Debug, Clone, Copy, PartialEq, Eq, Structural)]
pub enum Program {
    /// TrueType or OpenType, already an sfnt.
    Sfnt,
    /// A bare CFF program (`FontFile3` with subtype Type1C or CIDFontType0C).
    Cff,
}

/// Tables copied through unchanged: a viewer's lookup path from character
/// code to glyph, which retained glyph IDs keep correct.
pub const PASS_THROUGH_TABLES: &'static str = "cmap post";

/// Tables a PDF consumer never reads: layout, legacy kerning, hinting
/// helpers, signatures, and `OS/2`, whose selection and embedding metadata
/// a viewer takes from the font descriptor instead (and which producers
/// write empty or short often enough that a subsetter would otherwise refuse
/// the font). Dropping them is a pure saving.
pub const DROP_TABLES: &'static str =
    "GSUB GPOS GDEF BASE JSTF kern DSIG hdmx LTSH VDMX gasp PCLT OS/2";

/// What to hand to a subsetter.
pub struct Plan {
    /// The program in an sfnt container.
    pub font: Vec<u8>,
    /// The glyphs that keep their outline; the first glyph is one of them.
    pub glyphs: IdSet,
}

/// The program in an sfnt container: as it is, or wrapped.
pub open spec fn contained(program: Seq<u8>, kind: Program) -> Option<Seq<u8>> {
    match kind {
        Program::Sfnt => Some(program),
        Program::Cff => match sfnt::cff_metrics(program) {
            Some(metrics) => sfnt::wrapped(program, metrics),
            None => None,
        },
    }
}

/// What a subset of the program starts from: its container and the glyphs to
/// keep. `None` where a CFF program does not parse.
pub fn plan(program: &[u8], kind: Program, glyphs: &IdSet) -> (r: Option<Plan>)
    requires
        program.len() <= usize::MAX - 200,
    ensures
        match r {
            Some(p) => {
                &&& contained(program@, kind) == Some(p.font@)
                &&& p.glyphs.wf()
                &&& forall|g: u32| #[trigger] p.glyphs.holds(g) <==> glyphs.holds(g) || g == 0
            },
            None => contained(program@, kind) is None,
        },
{
    let font = match kind {
        Program::Sfnt => bytes::copy(program),
        Program::Cff => match sfnt::wrap_cff(program) {
            Some(f) => f,
            None => {
                return None;
            },
        },
    };
    let mut kept = IdSet::new();
    let mut i: usize = 0;
    while i < glyphs.ids.len()
        invariant
            i <= glyphs.ids@.len(),
            kept.wf(),
            forall|g: u32| #[trigger]
                kept.holds(g) <==> glyphs.ids@.take(i as int).contains(g),
        decreases glyphs.ids@.len() - i,
    {
        let id = glyphs.ids[i];
        let ghost before = glyphs.ids@.take(i as int);
        let ghost old_kept = kept;
        kept.insert(id);
        i += 1;
        proof {
            let after = glyphs.ids@.take(i as int);
            assert(after =~= before.push(id));
            assert forall|g: u32| #[trigger] kept.holds(g) <==> after.contains(g) by {
                assert(kept.holds(g) <==> old_kept.holds(g) || g == id);
                if before.contains(g) {
                    let k = choose|k: int| 0 <= k < before.len() && before[k] == g;
                    assert(after[k] == g);
                }
                if g == id {
                    assert(after[i - 1] == g);
                }
                if after.contains(g) && g != id {
                    let k = choose|k: int| 0 <= k < after.len() && after[k] == g;
                    assert(before[k] == g);
                }
            }
        }
    }
    assert(glyphs.ids@.take(i as int) =~= glyphs.ids@);
    kept.insert(0);
    Some(Plan { font, glyphs: kept })
}

/// The program that a subset font holds, in the container it came in.
pub open spec fn taken_out(font: Seq<u8>, kind: Program) -> Option<Seq<u8>> {
    match kind {
        Program::Sfnt => Some(font),
        Program::Cff => match sfnt::table_at(font, sfnt::cff_tag()) {
            Some((from, to)) => Some(font.subrange(from, to)),
            None => None,
        },
    }
}

/// The program of a subset font: the font itself, or the CFF program that was
/// wrapped in it.
pub fn finish(font: Vec<u8>, kind: Program) -> (r: Option<Vec<u8>>)
    ensures
        codes::name_view(r) == taken_out(font@, kind),
{
    match kind {
        Program::Sfnt => Some(font),
        Program::Cff => sfnt::unwrap_cff(&font),
    }
}

} // verus!
