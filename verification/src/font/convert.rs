//! Type 1 to CFF: parse the program, translate every charstring, and
//! write the result with the same names, encoding and private values.
//! One glyph that fails to translate fails the conversion, so the caller
//! keeps what it has.
use vstd::prelude::*;

use crate::bytes;
use crate::font::cff;
use crate::font::cff::Glyph;
use crate::font::charstring;
use crate::font::type1;

verus! {

/// The glyph that stands for a missing one where a font has none: it draws
/// nothing.
pub open spec fn empty_notdef() -> cff::GlyphView {
    cff::GlyphView { name: bytes::text(".notdef"@), charstring: seq![14u8] }
}

/// The glyphs with the charstrings from `i` on translated: the first
/// `.notdef` in front, the others in their own order behind it. None where
/// one does not translate.
pub open spec fn glyphs_from(
    charstrings: Seq<(Seq<u8>, Seq<u8>)>,
    subrs: Seq<Seq<u8>>,
    i: int,
    notdef: Option<cff::GlyphView>,
    others: Seq<cff::GlyphView>,
) -> Option<Seq<cff::GlyphView>>
    decreases charstrings.len() - i,
{
    if i < 0 || i >= charstrings.len() {
        Some(
            seq![match notdef {
                Some(g) => g,
                None => empty_notdef(),
            }] + others,
        )
    } else {
        let (name, code) = charstrings[i];
        match charstring::translated(code, subrs) {
            None => None,
            Some(t) => {
                let glyph = cff::GlyphView { name, charstring: t.out };
                if name == bytes::text(".notdef"@) && notdef is None {
                    glyphs_from(charstrings, subrs, i + 1, Some(glyph), others)
                } else {
                    glyphs_from(charstrings, subrs, i + 1, notdef, others.push(glyph))
                }
            },
        }
    }
}

/// The CFF font that a Type 1 font becomes.
pub open spec fn as_cff(font: type1::FontView) -> Option<cff::FontView> {
    match glyphs_from(font.charstrings, font.subrs, 0, None, Seq::empty()) {
        None => None,
        Some(glyphs) => Some(
            cff::FontView {
                name: font.name,
                matrix: font.matrix,
                bbox: font.bbox,
                glyphs: cff::ordered(glyphs, font.encoding),
                encoding: font.encoding,
                private: font.private,
            },
        ),
    }
}

/// The CFF program of a Type 1 program.
pub open spec fn converted(program: Seq<u8>) -> Option<Seq<u8>> {
    match type1::parsed(program) {
        None => None,
        Some(font) => match as_cff(font) {
            None => None,
            Some(f) => cff::cff_of(f),
        },
    }
}

fn translate(font: &type1::Type1Font) -> (r: Option<Vec<Glyph>>)
    ensures
        match r {
            Some(glyphs) => glyphs_from(
                font@.charstrings,
                font@.subrs,
                0,
                None,
                Seq::empty(),
            ) == Some(cff::glyphs_view(glyphs@)),
            None => glyphs_from(font@.charstrings, font@.subrs, 0, None, Seq::empty()) is None,
        },
{
    let ghost view = font@.charstrings;
    let ghost goal = glyphs_from(view, font@.subrs, 0, None, Seq::empty());
    let mut notdef: Option<Glyph> = None;
    let mut others: Vec<Glyph> = Vec::new();
    let mut i: usize = 0;
    assert(cff::glyphs_view(others@) =~= Seq::empty());
    assert(charstring::subrs_view(font.subrs@) =~= font@.subrs);
    while i < font.charstrings.len()
        invariant
            i <= font.charstrings@.len(),
            view == font@.charstrings,
            charstring::subrs_view(font.subrs@) == font@.subrs,
            goal == glyphs_from(view, font@.subrs, 0, None, Seq::empty()),
            goal == glyphs_from(
                view,
                font@.subrs,
                i as int,
                match notdef {
                    Some(g) => Some(g@),
                    None => None,
                },
                cff::glyphs_view(others@),
            ),
        decreases font.charstrings@.len() - i,
    {
        let entry = &font.charstrings[i];
        assert(view[i as int] == (entry.0@, entry.1@));
        let translated = charstring::to_type2(&entry.1, &font.subrs);
        let code = match translated {
            Some(g) => g.charstring,
            None => {
                return None;
            },
        };
        let glyph = Glyph { name: bytes::copy(&entry.0), charstring: code };
        let ghost before = cff::glyphs_view(others@);
        if bytes::is_text(&entry.0, ".notdef") && notdef.is_none() {
            notdef = Some(glyph);
        } else {
            others.push(glyph);
            assert(cff::glyphs_view(others@) =~= before.push(glyph@));
        }
        i += 1;
    }
    let first = match notdef {
        Some(g) => g,
        None => {
            let mut code: Vec<u8> = Vec::new();
            code.push(14);
            assert(code@ =~= seq![14u8]);
            Glyph { name: bytes::of(".notdef"), charstring: code }
        },
    };
    let ghost behind = cff::glyphs_view(others@);
    let ghost front = first@;
    let mut glyphs: Vec<Glyph> = Vec::new();
    glyphs.push(first);
    glyphs.append(&mut others);
    assert(cff::glyphs_view(glyphs@) =~= seq![front] + behind);
    Some(glyphs)
}

/// The CFF program of a Type 1 program; `None` where it is not one, or one
/// of its glyphs does not translate.
pub fn type1_to_cff(program: &[u8]) -> (r: Option<Vec<u8>>)
    ensures
        match r {
            Some(out) => converted(program@) == Some(out@),
            None => converted(program@) is None,
        },
{
    let font = type1::parse(program)?;
    let glyphs = translate(&font)?;
    proof {
        lemma_some_glyph(font@.charstrings, font@.subrs, 0, None, Seq::empty());
    }
    let encoding = font.encoding.as_ref();
    let glyphs = cff::sort_glyphs(glyphs, encoding);
    let out = cff::Font {
        name: &font.font_name,
        font_matrix: font.font_matrix.as_ref(),
        font_bbox: font.font_bbox.as_ref(),
        glyphs: &glyphs,
        encoding,
        private: &font.private,
    };
    assert(out.model() == as_cff(font@)->0);
    cff::write(&out)
}

proof fn lemma_some_glyph(
    charstrings: Seq<(Seq<u8>, Seq<u8>)>,
    subrs: Seq<Seq<u8>>,
    i: int,
    notdef: Option<cff::GlyphView>,
    others: Seq<cff::GlyphView>,
)
    ensures
        match glyphs_from(charstrings, subrs, i, notdef, others) {
            Some(g) => g.len() > 0,
            None => true,
        },
    decreases charstrings.len() - i,
{
    if 0 <= i < charstrings.len() {
        let (name, code) = charstrings[i];
        match charstring::translated(code, subrs) {
            None => {},
            Some(t) => {
                let glyph = cff::GlyphView { name, charstring: t.out };
                if name == bytes::text(".notdef"@) && notdef is None {
                    lemma_some_glyph(charstrings, subrs, i + 1, Some(glyph), others);
                } else {
                    lemma_some_glyph(charstrings, subrs, i + 1, notdef, others.push(glyph));
                }
            },
        }
    }
}

// ------------------------------------------------------------- laws

proof fn lemma_glyphs(
    charstrings: Seq<(Seq<u8>, Seq<u8>)>,
    subrs: Seq<Seq<u8>>,
    i: int,
    notdef: Option<cff::GlyphView>,
    others: Seq<cff::GlyphView>,
    g: cff::GlyphView,
)
    requires
        0 <= i <= charstrings.len(),
        notdef matches Some(n) ==> n.name == bytes::text(".notdef"@),
        glyphs_from(charstrings, subrs, i, notdef, others) is Some,
        notdef == Some(g) || others.contains(g) || exists|k: int|
            i <= k < charstrings.len() && translates_to(#[trigger] charstrings[k], subrs, g),
    ensures
        glyphs_from(charstrings, subrs, i, notdef, others)->0.contains(g),
        glyphs_from(charstrings, subrs, i, notdef, others)->0[0].name == bytes::text(".notdef"@),
    decreases charstrings.len() - i,
{
    let all = glyphs_from(charstrings, subrs, i, notdef, others)->0;
    if i >= charstrings.len() {
        if notdef == Some(g) {
            assert(all[0] == g);
        } else {
            let k = choose|k: int| 0 <= k < others.len() && others[k] == g;
            assert(all[k + 1] == g);
        }
    } else {
        let (name, code) = charstrings[i];
        let t = charstring::translated(code, subrs)->0;
        let glyph = cff::GlyphView { name, charstring: t.out };
        if name == bytes::text(".notdef"@) && notdef is None {
            lemma_glyphs(charstrings, subrs, i + 1, Some(glyph), others, g);
        } else {
            if others.contains(g) {
                let k = choose|k: int| 0 <= k < others.len() && others[k] == g;
                assert(others.push(glyph)[k] == g);
            }
            if translates_to(charstrings[i], subrs, g) {
                assert(others.push(glyph)[others.len() as int] == g);
            }
            lemma_glyphs(charstrings, subrs, i + 1, notdef, others.push(glyph), g);
        }
    }
}

/// Whether a named charstring becomes a glyph: of its name, with what it
/// translates to.
pub open spec fn translates_to(
    entry: (Seq<u8>, Seq<u8>),
    subrs: Seq<Seq<u8>>,
    g: cff::GlyphView,
) -> bool {
    let (name, code) = entry;
    &&& g.name == name
    &&& charstring::translated(code, subrs) matches Some(t) && g.charstring == t.out
}

/// Every charstring of a font becomes a glyph of its name, and the glyph that
/// stands for a missing one comes first.
pub proof fn every_charstring_becomes_a_glyph(
    charstrings: Seq<(Seq<u8>, Seq<u8>)>,
    subrs: Seq<Seq<u8>>,
    k: int,
    g: cff::GlyphView,
)
    requires
        0 <= k < charstrings.len(),
        translates_to(charstrings[k], subrs, g),
        glyphs_from(charstrings, subrs, 0, None, Seq::empty()) is Some,
    ensures
        glyphs_from(charstrings, subrs, 0, None, Seq::empty())->0.contains(g),
        glyphs_from(charstrings, subrs, 0, None, Seq::empty())->0[0].name == bytes::text(
            ".notdef"@,
        ),
{
    lemma_glyphs(charstrings, subrs, 0, None, Seq::empty(), g);
}

/// A converted font keeps the name, the matrix, the bounding box, the encoding
/// and the hints of the font it came from.
pub proof fn conversion_keeps_the_font(font: type1::FontView)
    ensures
        as_cff(font) matches Some(f) ==> {
            &&& f.name == font.name
            &&& f.matrix == font.matrix
            &&& f.bbox == font.bbox
            &&& f.encoding == font.encoding
            &&& f.private == font.private
        },
{
}

} // verus!
