//! The 14 standard fonts: recognizing their names (and the usual aliases
//! such as Arial for Helvetica) and deciding whether an embedded program
//! can be dropped in favor of the viewer's own copy.
use vstd::prelude::*;

use crate::bytes;
use crate::document;
use crate::document::Pdf;
use crate::font::glyphs::Base;
use crate::font::programs;
use crate::object;
use crate::object::{Dict, Value, ValueView};

verus! {

// ------------------------------------------------------------- names

/// Where the first `+` from `i` on stands.
pub open spec fn plus_at(s: Seq<u8>, i: int) -> Option<int>
    decreases s.len() - i,
{
    if i < 0 || i >= s.len() {
        None
    } else if s[i] == '+' as u8 {
        Some(i)
    } else {
        plus_at(s, i + 1)
    }
}

/// Whether the first six bytes are capital letters.
pub open spec fn six_capitals(s: Seq<u8>) -> bool {
    forall|i: int| 0 <= i < 6 ==> 'A' as u8 <= #[trigger] s[i] <= 'Z' as u8
}

/// A font name without its subset tag: six capital letters and a `+`.
pub open spec fn untagged(s: Seq<u8>) -> Seq<u8> {
    if plus_at(s, 0) == Some(6int) && six_capitals(s) {
        s.skip(7)
    } else {
        s
    }
}

/// A character that separates the words of a font name.
pub open spec fn separator(b: u8) -> bool {
    b == ' ' as u8 || b == '-' as u8 || b == ',' as u8 || b == '_' as u8
}

/// A letter in lower case, any other byte as it is.
pub open spec fn lower(b: u8) -> u8 {
    if 'A' as u8 <= b <= 'Z' as u8 {
        (b + 32) as u8
    } else {
        b
    }
}

/// The first `n` bytes of a name in lower case, without separators.
pub open spec fn folded(s: Seq<u8>, n: int) -> Seq<u8>
    decreases n,
{
    if n <= 0 {
        Seq::empty()
    } else if separator(s[n - 1]) {
        folded(s, n - 1)
    } else {
        folded(s, n - 1).push(lower(s[n - 1]))
    }
}

/// What follows a prefix.
pub open spec fn stripped(s: Seq<u8>, prefix: Seq<char>) -> Option<Seq<u8>> {
    let p = bytes::text(prefix);
    if 0 < p.len() <= s.len() && s.take(p.len() as int) == p {
        Some(s.skip(p.len() as int))
    } else {
        None
    }
}

/// A family of standard fonts.
#[derive(Debug, Clone, Copy, PartialEq, Eq, Structural)]
pub enum Family {
    Helvetica,
    Courier,
    Times,
    Symbol,
    ZapfDingbats,
}

/// The family that a folded name starts with, and what follows it.
pub open spec fn family_of(s: Seq<u8>) -> Option<(Family, Seq<u8>)> {
    if s == bytes::text("symbol"@) {
        Some((Family::Symbol, Seq::empty()))
    } else if stripped(s, "helvetica"@) is Some {
        Some((Family::Helvetica, stripped(s, "helvetica"@)->0))
    } else if stripped(s, "arial"@) is Some {
        Some((Family::Helvetica, stripped(s, "arial"@)->0))
    } else if stripped(s, "couriernew"@) is Some {
        Some((Family::Courier, stripped(s, "couriernew"@)->0))
    } else if stripped(s, "courier"@) is Some {
        Some((Family::Courier, stripped(s, "courier"@)->0))
    } else if stripped(s, "timesnewroman"@) is Some {
        Some((Family::Times, stripped(s, "timesnewroman"@)->0))
    } else if stripped(s, "times"@) is Some {
        Some((Family::Times, stripped(s, "times"@)->0))
    } else if stripped(s, "zapfdingbats"@) is Some {
        Some((Family::ZapfDingbats, stripped(s, "zapfdingbats"@)->0))
    } else {
        None
    }
}

/// A word that says nothing of a font's style, taken off.
pub open spec fn without_noise(s: Seq<u8>) -> Option<Seq<u8>> {
    if stripped(s, "psmt"@) is Some {
        stripped(s, "psmt"@)
    } else if stripped(s, "mt"@) is Some {
        stripped(s, "mt"@)
    } else if stripped(s, "ps"@) is Some {
        stripped(s, "ps"@)
    } else if stripped(s, "regular"@) is Some {
        stripped(s, "regular"@)
    } else {
        stripped(s, "roman"@)
    }
}

/// The style from what follows the family name, as whether it is bold and
/// italic, provided every word is one a vendor spelling of a standard font
/// uses. Anything else (Narrow, Condensed, Unicode, Black...) is a different
/// font.
pub open spec fn style_from(s: Seq<u8>, bold: bool, italic: bool) -> Option<(bool, bool)>
    decreases s.len(),
{
    if s.len() == 0 {
        Some((bold, italic))
    } else if stripped(s, "bold"@) is Some {
        style_from(stripped(s, "bold"@)->0, true, italic)
    } else if stripped(s, "italic"@) is Some {
        style_from(stripped(s, "italic"@)->0, bold, true)
    } else if stripped(s, "oblique"@) is Some {
        style_from(stripped(s, "oblique"@)->0, bold, true)
    } else if without_noise(s) is Some {
        style_from(without_noise(s)->0, bold, italic)
    } else {
        None
    }
}

/// The name of a standard font of a family and a style; Symbol and
/// ZapfDingbats have one style.
pub open spec fn standard_name(family: Family, bold: bool, italic: bool) -> Option<Seq<char>> {
    match family {
        Family::Symbol => if bold || italic {
            None
        } else {
            Some("Symbol"@)
        },
        Family::ZapfDingbats => if bold || italic {
            None
        } else {
            Some("ZapfDingbats"@)
        },
        Family::Helvetica => Some(
            if bold && italic {
                "Helvetica-BoldOblique"@
            } else if bold {
                "Helvetica-Bold"@
            } else if italic {
                "Helvetica-Oblique"@
            } else {
                "Helvetica"@
            },
        ),
        Family::Courier => Some(
            if bold && italic {
                "Courier-BoldOblique"@
            } else if bold {
                "Courier-Bold"@
            } else if italic {
                "Courier-Oblique"@
            } else {
                "Courier"@
            },
        ),
        Family::Times => Some(
            if bold && italic {
                "Times-BoldItalic"@
            } else if bold {
                "Times-Bold"@
            } else if italic {
                "Times-Italic"@
            } else {
                "Times-Roman"@
            },
        ),
    }
}

/// The family and style that a base font name speaks of.
pub open spec fn recognized(base_font: Seq<u8>) -> Option<(Family, bool, bool)> {
    let name = untagged(base_font);
    match family_of(folded(name, name.len() as int)) {
        None => None,
        Some((family, rest)) => match style_from(rest, false, false) {
            None => None,
            Some((bold, italic)) => Some((family, bold, italic)),
        },
    }
}

/// The standard font that a base font name stands for.
pub open spec fn canonical(base_font: Seq<u8>) -> Option<Seq<char>> {
    match recognized(base_font) {
        None => None,
        Some((family, bold, italic)) => standard_name(family, bold, italic),
    }
}

/// The characters of a name, if there is one.
pub open spec fn name_chars(name: Option<&'static str>) -> Option<Seq<char>> {
    match name {
        Some(n) => Some(n@),
        None => None,
    }
}

fn find_plus(s: &[u8]) -> (r: Option<usize>)
    ensures
        match r {
            Some(i) => plus_at(s@, 0) == Some(i as int) && i < s@.len(),
            None => plus_at(s@, 0) is None,
        },
{
    let mut i: usize = 0;
    while i < s.len()
        invariant
            i <= s@.len(),
            plus_at(s@, 0) == plus_at(s@, i as int),
        decreases s@.len() - i,
    {
        if s[i] == ('+' as u8) {
            return Some(i);
        }
        i += 1;
    }
    None
}

fn fold(s: &[u8]) -> (r: Vec<u8>)
    ensures
        r@ == ({
            let name = untagged(s@);
            folded(name, name.len() as int)
        }),
{
    let mut start: usize = 0;
    match find_plus(s) {
        Some(at) => {
            if at == 6 {
                let mut i: usize = 0;
                let mut capitals: bool = true;
                while i < 6
                    invariant
                        i <= 6 < s@.len(),
                        capitals == (forall|k: int|
                            0 <= k < i ==> 'A' as u8 <= #[trigger] s@[k] <= 'Z' as u8),
                    decreases 6 - i,
                {
                    let b = s[i];
                    assert(s@[i as int] == b);
                    if b < ('A' as u8) || b > ('Z' as u8) {
                        capitals = false;
                    }
                    i += 1;
                }
                if capitals {
                    start = 7;
                }
            }
        },
        None => {},
    }
    let ghost name = untagged(s@);
    assert(name =~= s@.skip(start as int));
    let mut out: Vec<u8> = Vec::new();
    let mut i: usize = start;
    while i < s.len()
        invariant
            start <= i <= s@.len(),
            name == s@.skip(start as int),
            out@ == folded(name, i - start),
        decreases s@.len() - i,
    {
        let b = s[i];
        assert(name[i - start] == b);
        let gap = b == (' ' as u8) || b == ('-' as u8) || b == (',' as u8) || b == ('_' as u8);
        if !gap {
            out.push(
                if ('A' as u8) <= b && b <= ('Z' as u8) {
                    b + 32
                } else {
                    b
                },
            );
        }
        i += 1;
    }
    out
}

fn strip(s: &[u8], prefix: &str) -> (r: Option<Vec<u8>>)
    ensures
        match r {
            Some(rest) => stripped(s@, prefix@) == Some(rest@) && rest@.len() < s@.len(),
            None => stripped(s@, prefix@) is None,
        },
{
    let p = bytes::of(prefix);
    let n: usize = p.len();
    if n == 0 || n > s.len() {
        return None;
    }
    let front = bytes::copy_range(s, 0, n);
    assert(front@ =~= s@.take(n as int));
    if !bytes::same(&front, &p) {
        return None;
    }
    let rest = bytes::copy_range(s, n, s.len());
    assert(rest@ =~= s@.skip(n as int));
    Some(rest)
}

fn split_family(s: &[u8]) -> (r: Option<(Family, Vec<u8>)>)
    ensures
        match r {
            Some((family, rest)) => family_of(s@) == Some((family, rest@)),
            None => family_of(s@) is None,
        },
{
    if bytes::is_text(s, "symbol") {
        let rest: Vec<u8> = Vec::new();
        assert(rest@ =~= Seq::empty());
        return Some((Family::Symbol, rest));
    }
    match strip(s, "helvetica") {
        Some(rest) => {
            return Some((Family::Helvetica, rest));
        },
        None => {},
    }
    match strip(s, "arial") {
        Some(rest) => {
            return Some((Family::Helvetica, rest));
        },
        None => {},
    }
    match strip(s, "couriernew") {
        Some(rest) => {
            return Some((Family::Courier, rest));
        },
        None => {},
    }
    match strip(s, "courier") {
        Some(rest) => {
            return Some((Family::Courier, rest));
        },
        None => {},
    }
    match strip(s, "timesnewroman") {
        Some(rest) => {
            return Some((Family::Times, rest));
        },
        None => {},
    }
    match strip(s, "times") {
        Some(rest) => {
            return Some((Family::Times, rest));
        },
        None => {},
    }
    match strip(s, "zapfdingbats") {
        Some(rest) => Some((Family::ZapfDingbats, rest)),
        None => None,
    }
}

fn strip_noise(s: &[u8]) -> (r: Option<Vec<u8>>)
    ensures
        match r {
            Some(rest) => without_noise(s@) == Some(rest@) && rest@.len() < s@.len(),
            None => without_noise(s@) is None,
        },
{
    match strip(s, "psmt") {
        Some(rest) => {
            return Some(rest);
        },
        None => {},
    }
    match strip(s, "mt") {
        Some(rest) => {
            return Some(rest);
        },
        None => {},
    }
    match strip(s, "ps") {
        Some(rest) => {
            return Some(rest);
        },
        None => {},
    }
    match strip(s, "regular") {
        Some(rest) => {
            return Some(rest);
        },
        None => {},
    }
    strip(s, "roman")
}

fn style_of(s: Vec<u8>) -> (r: Option<(bool, bool)>)
    ensures
        r == style_from(s@, false, false),
{
    let ghost goal = style_from(s@, false, false);
    let mut rest: Vec<u8> = s;
    let mut bold: bool = false;
    let mut italic: bool = false;
    while rest.len() > 0
        invariant
            goal == style_from(rest@, bold, italic),
            goal == style_from(s@, false, false),
        decreases rest@.len(),
    {
        if let Some(r) = strip(&rest, "bold") {
            bold = true;
            rest = r;
        } else if let Some(r) = strip(&rest, "italic") {
            italic = true;
            rest = r;
        } else if let Some(r) = strip(&rest, "oblique") {
            italic = true;
            rest = r;
        } else if let Some(r) = strip_noise(&rest) {
            rest = r;
        } else {
            return None;
        }
    }
    Some((bold, italic))
}

fn recognize(base_font: &[u8]) -> (r: Option<(Family, bool, bool)>)
    ensures
        r == recognized(base_font@),
{
    let name = fold(base_font);
    let (family, rest) = split_family(&name)?;
    let (bold, italic) = style_of(rest)?;
    Some((family, bold, italic))
}

fn name_of(family: Family, bold: bool, italic: bool) -> (r: Option<&'static str>)
    ensures
        name_chars(r) == standard_name(family, bold, italic),
{
    match family {
        Family::Symbol => if bold || italic {
            None
        } else {
            Some("Symbol")
        },
        Family::ZapfDingbats => if bold || italic {
            None
        } else {
            Some("ZapfDingbats")
        },
        Family::Helvetica => Some(
            if bold && italic {
                "Helvetica-BoldOblique"
            } else if bold {
                "Helvetica-Bold"
            } else if italic {
                "Helvetica-Oblique"
            } else {
                "Helvetica"
            },
        ),
        Family::Courier => Some(
            if bold && italic {
                "Courier-BoldOblique"
            } else if bold {
                "Courier-Bold"
            } else if italic {
                "Courier-Oblique"
            } else {
                "Courier"
            },
        ),
        Family::Times => Some(
            if bold && italic {
                "Times-BoldItalic"
            } else if bold {
                "Times-Bold"
            } else if italic {
                "Times-Italic"
            } else {
                "Times-Roman"
            },
        ),
    }
}

/// Canonical standard-14 name for a base font name, if it is one. Subset
/// tags (`ABCDEF+`) are ignored; family aliases and style suffixes in the
/// common vendor spellings are folded.
pub fn canonical_name(base_font: &[u8]) -> (r: Option<&'static str>)
    ensures
        name_chars(r) == canonical(base_font@),
{
    let (family, bold, italic) = recognize(base_font)?;
    name_of(family, bold, italic)
}

// ------------------------------------------------------------- encodings

/// What an object leads to, or itself where it leads nowhere.
pub open spec fn target(t: document::TableView, o: ValueView) -> ValueView {
    match document::resolved(t, o) {
        Some(v) => v,
        None => o,
    }
}

/// Whether an item of an encoding's differences is a code or a glyph name
/// that stands for a character.
pub open spec fn plain_difference(item: ValueView) -> bool {
    match item {
        ValueView::Integer(_) => true,
        ValueView::Name(n) => programs::glyph_unicode(n) is Some,
        _ => false,
    }
}

/// Whether every item of an encoding's differences is plain.
pub open spec fn plain_items(items: Seq<ValueView>) -> bool {
    forall|i: int| 0 <= i < items.len() ==> plain_difference(#[trigger] items[i])
}

/// Whether the differences of an encoding, if any, are plain.
pub open spec fn plain_differences(t: document::TableView, o: Option<ValueView>) -> bool {
    match o {
        None => true,
        Some(o) => match target(t, o) {
            ValueView::Array(items) => plain_items(items),
            _ => false,
        },
    }
}

/// Whether an encoding starts from one that a viewer knows, if it says.
pub open spec fn plain_base(o: Option<ValueView>) -> bool {
    match o {
        None => true,
        Some(ValueView::Name(n)) => Base::named(n) is Some,
        Some(_) => false,
    }
}

/// Whether a viewer knows every name of an encoding dictionary.
pub open spec fn plain_encoding(t: document::TableView, d: object::DictView) -> bool {
    plain_base(object::lookup(d, bytes::text("BaseEncoding"@))) && plain_differences(
        t,
        object::lookup(d, bytes::text("Differences"@)),
    )
}

/// The symbolic flag of a font descriptor.
pub open spec fn symbolic(descriptor: object::DictView) -> bool {
    match object::lookup(descriptor, bytes::text("Flags"@)) {
        Some(ValueView::Integer(f)) => f & 4 != 0,
        _ => false,
    }
}

/// Whether the codes of a standard font are defined without its program.
pub open spec fn trusted_encoding(
    t: document::TableView,
    family: Family,
    encoding: Option<ValueView>,
    symbolic: bool,
) -> bool {
    if family == Family::Symbol || family == Family::ZapfDingbats {
        encoding is None
    } else {
        match encoding {
            None => !symbolic,
            Some(o) => match target(t, o) {
                ValueView::Name(n) => Base::named(n) is Some,
                ValueView::Dictionary(d) => plain_encoding(t, d),
                _ => false,
            },
        }
    }
}

/// The standard font that can stand in for a font's program.
pub open spec fn replacement(
    t: document::TableView,
    font: object::DictView,
    descriptor: object::DictView,
) -> Option<Seq<char>> {
    match object::lookup(font, bytes::text("BaseFont"@)) {
        Some(ValueView::Name(n)) => match recognized(n) {
            Some((family, bold, italic)) => if trusted_encoding(
                t,
                family,
                object::lookup(font, bytes::text("Encoding"@)),
                symbolic(descriptor),
            ) {
                standard_name(family, bold, italic)
            } else {
                None
            },
            None => None,
        },
        _ => None,
    }
}

fn deref<'a>(doc: &'a Pdf, o: &'a Value) -> (r: &'a Value)
    requires
        doc.wf(),
    ensures
        r@ == target(doc@.objects, o@),
{
    match doc.dereference(o) {
        Some(v) => v,
        None => o,
    }
}

fn encoding_dict_is_plain(doc: &Pdf, dict: &Dict) -> (r: bool)
    requires
        doc.wf(),
    ensures
        r == plain_encoding(doc@.objects, dict@),
{
    match dict.get("BaseEncoding".as_bytes()) {
        Some(base) => match base.as_name() {
            Some(n) => {
                if Base::from_name(n).is_none() {
                    return false;
                }
            },
            None => {
                return false;
            },
        },
        None => {},
    }
    let differences = match dict.get("Differences".as_bytes()) {
        Some(d) => deref(doc, d),
        None => {
            return true;
        },
    };
    let items = match differences.as_array() {
        Some(items) => items,
        None => {
            return false;
        },
    };
    let ghost view = object::objects_view(items@);
    let mut i: usize = 0;
    while i < items.len()
        invariant
            i <= items@.len(),
            view == object::objects_view(items@),
            target(
                doc@.objects,
                object::lookup(dict@, bytes::text("Differences"@))->0,
            ) == ValueView::Array(view),
            object::lookup(dict@, bytes::text("Differences"@)) is Some,
            forall|k: int| 0 <= k < i ==> plain_difference(#[trigger] view[k]),
        decreases items@.len() - i,
    {
        let item = &items[i];
        assert(view[i as int] == item@);
        let plain = match item {
            Value::Integer(_) => true,
            Value::Name(n) => programs::unicode(n).is_some(),
            _ => false,
        };
        if !plain {
            assert(i < view.len() && !plain_difference(view[i as int]));
            assert(!plain_items(view));
            return false;
        }
        i += 1;
    }
    true
}

fn is_symbolic(descriptor: &Dict) -> (r: bool)
    ensures
        r == symbolic(descriptor@),
{
    match descriptor.get("Flags".as_bytes()) {
        Some(f) => match f.as_i64() {
            Some(f) => f & 4 != 0,
            None => false,
        },
        None => false,
    }
}

/// Whether a simple font can lose its program: its name is a standard
/// font and the codes it uses are defined without it. Text fonts need an
/// encoding the viewer understands (a standard encoding name, or a
/// dictionary whose differences use known glyph names) or a non-symbolic
/// descriptor so the standard encoding applies; Symbol and ZapfDingbats
/// need their built-in encoding, so they may carry no `Encoding`.
pub fn can_unembed(doc: &Pdf, font: &Dict, descriptor: &Dict) -> (r: Option<&'static str>)
    requires
        doc.wf(),
    ensures
        name_chars(r) == replacement(doc@.objects, font@, descriptor@),
{
    let base = match font.get("BaseFont".as_bytes()) {
        Some(o) => match o.as_name() {
            Some(n) => n,
            None => {
                return None;
            },
        },
        None => {
            return None;
        },
    };
    let (family, bold, italic) = recognize(base)?;
    let encoding = font.get("Encoding".as_bytes());
    let trusted = if family == Family::Symbol || family == Family::ZapfDingbats {
        encoding.is_none()
    } else {
        match encoding {
            None => !is_symbolic(descriptor),
            Some(o) => match deref(doc, o) {
                Value::Name(n) => Base::from_name(n).is_some(),
                Value::Dictionary(d) => encoding_dict_is_plain(doc, d),
                _ => false,
            },
        }
    };
    if trusted {
        name_of(family, bold, italic)
    } else {
        None
    }
}

// ------------------------------------------------------------- laws

/// The bytes of a name that are no separators.
pub open spec fn letters(s: Seq<u8>) -> Seq<u8> {
    s.filter(|b: u8| !separator(b))
}

/// Whether two names are the same but for the case of letters and where
/// separators stand.
pub open spec fn same_letters(a: Seq<u8>, b: Seq<u8>) -> bool {
    letters(a).len() == letters(b).len() && forall|i: int|
        0 <= i < letters(a).len() ==> lower(#[trigger] letters(a)[i]) == lower(letters(b)[i])
}

proof fn lemma_folded(s: Seq<u8>, n: int)
    requires
        0 <= n <= s.len(),
    ensures
        folded(s, n) == letters(s.take(n)).map_values(|b: u8| lower(b)),
    decreases n,
{
    let keep = |b: u8| !separator(b);
    if n > 0 {
        lemma_folded(s, n - 1);
        assert(s.take(n) =~= s.take(n - 1).push(s[n - 1]));
        s.take(n - 1).lemma_filter_push(s[n - 1], keep);
        assert(folded(s, n) =~= letters(s.take(n)).map_values(|b: u8| lower(b)));
    } else {
        reveal(Seq::filter);
        assert(folded(s, n) =~= letters(s.take(n)).map_values(|b: u8| lower(b)));
    }
}

proof fn lemma_no_plus(s: Seq<u8>, i: int)
    requires
        0 <= i,
        forall|k: int| 0 <= k < s.len() ==> #[trigger] s[k] != '+' as u8,
    ensures
        plus_at(s, i) is None,
    decreases s.len() - i,
{
    if i < s.len() {
        lemma_no_plus(s, i + 1);
    }
}

/// Neither case nor separators matter to the standard font that a name without
/// a `+` stands for.
pub proof fn case_and_separators_do_not_matter(a: Seq<u8>, b: Seq<u8>)
    requires
        forall|k: int| 0 <= k < a.len() ==> #[trigger] a[k] != '+' as u8,
        forall|k: int| 0 <= k < b.len() ==> #[trigger] b[k] != '+' as u8,
        same_letters(a, b),
    ensures
        canonical(a) == canonical(b),
{
    lemma_no_plus(a, 0);
    lemma_no_plus(b, 0);
    lemma_folded(a, a.len() as int);
    lemma_folded(b, b.len() as int);
    assert(a.take(a.len() as int) =~= a);
    assert(b.take(b.len() as int) =~= b);
    assert(folded(a, a.len() as int) =~= folded(b, b.len() as int));
}

/// A subset tag does not matter to the standard font that a name stands for.
pub proof fn subset_tags_do_not_matter(tag: Seq<u8>, name: Seq<u8>)
    requires
        tag.len() == 6,
        six_capitals(tag),
        forall|k: int| 0 <= k < name.len() ==> #[trigger] name[k] != '+' as u8,
    ensures
        canonical(tag.push('+' as u8) + name) == canonical(name),
{
    let s = tag.push('+' as u8) + name;
    lemma_no_plus(name, 0);
    assert forall|i: int| 0 <= i < 6 implies 'A' as u8 <= #[trigger] s[i] <= 'Z' as u8 by {
        assert(s[i] == tag[i]);
    }
    assert(s[6] == '+' as u8);
    reveal_with_fuel(plus_at, 8);
    assert(plus_at(s, 0) == Some(6int));
    assert(s.skip(7) =~= name);
}

proof fn lemma_folded_parts(a: Seq<u8>, b: Seq<u8>, n: int)
    requires
        0 <= n <= b.len(),
    ensures
        folded(a + b, a.len() + n) == folded(a, a.len() as int) + folded(b, n),
    decreases n,
{
    if n > 0 {
        lemma_folded_parts(a, b, n - 1);
        assert((a + b)[a.len() + n - 1] == b[n - 1]);
        assert(folded(a + b, a.len() + n) =~= folded(a, a.len() as int) + folded(b, n));
    } else {
        lemma_folded_front(a, b, a.len() as int);
        assert(folded(a, a.len() as int) + folded(b, 0) =~= folded(a, a.len() as int));
    }
}

proof fn lemma_folded_front(a: Seq<u8>, b: Seq<u8>, n: int)
    requires
        0 <= n <= a.len(),
    ensures
        folded(a + b, n) == folded(a, n),
    decreases n,
{
    if n > 0 {
        lemma_folded_front(a, b, n - 1);
        assert((a + b)[n - 1] == a[n - 1]);
    }
}

/// A word without separators folds to the word in lower case.
proof fn lemma_word(word: Seq<char>, low: Seq<char>, n: int)
    requires
        vstd::utf8::is_ascii_chars(word),
        vstd::utf8::is_ascii_chars(low),
        word.len() == low.len(),
        0 <= n <= word.len(),
        forall|i: int|
            0 <= i < word.len() ==> !separator(#[trigger] word[i] as u8) && lower(word[i] as u8)
                == low[i] as u8,
    ensures
        bytes::text(word).len() == word.len(),
        folded(bytes::text(word), n) == bytes::text(low).take(n),
    decreases n,
{
    vstd::utf8::is_ascii_chars_encode_utf8(word);
    vstd::utf8::is_ascii_chars_encode_utf8(low);
    if n > 0 {
        lemma_word(word, low, n - 1);
        assert(bytes::text(word)[n - 1] == word[n - 1] as u8);
        assert(bytes::text(low)[n - 1] == low[n - 1] as u8);
    }
    assert(folded(bytes::text(word), n) =~= bytes::text(low).take(n));
}

/// Plain words, put together, have their bytes put together.
proof fn lemma_text_parts(a: Seq<char>, b: Seq<char>)
    requires
        vstd::utf8::is_ascii_chars(a),
        vstd::utf8::is_ascii_chars(b),
    ensures
        vstd::utf8::is_ascii_chars(a + b),
        bytes::text(a + b) == bytes::text(a) + bytes::text(b),
{
    assert forall|i: int| 0 <= i < (a + b).len() implies '\u{0}' <= #[trigger] (a + b)[i]
        <= '\u{7f}' by {
        if i < a.len() {
            assert((a + b)[i] == a[i]);
        } else {
            assert((a + b)[i] == b[i - a.len()]);
        }
    }
    vstd::utf8::is_ascii_chars_encode_utf8(a);
    vstd::utf8::is_ascii_chars_encode_utf8(b);
    vstd::utf8::is_ascii_chars_encode_utf8(a + b);
    assert(bytes::text(a + b) =~= bytes::text(a) + bytes::text(b));
}

/// A word that starts with another byte is not taken off.
proof fn lemma_other_start(s: Seq<u8>, prefix: Seq<char>, i: int)
    requires
        vstd::utf8::is_ascii_chars(prefix),
        0 <= i < prefix.len(),
        s.len() <= i || s[i] != prefix[i] as u8,
    ensures
        stripped(s, prefix) is None,
{
    vstd::utf8::is_ascii_chars_encode_utf8(prefix);
    let p = bytes::text(prefix);
    if p.len() <= s.len() && s.take(p.len() as int) == p {
        assert(s.take(p.len() as int)[i] == s[i]);
        assert(p[i] == prefix[i] as u8);
    }
}

/// A word in front is taken off.
proof fn lemma_taken_off(prefix: Seq<char>, rest: Seq<u8>)
    requires
        vstd::utf8::is_ascii_chars(prefix),
        prefix.len() > 0,
    ensures
        stripped(bytes::text(prefix) + rest, prefix) == Some(rest),
{
    vstd::utf8::is_ascii_chars_encode_utf8(prefix);
    let p = bytes::text(prefix);
    assert((p + rest).take(p.len() as int) =~= p);
    assert((p + rest).skip(p.len() as int) =~= rest);
}

proof fn lemma_helvetica()
    ensures
        vstd::utf8::is_ascii_chars("Helvetica"@),
        vstd::utf8::is_ascii_chars("helvetica"@),
        "helvetica"@.len() == 9,
        bytes::text("Helvetica"@).len() == 9,
        bytes::text("helvetica"@)[0] == 'h' as u8,
        folded(bytes::text("Helvetica"@), 9) == bytes::text("helvetica"@),
{
    reveal_strlit("Helvetica");
    reveal_strlit("helvetica");
    vstd::utf8::is_ascii_chars_encode_utf8("helvetica"@);
    lemma_word("Helvetica"@, "helvetica"@, 9);
    assert(bytes::text("helvetica"@).take(9) =~= bytes::text("helvetica"@));
}

proof fn lemma_courier()
    ensures
        vstd::utf8::is_ascii_chars("Courier"@),
        vstd::utf8::is_ascii_chars("courier"@),
        "courier"@.len() == 7,
        bytes::text("Courier"@).len() == 7,
        bytes::text("courier"@).len() == 7,
        bytes::text("courier"@)[0] == 'c' as u8,
        folded(bytes::text("Courier"@), 7) == bytes::text("courier"@),
{
    reveal_strlit("Courier");
    reveal_strlit("courier");
    vstd::utf8::is_ascii_chars_encode_utf8("courier"@);
    lemma_word("Courier"@, "courier"@, 7);
    assert(bytes::text("courier"@).take(7) =~= bytes::text("courier"@));
}

proof fn lemma_times()
    ensures
        vstd::utf8::is_ascii_chars("Times"@),
        vstd::utf8::is_ascii_chars("times"@),
        "times"@.len() == 5,
        bytes::text("Times"@).len() == 5,
        bytes::text("times"@).len() == 5,
        bytes::text("times"@)[0] == 't' as u8,
        folded(bytes::text("Times"@), 5) == bytes::text("times"@),
{
    reveal_strlit("Times");
    reveal_strlit("times");
    vstd::utf8::is_ascii_chars_encode_utf8("times"@);
    lemma_word("Times"@, "times"@, 5);
    assert(bytes::text("times"@).take(5) =~= bytes::text("times"@));
}

proof fn lemma_symbol()
    ensures
        vstd::utf8::is_ascii_chars("Symbol"@),
        vstd::utf8::is_ascii_chars("symbol"@),
        "symbol"@.len() == 6,
        bytes::text("Symbol"@).len() == 6,
        bytes::text("symbol"@)[0] == 's' as u8,
        folded(bytes::text("Symbol"@), 6) == bytes::text("symbol"@),
{
    reveal_strlit("Symbol");
    reveal_strlit("symbol");
    vstd::utf8::is_ascii_chars_encode_utf8("symbol"@);
    lemma_word("Symbol"@, "symbol"@, 6);
    assert(bytes::text("symbol"@).take(6) =~= bytes::text("symbol"@));
}

proof fn lemma_zapfdingbats()
    ensures
        vstd::utf8::is_ascii_chars("ZapfDingbats"@),
        vstd::utf8::is_ascii_chars("zapfdingbats"@),
        "zapfdingbats"@.len() == 12,
        bytes::text("ZapfDingbats"@).len() == 12,
        bytes::text("zapfdingbats"@)[0] == 'z' as u8,
        folded(bytes::text("ZapfDingbats"@), 12) == bytes::text("zapfdingbats"@),
{
    reveal_strlit("ZapfDingbats");
    reveal_strlit("zapfdingbats");
    vstd::utf8::is_ascii_chars_encode_utf8("zapfdingbats"@);
    lemma_word("ZapfDingbats"@, "zapfdingbats"@, 12);
    assert(bytes::text("zapfdingbats"@).take(12) =~= bytes::text("zapfdingbats"@));
}

proof fn lemma_bold()
    ensures
        vstd::utf8::is_ascii_chars("Bold"@),
        vstd::utf8::is_ascii_chars("bold"@),
        "bold"@.len() == 4,
        bytes::text("Bold"@).len() == 4,
        bytes::text("bold"@)[0] == 'b' as u8,
        folded(bytes::text("Bold"@), 4) == bytes::text("bold"@),
{
    reveal_strlit("Bold");
    reveal_strlit("bold");
    vstd::utf8::is_ascii_chars_encode_utf8("bold"@);
    lemma_word("Bold"@, "bold"@, 4);
    assert(bytes::text("bold"@).take(4) =~= bytes::text("bold"@));
}

proof fn lemma_oblique()
    ensures
        vstd::utf8::is_ascii_chars("Oblique"@),
        vstd::utf8::is_ascii_chars("oblique"@),
        "oblique"@.len() == 7,
        bytes::text("Oblique"@).len() == 7,
        bytes::text("oblique"@)[0] == 'o' as u8,
        folded(bytes::text("Oblique"@), 7) == bytes::text("oblique"@),
{
    reveal_strlit("Oblique");
    reveal_strlit("oblique");
    vstd::utf8::is_ascii_chars_encode_utf8("oblique"@);
    lemma_word("Oblique"@, "oblique"@, 7);
    assert(bytes::text("oblique"@).take(7) =~= bytes::text("oblique"@));
}

proof fn lemma_italic()
    ensures
        vstd::utf8::is_ascii_chars("Italic"@),
        vstd::utf8::is_ascii_chars("italic"@),
        "italic"@.len() == 6,
        bytes::text("Italic"@).len() == 6,
        bytes::text("italic"@)[0] == 'i' as u8,
        folded(bytes::text("Italic"@), 6) == bytes::text("italic"@),
{
    reveal_strlit("Italic");
    reveal_strlit("italic");
    vstd::utf8::is_ascii_chars_encode_utf8("italic"@);
    lemma_word("Italic"@, "italic"@, 6);
    assert(bytes::text("italic"@).take(6) =~= bytes::text("italic"@));
}

proof fn lemma_roman()
    ensures
        vstd::utf8::is_ascii_chars("Roman"@),
        vstd::utf8::is_ascii_chars("roman"@),
        "roman"@.len() == 5,
        bytes::text("Roman"@).len() == 5,
        bytes::text("roman"@)[0] == 'r' as u8,
        folded(bytes::text("Roman"@), 5) == bytes::text("roman"@),
{
    reveal_strlit("Roman");
    reveal_strlit("roman");
    vstd::utf8::is_ascii_chars_encode_utf8("roman"@);
    lemma_word("Roman"@, "roman"@, 5);
    assert(bytes::text("roman"@).take(5) =~= bytes::text("roman"@));
}

proof fn lemma_bold_style(rest: Seq<u8>, bold: bool, italic: bool)
    ensures
        style_from(bytes::text("bold"@) + rest, bold, italic) == style_from(rest, true, italic),
{
    lemma_bold();
    lemma_taken_off("bold"@, rest);
}

proof fn lemma_oblique_style(rest: Seq<u8>, bold: bool, italic: bool)
    ensures
        style_from(bytes::text("oblique"@) + rest, bold, italic) == style_from(rest, bold, true),
{
    reveal_strlit("bold");
    reveal_strlit("italic");
    lemma_oblique();
    let s = bytes::text("oblique"@) + rest;
    lemma_other_start(s, "bold"@, 0);
    lemma_other_start(s, "italic"@, 0);
    lemma_taken_off("oblique"@, rest);
}

proof fn lemma_italic_style(rest: Seq<u8>, bold: bool, italic: bool)
    ensures
        style_from(bytes::text("italic"@) + rest, bold, italic) == style_from(rest, bold, true),
{
    reveal_strlit("bold");
    lemma_italic();
    let s = bytes::text("italic"@) + rest;
    lemma_other_start(s, "bold"@, 0);
    lemma_taken_off("italic"@, rest);
}

proof fn lemma_roman_style(rest: Seq<u8>, bold: bool, italic: bool)
    ensures
        style_from(bytes::text("roman"@) + rest, bold, italic) == style_from(rest, bold, italic),
{
    reveal_strlit("bold");
    reveal_strlit("italic");
    reveal_strlit("oblique");
    reveal_strlit("psmt");
    reveal_strlit("mt");
    reveal_strlit("ps");
    reveal_strlit("regular");
    reveal_strlit("roman");
    lemma_roman();
    vstd::utf8::is_ascii_chars_encode_utf8("roman"@);
    let s = bytes::text("roman"@) + rest;
    assert(s[1] == bytes::text("roman"@)[1]);
    assert("roman"@[1] == 'o');
    lemma_other_start(s, "bold"@, 0);
    lemma_other_start(s, "italic"@, 0);
    lemma_other_start(s, "oblique"@, 0);
    lemma_other_start(s, "psmt"@, 0);
    lemma_other_start(s, "mt"@, 0);
    lemma_other_start(s, "ps"@, 0);
    lemma_other_start(s, "regular"@, 1);
    lemma_taken_off("roman"@, rest);
}

/// What starts with another byte is not the one family that has to match whole.
proof fn lemma_not_symbol(s: Seq<u8>)
    requires
        s.len() > 0,
        s[0] != 's' as u8,
    ensures
        s != bytes::text("symbol"@),
{
    lemma_symbol();
}

proof fn lemma_helvetica_family(rest: Seq<u8>)
    ensures
        family_of(bytes::text("helvetica"@) + rest) == Some((Family::Helvetica, rest)),
{
    lemma_helvetica();
    lemma_not_symbol(bytes::text("helvetica"@) + rest);
    lemma_taken_off("helvetica"@, rest);
}

proof fn lemma_courier_family(rest: Seq<u8>)
    requires
        rest.len() == 0 || rest[0] != 'n' as u8,
    ensures
        family_of(bytes::text("courier"@) + rest) == Some((Family::Courier, rest)),
{
    reveal_strlit("helvetica");
    reveal_strlit("arial");
    reveal_strlit("couriernew");
    lemma_courier();
    let s = bytes::text("courier"@) + rest;
    lemma_not_symbol(s);
    assert(s.len() > 7 ==> s[7] == rest[0]);
    lemma_other_start(s, "helvetica"@, 0);
    lemma_other_start(s, "arial"@, 0);
    lemma_other_start(s, "couriernew"@, 7);
    lemma_taken_off("courier"@, rest);
}

proof fn lemma_times_family(rest: Seq<u8>)
    requires
        rest.len() == 0 || rest[0] != 'n' as u8,
    ensures
        family_of(bytes::text("times"@) + rest) == Some((Family::Times, rest)),
{
    reveal_strlit("helvetica");
    reveal_strlit("arial");
    reveal_strlit("couriernew");
    reveal_strlit("courier");
    reveal_strlit("timesnewroman");
    lemma_times();
    let s = bytes::text("times"@) + rest;
    lemma_not_symbol(s);
    assert(s.len() > 5 ==> s[5] == rest[0]);
    lemma_other_start(s, "helvetica"@, 0);
    lemma_other_start(s, "arial"@, 0);
    lemma_other_start(s, "couriernew"@, 0);
    lemma_other_start(s, "courier"@, 0);
    lemma_other_start(s, "timesnewroman"@, 5);
    lemma_taken_off("times"@, rest);
}

proof fn lemma_zapfdingbats_family()
    ensures
        family_of(bytes::text("zapfdingbats"@)) == Some((Family::ZapfDingbats, Seq::<u8>::empty())),
{
    reveal_strlit("helvetica");
    reveal_strlit("arial");
    reveal_strlit("couriernew");
    reveal_strlit("courier");
    reveal_strlit("timesnewroman");
    reveal_strlit("times");
    lemma_zapfdingbats();
    let s = bytes::text("zapfdingbats"@);
    lemma_not_symbol(s);
    lemma_other_start(s, "helvetica"@, 0);
    lemma_other_start(s, "arial"@, 0);
    lemma_other_start(s, "couriernew"@, 0);
    lemma_other_start(s, "courier"@, 0);
    lemma_other_start(s, "timesnewroman"@, 0);
    lemma_other_start(s, "times"@, 0);
    lemma_taken_off("zapfdingbats"@, Seq::empty());
    assert(s + Seq::<u8>::empty() =~= s);
}

/// A plain word has no subset tag.
proof fn lemma_untagged(name: Seq<char>)
    requires
        vstd::utf8::is_ascii_chars(name),
        forall|k: int| 0 <= k < name.len() ==> #[trigger] name[k] != '+',
    ensures
        untagged(bytes::text(name)) == bytes::text(name),
{
    vstd::utf8::is_ascii_chars_encode_utf8(name);
    assert forall|k: int| 0 <= k < bytes::text(name).len() implies #[trigger] bytes::text(name)[k]
        != '+' as u8 by {
        assert(name[k] != '+');
    }
    lemma_no_plus(bytes::text(name), 0);
}

/// A dash between two words is folded away.
proof fn lemma_dashed(front: Seq<char>, back: Seq<char>, low: Seq<u8>, rest: Seq<u8>)
    requires
        vstd::utf8::is_ascii_chars(front),
        vstd::utf8::is_ascii_chars(back),
        folded(bytes::text(front), front.len() as int) == low,
        folded(bytes::text(back), back.len() as int) == rest,
    ensures
        ({
            let s = bytes::text(front + "-"@ + back);
            folded(s, s.len() as int) == low + rest
        }),
{
    reveal_strlit("-");
    lemma_text_parts(front, "-"@);
    lemma_text_parts(front + "-"@, back);
    vstd::utf8::is_ascii_chars_encode_utf8(front);
    vstd::utf8::is_ascii_chars_encode_utf8("-"@);
    vstd::utf8::is_ascii_chars_encode_utf8(back);
    let (f, d, b) = (bytes::text(front), bytes::text("-"@), bytes::text(back));
    lemma_folded_parts(f + d, b, b.len() as int);
    lemma_folded_parts(f, d, 1);
    assert("-"@[0] == '-');
    assert(folded(d, 1) =~= Seq::empty()) by {
        reveal_with_fuel(folded, 2);
        assert(separator(d[0]));
    }
    assert(low + Seq::<u8>::empty() =~= low);
    assert(f + d + b =~= bytes::text(front + "-"@ + back));
}

/// Two words without a dash are folded one by one.
proof fn lemma_joined(front: Seq<char>, back: Seq<char>, low: Seq<u8>, rest: Seq<u8>)
    requires
        vstd::utf8::is_ascii_chars(front),
        vstd::utf8::is_ascii_chars(back),
        folded(bytes::text(front), front.len() as int) == low,
        folded(bytes::text(back), back.len() as int) == rest,
    ensures
        vstd::utf8::is_ascii_chars(front + back),
        folded(bytes::text(front + back), (front + back).len() as int) == low + rest,
{
    lemma_text_parts(front, back);
    vstd::utf8::is_ascii_chars_encode_utf8(front);
    vstd::utf8::is_ascii_chars_encode_utf8(back);
    lemma_folded_parts(bytes::text(front), bytes::text(back), back.len() as int);
}

proof fn lemma_own_helvetica(bold: bool, italic: bool)
    ensures
        recognized(bytes::text(standard_name(Family::Helvetica, bold, italic)->0)) == Some(
            (Family::Helvetica, bold, italic),
        ),
{
    lemma_helvetica();
    lemma_bold();
    lemma_oblique();
    let empty = Seq::<u8>::empty();
    let low = bytes::text("helvetica"@);
    let both = bytes::text("bold"@) + bytes::text("oblique"@);
    assert(bytes::text("bold"@) + empty =~= bytes::text("bold"@));
    assert(bytes::text("oblique"@) + empty =~= bytes::text("oblique"@));
    reveal_strlit("Helvetica");
    reveal_strlit("-");
    reveal_strlit("Bold");
    reveal_strlit("Oblique");
    if bold && italic {
        reveal_strlit("Helvetica-BoldOblique");
        assert("Helvetica-BoldOblique"@ =~= "Helvetica"@ + "-"@ + ("Bold"@ + "Oblique"@));
        lemma_untagged("Helvetica-BoldOblique"@);
        lemma_joined("Bold"@, "Oblique"@, bytes::text("bold"@), bytes::text("oblique"@));
        lemma_dashed("Helvetica"@, "Bold"@ + "Oblique"@, low, both);
        lemma_helvetica_family(both);
        lemma_bold_style(bytes::text("oblique"@), false, false);
        lemma_oblique_style(empty, true, false);
    } else if bold {
        reveal_strlit("Helvetica-Bold");
        assert("Helvetica-Bold"@ =~= "Helvetica"@ + "-"@ + "Bold"@);
        lemma_untagged("Helvetica-Bold"@);
        lemma_dashed("Helvetica"@, "Bold"@, low, bytes::text("bold"@));
        lemma_helvetica_family(bytes::text("bold"@));
        lemma_bold_style(empty, false, false);
    } else if italic {
        reveal_strlit("Helvetica-Oblique");
        assert("Helvetica-Oblique"@ =~= "Helvetica"@ + "-"@ + "Oblique"@);
        lemma_untagged("Helvetica-Oblique"@);
        lemma_dashed("Helvetica"@, "Oblique"@, low, bytes::text("oblique"@));
        lemma_helvetica_family(bytes::text("oblique"@));
        lemma_oblique_style(empty, false, false);
    } else {
        lemma_untagged("Helvetica"@);
        lemma_helvetica_family(empty);
        assert(low + empty =~= low);
    }
}

proof fn lemma_own_courier(bold: bool, italic: bool)
    ensures
        recognized(bytes::text(standard_name(Family::Courier, bold, italic)->0)) == Some(
            (Family::Courier, bold, italic),
        ),
{
    lemma_courier();
    lemma_bold();
    lemma_oblique();
    let empty = Seq::<u8>::empty();
    let low = bytes::text("courier"@);
    let both = bytes::text("bold"@) + bytes::text("oblique"@);
    assert(bytes::text("bold"@) + empty =~= bytes::text("bold"@));
    assert(bytes::text("oblique"@) + empty =~= bytes::text("oblique"@));
    reveal_strlit("Courier");
    reveal_strlit("-");
    reveal_strlit("Bold");
    reveal_strlit("Oblique");
    if bold && italic {
        reveal_strlit("Courier-BoldOblique");
        assert("Courier-BoldOblique"@ =~= "Courier"@ + "-"@ + ("Bold"@ + "Oblique"@));
        lemma_untagged("Courier-BoldOblique"@);
        lemma_joined("Bold"@, "Oblique"@, bytes::text("bold"@), bytes::text("oblique"@));
        lemma_dashed("Courier"@, "Bold"@ + "Oblique"@, low, both);
        lemma_courier_family(both);
        lemma_bold_style(bytes::text("oblique"@), false, false);
        lemma_oblique_style(empty, true, false);
    } else if bold {
        reveal_strlit("Courier-Bold");
        assert("Courier-Bold"@ =~= "Courier"@ + "-"@ + "Bold"@);
        lemma_untagged("Courier-Bold"@);
        lemma_dashed("Courier"@, "Bold"@, low, bytes::text("bold"@));
        lemma_courier_family(bytes::text("bold"@));
        lemma_bold_style(empty, false, false);
    } else if italic {
        reveal_strlit("Courier-Oblique");
        assert("Courier-Oblique"@ =~= "Courier"@ + "-"@ + "Oblique"@);
        lemma_untagged("Courier-Oblique"@);
        lemma_dashed("Courier"@, "Oblique"@, low, bytes::text("oblique"@));
        lemma_courier_family(bytes::text("oblique"@));
        lemma_oblique_style(empty, false, false);
    } else {
        lemma_untagged("Courier"@);
        lemma_courier_family(empty);
        assert(low + empty =~= low);
    }
}

proof fn lemma_own_times(bold: bool, italic: bool)
    ensures
        recognized(bytes::text(standard_name(Family::Times, bold, italic)->0)) == Some(
            (Family::Times, bold, italic),
        ),
{
    lemma_times();
    lemma_bold();
    lemma_italic();
    let empty = Seq::<u8>::empty();
    let low = bytes::text("times"@);
    let both = bytes::text("bold"@) + bytes::text("italic"@);
    assert(bytes::text("bold"@) + empty =~= bytes::text("bold"@));
    assert(bytes::text("italic"@) + empty =~= bytes::text("italic"@));
    reveal_strlit("Times");
    reveal_strlit("-");
    reveal_strlit("Bold");
    reveal_strlit("Italic");
    if bold && italic {
        reveal_strlit("Times-BoldItalic");
        assert("Times-BoldItalic"@ =~= "Times"@ + "-"@ + ("Bold"@ + "Italic"@));
        lemma_untagged("Times-BoldItalic"@);
        lemma_joined("Bold"@, "Italic"@, bytes::text("bold"@), bytes::text("italic"@));
        lemma_dashed("Times"@, "Bold"@ + "Italic"@, low, both);
        lemma_times_family(both);
        lemma_bold_style(bytes::text("italic"@), false, false);
        lemma_italic_style(empty, true, false);
    } else if bold {
        reveal_strlit("Times-Bold");
        assert("Times-Bold"@ =~= "Times"@ + "-"@ + "Bold"@);
        lemma_untagged("Times-Bold"@);
        lemma_dashed("Times"@, "Bold"@, low, bytes::text("bold"@));
        lemma_times_family(bytes::text("bold"@));
        lemma_bold_style(empty, false, false);
    } else if italic {
        reveal_strlit("Times-Italic");
        assert("Times-Italic"@ =~= "Times"@ + "-"@ + "Italic"@);
        lemma_untagged("Times-Italic"@);
        lemma_dashed("Times"@, "Italic"@, low, bytes::text("italic"@));
        lemma_times_family(bytes::text("italic"@));
        lemma_italic_style(empty, false, false);
    } else {
        lemma_roman();
        reveal_strlit("Roman");
        reveal_strlit("Times-Roman");
        assert("Times-Roman"@ =~= "Times"@ + "-"@ + "Roman"@);
        lemma_untagged("Times-Roman"@);
        lemma_dashed("Times"@, "Roman"@, low, bytes::text("roman"@));
        lemma_times_family(bytes::text("roman"@));
        assert(bytes::text("roman"@) + empty =~= bytes::text("roman"@));
        lemma_roman_style(empty, false, false);
    }
}

/// A standard name stands for itself.
pub proof fn standard_names_are_their_own(family: Family, bold: bool, italic: bool)
    requires
        standard_name(family, bold, italic) is Some,
    ensures
        canonical(bytes::text(standard_name(family, bold, italic)->0)) == standard_name(
            family,
            bold,
            italic,
        ),
{
    match family {
        Family::Helvetica => lemma_own_helvetica(bold, italic),
        Family::Courier => lemma_own_courier(bold, italic),
        Family::Times => lemma_own_times(bold, italic),
        Family::Symbol => {
            reveal_strlit("Symbol");
            lemma_symbol();
            lemma_untagged("Symbol"@);
        },
        Family::ZapfDingbats => {
            reveal_strlit("ZapfDingbats");
            lemma_zapfdingbats();
            lemma_untagged("ZapfDingbats"@);
            lemma_zapfdingbats_family();
        },
    }
}

/// The standard font that a name stands for stands for itself.
pub proof fn canonical_names_are_their_own(base_font: Seq<u8>)
    requires
        canonical(base_font) is Some,
    ensures
        canonical(bytes::text(canonical(base_font)->0)) == canonical(base_font),
{
    let (family, bold, italic) = recognized(base_font)->0;
    standard_names_are_their_own(family, bold, italic);
}

/// A font is symbolic where the third flag of its descriptor is set.
pub proof fn the_third_flag_is_symbolic(descriptor: object::DictView, flags: i64)
    requires
        object::lookup(descriptor, bytes::text("Flags"@)) == Some(ValueView::Integer(flags)),
        0 <= flags,
    ensures
        symbolic(descriptor) <==> flags as int / 4 % 2 == 1,
{
    assert((flags & 4 != 0) == (flags / 4 % 2 == 1)) by (bit_vector)
        requires
            0 <= flags,
    ;
}

/// A font of letters is trusted without an encoding unless it is symbolic, and
/// with one that is known by name; the two symbol fonts only without any.
pub proof fn encodings_are_trusted_by_family(
    t: document::TableView,
    family: Family,
    n: Seq<u8>,
    symbolic: bool,
)
    requires
        target(t, ValueView::Name(n)) == ValueView::Name(n),
    ensures
        family == Family::Symbol || family == Family::ZapfDingbats ==> trusted_encoding(
            t,
            family,
            None,
            symbolic,
        ) && !trusted_encoding(t, family, Some(ValueView::Name(n)), symbolic),
        family == Family::Helvetica || family == Family::Courier || family == Family::Times ==> (
        trusted_encoding(t, family, None, symbolic) <==> !symbolic),
        family == Family::Helvetica || family == Family::Courier || family == Family::Times ==> (
        trusted_encoding(t, family, Some(ValueView::Name(n)), symbolic) <==> n == bytes::text(
            "StandardEncoding"@,
        ) || n == bytes::text("WinAnsiEncoding"@) || n == bytes::text("MacRomanEncoding"@)),
{
}

} // verus!
