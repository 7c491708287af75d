//! The boxes of a JP2 file: whether its palette and its depths can be resolved.
//!
//! A JPEG 2000 image is a codestream, alone or in a file of boxes. Its header
//! box may hold a palette, a mapping of components to palette columns, and a
//! color specification.
use vstd::prelude::*;

use crate::bytes;

verus! {

/// The type of the box that a JP2 file starts with: `jP` and two blanks.
pub const SIGNATURE: u32 = 0x6A50_2020;

/// The type of the box that holds the others on the image: `jp2h`.
pub const HEADER: u32 = 0x6A70_3268;

/// The type of the box that holds the codestream: `jp2c`.
pub const CODESTREAM: u32 = 0x6A70_3263;

/// The type of a palette box: `pclr`.
pub const PALETTE: u32 = 0x7063_6C72;

/// The type of a component mapping box: `cmap`.
pub const MAPPING: u32 = 0x636D_6170;

/// The type of a color specification box: `colr`.
pub const COLORS: u32 = 0x636F_6C72;

/// The number of the CIE L*a*b* space among the enumerated ones.
pub const LAB: u32 = 14;

/// The most bits that a palette column may have.
pub const DEEPEST: u8 = 31;

/// The most bits that a sample may have which is converted from L*a*b*.
pub const DEEPEST_LAB: u8 = 30;

/// Where contents of `n` bytes from `start` end: with what holds them at the
/// latest.
pub open spec fn clipped(start: int, n: int, end: int) -> int {
    if start + n <= end {
        start + n
    } else {
        end
    }
}

/// The box at a place in what ends at `end`: its type, and where its contents
/// start and end. A length of 0 reaches to the end, one of 1 says that the
/// length stands in the eight bytes after the type.
pub open spec fn box_at(s: Seq<u8>, at: int, end: int) -> Option<(int, int, int)> {
    if at + 8 > end {
        None
    } else {
        let length = bytes::read_be32(s, at);
        let kind = bytes::read_be32(s, at + 4);
        if length == 0 {
            Some((kind, at + 8, end))
        } else if length == 1 {
            if at + 16 > end {
                None
            } else {
                let long = bytes::read_be32(s, at + 8) * 0x1_0000_0000 + bytes::read_be32(
                    s,
                    at + 12,
                );
                if long < 16 {
                    None
                } else {
                    Some((kind, at + 16, clipped(at + 16, long - 16, end)))
                }
            }
        } else if length < 8 {
            None
        } else {
            Some((kind, at + 8, clipped(at + 8, length - 8, end)))
        }
    }
}

/// Where the contents of the boxes of a type start and end, of those that are
/// read one after the other from `from` to `end`.
pub open spec fn parts(s: Seq<u8>, from: int, end: int, kind: u32) -> Seq<(int, int)>
    decreases end - from,
{
    match box_at(s, from, end) {
        None => Seq::empty(),
        Some((k, start, next)) => if k == kind {
            seq![(start, next)] + parts(s, next, end, kind)
        } else {
            parts(s, next, end, kind)
        },
    }
}

/// Whether a color specification names the L*a*b* space.
pub open spec fn names_lab(s: Seq<u8>, part: (int, int)) -> bool {
    part.1 - part.0 >= 7 && s[part.0] == 1 && bytes::read_be32(s, part.0 + 3) == LAB
}

/// Whether no column of a palette has more than `most` bits.
pub open spec fn columns_fit(s: Seq<u8>, part: (int, int), most: u8) -> bool {
    part.1 - part.0 >= 3 ==> forall|i: int|
        part.0 + 3 <= i < part.1 && i < part.0 + 3 + s[part.0 + 2] ==> (#[trigger] s[i]) % 128
            < most
}

/// Whether no component of a codestream has more than `most` bits.
pub open spec fn components_fit(s: Seq<u8>, part: (int, int), most: u8) -> bool {
    part.1 - part.0 >= 42 ==> forall|c: int|
        0 <= c < bytes::read_be16(s, part.0 + 40) && part.0 + 42 + 3 * c < part.1 ==> (
        #[trigger] s[part.0 + 42 + 3 * c]) % 128 < most
}

/// Whether a color specification names the L*a*b* space.
pub open spec fn any_lab(s: Seq<u8>, colors: Seq<(int, int)>) -> bool {
    exists|i: int| 0 <= i < colors.len() && names_lab(s, #[trigger] colors[i])
}

/// Whether every mapping has an entry.
pub open spec fn all_mapped(mappings: Seq<(int, int)>) -> bool {
    forall|i: int| 0 <= i < mappings.len() ==> (#[trigger] mappings[i]).0 < mappings[i].1
}

/// Whether no column of the palettes has more than `most` bits.
pub open spec fn all_columns_fit(s: Seq<u8>, palettes: Seq<(int, int)>, most: u8) -> bool {
    forall|i: int| 0 <= i < palettes.len() ==> columns_fit(s, #[trigger] palettes[i], most)
}

/// Whether no component of the codestreams has more than `most` bits.
pub open spec fn all_components_fit(s: Seq<u8>, streams: Seq<(int, int)>, most: u8) -> bool {
    forall|i: int| 0 <= i < streams.len() ==> components_fit(s, #[trigger] streams[i], most)
}

/// Whether what a header box says of the colors can be resolved: a mapping
/// that stands beside a palette has an entry, no column is too deep, and where
/// the colors are L*a*b* no component is.
pub open spec fn header_resolves(s: Seq<u8>, part: (int, int), streams: Seq<(int, int)>) -> bool {
    let palettes = parts(s, part.0, part.1, PALETTE);
    let lab = any_lab(s, parts(s, part.0, part.1, COLORS));
    &&& palettes.len() > 0 ==> all_mapped(parts(s, part.0, part.1, MAPPING))
    &&& all_columns_fit(
        s,
        palettes,
        if lab {
            DEEPEST_LAB
        } else {
            DEEPEST
        },
    )
    &&& lab ==> all_components_fit(s, streams, DEEPEST_LAB)
}

/// Whether what a JPEG 2000 image says of its colors can be resolved. A bare
/// codestream has no palette.
pub open spec fn palette_resolves(data: Seq<u8>) -> bool {
    let headers = parts(data, 0, data.len() as int, HEADER);
    let streams = parts(data, 0, data.len() as int, CODESTREAM);
    is_jp2(data) ==> forall|i: int|
        0 <= i < headers.len() ==> header_resolves(data, #[trigger] headers[i], streams)
}

/// Whether data starts with the signature box of a JP2 file.
pub open spec fn is_jp2(data: Seq<u8>) -> bool {
    data.len() >= 8 && bytes::read_be32(data, 0) == 12 && bytes::read_be32(data, 4) == SIGNATURE
}

/// The box at a place.
fn find_box(s: &[u8], at: usize, end: usize) -> (r: Option<(u32, usize, usize)>)
    requires
        at <= end <= s.len(),
    ensures
        match r {
            Some((k, start, next)) => box_at(s@, at as int, end as int) == Some(
                (k as int, start as int, next as int),
            ) && at < next <= end && start <= next,
            None => box_at(s@, at as int, end as int) is None,
        },
{
    if end - at < 8 {
        return None;
    }
    let length = bytes::get_be32(s, at);
    let kind = bytes::get_be32(s, at + 4);
    if length == 0 {
        return Some((kind, at + 8, end));
    }
    if length == 1 {
        if end - at < 16 {
            return None;
        }
        let high = bytes::get_be32(s, at + 8);
        let low = bytes::get_be32(s, at + 12);
        let long: u64 = high as u64 * 0x1_0000_0000 + low as u64;
        if long < 16 {
            return None;
        }
        let left: usize = end - at - 16;
        if long - 16 <= left as u64 {
            return Some((kind, at + 16, at + 16 + (long - 16) as usize));
        }
        return Some((kind, at + 16, end));
    }
    if length < 8 {
        return None;
    }
    let left: usize = end - at - 8;
    if length as u64 - 8 <= left as u64 {
        Some((kind, at + 8, at + 8 + (length - 8) as usize))
    } else {
        Some((kind, at + 8, end))
    }
}

/// Places as integers.
pub open spec fn places(v: Seq<(usize, usize)>) -> Seq<(int, int)> {
    v.map_values(|p: (usize, usize)| (p.0 as int, p.1 as int))
}

/// Where the contents of the boxes of a type start and end.
fn find_parts(s: &[u8], from: usize, end: usize, kind: u32) -> (r: Vec<(usize, usize)>)
    requires
        from <= end <= s.len(),
    ensures
        places(r@) == parts(s@, from as int, end as int, kind),
        forall|i: int| 0 <= i < r@.len() ==> (#[trigger] r@[i]).0 <= r@[i].1 <= end,
{
    let ghost goal = parts(s@, from as int, end as int, kind);
    let mut out: Vec<(usize, usize)> = Vec::new();
    let mut at: usize = from;
    assert(places(out@) + parts(s@, at as int, end as int, kind) =~= goal);
    loop
        invariant
            at <= end <= s.len(),
            goal == parts(s@, from as int, end as int, kind),
            places(out@) + parts(s@, at as int, end as int, kind) == goal,
            forall|i: int| 0 <= i < out@.len() ==> (#[trigger] out@[i]).0 <= out@[i].1 <= end,
        decreases end - at,
    {
        match find_box(s, at, end) {
            Some((k, start, next)) => {
                let ghost before = out@;
                let ghost rest = parts(s@, next as int, end as int, kind);
                if k == kind {
                    out.push((start, next));
                    assert(places(out@) =~= places(before).push((start as int, next as int)));
                }
                assert(places(out@) + rest =~= goal);
                at = next;
            },
            None => {
                assert(places(out@) =~= goal);
                return out;
            },
        }
    }
}

/// Whether a color specification names the L*a*b* space.
fn has_lab(s: &[u8], colors: &Vec<(usize, usize)>) -> (r: bool)
    requires
        forall|i: int| 0 <= i < colors@.len() ==> (#[trigger] colors@[i]).0 <= colors@[i].1
            <= s.len(),
    ensures
        r == any_lab(s@, places(colors@)),
{
    let mut i: usize = 0;
    while i < colors.len()
        invariant
            i <= colors@.len(),
            forall|j: int| 0 <= j < colors@.len() ==> (#[trigger] colors@[j]).0 <= colors@[j].1
                <= s.len(),
            forall|j: int| 0 <= j < i ==> !names_lab(s@, #[trigger] places(colors@)[j]),
        decreases colors@.len() - i,
    {
        let (start, end) = colors[i];
        assert(places(colors@)[i as int] == (start as int, end as int));
        if end - start >= 7 && s[start] == 1 && bytes::get_be32(s, start + 3) == LAB {
            return true;
        }
        i += 1;
    }
    false
}

/// Whether no column of a palette has more than `most` bits.
fn check_columns(s: &[u8], start: usize, end: usize, most: u8) -> (r: bool)
    requires
        start <= end <= s.len(),
    ensures
        r == columns_fit(s@, (start as int, end as int), most),
{
    if end - start < 3 {
        return true;
    }
    let count = s[start + 2] as usize;
    let mut i: usize = start + 3;
    while i < end && i - start - 3 < count
        invariant
            start + 3 <= i <= end <= s.len(),
            count == s@[start + 2],
            forall|j: int| start + 3 <= j < i ==> (#[trigger] s@[j]) % 128 < most,
        decreases end - i,
    {
        if s[i] % 128 >= most {
            return false;
        }
        i += 1;
    }
    true
}

/// Whether no component of a codestream has more than `most` bits.
fn check_components(s: &[u8], start: usize, end: usize, most: u8) -> (r: bool)
    requires
        start <= end <= s.len(),
    ensures
        r == components_fit(s@, (start as int, end as int), most),
{
    if end - start < 42 {
        return true;
    }
    let count = bytes::get_be16(s, start + 40) as usize;
    let mut c: usize = 0;
    let mut i: usize = start + 42;
    while i < end && c < count
        invariant
            start + 42 <= end <= s.len(),
            i == start + 42 + 3 * c,
            count == bytes::read_be16(s@, start + 40),
            count <= 0xFFFF,
            c <= count,
            forall|j: int| 0 <= j < c ==> (#[trigger] s@[start + 42 + 3 * j]) % 128 < most,
        decreases count - c,
    {
        if s[i] % 128 >= most {
            return false;
        }
        c += 1;
        if end - i < 3 {
            return true;
        }
        i += 3;
    }
    true
}

/// Whether every mapping has an entry.
fn check_mappings(mappings: &Vec<(usize, usize)>) -> (r: bool)
    ensures
        r == all_mapped(places(mappings@)),
{
    let ghost view = places(mappings@);
    let mut i: usize = 0;
    while i < mappings.len()
        invariant
            i <= mappings@.len(),
            view == places(mappings@),
            forall|j: int| 0 <= j < i ==> (#[trigger] view[j]).0 < view[j].1,
        decreases mappings@.len() - i,
    {
        let (start, end) = mappings[i];
        assert(view[i as int] == (start as int, end as int));
        if start >= end {
            return false;
        }
        i += 1;
    }
    true
}

/// Whether no column of the palettes has more than `most` bits.
fn check_palettes(s: &[u8], palettes: &Vec<(usize, usize)>, most: u8) -> (r: bool)
    requires
        forall|i: int| 0 <= i < palettes@.len() ==> (#[trigger] palettes@[i]).0 <= palettes@[i].1
            <= s.len(),
    ensures
        r == all_columns_fit(s@, places(palettes@), most),
{
    let ghost view = places(palettes@);
    let mut i: usize = 0;
    while i < palettes.len()
        invariant
            i <= palettes@.len(),
            view == places(palettes@),
            forall|j: int| 0 <= j < palettes@.len() ==> (#[trigger] palettes@[j]).0
                <= palettes@[j].1 <= s.len(),
            forall|j: int| 0 <= j < i ==> columns_fit(s@, #[trigger] view[j], most),
        decreases palettes@.len() - i,
    {
        let (start, end) = palettes[i];
        assert(view[i as int] == (start as int, end as int));
        if !check_columns(s, start, end, most) {
            return false;
        }
        i += 1;
    }
    true
}

/// Whether no component of the codestreams has more than `most` bits.
fn check_streams(s: &[u8], streams: &Vec<(usize, usize)>, most: u8) -> (r: bool)
    requires
        forall|i: int| 0 <= i < streams@.len() ==> (#[trigger] streams@[i]).0 <= streams@[i].1
            <= s.len(),
    ensures
        r == all_components_fit(s@, places(streams@), most),
{
    let ghost view = places(streams@);
    let mut i: usize = 0;
    while i < streams.len()
        invariant
            i <= streams@.len(),
            view == places(streams@),
            forall|j: int| 0 <= j < streams@.len() ==> (#[trigger] streams@[j]).0 <= streams@[j].1
                <= s.len(),
            forall|j: int| 0 <= j < i ==> components_fit(s@, #[trigger] view[j], most),
        decreases streams@.len() - i,
    {
        let (start, end) = streams[i];
        assert(view[i as int] == (start as int, end as int));
        if !check_components(s, start, end, most) {
            return false;
        }
        i += 1;
    }
    true
}

/// Whether what a header box says of the colors can be resolved.
fn check_header(s: &[u8], start: usize, end: usize, streams: &Vec<(usize, usize)>) -> (r: bool)
    requires
        start <= end <= s.len(),
        forall|i: int| 0 <= i < streams@.len() ==> (#[trigger] streams@[i]).0 <= streams@[i].1
            <= s.len(),
    ensures
        r == header_resolves(s@, (start as int, end as int), places(streams@)),
{
    let palettes = find_parts(s, start, end, PALETTE);
    let mappings = find_parts(s, start, end, MAPPING);
    let colors = find_parts(s, start, end, COLORS);
    let lab = has_lab(s, &colors);
    let most = if lab {
        DEEPEST_LAB
    } else {
        DEEPEST
    };
    assert(places(palettes@).len() == palettes@.len());
    (palettes.len() == 0 || check_mappings(&mappings)) && check_palettes(s, &palettes, most) && (
    !lab || check_streams(s, streams, DEEPEST_LAB))
}

/// Whether what a JPEG 2000 image says of its colors can be resolved: where
/// its header holds a palette and a mapping, the mapping has an entry, and
/// nothing is deeper than the samples can be scaled from.
#[verifier::loop_isolation(false)]
pub fn palette_usable(data: &[u8]) -> (r: bool)
    ensures
        r == palette_resolves(data@),
{
    if data.len() < 8 || bytes::get_be32(data, 0) != 12 || bytes::get_be32(data, 4) != SIGNATURE {
        return true;
    }
    let headers = find_parts(data, 0, data.len(), HEADER);
    let streams = find_parts(data, 0, data.len(), CODESTREAM);
    let ghost heads = places(headers@);
    let mut i: usize = 0;
    while i < headers.len()
        invariant
            i <= headers@.len(),
            heads == places(headers@),
            forall|j: int| 0 <= j < headers@.len() ==> (#[trigger] headers@[j]).0 <= headers@[j].1
                <= data.len(),
            forall|j: int| 0 <= j < streams@.len() ==> (#[trigger] streams@[j]).0 <= streams@[j].1
                <= data.len(),
            forall|j: int|
                0 <= j < i ==> header_resolves(data@, #[trigger] heads[j], places(streams@)),
        decreases headers@.len() - i,
    {
        let (a, b) = headers[i];
        assert(heads[i as int] == (a as int, b as int));
        if !check_header(data, a, b, &streams) {
            return false;
        }
        i += 1;
    }
    true
}

/// The types of boxes spell their names.
pub proof fn types_spell_their_names()
    ensures
        HEADER == 16777216 * ('j' as int) + 65536 * ('p' as int) + 256 * ('2' as int) + ('h' as int),
        CODESTREAM == 16777216 * ('j' as int) + 65536 * ('p' as int) + 256 * ('2' as int) + (
        'c' as int),
        PALETTE == 16777216 * ('p' as int) + 65536 * ('c' as int) + 256 * ('l' as int) + (
        'r' as int),
        MAPPING == 16777216 * ('c' as int) + 65536 * ('m' as int) + 256 * ('a' as int) + (
        'p' as int),
        COLORS == 16777216 * ('c' as int) + 65536 * ('o' as int) + 256 * ('l' as int) + ('r' as int),
        SIGNATURE == 16777216 * ('j' as int) + 65536 * ('P' as int) + 256 * (' ' as int) + (
        ' ' as int),
{
}

/// Boxes are read one behind the other: the contents of one start behind the
/// length and the type, or behind a long length, and the next box starts where
/// they end.
pub proof fn boxes_follow_each_other(s: Seq<u8>, at: int, end: int, kind: u32)
    requires
        0 <= at,
        at + 16 <= end <= s.len(),
    ensures
        ({
            let length = 16777216 * s[at] + 65536 * s[at + 1] + 256 * s[at + 2] + s[at + 3];
            let name = 16777216 * s[at + 4] + 65536 * s[at + 5] + 256 * s[at + 6] + s[at + 7];
            let own = |from: int, to: int|
                if name == kind {
                    seq![(from, to)]
                } else {
                    Seq::empty()
                };
            &&& 8 <= length && at + length <= end ==> parts(s, at, end, kind) == own(
                at + 8,
                at + length,
            ) + parts(s, at + length, end, kind)
            &&& length == 0 ==> parts(s, at, end, kind) == own(at + 8, end) + parts(
                s,
                end,
                end,
                kind,
            )
            &&& length == 1 ==> {
                let long = 4294967296 * (16777216 * s[at + 8] + 65536 * s[at + 9] + 256 * s[at + 10]
                    + s[at + 11]) + 16777216 * s[at + 12] + 65536 * s[at + 13] + 256 * s[at + 14]
                    + s[at + 15];
                16 <= long && at + long <= end ==> parts(s, at, end, kind) == own(
                    at + 16,
                    at + long,
                ) + parts(s, at + long, end, kind)
            }
        }),
        parts(s, end, end, kind).len() == 0,
{
    let length = bytes::read_be32(s, at);
    let name = bytes::read_be32(s, at + 4);
    if name != kind {
        assert(forall|q: Seq<(int, int)>| #[trigger] (Seq::<(int, int)>::empty() + q) =~= q);
    }
}

} // verus!
