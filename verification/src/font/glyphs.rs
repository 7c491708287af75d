//! Which glyphs of an embedded program a font's strings select.
//!
//! Simple fonts address glyphs by single-byte code through rules that
//! depend on the program kind, the encoding and the symbolic flag (PDF
//! 32000-1, 9.6.6). Rather than pick the one rule a given viewer applies,
//! every rule is tried and the union kept: a superset of the glyphs any
//! viewer can reach, which is what subsetting with retained glyph IDs
//! needs. Type 0 fonts go through their CMap to CIDs and then the
//! CIDToGIDMap or the CFF charset.
use vstd::prelude::*;

use crate::bytes;
use crate::font::cmap;
use crate::font::cmap::CMap;
use crate::font::codes;
use crate::font::codes::CodeNames;
use crate::font::encodings;
use crate::font::programs;
use crate::idset::IdSet;

verus! {

/// Base encoding of a simple font, when it is one of the predefined three.
#[derive(Debug, Clone, Copy, PartialEq, Eq, Structural)]
pub enum Base {
    Standard,
    WinAnsi,
    MacRoman,
}

impl Base {
    /// The encoding with this name.
    pub open spec fn named(name: Seq<u8>) -> Option<Base> {
        if name == bytes::text("StandardEncoding"@) {
            Some(Base::Standard)
        } else if name == bytes::text("WinAnsiEncoding"@) {
            Some(Base::WinAnsi)
        } else if name == bytes::text("MacRomanEncoding"@) {
            Some(Base::MacRoman)
        } else {
            None
        }
    }

    pub fn from_name(name: &[u8]) -> (r: Option<Base>)
        ensures
            r == Base::named(name@),
    {
        if bytes::is_text(name, "StandardEncoding") {
            Some(Base::Standard)
        } else if bytes::is_text(name, "WinAnsiEncoding") {
            Some(Base::WinAnsi)
        } else if bytes::is_text(name, "MacRomanEncoding") {
            Some(Base::MacRoman)
        } else {
            None
        }
    }

    /// The names of the encoding.
    pub open spec fn names(self) -> Seq<char> {
        match self {
            Base::Standard => encodings::STANDARD@,
            Base::WinAnsi => encodings::WIN_ANSI@,
            Base::MacRoman => encodings::MAC_ROMAN@,
        }
    }

    /// The glyph name of a code.
    fn lookup(self, code: u8) -> (r: Option<Vec<u8>>)
        ensures
            codes::name_view(r) == encodings::name_in(self.names(), code),
    {
        match self {
            Base::Standard => encodings::lookup(encodings::STANDARD, code),
            Base::WinAnsi => encodings::lookup(encodings::WIN_ANSI, code),
            Base::MacRoman => encodings::lookup(encodings::MAC_ROMAN, code),
        }
    }
}

/// How a simple font's codes turn into glyph names.
#[derive(Debug, PartialEq, Eq)]
pub struct SimpleEncoding {
    /// `None` means the program's built-in encoding.
    pub base: Option<Base>,
    pub differences: CodeNames,
    pub symbolic: bool,
}

/// What a simple encoding holds.
pub struct EncodingView {
    pub base: Option<Base>,
    pub differences: codes::CodesView,
    pub symbolic: bool,
}

impl View for SimpleEncoding {
    type V = EncodingView;

    open spec fn view(&self) -> EncodingView {
        EncodingView {
            base: self.base,
            differences: self.differences@,
            symbolic: self.symbolic,
        }
    }
}

/// The glyph name a code has under an encoding: its difference; else its
/// name in the base encoding, which is the standard one for a non-symbolic
/// font without a base.
pub open spec fn code_name(enc: EncodingView, code: u8) -> Option<Seq<u8>> {
    match enc.differences[code as int] {
        Some(n) => Some(n),
        None => match enc.base {
            Some(b) => encodings::name_in(b.names(), code),
            None => if enc.symbolic {
                None
            } else {
                encodings::name_in(encodings::STANDARD@, code)
            },
        },
    }
}

impl SimpleEncoding {
    /// Every code has its place.
    pub open spec fn wf(self) -> bool {
        self.differences.wf()
    }

    /// A non-symbolic font without an encoding.
    pub fn new() -> (r: SimpleEncoding)
        ensures
            r.wf(),
            r@ == (EncodingView { base: None, differences: codes::no_codes(), symbolic: false }),
    {
        SimpleEncoding { base: None, differences: CodeNames::new(), symbolic: false }
    }

    /// The glyph name a code has under this encoding, if any.
    pub fn name(&self, code: u8) -> (r: Option<Vec<u8>>)
        requires
            self.wf(),
        ensures
            codes::name_view(r) == code_name(self@, code),
    {
        match &self.differences.names[code as usize] {
            Some(n) => {
                return Some(bytes::copy(n));
            },
            None => {},
        }
        match self.base {
            Some(b) => b.lookup(code),
            // A non-symbolic font without an encoding uses the standard
            // encoding; a symbolic one uses the program's built-in one.
            None => if self.symbolic {
                None
            } else {
                Base::Standard.lookup(code)
            },
        }
    }
}

/// CID to glyph index for a Type 0 font.
#[derive(Debug, PartialEq, Eq)]
pub enum CidToGid {
    Identity,
    /// The `CIDToGIDMap` stream: two bytes per CID.
    Table(Vec<u8>),
}

/// How a font selects glyphs.
#[derive(Debug, PartialEq, Eq)]
pub enum Addressing {
    Simple(SimpleEncoding),
    Cid { cmap: CMap, cid_to_gid: CidToGid },
}

impl Addressing {
    /// The parts are whole.
    pub open spec fn wf(self) -> bool {
        match self {
            Addressing::Simple(enc) => enc.wf(),
            Addressing::Cid { cmap, cid_to_gid } => cmap.wf(),
        }
    }
}

/// The program's container.
#[derive(Debug, Clone, Copy, PartialEq, Eq, Structural)]
pub enum Kind {
    TrueType,
    Cff,
    OpenType,
}

// ------------------------------------------------------------- strings

/// Whether a byte occurs in the strings.
pub open spec fn has_code(strings: Seq<Vec<u8>>, code: u8) -> bool {
    exists|i: int, k: int|
        0 <= i < strings.len() && 0 <= k < strings[i]@.len() && #[trigger] strings[i]@[k] == code
}

/// Whether the CMap reads a CID from the strings.
pub open spec fn has_cid(map: cmap::CMapView, strings: Seq<Vec<u8>>, cid: u32) -> bool {
    exists|i: int|
        0 <= i < strings.len() && #[trigger] cmap::cids_from(map, strings[i]@, 0).contains(cid)
}

/// The codes that occur in the strings, in order.
fn codes_in(strings: &[Vec<u8>]) -> (r: IdSet)
    ensures
        r.wf(),
        forall|c: u32| #[trigger] r.holds(c) <==> c < 256 && has_code(strings@, c as u8),
{
    let mut out = IdSet::new();
    let mut i: usize = 0;
    while i < strings.len()
        invariant
            i <= strings@.len(),
            out.wf(),
            forall|c: u32| #[trigger]
                out.holds(c) <==> c < 256 && has_code(strings@.take(i as int), c as u8),
        decreases strings@.len() - i,
    {
        let s = &strings[i];
        let ghost before = strings@.take(i as int);
        let ghost old_out = out;
        let mut k: usize = 0;
        while k < s.len()
            invariant
                k <= s@.len(),
                out.wf(),
                forall|c: u32| #[trigger]
                    out.holds(c) <==> old_out.holds(c) || (c < 256 && s@.take(
                        k as int,
                    ).contains(c as u8)),
            decreases s@.len() - k,
        {
            let ghost now = out;
            let b = s[k];
            out.insert(b as u32);
            proof {
                let a = s@.take(k as int);
                let n = s@.take(k + 1);
                assert(n =~= a.push(b));
                assert forall|c: u32| #[trigger]
                    out.holds(c) <==> old_out.holds(c) || (c < 256 && n.contains(c as u8)) by {
                    assert(out.holds(c) <==> now.holds(c) || c == b as u32);
                    if c < 256 && a.contains(c as u8) {
                        let j = choose|j: int| 0 <= j < a.len() && a[j] == c as u8;
                        assert(n[j] == c as u8);
                    }
                    if c == b as u32 {
                        assert(n[k as int] == c as u8);
                    }
                    if c < 256 && n.contains(c as u8) && c != b as u32 {
                        let j = choose|j: int| 0 <= j < n.len() && n[j] == c as u8;
                        assert(a[j] == c as u8);
                    }
                }
            }
            k += 1;
        }
        assert(s@.take(k as int) =~= s@);
        i += 1;
        proof {
            let after = strings@.take(i as int);
            assert(after =~= before.push(*s));
            assert forall|c: u32| #[trigger]
                out.holds(c) <==> c < 256 && has_code(after, c as u8) by {
                if c < 256 {
                    if has_code(before, c as u8) {
                        let (a, b) = choose|a: int, b: int|
                            0 <= a < before.len() && 0 <= b < before[a]@.len()
                                && #[trigger] before[a]@[b] == c as u8;
                        assert(after[a]@[b] == c as u8);
                    }
                    if s@.contains(c as u8) {
                        let b = choose|b: int| 0 <= b < s@.len() && s@[b] == c as u8;
                        assert(after[i - 1]@[b] == c as u8);
                    }
                    if has_code(after, c as u8) {
                        let (a, b) = choose|a: int, b: int|
                            0 <= a < after.len() && 0 <= b < after[a]@.len()
                                && #[trigger] after[a]@[b] == c as u8;
                        if a < i - 1 {
                            assert(before[a]@[b] == c as u8);
                        } else {
                            assert(s@[b] == c as u8);
                        }
                    }
                }
            }
        }
    }
    assert(strings@.take(i as int) =~= strings@);
    out
}

/// The CIDs that the CMap reads from the strings, in order.
fn cids_in(map: &CMap, strings: &[Vec<u8>]) -> (r: IdSet)
    requires
        map.wf(),
    ensures
        r.wf(),
        forall|c: u32| #[trigger] r.holds(c) <==> has_cid(map@, strings@, c),
{
    let mut out = IdSet::new();
    let mut i: usize = 0;
    while i < strings.len()
        invariant
            i <= strings@.len(),
            map.wf(),
            out.wf(),
            forall|c: u32| #[trigger]
                out.holds(c) <==> has_cid(map@, strings@.take(i as int), c),
        decreases strings@.len() - i,
    {
        let ghost before = strings@.take(i as int);
        let ghost old_out = out;
        let cids = map.cids(&strings[i]);
        let ghost all = cids@;
        let mut k: usize = 0;
        while k < cids.len()
            invariant
                k <= cids@.len(),
                out.wf(),
                forall|c: u32| #[trigger]
                    out.holds(c) <==> old_out.holds(c) || cids@.take(k as int).contains(c),
            decreases cids@.len() - k,
        {
            let ghost now = out;
            out.insert(cids[k]);
            proof {
                let a = cids@.take(k as int);
                let n = cids@.take(k + 1);
                let b = cids@[k as int];
                assert(n =~= a.push(b));
                assert forall|c: u32| #[trigger]
                    out.holds(c) <==> old_out.holds(c) || n.contains(c) by {
                    assert(out.holds(c) <==> now.holds(c) || c == b);
                    if a.contains(c) {
                        let j = choose|j: int| 0 <= j < a.len() && a[j] == c;
                        assert(n[j] == c);
                    }
                    if c == b {
                        assert(n[k as int] == c);
                    }
                    if n.contains(c) && c != b {
                        let j = choose|j: int| 0 <= j < n.len() && n[j] == c;
                        assert(a[j] == c);
                    }
                }
            }
            k += 1;
        }
        assert(cids@.take(k as int) =~= cids@);
        i += 1;
        proof {
            let after = strings@.take(i as int);
            let last = strings@[i - 1];
            assert(after =~= before.push(last));
            assert forall|c: u32| #[trigger] out.holds(c) <==> has_cid(map@, after, c) by {
                if has_cid(map@, before, c) {
                    let a = choose|a: int|
                        0 <= a < before.len() && #[trigger] cmap::cids_from(
                            map@,
                            before[a]@,
                            0,
                        ).contains(c);
                    assert(after[a] == before[a]);
                }
                if all.contains(c) {
                    assert(cmap::cids_from(map@, after[i - 1]@, 0).contains(c));
                }
                if has_cid(map@, after, c) {
                    let a = choose|a: int|
                        0 <= a < after.len() && #[trigger] cmap::cids_from(
                            map@,
                            after[a]@,
                            0,
                        ).contains(c);
                    if a < i - 1 {
                        assert(before[a] == after[a]);
                    }
                }
            }
        }
    }
    assert(strings@.take(i as int) =~= strings@);
    out
}

// ------------------------------------------------------------- CIDs

/// The glyph index that a `CIDToGIDMap` gives a CID.
pub open spec fn mapped_cid(map: CidToGid, cid: u32) -> u32 {
    match map {
        CidToGid::Identity => cid,
        CidToGid::Table(b) => if cid * 2 + 2 <= b@.len() {
            (b@[cid * 2] * 256 + b@[cid * 2 + 1]) as u32
        } else {
            0
        },
    }
}

fn plain_cid_gid(map: &CidToGid, cid: u32) -> (r: u32)
    ensures
        r == mapped_cid(*map, cid),
{
    match map {
        CidToGid::Identity => cid,
        CidToGid::Table(b) => {
            let at: u64 = cid as u64 * 2;
            if at + 2 <= b.len() as u64 {
                b[at as usize] as u32 * 256 + b[at as usize + 1] as u32
            } else {
                0
            }
        },
    }
}

/// The glyph a CID selects in a CFF program. In a CID-keyed one the charset
/// maps glyph index to CID; one that is not CID-keyed is addressed by glyph
/// index directly. None without a charset, or where the CID is too large for
/// one.
pub open spec fn cff_cid(program: Seq<u8>, map: CidToGid, cid: u32) -> Option<u32> {
    let c = mapped_cid(map, cid);
    if !programs::cff_is_cid(program) {
        Some(c)
    } else if programs::cff_charset(program) is None || c > 0xFFFF {
        None
    } else {
        match programs::cff_glyph_of(program, c as u16) {
            Some(g) => Some(g),
            None => Some(0u32),
        }
    }
}

fn cid_gid(program: &[u8], keyed: bool, has_charset: bool, map: &CidToGid, cid: u32) -> (r: Option<
    u32,
>)
    requires
        keyed == programs::cff_is_cid(program@),
        keyed ==> has_charset == (programs::cff_charset(program@) is Some),
    ensures
        r == cff_cid(program@, *map, cid),
{
    let c = plain_cid_gid(map, cid);
    if !keyed {
        return Some(c);
    }
    if !has_charset || c > 0xFFFF {
        return None;
    }
    match programs::glyph_of(program, c as u16) {
        Some(g) => Some(g),
        None => Some(0),
    }
}

// ------------------------------------------------------------- CFF names

/// The first glyph in a charset from `i` on that has a name.
pub open spec fn charset_glyph(
    program: Seq<u8>,
    pairs: Seq<(u32, u16)>,
    name: Seq<u8>,
    i: int,
) -> Option<u32>
    decreases pairs.len() - i,
{
    if i < 0 || i >= pairs.len() {
        None
    } else if programs::cff_string(program, pairs[i].1) == Some(name) {
        Some(pairs[i].0)
    } else {
        charset_glyph(program, pairs, name, i + 1)
    }
}

/// The glyph of a CFF program with a name: only where it is not CID-keyed.
pub open spec fn cff_named(program: Seq<u8>, name: Seq<u8>) -> Option<u32> {
    match programs::cff_charset(program) {
        Some(pairs) => if programs::cff_is_cid(program) {
            None
        } else {
            charset_glyph(program, pairs, name, 0)
        },
        None => None,
    }
}

/// Whether a code reaches a glyph of a CFF program: through its name under
/// the font's encoding, or through the program's built-in encoding.
pub open spec fn cff_reaches(program: Seq<u8>, enc: EncodingView, code: u8, glyph: u32) -> bool {
    ||| code_name(enc, code) is Some && cff_named(program, code_name(enc, code)->0) == Some(glyph)
    ||| programs::cff_code(program, code) == Some(glyph)
}

/// Glyph names of a program, for lookups by name.
struct Names {
    entries: Vec<(Vec<u8>, u32)>,
}

/// The first entry from `i` on with a name.
spec fn entry(entries: Seq<(Vec<u8>, u32)>, name: Seq<u8>, i: int) -> Option<u32>
    decreases entries.len() - i,
{
    if i < 0 || i >= entries.len() {
        None
    } else if entries[i].0@ == name {
        Some(entries[i].1)
    } else {
        entry(entries, name, i + 1)
    }
}

proof fn lemma_entry_pushed(entries: Seq<(Vec<u8>, u32)>, e: (Vec<u8>, u32), name: Seq<u8>, i: int)
    requires
        0 <= i <= entries.len(),
    ensures
        entry(entries.push(e), name, i) == match entry(entries, name, i) {
            Some(g) => Some(g),
            None => if e.0@ == name {
                Some(e.1)
            } else {
                None
            },
        },
    decreases entries.len() - i,
{
    let all = entries.push(e);
    if i < entries.len() {
        assert(all[i] == entries[i]);
        lemma_entry_pushed(entries, e, name, i + 1);
    } else {
        assert(all[i] == e);
        assert(entry(all, name, i + 1) is None);
    }
}

impl Names {
    fn find(&self, name: &[u8]) -> (r: Option<u32>)
        ensures
            r == entry(self.entries@, name@, 0),
    {
        let mut i: usize = 0;
        while i < self.entries.len()
            invariant
                i <= self.entries@.len(),
                entry(self.entries@, name@, 0) == entry(self.entries@, name@, i as int),
            decreases self.entries@.len() - i,
        {
            if bytes::same(&self.entries[i].0, name) {
                return Some(self.entries[i].1);
            }
            i += 1;
        }
        None
    }

    /// The names of a CFF program that is not CID-keyed.
    fn of_cff(program: &[u8]) -> (r: Names)
        ensures
            forall|n: Seq<u8>| #[trigger]
                entry(r.entries@, n, 0) == cff_named(program@, n),
    {
        let mut entries: Vec<(Vec<u8>, u32)> = Vec::new();
        let pairs = match programs::charset(program) {
            Some(p) => p,
            None => {
                return Names { entries };
            },
        };
        if programs::is_cid(program) {
            return Names { entries };
        }
        let mut i: usize = 0;
        while i < pairs.len()
            invariant
                i <= pairs@.len(),
                forall|n: Seq<u8>|
                    charset_glyph(program@, pairs@, n, 0) == match #[trigger] entry(
                        entries@,
                        n,
                        0,
                    ) {
                        Some(g) => Some(g),
                        None => charset_glyph(program@, pairs@, n, i as int),
                    },
            decreases pairs@.len() - i,
        {
            let ghost before = entries@;
            let (glyph, sid) = pairs[i];
            match programs::string(program, sid) {
                Some(name) => {
                    let ghost e = (name, glyph);
                    entries.push((name, glyph));
                    proof {
                        assert forall|n: Seq<u8>|
                            charset_glyph(program@, pairs@, n, 0) == match #[trigger] entry(
                                entries@,
                                n,
                                0,
                            ) {
                                Some(g) => Some(g),
                                None => charset_glyph(program@, pairs@, n, i + 1),
                            } by {
                            lemma_entry_pushed(before, e, n, 0);
                            assert(charset_glyph(program@, pairs@, n, 0) == match entry(
                                before,
                                n,
                                0,
                            ) {
                                Some(g) => Some(g),
                                None => charset_glyph(program@, pairs@, n, i as int),
                            });
                        }
                    }
                },
                None => {},
            }
            i += 1;
        }
        Names { entries }
    }

    /// The names of an sfnt's `post` table.
    fn of_post(program: &[u8]) -> (r: Names)
        ensures
            forall|n: Seq<u8>| #[trigger]
                entry(r.entries@, n, 0) == post_glyph(
                    program@,
                    programs::sfnt_named(program@) as int,
                    n,
                    0,
                ),
    {
        let mut entries: Vec<(Vec<u8>, u32)> = Vec::new();
        let count = programs::named(program);
        let mut i: usize = 0;
        while i < count
            invariant
                i <= count,
                forall|n: Seq<u8>|
                    post_glyph(program@, count as int, n, 0) == match #[trigger] entry(
                        entries@,
                        n,
                        0,
                    ) {
                        Some(g) => Some(g),
                        None => post_glyph(program@, count as int, n, i as int),
                    },
            decreases count - i,
        {
            let ghost before = entries@;
            let short: u16 = (i % 0x1_0000) as u16;
            let glyph: u32 = (i as u64 % 0x1_0000_0000) as u32;
            match programs::post_name(program, short) {
                Some(name) => {
                    let ghost e = (name, glyph);
                    entries.push((name, glyph));
                    proof {
                        assert forall|n: Seq<u8>|
                            post_glyph(program@, count as int, n, 0) == match #[trigger] entry(
                                entries@,
                                n,
                                0,
                            ) {
                                Some(g) => Some(g),
                                None => post_glyph(program@, count as int, n, i + 1),
                            } by {
                            lemma_entry_pushed(before, e, n, 0);
                            assert(post_glyph(program@, count as int, n, 0) == match entry(
                                before,
                                n,
                                0,
                            ) {
                                Some(g) => Some(g),
                                None => post_glyph(program@, count as int, n, i as int),
                            });
                        }
                    }
                },
                None => {},
            }
            i += 1;
        }
        Names { entries }
    }
}

// ------------------------------------------------------------- sfnt maps

/// The first glyph from `i` on to which the `post` table gives a name.
pub open spec fn post_glyph(program: Seq<u8>, count: int, name: Seq<u8>, i: int) -> Option<u32>
    decreases count - i,
{
    if i < 0 || i >= count {
        None
    } else if programs::sfnt_name(program, (i % 0x1_0000) as u16) == Some(name) {
        Some((i % 0x1_0000_0000) as u32)
    } else {
        post_glyph(program, count, name, i + 1)
    }
}

/// The last of the first `n` records that reads and is of a platform and
/// encoding.
pub open spec fn last_record(
    records: Seq<programs::Record>,
    platform: u16,
    encoding: u16,
    n: int,
) -> Option<int>
    decreases n,
{
    if n <= 0 || n > records.len() {
        None
    } else if records[n - 1] == (platform, encoding, true) {
        Some(n - 1)
    } else {
        last_record(records, platform, encoding, n - 1)
    }
}

/// A record of a Unicode subtable.
pub open spec fn unicode_record(r: programs::Record) -> bool {
    r.2 && ((r.0 == 3 && (r.1 == 1 || r.1 == 10)) || r.0 == 0)
}

/// The first Unicode record from `i` on.
pub open spec fn first_unicode(records: Seq<programs::Record>, i: int) -> Option<int>
    decreases records.len() - i,
{
    if i < 0 || i >= records.len() {
        None
    } else if unicode_record(records[i]) {
        Some(i)
    } else {
        first_unicode(records, i + 1)
    }
}

/// Whether a subtable gives a code point a glyph other than the first.
pub open spec fn maps_to(program: Seq<u8>, record: Option<int>, point: int, glyph: u32) -> bool {
    match record {
        Some(i) => glyph != 0 && programs::sfnt_code(program, i as usize, point as u32) == Some(
            glyph,
        ),
        None => false,
    }
}

/// Whether a code reaches a glyph under the TrueType rules: the (3,0)
/// symbol table with the code in each of its usual ranges, the (1,0)
/// table with the code, the Unicode table with the code's glyph name
/// (and with the code itself), the `post` names, and the code as a
/// glyph index when there is no `cmap`.
pub open spec fn sfnt_reaches(program: Seq<u8>, enc: EncodingView, code: u8, glyph: u32) -> bool {
    let records = match programs::sfnt_records(program) {
        Some(r) => r,
        None => Seq::empty(),
    };
    let n = records.len() as int;
    let symbol = last_record(records, 3, 0, n);
    let unicode = first_unicode(records, 0);
    let name = code_name(enc, code);
    ||| maps_to(program, symbol, code as int, glyph)
    ||| maps_to(program, symbol, 0xF000 + code, glyph)
    ||| maps_to(program, symbol, 0xF100 + code, glyph)
    ||| maps_to(program, symbol, 0xF200 + code, glyph)
    ||| maps_to(program, last_record(records, 1, 0, n), code as int, glyph)
    ||| maps_to(program, unicode, code as int, glyph)
    ||| name is Some && programs::glyph_unicode(name->0) is Some && maps_to(
        program,
        unicode,
        programs::glyph_unicode(name->0)->0 as int,
        glyph,
    )
    ||| name is Some && post_glyph(program, programs::sfnt_named(program) as int, name->0, 0)
        == Some(glyph)
    ||| programs::sfnt_records(program) is None && glyph == code
}

/// The `cmap` subtables and `post` names of an sfnt, for code lookups.
struct SfntMaps {
    symbol: Option<usize>,
    mac: Option<usize>,
    unicode: Option<usize>,
    has_cmap: bool,
    names: Names,
}

spec fn at(i: Option<usize>) -> Option<int> {
    match i {
        Some(i) => Some(i as int),
        None => None,
    }
}

impl SfntMaps {
    spec fn of(self, program: Seq<u8>) -> bool {
        let records = match programs::sfnt_records(program) {
            Some(r) => r,
            None => Seq::empty(),
        };
        let n = records.len() as int;
        &&& at(self.symbol) == last_record(records, 3, 0, n)
        &&& at(self.mac) == last_record(records, 1, 0, n)
        &&& at(self.unicode) == first_unicode(records, 0)
        &&& self.has_cmap == (programs::sfnt_records(program) is Some)
        &&& forall|name: Seq<u8>| #[trigger]
            entry(self.names.entries@, name, 0) == post_glyph(
                program,
                programs::sfnt_named(program) as int,
                name,
                0,
            )
    }

    fn new(program: &[u8]) -> (r: SfntMaps)
        ensures
            r.of(program@),
    {
        let mut symbol: Option<usize> = None;
        let mut mac: Option<usize> = None;
        let mut unicode: Option<usize> = None;
        let found = programs::records(program);
        let has_cmap = found.is_some();
        let records: Vec<programs::Record> = match found {
            Some(r) => r,
            None => Vec::new(),
        };
        let mut i: usize = 0;
        while i < records.len()
            invariant
                i <= records@.len(),
                at(symbol) == last_record(records@, 3, 0, i as int),
                at(mac) == last_record(records@, 1, 0, i as int),
                first_unicode(records@, 0) == match unicode {
                    Some(u) => Some(u as int),
                    None => first_unicode(records@, i as int),
                },
            decreases records@.len() - i,
        {
            let (platform, encoding, readable) = records[i];
            if readable {
                if platform == 3 && encoding == 0 {
                    symbol = Some(i);
                } else if platform == 3 && (encoding == 1 || encoding == 10) {
                    if unicode.is_none() {
                        unicode = Some(i);
                    }
                } else if platform == 0 {
                    if unicode.is_none() {
                        unicode = Some(i);
                    }
                } else if platform == 1 && encoding == 0 {
                    mac = Some(i);
                }
            }
            i += 1;
        }
        let names = Names::of_post(program);
        assert(programs::sfnt_records(program@) is None ==> records@ =~= Seq::empty());
        SfntMaps { symbol, mac, unicode, has_cmap, names }
    }

    fn add(program: &[u8], record: Option<usize>, point: u32, out: &mut IdSet)
        requires
            old(out).wf(),
        ensures
            final(out).wf(),
            forall|g: u32| #[trigger]
                final(out).holds(g) <==> old(out).holds(g) || maps_to(
                    program@,
                    at(record),
                    point as int,
                    g,
                ),
    {
        match record {
            Some(i) => {
                match programs::code_glyph(program, i, point) {
                    Some(g) => {
                        if g != 0 {
                            out.insert(g);
                        }
                    },
                    None => {},
                }
            },
            None => {},
        }
    }

    fn simple(&self, program: &[u8], enc: &SimpleEncoding, code: u8, out: &mut IdSet)
        requires
            self.of(program@),
            enc.wf(),
            old(out).wf(),
        ensures
            final(out).wf(),
            forall|g: u32| #[trigger]
                final(out).holds(g) <==> old(out).holds(g) || sfnt_reaches(
                    program@,
                    enc@,
                    code,
                    g,
                ),
    {
        let c: u32 = code as u32;
        SfntMaps::add(program, self.symbol, c, out);
        SfntMaps::add(program, self.symbol, 0xF000 + c, out);
        SfntMaps::add(program, self.symbol, 0xF100 + c, out);
        SfntMaps::add(program, self.symbol, 0xF200 + c, out);
        SfntMaps::add(program, self.mac, c, out);
        SfntMaps::add(program, self.unicode, c, out);
        let name = enc.name(code);
        match &name {
            Some(n) => {
                match programs::unicode(n) {
                    Some(u) => {
                        SfntMaps::add(program, self.unicode, u, out);
                    },
                    None => {},
                }
                match self.names.find(n) {
                    Some(g) => {
                        out.insert(g);
                    },
                    None => {},
                }
            },
            None => {},
        }
        if !self.has_cmap {
            out.insert(c);
        }
    }
}

fn cff_simple(program: &[u8], names: &Names, enc: &SimpleEncoding, code: u8, out: &mut IdSet)
    requires
        forall|n: Seq<u8>| #[trigger] entry(names.entries@, n, 0) == cff_named(program@, n),
        enc.wf(),
        old(out).wf(),
    ensures
        final(out).wf(),
        forall|g: u32| #[trigger]
            final(out).holds(g) <==> old(out).holds(g) || cff_reaches(program@, enc@, code, g),
{
    let name = enc.name(code);
    match &name {
        Some(n) => {
            match names.find(n) {
                Some(g) => {
                    out.insert(g);
                },
                None => {},
            }
        },
        None => {},
    }
    match programs::builtin(program, code) {
        Some(g) => {
            out.insert(g);
        },
        None => {},
    }
}

// ------------------------------------------------------------- use

/// The CFF program inside an OpenType font, where it reads.
pub open spec fn inner_cff(program: Seq<u8>) -> Option<Seq<u8>> {
    match programs::sfnt_cff(program) {
        Some(data) => if programs::cff_glyphs(data) is Some {
            Some(data)
        } else {
            None
        },
        None => None,
    }
}

/// How many glyphs the program has; none where it does not read.
pub open spec fn glyph_count(program: Seq<u8>, kind: Kind) -> Option<u32> {
    match kind {
        Kind::Cff => programs::cff_glyphs(program),
        _ => if programs::sfnt_reads(program) && programs::sfnt_glyphs(program) is Some {
            Some(programs::sfnt_glyphs(program)->0 as u32)
        } else {
            None
        },
    }
}

/// Whether a code reaches a glyph.
pub open spec fn code_reaches(
    program: Seq<u8>,
    kind: Kind,
    enc: EncodingView,
    code: u8,
    glyph: u32,
) -> bool {
    match kind {
        Kind::Cff => cff_reaches(program, enc, code, glyph),
        _ => sfnt_reaches(program, enc, code, glyph) || (inner_cff(program) is Some && cff_reaches(
            inner_cff(program)->0,
            enc,
            code,
            glyph,
        )),
    }
}

/// Whether a CID can be looked up.
pub open spec fn cid_resolves(program: Seq<u8>, kind: Kind, map: CidToGid, cid: u32) -> bool {
    match kind {
        Kind::Cff => cff_cid(program, map, cid) is Some,
        _ => inner_cff(program) is Some ==> cff_cid(inner_cff(program)->0, map, cid) is Some,
    }
}

/// Whether a CID reaches a glyph. A CIDFontType2 addresses glyphs through
/// `CIDToGIDMap` even when the OpenType program holds CFF outlines; a
/// CIDFontType0 goes through the CFF charset. Both are kept.
pub open spec fn cid_reaches(
    program: Seq<u8>,
    kind: Kind,
    map: CidToGid,
    cid: u32,
    glyph: u32,
) -> bool {
    match kind {
        Kind::Cff => cff_cid(program, map, cid) == Some(glyph),
        _ => glyph == mapped_cid(map, cid) || (inner_cff(program) is Some && cff_cid(
            inner_cff(program)->0,
            map,
            cid,
        ) == Some(glyph)),
    }
}

/// Whether every lookup that the strings ask for can be made.
pub open spec fn resolves(
    program: Seq<u8>,
    kind: Kind,
    addressing: Addressing,
    strings: Seq<Vec<u8>>,
) -> bool {
    &&& glyph_count(program, kind) is Some
    &&& match addressing {
        Addressing::Simple(_) => true,
        Addressing::Cid { cmap, cid_to_gid } => forall|cid: u32| #[trigger]
            has_cid(cmap@, strings, cid) ==> cid_resolves(program, kind, cid_to_gid, cid),
    }
}

/// Whether the strings reach a glyph.
pub open spec fn reaches(
    program: Seq<u8>,
    kind: Kind,
    addressing: Addressing,
    strings: Seq<Vec<u8>>,
    glyph: u32,
) -> bool {
    match addressing {
        Addressing::Simple(enc) => exists|code: u8| #[trigger]
            has_code(strings, code) && code_reaches(program, kind, enc@, code, glyph),
        Addressing::Cid { cmap, cid_to_gid } => exists|cid: u32| #[trigger]
            has_cid(cmap@, strings, cid) && cid_reaches(program, kind, cid_to_gid, cid, glyph),
    }
}

fn read_inner(program: &[u8]) -> (r: Option<Vec<u8>>)
    ensures
        codes::name_view(r) == inner_cff(program@),
{
    match programs::cff_data(program) {
        Some(data) => match programs::num_glyphs(&data) {
            Some(_) => Some(data),
            None => None,
        },
        None => None,
    }
}

fn used_codes(program: &[u8], kind: Kind, enc: &SimpleEncoding, strings: &[Vec<u8>]) -> (r: IdSet)
    requires
        enc.wf(),
    ensures
        r.wf(),
        forall|g: u32| #[trigger]
            r.holds(g) <==> exists|code: u8| #[trigger]
                has_code(strings@, code) && code_reaches(program@, kind, enc@, code, g),
{
    let found = codes_in(strings);
    let mut out = IdSet::new();
    let is_cff = match kind {
        Kind::Cff => true,
        _ => false,
    };
    let inner = if is_cff {
        Some(bytes::copy(program))
    } else {
        read_inner(program)
    };
    let names = match &inner {
        Some(cff) => Some(Names::of_cff(cff)),
        None => None,
    };
    let maps = if is_cff {
        None
    } else {
        Some(SfntMaps::new(program))
    };
    let mut i: usize = 0;
    while i < found.ids.len()
        invariant
            i <= found.ids@.len(),
            found.wf(),
            forall|c: u32| #[trigger] found.holds(c) <==> c < 256 && has_code(strings@, c as u8),
            enc.wf(),
            out.wf(),
            is_cff == (kind is Cff),
            is_cff ==> inner is Some && inner->0@ == program@ && maps is None,
            !is_cff ==> codes::name_view(inner) == inner_cff(program@) && maps is Some
                && maps->0.of(program@),
            inner is Some <==> names is Some,
            inner is Some ==> forall|n: Seq<u8>| #[trigger]
                entry(names->0.entries@, n, 0) == cff_named(inner->0@, n),
            forall|g: u32| #[trigger]
                out.holds(g) <==> exists|k: int|
                    0 <= k < i && code_reaches(
                        program@,
                        kind,
                        enc@,
                        #[trigger] found.ids@[k] as u8,
                        g,
                    ),
        decreases found.ids@.len() - i,
    {
        let ghost before = out;
        let id = found.ids[i];
        assert(found.ids@[i as int] == id);
        assert(found.holds(id));
        let code: u8 = id as u8;
        match &maps {
            Some(m) => {
                m.simple(program, enc, code, &mut out);
            },
            None => {},
        }
        match (&inner, &names) {
            (Some(cff), Some(n)) => {
                cff_simple(cff, n, enc, code, &mut out);
            },
            _ => {},
        }
        proof {
            assert forall|g: u32| #[trigger]
                out.holds(g) <==> exists|k: int|
                    0 <= k < i + 1 && code_reaches(
                        program@,
                        kind,
                        enc@,
                        #[trigger] found.ids@[k] as u8,
                        g,
                    ) by {
                assert(out.holds(g) <==> before.holds(g) || code_reaches(
                    program@,
                    kind,
                    enc@,
                    found.ids@[i as int] as u8,
                    g,
                ));
            }
        }
        i += 1;
    }
    proof {
        assert forall|g: u32| #[trigger]
            out.holds(g) <==> exists|code: u8| #[trigger]
                has_code(strings@, code) && code_reaches(program@, kind, enc@, code, g) by {
            if out.holds(g) {
                let k = choose|k: int|
                    0 <= k < i && code_reaches(
                        program@,
                        kind,
                        enc@,
                        #[trigger] found.ids@[k] as u8,
                        g,
                    );
                assert(found.holds(found.ids@[k]));
                assert(has_code(strings@, found.ids@[k] as u8));
            }
            if exists|code: u8| #[trigger]
                has_code(strings@, code) && code_reaches(program@, kind, enc@, code, g) {
                let code = choose|code: u8| #[trigger]
                    has_code(strings@, code) && code_reaches(program@, kind, enc@, code, g);
                assert((code as u32) as u8 == code);
                assert(found.holds(code as u32));
                let k = choose|k: int| 0 <= k < found.ids@.len() && found.ids@[k] == code as u32;
                assert(found.ids@[k] as u8 == code);
            }
        }
    }
    out
}

fn used_cids(
    program: &[u8],
    kind: Kind,
    map: &CMap,
    cid_to_gid: &CidToGid,
    strings: &[Vec<u8>],
) -> (r: Option<IdSet>)
    requires
        map.wf(),
    ensures
        match r {
            Some(ids) => {
                &&& ids.wf()
                &&& forall|cid: u32| #[trigger]
                    has_cid(map@, strings@, cid) ==> cid_resolves(program@, kind, *cid_to_gid, cid)
                &&& forall|g: u32| #[trigger]
                    ids.holds(g) <==> exists|cid: u32| #[trigger]
                        has_cid(map@, strings@, cid) && cid_reaches(
                            program@,
                            kind,
                            *cid_to_gid,
                            cid,
                            g,
                        )
            },
            None => exists|cid: u32| #[trigger]
                has_cid(map@, strings@, cid) && !cid_resolves(program@, kind, *cid_to_gid, cid),
        },
{
    let found = cids_in(map, strings);
    let mut out = IdSet::new();
    let is_cff = match kind {
        Kind::Cff => true,
        _ => false,
    };
    let inner = if is_cff {
        Some(bytes::copy(program))
    } else {
        read_inner(program)
    };
    let (keyed, has_charset) = match &inner {
        Some(cff) => (programs::is_cid(cff), programs::charset(cff).is_some()),
        None => (false, false),
    };
    let mut i: usize = 0;
    while i < found.ids.len()
        invariant
            i <= found.ids@.len(),
            found.wf(),
            forall|c: u32| #[trigger] found.holds(c) <==> has_cid(map@, strings@, c),
            out.wf(),
            is_cff == (kind is Cff),
            is_cff ==> inner is Some && inner->0@ == program@,
            !is_cff ==> codes::name_view(inner) == inner_cff(program@),
            inner is Some ==> keyed == programs::cff_is_cid(inner->0@) && has_charset == (
            programs::cff_charset(inner->0@) is Some),
            forall|k: int|
                0 <= k < i ==> cid_resolves(
                    program@,
                    kind,
                    *cid_to_gid,
                    #[trigger] found.ids@[k],
                ),
            forall|g: u32| #[trigger]
                out.holds(g) <==> exists|k: int|
                    0 <= k < i && cid_reaches(
                        program@,
                        kind,
                        *cid_to_gid,
                        #[trigger] found.ids@[k],
                        g,
                    ),
        decreases found.ids@.len() - i,
    {
        let ghost before = out;
        let cid = found.ids[i];
        assert(found.ids@[i as int] == cid);
        assert(found.holds(cid));
        if !is_cff {
            out.insert(plain_cid_gid(cid_to_gid, cid));
        }
        match &inner {
            Some(cff) => {
                match cid_gid(cff, keyed, has_charset, cid_to_gid, cid) {
                    Some(g) => {
                        out.insert(g);
                    },
                    None => {
                        return None;
                    },
                }
            },
            None => {},
        }
        proof {
            assert forall|g: u32| #[trigger]
                out.holds(g) <==> exists|k: int|
                    0 <= k < i + 1 && cid_reaches(
                        program@,
                        kind,
                        *cid_to_gid,
                        #[trigger] found.ids@[k],
                        g,
                    ) by {
                assert(out.holds(g) <==> before.holds(g) || cid_reaches(
                    program@,
                    kind,
                    *cid_to_gid,
                    found.ids@[i as int],
                    g,
                ));
            }
        }
        i += 1;
    }
    proof {
        assert forall|cid: u32| #[trigger] has_cid(map@, strings@, cid) implies cid_resolves(
            program@,
            kind,
            *cid_to_gid,
            cid,
        ) by {
            assert(found.holds(cid));
            let k = choose|k: int| 0 <= k < found.ids@.len() && found.ids@[k] == cid;
            assert(cid_resolves(program@, kind, *cid_to_gid, found.ids@[k]));
        }
        assert forall|g: u32| #[trigger]
            out.holds(g) <==> exists|cid: u32| #[trigger]
                has_cid(map@, strings@, cid) && cid_reaches(
                    program@,
                    kind,
                    *cid_to_gid,
                    cid,
                    g,
                ) by {
            if out.holds(g) {
                let k = choose|k: int|
                    0 <= k < i && cid_reaches(
                        program@,
                        kind,
                        *cid_to_gid,
                        #[trigger] found.ids@[k],
                        g,
                    );
                assert(found.holds(found.ids@[k]));
                assert(has_cid(map@, strings@, found.ids@[k]));
            }
            if exists|cid: u32| #[trigger]
                has_cid(map@, strings@, cid) && cid_reaches(
                    program@,
                    kind,
                    *cid_to_gid,
                    cid,
                    g,
                ) {
                let cid = choose|cid: u32| #[trigger]
                    has_cid(map@, strings@, cid) && cid_reaches(
                        program@,
                        kind,
                        *cid_to_gid,
                        cid,
                        g,
                    );
                assert(found.holds(cid));
                let k = choose|k: int| 0 <= k < found.ids@.len() && found.ids@[k] == cid;
                assert(cid_reaches(program@, kind, *cid_to_gid, found.ids@[k], g));
            }
        }
    }
    Some(out)
}

fn count_of(program: &[u8], kind: Kind) -> (r: Option<u32>)
    ensures
        r == glyph_count(program@, kind),
{
    match kind {
        Kind::Cff => programs::num_glyphs(program),
        _ => {
            if !programs::reads(program) {
                return None;
            }
            match programs::glyph_count(program) {
                Some(n) => Some(n as u32),
                None => None,
            }
        },
    }
}

/// The glyph IDs the strings can reach, of those the program has. Codes no
/// rule resolves are left out (they show nothing in any viewer). `None` when
/// the program does not parse, so the caller keeps it untouched.
pub fn used(program: &[u8], kind: Kind, addressing: &Addressing, strings: &[Vec<u8>]) -> (r: Option<
    IdSet,
>)
    requires
        addressing.wf(),
    ensures
        match r {
            Some(ids) => {
                &&& ids.wf()
                &&& resolves(program@, kind, *addressing, strings@)
                &&& forall|g: u32| #[trigger]
                    ids.holds(g) <==> g < glyph_count(program@, kind)->0 && reaches(
                        program@,
                        kind,
                        *addressing,
                        strings@,
                        g,
                    )
            },
            None => !resolves(program@, kind, *addressing, strings@),
        },
{
    let count = count_of(program, kind)?;
    let all = match addressing {
        Addressing::Simple(enc) => used_codes(program, kind, enc, strings),
        Addressing::Cid { cmap, cid_to_gid } => match used_cids(
            program,
            kind,
            cmap,
            cid_to_gid,
            strings,
        ) {
            Some(ids) => ids,
            None => {
                return None;
            },
        },
    };
    // Encodings and charsets can name glyphs the program does not have.
    Some(all.below(count))
}

// ------------------------------------------------------------- laws

/// The records of a program's `cmap` table; none without one.
spec fn records_of(program: Seq<u8>) -> Seq<programs::Record> {
    match programs::sfnt_records(program) {
        Some(r) => r,
        None => Seq::empty(),
    }
}

proof fn lemma_first(records: Seq<programs::Record>, from: int, i: int)
    requires
        0 <= from <= i < records.len(),
        unicode_record(records[i]),
        forall|j: int| from <= j < i ==> !unicode_record(#[trigger] records[j]),
    ensures
        first_unicode(records, from) == Some(i),
    decreases i - from,
{
    if from < i {
        assert(!unicode_record(records[from]));
        lemma_first(records, from + 1, i);
    }
}

proof fn lemma_is_first(records: Seq<programs::Record>, from: int)
    requires
        0 <= from,
    ensures
        first_unicode(records, from) matches Some(i) ==> from <= i < records.len()
            && unicode_record(records[i]) && forall|j: int|
            from <= j < i ==> !unicode_record(#[trigger] records[j]),
    decreases records.len() - from,
{
    if from < records.len() && !unicode_record(records[from]) {
        lemma_is_first(records, from + 1);
    }
}

proof fn lemma_last(
    records: Seq<programs::Record>,
    platform: u16,
    encoding: u16,
    n: int,
    i: int,
)
    requires
        0 <= i < n <= records.len(),
        records[i] == (platform, encoding, true),
        forall|j: int| i < j < n ==> #[trigger] records[j] != (platform, encoding, true),
    ensures
        last_record(records, platform, encoding, n) == Some(i),
    decreases n,
{
    if i < n - 1 {
        assert(records[n - 1] != (platform, encoding, true));
        lemma_last(records, platform, encoding, n - 1, i);
    }
}

proof fn lemma_is_last(records: Seq<programs::Record>, platform: u16, encoding: u16, n: int)
    requires
        n <= records.len(),
    ensures
        last_record(records, platform, encoding, n) matches Some(i) ==> 0 <= i < n && records[i]
            == (platform, encoding, true) && forall|j: int|
            i < j < n ==> #[trigger] records[j] != (platform, encoding, true),
    decreases n,
{
    if n > 0 && records[n - 1] != (platform, encoding, true) {
        lemma_is_last(records, platform, encoding, n - 1);
    }
}

proof fn lemma_post(program: Seq<u8>, count: int, name: Seq<u8>, from: int, i: int)
    requires
        0 <= from <= i < count,
        count <= 0x1_0000,
        programs::sfnt_name(program, i as u16) == Some(name),
        forall|j: int|
            from <= j < i ==> #[trigger] programs::sfnt_name(program, j as u16) != Some(name),
    ensures
        post_glyph(program, count, name, from) == Some(i as u32),
    decreases i - from,
{
    if from < i {
        assert(programs::sfnt_name(program, from as u16) != Some(name));
        lemma_post(program, count, name, from + 1, i);
    }
}

proof fn lemma_is_post(program: Seq<u8>, count: int, name: Seq<u8>, from: int)
    requires
        0 <= from,
        count <= 0x1_0000,
    ensures
        post_glyph(program, count, name, from) matches Some(g) ==> from <= g < count
            && programs::sfnt_name(program, g as u16) == Some(name),
    decreases count - from,
{
    if from < count && programs::sfnt_name(program, (from % 0x1_0000) as u16) != Some(name) {
        lemma_is_post(program, count, name, from + 1);
    }
}

proof fn lemma_shown(strings: Seq<Vec<u8>>, a: int, b: int)
    requires
        0 <= a < strings.len(),
        0 <= b < strings[a]@.len(),
    ensures
        has_code(strings, strings[a]@[b]),
{
}

proof fn lemma_reached(
    program: Seq<u8>,
    kind: Kind,
    enc: SimpleEncoding,
    strings: Seq<Vec<u8>>,
    code: u8,
    glyph: u32,
)
    requires
        kind != Kind::Cff,
        has_code(strings, code),
        sfnt_reaches(program, enc@, code, glyph),
    ensures
        reaches(program, kind, Addressing::Simple(enc), strings, glyph),
{
    assert(code_reaches(program, kind, enc@, code, glyph));
}

/// A code that is shown selects what the Unicode subtable gives its glyph
/// name, and what it gives the code itself. That subtable is the first
/// readable one of platform 3 with encoding 1 or 10, or of platform 0 with
/// any encoding.
pub proof fn unicode_subtables_select(
    program: Seq<u8>,
    kind: Kind,
    enc: SimpleEncoding,
    strings: Seq<Vec<u8>>,
    a: int,
    b: int,
    records: Seq<(u16, u16, bool)>,
    i: int,
    point: u32,
    glyph: u32,
)
    requires
        kind != Kind::Cff,
        0 <= a < strings.len(),
        0 <= b < strings[a]@.len(),
        programs::sfnt_records(program) == Some(records),
        0 <= i < records.len(),
        records[i] == (3u16, 1u16, true) || records[i] == (3u16, 10u16, true) || (records[i].0 == 0
            && records[i].2),
        forall|j: int|
            0 <= j < i ==> #[trigger] records[j] != (3u16, 1u16, true) && records[j] != (
                3u16,
                10u16,
                true,
            ) && (records[j].0 == 0 ==> !records[j].2),
        point == strings[a]@[b] || (code_name(enc@, strings[a]@[b]) matches Some(name)
            && programs::glyph_unicode(name) == Some(point)),
        programs::sfnt_code(program, i as usize, point) == Some(glyph),
        glyph > 0,
    ensures
        reaches(program, kind, Addressing::Simple(enc), strings, glyph),
{
    let code = strings[a]@[b];
    assert forall|j: int| 0 <= j < i implies !unicode_record(#[trigger] records[j]) by {
        let (platform, encoding, readable) = records[j];
        assert(records[j] != (3u16, 1u16, true));
    }
    lemma_first(records, 0, i);
    lemma_shown(strings, a, b);
    assert(maps_to(program, first_unicode(records, 0), point as int, glyph));
    lemma_reached(program, kind, enc, strings, code, glyph);
}

/// A code that is shown selects what the symbol subtable, the last readable
/// one of platform 3 with encoding 0, gives the code and the code in the
/// private ranges that start at F000, F100 and F200.
pub proof fn symbol_subtables_select(
    program: Seq<u8>,
    kind: Kind,
    enc: SimpleEncoding,
    strings: Seq<Vec<u8>>,
    a: int,
    b: int,
    records: Seq<(u16, u16, bool)>,
    i: int,
    point: u32,
    glyph: u32,
)
    requires
        kind != Kind::Cff,
        0 <= a < strings.len(),
        0 <= b < strings[a]@.len(),
        programs::sfnt_records(program) == Some(records),
        0 <= i < records.len(),
        records[i] == (3u16, 0u16, true),
        forall|j: int| i < j < records.len() ==> #[trigger] records[j] != (3u16, 0u16, true),
        ({
            let code = strings[a]@[b] as int;
            point == code || point == 61440 + code || point == 61696 + code || point == 61952 + code
        }),
        programs::sfnt_code(program, i as usize, point) == Some(glyph),
        glyph > 0,
    ensures
        reaches(program, kind, Addressing::Simple(enc), strings, glyph),
{
    lemma_last(records, 3, 0, records.len() as int, i);
    lemma_shown(strings, a, b);
    lemma_reached(program, kind, enc, strings, strings[a]@[b], glyph);
}

/// A code that is shown selects what the Macintosh subtable, the last
/// readable one of platform 1 with encoding 0, gives it.
pub proof fn macintosh_subtables_select(
    program: Seq<u8>,
    kind: Kind,
    enc: SimpleEncoding,
    strings: Seq<Vec<u8>>,
    a: int,
    b: int,
    records: Seq<(u16, u16, bool)>,
    i: int,
    glyph: u32,
)
    requires
        kind != Kind::Cff,
        0 <= a < strings.len(),
        0 <= b < strings[a]@.len(),
        programs::sfnt_records(program) == Some(records),
        0 <= i < records.len(),
        records[i] == (1u16, 0u16, true),
        forall|j: int| i < j < records.len() ==> #[trigger] records[j] != (1u16, 0u16, true),
        programs::sfnt_code(program, i as usize, strings[a]@[b] as u32) == Some(glyph),
        glyph > 0,
    ensures
        reaches(program, kind, Addressing::Simple(enc), strings, glyph),
{
    lemma_last(records, 1, 0, records.len() as int, i);
    lemma_shown(strings, a, b);
    lemma_reached(program, kind, enc, strings, strings[a]@[b], glyph);
}

/// A code that is shown selects the first glyph to which the `post` table
/// gives the name of the code.
pub proof fn post_names_select(
    program: Seq<u8>,
    kind: Kind,
    enc: SimpleEncoding,
    strings: Seq<Vec<u8>>,
    a: int,
    b: int,
    glyph: u16,
)
    requires
        kind != Kind::Cff,
        0 <= a < strings.len(),
        0 <= b < strings[a]@.len(),
        programs::sfnt_named(program) <= 0x1_0000,
        glyph < programs::sfnt_named(program),
        code_name(enc@, strings[a]@[b]) is Some,
        programs::sfnt_name(program, glyph) == code_name(enc@, strings[a]@[b]),
        forall|j: u16|
            j < glyph ==> #[trigger] programs::sfnt_name(program, j) != code_name(
                enc@,
                strings[a]@[b],
            ),
    ensures
        reaches(program, kind, Addressing::Simple(enc), strings, glyph as u32),
{
    let name = code_name(enc@, strings[a]@[b])->0;
    lemma_post(program, programs::sfnt_named(program) as int, name, 0, glyph as int);
    lemma_shown(strings, a, b);
    lemma_reached(program, kind, enc, strings, strings[a]@[b], glyph as u32);
}

/// Without a `cmap` table a code that is shown is its own glyph.
pub proof fn codes_are_glyphs_without_a_table(
    program: Seq<u8>,
    kind: Kind,
    enc: SimpleEncoding,
    strings: Seq<Vec<u8>>,
    a: int,
    b: int,
)
    requires
        kind != Kind::Cff,
        0 <= a < strings.len(),
        0 <= b < strings[a]@.len(),
        programs::sfnt_records(program) is None,
    ensures
        reaches(program, kind, Addressing::Simple(enc), strings, strings[a]@[b] as u32),
{
    lemma_shown(strings, a, b);
    lemma_reached(program, kind, enc, strings, strings[a]@[b], strings[a]@[b] as u32);
}

/// Whether a readable subtable of a program's `cmap` gives a code, its place
/// in a private range or the character of its name a glyph.
pub open spec fn some_subtable_gives(
    program: Seq<u8>,
    records: Seq<(u16, u16, bool)>,
    i: int,
    code: u8,
    name: Option<Seq<u8>>,
    glyph: u32,
) -> bool {
    let (platform, encoding, readable) = records[i];
    let at = i as usize;
    &&& readable
    &&& glyph > 0
    &&& if platform == 3 && encoding == 0 {
        ||| programs::sfnt_code(program, at, code as u32) == Some(glyph)
        ||| programs::sfnt_code(program, at, (61440 + code) as u32) == Some(glyph)
        ||| programs::sfnt_code(program, at, (61696 + code) as u32) == Some(glyph)
        ||| programs::sfnt_code(program, at, (61952 + code) as u32) == Some(glyph)
    } else if platform == 1 && encoding == 0 {
        programs::sfnt_code(program, at, code as u32) == Some(glyph)
    } else {
        &&& platform == 0 || (platform == 3 && (encoding == 1 || encoding == 10))
        &&& {
            ||| programs::sfnt_code(program, at, code as u32) == Some(glyph)
            ||| name is Some && programs::glyph_unicode(name->0) is Some && programs::sfnt_code(
                program,
                at,
                programs::glyph_unicode(name->0)->0,
            ) == Some(glyph)
        }
    }
}

/// What the strings of a simple font reach in a program without CFF outlines
/// they reach by one of these rules: a readable subtable of `cmap`, the name
/// in `post`, or, without a `cmap`, the code.
pub proof fn nothing_else_selects(
    program: Seq<u8>,
    enc: SimpleEncoding,
    strings: Seq<Vec<u8>>,
    glyph: u32,
) -> (r: (int, int))
    requires
        programs::sfnt_cff(program) is None,
        programs::sfnt_named(program) <= 0x1_0000,
        reaches(program, Kind::TrueType, Addressing::Simple(enc), strings, glyph),
    ensures
        0 <= r.0 < strings.len(),
        0 <= r.1 < strings[r.0]@.len(),
        ({
            let code = strings[r.0]@[r.1];
            let name = code_name(enc@, code);
            ||| match programs::sfnt_records(program) {
                Some(records) => exists|i: int|
                    0 <= i < records.len() && #[trigger] some_subtable_gives(
                        program,
                        records,
                        i,
                        code,
                        name,
                        glyph,
                    ),
                None => glyph == code,
            }
            ||| name is Some && glyph < programs::sfnt_named(program) && programs::sfnt_name(
                program,
                glyph as u16,
            ) == name
        }),
{
    let code = choose|code: u8| #[trigger]
        has_code(strings, code) && code_reaches(program, Kind::TrueType, enc@, code, glyph);
    assert(sfnt_reaches(program, enc@, code, glyph));
    let records = records_of(program);
    let n = records.len() as int;
    let name = code_name(enc@, code);
    lemma_is_last(records, 3, 0, n);
    lemma_is_last(records, 1, 0, n);
    lemma_is_first(records, 0);
    let symbol = last_record(records, 3, 0, n);
    let mac = last_record(records, 1, 0, n);
    let unicode = first_unicode(records, 0);
    if let Some(name) = name {
        lemma_is_post(program, programs::sfnt_named(program) as int, name, 0);
    }
    if let Some(i) = symbol {
        assert(maps_to(program, symbol, code as int, glyph) || maps_to(
            program,
            symbol,
            0xF000 + code,
            glyph,
        ) || maps_to(program, symbol, 0xF100 + code, glyph) || maps_to(
            program,
            symbol,
            0xF200 + code,
            glyph,
        ) ==> some_subtable_gives(program, records, i, code, name, glyph));
    }
    if let Some(i) = mac {
        assert(maps_to(program, mac, code as int, glyph) ==> some_subtable_gives(
            program,
            records,
            i,
            code,
            name,
            glyph,
        ));
    }
    if let Some(i) = unicode {
        assert((maps_to(program, unicode, code as int, glyph) || (name is Some
            && programs::glyph_unicode(name->0) is Some && maps_to(
            program,
            unicode,
            programs::glyph_unicode(name->0)->0 as int,
            glyph,
        ))) ==> some_subtable_gives(program, records, i, code, name, glyph));
    }
    choose|a: int, b: int|
        0 <= a < strings.len() && 0 <= b < strings[a]@.len() && #[trigger] strings[a]@[b] == code
}

proof fn lemma_named_glyph(
    program: Seq<u8>,
    pairs: Seq<(u32, u16)>,
    name: Seq<u8>,
    from: int,
    i: int,
)
    requires
        0 <= from <= i < pairs.len(),
        programs::cff_string(program, pairs[i].1) == Some(name),
        forall|j: int|
            from <= j < i ==> programs::cff_string(program, (#[trigger] pairs[j]).1) != Some(name),
    ensures
        charset_glyph(program, pairs, name, from) == Some(pairs[i].0),
    decreases i - from,
{
    if from < i {
        assert(programs::cff_string(program, pairs[from].1) != Some(name));
        lemma_named_glyph(program, pairs, name, from + 1, i);
    }
}

/// In a CFF program a code that is shown selects its glyph in the program's
/// own encoding and, unless the program is CID-keyed, the first glyph of the
/// charset that has its name; so it does in the CFF outlines of an OpenType
/// program.
pub proof fn names_select_in_outlines(
    program: Seq<u8>,
    kind: Kind,
    cff: Seq<u8>,
    enc: SimpleEncoding,
    strings: Seq<Vec<u8>>,
    a: int,
    b: int,
    i: int,
)
    requires
        kind == Kind::Cff && cff == program || kind != Kind::Cff && programs::sfnt_cff(program)
            == Some(cff) && programs::cff_glyphs(cff) is Some,
        0 <= a < strings.len(),
        0 <= b < strings[a]@.len(),
    ensures
        programs::cff_code(cff, strings[a]@[b]) matches Some(glyph) ==> reaches(
            program,
            kind,
            Addressing::Simple(enc),
            strings,
            glyph,
        ),
        programs::cff_charset(cff) matches Some(pairs) ==> !programs::cff_is_cid(cff) ==> (
        code_name(enc@, strings[a]@[b]) matches Some(name) ==> (0 <= i < pairs.len()
            && programs::cff_string(cff, pairs[i].1) == Some(name) && (forall|j: int|
            0 <= j < i ==> programs::cff_string(cff, (#[trigger] pairs[j]).1) != Some(name)))
            ==> reaches(program, kind, Addressing::Simple(enc), strings, pairs[i].0)),
{
    let code = strings[a]@[b];
    lemma_shown(strings, a, b);
    assert forall|glyph: u32| #[trigger] cff_reaches(cff, enc@, code, glyph) implies reaches(
        program,
        kind,
        Addressing::Simple(enc),
        strings,
        glyph,
    ) by {
        assert(code_reaches(program, kind, enc@, code, glyph));
    }
    if let Some(glyph) = programs::cff_code(cff, code) {
        assert(cff_reaches(cff, enc@, code, glyph));
    }
    if let Some(pairs) = programs::cff_charset(cff) {
        if let Some(name) = code_name(enc@, code) {
            if !programs::cff_is_cid(cff) && 0 <= i < pairs.len() && programs::cff_string(
                cff,
                pairs[i].1,
            ) == Some(name) && (forall|j: int|
                0 <= j < i ==> programs::cff_string(cff, (#[trigger] pairs[j]).1) != Some(name)) {
                lemma_named_glyph(cff, pairs, name, 0, i);
                assert(cff_reaches(cff, enc@, code, pairs[i].0));
            }
        }
    }
}

proof fn lemma_cid_reached(
    program: Seq<u8>,
    kind: Kind,
    map: CMap,
    to: CidToGid,
    strings: Seq<Vec<u8>>,
    cid: u32,
    glyph: u32,
)
    requires
        has_cid(map@, strings, cid),
        cid_reaches(program, kind, to, cid, glyph),
    ensures
        reaches(program, kind, Addressing::Cid { cmap: map, cid_to_gid: to }, strings, glyph),
{
    let addressing = Addressing::Cid { cmap: map, cid_to_gid: to };
    match addressing {
        Addressing::Cid { cmap, cid_to_gid } => {
            assert(has_cid(cmap@, strings, cid) && cid_reaches(
                program,
                kind,
                cid_to_gid,
                cid,
                glyph,
            ));
        },
        Addressing::Simple(_) => {},
    }
}

/// A CID that the strings read selects the glyph that the table gives it, two
/// bytes to a CID with the high one first, the first glyph past the table's
/// end, and itself without a table.
pub proof fn cids_select(
    program: Seq<u8>,
    kind: Kind,
    map: CMap,
    to: CidToGid,
    strings: Seq<Vec<u8>>,
    cid: u32,
)
    requires
        kind != Kind::Cff,
        has_cid(map@, strings, cid),
    ensures
        reaches(
            program,
            kind,
            Addressing::Cid { cmap: map, cid_to_gid: to },
            strings,
            match to {
                CidToGid::Identity => cid,
                CidToGid::Table(t) => if 2 * cid + 1 < t@.len() {
                    (256 * t@[2 * cid] + t@[2 * cid + 1]) as u32
                } else {
                    0
                },
            },
        ),
{
    lemma_cid_reached(program, kind, map, to, strings, cid, mapped_cid(to, cid));
}

/// In a CFF program that is not CID-keyed a CID is a glyph; in a CID-keyed
/// one the charset tells the glyph of a CID, and a CID that it lacks selects
/// the first.
pub proof fn cids_select_in_outlines(
    program: Seq<u8>,
    map: CMap,
    strings: Seq<Vec<u8>>,
    cid: u32,
)
    requires
        has_cid(map@, strings, cid),
    ensures
        !programs::cff_is_cid(program) ==> reaches(
            program,
            Kind::Cff,
            Addressing::Cid { cmap: map, cid_to_gid: CidToGid::Identity },
            strings,
            cid,
        ),
        programs::cff_is_cid(program) && programs::cff_charset(program) is Some && cid < 65536
            ==> reaches(
            program,
            Kind::Cff,
            Addressing::Cid { cmap: map, cid_to_gid: CidToGid::Identity },
            strings,
            match programs::cff_glyph_of(program, cid as u16) {
                Some(g) => g,
                None => 0,
            },
        ),
{
    let to = CidToGid::Identity;
    assert(mapped_cid(to, cid) == cid);
    if let Some(g) = cff_cid(program, to, cid) {
        lemma_cid_reached(program, Kind::Cff, map, to, strings, cid, g);
    }
}

/// A difference names its code whatever the base encoding; another code has
/// its name in the base encoding; without one a symbolic font names nothing,
/// and another font goes by the standard encoding.
pub proof fn differences_come_first(enc: EncodingView, code: u8)
    ensures
        enc.differences[code as int] matches Some(n) ==> code_name(enc, code) == Some(n),
        enc.differences[code as int] is None ==> code_name(enc, code) == match (
            enc.base,
            enc.symbolic,
        ) {
            (Some(Base::WinAnsi), _) => encodings::name_in(encodings::WIN_ANSI@, code),
            (Some(Base::MacRoman), _) => encodings::name_in(encodings::MAC_ROMAN@, code),
            (None, true) => None,
            (_, _) => encodings::name_in(encodings::STANDARD@, code),
        },
{
}

/// What tells the names of the encodings apart.
proof fn lemma_encoding_names()
    ensures
        "StandardEncoding"@.len() == 16 && "StandardEncoding"@[0] == 'S',
        "WinAnsiEncoding"@.len() == 15,
        "MacRomanEncoding"@.len() == 16 && "MacRomanEncoding"@[0] == 'M',
{
    reveal_strlit("StandardEncoding");
    reveal_strlit("WinAnsiEncoding");
    reveal_strlit("MacRomanEncoding");
}

/// An encoding is found by its name, and its names are those of its table; no
/// other name is known.
pub proof fn encodings_are_found_by_name(name: Seq<u8>)
    ensures
        Base::named(bytes::text("StandardEncoding"@)) matches Some(b) && b.names()
            == encodings::STANDARD@,
        Base::named(bytes::text("WinAnsiEncoding"@)) matches Some(b) && b.names()
            == encodings::WIN_ANSI@,
        Base::named(bytes::text("MacRomanEncoding"@)) matches Some(b) && b.names()
            == encodings::MAC_ROMAN@,
        Base::named(name) is Some <==> name == bytes::text("StandardEncoding"@) || name
            == bytes::text("WinAnsiEncoding"@) || name == bytes::text("MacRomanEncoding"@),
{
    bytes::lemma_texts_differ();
    lemma_encoding_names();
}

} // verus!
