//! Writing a CFF (Type 1C) program: the container a converted Type 1 font
//! is embedded as. One font, not CID-keyed, no subroutines (charstrings
//! arrive with their subroutines expanded), hints already dropped.
//!
//! Layout, in the order the format fixes: header, Name INDEX, Top DICT
//! INDEX, String INDEX, Global Subr INDEX; then the charset, the custom
//! encoding when the font has one, the CharStrings INDEX and the Private
//! DICT, whose offsets the Top DICT points at. The Top DICT is written
//! with five-byte offset operands so its size is known before the
//! offsets are.
use vstd::prelude::*;

use crate::bytes;
use crate::font::codes;
use crate::font::codes::CodeNames;
use crate::font::decimal;
use crate::font::decimal::Decimal;
use crate::font::type1;

verus! {

// ------------------------------------------------------------- operands

/// The shortest form of a DICT integer.
pub open spec fn dict_integer(i: int) -> Seq<u8> {
    if -107 <= i <= 107 {
        seq![(i + 139) as u8]
    } else if 108 <= i <= 1131 {
        seq![((i - 108) / 256 + 247) as u8, ((i - 108) % 256) as u8]
    } else if -1131 <= i <= -108 {
        seq![((-i - 108) / 256 + 251) as u8, ((-i - 108) % 256) as u8]
    } else if -32768 <= i <= 32767 {
        seq![28u8] + bytes::be16(
            if i < 0 {
                i + 0x1_0000
            } else {
                i
            },
        )
    } else {
        seq![29u8] + bytes::be32(
            if i < 0 {
                i + 0x1_0000_0000
            } else {
                i
            },
        )
    }
}

/// The nibble of a character of a number: digits, `a` for the point, `e` for
/// minus.
pub open spec fn nibble(c: u8) -> u8 {
    if c == '.' as u8 {
        0xA
    } else if c == '-' as u8 {
        0xE
    } else {
        (c - '0' as u8) as u8
    }
}

/// The nibble `i` of a number's text: `f` behind its end.
pub open spec fn nibble_at(text: Seq<u8>, i: int) -> u8 {
    if i < text.len() {
        nibble(text[i])
    } else {
        0xF
    }
}

/// The nibble-coded form of a number's text, ended by one or two `f`.
pub open spec fn dict_real(text: Seq<u8>) -> Seq<u8> {
    seq![30u8] + Seq::new(
        text.len() / 2 + 1,
        |i: int| (nibble_at(text, 2 * i) * 16 + nibble_at(text, 2 * i + 1)) as u8,
    )
}

/// A DICT operand: the shortest integer form for whole numbers of 32 bits,
/// else the nibble-coded real.
pub open spec fn dict_number(v: Decimal) -> Seq<u8> {
    if v.is_whole() && -0x8000_0000 < v.truncated() < 0x8000_0000 {
        dict_integer(v.truncated())
    } else {
        dict_real(decimal::decimal_text(v))
    }
}

/// A five-byte integer, so the operand's size never depends on its value.
pub open spec fn dict_offset(v: int) -> Seq<u8> {
    seq![29u8] + bytes::be32(v % 0x1_0000_0000)
}

/// The operands of numbers from `i` on.
pub open spec fn dict_numbers(v: Seq<Decimal>, i: int) -> Seq<u8>
    decreases v.len() - i,
{
    if i < 0 || i >= v.len() {
        Seq::empty()
    } else {
        dict_number(v[i]) + dict_numbers(v, i + 1)
    }
}

fn integer(i: i32, out: &mut Vec<u8>)
    ensures
        final(out)@ == old(out)@ + dict_integer(i as int),
{
    let ghost before = out@;
    if -107 <= i && i <= 107 {
        out.push((i + 139) as u8);
    } else if 108 <= i && i <= 1131 {
        let d: i32 = i - 108;
        out.push((d / 256 + 247) as u8);
        out.push((d % 256) as u8);
    } else if -1131 <= i && i <= -108 {
        let d: i32 = -i - 108;
        out.push((d / 256 + 251) as u8);
        out.push((d % 256) as u8);
    } else if -32768 <= i && i <= 32767 {
        out.push(28);
        let bits: u16 = (if i < 0 {
            i + 0x1_0000
        } else {
            i
        }) as u16;
        bytes::push_be16(out, bits);
    } else {
        out.push(29);
        let wide: i64 = i as i64;
        let bits: u32 = (if wide < 0 {
            wide + 0x1_0000_0000
        } else {
            wide
        }) as u32;
        bytes::push_be32(out, bits);
    }
    assert(out@ =~= before + dict_integer(i as int));
}

/// Every character is one that a number's text has.
spec fn number_chars(text: Seq<u8>) -> bool {
    forall|i: int|
        0 <= i < text.len() ==> #[trigger] text[i] == '.' as u8 || text[i] == '-' as u8 || '0'
            as u8 <= text[i] <= '9' as u8
}

fn read_nibble(text: &Vec<u8>, i: usize) -> (r: u8)
    requires
        number_chars(text@),
    ensures
        r == nibble_at(text@, i as int),
        r < 16,
{
    if i < text.len() {
        let c = text[i];
        assert(text@[i as int] == c);
        if c == ('.' as u8) {
            0xA
        } else if c == ('-' as u8) {
            0xE
        } else {
            c - ('0' as u8)
        }
    } else {
        0xF
    }
}

fn nibble_coded(text: &Vec<u8>, out: &mut Vec<u8>)
    requires
        number_chars(text@),
    ensures
        final(out)@ == old(out)@ + dict_real(text@),
{
    let ghost before = out@;
    out.push(30);
    let len: usize = text.len();
    let n: usize = len / 2 + 1;
    let mut i: usize = 0;
    while i < n
        invariant
            i <= n,
            len == text@.len(),
            n == len / 2 + 1,
            number_chars(text@),
            out@.len() == before.len() + 1 + i,
            forall|k: int| 0 <= k < before.len() ==> out@[k] == before[k],
            out@[before.len() as int] == 30,
            forall|k: int|
                0 <= k < i ==> #[trigger] out@[before.len() + 1 + k] == dict_real(text@)[k + 1],
        decreases n - i,
    {
        let a = read_nibble(text, 2 * i);
        let b = if 2 * i < len {
            read_nibble(text, 2 * i + 1)
        } else {
            0xF
        };
        out.push(a * 16 + b);
        i += 1;
    }
    assert(out@ =~= before + dict_real(text@)) by {
        assert forall|k: int| 0 <= k < out@.len() implies out@[k] == (before + dict_real(
            text@,
        ))[k] by {
            if k > before.len() {
                let j = k - before.len() - 1;
                assert(out@[before.len() + 1 + j] == dict_real(text@)[j + 1]);
            }
        }
    }
}

proof fn lemma_decimal_chars(v: Decimal)
    ensures
        number_chars(decimal::decimal_text(v)),
{
    let m = (if v.digits < 0 {
        -v.digits
    } else {
        v.digits as int
    }) as nat;
    decimal::lemma_plain_digits(m);
    let digits = decimal::plain_digits(m);
    let text = decimal::decimal_text(v);
    let sign: int = if v.digits < 0 {
        1
    } else {
        0
    };
    if v.exponent >= 0 {
        let zeros = decimal::zeros(v.exponent as int);
        assert forall|i: int| 0 <= i < text.len() implies #[trigger] text[i] == '.' as u8 || text[i]
            == '-' as u8 || '0' as u8 <= text[i] <= '9' as u8 by {
            if sign <= i < sign + digits.len() {
                assert(text[i] == digits[i - sign]);
                assert(crate::content::number::digit(digits[i - sign]));
            } else if i >= sign + digits.len() {
                assert(text[i] == zeros[i - sign - digits.len()]);
            }
        }
    } else {
        let places = -v.exponent;
        let zeros = decimal::zeros(places + 1 - digits.len());
        let all = zeros + digits;
        assert(crate::content::number::digits_only(all)) by {
            assert forall|i: int| 0 <= i < all.len() implies crate::content::number::digit(
                #[trigger] all[i],
            ) by {
                if i < zeros.len() {
                    assert(all[i] == zeros[i]);
                } else {
                    assert(all[i] == digits[i - zeros.len()]);
                }
            }
        }
        let whole = all.take(all.len() - places);
        let fixed = all.skip(all.len() - places);
        assert(crate::content::number::digits_only(fixed)) by {
            assert forall|i: int| 0 <= i < fixed.len() implies crate::content::number::digit(
                #[trigger] fixed[i],
            ) by {
                assert(fixed[i] == all[all.len() - places + i]);
            }
        }
        crate::content::number::lemma_trim_zeros_len(fixed);
        let fraction = crate::content::number::trim_zeros(fixed);
        assert forall|i: int| 0 <= i < text.len() implies #[trigger] text[i] == '.' as u8 || text[i]
            == '-' as u8 || '0' as u8 <= text[i] <= '9' as u8 by {
            if sign <= i < sign + whole.len() {
                assert(text[i] == whole[i - sign]);
                assert(whole[i - sign] == all[i - sign]);
                assert(crate::content::number::digit(all[i - sign]));
            } else if i > sign + whole.len() {
                assert(text[i] == fraction[i - sign - whole.len() - 1]);
            }
        }
    }
}

/// Appends a DICT operand.
pub fn number(v: Decimal, out: &mut Vec<u8>)
    ensures
        final(out)@ == old(out)@ + dict_number(v),
{
    let t = v.trunc();
    if v.check_whole() && t > -0x8000_0000 && t < 0x8000_0000 {
        integer(t as i32, out);
    } else {
        proof {
            lemma_decimal_chars(v);
        }
        nibble_coded(&v.to_text(), out);
    }
}

fn numbers(v: &Vec<Decimal>, out: &mut Vec<u8>)
    ensures
        final(out)@ == old(out)@ + dict_numbers(v@, 0),
{
    let ghost before = out@;
    let mut i: usize = 0;
    while i < v.len()
        invariant
            i <= v@.len(),
            out@ + dict_numbers(v@, i as int) == before + dict_numbers(v@, 0),
        decreases v@.len() - i,
    {
        let ghost here = out@;
        number(v[i], out);
        assert(out@ + dict_numbers(v@, i + 1) =~= here + (dict_number(v@[i as int])
            + dict_numbers(v@, i + 1)));
        i += 1;
    }
    assert(out@ + Seq::<u8>::empty() =~= out@);
}

fn offset(v: usize, out: &mut Vec<u8>)
    ensures
        final(out)@ == old(out)@ + dict_offset(v as int),
{
    let ghost before = out@;
    out.push(29);
    bytes::push_be32(out, (v as u64 % 0x1_0000_0000) as u32);
    assert(out@ =~= before + dict_offset(v as int));
}

// ------------------------------------------------------------- INDEX

/// The length of all items together.
pub open spec fn total_len(items: Seq<Seq<u8>>, n: int) -> int
    decreases n,
{
    if n <= 0 {
        0
    } else {
        total_len(items, n - 1) + items[n - 1].len()
    }
}

/// The first `n` items, one after the other.
pub open spec fn joined(items: Seq<Seq<u8>>, n: int) -> Seq<u8>
    decreases n,
{
    if n <= 0 {
        Seq::empty()
    } else {
        joined(items, n - 1) + items[n - 1]
    }
}

/// The low `size` bytes of a number, high byte first.
pub open spec fn low_bytes(v: int, size: int) -> Seq<u8> {
    bytes::be32(v % 0x1_0000_0000).skip(4 - size)
}

/// How many bytes an offset up to `total` takes.
pub open spec fn offset_size(total: int) -> int {
    if total <= 0xFF {
        1
    } else if total <= 0xFFFF {
        2
    } else if total <= 0xFF_FFFF {
        3
    } else {
        4
    }
}

/// The first `n` offsets: each item's start, counted from one.
pub open spec fn offsets_of(items: Seq<Seq<u8>>, n: int, size: int) -> Seq<u8>
    decreases n,
{
    if n <= 0 {
        Seq::empty()
    } else {
        offsets_of(items, n - 1, size) + low_bytes(total_len(items, n - 1) + 1, size)
    }
}

/// An INDEX: count, offset size, 1-based offsets, data.
pub open spec fn index_of(items: Seq<Seq<u8>>) -> Seq<u8> {
    let n = items.len() as int;
    if n == 0 {
        seq![0u8, 0u8]
    } else {
        let size = offset_size(total_len(items, n) + 1);
        bytes::be16(n % 0x1_0000) + seq![size as u8] + offsets_of(items, n + 1, size) + joined(
            items,
            n,
        )
    }
}

/// How many bytes an INDEX of one item takes.
pub open spec fn single_index_len(len: int) -> int {
    3 + 2 * offset_size(len + 1) + len
}

pub open spec fn lists_view(items: Seq<Vec<u8>>) -> Seq<Seq<u8>> {
    items.map_values(|v: Vec<u8>| v@)
}

fn push_low(out: &mut Vec<u8>, v: u128, size: usize)
    requires
        1 <= size <= 4,
    ensures
        final(out)@ == old(out)@ + low_bytes(v as int, size as int),
{
    let ghost before = out@;
    let w: u32 = (v % 0x1_0000_0000) as u32;
    let ghost all = bytes::be32(w as int);
    if size > 3 {
        out.push((w / 0x100_0000) as u8);
    }
    if size > 2 {
        out.push((w / 0x1_0000 % 256) as u8);
    }
    if size > 1 {
        out.push((w / 256 % 256) as u8);
    }
    out.push((w % 256) as u8);
    assert(out@ =~= before + all.skip(4 - size));
}

/// An INDEX of these items.
pub fn index(items: &Vec<Vec<u8>>) -> (r: Vec<u8>)
    ensures
        r@ == index_of(lists_view(items@)),
{
    let ghost view = lists_view(items@);
    let mut out: Vec<u8> = Vec::new();
    let n: usize = items.len();
    if n == 0 {
        out.push(0);
        out.push(0);
        assert(out@ =~= seq![0u8, 0u8]);
        return out;
    }
    let mut total: u128 = 0;
    let mut i: usize = 0;
    while i < n
        invariant
            i <= n == items@.len(),
            view == lists_view(items@),
            total == total_len(view, i as int),
            total <= i * 0xFFFF_FFFF_FFFF_FFFF,
        decreases n - i,
    {
        assert(view[i as int] == items@[i as int]@);
        total = total + items[i].len() as u128;
        i += 1;
    }
    let size: usize = if total < 0xFF {
        1
    } else if total < 0xFFFF {
        2
    } else if total < 0xFF_FFFF {
        3
    } else {
        4
    };
    assert(size == offset_size(total + 1));
    bytes::push_be16(&mut out, (n as u64 % 0x1_0000) as u16);
    out.push(size as u8);
    let ghost front = out@;
    assert(front =~= bytes::be16(n as int % 0x1_0000) + seq![size as u8]);
    let mut pos: u128 = 0;
    let mut j: usize = 0;
    assert(front + offsets_of(view, 0, size as int) =~= front);
    while j < n
        invariant
            j <= n == items@.len(),
            1 <= size <= 4,
            view == lists_view(items@),
            pos == total_len(view, j as int),
            pos <= j * 0xFFFF_FFFF_FFFF_FFFF,
            out@ == front + offsets_of(view, j as int, size as int),
        decreases n - j,
    {
        assert(view[j as int] == items@[j as int]@);
        push_low(&mut out, pos + 1, size);
        assert(out@ =~= front + offsets_of(view, j + 1, size as int));
        pos = pos + items[j].len() as u128;
        j += 1;
    }
    push_low(&mut out, pos + 1, size);
    let ghost head = front + offsets_of(view, n + 1, size as int);
    assert(out@ =~= head);
    let mut k: usize = 0;
    assert(head + joined(view, 0) =~= head);
    while k < n
        invariant
            k <= n == items@.len(),
            view == lists_view(items@),
            out@ == head + joined(view, k as int),
        decreases n - k,
    {
        assert(view[k as int] == items@[k as int]@);
        bytes::append(&mut out, &items[k]);
        assert(out@ =~= head + joined(view, k + 1));
        k += 1;
    }
    out
}

proof fn lemma_single_index(item: Seq<u8>)
    ensures
        index_of(seq![item]).len() == single_index_len(item.len() as int),
{
    let items = seq![item];
    reveal_with_fuel(total_len, 2);
    reveal_with_fuel(joined, 2);
    reveal_with_fuel(offsets_of, 3);
    assert(items[0] == item);
    let size = offset_size(item.len() as int + 1);
    assert(offsets_of(items, 2, size).len() == 2 * size);
    assert(joined(items, 1) =~= item);
}

// ------------------------------------------------------------- strings

/// How many standard strings there are.
pub const STANDARD: u16 = 391;

/// The standard string with this number.
pub uninterp spec fn standard_string(sid: u16) -> Option<Seq<u8>>;

/// `read_fonts::ps::Sid::resolve_standard`: the standard string with this
/// number. There are 391 of them.
#[verifier::external_body]
fn resolve_standard(sid: u16) -> (r: Option<Vec<u8>>)
    ensures
        codes::name_view(r) == standard_string(sid),
        r is Some <==> sid < STANDARD,
{
    read_fonts::ps::Sid::new(sid).resolve_standard().ok().map(|s| s.to_vec())
}

/// The standard string from number `i` on that is `name`.
pub open spec fn standard_sid(name: Seq<u8>, i: int) -> Option<int>
    decreases STANDARD - i,
{
    if i < 0 || i >= STANDARD {
        None
    } else if standard_string(i as u16) == Some(name) {
        Some(i)
    } else {
        standard_sid(name, i + 1)
    }
}

/// Where `name` stands among the items from `i` on.
pub open spec fn place_of(items: Seq<Seq<u8>>, name: Seq<u8>, i: int) -> Option<int>
    decreases items.len() - i,
{
    if i < 0 || i >= items.len() {
        None
    } else if items[i] == name {
        Some(i)
    } else {
        place_of(items, name, i + 1)
    }
}

/// The number of a string, and the custom strings with it among them: a
/// standard number, or one after the standard ones.
pub open spec fn sid_of(custom: Seq<Seq<u8>>, name: Seq<u8>) -> (int, Seq<Seq<u8>>) {
    match standard_sid(name, 0) {
        Some(i) => (i, custom),
        None => match place_of(custom, name, 0) {
            Some(k) => ((STANDARD + k) % 0x1_0000, custom),
            None => ((STANDARD + custom.len()) % 0x1_0000, custom.push(name)),
        },
    }
}

/// Custom strings get numbers after the standard ones.
struct Strings {
    standard: Vec<Vec<u8>>,
    custom: Vec<Vec<u8>>,
}

impl Strings {
    spec fn wf(self) -> bool {
        &&& self.standard@.len() == STANDARD
        &&& forall|i: int|
            0 <= i < STANDARD ==> standard_string(i as u16) == Some(
                (#[trigger] self.standard@[i])@,
            )
    }

    fn new() -> (r: Strings)
        ensures
            r.wf(),
            lists_view(r.custom@) == Seq::<Seq<u8>>::empty(),
    {
        let mut standard: Vec<Vec<u8>> = Vec::new();
        let mut i: u16 = 0;
        while i < STANDARD
            invariant
                i <= STANDARD,
                standard@.len() == i,
                forall|k: int|
                    0 <= k < i ==> standard_string(k as u16) == Some((#[trigger] standard@[k])@),
            decreases STANDARD - i,
        {
            match resolve_standard(i) {
                Some(name) => standard.push(name),
                None => {},
            }
            i += 1;
        }
        let custom: Vec<Vec<u8>> = Vec::new();
        assert(lists_view(custom@) =~= Seq::empty());
        Strings { standard, custom }
    }

    fn sid(&mut self, name: &[u8]) -> (r: u16)
        requires
            old(self).wf(),
        ensures
            final(self).wf(),
            (r as int, lists_view(final(self).custom@)) == sid_of(
                lists_view(old(self).custom@),
                name@,
            ),
    {
        let mut i: usize = 0;
        while i < 391
            invariant
                i <= 391,
                self.wf(),
                self == old(self),
                standard_sid(name@, 0) == standard_sid(name@, i as int),
            decreases 391 - i,
        {
            assert(standard_string(i as u16) == Some(self.standard@[i as int]@));
            if bytes::same(&self.standard[i], name) {
                return i as u16;
            }
            i += 1;
        }
        let ghost view = lists_view(self.custom@);
        let mut k: usize = 0;
        while k < self.custom.len()
            invariant
                k <= self.custom@.len(),
                self.wf(),
                self == old(self),
                view == lists_view(self.custom@),
                standard_sid(name@, 0) is None,
                place_of(view, name@, 0) == place_of(view, name@, k as int),
            decreases self.custom@.len() - k,
        {
            assert(view[k as int] == self.custom@[k as int]@);
            if bytes::same(&self.custom[k], name) {
                return ((k as u128 + 391) % 0x1_0000) as u16;
            }
            k += 1;
        }
        let sid: u16 = ((k as u128 + 391) % 0x1_0000) as u16;
        self.custom.push(bytes::copy(name));
        assert(lists_view(self.custom@) =~= view.push(name@));
        sid
    }
}

// ------------------------------------------------------------- glyphs

/// A glyph to write: its name and Type 2 charstring.
#[derive(Debug, PartialEq, Eq)]
pub struct Glyph {
    pub name: Vec<u8>,
    pub charstring: Vec<u8>,
}

/// What a glyph is.
pub struct GlyphView {
    pub name: Seq<u8>,
    pub charstring: Seq<u8>,
}

impl View for Glyph {
    type V = GlyphView;

    open spec fn view(&self) -> GlyphView {
        GlyphView { name: self.name@, charstring: self.charstring@ }
    }
}

pub open spec fn glyphs_view(glyphs: Seq<Glyph>) -> Seq<GlyphView> {
    glyphs.map_values(|g: Glyph| g@)
}

impl Glyph {
    /// A copy of the glyph.
    pub fn copied(&self) -> (r: Glyph)
        ensures
            r@ == self@,
    {
        Glyph { name: bytes::copy(&self.name), charstring: bytes::copy(&self.charstring) }
    }
}

/// The first code from `code` on that selects `name`.
pub open spec fn first_code(map: codes::CodesView, name: Seq<u8>, code: int) -> Option<int>
    decreases 256 - code,
{
    if code < 0 || code >= 256 {
        None
    } else if map[code] == Some(name) {
        Some(code)
    } else {
        first_code(map, name, code + 1)
    }
}

/// Of the glyphs from `i` on, those whose first code is `code`, in order.
pub open spec fn glyphs_at(
    map: codes::CodesView,
    glyphs: Seq<GlyphView>,
    code: Option<int>,
    i: int,
) -> Seq<GlyphView>
    decreases glyphs.len() - i,
{
    if i < 0 || i >= glyphs.len() {
        Seq::empty()
    } else if first_code(map, glyphs[i].name, 0) == code {
        seq![glyphs[i]] + glyphs_at(map, glyphs, code, i + 1)
    } else {
        glyphs_at(map, glyphs, code, i + 1)
    }
}

/// The glyphs behind the first one that the codes from `code` on select, in
/// code order.
pub open spec fn encoded_glyphs(map: codes::CodesView, glyphs: Seq<GlyphView>, code: int) -> Seq<
    GlyphView,
>
    decreases 256 - code,
{
    if code < 0 || code >= 256 {
        Seq::empty()
    } else {
        glyphs_at(map, glyphs, Some(code), 1) + encoded_glyphs(map, glyphs, code + 1)
    }
}

/// Glyph order for a custom encoding: the first one, then the glyphs the
/// encoding selects (in code order), then the rest in their own order.
pub open spec fn ordered(glyphs: Seq<GlyphView>, map: Option<codes::CodesView>) -> Seq<GlyphView> {
    match map {
        None => glyphs,
        Some(m) => seq![glyphs[0]] + encoded_glyphs(m, glyphs, 0) + glyphs_at(m, glyphs, None, 1),
    }
}

fn find_code(map: &CodeNames, name: &[u8]) -> (r: Option<usize>)
    requires
        map.wf(),
    ensures
        match r {
            Some(c) => first_code(map@, name@, 0) == Some(c as int) && c < 256,
            None => first_code(map@, name@, 0) is None,
        },
{
    let mut c: usize = 0;
    while c < 256
        invariant
            c <= 256,
            map.wf(),
            first_code(map@, name@, 0) == first_code(map@, name@, c as int),
        decreases 256 - c,
    {
        if map.selects(c as u8, name) {
            return Some(c);
        }
        c += 1;
    }
    None
}

fn push_glyphs(
    glyphs: &Vec<Glyph>,
    found: &Vec<Option<usize>>,
    code: Option<usize>,
    out: &mut Vec<Glyph>,
    map: &CodeNames,
)
    requires
        map.wf(),
        found@.len() == glyphs@.len(),
        forall|i: int|
            0 <= i < found@.len() ==> first_code(map@, glyphs@[i].name@, 0) == match (
            #[trigger] found@[i]) {
                Some(c) => Some(c as int),
                None => None,
            },
    ensures
        glyphs_view(final(out)@) == glyphs_view(old(out)@) + glyphs_at(
            map@,
            glyphs_view(glyphs@),
            match code {
                Some(c) => Some(c as int),
                None => None,
            },
            1,
        ),
{
    let ghost view = glyphs_view(glyphs@);
    let ghost wanted: Option<int> = match code {
        Some(c) => Some(c as int),
        None => None,
    };
    let ghost before = glyphs_view(out@);
    let mut i: usize = 1;
    while i < glyphs.len()
        invariant
            1 <= i,
            view == glyphs_view(glyphs@),
            wanted == (match code {
                Some(c) => Some(c as int),
                None => None,
            }),
            found@.len() == glyphs@.len(),
            forall|i: int|
                0 <= i < found@.len() ==> first_code(map@, glyphs@[i].name@, 0) == match (
                #[trigger] found@[i]) {
                    Some(c) => Some(c as int),
                    None => None,
                },
            glyphs_view(out@) + glyphs_at(map@, view, wanted, i as int) == before + glyphs_at(
                map@,
                view,
                wanted,
                1,
            ),
        decreases glyphs@.len() - i,
    {
        assert(view[i as int] == glyphs@[i as int]@);
        let here = match (found[i], code) {
            (Some(a), Some(b)) => a == b,
            (None, None) => true,
            _ => false,
        };
        if here {
            let ghost now = glyphs_view(out@);
            let g = glyphs[i].copied();
            out.push(g);
            assert(glyphs_view(out@) =~= now.push(view[i as int]));
            assert(now + (seq![view[i as int]] + glyphs_at(map@, view, wanted, i + 1))
                =~= now.push(view[i as int]) + glyphs_at(map@, view, wanted, i + 1));
        }
        i += 1;
    }
    assert(glyphs_view(out@) + Seq::<GlyphView>::empty() =~= glyphs_view(out@));
}

/// Glyph order for a custom encoding: `.notdef`, then the glyphs the
/// encoding selects (in code order), then the rest in their own order.
pub fn sort_glyphs(glyphs: Vec<Glyph>, encoding: Option<&CodeNames>) -> (r: Vec<Glyph>)
    requires
        encoding is Some ==> glyphs@.len() > 0 && encoding->0.wf(),
    ensures
        glyphs_view(r@) == ordered(
            glyphs_view(glyphs@),
            match encoding {
                Some(m) => Some(m@),
                None => None,
            },
        ),
{
    let map = match encoding {
        Some(map) => map,
        None => {
            return glyphs;
        },
    };
    let ghost view = glyphs_view(glyphs@);
    let mut found: Vec<Option<usize>> = Vec::new();
    let mut i: usize = 0;
    while i < glyphs.len()
        invariant
            i <= glyphs@.len(),
            found@.len() == i,
            map.wf(),
            forall|k: int|
                0 <= k < found@.len() ==> first_code(map@, glyphs@[k].name@, 0) == match (
                #[trigger] found@[k]) {
                    Some(c) => Some(c as int),
                    None => None,
                },
        decreases glyphs@.len() - i,
    {
        found.push(find_code(map, &glyphs[i].name));
        i += 1;
    }
    let mut out: Vec<Glyph> = Vec::new();
    out.push(glyphs[0].copied());
    let ghost first = seq![view[0]];
    assert(glyphs_view(out@) =~= first);
    let mut code: usize = 0;
    while code < 256
        invariant
            code <= 256,
            map.wf(),
            view == glyphs_view(glyphs@),
            found@.len() == glyphs@.len(),
            forall|k: int|
                0 <= k < found@.len() ==> first_code(map@, glyphs@[k].name@, 0) == match (
                #[trigger] found@[k]) {
                    Some(c) => Some(c as int),
                    None => None,
                },
            glyphs_view(out@) + encoded_glyphs(map@, view, code as int) == first + encoded_glyphs(
                map@,
                view,
                0,
            ),
        decreases 256 - code,
    {
        let ghost now = glyphs_view(out@);
        push_glyphs(&glyphs, &found, Some(code), &mut out, map);
        assert(now + (glyphs_at(map@, view, Some(code as int), 1) + encoded_glyphs(
            map@,
            view,
            code + 1,
        )) =~= glyphs_view(out@) + encoded_glyphs(map@, view, code + 1));
        code += 1;
    }
    assert(glyphs_view(out@) + Seq::<GlyphView>::empty() =~= glyphs_view(out@));
    push_glyphs(&glyphs, &found, None, &mut out, map);
    out
}

// ------------------------------------------------------------- charset and encoding

/// One string number per glyph from `i` on, and the custom strings then.
pub open spec fn charset_from(glyphs: Seq<GlyphView>, i: int, custom: Seq<Seq<u8>>) -> (
    Seq<u8>,
    Seq<Seq<u8>>,
)
    decreases glyphs.len() - i,
{
    if i < 0 || i >= glyphs.len() {
        (Seq::empty(), custom)
    } else {
        let (sid, now) = sid_of(custom, glyphs[i].name);
        let rest = charset_from(glyphs, i + 1, now);
        (bytes::be16(sid) + rest.0, rest.1)
    }
}

/// Format 0: one string number per glyph after `.notdef`.
fn charset(glyphs: &Vec<Glyph>, strings: &mut Strings) -> (r: Vec<u8>)
    requires
        old(strings).wf(),
    ensures
        final(strings).wf(),
        ({
            let all = charset_from(glyphs_view(glyphs@), 1, lists_view(old(strings).custom@));
            r@ == seq![0u8] + all.0 && lists_view(final(strings).custom@) == all.1
        }),
{
    let ghost view = glyphs_view(glyphs@);
    let ghost all = charset_from(view, 1, lists_view(strings.custom@));
    let mut out: Vec<u8> = Vec::new();
    out.push(0);
    assert(out@ =~= seq![0u8]);
    let mut i: usize = 1;
    while i < glyphs.len()
        invariant
            1 <= i,
            strings.wf(),
            view == glyphs_view(glyphs@),
            ({
                let rest = charset_from(view, i as int, lists_view(strings.custom@));
                out@ + rest.0 == seq![0u8] + all.0 && rest.1 == all.1
            }),
        decreases glyphs@.len() - i,
    {
        let ghost here = out@;
        let ghost custom = lists_view(strings.custom@);
        assert(view[i as int] == glyphs@[i as int]@);
        let sid = strings.sid(&glyphs[i].name);
        bytes::push_be16(&mut out, sid);
        proof {
            let rest = charset_from(view, i + 1, lists_view(strings.custom@));
            assert(here + (bytes::be16(sid as int) + rest.0) =~= out@ + rest.0);
        }
        i += 1;
    }
    assert(out@ + Seq::<u8>::empty() =~= out@);
    out
}

/// The supplements that the codes from `code` on give a glyph, and the custom
/// strings then: three bytes each.
pub open spec fn supplements(
    map: codes::CodesView,
    name: Seq<u8>,
    code: int,
    custom: Seq<Seq<u8>>,
) -> (Seq<u8>, Seq<Seq<u8>>)
    decreases 256 - code,
{
    if code < 0 || code >= 256 {
        (Seq::empty(), custom)
    } else if map[code] == Some(name) {
        let (sid, now) = sid_of(custom, name);
        let rest = supplements(map, name, code + 1, now);
        (seq![code as u8] + bytes::be16(sid) + rest.0, rest.1)
    } else {
        supplements(map, name, code + 1, custom)
    }
}

/// The codes of the glyphs from `i` on up to the first one without a code:
/// the code that first selects each, and the supplements that stand for
/// further codes.
pub open spec fn encoding_from(
    map: codes::CodesView,
    glyphs: Seq<GlyphView>,
    i: int,
    custom: Seq<Seq<u8>>,
) -> (Seq<u8>, Seq<u8>, Seq<Seq<u8>>)
    decreases glyphs.len() - i,
{
    if i < 0 || i >= glyphs.len() {
        (Seq::empty(), Seq::empty(), custom)
    } else {
        match first_code(map, glyphs[i].name, 0) {
            None => (Seq::empty(), Seq::empty(), custom),
            Some(code) => {
                let more = supplements(map, glyphs[i].name, code + 1, custom);
                let rest = encoding_from(map, glyphs, i + 1, more.1);
                (seq![code as u8] + rest.0, more.0 + rest.1, rest.2)
            },
        }
    }
}

/// Format 0, with its supplements where there are any.
pub open spec fn encoding_bytes(primary: Seq<u8>, more: Seq<u8>) -> Seq<u8> {
    if more.len() == 0 {
        seq![0u8, (primary.len() % 256) as u8] + primary
    } else {
        seq![0x80u8, (primary.len() % 256) as u8] + primary + seq![(more.len() / 3 % 256) as u8]
            + more
    }
}

fn push_supplements(
    map: &CodeNames,
    name: &[u8],
    from: usize,
    strings: &mut Strings,
    out: &mut Vec<u8>,
)
    requires
        map.wf(),
        from <= 256,
        old(strings).wf(),
    ensures
        final(strings).wf(),
        ({
            let all = supplements(map@, name@, from as int, lists_view(old(strings).custom@));
            final(out)@ == old(out)@ + all.0 && lists_view(final(strings).custom@) == all.1
        }),
{
    let ghost before = out@;
    let ghost all = supplements(map@, name@, from as int, lists_view(strings.custom@));
    let mut code: usize = from;
    while code < 256
        invariant
            code <= 256,
            map.wf(),
            strings.wf(),
            ({
                let rest = supplements(
                    map@,
                    name@,
                    code as int,
                    lists_view(strings.custom@),
                );
                out@ + rest.0 == before + all.0 && rest.1 == all.1
            }),
        decreases 256 - code,
    {
        if map.selects(code as u8, name) {
            let ghost here = out@;
            let sid = strings.sid(name);
            out.push(code as u8);
            bytes::push_be16(out, sid);
            proof {
                let rest = supplements(map@, name@, code + 1, lists_view(strings.custom@));
                assert(here + (seq![code as u8] + bytes::be16(sid as int) + rest.0) =~= out@
                    + rest.0);
            }
        }
        code += 1;
    }
    assert(out@ + Seq::<u8>::empty() =~= out@);
}

/// Format 0 with supplements: glyphs 1..n get the code that first selects
/// them; further codes for the same glyph are supplements. Glyphs with no
/// code must follow the encoded ones, which `sort_glyphs` guarantees.
fn encoding(map: &CodeNames, glyphs: &Vec<Glyph>, strings: &mut Strings) -> (r: Vec<u8>)
    requires
        map.wf(),
        old(strings).wf(),
    ensures
        final(strings).wf(),
        ({
            let all = encoding_from(
                map@,
                glyphs_view(glyphs@),
                1,
                lists_view(old(strings).custom@),
            );
            r@ == encoding_bytes(all.0, all.1) && lists_view(final(strings).custom@) == all.2
        }),
{
    let ghost view = glyphs_view(glyphs@);
    let ghost all = encoding_from(map@, view, 1, lists_view(strings.custom@));
    let mut primary: Vec<u8> = Vec::new();
    let mut more: Vec<u8> = Vec::new();
    let mut i: usize = 1;
    let mut open: bool = true;
    assert(primary@ + all.0 =~= all.0);
    assert(more@ + all.1 =~= all.1);
    while open && i < glyphs.len()
        invariant
            1 <= i,
            map.wf(),
            strings.wf(),
            view == glyphs_view(glyphs@),
            open ==> ({
                let rest = encoding_from(map@, view, i as int, lists_view(strings.custom@));
                primary@ + rest.0 == all.0 && more@ + rest.1 == all.1 && rest.2 == all.2
            }),
            !open ==> primary@ == all.0 && more@ == all.1 && lists_view(strings.custom@) == all.2,
        decreases
            glyphs@.len() - i,
            if open {
                1int
            } else {
                0
            },
    {
        assert(view[i as int] == glyphs@[i as int]@);
        let name = &glyphs[i].name;
        match find_code(map, name) {
            None => {
                open = false;
                assert(primary@ + Seq::<u8>::empty() =~= primary@);
                assert(more@ + Seq::<u8>::empty() =~= more@);
            },
            Some(code) => {
                let ghost p = primary@;
                let ghost m = more@;
                let ghost extra = supplements(
                    map@,
                    name@,
                    code + 1,
                    lists_view(strings.custom@),
                );
                primary.push(code as u8);
                push_supplements(map, name, code + 1, strings, &mut more);
                proof {
                    let rest = encoding_from(map@, view, i + 1, extra.1);
                    assert(p + (seq![code as u8] + rest.0) =~= primary@ + rest.0);
                    assert(m + (extra.0 + rest.1) =~= more@ + rest.1);
                }
                i += 1;
            },
        }
    }
    assert(primary@ + Seq::<u8>::empty() =~= primary@);
    assert(more@ + Seq::<u8>::empty() =~= more@);
    let mut out: Vec<u8> = Vec::new();
    out.push(
        if more.len() == 0 {
            0
        } else {
            0x80
        },
    );
    out.push((primary.len() % 256) as u8);
    bytes::append(&mut out, &primary);
    if more.len() > 0 {
        out.push((more.len() / 3 % 256) as u8);
        bytes::append(&mut out, &more);
    }
    assert(out@ =~= encoding_bytes(all.0, all.1));
    out
}

// ------------------------------------------------------------- DICTs

/// The font to write.
pub struct Font<'a> {
    pub name: &'a [u8],
    pub font_matrix: Option<&'a Vec<Decimal>>,
    pub font_bbox: Option<&'a Vec<Decimal>>,
    /// Glyph 0 must be `.notdef`.
    pub glyphs: &'a Vec<Glyph>,
    /// Code to glyph name for a custom encoding; `None` for the standard
    /// encoding.
    pub encoding: Option<&'a CodeNames>,
    /// Private DICT values by Type 1 key.
    pub private: &'a Vec<(Vec<u8>, Vec<Decimal>)>,
}

/// What a font to write holds.
pub struct FontView {
    pub name: Seq<u8>,
    pub matrix: Option<Seq<Decimal>>,
    pub bbox: Option<Seq<Decimal>>,
    pub glyphs: Seq<GlyphView>,
    pub encoding: Option<codes::CodesView>,
    pub private: Seq<(Seq<u8>, Seq<Decimal>)>,
}

impl<'a> Font<'a> {
    /// What the font holds.
    pub open spec fn model(self) -> FontView {
        FontView {
            name: self.name@,
            matrix: match self.font_matrix {
                Some(m) => Some(m@),
                None => None,
            },
            bbox: match self.font_bbox {
                Some(b) => Some(b@),
                None => None,
            },
            glyphs: glyphs_view(self.glyphs@),
            encoding: match self.encoding {
                Some(e) => Some(e@),
                None => None,
            },
            private: self.private@.map_values(|e: (Vec<u8>, Vec<Decimal>)| (e.0@, e.1@)),
        }
    }

    /// An encoding has a place for every code.
    pub open spec fn wf(self) -> bool {
        self.encoding is Some ==> self.encoding->0.wf()
    }
}

/// A thousandth.
pub open spec fn thousandth() -> Decimal {
    Decimal { digits: 1, exponent: -3i16 }
}

/// Zero.
pub open spec fn zero() -> Decimal {
    Decimal { digits: 0, exponent: 0 }
}

/// The matrix that a Top DICT leaves out.
pub open spec fn is_default_matrix(m: Seq<Decimal>) -> bool {
    m == seq![thousandth(), zero(), zero(), thousandth(), zero(), zero()]
}

fn default_matrix(m: &Vec<Decimal>) -> (r: bool)
    ensures
        r == is_default_matrix(m@),
{
    if m.len() != 6 {
        return false;
    }
    let small = Decimal { digits: 1, exponent: -3 };
    let none = Decimal { digits: 0, exponent: 0 };
    let r = m[0] == small && m[1] == none && m[2] == none && m[3] == small && m[4] == none && m[5]
        == none;
    proof {
        let matrix = seq![thousandth(), zero(), zero(), thousandth(), zero(), zero()];
        if r {
            assert(m@ =~= matrix);
        } else if m@ == matrix {
            assert(m@[0] == matrix[0] && m@[1] == matrix[1] && m@[2] == matrix[2]);
            assert(m@[3] == matrix[3] && m@[4] == matrix[4] && m@[5] == matrix[5]);
        }
    }
    r
}

/// Where the parts that a Top DICT points at stand.
pub struct Offsets {
    pub charset: usize,
    pub encoding: Option<usize>,
    pub charstrings: usize,
    pub private: usize,
}

/// What a Top DICT says of the glyphs' size: the bounding box, and the matrix
/// unless it is the usual one.
pub open spec fn top_sizes(font: FontView) -> Seq<u8> {
    (match font.bbox {
        Some(b) => dict_numbers(b, 0) + seq![5u8],
        None => Seq::empty(),
    }) + (match font.matrix {
        Some(m) => if is_default_matrix(m) {
            Seq::empty()
        } else {
            dict_numbers(m, 0) + seq![12u8, 7u8]
        },
        None => Seq::empty(),
    })
}

/// The Top DICT: the glyphs' size, and where the other parts stand.
#[verifier::opaque]
pub open spec fn top_dict_of(font: FontView, offsets: Offsets, private_len: int) -> Seq<u8> {
    top_sizes(font) + (dict_offset(offsets.charset as int) + seq![15u8]) + (match offsets.encoding {
        Some(e) => dict_offset(e as int) + seq![16u8],
        None => Seq::empty(),
    }) + (dict_offset(offsets.charstrings as int) + seq![17u8]) + (dict_offset(private_len)
        + dict_offset(offsets.private as int) + seq![18u8])
}

fn top_dict(font: &Font<'_>, offsets: &Offsets, private_len: usize) -> (r: Vec<u8>)
    ensures
        r@ == top_dict_of(font.model(), *offsets, private_len as int),
{
    reveal(top_dict_of);
    let mut out: Vec<u8> = Vec::new();
    let ghost f = font.model();
    match font.font_bbox {
        Some(b) => {
            numbers(b, &mut out);
            out.push(5);
        },
        None => {},
    }
    let ghost bbox = match f.bbox {
        Some(b) => dict_numbers(b, 0) + seq![5u8],
        None => Seq::<u8>::empty(),
    };
    assert(out@ =~= bbox);
    match font.font_matrix {
        Some(m) => {
            if !default_matrix(m) {
                numbers(m, &mut out);
                out.push(12);
                out.push(7);
            }
        },
        None => {},
    }
    let ghost matrix = match f.matrix {
        Some(m) => if is_default_matrix(m) {
            Seq::<u8>::empty()
        } else {
            dict_numbers(m, 0) + seq![12u8, 7u8]
        },
        None => Seq::<u8>::empty(),
    };
    assert(out@ =~= bbox + matrix);
    offset(offsets.charset, &mut out);
    out.push(15);
    let ghost charset = dict_offset(offsets.charset as int) + seq![15u8];
    assert(out@ =~= bbox + matrix + charset);
    match offsets.encoding {
        Some(e) => {
            offset(e, &mut out);
            out.push(16);
        },
        None => {},
    }
    let ghost encoding = match offsets.encoding {
        Some(e) => dict_offset(e as int) + seq![16u8],
        None => Seq::<u8>::empty(),
    };
    assert(out@ =~= bbox + matrix + charset + encoding);
    offset(offsets.charstrings, &mut out);
    out.push(17);
    let ghost charstrings = dict_offset(offsets.charstrings as int) + seq![17u8];
    assert(out@ =~= bbox + matrix + charset + encoding + charstrings);
    offset(private_len, &mut out);
    offset(offsets.private, &mut out);
    out.push(18);
    assert(out@ =~= bbox + matrix + charset + encoding + charstrings + (dict_offset(
        private_len as int,
    ) + dict_offset(offsets.private as int) + seq![18u8]));
    out
}

proof fn lemma_offset_len(v: int, op: u8)
    ensures
        dict_offset(v).len() == 5,
        (dict_offset(v) + seq![op]).len() == 6,
{
}

/// The size of a Top DICT does not depend on the offsets it holds.
proof fn lemma_top_len(font: FontView, a: Offsets, b: Offsets, private_len: int)
    requires
        a.encoding is Some <==> b.encoding is Some,
    ensures
        top_dict_of(font, a, private_len).len() == top_dict_of(font, b, private_len).len(),
{
    reveal(top_dict_of);
    lemma_offset_len(a.charset as int, 15);
    lemma_offset_len(b.charset as int, 15);
    lemma_offset_len(a.charstrings as int, 17);
    lemma_offset_len(b.charstrings as int, 17);
    lemma_offset_len(private_len, 18);
    lemma_offset_len(a.private as int, 18);
    lemma_offset_len(b.private as int, 18);
    if a.encoding is Some {
        lemma_offset_len(a.encoding->0 as int, 16);
        lemma_offset_len(b.encoding->0 as int, 16);
    }
    let n = top_sizes(font).len();
    let more: int = if a.encoding is Some {
        6
    } else {
        0
    };
    assert(top_dict_of(font, a, private_len).len() == n + 23 + more);
    assert(top_dict_of(font, b, private_len).len() == n + 23 + more);
}

/// The operator of a Type 1 private key, and whether its array is stored as
/// differences from the previous element.
pub open spec fn private_op(key: Seq<u8>) -> Option<(Seq<u8>, bool)> {
    if key == bytes::text("BlueValues"@) {
        Some((seq![6u8], true))
    } else if key == bytes::text("OtherBlues"@) {
        Some((seq![7u8], true))
    } else if key == bytes::text("FamilyBlues"@) {
        Some((seq![8u8], true))
    } else if key == bytes::text("FamilyOtherBlues"@) {
        Some((seq![9u8], true))
    } else if key == bytes::text("BlueScale"@) {
        Some((seq![12u8, 9u8], false))
    } else if key == bytes::text("BlueShift"@) {
        Some((seq![12u8, 10u8], false))
    } else if key == bytes::text("BlueFuzz"@) {
        Some((seq![12u8, 11u8], false))
    } else if key == bytes::text("StdHW"@) {
        Some((seq![10u8], false))
    } else if key == bytes::text("StdVW"@) {
        Some((seq![11u8], false))
    } else if key == bytes::text("StemSnapH"@) {
        Some((seq![12u8, 12u8], true))
    } else if key == bytes::text("StemSnapV"@) {
        Some((seq![12u8, 13u8], true))
    } else if key == bytes::text("ForceBold"@) {
        Some((seq![12u8, 14u8], false))
    } else if key == bytes::text("LanguageGroup"@) {
        Some((seq![12u8, 17u8], false))
    } else if key == bytes::text("ExpansionFactor"@) {
        Some((seq![12u8, 18u8], false))
    } else {
        None
    }
}

/// The operator of a private key: one byte, or two where the first is 12.
fn find_op(key: &[u8]) -> (r: Option<(u8, u8, bool)>)
    ensures
        match r {
            Some((a, b, delta)) => private_op(key@) == Some(
                (
                    if a == 12 {
                        seq![12u8, b]
                    } else {
                        seq![a]
                    },
                    delta,
                ),
            ),
            None => private_op(key@) is None,
        },
{
    if bytes::is_text(key, "BlueValues") {
        Some((6, 0, true))
    } else if bytes::is_text(key, "OtherBlues") {
        Some((7, 0, true))
    } else if bytes::is_text(key, "FamilyBlues") {
        Some((8, 0, true))
    } else if bytes::is_text(key, "FamilyOtherBlues") {
        Some((9, 0, true))
    } else if bytes::is_text(key, "BlueScale") {
        Some((12, 9, false))
    } else if bytes::is_text(key, "BlueShift") {
        Some((12, 10, false))
    } else if bytes::is_text(key, "BlueFuzz") {
        Some((12, 11, false))
    } else if bytes::is_text(key, "StdHW") {
        Some((10, 0, false))
    } else if bytes::is_text(key, "StdVW") {
        Some((11, 0, false))
    } else if bytes::is_text(key, "StemSnapH") {
        Some((12, 12, true))
    } else if bytes::is_text(key, "StemSnapV") {
        Some((12, 13, true))
    } else if bytes::is_text(key, "ForceBold") {
        Some((12, 14, false))
    } else if bytes::is_text(key, "LanguageGroup") {
        Some((12, 17, false))
    } else if bytes::is_text(key, "ExpansionFactor") {
        Some((12, 18, false))
    } else {
        None
    }
}

/// The values to write: themselves, or the differences between neighbours.
pub open spec fn deltas(values: Seq<Decimal>, delta: bool) -> Seq<Decimal> {
    Seq::new(
        values.len(),
        |i: int|
            if delta && i > 0 {
                values[i].less(values[i - 1])
            } else {
                values[i]
            },
    )
}

/// What one private value becomes: nothing for a key without an operator, no
/// values, or an odd number of paired ones.
pub open spec fn private_entry(key: Seq<u8>, values: Seq<Decimal>) -> Seq<u8> {
    match private_op(key) {
        None => Seq::empty(),
        Some((op, delta)) => if values.len() == 0 || (delta && values.len() % 2 != 0) {
            Seq::empty()
        } else {
            dict_numbers(deltas(values, delta), 0) + op
        },
    }
}

/// The Private DICT of the values from `i` on.
pub open spec fn private_from(values: Seq<(Seq<u8>, Seq<Decimal>)>, i: int) -> Seq<u8>
    decreases values.len() - i,
{
    if i < 0 || i >= values.len() {
        Seq::empty()
    } else {
        private_entry(values[i].0, values[i].1) + private_from(values, i + 1)
    }
}

fn push_private(key: &[u8], values: &Vec<Decimal>, out: &mut Vec<u8>)
    ensures
        final(out)@ == old(out)@ + private_entry(key@, values@),
{
    let ghost before = out@;
    let (a, b, delta) = match find_op(key) {
        Some(op) => op,
        None => {
            assert(out@ =~= before + Seq::<u8>::empty());
            return ;
        },
    };
    if values.len() == 0 || (delta && values.len() % 2 != 0) {
        assert(out@ =~= before + Seq::<u8>::empty());
        return ;
    }
    let mut stored: Vec<Decimal> = Vec::new();
    let mut i: usize = 0;
    while i < values.len()
        invariant
            i <= values@.len(),
            stored@ == deltas(values@, delta).take(i as int),
        decreases values@.len() - i,
    {
        let v = if delta && i > 0 {
            values[i].minus(values[i - 1])
        } else {
            values[i]
        };
        stored.push(v);
        i += 1;
        assert(stored@ =~= deltas(values@, delta).take(i as int));
    }
    assert(stored@ =~= deltas(values@, delta));
    numbers(&stored, out);
    let ghost nums = out@;
    out.push(a);
    if a == 12 {
        out.push(b);
        assert(out@ =~= nums + seq![12u8, b]);
    } else {
        assert(out@ =~= nums + seq![a]);
    }
    assert(out@ =~= before + private_entry(key@, values@));
}

fn private_dict(values: &Vec<(Vec<u8>, Vec<Decimal>)>) -> (r: Vec<u8>)
    ensures
        r@ == private_from(values@.map_values(|e: (Vec<u8>, Vec<Decimal>)| (e.0@, e.1@)), 0),
{
    let ghost view = values@.map_values(|e: (Vec<u8>, Vec<Decimal>)| (e.0@, e.1@));
    let mut out: Vec<u8> = Vec::new();
    let mut i: usize = 0;
    assert(out@ + private_from(view, 0) =~= private_from(view, 0));
    while i < values.len()
        invariant
            i <= values@.len(),
            view == values@.map_values(|e: (Vec<u8>, Vec<Decimal>)| (e.0@, e.1@)),
            out@ + private_from(view, i as int) == private_from(view, 0),
        decreases values@.len() - i,
    {
        let ghost here = out@;
        assert(view[i as int] == (values@[i as int].0@, values@[i as int].1@));
        push_private(&values[i].0, &values[i].1, &mut out);
        assert(here + (private_entry(view[i as int].0, view[i as int].1) + private_from(
            view,
            i + 1,
        )) =~= out@ + private_from(view, i + 1));
        i += 1;
    }
    assert(out@ + Seq::<u8>::empty() =~= out@);
    out
}

// ------------------------------------------------------------- name

/// A character that a font name may hold.
pub open spec fn name_char(b: u8) -> bool {
    '!' as u8 <= b <= '~' as u8 && !(b == '[' as u8 || b == ']' as u8 || b == '(' as u8 || b == ')'
        as u8 || b == '{' as u8 || b == '}' as u8 || b == '<' as u8 || b == '>' as u8 || b == '/'
        as u8 || b == '%' as u8)
}

/// A font name within its limits: 127 characters, anything unusual replaced.
pub open spec fn clean_name(name: Seq<u8>) -> Seq<u8> {
    if name.len() == 0 {
        bytes::text("Untitled"@)
    } else {
        Seq::new(
            if name.len() < 127 {
                name.len()
            } else {
                127
            },
            |i: int|
                if name_char(name[i]) {
                    name[i]
                } else {
                    '_' as u8
                },
        )
    }
}

fn sanitized_name(name: &[u8]) -> (r: Vec<u8>)
    ensures
        r@ == clean_name(name@),
{
    if name.len() == 0 {
        return bytes::of("Untitled");
    }
    let mut out: Vec<u8> = Vec::new();
    let mut i: usize = 0;
    while i < name.len() && i < 127
        invariant
            i <= name@.len(),
            i <= 127,
            name@.len() > 0,
            out@ == clean_name(name@).take(i as int),
        decreases name@.len() - i,
    {
        let b = name[i];
        let plain = ('!' as u8) <= b && b <= ('~' as u8) && !(b == ('[' as u8) || b == (']' as u8)
            || b == ('(' as u8) || b == (')' as u8) || b == ('{' as u8) || b == ('}' as u8) || b
            == ('<' as u8) || b == ('>' as u8) || b == ('/' as u8) || b == ('%' as u8));
        out.push(
            if plain {
                b
            } else {
                '_' as u8
            },
        );
        i += 1;
        assert(out@ =~= clean_name(name@).take(i as int));
    }
    assert(out@ =~= clean_name(name@));
    out
}

// ------------------------------------------------------------- the font

/// The pieces of variable size, built before any offset is known.
pub struct PartsView {
    pub charset: Seq<u8>,
    pub encoding: Option<Seq<u8>>,
    pub charstrings: Seq<u8>,
    pub private: Seq<u8>,
    pub name_index: Seq<u8>,
    pub string_index: Seq<u8>,
}

/// The pieces of a font.
pub open spec fn parts_of(font: FontView) -> PartsView {
    let named = charset_from(font.glyphs, 1, Seq::empty());
    let (encoding, custom) = match font.encoding {
        Some(map) => {
            let e = encoding_from(map, font.glyphs, 1, named.1);
            (Some(encoding_bytes(e.0, e.1)), e.2)
        },
        None => (None, named.1),
    };
    PartsView {
        charset: seq![0u8] + named.0,
        encoding,
        charstrings: index_of(font.glyphs.map_values(|g: GlyphView| g.charstring)),
        private: private_from(font.private, 0),
        name_index: index_of(seq![clean_name(font.name)]),
        string_index: index_of(custom),
    }
}

/// The longest program that the 32-bit offsets can describe.
pub const MAX_LEN: usize = 0x7FFF_FFFF;

/// The Top DICT before any offset is known.
pub open spec fn placeholder(parts: PartsView) -> Offsets {
    Offsets {
        charset: 0,
        encoding: if parts.encoding is Some {
            Some(0usize)
        } else {
            None
        },
        charstrings: 0,
        private: 0,
    }
}

/// Where the charset starts: behind the header, the Name INDEX, the Top DICT
/// INDEX, the String INDEX and an empty Global Subr INDEX.
pub open spec fn fixed_len(font: FontView, parts: PartsView) -> int {
    6 + parts.name_index.len() + single_index_len(
        top_dict_of(font, placeholder(parts), parts.private.len() as int).len() as int,
    ) + parts.string_index.len()
}

/// The bytes of an encoding, if there is one.
pub open spec fn encoding_part(parts: PartsView) -> Seq<u8> {
    match parts.encoding {
        Some(e) => e,
        None => Seq::empty(),
    }
}

/// How long the program is: every part, and one byte after the last.
pub open spec fn program_len(font: FontView, parts: PartsView) -> int {
    fixed_len(font, parts) + parts.charset.len() + encoding_part(parts).len()
        + parts.charstrings.len() + parts.private.len() + 1
}

/// Where each part stands: one behind the other, in a fixed order.
pub open spec fn offsets_in(font: FontView, parts: PartsView) -> Offsets {
    let fixed = fixed_len(font, parts);
    let behind = fixed + parts.charset.len();
    let charstrings = behind + encoding_part(parts).len();
    Offsets {
        charset: fixed as usize,
        encoding: if parts.encoding is Some {
            Some(behind as usize)
        } else {
            None
        },
        charstrings: charstrings as usize,
        private: (charstrings + parts.charstrings.len()) as usize,
    }
}

/// The program up to the charset.
pub open spec fn front_of(font: FontView, parts: PartsView) -> Seq<u8> {
    seq![1u8, 0u8, 4u8, 4u8] + parts.name_index + index_of(
        seq![top_dict_of(font, offsets_in(font, parts), parts.private.len() as int)],
    ) + parts.string_index + seq![0u8, 0u8]
}

/// The whole program.
pub open spec fn program_of(font: FontView, parts: PartsView) -> Seq<u8> {
    front_of(font, parts) + parts.charset + encoding_part(parts) + parts.charstrings
        + parts.private + seq![0u8]
}

/// The program of a font: none without glyphs, without `.notdef` in front,
/// with more glyphs than can be numbered, or longer than an offset can say.
pub open spec fn cff_of(font: FontView) -> Option<Seq<u8>> {
    if font.glyphs.len() == 0 || font.glyphs[0].name != bytes::text(".notdef"@)
        || font.glyphs.len() > 65535 || program_len(font, parts_of(font)) > MAX_LEN {
        None
    } else {
        Some(program_of(font, parts_of(font)))
    }
}

/// The pieces of variable size, built before any offset is known.
struct Parts {
    charset: Vec<u8>,
    encoding: Option<Vec<u8>>,
    charstrings: Vec<u8>,
    private: Vec<u8>,
    name_index: Vec<u8>,
    string_index: Vec<u8>,
}

impl Parts {
    spec fn model(self) -> PartsView {
        PartsView {
            charset: self.charset@,
            encoding: match self.encoding {
                Some(e) => Some(e@),
                None => None,
            },
            charstrings: self.charstrings@,
            private: self.private@,
            name_index: self.name_index@,
            string_index: self.string_index@,
        }
    }
}

fn single(item: Vec<u8>) -> (r: Vec<u8>)
    ensures
        r@ == index_of(seq![item@]),
        r@.len() == single_index_len(item@.len() as int),
{
    let ghost view = item@;
    let mut items: Vec<Vec<u8>> = Vec::new();
    items.push(item);
    assert(lists_view(items@) =~= seq![view]);
    proof {
        lemma_single_index(view);
    }
    index(&items)
}

proof fn lemma_front_len(font: FontView, parts: PartsView)
    ensures
        front_of(font, parts).len() == fixed_len(font, parts),
        program_of(font, parts).len() == program_len(font, parts),
{
    let top = top_dict_of(font, offsets_in(font, parts), parts.private.len() as int);
    lemma_single_index(top);
    lemma_top_len(font, offsets_in(font, parts), placeholder(parts), parts.private.len() as int);
}

fn assemble(font: &Font<'_>, parts: &Parts) -> (r: Option<Vec<u8>>)
    ensures
        match r {
            Some(out) => program_len(font.model(), parts.model()) <= MAX_LEN && out@ == program_of(
                font.model(),
                parts.model(),
            ),
            None => program_len(font.model(), parts.model()) > MAX_LEN,
        },
{
    let ghost f = font.model();
    let ghost p = parts.model();
    let before = Offsets {
        charset: 0,
        encoding: match &parts.encoding {
            Some(_) => Some(0),
            None => None,
        },
        charstrings: 0,
        private: 0,
    };
    assert(before == placeholder(p));
    let top_index = single(top_dict(font, &before, parts.private.len()));
    let encoding_len: usize = match &parts.encoding {
        Some(e) => e.len(),
        None => 0,
    };
    let fixed: u128 = 6 + parts.name_index.len() as u128 + top_index.len() as u128
        + parts.string_index.len() as u128;
    let total: u128 = fixed + parts.charset.len() as u128 + encoding_len as u128
        + parts.charstrings.len() as u128 + parts.private.len() as u128 + 1;
    assert(total == program_len(f, p));
    if total > MAX_LEN as u128 {
        return None;
    }
    let charset: usize = fixed as usize;
    let behind: usize = charset + parts.charset.len();
    let charstrings: usize = behind + encoding_len;
    let offsets = Offsets {
        charset,
        encoding: match &parts.encoding {
            Some(_) => Some(behind),
            None => None,
        },
        charstrings,
        private: charstrings + parts.charstrings.len(),
    };
    assert(offsets == offsets_in(f, p));
    let top = single(top_dict(font, &offsets, parts.private.len()));
    let mut out: Vec<u8> = Vec::new();
    out.push(1);
    out.push(0);
    out.push(4);
    out.push(4);
    bytes::append(&mut out, &parts.name_index);
    bytes::append(&mut out, &top);
    bytes::append(&mut out, &parts.string_index);
    out.push(0);
    out.push(0);
    assert(out@ =~= front_of(f, p));
    bytes::append(&mut out, &parts.charset);
    match &parts.encoding {
        Some(e) => {
            bytes::append(&mut out, e);
        },
        None => {},
    }
    assert(out@ =~= front_of(f, p) + p.charset + encoding_part(p));
    bytes::append(&mut out, &parts.charstrings);
    bytes::append(&mut out, &parts.private);
    // Some readers refuse a font whose last INDEX has no data; a trailing
    // byte after the Private DICT keeps every offset in range.
    out.push(0);
    assert(out@ =~= program_of(f, p));
    Some(out)
}

fn charstrings_of(glyphs: &Vec<Glyph>) -> (r: Vec<Vec<u8>>)
    ensures
        lists_view(r@) == glyphs_view(glyphs@).map_values(|g: GlyphView| g.charstring),
{
    let mut out: Vec<Vec<u8>> = Vec::new();
    let ghost goal = glyphs_view(glyphs@).map_values(|g: GlyphView| g.charstring);
    let mut i: usize = 0;
    while i < glyphs.len()
        invariant
            i <= glyphs@.len(),
            goal == glyphs_view(glyphs@).map_values(|g: GlyphView| g.charstring),
            lists_view(out@) == goal.take(i as int),
        decreases glyphs@.len() - i,
    {
        let ghost here = out@;
        out.push(bytes::copy(&glyphs[i].charstring));
        i += 1;
        assert(lists_view(out@) =~= lists_view(here).push(goal[i - 1]));
        assert(lists_view(out@) =~= goal.take(i as int));
    }
    assert(goal.take(i as int) =~= goal);
    out
}

/// Writes a font; `None` where it has no glyphs, does not start with
/// `.notdef`, or is too large for the format.
pub fn write(font: &Font<'_>) -> (r: Option<Vec<u8>>)
    requires
        font.wf(),
    ensures
        match r {
            Some(out) => cff_of(font.model()) == Some(out@),
            None => cff_of(font.model()) is None,
        },
{
    let ghost f = font.model();
    if font.glyphs.len() == 0 || !bytes::is_text(&font.glyphs[0].name, ".notdef")
        || font.glyphs.len() > 65535 {
        return None;
    }
    let mut strings = Strings::new();
    let charset = charset(font.glyphs, &mut strings);
    let encoding = match font.encoding {
        Some(map) => Some(encoding(map, font.glyphs, &mut strings)),
        None => None,
    };
    let parts = Parts {
        charset,
        encoding,
        charstrings: index(&charstrings_of(font.glyphs)),
        private: private_dict(font.private),
        name_index: single(sanitized_name(font.name)),
        string_index: index(&strings.custom),
    };
    assert(parts.model() == parts_of(f));
    assemble(font, &parts)
}

// ------------------------------------------------------------- laws

/// Every part of a written program stands where the Top DICT says it does.
pub proof fn parts_stand_at_their_offsets(font: FontView)
    requires
        cff_of(font) is Some,
    ensures
        ({
            let parts = parts_of(font);
            let at = offsets_in(font, parts);
            let out = cff_of(font)->0;
            &&& at.charset == fixed_len(font, parts)
            &&& out.subrange(at.charset as int, at.charset + parts.charset.len()) == parts.charset
            &&& parts.encoding is Some ==> out.subrange(
                at.encoding->0 as int,
                at.encoding->0 + parts.encoding->0.len(),
            ) == parts.encoding->0
            &&& out.subrange(at.charstrings as int, at.charstrings + parts.charstrings.len())
                == parts.charstrings
            &&& out.subrange(at.private as int, at.private + parts.private.len()) == parts.private
        }),
{
    let parts = parts_of(font);
    let at = offsets_in(font, parts);
    let out = cff_of(font)->0;
    lemma_front_len(font, parts);
    assert(out.subrange(at.charset as int, at.charset + parts.charset.len()) =~= parts.charset);
    assert(out.subrange(at.charstrings as int, at.charstrings + parts.charstrings.len())
        =~= parts.charstrings);
    assert(out.subrange(at.private as int, at.private + parts.private.len()) =~= parts.private);
    if parts.encoding is Some {
        assert(out.subrange(at.encoding->0 as int, at.encoding->0 + parts.encoding->0.len())
            =~= parts.encoding->0);
    }
}

/// How often a glyph stands in a list.
pub open spec fn occurrences(glyphs: Seq<GlyphView>, g: GlyphView) -> nat {
    glyphs.to_multiset().count(g)
}

proof fn lemma_occurrences(a: Seq<GlyphView>, b: Seq<GlyphView>, g: GlyphView)
    ensures
        occurrences(a + b, g) == occurrences(a, g) + occurrences(b, g),
{
    vstd::seq_lib::lemma_multiset_commutative(a, b);
}

proof fn lemma_one_occurrence(a: GlyphView, g: GlyphView)
    ensures
        occurrences(seq![a], g) == (if a == g {
            1nat
        } else {
            0
        }),
{
    broadcast use vstd::seq_lib::group_to_multiset_ensures;

    assert(seq![a] =~= Seq::<GlyphView>::empty().push(a));
    assert(Seq::<GlyphView>::empty().to_multiset().count(g) == 0) by {
        assert(Seq::<GlyphView>::empty().to_multiset().len() == 0);
    }
}

/// How often a glyph is among those from `i` on that a code from `code` on
/// selects first.
spec fn selected(
    map: codes::CodesView,
    glyphs: Seq<GlyphView>,
    g: GlyphView,
    code: int,
    i: int,
) -> nat
    decreases 256 - code,
{
    if code < 0 || code >= 256 {
        0
    } else {
        occurrences(glyphs_at(map, glyphs, Some(code), i), g) + selected(
            map,
            glyphs,
            g,
            code + 1,
            i,
        )
    }
}

proof fn lemma_first_code(map: codes::CodesView, name: Seq<u8>, code: int)
    requires
        0 <= code,
    ensures
        first_code(map, name, code) matches Some(c) ==> code <= c < 256,
    decreases 256 - code,
{
    if code < 256 && map[code] != Some(name) {
        lemma_first_code(map, name, code + 1);
    }
}

/// One glyph more counts for the one code that selects it first.
proof fn lemma_selected_step(
    map: codes::CodesView,
    glyphs: Seq<GlyphView>,
    g: GlyphView,
    code: int,
    i: int,
)
    requires
        0 <= code <= 256,
        0 <= i < glyphs.len(),
    ensures
        selected(map, glyphs, g, code, i) == selected(map, glyphs, g, code, i + 1) + (if glyphs[i]
            == g && (first_code(map, g.name, 0) matches Some(c) && code <= c < 256) {
            1nat
        } else {
            0
        }),
    decreases 256 - code,
{
    if code < 256 {
        lemma_selected_step(map, glyphs, g, code + 1, i);
        lemma_occurrences(seq![glyphs[i]], glyphs_at(map, glyphs, Some(code), i + 1), g);
        lemma_one_occurrence(glyphs[i], g);
    }
}

proof fn lemma_every_class(
    map: codes::CodesView,
    glyphs: Seq<GlyphView>,
    g: GlyphView,
    i: int,
)
    requires
        0 <= i <= glyphs.len(),
    ensures
        selected(map, glyphs, g, 0, i) + occurrences(glyphs_at(map, glyphs, None, i), g)
            == occurrences(glyphs.skip(i), g),
    decreases glyphs.len() - i,
{
    if i == glyphs.len() {
        assert(glyphs.skip(i) =~= Seq::empty());
        lemma_none_selected(map, glyphs, g, 0, i);
        lemma_occurrences(Seq::empty(), Seq::empty(), g);
        assert(Seq::<GlyphView>::empty() + Seq::<GlyphView>::empty() =~= Seq::empty());
    } else {
        lemma_every_class(map, glyphs, g, i + 1);
        lemma_selected_step(map, glyphs, g, 0, i);
        lemma_first_code(map, g.name, 0);
        assert(glyphs.skip(i) =~= seq![glyphs[i]] + glyphs.skip(i + 1));
        lemma_occurrences(seq![glyphs[i]], glyphs.skip(i + 1), g);
        lemma_occurrences(seq![glyphs[i]], glyphs_at(map, glyphs, None, i + 1), g);
        lemma_one_occurrence(glyphs[i], g);
    }
}

proof fn lemma_none_selected(
    map: codes::CodesView,
    glyphs: Seq<GlyphView>,
    g: GlyphView,
    code: int,
    i: int,
)
    requires
        i >= glyphs.len(),
        0 <= code,
    ensures
        selected(map, glyphs, g, code, i) == 0,
    decreases 256 - code,
{
    if code < 256 {
        lemma_none_selected(map, glyphs, g, code + 1, i);
        lemma_occurrences(Seq::empty(), Seq::empty(), g);
        assert(Seq::<GlyphView>::empty() + Seq::<GlyphView>::empty() =~= Seq::empty());
    }
}

proof fn lemma_encoded(
    map: codes::CodesView,
    glyphs: Seq<GlyphView>,
    g: GlyphView,
    code: int,
)
    requires
        0 <= code,
    ensures
        occurrences(encoded_glyphs(map, glyphs, code), g) == selected(map, glyphs, g, code, 1),
    decreases 256 - code,
{
    if code < 256 {
        lemma_encoded(map, glyphs, g, code + 1);
        lemma_occurrences(
            glyphs_at(map, glyphs, Some(code), 1),
            encoded_glyphs(map, glyphs, code + 1),
            g,
        );
    } else {
        lemma_occurrences(Seq::empty(), Seq::empty(), g);
        assert(Seq::<GlyphView>::empty() + Seq::<GlyphView>::empty() =~= Seq::empty());
    }
}

/// Putting glyphs in order for an encoding loses none and adds none, and the
/// first one stays the first.
pub proof fn ordering_keeps_every_glyph(
    glyphs: Seq<GlyphView>,
    map: Option<codes::CodesView>,
)
    requires
        glyphs.len() > 0,
    ensures
        ordered(glyphs, map).to_multiset() == glyphs.to_multiset(),
        ordered(glyphs, map).len() == glyphs.len(),
        ordered(glyphs, map)[0] == glyphs[0],
{
    broadcast use vstd::seq_lib::group_to_multiset_ensures;

    let all = ordered(glyphs, map);
    if let Some(m) = map {
        let first = seq![glyphs[0]];
        let encoded = encoded_glyphs(m, glyphs, 0);
        let rest = glyphs_at(m, glyphs, None, 1);
        assert forall|g: GlyphView| #[trigger]
            all.to_multiset().count(g) == glyphs.to_multiset().count(g) by {
            lemma_every_class(m, glyphs, g, 1);
            lemma_encoded(m, glyphs, g, 0);
            lemma_occurrences(first + encoded, rest, g);
            lemma_occurrences(first, encoded, g);
            lemma_occurrences(first, glyphs.skip(1), g);
            assert(first + glyphs.skip(1) =~= glyphs);
        }
        assert(all.to_multiset() =~= glyphs.to_multiset());
    }
    assert(all.len() == all.to_multiset().len());
    assert(glyphs.len() == glyphs.to_multiset().len());
}

/// What tells the names of the hinting values apart.
proof fn lemma_hint_names()
    ensures
        "BlueValues"@.len() == 10 && "BlueValues"@[0] == 'B',
        "OtherBlues"@.len() == 10 && "OtherBlues"@[0] == 'O',
        "FamilyBlues"@.len() == 11,
        "FamilyOtherBlues"@.len() == 16,
        "BlueScale"@.len() == 9 && "BlueScale"@[5] == 'c',
        "BlueShift"@.len() == 9 && "BlueShift"@[5] == 'h',
        "BlueFuzz"@.len() == 8,
        "StdHW"@.len() == 5 && "StdHW"@[3] == 'H',
        "StdVW"@.len() == 5 && "StdVW"@[3] == 'V',
        "StemSnapH"@.len() == 9 && "StemSnapH"@[5] == 'n' && "StemSnapH"@[8] == 'H',
        "StemSnapV"@.len() == 9 && "StemSnapV"@[5] == 'n' && "StemSnapV"@[8] == 'V',
        "ForceBold"@.len() == 9 && "ForceBold"@[5] == 'B',
        "LanguageGroup"@.len() == 13,
        "ExpansionFactor"@.len() == 15,
{
    reveal_strlit("BlueValues");
    reveal_strlit("OtherBlues");
    reveal_strlit("FamilyBlues");
    reveal_strlit("FamilyOtherBlues");
    reveal_strlit("BlueScale");
    reveal_strlit("BlueShift");
    reveal_strlit("BlueFuzz");
    reveal_strlit("StdHW");
    reveal_strlit("StdVW");
    reveal_strlit("StemSnapH");
    reveal_strlit("StemSnapV");
    reveal_strlit("ForceBold");
    reveal_strlit("LanguageGroup");
    reveal_strlit("ExpansionFactor");
}

/// Every hinting value is written with its own operator of a Private DICT,
/// and those that list edges or stems as differences.
pub proof fn hints_have_their_operators()
    ensures
        private_op(bytes::text("BlueValues"@)) == Some((seq![6u8], true)),
        private_op(bytes::text("OtherBlues"@)) == Some((seq![7u8], true)),
        private_op(bytes::text("FamilyBlues"@)) == Some((seq![8u8], true)),
        private_op(bytes::text("FamilyOtherBlues"@)) == Some((seq![9u8], true)),
        private_op(bytes::text("BlueScale"@)) == Some((seq![12u8, 9u8], false)),
        private_op(bytes::text("BlueShift"@)) == Some((seq![12u8, 10u8], false)),
        private_op(bytes::text("BlueFuzz"@)) == Some((seq![12u8, 11u8], false)),
        private_op(bytes::text("StdHW"@)) == Some((seq![10u8], false)),
        private_op(bytes::text("StdVW"@)) == Some((seq![11u8], false)),
        private_op(bytes::text("StemSnapH"@)) == Some((seq![12u8, 12u8], true)),
        private_op(bytes::text("StemSnapV"@)) == Some((seq![12u8, 13u8], true)),
        private_op(bytes::text("ForceBold"@)) == Some((seq![12u8, 14u8], false)),
        private_op(bytes::text("LanguageGroup"@)) == Some((seq![12u8, 17u8], false)),
        private_op(bytes::text("ExpansionFactor"@)) == Some((seq![12u8, 18u8], false)),
{
    bytes::lemma_texts_differ();
    lemma_hint_names();
}

/// Values that are written as differences are those that a font lists in
/// arrays, and every value that is read has an operator.
pub proof fn listed_hints_are_differences(key: Seq<u8>)
    ensures
        type1::is_array_key(key) <==> (private_op(key) matches Some((_, delta)) && delta),
        type1::is_array_key(key) || type1::is_single_key(key) || type1::is_number_key(key) || key
            == bytes::text("ForceBold"@) <==> private_op(key) is Some,
{
    bytes::lemma_texts_differ();
    lemma_hint_names();
}

/// What a Top DICT ends with: behind the offset of the charset its operator,
/// behind that of the charstrings theirs, and behind the length and the offset
/// of the Private DICT its own; the operator of the encoding stands between
/// the first two where there is one.
pub proof fn top_dicts_point_at_their_parts(font: FontView, offsets: Offsets, private_len: int)
    ensures
        ({
            let d = top_dict_of(font, offsets, private_len);
            let n = d.len() as int;
            &&& n >= 23
            &&& d[n - 1] == 18
            &&& d.subrange(n - 6, n - 1) == dict_offset(offsets.private as int)
            &&& d.subrange(n - 11, n - 6) == dict_offset(private_len)
            &&& d[n - 12] == 17
            &&& d.subrange(n - 17, n - 12) == dict_offset(offsets.charstrings as int)
            &&& match offsets.encoding {
                Some(e) => {
                    &&& d[n - 18] == 16
                    &&& d.subrange(n - 23, n - 18) == dict_offset(e as int)
                    &&& d[n - 24] == 15
                    &&& d.subrange(n - 29, n - 24) == dict_offset(offsets.charset as int)
                },
                None => {
                    &&& d[n - 18] == 15
                    &&& d.subrange(n - 23, n - 18) == dict_offset(offsets.charset as int)
                },
            }
        }),
{
    reveal(top_dict_of);
    let d = top_dict_of(font, offsets, private_len);
    let n = d.len() as int;
    assert(dict_offset(offsets.charset as int).len() == 5);
    assert(dict_offset(offsets.charstrings as int).len() == 5);
    assert(dict_offset(offsets.private as int).len() == 5);
    assert(dict_offset(private_len).len() == 5);
    assert(d.subrange(n - 6, n - 1) =~= dict_offset(offsets.private as int));
    assert(d.subrange(n - 11, n - 6) =~= dict_offset(private_len));
    assert(d.subrange(n - 17, n - 12) =~= dict_offset(offsets.charstrings as int));
    if let Some(e) = offsets.encoding {
        assert(dict_offset(e as int).len() == 5);
        assert(d.subrange(n - 23, n - 18) =~= dict_offset(e as int));
        assert(d.subrange(n - 29, n - 24) =~= dict_offset(offsets.charset as int));
    } else {
        assert(d.subrange(n - 23, n - 18) =~= dict_offset(offsets.charset as int));
    }
}

/// The integer that the operand at the start of a DICT spells, and how many
/// bytes it takes.
pub open spec fn read_integer(d: Seq<u8>) -> Option<(int, int)> {
    let lead = d[0] as int;
    if 32 <= lead <= 246 {
        Some((lead - 139, 1))
    } else if 247 <= lead <= 250 {
        Some((256 * (lead - 247) + d[1] + 108, 2))
    } else if 251 <= lead <= 254 {
        Some((-256 * (lead - 251) - d[1] - 108, 2))
    } else if lead == 28 {
        let word = 256 * d[1] + d[2];
        Some(
            (
                if word < 32768 {
                    word
                } else {
                    word - 65536
                },
                3,
            ),
        )
    } else if lead == 29 {
        let word = 16777216 * d[1] + 65536 * d[2] + 256 * d[3] + d[4];
        Some(
            (
                if word < 2147483648 {
                    word
                } else {
                    word - 4294967296
                },
                5,
            ),
        )
    } else {
        None
    }
}

proof fn lemma_short_reads_back(i: int)
    requires
        -1131 <= i <= 1131,
    ensures
        read_integer(dict_integer(i)) == Some((i, dict_integer(i).len() as int)),
{
}

proof fn lemma_word_reads_back(i: int)
    requires
        -32768 <= i <= 32767,
        !(-1131 <= i <= 1131),
    ensures
        read_integer(dict_integer(i)) == Some((i, dict_integer(i).len() as int)),
{
    let word = if i < 0 {
        i + 0x1_0000
    } else {
        i
    };
    bytes::lemma_be16(word);
    let d = dict_integer(i);
    assert(d == seq![28u8] + bytes::be16(word));
    assert(d[0] == 28 && d[1] == bytes::be16(word)[0] && d[2] == bytes::be16(word)[1]);
}

proof fn lemma_long_reads_back(d: Seq<u8>, word: int)
    requires
        0 <= word < 0x1_0000_0000,
        d == seq![29u8] + bytes::be32(word),
    ensures
        d.len() == 5,
        read_integer(d) == Some(
            (
                if word < 2147483648 {
                    word
                } else {
                    word - 4294967296
                },
                5int,
            ),
        ),
{
    bytes::lemma_be32(word);
    let w = bytes::be32(word);
    assert(d[0] == 29 && d[1] == w[0] && d[2] == w[1] && d[3] == w[2] && d[4] == w[3]);
}

/// An integer in a DICT, and an offset there, reads as what was written.
pub proof fn integers_read_back(i: int)
    requires
        -2147483648 <= i < 2147483648,
    ensures
        read_integer(dict_integer(i)) == Some((i, dict_integer(i).len() as int)),
        0 <= i ==> read_integer(dict_offset(i)) == Some((i, 5int)),
{
    if -1131 <= i <= 1131 {
        lemma_short_reads_back(i);
    } else if -32768 <= i <= 32767 {
        lemma_word_reads_back(i);
    } else {
        lemma_long_reads_back(
            dict_integer(i),
            if i < 0 {
                i + 0x1_0000_0000
            } else {
                i
            },
        );
    }
    if 0 <= i {
        assert(i % 0x1_0000_0000 == i);
        lemma_long_reads_back(dict_offset(i), i);
    }
}

/// The character that a nibble of a real stands for: a digit, the point or the
/// minus sign.
pub open spec fn nibble_char(n: int) -> Option<u8> {
    if 0 <= n <= 9 {
        Some((48 + n) as u8)
    } else if n == 10 {
        Some(46u8)
    } else if n == 14 {
        Some(45u8)
    } else {
        None
    }
}

/// A real in a DICT spells the text of the number, two characters to a byte
/// behind its mark with the first in the high half, and ends with a nibble of
/// ones.
pub proof fn reals_spell_their_text(text: Seq<u8>, i: int)
    requires
        forall|k: int|
            0 <= k < text.len() ==> 48 <= #[trigger] text[k] <= 57 || text[k] == 46 || text[k]
                == 45,
        0 <= i <= text.len(),
    ensures
        dict_real(text)[0] == 30,
        ({
            let b = dict_real(text)[1 + i / 2] as int;
            let n = if i % 2 == 0 {
                b / 16
            } else {
                b % 16
            };
            if i < text.len() {
                nibble_char(n) == Some(text[i])
            } else {
                n == 15
            }
        }),
{
    let k = i / 2;
    assert(dict_real(text)[1 + k] == (nibble_at(text, 2 * k) * 16 + nibble_at(text, 2 * k + 1))
        as u8);
    assert(nibble_at(text, 2 * k) < 16) by {
        if 2 * k < text.len() {
            assert(48 <= text[2 * k] <= 57 || text[2 * k] == 46 || text[2 * k] == 45);
        }
    }
    assert(nibble_at(text, 2 * k + 1) < 16) by {
        if 2 * k + 1 < text.len() {
            assert(48 <= text[2 * k + 1] <= 57 || text[2 * k + 1] == 46 || text[2 * k + 1] == 45);
        }
    }
}

/// The string that a number stands for: a standard one below 391, else one of
/// the font's own.
pub open spec fn string_of(sid: int, custom: Seq<Seq<u8>>) -> Option<Seq<u8>> {
    if sid < 391 {
        standard_string(sid as u16)
    } else if sid - 391 < custom.len() {
        Some(custom[sid - 391])
    } else {
        None
    }
}

proof fn lemma_standard_sid(name: Seq<u8>, i: int)
    requires
        0 <= i,
    ensures
        standard_sid(name, i) matches Some(k) ==> i <= k < STANDARD && standard_string(k as u16)
            == Some(name),
    decreases STANDARD - i,
{
    if i < STANDARD && standard_string(i as u16) != Some(name) {
        lemma_standard_sid(name, i + 1);
    }
}

proof fn lemma_place_of(items: Seq<Seq<u8>>, name: Seq<u8>, i: int)
    requires
        0 <= i,
    ensures
        place_of(items, name, i) matches Some(k) ==> i <= k < items.len() && items[k] == name,
    decreases items.len() - i,
{
    if i < items.len() && items[i] != name {
        lemma_place_of(items, name, i + 1);
    }
}

/// The number that a name gets stands for that name among the strings then,
/// and what the numbers before it stand for stays.
pub proof fn names_read_back_from_their_numbers(custom: Seq<Seq<u8>>, name: Seq<u8>, other: int)
    requires
        custom.len() < 65000,
    ensures
        ({
            let (sid, now) = sid_of(custom, name);
            &&& 0 <= sid < 65536
            &&& string_of(sid, now) == Some(name)
            &&& custom.len() <= now.len() <= custom.len() + 1
            &&& string_of(other, custom) is Some ==> string_of(other, now) == string_of(
                other,
                custom,
            )
        }),
{
    lemma_standard_sid(name, 0);
    lemma_place_of(custom, name, 0);
}

/// A charset names every glyph: two bytes to each in their order, whose number
/// stands for the glyph's name among the strings of the font.
pub proof fn charsets_name_every_glyph(
    glyphs: Seq<GlyphView>,
    i: int,
    custom: Seq<Seq<u8>>,
    k: int,
    other: int,
)
    requires
        0 <= i <= k < glyphs.len(),
        custom.len() + (glyphs.len() - i) < 65000,
    ensures
        ({
            let (out, now) = charset_from(glyphs, i, custom);
            &&& out.len() == 2 * (glyphs.len() - i)
            &&& string_of(bytes::read_be16(out, 2 * (k - i)), now) == Some(glyphs[k].name)
            &&& string_of(other, custom) is Some ==> string_of(other, now) == string_of(
                other,
                custom,
            )
            &&& now.len() <= custom.len() + (glyphs.len() - i)
        }),
    decreases glyphs.len() - i,
{
    let (sid, now) = sid_of(custom, glyphs[i].name);
    names_read_back_from_their_numbers(custom, glyphs[i].name, other);
    let (rest, last) = charset_from(glyphs, i + 1, now);
    let out = bytes::be16(sid) + rest;
    bytes::lemma_be16(sid);
    assert(out[0] == bytes::be16(sid)[0] && out[1] == bytes::be16(sid)[1]);
    if i + 1 < glyphs.len() {
        let j = if k > i {
            k
        } else {
            i + 1
        };
        charsets_name_every_glyph(glyphs, i + 1, now, j, other);
        charsets_name_every_glyph(glyphs, i + 1, now, j, sid);
        if k > i {
            let at = 2 * (k - i);
            assert(out[at] == rest[at - 2] && out[at + 1] == rest[at - 1]);
        }
    }
}

} // verus!
