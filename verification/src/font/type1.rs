//! Reading Type 1 font programs as PDF embeds them (`FontFile`): the
//! cleartext header, the eexec-encrypted private portion, and the
//! charstrings inside it. No PostScript is interpreted; the tokens that
//! matter are picked out of the stream, which is enough for every font a
//! PDF producer writes.
//!
//! The deviations it handles: PFB segment headers left in place, a wrong
//! `Length1`, hex or binary eexec data, custom names for the `RD`/`ND`/`NP`
//! procedures, missing terminators after a charstring, a second `Subrs` or
//! `CharStrings` block for a hinting variant that no viewer uses, and
//! `lenIV -1` for unencrypted charstrings.
use vstd::prelude::*;

use crate::bytes;
use crate::font::cipher;
use crate::font::cipher::decrypt;
use crate::font::codes;
use crate::font::codes::CodeNames;
use crate::font::decimal;
use crate::font::decimal::Decimal;

verus! {

/// The key of the encrypted portion.
pub const EEXEC_KEY: u16 = 55665;

/// The key of a charstring.
pub const CHARSTRING_KEY: u16 = 4330;

// ------------------------------------------------------------- portions

/// The 32-bit number at `at`, low byte first.
pub open spec fn read_le32(s: Seq<u8>, at: int) -> int {
    s[at] + s[at + 1] * 256 + s[at + 2] * 0x1_0000 + s[at + 3] * 0x100_0000
}

/// The segments of a PFB file from `pos` on, without their headers (`0x80`,
/// type, little-endian length).
pub open spec fn segments(s: Seq<u8>, pos: int) -> Seq<u8>
    decreases s.len() - pos,
{
    if pos < 0 || pos + 6 > s.len() || s[pos] != 0x80 || !(s[pos + 1] == 1 || s[pos + 1] == 2) {
        Seq::empty()
    } else {
        let end = pos + 6 + read_le32(s, pos + 2);
        if end > s.len() {
            Seq::empty()
        } else {
            s.subrange(pos + 6, end) + segments(s, end)
        }
    }
}

/// The program without PFB segment headers.
pub open spec fn without_headers(s: Seq<u8>) -> Seq<u8> {
    if s.len() >= 2 && s[0] == 0x80 && s[1] == 1 {
        segments(s, 0)
    } else {
        s
    }
}

/// Removes the segment headers of a PFB file left in place.
fn strip_pfb(program: &[u8]) -> (r: Vec<u8>)
    ensures
        r@ == without_headers(program@),
{
    if !(program.len() >= 2 && program[0] == 0x80 && program[1] == 1) {
        return bytes::copy(program);
    }
    let mut out: Vec<u8> = Vec::new();
    let mut pos: usize = 0;
    assert(out@ + segments(program@, 0) =~= segments(program@, 0));
    while program.len() - pos >= 6 && program[pos] == 0x80 && (program[pos + 1] == 1
        || program[pos + 1] == 2)
        invariant_except_break
            pos <= program.len(),
            out@ + segments(program@, pos as int) == segments(program@, 0),
        ensures
            out@ == segments(program@, 0),
        decreases program.len() - pos,
    {
        let len = program[pos + 2] as u64 + program[pos + 3] as u64 * 256 + program[pos + 4] as u64
            * 0x1_0000 + program[pos + 5] as u64 * 0x100_0000;
        if len > (program.len() - pos - 6) as u64 {
            assert(out@ + Seq::<u8>::empty() =~= out@);
            break ;
        }
        let end: usize = pos + 6 + len as usize;
        let ghost before = out@;
        bytes::append_range(&mut out, program, pos + 6, end);
        assert(out@ + segments(program@, end as int) =~= before + (program@.subrange(
            pos + 6,
            end as int,
        ) + segments(program@, end as int)));
        pos = end;
        if program.len() - pos < 6 {
            assert(out@ + Seq::<u8>::empty() =~= out@);
        }
        if !(program.len() - pos >= 6 && program[pos] == 0x80 && (program[pos + 1] == 1
            || program[pos + 1] == 2)) {
            assert(out@ + Seq::<u8>::empty() =~= out@);
        }
    }
    out
}

/// The word that ends the cleartext stands at `i`.
pub open spec fn eexec_at(s: Seq<u8>, i: int) -> bool {
    0 <= i && i + 5 <= s.len() && s[i] == 'e' as u8 && s[i + 1] == 'e' as u8 && s[i + 2] == 'x'
        as u8 && s[i + 3] == 'e' as u8 && s[i + 4] == 'c' as u8
}

/// The first position from `i` on where the word stands.
pub open spec fn first_eexec(s: Seq<u8>, i: int) -> Option<int>
    decreases s.len() - i,
{
    if i < 0 || i + 5 > s.len() {
        None
    } else if eexec_at(s, i) {
        Some(i)
    } else {
        first_eexec(s, i + 1)
    }
}

/// The first position from `i` on that holds no blank or line ending. Only
/// four bytes count: a binary section can begin with any byte, NUL and form
/// feed included.
pub open spec fn skip_blanks(s: Seq<u8>, i: int) -> int
    decreases s.len() - i,
{
    if 0 <= i < s.len() && (s[i] == 32 || s[i] == 9 || s[i] == 13 || s[i] == 10) {
        skip_blanks(s, i + 1)
    } else {
        i
    }
}

/// Where the encrypted portion starts.
pub open spec fn eexec_portion(s: Seq<u8>) -> Option<int> {
    match first_eexec(s, 0) {
        Some(i) => Some(skip_blanks(s, i + 5)),
        None => None,
    }
}

/// Byte offset of the encrypted portion: after `eexec` and the line
/// ending or spaces that follow it.
pub fn find_eexec(program: &[u8]) -> (r: Option<usize>)
    ensures
        match r {
            Some(at) => eexec_portion(program@) == Some(at as int) && at <= program.len(),
            None => eexec_portion(program@) is None,
        },
{
    let mut i: usize = 0;
    while program.len() - i >= 5
        invariant
            i <= program.len(),
            first_eexec(program@, 0) == first_eexec(program@, i as int),
        decreases program.len() - i,
    {
        if program[i] == ('e' as u8) && program[i + 1] == ('e' as u8) && program[i + 2] == ('x'
            as u8) && program[i + 3] == ('e' as u8) && program[i + 4] == ('c' as u8) {
            let mut pos: usize = i + 5;
            while pos < program.len() && (program[pos] == 32 || program[pos] == 9 || program[pos]
                == 13 || program[pos] == 10)
                invariant
                    i + 5 <= pos <= program.len(),
                    skip_blanks(program@, i + 5) == skip_blanks(program@, pos as int),
                decreases program.len() - pos,
            {
                pos += 1;
            }
            return Some(pos);
        }
        i += 1;
    }
    None
}

pub open spec fn hex_value(b: u8) -> Option<u8> {
    if '0' as u8 <= b <= '9' as u8 {
        Some((b - '0' as u8) as u8)
    } else if 'a' as u8 <= b <= 'f' as u8 {
        Some((b - 'a' as u8 + 10) as u8)
    } else if 'A' as u8 <= b <= 'F' as u8 {
        Some((b - 'A' as u8 + 10) as u8)
    } else {
        None
    }
}

/// The values of the hex digits among the first `n` bytes.
pub open spec fn hex_digits(s: Seq<u8>, n: int) -> Seq<u8>
    decreases n,
{
    if n <= 0 {
        Seq::empty()
    } else {
        match hex_value(s[n - 1]) {
            Some(v) => hex_digits(s, n - 1).push(v),
            None => hex_digits(s, n - 1),
        }
    }
}

/// The bytes that pairs of hex digits spell; an odd one out is dropped.
pub open spec fn hex_bytes(digits: Seq<u8>) -> Seq<u8> {
    Seq::new(digits.len() / 2, |i: int| (digits[2 * i] * 16 + digits[2 * i + 1]) as u8)
}

/// Whether the data starts with four hex digits.
pub open spec fn starts_hex(s: Seq<u8>) -> bool {
    s.len() >= 4 && forall|i: int| 0 <= i < 4 ==> hex_value(#[trigger] s[i]) is Some
}

/// The plaintext of the encrypted portion.
pub open spec fn private_portion(s: Seq<u8>) -> Seq<u8> {
    cipher::decrypted(
        if starts_hex(s) {
            hex_bytes(hex_digits(s, s.len() as int))
        } else {
            s
        },
        EEXEC_KEY,
        4,
    )
}

fn hex(b: u8) -> (r: Option<u8>)
    ensures
        r == hex_value(b),
        r is Some ==> r->0 < 16,
{
    if ('0' as u8) <= b && b <= ('9' as u8) {
        Some(b - ('0' as u8))
    } else if ('a' as u8) <= b && b <= ('f' as u8) {
        Some(b - ('a' as u8) + 10)
    } else if ('A' as u8) <= b && b <= ('F' as u8) {
        Some(b - ('A' as u8) + 10)
    } else {
        None
    }
}

/// The eexec portion is binary unless its first four bytes are hex
/// digits; either way the first four decrypted bytes are random padding.
fn decrypt_eexec(data: &[u8]) -> (r: Vec<u8>)
    ensures
        r@ == private_portion(data@),
{
    let is_hex = data.len() >= 4 && hex(data[0]).is_some() && hex(data[1]).is_some() && hex(
        data[2],
    ).is_some() && hex(data[3]).is_some();
    assert(is_hex == starts_hex(data@));
    if !is_hex {
        return decrypt(data, EEXEC_KEY, 4);
    }
    let mut digits: Vec<u8> = Vec::new();
    let mut i: usize = 0;
    assert(digits@ =~= hex_digits(data@, 0));
    while i < data.len()
        invariant
            i <= data.len(),
            digits@ == hex_digits(data@, i as int),
            forall|k: int| 0 <= k < digits@.len() ==> #[trigger] digits@[k] < 16,
        decreases data.len() - i,
    {
        if let Some(v) = hex(data[i]) {
            digits.push(v);
        }
        i += 1;
    }
    let mut out: Vec<u8> = Vec::new();
    let mut j: usize = 0;
    while digits.len() - j >= 2
        invariant
            j <= digits@.len(),
            j % 2 == 0,
            forall|k: int| 0 <= k < digits@.len() ==> #[trigger] digits@[k] < 16,
            out@.len() == j / 2,
            forall|k: int| 0 <= k < out@.len() ==> #[trigger] out@[k] == hex_bytes(digits@)[k],
        decreases digits@.len() - j,
    {
        assert(digits@[j as int] < 16 && digits@[j + 1] < 16);
        out.push(digits[j] * 16 + digits[j + 1]);
        j += 2;
    }
    assert(out@ =~= hex_bytes(digits@));
    decrypt(&out, EEXEC_KEY, 4)
}

// ------------------------------------------------------------- tokens

/// A token of the program.
pub enum TokenView {
    /// A name after `/` (the slash itself is not included).
    Name(Seq<u8>),
    /// Anything else: keywords, numbers, `[`, `]`, `{`, `}`, `(`, `)`.
    Word(Seq<u8>),
}

pub open spec fn blank(b: u8) -> bool {
    b == 32 || b == 9 || b == 13 || b == 10 || b == 12 || b == 0
}

pub open spec fn bracket(b: u8) -> bool {
    b == '[' as u8 || b == ']' as u8 || b == '{' as u8 || b == '}' as u8 || b == '(' as u8 || b
        == ')' as u8
}

/// The first position from `i` on that a word does not reach.
pub open spec fn word_end(s: Seq<u8>, i: int) -> int
    decreases s.len() - i,
{
    if 0 <= i < s.len() && !blank(s[i]) && s[i] != '/' as u8 && !bracket(s[i]) {
        word_end(s, i + 1)
    } else {
        i
    }
}

/// The first position from `i` on behind blanks and comments; `comment` says
/// whether `i` is inside a comment.
pub open spec fn skip_space(s: Seq<u8>, i: int, comment: bool) -> int
    decreases s.len() - i,
{
    if i < 0 || i >= s.len() {
        i
    } else if comment && s[i] != 10 && s[i] != 13 {
        skip_space(s, i + 1, true)
    } else if s[i] == '%' as u8 {
        skip_space(s, i + 1, true)
    } else if blank(s[i]) {
        skip_space(s, i + 1, false)
    } else {
        i
    }
}

/// The token at or after `pos`, and where it ends.
pub open spec fn token_at(s: Seq<u8>, pos: int) -> Option<(TokenView, int)> {
    let p = skip_space(s, pos, false);
    if p < 0 || p >= s.len() {
        None
    } else if s[p] == '/' as u8 {
        let end = word_end(s, p + 1);
        Some((TokenView::Name(s.subrange(p + 1, end)), end))
    } else if bracket(s[p]) {
        Some((TokenView::Word(s.subrange(p, p + 1)), p + 1))
    } else {
        let end = word_end(s, p + 1);
        Some((TokenView::Word(s.subrange(p, end)), end))
    }
}

/// A token is this word.
pub open spec fn is_word(t: TokenView, text: Seq<char>) -> bool {
    t == TokenView::Word(bytes::text(text))
}

/// A token by where it stands.
#[derive(Clone, Copy)]
struct Token {
    name: bool,
    from: usize,
    to: usize,
}

spec fn token_view(s: Seq<u8>, t: Token) -> TokenView {
    if t.name {
        TokenView::Name(s.subrange(t.from as int, t.to as int))
    } else {
        TokenView::Word(s.subrange(t.from as int, t.to as int))
    }
}

proof fn lemma_word_end(s: Seq<u8>, i: int)
    requires
        0 <= i <= s.len(),
    ensures
        i <= word_end(s, i) <= s.len(),
    decreases s.len() - i,
{
    if i < s.len() && !blank(s[i]) && s[i] != '/' as u8 && !bracket(s[i]) {
        lemma_word_end(s, i + 1);
    }
}

proof fn lemma_skip_space(s: Seq<u8>, i: int, comment: bool)
    requires
        0 <= i <= s.len(),
    ensures
        i <= skip_space(s, i, comment) <= s.len(),
    decreases s.len() - i,
{
    if i < s.len() {
        if comment && s[i] != 10 && s[i] != 13 {
            lemma_skip_space(s, i + 1, true);
        } else if s[i] == '%' as u8 {
            lemma_skip_space(s, i + 1, true);
        } else if blank(s[i]) {
            lemma_skip_space(s, i + 1, false);
        }
    }
}

/// A token ends further on.
proof fn lemma_token_at(s: Seq<u8>, pos: int)
    requires
        0 <= pos <= s.len(),
    ensures
        match token_at(s, pos) {
            Some((_, end)) => pos < end <= s.len(),
            None => true,
        },
{
    lemma_skip_space(s, pos, false);
    let p = skip_space(s, pos, false);
    if p < s.len() {
        lemma_word_end(s, p + 1);
    }
}

struct Tokenizer<'a> {
    data: &'a [u8],
    pos: usize,
}

impl<'a> Tokenizer<'a> {
    spec fn wf(self) -> bool {
        self.pos <= self.data.len()
    }

    fn next(&mut self) -> (r: Option<Token>)
        requires
            old(self).wf(),
        ensures
            final(self).data == old(self).data,
            final(self).wf(),
            match token_at(old(self).data@, old(self).pos as int) {
                Some((t, end)) => r is Some && r->0.from <= r->0.to <= old(self).data.len()
                    && token_view(old(self).data@, r->0) == t && final(self).pos == end
                    && final(self).pos > old(self).pos,
                None => r is None && final(self).pos == old(self).pos,
            },
    {
        let data = self.data;
        proof {
            lemma_token_at(data@, self.pos as int);
            lemma_skip_space(data@, self.pos as int, false);
        }
        let mut p: usize = self.pos;
        let mut comment = false;
        while p < data.len() && ((comment && data[p] != 10 && data[p] != 13) || data[p] == ('%'
            as u8) || is_blank(data[p]))
            invariant
                p <= data.len(),
                skip_space(data@, self.pos as int, false) == skip_space(data@, p as int, comment),
            decreases data.len() - p,
        {
            if comment && data[p] != 10 && data[p] != 13 {
            } else if data[p] == ('%' as u8) {
                comment = true;
            } else {
                comment = false;
            }
            p += 1;
        }
        if p >= data.len() {
            return None;
        }
        if data[p] == ('/' as u8) {
            let end = self.find_word_end(p + 1);
            self.pos = end;
            return Some(Token { name: true, from: p + 1, to: end });
        }
        if is_bracket(data[p]) {
            self.pos = p + 1;
            return Some(Token { name: false, from: p, to: p + 1 });
        }
        let end = self.find_word_end(p + 1);
        self.pos = end;
        Some(Token { name: false, from: p, to: end })
    }

    fn find_word_end(&self, from: usize) -> (r: usize)
        requires
            from <= self.data.len(),
        ensures
            r == word_end(self.data@, from as int),
            from <= r <= self.data.len(),
    {
        let mut end: usize = from;
        while end < self.data.len() && !is_blank(self.data[end]) && self.data[end] != ('/' as u8)
            && !is_bracket(self.data[end])
            invariant
                from <= end <= self.data.len(),
                word_end(self.data@, from as int) == word_end(self.data@, end as int),
            decreases self.data.len() - end,
        {
            end += 1;
        }
        end
    }

    /// The bytes of a token.
    fn text(&self, t: Token) -> (r: &'a [u8])
        requires
            t.from <= t.to <= self.data.len(),
        ensures
            r@ == self.data@.subrange(t.from as int, t.to as int),
    {
        vstd::slice::slice_subrange(self.data, t.from, t.to)
    }

    /// Whether a token is this word.
    fn is(&self, t: Token, text: &str) -> (r: bool)
        requires
            t.from <= t.to <= self.data.len(),
        ensures
            r == is_word(token_view(self.data@, t), text@),
    {
        !t.name && bytes::is_text(self.text(t), text)
    }
}

fn is_blank(b: u8) -> (r: bool)
    ensures
        r == blank(b),
{
    b == 32 || b == 9 || b == 13 || b == 10 || b == 12 || b == 0
}

fn is_bracket(b: u8) -> (r: bool)
    ensures
        r == bracket(b),
{
    b == ('[' as u8) || b == (']' as u8) || b == ('{' as u8) || b == ('}' as u8) || b == ('('
        as u8) || b == (')' as u8)
}

// ------------------------------------------------------------- numbers

/// The number that a token spells.
pub open spec fn token_number(t: TokenView) -> Option<Decimal> {
    match t {
        TokenView::Word(w) => decimal::decimal_of(w),
        TokenView::Name(_) => None,
    }
}

/// The number at `pos`, and where the token that should have been one ends.
pub open spec fn number_at(s: Seq<u8>, pos: int) -> (Option<Decimal>, int) {
    match token_at(s, pos) {
        Some((t, end)) => (token_number(t), end),
        None => (None, pos),
    }
}

/// The numbers from `pos` up to a closing bracket, a name or the end, and
/// where they end; words that are no numbers are passed over.
pub open spec fn numbers_from(s: Seq<u8>, pos: int) -> (Seq<Decimal>, int)
    decreases s.len() - pos,
{
    match token_at(s, pos) {
        Some((t, end)) => if is_word(t, "]"@) || is_word(t, "}"@) || t is Name || end <= pos || end
            > s.len() {
            (Seq::empty(), end)
        } else {
            let (rest, last) = numbers_from(s, end);
            match token_number(t) {
                Some(d) => (seq![d] + rest, last),
                None => (rest, last),
            }
        },
        None => (Seq::empty(), pos),
    }
}

/// `[ ... ]` or `{ ... }` of numbers at `pos`.
pub open spec fn array_at(s: Seq<u8>, pos: int) -> (Seq<Decimal>, int) {
    match token_at(s, pos) {
        Some((t, end)) => if is_word(t, "["@) || is_word(t, "{"@) {
            numbers_from(s, end)
        } else {
            (Seq::empty(), end)
        },
        None => (Seq::empty(), pos),
    }
}

impl<'a> Tokenizer<'a> {
    fn token_number(&self, t: Token) -> (r: Option<Decimal>)
        requires
            t.from <= t.to <= self.data.len(),
        ensures
            r == token_number(token_view(self.data@, t)),
    {
        if t.name {
            None
        } else {
            Decimal::parse(self.text(t))
        }
    }

    fn number(&mut self) -> (r: Option<Decimal>)
        requires
            old(self).wf(),
        ensures
            final(self).data == old(self).data,
            final(self).wf(),
            final(self).pos >= old(self).pos,
            (r, final(self).pos as int) == number_at(old(self).data@, old(self).pos as int),
    {
        match self.next() {
            Some(t) => self.token_number(t),
            None => None,
        }
    }

    /// `[ ... ]` or `{ ... }` of numbers; the opening bracket is consumed.
    #[verifier::loop_isolation(false)]
    fn number_array(&mut self) -> (r: Vec<Decimal>)
        requires
            old(self).wf(),
        ensures
            final(self).data == old(self).data,
            final(self).wf(),
            final(self).pos >= old(self).pos,
            (r@, final(self).pos as int) == array_at(old(self).data@, old(self).pos as int),
    {
        let mut out: Vec<Decimal> = Vec::new();
        let ghost s = self.data@;
        let open = match self.next() {
            Some(t) => t,
            None => {
                assert(out@ =~= Seq::empty());
                return out;
            },
        };
        if !self.is(open, "[") && !self.is(open, "{") {
            assert(out@ =~= Seq::empty());
            return out;
        }
        let ghost start = self.pos as int;
        let ghost goal = numbers_from(s, start);
        assert(out@ + numbers_from(s, start).0 =~= goal.0);
        loop
            invariant
                self.wf(),
                self.data@ == s,
                self.data == old(self).data,
                start <= self.pos,
                out@ + numbers_from(s, self.pos as int).0 == goal.0,
                numbers_from(s, self.pos as int).1 == goal.1,
            decreases self.data.len() - self.pos,
        {
            let t = match self.next() {
                Some(t) => t,
                None => {
                    assert(out@ + Seq::<Decimal>::empty() =~= out@);
                    return out;
                },
            };
            if t.name || self.is(t, "]") || self.is(t, "}") {
                assert(out@ + Seq::<Decimal>::empty() =~= out@);
                return out;
            }
            if let Some(d) = self.token_number(t) {
                assert(out@ + (seq![d] + numbers_from(s, self.pos as int).0) =~= out@.push(d)
                    + numbers_from(s, self.pos as int).0);
                out.push(d);
            }
        }
    }
}


// ------------------------------------------------------------- font

/// A parsed Type 1 program: what a CFF needs from it.
pub struct Type1Font {
    pub font_name: Vec<u8>,
    /// Six numbers.
    pub font_matrix: Option<Vec<Decimal>>,
    /// Four numbers.
    pub font_bbox: Option<Vec<Decimal>>,
    /// The built-in encoding as code to glyph name; `None` for
    /// `StandardEncoding`.
    pub encoding: Option<CodeNames>,
    /// Private dictionary values by their Type 1 key, in file order.
    pub private: Vec<(Vec<u8>, Vec<Decimal>)>,
    /// Decrypted subroutines, indexed by number.
    pub subrs: Vec<Vec<u8>>,
    /// Decrypted charstrings with their glyph names, in file order.
    pub charstrings: Vec<(Vec<u8>, Vec<u8>)>,
}

/// What a Type 1 program holds.
pub struct FontView {
    pub name: Seq<u8>,
    pub matrix: Option<Seq<Decimal>>,
    pub bbox: Option<Seq<Decimal>>,
    pub encoding: Option<codes::CodesView>,
    pub private: Seq<(Seq<u8>, Seq<Decimal>)>,
    pub subrs: Seq<Seq<u8>>,
    pub charstrings: Seq<(Seq<u8>, Seq<u8>)>,
}

pub open spec fn numbers_view(n: Option<Vec<Decimal>>) -> Option<Seq<Decimal>> {
    match n {
        Some(v) => Some(v@),
        None => None,
    }
}

pub open spec fn encoding_view(e: Option<CodeNames>) -> Option<codes::CodesView> {
    match e {
        Some(c) => Some(c@),
        None => None,
    }
}

pub open spec fn private_view(p: Seq<(Vec<u8>, Vec<Decimal>)>) -> Seq<(Seq<u8>, Seq<Decimal>)> {
    p.map_values(|e: (Vec<u8>, Vec<Decimal>)| (e.0@, e.1@))
}

pub open spec fn strings_view(p: Seq<(Vec<u8>, Vec<u8>)>) -> Seq<(Seq<u8>, Seq<u8>)> {
    p.map_values(|e: (Vec<u8>, Vec<u8>)| (e.0@, e.1@))
}

pub open spec fn lists_view(p: Seq<Vec<u8>>) -> Seq<Seq<u8>> {
    p.map_values(|v: Vec<u8>| v@)
}

impl View for Type1Font {
    type V = FontView;

    open spec fn view(&self) -> FontView {
        FontView {
            name: self.font_name@,
            matrix: numbers_view(self.font_matrix),
            bbox: numbers_view(self.font_bbox),
            encoding: encoding_view(self.encoding),
            private: private_view(self.private@),
            subrs: lists_view(self.subrs@),
            charstrings: strings_view(self.charstrings@),
        }
    }
}

impl Type1Font {
    /// An encoding has a place for every code.
    pub open spec fn wf(self) -> bool {
        match self.encoding {
            Some(c) => c.wf(),
            None => true,
        }
    }
}

pub open spec fn empty_font() -> FontView {
    FontView {
        name: Seq::empty(),
        matrix: None,
        bbox: None,
        encoding: None,
        private: Seq::empty(),
        subrs: Seq::empty(),
        charstrings: Seq::empty(),
    }
}

// ------------------------------------------------------------- header

/// The `dup code /name put` entries from `pos` on, up to `readonly def` (or
/// `def`), on top of `map`; and where they end. `None` where they break off.
pub open spec fn entries_from(s: Seq<u8>, pos: int, map: codes::CodesView) -> (
    Option<codes::CodesView>,
    int,
)
    decreases s.len() - pos,
{
    match token_at(s, pos) {
        None => (None, pos),
        Some((t, end)) => if end <= pos || end > s.len() {
            (None, end)
        } else if is_word(t, "dup"@) {
            let (code, after) = number_at(s, end);
            match (code, token_at(s, after)) {
                (None, _) => (None, after),
                (_, None) => (None, after),
                (Some(c), Some((n, last))) => if last <= pos || last > s.len() {
                    (None, last)
                } else {
                    match n {
                        TokenView::Name(name) => entries_from(
                            s,
                            last,
                            if c.in_byte() {
                                map.update(c.truncated(), Some(name))
                            } else {
                                map
                            },
                        ),
                        TokenView::Word(_) => entries_from(s, last, map),
                    }
                },
            }
        } else if is_word(t, "def"@) || is_word(t, "readonly"@) {
            (Some(map), end)
        } else {
            entries_from(s, end, map)
        },
    }
}

/// The value of `/Encoding` at `pos`: `StandardEncoding`, or `N array`
/// followed by entries.
pub open spec fn encoding_at(s: Seq<u8>, pos: int) -> (Option<codes::CodesView>, int) {
    match token_at(s, pos) {
        None => (None, pos),
        Some((t, end)) => if !is_word(t, "StandardEncoding"@) && token_number(t) is Some {
            entries_from(s, end, codes::no_codes())
        } else {
            (None, end)
        },
    }
}

/// What the key `name` at `pos` (behind the key) makes of the font, and where
/// its value ends.
pub open spec fn header_value(s: Seq<u8>, pos: int, name: Seq<u8>, f: FontView) -> (
    FontView,
    int,
) {
    if name == bytes::text("FontName"@) {
        match token_at(s, pos) {
            Some((TokenView::Name(n), end)) => (FontView { name: n, ..f }, end),
            Some((TokenView::Word(_), end)) => (f, end),
            None => (f, pos),
        }
    } else if name == bytes::text("FontMatrix"@) {
        let (m, end) = array_at(s, pos);
        if m.len() == 6 {
            (FontView { matrix: Some(m), ..f }, end)
        } else {
            (f, end)
        }
    } else if name == bytes::text("FontBBox"@) {
        let (b, end) = array_at(s, pos);
        if b.len() == 4 {
            (FontView { bbox: Some(b), ..f }, end)
        } else {
            (f, end)
        }
    } else if name == bytes::text("Encoding"@) {
        let (e, end) = encoding_at(s, pos);
        (FontView { encoding: e, ..f }, end)
    } else {
        (f, pos)
    }
}

/// What the cleartext from `pos` on makes of the font.
pub open spec fn header_from(s: Seq<u8>, pos: int, f: FontView) -> FontView
    decreases s.len() - pos,
{
    match token_at(s, pos) {
        None => f,
        Some((t, end)) => if end <= pos || end > s.len() {
            f
        } else {
            match t {
                TokenView::Name(name) => {
                    let (g, last) = header_value(s, end, name, f);
                    if last <= pos || last > s.len() {
                        g
                    } else {
                        header_from(s, last, g)
                    }
                },
                TokenView::Word(_) => header_from(s, end, f),
            }
        },
    }
}

#[verifier::loop_isolation(false)]
fn read_entries(t: &mut Tokenizer<'_>) -> (r: Option<CodeNames>)
    requires
        old(t).wf(),
    ensures
        final(t).data == old(t).data,
        final(t).wf(),
        final(t).pos >= old(t).pos,
        (encoding_view(r), final(t).pos as int) == entries_from(
            old(t).data@,
            old(t).pos as int,
            codes::no_codes(),
        ),
        r is Some ==> r->0.wf(),
{
    let ghost s = t.data@;
    let ghost goal = entries_from(s, t.pos as int, codes::no_codes());
    let mut map = CodeNames::new();
    loop
        invariant
            t.wf(),
            t.data == old(t).data,
            t.data@ == s,
            t.pos >= old(t).pos,
            map.wf(),
            entries_from(s, t.pos as int, map@) == goal,
        decreases t.data.len() - t.pos,
    {
        let token = t.next()?;
        if t.is(token, "dup") {
            let code = t.number()?;
            let name = t.next()?;
            if name.name && code.fits_byte() {
                let c = code.trunc();
                let text = t.text(name);
                map.set(c as u8, text);
            }
        } else if t.is(token, "def") || t.is(token, "readonly") {
            return Some(map);
        }
    }
}

/// `/Encoding StandardEncoding def`, or `/Encoding N array` followed by
/// `dup code /name put` entries up to `readonly def` (or `def`).
fn read_encoding(t: &mut Tokenizer<'_>) -> (r: Option<CodeNames>)
    requires
        old(t).wf(),
    ensures
        final(t).data == old(t).data,
        final(t).wf(),
        final(t).pos >= old(t).pos,
        (encoding_view(r), final(t).pos as int) == encoding_at(old(t).data@, old(t).pos as int),
        r is Some ==> r->0.wf(),
{
    let token = t.next()?;
    if t.is(token, "StandardEncoding") {
        return None;
    }
    if t.token_number(token).is_none() {
        return None;
    }
    read_entries(t)
}

#[verifier::loop_isolation(false)]
fn read_header(cleartext: &[u8], font: &mut Type1Font)
    requires
        old(font).wf(),
    ensures
        final(font).wf(),
        final(font)@ == header_from(cleartext@, 0, old(font)@),
{
    let mut t = Tokenizer { data: cleartext, pos: 0 };
    let ghost s = cleartext@;
    let ghost goal = header_from(s, 0, font@);
    loop
        invariant
            t.wf(),
            t.data@ == s,
            font.wf(),
            header_from(s, t.pos as int, font@) == goal,
        decreases t.data.len() - t.pos,
    {
        let token = match t.next() {
            Some(token) => token,
            None => {
                return ;
            },
        };
        if !token.name {
            continue ;
        }
        let key = t.text(token);
        if bytes::is_text(key, "FontName") {
            if let Some(n) = t.next() {
                if n.name {
                    font.font_name = bytes::copy(t.text(n));
                }
            }
        } else if bytes::is_text(key, "FontMatrix") {
            let m = t.number_array();
            if m.len() == 6 {
                font.font_matrix = Some(m);
            }
        } else if bytes::is_text(key, "FontBBox") {
            let b = t.number_array();
            if b.len() == 4 {
                font.font_bbox = Some(b);
            }
        } else if bytes::is_text(key, "Encoding") {
            font.encoding = read_encoding(&mut t);
        }
    }
}

// ------------------------------------------------------------- private

/// A charstring of the file, decrypted; a negative `len_iv` says that it is
/// not encrypted.
pub open spec fn plain_charstring(data: Seq<u8>, len_iv: int) -> Seq<u8> {
    if len_iv < 0 {
        data
    } else {
        cipher::decrypted(data, CHARSTRING_KEY, len_iv)
    }
}

/// The binary data of `len` bytes behind `pos` and exactly one byte, and
/// where it ends.
pub open spec fn binary_at(s: Seq<u8>, pos: int, len: int) -> Option<(Seq<u8>, int)> {
    if pos + 1 + len <= s.len() {
        Some((s.subrange(pos + 1, pos + 1 + len), pos + 1 + len))
    } else {
        None
    }
}

/// The subroutines with number `index` given; numbers from 65536 on are
/// passed over.
pub open spec fn with_subr(subrs: Seq<Seq<u8>>, index: int, data: Seq<u8>) -> Seq<Seq<u8>> {
    if index >= 65536 {
        subrs
    } else if index < subrs.len() {
        subrs.update(index, data)
    } else {
        Seq::new(
            (index + 1) as nat,
            |i: int|
                if i < subrs.len() {
                    subrs[i]
                } else if i == index {
                    data
                } else {
                    Seq::empty()
                },
        )
    }
}

/// The `dup index length RD <bytes> NP` entries from `pos` on.
pub open spec fn subrs_from(s: Seq<u8>, pos: int, len_iv: int, subrs: Seq<Seq<u8>>) -> Option<
    (Seq<Seq<u8>>, int),
>
    decreases s.len() - pos,
{
    match token_at(s, pos) {
        None => Some((subrs, pos)),
        Some((t, end)) => if !is_word(t, "dup"@) {
            Some((subrs, end))
        } else {
            let (index, p1) = number_at(s, end);
            let (len, p2) = number_at(s, p1);
            match (index, len, token_at(s, p2)) {
                (Some(index), Some(len), Some((_, p3))) => match binary_at(s, p3, len.count()) {
                    None => None,
                    Some((data, p4)) => {
                        let next = with_subr(subrs, index.count(), plain_charstring(data, len_iv));
                        // NP, |, or `noaccess put`.
                        let p5: Option<int> = match token_at(s, p4) {
                            None => Some(p4),
                            Some((u, p5)) => if is_word(u, "noaccess"@) {
                                match token_at(s, p5) {
                                    None => None,
                                    Some((_, p6)) => Some(p6),
                                }
                            } else {
                                Some(p5)
                            },
                        };
                        match p5 {
                            None => None,
                            Some(p) => if p <= pos || p > s.len() {
                                None
                            } else {
                                subrs_from(s, p, len_iv, next)
                            },
                        }
                    },
                },
                _ => None,
            }
        },
    }
}

/// `/Subrs N array` and its entries.
pub open spec fn subrs_at(s: Seq<u8>, pos: int, len_iv: int, subrs: Seq<Seq<u8>>) -> Option<
    (Seq<Seq<u8>>, int),
> {
    let (n, p1) = number_at(s, pos);
    match (n, token_at(s, p1)) {
        (Some(_), Some((_, p2))) => subrs_from(s, p2, len_iv, subrs),
        _ => None,
    }
}

/// Behind the `begin` of the charstrings; `None` where an `end` or a name
/// comes first.
pub open spec fn begin_from(s: Seq<u8>, pos: int) -> Option<int>
    decreases s.len() - pos,
{
    match token_at(s, pos) {
        None => None,
        Some((t, end)) => if is_word(t, "begin"@) {
            Some(end)
        } else if is_word(t, "end"@) || t is Name || end <= pos || end > s.len() {
            None
        } else {
            begin_from(s, end)
        },
    }
}

/// The `/name length RD <bytes> ND` entries from `pos` up to `end`.
pub open spec fn glyphs_from(
    s: Seq<u8>,
    pos: int,
    len_iv: int,
    glyphs: Seq<(Seq<u8>, Seq<u8>)>,
) -> Option<(Seq<(Seq<u8>, Seq<u8>)>, int)>
    decreases s.len() - pos,
{
    match token_at(s, pos) {
        None => None,
        Some((t, end)) => if end <= pos || end > s.len() {
            None
        } else if is_word(t, "end"@) {
            Some((glyphs, end))
        } else {
            match t {
                TokenView::Word(_) => glyphs_from(s, end, len_iv, glyphs),
                TokenView::Name(name) => {
                    let (len, p1) = number_at(s, end);
                    match (len, token_at(s, p1)) {
                        (Some(len), Some((_, p2))) => match binary_at(s, p2, len.count()) {
                            None => None,
                            Some((data, p3)) => {
                                let next = glyphs.push((name, plain_charstring(data, len_iv)));
                                // ND, |-, or `noaccess def`. When the terminator is
                                // missing, the next glyph's name follows at once.
                                let p4: Option<int> = match token_at(s, p3) {
                                    None => Some(p3),
                                    Some((TokenView::Name(_), _)) => Some(p3),
                                    Some((u, p4)) => if is_word(u, "noaccess"@) {
                                        match token_at(s, p4) {
                                            None => None,
                                            Some((_, p5)) => Some(p5),
                                        }
                                    } else {
                                        Some(p4)
                                    },
                                };
                                match p4 {
                                    None => None,
                                    Some(p) => if p <= pos || p > s.len() {
                                        None
                                    } else {
                                        glyphs_from(s, p, len_iv, next)
                                    },
                                }
                            },
                        },
                        _ => None,
                    }
                },
            }
        },
    }
}

/// Keys with an array of numbers.
pub open spec fn is_array_key(key: Seq<u8>) -> bool {
    ||| key == bytes::text("BlueValues"@)
    ||| key == bytes::text("OtherBlues"@)
    ||| key == bytes::text("FamilyBlues"@)
    ||| key == bytes::text("FamilyOtherBlues"@)
    ||| key == bytes::text("StemSnapH"@)
    ||| key == bytes::text("StemSnapV"@)
}

/// Keys with a one-element array, which is a number in CFF.
pub open spec fn is_single_key(key: Seq<u8>) -> bool {
    ||| key == bytes::text("StdHW"@)
    ||| key == bytes::text("StdVW"@)
}

/// Keys with a number.
pub open spec fn is_number_key(key: Seq<u8>) -> bool {
    ||| key == bytes::text("BlueScale"@)
    ||| key == bytes::text("BlueShift"@)
    ||| key == bytes::text("BlueFuzz"@)
    ||| key == bytes::text("LanguageGroup"@)
    ||| key == bytes::text("ExpansionFactor"@)
}

/// The value of a hinting key at `pos`: nothing for other keys; and where it
/// ends. `None` where a number is missing.
pub open spec fn hint_value(s: Seq<u8>, pos: int, key: Seq<u8>) -> Option<
    (Option<Seq<Decimal>>, int),
> {
    if is_array_key(key) {
        let (v, end) = array_at(s, pos);
        Some((Some(v), end))
    } else if is_single_key(key) {
        let (v, end) = array_at(s, pos);
        Some(
            (
                Some(
                    if v.len() > 1 {
                        v.take(1)
                    } else {
                        v
                    },
                ),
                end,
            ),
        )
    } else if is_number_key(key) {
        let (n, end) = number_at(s, pos);
        match n {
            Some(d) => Some((Some(seq![d]), end)),
            None => None,
        }
    } else if key == bytes::text("ForceBold"@) {
        let (yes, end) = match token_at(s, pos) {
            Some((t, end)) => (is_word(t, "true"@), end),
            None => (false, pos),
        };
        Some(
            (
                Some(
                    seq![
                        Decimal {
                            digits: if yes {
                                1
                            } else {
                                0
                            },
                            exponent: 0,
                        },
                    ],
                ),
                end,
            ),
        )
    } else {
        Some((None, pos))
    }
}

/// Where the reading of the private portion stands.
pub struct PrivateState {
    pub len_iv: int,
    pub seen_subrs: bool,
    pub seen_charstrings: bool,
    pub font: FontView,
}

/// What the key `name` with a value at `pos` does, and where the value ends.
pub open spec fn private_step(s: Seq<u8>, pos: int, name: Seq<u8>, p: PrivateState) -> Option<
    (PrivateState, int),
> {
    if name == bytes::text("lenIV"@) {
        let (n, end) = number_at(s, pos);
        match n {
            Some(d) => Some((PrivateState { len_iv: d.truncated(), ..p }, end)),
            None => None,
        }
    } else if name == bytes::text("Subrs"@) && !p.seen_subrs {
        match subrs_at(s, pos, p.len_iv, p.font.subrs) {
            Some((subrs, end)) => Some(
                (PrivateState { seen_subrs: true, font: FontView { subrs, ..p.font }, ..p }, end),
            ),
            None => None,
        }
    } else if name == bytes::text("CharStrings"@) && !p.seen_charstrings {
        match begin_from(s, pos) {
            Some(start) => match glyphs_from(s, start, p.len_iv, p.font.charstrings) {
                Some((charstrings, end)) => Some(
                    (
                        PrivateState {
                            seen_charstrings: true,
                            font: FontView { charstrings, ..p.font },
                            ..p
                        },
                        end,
                    ),
                ),
                None => None,
            },
            None => None,
        }
    } else {
        match hint_value(s, pos, name) {
            Some((Some(values), end)) => Some(
                (
                    PrivateState {
                        font: FontView { private: p.font.private.push((name, values)), ..p.font },
                        ..p
                    },
                    end,
                ),
            ),
            Some((None, end)) => Some((p, end)),
            None => None,
        }
    }
}

/// What the private portion from `pos` on makes of the font; `None` where it
/// breaks off.
pub open spec fn private_from(s: Seq<u8>, pos: int, p: PrivateState) -> Option<FontView>
    decreases s.len() - pos,
{
    match token_at(s, pos) {
        None => Some(p.font),
        Some((t, end)) => if end <= pos || end > s.len() {
            None
        } else {
            match t {
                TokenView::Word(_) => private_from(s, end, p),
                TokenView::Name(name) => match private_step(s, end, name, p) {
                    None => None,
                    Some((q, last)) => if last <= pos || last > s.len() {
                        None
                    } else {
                        private_from(s, last, q)
                    },
                },
            }
        },
    }
}

/// What a Type 1 program holds; `None` where it is not one.
pub open spec fn parsed(program: Seq<u8>) -> Option<FontView> {
    let s = without_headers(program);
    match eexec_portion(s) {
        None => None,
        Some(split) => {
            let f = header_from(s.take(split), 0, empty_font());
            let p = PrivateState {
                len_iv: 4,
                seen_subrs: false,
                seen_charstrings: false,
                font: f,
            };
            match private_from(private_portion(s.skip(split)), 0, p) {
                None => None,
                Some(g) => if g.charstrings.len() == 0 {
                    None
                } else {
                    Some(g)
                },
            }
        },
    }
}


impl<'a> Tokenizer<'a> {
    /// Binary data follows the `RD` procedure token and exactly one space.
    fn binary(&mut self, len: usize) -> (r: Option<&'a [u8]>)
        requires
            old(self).wf(),
        ensures
            final(self).data == old(self).data,
            match binary_at(old(self).data@, old(self).pos as int, len as int) {
                Some((d, end)) => r is Some && r->0@ == d && final(self).pos == end
                    && final(self).wf() && final(self).pos > old(self).pos,
                None => r is None,
            },
    {
        let left: usize = self.data.len() - self.pos;
        if left < 1 || left - 1 < len {
            return None;
        }
        let start: usize = self.pos + 1;
        self.pos = start + len;
        Some(vstd::slice::slice_subrange(self.data, start, start + len))
    }
}

fn decrypt_charstring(data: &[u8], len_iv: i128) -> (r: Vec<u8>)
    ensures
        r@ == plain_charstring(data@, len_iv as int),
{
    if len_iv < 0 {
        bytes::copy(data)
    } else {
        let skip: usize = if len_iv > data.len() as i128 {
            data.len()
        } else {
            len_iv as usize
        };
        let r = decrypt(data, CHARSTRING_KEY, skip);
        assert(r@ =~= cipher::decrypted(data@, CHARSTRING_KEY, len_iv as int));
        r
    }
}

fn put_subr(subrs: &mut Vec<Vec<u8>>, index: usize, data: Vec<u8>)
    ensures
        lists_view(final(subrs)@) == with_subr(lists_view(old(subrs)@), index as int, data@),
{
    if index >= 65536 {
        return ;
    }
    let ghost before = lists_view(subrs@);
    if index < subrs.len() {
        subrs[index] = data;
        assert(lists_view(subrs@) =~= before.update(index as int, data@));
        return ;
    }
    let ghost n = before.len();
    while subrs.len() < index
        invariant
            n <= subrs@.len() <= index,
            index < 65536,
            forall|k: int| 0 <= k < n ==> (#[trigger] subrs@[k])@ == before[k],
            forall|k: int| n <= k < subrs@.len() ==> (#[trigger] subrs@[k])@.len() == 0,
        decreases index - subrs@.len(),
    {
        subrs.push(Vec::new());
    }
    subrs.push(data);
    assert forall|k: int| 0 <= k <= index implies #[trigger] lists_view(subrs@)[k] == with_subr(
        before,
        index as int,
        data@,
    )[k] by {
        if k >= n && k < index {
            assert(subrs@[k]@ =~= Seq::empty());
        }
    }
    assert(lists_view(subrs@) =~= with_subr(before, index as int, data@));
}

/// `/Subrs N array` then `dup index length RD <bytes> NP` entries.
#[verifier::loop_isolation(false)]
fn read_subrs(t: &mut Tokenizer<'_>, len_iv: i128, subrs: &mut Vec<Vec<u8>>) -> (r: Option<()>)
    requires
        old(t).wf(),
    ensures
        final(t).data == old(t).data,
        match subrs_at(
            old(t).data@,
            old(t).pos as int,
            len_iv as int,
            lists_view(old(subrs)@),
        ) {
            Some((v, end)) => r is Some && lists_view(final(subrs)@) == v && final(t).pos == end
                && final(t).wf() && final(t).pos >= old(t).pos,
            None => r is None,
        },
{
    t.number()?;
    t.next()?;  // array
    let ghost s = t.data@;
    let ghost goal = subrs_from(s, t.pos as int, len_iv as int, lists_view(subrs@));
    loop
        invariant
            t.wf(),
            t.data == old(t).data,
            t.data@ == s,
            t.pos >= old(t).pos,
            subrs_from(s, t.pos as int, len_iv as int, lists_view(subrs@)) == goal,
        decreases t.data.len() - t.pos,
    {
        let token = match t.next() {
            Some(token) => token,
            None => {
                return Some(());
            },
        };
        if !t.is(token, "dup") {
            return Some(());
        }
        let index = t.number()?.to_count();
        let len = t.number()?.to_count();
        t.next()?;  // RD or -|
        let data = t.binary(len)?;
        let plain = decrypt_charstring(data, len_iv);
        put_subr(subrs, index, plain);
        // NP, |, or `noaccess put`: whatever follows is skipped by the
        // loop looking for the next `dup`.
        if let Some(after) = t.next() {
            if t.is(after, "noaccess") {
                t.next()?;
            }
        }
    }
}

/// Up to the `begin` of the charstrings.
#[verifier::loop_isolation(false)]
fn find_begin(t: &mut Tokenizer<'_>) -> (r: Option<()>)
    requires
        old(t).wf(),
    ensures
        final(t).data == old(t).data,
        match begin_from(old(t).data@, old(t).pos as int) {
            Some(start) => r is Some && final(t).pos == start && final(t).wf() && final(t).pos
                >= old(t).pos,
            None => r is None,
        },
{
    let ghost s = t.data@;
    let ghost first = begin_from(s, t.pos as int);
    loop
        invariant
            begin_from(s, t.pos as int) == first,
            t.wf(),
            t.data == old(t).data,
            t.data@ == s,
            t.pos >= old(t).pos,
        decreases t.data.len() - t.pos,
    {
        let token = t.next()?;
        if t.is(token, "begin") {
            return Some(());
        }
        if token.name || t.is(token, "end") {
            return None;
        }
    }
}

/// `/CharStrings N dict dup begin` then `/name length RD <bytes> ND`
/// entries up to `end`.
#[verifier::loop_isolation(false)]
fn read_charstrings(
    t: &mut Tokenizer<'_>,
    len_iv: i128,
    out: &mut Vec<(Vec<u8>, Vec<u8>)>,
) -> (r: Option<()>)
    requires
        old(t).wf(),
    ensures
        final(t).data == old(t).data,
        match begin_from(old(t).data@, old(t).pos as int) {
            Some(start) => match glyphs_from(
                old(t).data@,
                start,
                len_iv as int,
                strings_view(old(out)@),
            ) {
                Some((v, end)) => r is Some && strings_view(final(out)@) == v && final(t).pos
                    == end && final(t).wf() && final(t).pos >= old(t).pos,
                None => r is None,
            },
            None => r is None,
        },
{
    find_begin(t)?;
    let ghost s = t.data@;
    let ghost goal = glyphs_from(s, t.pos as int, len_iv as int, strings_view(out@));
    loop
        invariant
            t.wf(),
            t.data == old(t).data,
            t.data@ == s,
            t.pos >= old(t).pos,
            glyphs_from(s, t.pos as int, len_iv as int, strings_view(out@)) == goal,
        decreases t.data.len() - t.pos,
    {
        let token = t.next()?;
        if t.is(token, "end") {
            return Some(());
        }
        if !token.name {
            continue ;
        }
        let name = bytes::copy(t.text(token));
        let len = t.number()?.to_count();
        t.next()?;  // RD or -|
        let data = t.binary(len)?;
        let plain = decrypt_charstring(data, len_iv);
        let ghost before = strings_view(out@);
        out.push((name, plain));
        assert(strings_view(out@) =~= before.push((name@, plain@)));
        // ND, |-, or `noaccess def`. When the terminator is missing the
        // next token is already the next glyph's name; put it back.
        let after = t.pos;
        if let Some(next) = t.next() {
            if next.name {
                t.pos = after;
            } else if t.is(next, "noaccess") {
                t.next()?;
            }
        }
    }
}

fn array_key(key: &[u8]) -> (r: bool)
    ensures
        r == is_array_key(key@),
{
    bytes::is_text(key, "BlueValues") || bytes::is_text(key, "OtherBlues") || bytes::is_text(
        key,
        "FamilyBlues",
    ) || bytes::is_text(key, "FamilyOtherBlues") || bytes::is_text(key, "StemSnapH")
        || bytes::is_text(key, "StemSnapV")
}

fn number_key(key: &[u8]) -> (r: bool)
    ensures
        r == is_number_key(key@),
{
    bytes::is_text(key, "BlueScale") || bytes::is_text(key, "BlueShift") || bytes::is_text(
        key,
        "BlueFuzz",
    ) || bytes::is_text(key, "LanguageGroup") || bytes::is_text(key, "ExpansionFactor")
}

/// The value of a hinting-related private entry, when `key` names one.
fn read_hint(t: &mut Tokenizer<'_>, key: &[u8]) -> (r: Option<Option<Vec<Decimal>>>)
    requires
        old(t).wf(),
    ensures
        final(t).data == old(t).data,
        match hint_value(old(t).data@, old(t).pos as int, key@) {
            Some((v, end)) => r is Some && numbers_view(r->0) == v && final(t).pos == end
                && final(t).wf() && final(t).pos >= old(t).pos,
            None => r is None,
        },
{
    if array_key(key) {
        Some(Some(t.number_array()))
    } else if bytes::is_text(key, "StdHW") || bytes::is_text(key, "StdVW") {
        let mut v = t.number_array();
        let ghost all = v@;
        v.truncate(1);
        assert(all.len() <= 1 ==> v@ =~= all);
        Some(Some(v))
    } else if number_key(key) {
        let n = t.number()?;
        let mut v: Vec<Decimal> = Vec::new();
        v.push(n);
        assert(v@ =~= seq![n]);
        Some(Some(v))
    } else if bytes::is_text(key, "ForceBold") {
        let yes = match t.next() {
            Some(token) => t.is(token, "true"),
            None => false,
        };
        let n = Decimal {
            digits: if yes {
                1
            } else {
                0
            },
            exponent: 0,
        };
        let mut v: Vec<Decimal> = Vec::new();
        v.push(n);
        assert(v@ =~= seq![n]);
        Some(Some(v))
    } else {
        Some(None)
    }
}

#[verifier::loop_isolation(false)]
#[verifier::rlimit(40)]
fn read_private(data: &[u8], font: &mut Type1Font) -> (r: Option<()>)
    requires
        old(font).wf(),
    ensures
        match private_from(
            data@,
            0,
            PrivateState {
                len_iv: 4,
                seen_subrs: false,
                seen_charstrings: false,
                font: old(font)@,
            },
        ) {
            Some(f) => r is Some && final(font)@ == f && final(font).wf(),
            None => r is None,
        },
{
    let mut t = Tokenizer { data, pos: 0 };
    let mut len_iv: i128 = 4;
    let mut seen_subrs = false;
    let mut seen_charstrings = false;
    let ghost s = data@;
    let ghost goal = private_from(
        s,
        0,
        PrivateState { len_iv: 4, seen_subrs: false, seen_charstrings: false, font: font@ },
    );
    loop
        invariant
            t.wf(),
            t.data@ == s,
            font.wf(),
            private_from(
                s,
                t.pos as int,
                PrivateState {
                    len_iv: len_iv as int,
                    seen_subrs,
                    seen_charstrings,
                    font: font@,
                },
            ) == goal,
        decreases t.data.len() - t.pos,
    {
        let token = match t.next() {
            Some(token) => token,
            None => {
                return Some(());
            },
        };
        if !token.name {
            continue ;
        }
        let key = t.text(token);
        if bytes::is_text(key, "lenIV") {
            len_iv = t.number()?.trunc();
        } else if bytes::is_text(key, "Subrs") && !seen_subrs {
            seen_subrs = true;
            read_subrs(&mut t, len_iv, &mut font.subrs)?;
        } else if bytes::is_text(key, "CharStrings") && !seen_charstrings {
            seen_charstrings = true;
            read_charstrings(&mut t, len_iv, &mut font.charstrings)?;
        } else if let Some(values) = read_hint(&mut t, key)? {
            let ghost before = private_view(font.private@);
            let name = bytes::copy(key);
            font.private.push((name, values));
            assert(private_view(font.private@) =~= before.push((name@, values@)));
        }
    }
}

/// A Type 1 program as PDF embeds it; `None` where it is not one.
pub fn parse(program: &[u8]) -> (r: Option<Type1Font>)
    ensures
        match r {
            Some(font) => parsed(program@) == Some(font@) && font.wf(),
            None => parsed(program@) is None,
        },
{
    let program = strip_pfb(program);
    let split = find_eexec(&program)?;
    let mut font = Type1Font {
        font_name: Vec::new(),
        font_matrix: None,
        font_bbox: None,
        encoding: None,
        private: Vec::new(),
        subrs: Vec::new(),
        charstrings: Vec::new(),
    };
    proof {
        assert(font@.name =~= Seq::empty());
        assert(font@.private =~= Seq::empty());
        assert(font@.subrs =~= Seq::empty());
        assert(font@.charstrings =~= Seq::empty());
        assert(font@ == empty_font());
    }
    let cleartext = vstd::slice::slice_subrange(&program, 0, split);
    assert(cleartext@ =~= program@.take(split as int));
    read_header(cleartext, &mut font);
    let secret = vstd::slice::slice_subrange(&program, split, program.len());
    assert(secret@ =~= program@.skip(split as int));
    let plain = decrypt_eexec(secret);
    read_private(&plain, &mut font)?;
    if font.charstrings.len() == 0 {
        return None;
    }
    Some(font)
}

// ------------------------------------------------------------- laws

/// A segment of a PFB file: its mark, its type, its length with the low byte
/// first, and its data.
pub open spec fn segment(kind: u8, data: Seq<u8>) -> Seq<u8> {
    let n = data.len() as int;
    seq![
        128u8,
        kind,
        (n % 256) as u8,
        (n / 256 % 256) as u8,
        (n / 65536 % 256) as u8,
        (n / 16777216 % 256) as u8,
    ] + data
}

proof fn lemma_segment(s: Seq<u8>, pos: int, kind: u8, data: Seq<u8>)
    requires
        kind == 1 || kind == 2,
        data.len() < 0x1_0000_0000,
        0 <= pos,
        pos + 6 + data.len() <= s.len(),
        s.subrange(pos, pos + 6 + data.len()) == segment(kind, data),
    ensures
        segments(s, pos) == data + segments(s, pos + 6 + data.len()),
{
    let n = data.len() as int;
    let g = segment(kind, data);
    let part = s.subrange(pos, pos + 6 + data.len());
    assert(part[0] == s[pos] && part[1] == s[pos + 1] && part[2] == s[pos + 2] && part[3] == s[pos
        + 3] && part[4] == s[pos + 4] && part[5] == s[pos + 5]);
    assert(g[2] + g[3] * 256 + g[4] * 0x1_0000 + g[5] * 0x100_0000 == n);
    assert(read_le32(s, pos + 2) == n);
    assert(s.subrange(pos + 6, pos + 6 + n) =~= data) by {
        assert forall|i: int| 0 <= i < n implies s[pos + 6 + i] == #[trigger] data[i] by {
            assert(part[6 + i] == g[6 + i]);
        }
    }
}

/// A program that is split into segments is put together again.
pub proof fn segments_are_put_together(a: Seq<u8>, b: Seq<u8>)
    requires
        a.len() < 0x1_0000_0000,
        b.len() < 0x1_0000_0000,
    ensures
        without_headers(segment(1, a) + segment(2, b)) == a + b,
{
    let s = segment(1, a) + segment(2, b);
    let mid = 6 + a.len() as int;
    assert(s.subrange(0, mid) =~= segment(1, a));
    assert(s.subrange(mid, mid + 6 + b.len()) =~= segment(2, b));
    lemma_segment(s, 0, 1, a);
    lemma_segment(s, mid, 2, b);
    assert(segments(s, s.len() as int) =~= Seq::empty());
    assert(b + Seq::<u8>::empty() =~= b);
}

/// A hex digit is a decimal one, or one of six letters of either case that
/// count on from ten.
pub proof fn hex_digits_count_on(b: u8, v: u8)
    ensures
        hex_value(b) == Some(v) <==> (v < 10 && b == 48 + v) || (10 <= v < 16 && (b == 87 + v || b
            == 55 + v)),
{
}

/// Two hex digits spell a byte, the first of them its high half.
pub proof fn hex_pairs_spell_bytes(s: Seq<u8>, n: int, i: int)
    requires
        0 <= n <= s.len(),
        forall|k: int| 0 <= k < n ==> hex_value(#[trigger] s[k]) is Some,
        0 <= 2 * i,
        2 * i + 1 < n,
    ensures
        hex_digits(s, n).len() == n,
        hex_bytes(hex_digits(s, n)).len() == n / 2,
        hex_bytes(hex_digits(s, n))[i] == 16 * hex_value(s[2 * i])->0 + hex_value(s[2 * i + 1])->0,
{
    lemma_hex_digits(s, n);
    assert(hex_value(s[2 * i]) is Some && hex_value(s[2 * i + 1]) is Some);
}

proof fn lemma_hex_digits(s: Seq<u8>, n: int)
    requires
        0 <= n <= s.len(),
        forall|k: int| 0 <= k < n ==> hex_value(#[trigger] s[k]) is Some,
    ensures
        hex_digits(s, n).len() == n,
        forall|k: int| 0 <= k < n ==> #[trigger] hex_digits(s, n)[k] == hex_value(s[k])->0,
    decreases n,
{
    if n > 0 {
        lemma_hex_digits(s, n - 1);
        assert(hex_value(s[n - 1]) is Some);
    }
}

/// What tells the keys of a header apart.
proof fn lemma_header_names()
    ensures
        "FontName"@.len() == 8 && "FontName"@[4] == 'N',
        "FontMatrix"@.len() == 10,
        "FontBBox"@.len() == 8 && "FontBBox"@[4] == 'B',
        "Encoding"@.len() == 8 && "Encoding"@[4] == 'd',
{
    reveal_strlit("FontName");
    reveal_strlit("FontMatrix");
    reveal_strlit("FontBBox");
    reveal_strlit("Encoding");
}

/// Each key of the cleartext sets its own part of the font, and no other: the
/// matrix six numbers, the bounding box four.
pub proof fn header_keys_set_their_parts(s: Seq<u8>, pos: int, f: FontView)
    ensures
        ({
            let (m, end) = array_at(s, pos);
            &&& m.len() == 6 ==> header_value(s, pos, bytes::text("FontMatrix"@), f) == (
                FontView { matrix: Some(m), ..f },
                end,
            )
            &&& m.len() == 4 ==> header_value(s, pos, bytes::text("FontBBox"@), f) == (
                FontView { bbox: Some(m), ..f },
                end,
            )
        }),
        ({
            let (e, end) = encoding_at(s, pos);
            header_value(s, pos, bytes::text("Encoding"@), f) == (FontView { encoding: e, ..f }, end)
        }),
        token_at(s, pos) matches Some((TokenView::Name(n), end)) ==> header_value(
            s,
            pos,
            bytes::text("FontName"@),
            f,
        ) == (FontView { name: n, ..f }, end),
{
    bytes::lemma_texts_differ();
    lemma_header_names();
}

} // verus!
