//! The PostScript calculator of type 4 functions: reading a program, and
//! running it step by step. Numbers and booleans share one stack. A number is
//! held as the bit pattern of a double; arithmetic on numbers is left to the
//! caller, who is asked for it and hands the result back.
use vstd::arithmetic::power2;
use vstd::prelude::*;

use crate::bytes;
use crate::single;

verus! {

/// An operator of the calculator.
#[derive(Debug, Clone, Copy, PartialEq, Eq, Structural)]
pub enum Operator {
    Abs,
    Plus,
    Atan,
    Ceiling,
    Cos,
    Cvi,
    Cvr,
    Over,
    Power,
    Floor,
    Idiv,
    Ln,
    Log,
    Modulo,
    Times,
    Neg,
    Round,
    Sin,
    Sqrt,
    Minus,
    Truncate,
    Both,
    Bitshift,
    Equal,
    FalseFlag,
    Ge,
    Gt,
    Le,
    Lt,
    Unequal,
    Negate,
    Either,
    TrueFlag,
    Differ,
    If,
    IfElse,
    Duplicate,
    Dup,
    Exch,
    Nth,
    Discard,
    Roll,
}

/// The operator that a word names.
pub open spec fn operator_named(word: Seq<u8>) -> Option<Operator> {
    if word == bytes::text("abs"@) {
        Some(Operator::Abs)
    } else if word == bytes::text("add"@) {
        Some(Operator::Plus)
    } else if word == bytes::text("atan"@) {
        Some(Operator::Atan)
    } else if word == bytes::text("ceiling"@) {
        Some(Operator::Ceiling)
    } else if word == bytes::text("cos"@) {
        Some(Operator::Cos)
    } else if word == bytes::text("cvi"@) {
        Some(Operator::Cvi)
    } else if word == bytes::text("cvr"@) {
        Some(Operator::Cvr)
    } else if word == bytes::text("div"@) {
        Some(Operator::Over)
    } else if word == bytes::text("exp"@) {
        Some(Operator::Power)
    } else if word == bytes::text("floor"@) {
        Some(Operator::Floor)
    } else if word == bytes::text("idiv"@) {
        Some(Operator::Idiv)
    } else if word == bytes::text("ln"@) {
        Some(Operator::Ln)
    } else if word == bytes::text("log"@) {
        Some(Operator::Log)
    } else if word == bytes::text("mod"@) {
        Some(Operator::Modulo)
    } else if word == bytes::text("mul"@) {
        Some(Operator::Times)
    } else if word == bytes::text("neg"@) {
        Some(Operator::Neg)
    } else if word == bytes::text("round"@) {
        Some(Operator::Round)
    } else if word == bytes::text("sin"@) {
        Some(Operator::Sin)
    } else if word == bytes::text("sqrt"@) {
        Some(Operator::Sqrt)
    } else if word == bytes::text("sub"@) {
        Some(Operator::Minus)
    } else if word == bytes::text("truncate"@) {
        Some(Operator::Truncate)
    } else if word == bytes::text("and"@) {
        Some(Operator::Both)
    } else if word == bytes::text("bitshift"@) {
        Some(Operator::Bitshift)
    } else if word == bytes::text("eq"@) {
        Some(Operator::Equal)
    } else if word == bytes::text("false"@) {
        Some(Operator::FalseFlag)
    } else if word == bytes::text("ge"@) {
        Some(Operator::Ge)
    } else if word == bytes::text("gt"@) {
        Some(Operator::Gt)
    } else if word == bytes::text("le"@) {
        Some(Operator::Le)
    } else if word == bytes::text("lt"@) {
        Some(Operator::Lt)
    } else if word == bytes::text("ne"@) {
        Some(Operator::Unequal)
    } else if word == bytes::text("not"@) {
        Some(Operator::Negate)
    } else if word == bytes::text("or"@) {
        Some(Operator::Either)
    } else if word == bytes::text("true"@) {
        Some(Operator::TrueFlag)
    } else if word == bytes::text("xor"@) {
        Some(Operator::Differ)
    } else if word == bytes::text("if"@) {
        Some(Operator::If)
    } else if word == bytes::text("ifelse"@) {
        Some(Operator::IfElse)
    } else if word == bytes::text("copy"@) {
        Some(Operator::Duplicate)
    } else if word == bytes::text("dup"@) {
        Some(Operator::Dup)
    } else if word == bytes::text("exch"@) {
        Some(Operator::Exch)
    } else if word == bytes::text("index"@) {
        Some(Operator::Nth)
    } else if word == bytes::text("pop"@) {
        Some(Operator::Discard)
    } else if word == bytes::text("roll"@) {
        Some(Operator::Roll)
    } else {
        None
    }
}

fn find_operator(word: &[u8]) -> (r: Option<Operator>)
    ensures
        r == operator_named(word@),
{
    if bytes::is_text(word, "abs") {
        Some(Operator::Abs)
    } else if bytes::is_text(word, "add") {
        Some(Operator::Plus)
    } else if bytes::is_text(word, "atan") {
        Some(Operator::Atan)
    } else if bytes::is_text(word, "ceiling") {
        Some(Operator::Ceiling)
    } else if bytes::is_text(word, "cos") {
        Some(Operator::Cos)
    } else if bytes::is_text(word, "cvi") {
        Some(Operator::Cvi)
    } else if bytes::is_text(word, "cvr") {
        Some(Operator::Cvr)
    } else if bytes::is_text(word, "div") {
        Some(Operator::Over)
    } else if bytes::is_text(word, "exp") {
        Some(Operator::Power)
    } else if bytes::is_text(word, "floor") {
        Some(Operator::Floor)
    } else if bytes::is_text(word, "idiv") {
        Some(Operator::Idiv)
    } else if bytes::is_text(word, "ln") {
        Some(Operator::Ln)
    } else if bytes::is_text(word, "log") {
        Some(Operator::Log)
    } else if bytes::is_text(word, "mod") {
        Some(Operator::Modulo)
    } else if bytes::is_text(word, "mul") {
        Some(Operator::Times)
    } else if bytes::is_text(word, "neg") {
        Some(Operator::Neg)
    } else if bytes::is_text(word, "round") {
        Some(Operator::Round)
    } else if bytes::is_text(word, "sin") {
        Some(Operator::Sin)
    } else if bytes::is_text(word, "sqrt") {
        Some(Operator::Sqrt)
    } else if bytes::is_text(word, "sub") {
        Some(Operator::Minus)
    } else if bytes::is_text(word, "truncate") {
        Some(Operator::Truncate)
    } else if bytes::is_text(word, "and") {
        Some(Operator::Both)
    } else if bytes::is_text(word, "bitshift") {
        Some(Operator::Bitshift)
    } else if bytes::is_text(word, "eq") {
        Some(Operator::Equal)
    } else if bytes::is_text(word, "false") {
        Some(Operator::FalseFlag)
    } else if bytes::is_text(word, "ge") {
        Some(Operator::Ge)
    } else if bytes::is_text(word, "gt") {
        Some(Operator::Gt)
    } else if bytes::is_text(word, "le") {
        Some(Operator::Le)
    } else if bytes::is_text(word, "lt") {
        Some(Operator::Lt)
    } else if bytes::is_text(word, "ne") {
        Some(Operator::Unequal)
    } else if bytes::is_text(word, "not") {
        Some(Operator::Negate)
    } else if bytes::is_text(word, "or") {
        Some(Operator::Either)
    } else if bytes::is_text(word, "true") {
        Some(Operator::TrueFlag)
    } else if bytes::is_text(word, "xor") {
        Some(Operator::Differ)
    } else if bytes::is_text(word, "if") {
        Some(Operator::If)
    } else if bytes::is_text(word, "ifelse") {
        Some(Operator::IfElse)
    } else if bytes::is_text(word, "copy") {
        Some(Operator::Duplicate)
    } else if bytes::is_text(word, "dup") {
        Some(Operator::Dup)
    } else if bytes::is_text(word, "exch") {
        Some(Operator::Exch)
    } else if bytes::is_text(word, "index") {
        Some(Operator::Nth)
    } else if bytes::is_text(word, "pop") {
        Some(Operator::Discard)
    } else if bytes::is_text(word, "roll") {
        Some(Operator::Roll)
    } else {
        None
    }
}

/// An operator that takes a number to a number.
pub open spec fn is_unary(op: Operator) -> bool {
    match op {
        Operator::Abs | Operator::Ceiling | Operator::Cos | Operator::Cvi | Operator::Cvr | Operator::Floor | Operator::Ln | Operator::Log | Operator::Neg | Operator::Round | Operator::Sin | Operator::Sqrt | Operator::Truncate => true,
        _ => false,
    }
}

/// An operator that takes two numbers to a number.
pub open spec fn is_binary(op: Operator) -> bool {
    match op {
        Operator::Plus | Operator::Minus | Operator::Times | Operator::Over | Operator::Idiv | Operator::Modulo | Operator::Power | Operator::Atan | Operator::Bitshift => true,
        _ => false,
    }
}

/// An operator that compares two values.
pub open spec fn is_comparison(op: Operator) -> bool {
    match op {
        Operator::Equal | Operator::Unequal | Operator::Gt | Operator::Ge | Operator::Lt | Operator::Le => true,
        _ => false,
    }
}

fn unary(op: Operator) -> (r: bool)
    ensures
        r == is_unary(op),
{
    match op {
        Operator::Abs | Operator::Ceiling | Operator::Cos | Operator::Cvi | Operator::Cvr | Operator::Floor | Operator::Ln | Operator::Log | Operator::Neg | Operator::Round | Operator::Sin | Operator::Sqrt | Operator::Truncate => true,
        _ => false,
    }
}

fn binary(op: Operator) -> (r: bool)
    ensures
        r == is_binary(op),
{
    match op {
        Operator::Plus | Operator::Minus | Operator::Times | Operator::Over | Operator::Idiv | Operator::Modulo | Operator::Power | Operator::Atan | Operator::Bitshift => true,
        _ => false,
    }
}

fn comparison(op: Operator) -> (r: bool)
    ensures
        r == is_comparison(op),
{
    match op {
        Operator::Equal | Operator::Unequal | Operator::Gt | Operator::Ge | Operator::Lt | Operator::Le => true,
        _ => false,
    }
}

// ------------------------------------------------------------- words

/// Why a program is not one, or does not run to its end.
#[derive(Debug, PartialEq, Eq)]
pub enum PsError {
    NestedTooDeeply,
    UnbalancedBraces,
    NotOneBlock,
    UnknownOperator(Vec<u8>),
    TooManySteps,
    StrayBlock,
    StackUnderflow,
    StackOverflow,
    NumberExpected,
    BooleanExpected,
    BooleanLeft,
    CopyUnderflow,
    IndexUnderflow,
    RollUnderflow,
    Unhandled(Operator),
}

/// What an error says.
pub enum PsErrorView {
    NestedTooDeeply,
    UnbalancedBraces,
    NotOneBlock,
    UnknownOperator(Seq<u8>),
    TooManySteps,
    StrayBlock,
    StackUnderflow,
    StackOverflow,
    NumberExpected,
    BooleanExpected,
    BooleanLeft,
    CopyUnderflow,
    IndexUnderflow,
    RollUnderflow,
    Unhandled(Operator),
}

impl View for PsError {
    type V = PsErrorView;

    open spec fn view(&self) -> PsErrorView {
        match *self {
            PsError::NestedTooDeeply => PsErrorView::NestedTooDeeply,
            PsError::UnbalancedBraces => PsErrorView::UnbalancedBraces,
            PsError::NotOneBlock => PsErrorView::NotOneBlock,
            PsError::UnknownOperator(w) => PsErrorView::UnknownOperator(w@),
            PsError::TooManySteps => PsErrorView::TooManySteps,
            PsError::StrayBlock => PsErrorView::StrayBlock,
            PsError::StackUnderflow => PsErrorView::StackUnderflow,
            PsError::StackOverflow => PsErrorView::StackOverflow,
            PsError::NumberExpected => PsErrorView::NumberExpected,
            PsError::BooleanExpected => PsErrorView::BooleanExpected,
            PsError::BooleanLeft => PsErrorView::BooleanLeft,
            PsError::CopyUnderflow => PsErrorView::CopyUnderflow,
            PsError::IndexUnderflow => PsErrorView::IndexUnderflow,
            PsError::RollUnderflow => PsErrorView::RollUnderflow,
            PsError::Unhandled(op) => PsErrorView::Unhandled(op),
        }
    }
}

/// How many bytes the white-space character at `i` has, in UTF-8; none where
/// there is no such character.
pub open spec fn blank_len(s: Seq<u8>, i: int) -> int {
    if i < 0 || i >= s.len() {
        0
    } else if s[i] == 32 || 9 <= s[i] <= 13 {
        1
    } else if i + 1 < s.len() && s[i] == 0xC2 && (s[i + 1] == 0x85 || s[i + 1] == 0xA0) {
        2
    } else if i + 2 < s.len() && wide_blank(s[i], s[i + 1], s[i + 2]) {
        3
    } else {
        0
    }
}

/// Whether three bytes are a white-space character: U+1680, U+2000 to U+200A,
/// U+2028, U+2029, U+202F, U+205F or U+3000.
pub open spec fn wide_blank(a: u8, b: u8, c: u8) -> bool {
    ||| a == 0xE1 && b == 0x9A && c == 0x80
    ||| a == 0xE2 && b == 0x80 && (0x80 <= c <= 0x8A || c == 0xA8 || c == 0xA9 || c == 0xAF)
    ||| a == 0xE2 && b == 0x81 && c == 0x9F
    ||| a == 0xE3 && b == 0x80 && c == 0x80
}

pub open spec fn brace(b: u8) -> bool {
    b == '{' as u8 || b == '}' as u8
}

/// Where the next word starts.
pub open spec fn skip_blank(s: Seq<u8>, i: int) -> int
    decreases s.len() - i,
{
    if blank_len(s, i) > 0 {
        skip_blank(s, i + blank_len(s, i))
    } else {
        i
    }
}

/// Where the plain word that starts at `i` ends.
pub open spec fn plain_end(s: Seq<u8>, i: int) -> int
    decreases s.len() - i,
{
    if 0 <= i < s.len() && blank_len(s, i) == 0 && !brace(s[i]) {
        plain_end(s, i + 1)
    } else {
        i
    }
}

/// How many bytes the white-space character at `i` has.
fn count_blank(s: &[u8], i: usize) -> (r: usize)
    requires
        i < s@.len(),
    ensures
        r == blank_len(s@, i as int),
        i + r <= s@.len(),
{
    let a = s[i];
    if a == 32 || (9 <= a && a <= 13) {
        return 1;
    }
    let left: usize = s.len() - i;
    if left < 2 {
        return 0;
    }
    let b = s[i + 1];
    if a == 0xC2 && (b == 0x85 || b == 0xA0) {
        return 2;
    }
    if left < 3 {
        return 0;
    }
    let c = s[i + 2];
    let wide = (a == 0xE1 && b == 0x9A && c == 0x80) || (a == 0xE2 && b == 0x80 && ((0x80 <= c && c
        <= 0x8A) || c == 0xA8 || c == 0xA9 || c == 0xAF)) || (a == 0xE2 && b == 0x81 && c == 0x9F)
        || (a == 0xE3 && b == 0x80 && c == 0x80);
    if wide {
        3
    } else {
        0
    }
}

fn is_brace(b: u8) -> (r: bool)
    ensures
        r == brace(b),
{
    b == ('{' as u8) || b == ('}' as u8)
}

fn next_word(s: &[u8], i: usize) -> (r: usize)
    requires
        i <= s@.len(),
    ensures
        r == skip_blank(s@, i as int),
        i <= r <= s@.len(),
        blank_len(s@, r as int) == 0,
{
    let mut j: usize = i;
    while j < s.len()
        invariant
            i <= j <= s@.len(),
            skip_blank(s@, i as int) == skip_blank(s@, j as int),
        decreases s@.len() - j,
    {
        let n = count_blank(s, j);
        if n == 0 {
            return j;
        }
        j += n;
    }
    j
}

fn word_end(s: &[u8], i: usize) -> (r: usize)
    requires
        i < s@.len(),
        blank_len(s@, i as int) == 0,
        !brace(s@[i as int]),
    ensures
        r == plain_end(s@, i as int),
        i < r <= s@.len(),
{
    let n: usize = s.len();
    let mut j: usize = i + 1;
    while j < n && count_blank(s, j) == 0 && !is_brace(s[j])
        invariant
            i < j <= s@.len(),
            n == s@.len(),
            plain_end(s@, i as int) == plain_end(s@, j as int),
        decreases s@.len() - j,
    {
        j += 1;
    }
    j
}

// ------------------------------------------------------------- numbers

pub open spec fn digit(b: u8) -> bool {
    '0' as u8 <= b <= '9' as u8
}

/// Where the digits from `i` on end.
pub open spec fn digits_end(s: Seq<u8>, i: int) -> int
    decreases s.len() - i,
{
    if 0 <= i < s.len() && digit(s[i]) {
        digits_end(s, i + 1)
    } else {
        i
    }
}

/// Where a number starts behind its sign.
pub open spec fn behind_sign(s: Seq<u8>, i: int) -> int {
    if 0 <= i < s.len() && (s[i] == '+' as u8 || s[i] == '-' as u8) {
        i + 1
    } else {
        i
    }
}

/// Where the digits of a number with an optional point end; none without a
/// digit.
pub open spec fn mantissa_end(s: Seq<u8>, i: int) -> Option<int> {
    let whole = digits_end(s, i);
    if 0 <= whole < s.len() && s[whole] == '.' as u8 {
        let fraction = digits_end(s, whole + 1);
        if fraction - i > 1 {
            Some(fraction)
        } else {
            None
        }
    } else if whole > i {
        Some(whole)
    } else {
        None
    }
}

/// A letter in lower case.
pub open spec fn lower(b: u8) -> u8 {
    if 'A' as u8 <= b <= 'Z' as u8 {
        (b + 32) as u8
    } else {
        b
    }
}

/// The words for what is not a finite number, in any case.
pub open spec fn special_word(s: Seq<u8>) -> bool {
    let l = s.map_values(|b: u8| lower(b));
    l == bytes::text("inf"@) || l == bytes::text("infinity"@) || l == bytes::text("nan"@)
}

/// Whether a word spells a number: digits with an optional sign, point and
/// exponent, or a special word.
pub open spec fn number_word(s: Seq<u8>) -> bool {
    let start = behind_sign(s, 0);
    special_word(s.skip(start)) || match mantissa_end(s, start) {
        None => false,
        Some(end) => if end == s.len() {
            true
        } else if s[end] == 'e' as u8 || s[end] == 'E' as u8 {
            let power = behind_sign(s, end + 1);
            digits_end(s, power) == s.len() && power < s.len()
        } else {
            false
        },
    }
}

fn end_of_digits(s: &[u8], i: usize) -> (r: usize)
    requires
        i <= s@.len(),
    ensures
        r == digits_end(s@, i as int),
        i <= r <= s@.len(),
{
    let mut j: usize = i;
    while j < s.len() && ('0' as u8) <= s[j] && s[j] <= ('9' as u8)
        invariant
            i <= j <= s@.len(),
            digits_end(s@, i as int) == digits_end(s@, j as int),
        decreases s@.len() - j,
    {
        j += 1;
    }
    j
}

fn after_sign(s: &[u8], i: usize) -> (r: usize)
    requires
        i <= s@.len(),
    ensures
        r == behind_sign(s@, i as int),
        i <= r <= s@.len(),
{
    if i < s.len() && (s[i] == ('+' as u8) || s[i] == ('-' as u8)) {
        i + 1
    } else {
        i
    }
}

fn is_special(s: &[u8], from: usize) -> (r: bool)
    requires
        from <= s@.len(),
    ensures
        r == special_word(s@.skip(from as int)),
{
    let ghost rest = s@.skip(from as int);
    let ghost goal = rest.map_values(|b: u8| lower(b));
    let mut l: Vec<u8> = Vec::new();
    let mut i: usize = from;
    while i < s.len()
        invariant
            from <= i <= s@.len(),
            rest == s@.skip(from as int),
            goal == rest.map_values(|b: u8| lower(b)),
            l@ == goal.take(i - from),
        decreases s@.len() - i,
    {
        let b = s[i];
        l.push(
            if ('A' as u8) <= b && b <= ('Z' as u8) {
                b + 32
            } else {
                b
            },
        );
        i += 1;
        assert(l@ =~= goal.take(i - from));
    }
    assert(l@ =~= goal);
    bytes::is_text(&l, "inf") || bytes::is_text(&l, "infinity") || bytes::is_text(&l, "nan")
}

fn spells_number(s: &[u8]) -> (r: bool)
    ensures
        r == number_word(s@),
{
    let start = after_sign(s, 0);
    if is_special(s, start) {
        return true;
    }
    let whole = end_of_digits(s, start);
    let end: usize = if whole < s.len() && s[whole] == ('.' as u8) {
        let fraction = end_of_digits(s, whole + 1);
        if fraction - start <= 1 {
            return false;
        }
        fraction
    } else if whole > start {
        whole
    } else {
        return false;
    };
    if end == s.len() {
        return true;
    }
    if s[end] != ('e' as u8) && s[end] != ('E' as u8) {
        return false;
    }
    let power = after_sign(s, end + 1);
    end_of_digits(s, power) == s.len() && power < s.len()
}

/// The value of a hexadecimal digit.
pub open spec fn hex_digit(b: u8) -> Option<int> {
    if digit(b) {
        Some(b - '0' as u8)
    } else if 'a' as u8 <= lower(b) <= 'f' as u8 {
        Some(lower(b) - 'a' as u8 + 10)
    } else {
        None
    }
}

/// The value of the first `n` hexadecimal digits, with the sign; none where
/// one is not a digit or the value leaves 64 bits.
pub open spec fn hex_value(s: Seq<u8>, negative: bool, n: int) -> Option<int>
    decreases n,
{
    if n <= 0 {
        Some(0)
    } else {
        match (hex_value(s, negative, n - 1), hex_digit(s[n - 1])) {
            (Some(v), Some(d)) => {
                let next = if negative {
                    v * 16 - d
                } else {
                    v * 16 + d
                };
                if i64::MIN <= next <= i64::MAX {
                    Some(next)
                } else {
                    None
                }
            },
            _ => None,
        }
    }
}

/// A hexadecimal number behind its sign.
pub open spec fn signed_hex(s: Seq<u8>) -> Option<int> {
    let start = behind_sign(s, 0);
    let digits = s.skip(start);
    if digits.len() == 0 {
        None
    } else {
        hex_value(digits, start == 1 && s[0] == '-' as u8, digits.len() as int)
    }
}

/// Where the first `#` from `i` on stands.
pub open spec fn hash_at(s: Seq<u8>, i: int) -> Option<int>
    decreases s.len() - i,
{
    if i < 0 || i >= s.len() {
        None
    } else if s[i] == '#' as u8 {
        Some(i)
    } else {
        hash_at(s, i + 1)
    }
}

/// Whether the first `n` bytes say sixteen: perhaps a plus sign, zeros, and
/// `16`.
pub open spec fn says_sixteen(s: Seq<u8>) -> bool {
    let start: int = if s.len() > 0 && s[0] == '+' as u8 {
        1
    } else {
        0
    };
    &&& s.len() - start >= 2
    &&& s[s.len() - 2] == '1' as u8
    &&& s[s.len() - 1] == '6' as u8
    &&& forall|i: int| start <= i < s.len() - 2 ==> #[trigger] s[i] == '0' as u8
}

/// The value of a radix number (16#FF). PostScript allows them; they are rare
/// in PDF.
pub open spec fn radix_value(s: Seq<u8>) -> Option<int> {
    match hash_at(s, 0) {
        Some(at) => if says_sixteen(s.take(at)) {
            signed_hex(s.skip(at + 1))
        } else {
            None
        },
        None => None,
    }
}

fn find_hash(s: &[u8]) -> (r: Option<usize>)
    ensures
        match r {
            Some(i) => hash_at(s@, 0) == Some(i as int) && i < s@.len(),
            None => hash_at(s@, 0) is None,
        },
{
    let mut i: usize = 0;
    while i < s.len()
        invariant
            i <= s@.len(),
            hash_at(s@, 0) == hash_at(s@, i as int),
        decreases s@.len() - i,
    {
        if s[i] == ('#' as u8) {
            return Some(i);
        }
        i += 1;
    }
    None
}

fn sixteen(s: &Vec<u8>) -> (r: bool)
    ensures
        r == says_sixteen(s@),
{
    let n: usize = s.len();
    let start: usize = if n > 0 && s[0] == ('+' as u8) {
        1
    } else {
        0
    };
    if n - start < 2 || s[n - 2] != ('1' as u8) || s[n - 1] != ('6' as u8) {
        return false;
    }
    let mut i: usize = start;
    while i < n - 2
        invariant
            start <= i <= n - 2,
            n == s@.len(),
            n >= 2,
            start == if s@[0] == '+' as u8 {
                1int
            } else {
                0
            },
            forall|k: int| start <= k < i ==> #[trigger] s@[k] == '0' as u8,
        decreases n - i,
    {
        if s[i] != ('0' as u8) {
            assert(s@[i as int] != '0' as u8);
            return false;
        }
        i += 1;
    }
    true
}

fn read_hex(s: &Vec<u8>) -> (r: Option<i64>)
    ensures
        match r {
            Some(v) => signed_hex(s@) == Some(v as int),
            None => signed_hex(s@) is None,
        },
{
    let start = after_sign(s, 0);
    let negative = start == 1 && s[0] == ('-' as u8);
    let ghost digits = s@.skip(start as int);
    if start == s.len() {
        return None;
    }
    let mut v: i128 = 0;
    let mut i: usize = start;
    while i < s.len()
        invariant
            start <= i <= s@.len(),
            digits == s@.skip(start as int),
            signed_hex(s@) == hex_value(digits, negative, digits.len() as int),
            i64::MIN <= v <= i64::MAX,
            hex_value(digits, negative, i - start) == Some(v as int),
        decreases s@.len() - i,
    {
        let b = s[i];
        assert(digits[i - start] == b);
        let l: u8 = if ('A' as u8) <= b && b <= ('Z' as u8) {
            b + 32
        } else {
            b
        };
        let d: i128 = if ('0' as u8) <= b && b <= ('9' as u8) {
            (b - ('0' as u8)) as i128
        } else if ('a' as u8) <= l && l <= ('f' as u8) {
            (l - ('a' as u8)) as i128 + 10
        } else {
            proof {
                lemma_hex_none(digits, negative, i - start + 1, digits.len() as int);
            }
            return None;
        };
        let next: i128 = if negative {
            v * 16 - d
        } else {
            v * 16 + d
        };
        if next < i64::MIN as i128 || next > i64::MAX as i128 {
            proof {
                lemma_hex_none(digits, negative, i - start + 1, digits.len() as int);
            }
            return None;
        }
        v = next;
        i += 1;
    }
    Some(v as i64)
}

proof fn lemma_hex_none(s: Seq<u8>, negative: bool, n: int, m: int)
    requires
        0 <= n <= m,
        hex_value(s, negative, n) is None,
    ensures
        hex_value(s, negative, m) is None,
    decreases m - n,
{
    if n < m {
        lemma_hex_none(s, negative, n, m - 1);
    }
}

// ------------------------------------------------------------- programs

/// A part of a program.
#[derive(Debug, PartialEq, Eq)]
pub enum Token {
    /// A number, as it is spelled.
    Number(Vec<u8>),
    /// A radix number.
    Integer(i64),
    Op(Operator),
    Block(Vec<Token>),
}

/// What a part of a program is.
pub enum TokenView {
    Number(Seq<u8>),
    Integer(i64),
    Op(Operator),
    Block(Seq<TokenView>),
}

pub open spec fn token_view(t: Token) -> TokenView
    decreases t,
{
    match t {
        Token::Number(n) => TokenView::Number(n@),
        Token::Integer(i) => TokenView::Integer(i),
        Token::Op(op) => TokenView::Op(op),
        Token::Block(a) => TokenView::Block(
            Seq::new(
                a@.len(),
                |i: int|
                    if 0 <= i < a@.len() {
                        token_view(a@[i])
                    } else {
                        TokenView::Integer(0)
                    },
            ),
        ),
    }
}

impl View for Token {
    type V = TokenView;

    open spec fn view(&self) -> TokenView {
        token_view(*self)
    }
}

pub open spec fn tokens_view(tokens: Seq<Token>) -> Seq<TokenView> {
    tokens.map_values(|t: Token| t@)
}

proof fn lemma_block_view(tokens: Vec<Token>)
    ensures
        token_view(Token::Block(tokens)) == TokenView::Block(tokens_view(tokens@)),
{
    assert(token_view(Token::Block(tokens))->Block_0 =~= tokens_view(tokens@));
}

/// What a word other than a brace stands for.
#[verifier::opaque]
pub open spec fn word_token(word: Seq<u8>) -> Option<TokenView> {
    if number_word(word) {
        Some(TokenView::Number(word))
    } else if radix_value(word) is Some {
        Some(TokenView::Integer(radix_value(word)->0 as i64))
    } else {
        match operator_named(word) {
            Some(op) => Some(TokenView::Op(op)),
            None => None,
        }
    }
}

fn read_token(word: Vec<u8>) -> (r: Result<Token, PsError>)
    ensures
        match r {
            Ok(t) => word_token(word@) == Some(t@),
            Err(e) => word_token(word@) is None && e@ == PsErrorView::UnknownOperator(word@),
        },
{
    reveal(word_token);
    let len: usize = word.len();
    if spells_number(&word) {
        return Ok(Token::Number(word));
    }
    match find_hash(&word) {
        Some(at) => {
            let radix = bytes::copy_range(&word, 0, at);
            let rest = bytes::copy_range(&word, at + 1, len);
            assert(radix@ =~= word@.take(at as int));
            assert(rest@ =~= word@.skip(at + 1));
            if sixteen(&radix) {
                match read_hex(&rest) {
                    Some(v) => {
                        return Ok(Token::Integer(v));
                    },
                    None => {},
                }
            }
        },
        None => {},
    }
    match find_operator(&word) {
        Some(op) => Ok(Token::Op(op)),
        None => Err(PsError::UnknownOperator(word)),
    }
}

/// How deep braces may nest.
pub const MAX_NESTING: usize = 33;

/// The parts from `pos` on up to the brace that closes the block, behind
/// those already read, and where the text goes on.
pub open spec fn block_from(s: Seq<u8>, pos: int, depth: int, before: Seq<TokenView>) -> Result<
    (Seq<TokenView>, int),
    PsErrorView,
>
    decreases s.len() - pos,
{
    let i = skip_blank(s, pos);
    if i < pos || i < 0 || i >= s.len() {
        if depth == 0 {
            Ok((before, i))
        } else {
            Err(PsErrorView::UnbalancedBraces)
        }
    } else if s[i] == '{' as u8 {
        if depth >= MAX_NESTING {
            Err(PsErrorView::NestedTooDeeply)
        } else {
            match block_from(s, i + 1, depth + 1, Seq::empty()) {
                Err(e) => Err(e),
                Ok((inner, q)) => if q <= i || q > s.len() {
                    Err(PsErrorView::UnbalancedBraces)
                } else {
                    block_from(s, q, depth, before.push(TokenView::Block(inner)))
                },
            }
        }
    } else if s[i] == '}' as u8 {
        Ok((before, i + 1))
    } else {
        let end = plain_end(s, i);
        match word_token(s.subrange(i, end)) {
            None => Err(PsErrorView::UnknownOperator(s.subrange(i, end))),
            Some(t) => if end <= i || end > s.len() {
                Err(PsErrorView::UnbalancedBraces)
            } else {
                block_from(s, end, depth, before.push(t))
            },
        }
    }
}

/// A program's body: the outermost braces hold it. A brace that closes
/// nothing ends the text.
pub open spec fn program_of(s: Seq<u8>) -> Result<Seq<TokenView>, PsErrorView> {
    match block_from(s, 0, 0, Seq::empty()) {
        Err(e) => Err(e),
        Ok((body, _)) => if body.len() == 1 && body[0] is Block {
            Ok(body[0]->Block_0)
        } else {
            Err(PsErrorView::NotOneBlock)
        },
    }
}

fn parse_block(s: &[u8], from: usize, depth: usize) -> (r: Result<(Vec<Token>, usize), PsError>)
    requires
        from <= s@.len(),
        depth <= MAX_NESTING,
    ensures
        match r {
            Ok((tokens, pos)) => {
                &&& block_from(s@, from as int, depth as int, Seq::empty()) == Ok::<
                    (Seq<TokenView>, int),
                    PsErrorView,
                >((tokens_view(tokens@), pos as int))
                &&& from <= pos <= s@.len()
            },
            Err(e) => block_from(s@, from as int, depth as int, Seq::empty()) == Err::<
                (Seq<TokenView>, int),
                PsErrorView,
            >(e@),
        },
    decreases s@.len() - from,
{
    let ghost goal = block_from(s@, from as int, depth as int, Seq::empty());
    let mut out: Vec<Token> = Vec::new();
    let mut pos: usize = from;
    assert(tokens_view(out@) =~= Seq::empty());
    loop
        invariant
            from <= pos <= s@.len(),
            depth <= MAX_NESTING,
            goal == block_from(s@, from as int, depth as int, Seq::empty()),
            goal == block_from(s@, pos as int, depth as int, tokens_view(out@)),
        decreases s@.len() - pos,
    {
        let i = next_word(s, pos);
        if i >= s.len() {
            if depth == 0 {
                return Ok((out, i));
            }
            return Err(PsError::UnbalancedBraces);
        }
        let b = s[i];
        let ghost before = tokens_view(out@);
        if b == ('{' as u8) {
            if depth >= MAX_NESTING {
                return Err(PsError::NestedTooDeeply);
            }
            let (inner, next) = match parse_block(s, i + 1, depth + 1) {
                Ok(r) => r,
                Err(e) => {
                    return Err(e);
                },
            };
            proof {
                lemma_block_view(inner);
            }
            let t = Token::Block(inner);
            let ghost tv = t@;
            out.push(t);
            assert(tokens_view(out@) =~= before.push(tv));
            pos = next;
        } else if b == ('}' as u8) {
            return Ok((out, i + 1));
        } else {
            let end = word_end(s, i);
            let word = bytes::copy_range(s, i, end);
            let t = match read_token(word) {
                Ok(t) => t,
                Err(e) => {
                    return Err(e);
                },
            };
            let ghost tv = t@;
            out.push(t);
            assert(tokens_view(out@) =~= before.push(tv));
            pos = end;
        }
    }
}

/// A calculator program.
#[derive(Debug, PartialEq, Eq)]
pub struct Program {
    pub body: Vec<Token>,
}

impl Program {
    /// Parse the source text; the outermost braces are the program body.
    pub fn parse(source: &[u8]) -> (r: Result<Program, PsError>)
        ensures
            match r {
                Ok(p) => program_of(source@) == Ok::<Seq<TokenView>, PsErrorView>(
                    tokens_view(p.body@),
                ),
                Err(e) => program_of(source@) == Err::<Seq<TokenView>, PsErrorView>(e@),
            },
    {
        let (body, _) = match parse_block(source, 0, 0) {
            Ok(r) => r,
            Err(e) => {
                return Err(e);
            },
        };
        let ghost view = tokens_view(body@);
        if body.len() == 1 {
            let mut body = body;
            let only = body.pop().unwrap();
            assert(view[0] == only@);
            match only {
                Token::Block(inner) => {
                    proof {
                        lemma_block_view(inner);
                    }
                    return Ok(Program { body: inner });
                },
                _ => {},
            }
        }
        Err(PsError::NotOneBlock)
    }
}

impl Token {
    /// A copy of the part.
    pub fn copied(&self) -> (r: Token)
        ensures
            r@ == self@,
        decreases self,
    {
        match self {
            Token::Number(n) => Token::Number(bytes::copy(n)),
            Token::Integer(i) => Token::Integer(*i),
            Token::Op(op) => Token::Op(*op),
            Token::Block(a) => {
                let mut out: Vec<Token> = Vec::new();
                let mut i: usize = 0;
                while i < a.len()
                    invariant
                        i <= a@.len(),
                        *self == Token::Block(*a),
                        out@.len() == i,
                        forall|k: int| 0 <= k < i ==> (#[trigger] out@[k])@ == a@[k]@,
                    decreases a@.len() - i,
                {
                    assert(decreases_to!(self => self->Block_0@[i as int]));
                    out.push(a[i].copied());
                    i += 1;
                }
                proof {
                    lemma_block_view(*a);
                    lemma_block_view(out);
                    assert(tokens_view(out@) =~= tokens_view(a@));
                }
                Token::Block(out)
            },
        }
    }
}

fn copy_tokens(a: &Vec<Token>) -> (r: Vec<Token>)
    ensures
        tokens_view(r@) == tokens_view(a@),
{
    let mut out: Vec<Token> = Vec::new();
    let mut i: usize = 0;
    while i < a.len()
        invariant
            i <= a@.len(),
            out@.len() == i,
            forall|k: int| 0 <= k < i ==> (#[trigger] out@[k])@ == a@[k]@,
        decreases a@.len() - i,
    {
        out.push(a[i].copied());
        i += 1;
    }
    assert(tokens_view(out@) =~= tokens_view(a@));
    out
}

// ------------------------------------------------------------- values

/// A value on the stack: a number by its bit pattern, or a boolean.
#[derive(Debug, Clone, Copy, PartialEq, Eq, Structural)]
pub enum Cell {
    Num(u64),
    Flag(bool),
}

/// The whole part of a double towards zero, within 64 bits; nothing for what
/// is not a number.
pub open spec fn truncated(bits: u64) -> int {
    let negative = bits >= 0x8000_0000_0000_0000;
    let exponent = (bits / 0x10_0000_0000_0000) as int % 2048;
    let fraction = (bits % 0x10_0000_0000_0000) as int;
    let full = fraction + 0x10_0000_0000_0000;
    let magnitude = if exponent < 1023 {
        0
    } else if exponent >= 1086 {
        0x8000_0000_0000_0000
    } else if exponent >= 1075 {
        full * single::two_to((exponent - 1075) as nat)
    } else {
        full / single::two_to((1075 - exponent) as nat)
    };
    if exponent == 2047 && fraction > 0 {
        0
    } else if negative {
        -magnitude
    } else if magnitude > i64::MAX {
        i64::MAX as int
    } else {
        magnitude
    }
}

proof fn lemma_is_power(n: nat)
    ensures
        single::two_to(n) == power2::pow2(n),
    decreases n,
{
    if n > 0 {
        lemma_is_power((n - 1) as nat);
        power2::lemma_pow2_unfold(n);
    } else {
        power2::lemma2_to64();
    }
}

proof fn lemma_two_to(n: nat)
    requires
        n <= 63,
    ensures
        1 <= single::two_to(n) <= 0x8000_0000_0000_0000,
        n <= 10 ==> single::two_to(n) <= 1024,
{
    lemma_is_power(n);
    power2::lemma_pow2_pos(n);
    power2::lemma2_to64();
    power2::lemma2_to64_rest();
    if n < 63 {
        power2::lemma_pow2_strictly_increases(n, 63);
    }
    if n < 10 {
        power2::lemma_pow2_strictly_increases(n, 10);
    }
}

fn two_to(n: u64) -> (r: i128)
    requires
        n <= 63,
    ensures
        r == single::two_to(n as nat),
        1 <= r <= 0x8000_0000_0000_0000,
{
    let mut r: i128 = 1;
    let mut i: u64 = 0;
    while i < n
        invariant
            i <= n <= 63,
            r == single::two_to(i as nat),
            1 <= r <= 0x8000_0000_0000_0000,
        decreases n - i,
    {
        proof {
            lemma_two_to((i + 1) as nat);
        }
        r = 2 * r;
        i += 1;
    }
    r
}

/// The whole part of a double.
pub fn truncate(bits: u64) -> (r: i64)
    ensures
        r == truncated(bits),
{
    let negative = bits >= 0x8000_0000_0000_0000;
    let exponent: u64 = bits / 0x10_0000_0000_0000 % 2048;
    let fraction: u64 = bits % 0x10_0000_0000_0000;
    if exponent == 2047 && fraction > 0 {
        return 0;
    }
    let full: i128 = fraction as i128 + 0x10_0000_0000_0000;
    let magnitude: i128 = if exponent < 1023 {
        0
    } else if exponent >= 1086 {
        0x8000_0000_0000_0000
    } else if exponent >= 1075 {
        let p = two_to(exponent - 1075);
        proof {
            lemma_two_to((exponent - 1075) as nat);
        }
        assert(0 <= full * p <= 0x20_0000_0000_0000 * 1024) by (nonlinear_arith)
            requires
                0 <= full <= 0x20_0000_0000_0000,
                1 <= p <= 1024,
        ;
        assert(full * p < 0x8000_0000_0000_0000) by (nonlinear_arith)
            requires
                0 <= full < 0x20_0000_0000_0000,
                1 <= p <= 1024,
        ;
        full * p
    } else {
        let p = two_to(1075 - exponent);
        assert(0 <= full / p <= full) by (nonlinear_arith)
            requires
                full >= 0,
                p >= 1,
        ;
        full / p
    };
    if negative {
        (-magnitude) as i64
    } else if magnitude > i64::MAX as i128 {
        i64::MAX
    } else {
        magnitude as i64
    }
}

// ------------------------------------------------------------- steps

/// How many steps a program may take.
pub const MAX_STEPS: usize = 100_000;

/// How many values the stack may hold when an operator runs.
pub const MAX_STACK: usize = 1000;

/// What the caller does next.
#[derive(Debug, PartialEq, Eq)]
pub enum Action {
    /// Take the next step.
    Next,
    /// Push the number that this word spells.
    Literal(Vec<u8>),
    /// Push this integer as a number.
    Integer(i64),
    /// Push what the operator makes of a number.
    Unary(Operator, u64),
    /// Push what the operator makes of two numbers.
    Binary(Operator, u64, u64),
    /// Push how two values compare, a boolean as 0 or 1.
    Compare(Operator, Cell, Cell),
    /// The program has ended.
    Done,
    Failed(PsError),
}

/// What the caller is asked to do.
pub enum ActionView {
    Next,
    Literal(Seq<u8>),
    Integer(i64),
    Unary(Operator, u64),
    Binary(Operator, u64, u64),
    Compare(Operator, Cell, Cell),
    Done,
    Failed(PsErrorView),
}

impl View for Action {
    type V = ActionView;

    open spec fn view(&self) -> ActionView {
        match *self {
            Action::Next => ActionView::Next,
            Action::Literal(w) => ActionView::Literal(w@),
            Action::Integer(i) => ActionView::Integer(i),
            Action::Unary(op, a) => ActionView::Unary(op, a),
            Action::Binary(op, a, b) => ActionView::Binary(op, a, b),
            Action::Compare(op, a, b) => ActionView::Compare(op, a, b),
            Action::Done => ActionView::Done,
            Action::Failed(e) => ActionView::Failed(e@),
        }
    }
}

/// What an operator leaves of the stack, and what is to do.
pub type Effect = (Seq<Cell>, ActionView);

pub open spec fn failed(stack: Seq<Cell>, e: PsErrorView) -> Effect {
    (stack, ActionView::Failed(e))
}

/// The stack without its top, or why there is none.
pub open spec fn below(stack: Seq<Cell>) -> Seq<Cell> {
    if stack.len() == 0 {
        stack
    } else {
        stack.drop_last()
    }
}

/// The integer on top of the stack, not below zero.
pub open spec fn count_on_top(stack: Seq<Cell>) -> Result<int, PsErrorView> {
    if stack.len() == 0 {
        Err(PsErrorView::StackUnderflow)
    } else {
        match stack.last() {
            Cell::Num(n) => Ok(
                if truncated(n) < 0 {
                    0
                } else {
                    truncated(n)
                },
            ),
            Cell::Flag(_) => Err(PsErrorView::NumberExpected),
        }
    }
}

/// The last `n` values moved up by `j`, those that fall off the top coming
/// back below.
pub open spec fn rolled(stack: Seq<Cell>, n: int, j: int) -> Seq<Cell> {
    let start = stack.len() - n;
    let k = j % n;
    stack.take(start) + stack.skip(stack.len() - k) + stack.subrange(start, stack.len() - k)
}

/// What an operator that moves values does.
pub open spec fn stack_effect(op: Operator, stack: Seq<Cell>) -> Effect {
    match op {
        Operator::Discard => if stack.len() < 1 {
            failed(stack, PsErrorView::StackUnderflow)
        } else {
            (stack.drop_last(), ActionView::Next)
        },
        Operator::Dup => if stack.len() < 1 {
            failed(stack, PsErrorView::StackUnderflow)
        } else {
            (stack.push(stack.last()), ActionView::Next)
        },
        Operator::Exch => if stack.len() < 2 {
            failed(Seq::empty(), PsErrorView::StackUnderflow)
        } else {
            (
                stack.take(stack.len() - 2).push(stack[stack.len() - 1]).push(
                    stack[stack.len() - 2],
                ),
                ActionView::Next,
            )
        },
        Operator::Duplicate => match count_on_top(stack) {
            Err(e) => failed(below(stack), e),
            Ok(n) => {
                let rest = stack.drop_last();
                if n > rest.len() {
                    failed(rest, PsErrorView::CopyUnderflow)
                } else {
                    (rest + rest.skip(rest.len() - n), ActionView::Next)
                }
            },
        },
        Operator::Nth => match count_on_top(stack) {
            Err(e) => failed(below(stack), e),
            Ok(n) => {
                let rest = stack.drop_last();
                if n >= rest.len() {
                    failed(rest, PsErrorView::IndexUnderflow)
                } else {
                    (rest.push(rest[rest.len() - 1 - n]), ActionView::Next)
                }
            },
        },
        Operator::Roll => if stack.len() == 0 {
            failed(stack, PsErrorView::StackUnderflow)
        } else {
            match stack.last() {
                Cell::Flag(_) => failed(stack.drop_last(), PsErrorView::NumberExpected),
                Cell::Num(j) => {
                    let second = stack.drop_last();
                    match count_on_top(second) {
                        Err(e) => failed(below(second), e),
                        Ok(n) => {
                            let rest = second.drop_last();
                            if n > rest.len() {
                                failed(rest, PsErrorView::RollUnderflow)
                            } else if n == 0 {
                                (rest, ActionView::Next)
                            } else {
                                (rolled(rest, n, truncated(j)), ActionView::Next)
                            }
                        },
                    }
                },
            }
        },
        other => failed(stack, PsErrorView::Unhandled(other)),
    }
}

/// A boolean as the integer it counts as, a number by its whole part.
pub open spec fn whole(c: Cell) -> int {
    match c {
        Cell::Num(n) => truncated(n),
        Cell::Flag(b) => if b {
            1
        } else {
            0
        },
    }
}

/// `and`, `or` and `xor`: bitwise on integers, logical on booleans.
pub open spec fn logical(op: Operator, a: Cell, b: Cell) -> Option<bool> {
    match (a, b) {
        (Cell::Flag(x), Cell::Flag(y)) => Some(
            match op {
                Operator::Both => x && y,
                Operator::Either => x || y,
                _ => x != y,
            },
        ),
        _ => None,
    }
}

/// The bits of two integers put together.
pub open spec fn bitwise(op: Operator, x: i64, y: i64) -> i64 {
    match op {
        Operator::Both => x & y,
        Operator::Either => x | y,
        _ => x ^ y,
    }
}

/// What an operator on booleans, or one that moves values, does.
pub open spec fn logical_effect(op: Operator, stack: Seq<Cell>) -> Effect {
    match op {
        Operator::TrueFlag => (stack.push(Cell::Flag(true)), ActionView::Next),
        Operator::FalseFlag => (stack.push(Cell::Flag(false)), ActionView::Next),
        Operator::Negate => if stack.len() == 0 {
            failed(stack, PsErrorView::StackUnderflow)
        } else {
            match stack.last() {
                Cell::Flag(b) => (stack.drop_last().push(Cell::Flag(!b)), ActionView::Next),
                Cell::Num(n) => (
                    stack.drop_last(),
                    ActionView::Integer((-1 - truncated(n)) as i64),
                ),
            }
        },
        Operator::Both | Operator::Either | Operator::Differ => if stack.len() < 2 {
            failed(Seq::empty(), PsErrorView::StackUnderflow)
        } else {
            let rest = stack.take(stack.len() - 2);
            let a = stack[stack.len() - 2];
            let b = stack[stack.len() - 1];
            match logical(op, a, b) {
                Some(f) => (rest.push(Cell::Flag(f)), ActionView::Next),
                None => (
                    rest,
                    ActionView::Integer(bitwise(op, whole(a) as i64, whole(b) as i64)),
                ),
            }
        },
        _ => stack_effect(op, stack),
    }
}

/// How two values compare where that is known without arithmetic.
pub open spec fn known_comparison(op: Operator, a: Cell, b: Cell) -> Option<bool> {
    match (a, b) {
        (Cell::Num(_), Cell::Num(_)) => None,
        (Cell::Flag(x), Cell::Flag(y)) => match op {
            Operator::Equal => Some(x == y),
            Operator::Unequal => Some(x != y),
            _ => None,
        },
        _ => match op {
            Operator::Equal => Some(false),
            Operator::Unequal => Some(true),
            _ => None,
        },
    }
}

/// What an operator does.
pub open spec fn operator_effect(op: Operator, stack: Seq<Cell>) -> Effect {
    let n = stack.len() as int;
    if n > MAX_STACK {
        failed(stack, PsErrorView::StackOverflow)
    } else if is_unary(op) {
        if n < 1 {
            failed(stack, PsErrorView::StackUnderflow)
        } else {
            match stack[n - 1] {
                Cell::Num(a) => (stack.drop_last(), ActionView::Unary(op, a)),
                Cell::Flag(_) => failed(stack.drop_last(), PsErrorView::NumberExpected),
            }
        }
    } else if is_binary(op) {
        if n < 1 {
            failed(stack, PsErrorView::StackUnderflow)
        } else {
            match stack[n - 1] {
                Cell::Flag(_) => failed(stack.drop_last(), PsErrorView::NumberExpected),
                Cell::Num(b) => if n < 2 {
                    failed(stack.drop_last(), PsErrorView::StackUnderflow)
                } else {
                    match stack[n - 2] {
                        Cell::Num(a) => (stack.take(n - 2), ActionView::Binary(op, a, b)),
                        Cell::Flag(_) => failed(stack.take(n - 2), PsErrorView::NumberExpected),
                    }
                },
            }
        }
    } else if is_comparison(op) {
        if n < 2 {
            failed(Seq::empty(), PsErrorView::StackUnderflow)
        } else {
            let rest = stack.take(n - 2);
            match known_comparison(op, stack[n - 2], stack[n - 1]) {
                Some(f) => (rest.push(Cell::Flag(f)), ActionView::Next),
                None => (rest, ActionView::Compare(op, stack[n - 2], stack[n - 1])),
            }
        }
    } else {
        logical_effect(op, stack)
    }
}

/// A running program: the blocks it is in, each with its place, the steps it
/// took, and its stack.
pub struct Machine {
    frames: Vec<(Vec<Token>, usize)>,
    steps: usize,
    stack: Vec<Cell>,
}

/// What a running program holds.
pub struct MachineView {
    pub frames: Seq<(Seq<TokenView>, int)>,
    pub steps: int,
    pub stack: Seq<Cell>,
}

pub open spec fn frames_view(frames: Seq<(Vec<Token>, usize)>) -> Seq<(Seq<TokenView>, int)> {
    frames.map_values(|f: (Vec<Token>, usize)| (tokens_view(f.0@), f.1 as int))
}

impl View for Machine {
    type V = MachineView;

    closed spec fn view(&self) -> MachineView {
        MachineView {
            frames: frames_view(self.frames@),
            steps: self.steps as int,
            stack: self.stack@,
        }
    }
}

/// The innermost block with its place moved on.
pub open spec fn moved(frames: Seq<(Seq<TokenView>, int)>, by: int) -> Seq<(Seq<TokenView>, int)> {
    frames.drop_last().push((frames.last().0, frames.last().1 + by))
}

/// Which operator stands at a place.
pub open spec fn is_op(tokens: Seq<TokenView>, i: int, op: Operator) -> bool {
    0 <= i < tokens.len() && tokens[i] == TokenView::Op(op)
}

/// What a block at a place does: it is the operand of `if` or `ifelse`.
pub open spec fn conditional(m: MachineView, tokens: Seq<TokenView>, i: int) -> (
    MachineView,
    ActionView,
) {
    let one = is_op(tokens, i + 1, Operator::If);
    let two = i + 1 < tokens.len() && tokens[i + 1] is Block && is_op(
        tokens,
        i + 2,
        Operator::IfElse,
    );
    if !one && !two {
        (m, ActionView::Failed(PsErrorView::StrayBlock))
    } else if m.stack.len() == 0 {
        (m, ActionView::Failed(PsErrorView::StackUnderflow))
    } else {
        let rest = m.stack.drop_last();
        match m.stack.last() {
            Cell::Num(_) => (
                MachineView { stack: rest, ..m },
                ActionView::Failed(PsErrorView::BooleanExpected),
            ),
            Cell::Flag(taken) => {
                let outer = moved(
                    m.frames,
                    if one {
                        2
                    } else {
                        3
                    },
                );
                let frames = if taken {
                    outer.push((tokens[i]->Block_0, 0))
                } else if one {
                    outer
                } else {
                    outer.push((tokens[i + 1]->Block_0, 0))
                };
                (MachineView { frames, stack: rest, ..m }, ActionView::Next)
            },
        }
    }
}

/// What one step does.
pub open spec fn stepped(m: MachineView) -> (MachineView, ActionView) {
    if m.frames.len() == 0 {
        (m, ActionView::Done)
    } else {
        let (tokens, i) = m.frames.last();
        if i < 0 || i >= tokens.len() {
            (MachineView { frames: m.frames.drop_last(), ..m }, ActionView::Next)
        } else if m.steps >= MAX_STEPS {
            (m, ActionView::Failed(PsErrorView::TooManySteps))
        } else {
            let counted = MachineView { steps: m.steps + 1, ..m };
            let onward = MachineView { frames: moved(m.frames, 1), ..counted };
            match tokens[i] {
                TokenView::Number(w) => (onward, ActionView::Literal(w)),
                TokenView::Integer(v) => (onward, ActionView::Integer(v)),
                TokenView::Op(op) => {
                    let (stack, action) = operator_effect(op, m.stack);
                    (MachineView { stack, ..onward }, action)
                },
                TokenView::Block(_) => conditional(counted, tokens, i),
            }
        }
    }
}

fn underflow() -> (r: Action)
    ensures
        r@ == ActionView::Failed(PsErrorView::StackUnderflow),
{
    Action::Failed(PsError::StackUnderflow)
}

fn pop_count(stack: &mut Vec<Cell>) -> (r: Result<i64, PsError>)
    ensures
        final(stack)@ == below(old(stack)@),
        match r {
            Ok(n) => count_on_top(old(stack)@) == Ok::<int, PsErrorView>(n as int) && n >= 0
                && old(stack)@.len() > 0,
            Err(e) => count_on_top(old(stack)@) == Err::<int, PsErrorView>(e@),
        },
{
    if stack.len() == 0 {
        return Err(PsError::StackUnderflow);
    }
    match stack.pop().unwrap() {
        Cell::Num(n) => {
            let t = truncate(n);
            Ok(
                if t < 0 {
                    0
                } else {
                    t
                },
            )
        },
        Cell::Flag(_) => Err(PsError::NumberExpected),
    }
}

fn roll(stack: &mut Vec<Cell>, n: usize, j: i64)
    requires
        0 < n <= old(stack)@.len(),
        n <= i64::MAX,
    ensures
        final(stack)@ == rolled(old(stack)@, n as int, j as int),
{
    let ghost before = stack@;
    let len: usize = stack.len();
    let wide: i128 = n as i128;
    let r: i128 = j as i128 % wide;
    let k: usize = (if r < 0 {
        r + wide
    } else {
        r
    }) as usize;
    assert(k == j as int % n as int) by {
        lemma_mod(j as int, n as int, r as int);
    }
    let start: usize = len - n;
    let ghost goal = rolled(before, n as int, j as int);
    let mut out: Vec<Cell> = Vec::new();
    let mut i: usize = 0;
    while i < len
        invariant
            i <= len,
            len == before.len(),
            start == len - n,
            0 <= k < n <= len,
            k == j as int % n as int,
            stack@ == before,
            goal == rolled(before, n as int, j as int),
            out@ == goal.take(i as int),
        decreases len - i,
    {
        let from: usize = if i < start {
            i
        } else if i - start < k {
            len - k + (i - start)
        } else {
            i - k
        };
        out.push(stack[from]);
        assert(goal[i as int] == before[from as int]);
        i += 1;
        assert(out@ =~= goal.take(i as int));
    }
    assert(out@ =~= goal);
    *stack = out;
}

proof fn lemma_mod(j: int, n: int, r: int)
    requires
        n > 0,
        r == if j >= 0 {
            j % n
        } else {
            -((-j) % n)
        },
    ensures
        (if r < 0 {
            r + n
        } else {
            r
        }) == j % n,
        0 <= j % n < n,
{
    if j < 0 {
        let q = (-j) / n;
        let m = (-j) % n;
        vstd::arithmetic::div_mod::lemma_fundamental_div_mod(-j, n);
        vstd::arithmetic::div_mod::lemma_mod_bound(-j, n);
        assert(j == n * (-q) - m) by (nonlinear_arith)
            requires
                -j == n * q + m,
        ;
        if m == 0 {
            vstd::arithmetic::div_mod::lemma_fundamental_div_mod_converse(j, n, -q, 0);
        } else {
            assert(j == (-q - 1) * n + (n - m)) by (nonlinear_arith)
                requires
                    j == n * (-q) - m,
            ;
            vstd::arithmetic::div_mod::lemma_fundamental_div_mod_converse(j, n, -q - 1, n - m);
        }
    } else {
        vstd::arithmetic::div_mod::lemma_mod_bound(j, n);
    }
}

fn stack_op(op: Operator, stack: &mut Vec<Cell>) -> (r: Action)
    ensures
        (final(stack)@, r@) == stack_effect(op, old(stack)@),
{
    let ghost before = stack@;
    match op {
        Operator::Discard => {
            if stack.len() < 1 {
                return underflow();
            }
            stack.pop();
            Action::Next
        },
        Operator::Dup => {
            if stack.len() < 1 {
                return underflow();
            }
            let v = stack[stack.len() - 1];
            stack.push(v);
            Action::Next
        },
        Operator::Exch => {
            if stack.len() < 2 {
                *stack = Vec::new();
                assert(stack@ =~= Seq::empty());
                return underflow();
            }
            let b = stack.pop().unwrap();
            let a = stack.pop().unwrap();
            stack.push(b);
            stack.push(a);
            assert(stack@ =~= before.take(before.len() - 2).push(before[before.len() - 1]).push(
                before[before.len() - 2],
            ));
            Action::Next
        },
        Operator::Duplicate => {
            let n = match pop_count(stack) {
                Ok(n) => n,
                Err(e) => {
                    return Action::Failed(e);
                },
            };
            if n as u128 > stack.len() as u128 {
                return Action::Failed(PsError::CopyUnderflow);
            }
            let ghost rest = stack@;
            let len: usize = stack.len();
            let mut i: usize = len - n as usize;
            assert(rest + rest.skip(rest.len() - n).take(0) =~= rest);
            while i < len
                invariant
                    len - n <= i <= len,
                    len == rest.len(),
                    0 <= n <= len,
                    stack@ == rest + rest.skip(len - n).take(i - (len - n)),
                decreases len - i,
            {
                let v = stack[i];
                stack.push(v);
                i += 1;
                assert(stack@ =~= rest + rest.skip(len - n).take(i - (len - n)));
            }
            assert(stack@ =~= rest + rest.skip(rest.len() - n));
            Action::Next
        },
        Operator::Nth => {
            let n = match pop_count(stack) {
                Ok(n) => n,
                Err(e) => {
                    return Action::Failed(e);
                },
            };
            if n as u128 >= stack.len() as u128 {
                return Action::Failed(PsError::IndexUnderflow);
            }
            let v = stack[stack.len() - 1 - n as usize];
            stack.push(v);
            Action::Next
        },
        Operator::Roll => {
            if stack.len() == 0 {
                return underflow();
            }
            let j = match stack.pop().unwrap() {
                Cell::Num(n) => truncate(n),
                Cell::Flag(_) => {
                    return Action::Failed(PsError::NumberExpected);
                },
            };
            let n = match pop_count(stack) {
                Ok(n) => n,
                Err(e) => {
                    return Action::Failed(e);
                },
            };
            if n as u128 > stack.len() as u128 {
                return Action::Failed(PsError::RollUnderflow);
            }
            if n > 0 {
                roll(stack, n as usize, j);
            }
            Action::Next
        },
        other => Action::Failed(PsError::Unhandled(other)),
    }
}

fn whole_of(c: Cell) -> (r: i64)
    ensures
        r == whole(c),
{
    match c {
        Cell::Num(n) => truncate(n),
        Cell::Flag(b) => if b {
            1
        } else {
            0
        },
    }
}

fn logical_op(op: Operator, stack: &mut Vec<Cell>) -> (r: Action)
    ensures
        (final(stack)@, r@) == logical_effect(op, old(stack)@),
{
    let ghost before = stack@;
    match op {
        Operator::TrueFlag => {
            stack.push(Cell::Flag(true));
            Action::Next
        },
        Operator::FalseFlag => {
            stack.push(Cell::Flag(false));
            Action::Next
        },
        Operator::Negate => {
            if stack.len() == 0 {
                return underflow();
            }
            match stack.pop().unwrap() {
                Cell::Flag(b) => {
                    stack.push(Cell::Flag(!b));
                    Action::Next
                },
                Cell::Num(n) => Action::Integer(-1 - truncate(n)),
            }
        },
        Operator::Both | Operator::Either | Operator::Differ => {
            if stack.len() < 2 {
                *stack = Vec::new();
                assert(stack@ =~= Seq::empty());
                return underflow();
            }
            let b = stack.pop().unwrap();
            let a = stack.pop().unwrap();
            assert(stack@ =~= before.take(before.len() - 2));
            match (a, b) {
                (Cell::Flag(x), Cell::Flag(y)) => {
                    let f = match op {
                        Operator::Both => x && y,
                        Operator::Either => x || y,
                        _ => x != y,
                    };
                    stack.push(Cell::Flag(f));
                    Action::Next
                },
                _ => {
                    let x = whole_of(a);
                    let y = whole_of(b);
                    Action::Integer(
                        match op {
                            Operator::Both => x & y,
                            Operator::Either => x | y,
                            _ => x ^ y,
                        },
                    )
                },
            }
        },
        _ => stack_op(op, stack),
    }
}

fn compare_known(op: Operator, a: Cell, b: Cell) -> (r: Option<bool>)
    ensures
        r == known_comparison(op, a, b),
{
    match (a, b) {
        (Cell::Num(_), Cell::Num(_)) => None,
        (Cell::Flag(x), Cell::Flag(y)) => match op {
            Operator::Equal => Some(x == y),
            Operator::Unequal => Some(x != y),
            _ => None,
        },
        _ => match op {
            Operator::Equal => Some(false),
            Operator::Unequal => Some(true),
            _ => None,
        },
    }
}

fn apply(op: Operator, stack: &mut Vec<Cell>) -> (r: Action)
    ensures
        (final(stack)@, r@) == operator_effect(op, old(stack)@),
{
    let ghost before = stack@;
    if stack.len() > MAX_STACK {
        return Action::Failed(PsError::StackOverflow);
    }
    if unary(op) {
        if stack.len() == 0 {
            return underflow();
        }
        return match stack.pop().unwrap() {
            Cell::Num(a) => Action::Unary(op, a),
            Cell::Flag(_) => Action::Failed(PsError::NumberExpected),
        };
    }
    if binary(op) {
        if stack.len() == 0 {
            return underflow();
        }
        let b = match stack.pop().unwrap() {
            Cell::Num(b) => b,
            Cell::Flag(_) => {
                return Action::Failed(PsError::NumberExpected);
            },
        };
        if stack.len() == 0 {
            return underflow();
        }
        let a = stack.pop().unwrap();
        assert(stack@ =~= before.take(before.len() - 2));
        return match a {
            Cell::Num(a) => Action::Binary(op, a, b),
            Cell::Flag(_) => Action::Failed(PsError::NumberExpected),
        };
    }
    if comparison(op) {
        if stack.len() < 2 {
            *stack = Vec::new();
            assert(stack@ =~= Seq::empty());
            return underflow();
        }
        let b = stack.pop().unwrap();
        let a = stack.pop().unwrap();
        assert(stack@ =~= before.take(before.len() - 2));
        return match compare_known(op, a, b) {
            Some(f) => {
                stack.push(Cell::Flag(f));
                Action::Next
            },
            None => Action::Compare(op, a, b),
        };
    }
    logical_op(op, stack)
}

impl Machine {
    /// A program about to run on these numbers.
    pub fn new(program: &Program, inputs: &[u64]) -> (r: Machine)
        ensures
            r@ == (MachineView {
                frames: seq![(tokens_view(program.body@), 0)],
                steps: 0,
                stack: inputs@.map_values(|n: u64| Cell::Num(n)),
            }),
    {
        let mut stack: Vec<Cell> = Vec::new();
        let ghost goal = inputs@.map_values(|n: u64| Cell::Num(n));
        let mut i: usize = 0;
        while i < inputs.len()
            invariant
                i <= inputs@.len(),
                goal == inputs@.map_values(|n: u64| Cell::Num(n)),
                stack@ == goal.take(i as int),
            decreases inputs@.len() - i,
        {
            stack.push(Cell::Num(inputs[i]));
            i += 1;
            assert(stack@ =~= goal.take(i as int));
        }
        assert(stack@ =~= goal);
        let mut frames: Vec<(Vec<Token>, usize)> = Vec::new();
        frames.push((copy_tokens(&program.body), 0));
        let r = Machine { frames, steps: 0, stack };
        assert(r@.frames =~= seq![(tokens_view(program.body@), 0)]);
        r
    }

    /// Takes one step and says what is to do.
    pub fn step(&mut self) -> (r: Action)
        ensures
            (final(self)@, r@) == stepped(old(self)@),
    {
        let ghost before = self@;
        if self.frames.len() == 0 {
            return Action::Done;
        }
        let (tokens, i) = self.frames.pop().unwrap();
        let ghost outer = self@.frames;
        let ghost view = tokens_view(tokens@);
        assert(before.frames.last() == (view, i as int));
        assert(outer =~= before.frames.drop_last());
        if i >= tokens.len() {
            return Action::Next;
        }
        if self.steps >= MAX_STEPS {
            self.put_back(tokens, i);
            assert(self@.frames =~= before.frames);
            return Action::Failed(PsError::TooManySteps);
        }
        self.steps = self.steps + 1;
        assert(view[i as int] == tokens@[i as int]@);
        match &tokens[i] {
            Token::Number(w) => {
                let word = bytes::copy(w);
                self.put_back(tokens, i + 1);
                assert(self@.frames =~= moved(before.frames, 1));
                Action::Literal(word)
            },
            Token::Integer(v) => {
                let v = *v;
                self.put_back(tokens, i + 1);
                assert(self@.frames =~= moved(before.frames, 1));
                Action::Integer(v)
            },
            Token::Op(op) => {
                let op = *op;
                let action = apply(op, &mut self.stack);
                self.put_back(tokens, i + 1);
                assert(self@.frames =~= moved(before.frames, 1));
                action
            },
            Token::Block(_) => {
                assert(outer.push((view, i as int)) =~= before.frames);
                self.branch(tokens, i)
            },
        }
    }

    fn put_back(&mut self, tokens: Vec<Token>, i: usize)
        ensures
            final(self)@ == (MachineView {
                frames: old(self)@.frames.push((tokens_view(tokens@), i as int)),
                ..old(self)@
            }),
    {
        let ghost before = self@.frames;
        self.frames.push((tokens, i));
        assert(self@.frames =~= before.push((tokens_view(tokens@), i as int)));
    }

    fn branch(&mut self, tokens: Vec<Token>, i: usize) -> (r: Action)
        requires
            i < tokens@.len(),
            tokens@[i as int] is Block,
        ensures
            ({
                let whole = MachineView {
                    frames: old(self)@.frames.push((tokens_view(tokens@), i as int)),
                    ..old(self)@
                };
                (final(self)@, r@) == conditional(whole, tokens_view(tokens@), i as int)
            }),
    {
        let ghost before = self@;
        let ghost view = tokens_view(tokens@);
        let ghost whole = MachineView { frames: before.frames.push((view, i as int)), ..before };
        assert forall|k: int| 0 <= k < view.len() implies #[trigger] view[k] == tokens@[k]@ by {}
        let len: usize = tokens.len();
        let one = has_op(&tokens, i + 1, Operator::If);
        let two = i + 1 < len && is_block(&tokens[i + 1]) && has_op(
            &tokens,
            i + 2,
            Operator::IfElse,
        );
        if !one && !two {
            self.put_back(tokens, i);
            return Action::Failed(PsError::StrayBlock);
        }
        if self.stack.len() == 0 {
            self.put_back(tokens, i);
            return underflow();
        }
        let taken = match self.stack.pop().unwrap() {
            Cell::Num(_) => {
                self.put_back(tokens, i);
                return Action::Failed(PsError::BooleanExpected);
            },
            Cell::Flag(b) => b,
        };
        let body: Option<Vec<Token>> = if taken {
            Some(block_tokens(&tokens[i]))
        } else if one {
            None
        } else {
            Some(block_tokens(&tokens[i + 1]))
        };
        let next: usize = if one {
            i + 2
        } else {
            i + 3
        };
        self.put_back(tokens, next);
        assert(self@.frames =~= moved(whole.frames, next - i));
        match body {
            Some(b) => {
                self.put_back(b, 0);
            },
            None => {},
        }
        Action::Next
    }

    /// Pushes a value.
    pub fn push(&mut self, value: Cell)
        ensures
            final(self)@ == (MachineView { stack: old(self)@.stack.push(value), ..old(self)@ }),
    {
        self.stack.push(value);
    }

    /// The numbers on the stack; refused where one is a boolean.
    pub fn results(&self) -> (r: Result<Vec<u64>, PsError>)
        ensures
            match r {
                Ok(numbers) => self@.stack == numbers@.map_values(|n: u64| Cell::Num(n)),
                Err(e) => e@ == PsErrorView::BooleanLeft && exists|i: int|
                    0 <= i < self@.stack.len() && #[trigger] self@.stack[i] is Flag,
            },
    {
        let mut out: Vec<u64> = Vec::new();
        let mut i: usize = 0;
        while i < self.stack.len()
            invariant
                i <= self.stack@.len(),
                out@.len() == i,
                forall|k: int| 0 <= k < i ==> self.stack@[k] == Cell::Num(#[trigger] out@[k]),
            decreases self.stack@.len() - i,
        {
            match self.stack[i] {
                Cell::Num(n) => out.push(n),
                Cell::Flag(_) => {
                    assert(self@.stack[i as int] is Flag);
                    return Err(PsError::BooleanLeft);
                },
            }
            i += 1;
        }
        assert(self@.stack =~= out@.map_values(|n: u64| Cell::Num(n)));
        Ok(out)
    }
}

fn has_op(tokens: &Vec<Token>, i: usize, op: Operator) -> (r: bool)
    ensures
        r == is_op(tokens_view(tokens@), i as int, op),
{
    if i >= tokens.len() {
        return false;
    }
    assert(tokens_view(tokens@)[i as int] == tokens@[i as int]@);
    match &tokens[i] {
        Token::Op(o) => *o == op,
        _ => false,
    }
}

fn is_block(t: &Token) -> (r: bool)
    ensures
        r == (t@ is Block),
{
    match t {
        Token::Block(_) => true,
        _ => false,
    }
}

fn block_tokens(t: &Token) -> (r: Vec<Token>)
    requires
        t@ is Block,
    ensures
        tokens_view(r@) == t@->Block_0,
{
    match t {
        Token::Block(a) => {
            proof {
                lemma_block_view(*a);
            }
            copy_tokens(a)
        },
        _ => Vec::new(),
    }
}

// ------------------------------------------------------------- laws

/// Rolling back restores the stack.
pub proof fn rolling_back_restores(stack: Seq<Cell>, n: int, j: int)
    requires
        0 < n <= stack.len(),
    ensures
        rolled(rolled(stack, n, j), n, -j) == stack,
{
    let k = j % n;
    let q = j / n;
    vstd::arithmetic::div_mod::lemma_fundamental_div_mod(j, n);
    assert(n * q == q * n) by (nonlinear_arith);
    let there = rolled(stack, n, j);
    if k == 0 {
        assert(-j == (-q) * n + 0) by (nonlinear_arith)
            requires
                j == q * n,
        ;
        vstd::arithmetic::div_mod::lemma_fundamental_div_mod_converse_mod(-j, n, -q, 0);
    } else {
        assert(-j == (-q - 1) * n + (n - k)) by (nonlinear_arith)
            requires
                j == q * n + k,
        ;
        vstd::arithmetic::div_mod::lemma_fundamental_div_mod_converse_mod(-j, n, -q - 1, n - k);
    }
    assert(rolled(there, n, -j) =~= stack);
}

/// `roll` leaves what is below the values alone and moves each of the values up
/// by as many places as it is told, round and round.
pub proof fn roll_moves_each_value(base: Seq<Cell>, values: Seq<Cell>, count: u64, by: u64, i: int)
    requires
        values.len() > 0,
        truncated(count) == values.len(),
        0 <= i < values.len(),
    ensures
        ({
            let n = values.len() as int;
            let (stack, action) = stack_effect(
                Operator::Roll,
                (base + values).push(Cell::Num(count)).push(Cell::Num(by)),
            );
            &&& action == ActionView::Next
            &&& stack.len() == base.len() + n
            &&& stack.take(base.len() as int) == base
            &&& stack[base.len() + (i + truncated(by)) % n] == values[i]
        }),
{
    let n = values.len() as int;
    let j = truncated(by);
    let k = j % n;
    let all = base + values;
    lemma_roll(base, values, count, by);
    let stack = rolled(all, n, j);
    assert(stack.take(base.len() as int) =~= base);
    vstd::arithmetic::div_mod::lemma_fundamental_div_mod(j, n);
    let q = j / n;
    if i + k < n {
        assert(i + j == q * n + (i + k)) by (nonlinear_arith)
            requires
                j == n * q + k,
        ;
        vstd::arithmetic::div_mod::lemma_fundamental_div_mod_converse_mod(i + j, n, q, i + k);
        assert(stack[base.len() + i + k] == all[base.len() + i]);
    } else {
        assert(i + j == (q + 1) * n + (i + k - n)) by (nonlinear_arith)
            requires
                j == n * q + k,
        ;
        vstd::arithmetic::div_mod::lemma_fundamental_div_mod_converse_mod(
            i + j,
            n,
            q + 1,
            i + k - n,
        );
        assert(stack[base.len() + i + k - n] == all[base.len() + i]);
    }
}

proof fn lemma_roll(base: Seq<Cell>, values: Seq<Cell>, count: u64, by: u64)
    requires
        values.len() > 0,
        truncated(count) == values.len(),
    ensures
        stack_effect(
            Operator::Roll,
            (base + values).push(Cell::Num(count)).push(Cell::Num(by)),
        ) == (rolled(base + values, values.len() as int, truncated(by)), ActionView::Next),
{
    let all = base + values;
    assert(all.push(Cell::Num(count)).push(Cell::Num(by)).drop_last() =~= all.push(
        Cell::Num(count),
    ));
    assert(all.push(Cell::Num(count)).drop_last() =~= all);
}

/// A `roll` undone by a `roll` the other way leaves the stack as it was.
pub proof fn roll_and_roll_back(
    base: Seq<Cell>,
    values: Seq<Cell>,
    count: u64,
    by: u64,
    back: u64,
)
    requires
        values.len() > 0,
        truncated(count) == values.len(),
        truncated(back) == -truncated(by),
    ensures
        ({
            let there = stack_effect(
                Operator::Roll,
                (base + values).push(Cell::Num(count)).push(Cell::Num(by)),
            ).0;
            stack_effect(Operator::Roll, there.push(Cell::Num(count)).push(Cell::Num(back))) == (
                base + values,
                ActionView::Next,
            )
        }),
{
    let n = values.len() as int;
    let all = base + values;
    lemma_roll(base, values, count, by);
    let there = rolled(all, n, truncated(by));
    vstd::arithmetic::div_mod::lemma_mod_bound(truncated(by), n);
    assert(there.len() == all.len());
    let low = there.take(base.len() as int);
    let high = there.skip(base.len() as int);
    assert(low + high =~= there);
    lemma_roll(low, high, count, back);
    rolling_back_restores(all, n, truncated(by));
}

/// What tells the words of the operators apart.
proof fn lemma_words()
    ensures
        "abs"@.len() == 3 && "abs"@[1] == 'b',
        "add"@.len() == 3 && "add"@[1] == 'd',
        "atan"@.len() == 4 && "atan"@[0] == 'a',
        "ceiling"@.len() == 7,
        "cos"@.len() == 3 && "cos"@[0] == 'c' && "cos"@[1] == 'o',
        "cvi"@.len() == 3 && "cvi"@[1] == 'v' && "cvi"@[2] == 'i',
        "cvr"@.len() == 3 && "cvr"@[1] == 'v' && "cvr"@[2] == 'r',
        "div"@.len() == 3 && "div"@[0] == 'd' && "div"@[1] == 'i',
        "exp"@.len() == 3 && "exp"@[1] == 'x',
        "floor"@.len() == 5 && "floor"@[0] == 'f' && "floor"@[1] == 'l',
        "idiv"@.len() == 4 && "idiv"@[0] == 'i',
        "ln"@.len() == 2 && "ln"@[0] == 'l' && "ln"@[1] == 'n',
        "log"@.len() == 3 && "log"@[0] == 'l' && "log"@[1] == 'o',
        "mod"@.len() == 3 && "mod"@[0] == 'm' && "mod"@[1] == 'o',
        "mul"@.len() == 3 && "mul"@[0] == 'm' && "mul"@[1] == 'u',
        "neg"@.len() == 3 && "neg"@[1] == 'e',
        "round"@.len() == 5 && "round"@[0] == 'r',
        "sin"@.len() == 3 && "sin"@[0] == 's' && "sin"@[1] == 'i',
        "sqrt"@.len() == 4 && "sqrt"@[0] == 's',
        "sub"@.len() == 3 && "sub"@[0] == 's' && "sub"@[1] == 'u',
        "truncate"@.len() == 8 && "truncate"@[0] == 't',
        "and"@.len() == 3 && "and"@[1] == 'n',
        "bitshift"@.len() == 8 && "bitshift"@[0] == 'b',
        "eq"@.len() == 2 && "eq"@[0] == 'e',
        "false"@.len() == 5 && "false"@[0] == 'f' && "false"@[1] == 'a',
        "ge"@.len() == 2 && "ge"@[0] == 'g' && "ge"@[1] == 'e',
        "gt"@.len() == 2 && "gt"@[0] == 'g' && "gt"@[1] == 't',
        "le"@.len() == 2 && "le"@[0] == 'l' && "le"@[1] == 'e',
        "lt"@.len() == 2 && "lt"@[0] == 'l' && "lt"@[1] == 't',
        "ne"@.len() == 2 && "ne"@[0] == 'n',
        "not"@.len() == 3 && "not"@[0] == 'n' && "not"@[1] == 'o',
        "or"@.len() == 2 && "or"@[0] == 'o',
        "true"@.len() == 4 && "true"@[0] == 't',
        "xor"@.len() == 3 && "xor"@[0] == 'x' && "xor"@[1] == 'o',
        "if"@.len() == 2 && "if"@[0] == 'i',
        "ifelse"@.len() == 6,
        "copy"@.len() == 4 && "copy"@[0] == 'c',
        "dup"@.len() == 3 && "dup"@[0] == 'd' && "dup"@[1] == 'u',
        "exch"@.len() == 4 && "exch"@[0] == 'e',
        "index"@.len() == 5 && "index"@[0] == 'i',
        "pop"@.len() == 3 && "pop"@[0] == 'p' && "pop"@[1] == 'o',
        "roll"@.len() == 4 && "roll"@[0] == 'r',
{
    reveal_strlit("abs");
    reveal_strlit("add");
    reveal_strlit("atan");
    reveal_strlit("ceiling");
    reveal_strlit("cos");
    reveal_strlit("cvi");
    reveal_strlit("cvr");
    reveal_strlit("div");
    reveal_strlit("exp");
    reveal_strlit("floor");
    reveal_strlit("idiv");
    reveal_strlit("ln");
    reveal_strlit("log");
    reveal_strlit("mod");
    reveal_strlit("mul");
    reveal_strlit("neg");
    reveal_strlit("round");
    reveal_strlit("sin");
    reveal_strlit("sqrt");
    reveal_strlit("sub");
    reveal_strlit("truncate");
    reveal_strlit("and");
    reveal_strlit("bitshift");
    reveal_strlit("eq");
    reveal_strlit("false");
    reveal_strlit("ge");
    reveal_strlit("gt");
    reveal_strlit("le");
    reveal_strlit("lt");
    reveal_strlit("ne");
    reveal_strlit("not");
    reveal_strlit("or");
    reveal_strlit("true");
    reveal_strlit("xor");
    reveal_strlit("if");
    reveal_strlit("ifelse");
    reveal_strlit("copy");
    reveal_strlit("dup");
    reveal_strlit("exch");
    reveal_strlit("index");
    reveal_strlit("pop");
    reveal_strlit("roll");
}

/// The words for arithmetic name their operators.
pub proof fn arithmetic_words_name_their_operators()
    ensures
        operator_named(bytes::text("abs"@)) == Some(Operator::Abs),
        operator_named(bytes::text("add"@)) == Some(Operator::Plus),
        operator_named(bytes::text("atan"@)) == Some(Operator::Atan),
        operator_named(bytes::text("ceiling"@)) == Some(Operator::Ceiling),
        operator_named(bytes::text("cos"@)) == Some(Operator::Cos),
        operator_named(bytes::text("cvi"@)) == Some(Operator::Cvi),
        operator_named(bytes::text("cvr"@)) == Some(Operator::Cvr),
        operator_named(bytes::text("div"@)) == Some(Operator::Over),
        operator_named(bytes::text("exp"@)) == Some(Operator::Power),
        operator_named(bytes::text("floor"@)) == Some(Operator::Floor),
        operator_named(bytes::text("idiv"@)) == Some(Operator::Idiv),
        operator_named(bytes::text("ln"@)) == Some(Operator::Ln),
        operator_named(bytes::text("log"@)) == Some(Operator::Log),
        operator_named(bytes::text("mod"@)) == Some(Operator::Modulo),
        operator_named(bytes::text("mul"@)) == Some(Operator::Times),
        operator_named(bytes::text("neg"@)) == Some(Operator::Neg),
        operator_named(bytes::text("round"@)) == Some(Operator::Round),
        operator_named(bytes::text("sin"@)) == Some(Operator::Sin),
        operator_named(bytes::text("sqrt"@)) == Some(Operator::Sqrt),
        operator_named(bytes::text("sub"@)) == Some(Operator::Minus),
        operator_named(bytes::text("truncate"@)) == Some(Operator::Truncate),
{
    bytes::lemma_texts_differ();
    lemma_words();
}

/// The words for comparisons, flags, choices and the stack name their
/// operators.
pub proof fn other_words_name_their_operators()
    ensures
        operator_named(bytes::text("and"@)) == Some(Operator::Both),
        operator_named(bytes::text("bitshift"@)) == Some(Operator::Bitshift),
        operator_named(bytes::text("eq"@)) == Some(Operator::Equal),
        operator_named(bytes::text("false"@)) == Some(Operator::FalseFlag),
        operator_named(bytes::text("ge"@)) == Some(Operator::Ge),
        operator_named(bytes::text("gt"@)) == Some(Operator::Gt),
        operator_named(bytes::text("le"@)) == Some(Operator::Le),
        operator_named(bytes::text("lt"@)) == Some(Operator::Lt),
        operator_named(bytes::text("ne"@)) == Some(Operator::Unequal),
        operator_named(bytes::text("not"@)) == Some(Operator::Negate),
        operator_named(bytes::text("or"@)) == Some(Operator::Either),
        operator_named(bytes::text("true"@)) == Some(Operator::TrueFlag),
        operator_named(bytes::text("xor"@)) == Some(Operator::Differ),
        operator_named(bytes::text("if"@)) == Some(Operator::If),
        operator_named(bytes::text("ifelse"@)) == Some(Operator::IfElse),
        operator_named(bytes::text("copy"@)) == Some(Operator::Duplicate),
        operator_named(bytes::text("dup"@)) == Some(Operator::Dup),
        operator_named(bytes::text("exch"@)) == Some(Operator::Exch),
        operator_named(bytes::text("index"@)) == Some(Operator::Nth),
        operator_named(bytes::text("pop"@)) == Some(Operator::Discard),
        operator_named(bytes::text("roll"@)) == Some(Operator::Roll),
{
    bytes::lemma_texts_differ();
    lemma_words();
}

/// `dup` doubles the top of the stack, `pop` takes it away and `exch` turns the
/// two topmost values round; `true` and `false` are pushed. What lies below
/// stays.
pub proof fn stack_words_move_values(rest: Seq<Cell>, a: Cell, b: Cell)
    requires
        rest.len() + 2 <= MAX_STACK,
    ensures
        operator_effect(Operator::Dup, rest.push(a)) == (rest.push(a).push(a), ActionView::Next),
        operator_effect(Operator::Discard, rest.push(a)) == (rest, ActionView::Next),
        operator_effect(Operator::Exch, rest.push(a).push(b)) == (
            rest.push(b).push(a),
            ActionView::Next,
        ),
        operator_effect(Operator::TrueFlag, rest) == (
            rest.push(Cell::Flag(true)),
            ActionView::Next,
        ),
        operator_effect(Operator::FalseFlag, rest) == (
            rest.push(Cell::Flag(false)),
            ActionView::Next,
        ),
{
    let one = rest.push(a);
    let two = one.push(b);
    assert(one.drop_last() =~= rest);
    assert(two.take(two.len() - 2) =~= rest);
    assert(two[two.len() - 1] == b && two[two.len() - 2] == a);
}

/// Doubling and taking away, and turning round twice, change nothing.
pub proof fn stack_words_undo_each_other(stack: Seq<Cell>)
    requires
        2 <= stack.len() < MAX_STACK,
    ensures
        ({
            let (doubled, _) = operator_effect(Operator::Dup, stack);
            operator_effect(Operator::Discard, doubled) == (stack, ActionView::Next)
        }),
        ({
            let (turned, _) = operator_effect(Operator::Exch, stack);
            operator_effect(Operator::Exch, turned) == (stack, ActionView::Next)
        }),
{
    let (doubled, _) = operator_effect(Operator::Dup, stack);
    assert(doubled.drop_last() =~= stack);
    let (turned, _) = operator_effect(Operator::Exch, stack);
    let n = stack.len() as int;
    assert(turned.take(n - 2) =~= stack.take(n - 2));
    assert(stack.take(n - 2).push(turned[n - 1]).push(turned[n - 2]) =~= stack);
}

/// Flags are joined, chosen between and told apart as truth values are, and
/// equal values are not unequal.
pub proof fn flags_are_truth_values(rest: Seq<Cell>, x: bool, y: bool)
    requires
        rest.len() + 2 <= MAX_STACK,
    ensures
        ({
            let stack = rest.push(Cell::Flag(x)).push(Cell::Flag(y));
            &&& operator_effect(Operator::Both, stack) == (
                rest.push(Cell::Flag(x && y)),
                ActionView::Next,
            )
            &&& operator_effect(Operator::Either, stack) == (
                rest.push(Cell::Flag(x || y)),
                ActionView::Next,
            )
            &&& operator_effect(Operator::Differ, stack) == (
                rest.push(Cell::Flag(x != y)),
                ActionView::Next,
            )
            &&& operator_effect(Operator::Equal, stack) == (
                rest.push(Cell::Flag(x == y)),
                ActionView::Next,
            )
            &&& operator_effect(Operator::Unequal, stack) == (
                rest.push(Cell::Flag(x != y)),
                ActionView::Next,
            )
        }),
        operator_effect(Operator::Negate, rest.push(Cell::Flag(x))) == (
            rest.push(Cell::Flag(!x)),
            ActionView::Next,
        ),
{
    let stack = rest.push(Cell::Flag(x)).push(Cell::Flag(y));
    assert(stack.take(stack.len() - 2) =~= rest);
    assert(rest.push(Cell::Flag(x)).drop_last() =~= rest);
}

/// What takes one number hands it out, and what takes two hands them out in
/// the order in which they were pushed; nothing else leaves the stack.
pub proof fn numbers_are_handed_out_in_order(rest: Seq<Cell>, a: Cell, b: Cell, op: Operator)
    requires
        rest.len() + 2 <= MAX_STACK,
        a is Num,
        b is Num,
    ensures
        op == Operator::Minus || op == Operator::Plus || op == Operator::Times || op
            == Operator::Over || op == Operator::Idiv || op == Operator::Modulo || op
            == Operator::Power || op == Operator::Atan || op == Operator::Bitshift
            ==> operator_effect(op, rest.push(a).push(b)) == (
            rest,
            ActionView::Binary(op, a->Num_0, b->Num_0),
        ),
        op == Operator::Gt || op == Operator::Ge || op == Operator::Lt || op == Operator::Le || op
            == Operator::Equal || op == Operator::Unequal ==> operator_effect(
            op,
            rest.push(a).push(b),
        ) == (rest, ActionView::Compare(op, a, b)),
        op == Operator::Abs || op == Operator::Neg || op == Operator::Sqrt || op == Operator::Sin
            || op == Operator::Cos || op == Operator::Ln || op == Operator::Log || op
            == Operator::Ceiling || op == Operator::Floor || op == Operator::Round || op
            == Operator::Truncate || op == Operator::Cvi || op == Operator::Cvr
            ==> operator_effect(op, rest.push(a)) == (rest, ActionView::Unary(op, a->Num_0)),
{
    let one = rest.push(a);
    let two = one.push(b);
    assert(one.drop_last() =~= rest);
    assert(two.take(two.len() - 2) =~= rest);
    assert(two[two.len() - 1] == b && two[two.len() - 2] == a);
}

/// A block in front of `if` is entered where the flag on top is set and passed
/// over where it is not; of the two blocks in front of `ifelse` the first is
/// entered where it is set and the second where it is not. The flag is taken
/// off either way, and what follows comes after the block.
pub proof fn conditions_choose_blocks(
    m: MachineView,
    outer: Seq<(Seq<TokenView>, int)>,
    tokens: Seq<TokenView>,
    i: int,
    rest: Seq<Cell>,
    taken: bool,
    first: Seq<TokenView>,
    second: Seq<TokenView>,
)
    requires
        m.frames == outer.push((tokens, i)),
        m.stack == rest.push(Cell::Flag(taken)),
        m.steps < MAX_STEPS,
        0 <= i,
        i + 1 < tokens.len(),
        tokens[i] == TokenView::Block(first),
    ensures
        tokens[i + 1] == TokenView::Op(Operator::If) ==> ({
            let (after, action) = stepped(m);
            &&& action == ActionView::Next
            &&& after.stack == rest
            &&& after.frames == if taken {
                outer.push((tokens, i + 2)).push((first, 0))
            } else {
                outer.push((tokens, i + 2))
            }
        }),
        tokens[i + 1] == TokenView::Block(second) && i + 2 < tokens.len() && tokens[i + 2]
            == TokenView::Op(Operator::IfElse) ==> ({
            let (after, action) = stepped(m);
            &&& action == ActionView::Next
            &&& after.stack == rest
            &&& after.frames == outer.push((tokens, i + 3)).push(
                (
                    if taken {
                        first
                    } else {
                        second
                    },
                    0,
                ),
            )
        }),
{
    assert(m.frames.drop_last() =~= outer);
    assert(m.stack.drop_last() =~= rest);
}

} // verus!
