//! Numeric tokens and their shortest spelling.
use vstd::prelude::*;

use crate::bytes;

verus! {

pub open spec fn digit(b: u8) -> bool {
    '0' as u8 <= b <= '9' as u8
}

/// Every byte is a decimal digit.
pub open spec fn digits_only(s: Seq<u8>) -> bool {
    forall|i: int| 0 <= i < s.len() ==> digit(#[trigger] s[i])
}

/// Where the first `.` at or after `from` stands, or the length.
pub open spec fn point_at(s: Seq<u8>, from: int) -> int
    decreases s.len() - from,
{
    if from < 0 || from >= s.len() {
        s.len() as int
    } else if s[from] == '.' as u8 {
        from
    } else {
        point_at(s, from + 1)
    }
}

/// `s` without the zeros it starts with.
pub open spec fn skip_zeros(s: Seq<u8>) -> Seq<u8>
    decreases s.len(),
{
    if s.len() > 0 && s[0] == '0' as u8 {
        skip_zeros(s.skip(1))
    } else {
        s
    }
}

/// `s` without the zeros it ends with.
pub open spec fn trim_zeros(s: Seq<u8>) -> Seq<u8>
    decreases s.len(),
{
    if s.len() > 0 && s.last() == '0' as u8 {
        trim_zeros(s.drop_last())
    } else {
        s
    }
}

/// A decimal number as written: its sign and the digits on either side of
/// the point.
pub struct Decimal {
    pub negative: bool,
    pub whole: Seq<u8>,
    pub fraction: Seq<u8>,
}

/// The number that a token spells, if it is a plain number: an optional
/// sign, digits, and at most one point among them.
pub open spec fn parse_number(token: Seq<u8>) -> Option<Decimal> {
    if token.len() == 0 {
        None
    } else {
        let negative = token[0] == '-' as u8;
        let body = if token[0] == '-' as u8 || token[0] == '+' as u8 {
            token.skip(1)
        } else {
            token
        };
        let p = point_at(body, 0);
        let whole = body.take(p);
        let fraction = if p < body.len() {
            body.skip(p + 1)
        } else {
            Seq::empty()
        };
        if body.len() == 0 || !digits_only(whole) || !digits_only(fraction) {
            None
        } else {
            Some(Decimal { negative, whole, fraction })
        }
    }
}

/// The shortest spelling of a number: no redundant zeros, no point without a
/// fraction, no sign on zero.
pub open spec fn shortest(d: Decimal) -> Seq<u8> {
    let whole = skip_zeros(d.whole);
    let fraction = trim_zeros(d.fraction);
    if whole.len() == 0 && fraction.len() == 0 {
        seq!['0' as u8]
    } else {
        (if d.negative {
            seq!['-' as u8]
        } else {
            Seq::empty()
        }) + whole + (if fraction.len() > 0 {
            seq!['.' as u8] + fraction
        } else {
            Seq::empty()
        })
    }
}

/// What a run of regular characters is written as.
pub open spec fn rewritten_word(token: Seq<u8>) -> Seq<u8> {
    match parse_number(token) {
        Some(d) => shortest(d),
        None => token,
    }
}

/// Where the parts of a number stand in its token: the sign, the first digit,
/// the point, and the first digit of the fraction.
pub(crate) fn split_number(token: &[u8]) -> (r: Option<(bool, usize, usize, usize)>)
    ensures
        match r {
            Some((negative, start, point, after)) => start <= point <= after <= token.len()
                && parse_number(token@) == Some(
                Decimal {
                    negative,
                    whole: token@.subrange(start as int, point as int),
                    fraction: token@.subrange(after as int, token@.len() as int),
                },
            ),
            None => parse_number(token@) is None,
        },
{
    if token.len() == 0 {
        return None;
    }
    let negative = token[0] == ('-' as u8);
    let start: usize = if negative || token[0] == ('+' as u8) { 1 } else { 0 };
    let ghost body = if start == 1 { token@.skip(1) } else { token@ };
    assert(body == token@.skip(start as int)) by {
        assert(token@.skip(0) =~= token@);
    }
    if start == token.len() {
        return None;
    }
    let mut point: usize = token.len();
    let mut i: usize = start;
    while i < token.len()
        invariant
            start <= i <= token.len(),
            body == token@.skip(start as int),
            body == if start == 1 {
                token@.skip(1)
            } else {
                token@
            },
            token.len() > 0,
            start == if token@[0] == '-' as u8 || token@[0] == '+' as u8 {
                1int
            } else {
                0
            },
            point == token.len() || start <= point < i,
            point == token.len() ==> point_at(body, 0) == point_at(body, i - start),
            point < token.len() ==> point_at(body, 0) == point - start && token@[point as int]
                == '.' as u8,
            forall|k: int| start <= k < i && k != point ==> digit(#[trigger] token@[k]),
        decreases token.len() - i,
    {
        let b = token[i];
        assert(b == body[i - start]);
        if b == ('.' as u8) && point == token.len() {
            point = i;
        } else if !(('0' as u8) <= b && b <= ('9' as u8)) {
            proof {
                let p = point_at(body, 0);
                if point == token.len() {
                    lemma_point_at_bounds(body, i - start + 1);
                    assert(body.take(p)[i - start] == b);
                    assert(!digits_only(body.take(p)));
                } else {
                    assert(body.skip(p + 1)[i - start - p - 1] == b);
                    assert(!digits_only(body.skip(p + 1)));
                }
                assert(parse_number(token@) is None);
            }
            return None;
        }
        i += 1;
    }
    let ghost p = point_at(body, 0);
    let has_point = point < token.len();
    let after: usize = if has_point { point + 1 } else { token.len() };
    let ghost whole0 = token@.subrange(start as int, point as int);
    let ghost fraction0 = token@.subrange(after as int, token@.len() as int);
    proof {
        lemma_point_at_bounds(body, 0);
        assert(p == point - start);
        assert(body.take(p) =~= whole0);
        if has_point {
            assert(body.skip(p + 1) =~= fraction0);
        } else {
            assert(fraction0 =~= Seq::empty());
        }
        assert(digits_only(whole0));
        assert(digits_only(fraction0));
        assert(parse_number(token@) == Some(
            Decimal { negative, whole: whole0, fraction: fraction0 },
        ));
    }
    Some((negative, start, point, after))
}

/// A numeric token without its redundant characters: sign of zero,
/// leading zeros of the integer part, trailing zeros of the fraction, a
/// trailing point. `None` for tokens that are not plain numbers.
pub fn canonical_number(token: &[u8]) -> (r: Option<Vec<u8>>)
    ensures
        match r {
            Some(out) => parse_number(token@) is Some && out@ == shortest(parse_number(token@)->0),
            None => parse_number(token@) is None,
        },
{
    let (negative, start, point, after) = match split_number(token) {
        Some(parts) => parts,
        None => {
            return None;
        },
    };
    let ghost whole0 = token@.subrange(start as int, point as int);
    let ghost fraction0 = token@.subrange(after as int, token@.len() as int);
    let mut first: usize = start;
    while first < point && token[first] == ('0' as u8)
        invariant
            start <= first <= point <= token.len(),
            skip_zeros(token@.subrange(start as int, point as int)) == skip_zeros(
                token@.subrange(first as int, point as int),
            ),
        decreases point - first,
    {
        proof {
            let s = token@.subrange(first as int, point as int);
            assert(s[0] == token@[first as int]);
            assert(s.skip(1) =~= token@.subrange(first + 1, point as int));
        }
        first += 1;
    }
    let mut last: usize = token.len();
    while last > after && token[last - 1] == ('0' as u8)
        invariant
            after <= last <= token.len(),
            trim_zeros(token@.subrange(after as int, token@.len() as int)) == trim_zeros(
                token@.subrange(after as int, last as int),
            ),
        decreases last,
    {
        proof {
            let s = token@.subrange(after as int, last as int);
            assert(s.last() == token@[last - 1]);
            assert(s.drop_last() =~= token@.subrange(after as int, last - 1));
        }
        last -= 1;
    }
    let ghost whole = token@.subrange(first as int, point as int);
    let ghost fraction = token@.subrange(after as int, last as int);
    proof {
        if first < point {
            assert(whole[0] == token@[first as int]);
        }
        assert(skip_zeros(whole0) == whole);
        if last > after {
            assert(fraction.last() == token@[last - 1]);
        }
        assert(trim_zeros(fraction0) == fraction);
    }
    let mut out: Vec<u8> = Vec::with_capacity(token.len());
    if first == point && last == after {
        out.push('0' as u8);
        assert(out@ =~= seq!['0' as u8]);
        return Some(out);
    }
    if negative {
        out.push('-' as u8);
    }
    bytes::append_range(&mut out, token, first, point);
    if last > after {
        out.push('.' as u8);
        bytes::append_range(&mut out, token, after, last);
    }
    assert(out@ =~= shortest(parse_number(token@)->0));
    Some(out)
}

/// The parts of a number are digits, and no longer than the token.
pub proof fn lemma_parsed_digits(token: Seq<u8>)
    ensures
        match parse_number(token) {
            Some(d) => digits_only(d.whole) && digits_only(d.fraction) && d.whole.len()
                + d.fraction.len() <= token.len(),
            None => true,
        },
{
    if token.len() > 0 {
        let body = if token[0] == '-' as u8 || token[0] == '+' as u8 {
            token.skip(1)
        } else {
            token
        };
        lemma_point_at_bounds(body, 0);
    }
}

proof fn lemma_point_at_bounds(s: Seq<u8>, from: int)
    requires
        0 <= from <= s.len(),
    ensures
        from <= point_at(s, from) <= s.len(),
        point_at(s, from) < s.len() ==> s[point_at(s, from)] == '.' as u8,
        forall|k: int| from <= k < point_at(s, from) ==> s[k] != '.' as u8,
    decreases s.len() - from,
{
    if from < s.len() && s[from] != '.' as u8 {
        lemma_point_at_bounds(s, from + 1);
    }
}


pub proof fn lemma_skip_zeros_len(s: Seq<u8>)
    ensures
        skip_zeros(s).len() <= s.len(),
        digits_only(s) ==> digits_only(skip_zeros(s)),
        skip_zeros(s).len() > 0 ==> skip_zeros(s)[0] != '0' as u8,
        skip_zeros(skip_zeros(s)) == skip_zeros(s),
    decreases s.len(),
{
    if s.len() > 0 && s[0] == '0' as u8 {
        lemma_skip_zeros_len(s.skip(1));
    }
}

pub proof fn lemma_trim_zeros_len(s: Seq<u8>)
    ensures
        trim_zeros(s).len() <= s.len(),
        digits_only(s) ==> digits_only(trim_zeros(s)),
        trim_zeros(trim_zeros(s)) == trim_zeros(s),
    decreases s.len(),
{
    if s.len() > 0 && s.last() == '0' as u8 {
        lemma_trim_zeros_len(s.drop_last());
    }
}

/// A rewritten word is never longer than the word.
pub proof fn lemma_word_never_grows(token: Seq<u8>)
    ensures
        rewritten_word(token).len() <= token.len(),
{
    if let Some(d) = parse_number(token) {
        lemma_skip_zeros_len(d.whole);
        lemma_trim_zeros_len(d.fraction);
        let body = if token[0] == '-' as u8 || token[0] == '+' as u8 {
            token.skip(1)
        } else {
            token
        };
        lemma_point_at_bounds(body, 0);
    }
}

/// The number that a run of digits spells.
pub open spec fn digits_value(s: Seq<u8>) -> int
    decreases s.len(),
{
    if s.len() == 0 {
        0
    } else {
        digits_value(s.drop_last()) * 10 + (s.last() - '0' as u8)
    }
}

/// Ten to the power `n`.
pub open spec fn ten_to(n: nat) -> int
    decreases n,
{
    if n == 0 {
        1
    } else {
        10 * ten_to((n - 1) as nat)
    }
}

/// A number times ten to the length of its fraction.
pub open spec fn scaled_value(d: Decimal) -> int {
    if d.negative {
        -digits_value(d.whole + d.fraction)
    } else {
        digits_value(d.whole + d.fraction)
    }
}

/// Two spellings of one number.
pub open spec fn same_number(a: Decimal, b: Decimal) -> bool {
    scaled_value(a) * ten_to(b.fraction.len()) == scaled_value(b) * ten_to(a.fraction.len())
}

proof fn lemma_value_skip_zeros(a: Seq<u8>, b: Seq<u8>)
    ensures
        digits_value(skip_zeros(a) + b) == digits_value(a + b),
    decreases a.len(),
{
    if a.len() > 0 && a[0] == '0' as u8 {
        lemma_value_skip_zeros(a.skip(1), b);
        assert(a + b =~= seq!['0' as u8] + (a.skip(1) + b));
        lemma_value_leading_zero(a.skip(1) + b);
    }
}

proof fn lemma_value_leading_zero(s: Seq<u8>)
    ensures
        digits_value(seq!['0' as u8] + s) == digits_value(s),
    decreases s.len(),
{
    let t = seq!['0' as u8] + s;
    if s.len() > 0 {
        assert(t.drop_last() =~= seq!['0' as u8] + s.drop_last());
        assert(t.last() == s.last());
        lemma_value_leading_zero(s.drop_last());
    } else {
        assert(t.drop_last() =~= Seq::empty());
        assert(t.last() == '0' as u8);
        assert(digits_value(t.drop_last()) == 0);
        assert(digits_value(s) == 0);
    }
}

proof fn lemma_value_trim_zeros(a: Seq<u8>, b: Seq<u8>)
    ensures
        trim_zeros(b).len() <= b.len(),
        digits_value(a + b) == digits_value(a + trim_zeros(b)) * ten_to(
            (b.len() - trim_zeros(b).len()) as nat,
        ),
    decreases b.len(),
{
    if b.len() > 0 && b.last() == '0' as u8 {
        let c = b.drop_last();
        lemma_value_trim_zeros(a, c);
        assert((a + b).drop_last() =~= a + c);
        assert((a + b).last() == '0' as u8);
        let k = (c.len() - trim_zeros(c).len()) as nat;
        assert(ten_to(k + 1) == 10 * ten_to(k));
        let v = digits_value(a + trim_zeros(c));
        assert(v * ten_to(k) * 10 == v * (10 * ten_to(k))) by (nonlinear_arith);
    } else {
        assert(ten_to(0) == 1);
    }
}

proof fn lemma_ten_to_add(a: nat, b: nat)
    ensures
        ten_to(a + b) == ten_to(a) * ten_to(b),
    decreases a,
{
    if a > 0 {
        lemma_ten_to_add((a - 1) as nat, b);
        let x = ten_to((a - 1) as nat);
        let y = ten_to(b);
        assert(10 * (x * y) == (10 * x) * y) by (nonlinear_arith);
    }
}

pub proof fn lemma_parse_digits(s: Seq<u8>, negative: bool, whole: Seq<u8>, fraction: Seq<u8>)
    requires
        digits_only(whole),
        digits_only(fraction),
        whole.len() > 0 || fraction.len() > 0,
        s == (if negative {
            seq!['-' as u8]
        } else {
            Seq::empty()
        }) + whole + (if fraction.len() > 0 {
            seq!['.' as u8] + fraction
        } else {
            Seq::empty()
        }),
    ensures
        parse_number(s) == Some(Decimal { negative, whole, fraction }),
{
    let body = whole + (if fraction.len() > 0 {
        seq!['.' as u8] + fraction
    } else {
        Seq::empty()
    });
    if negative {
        assert(s.skip(1) =~= body);
        assert(s[0] == '-' as u8);
    } else {
        assert(s =~= body);
        if whole.len() > 0 {
            assert(s[0] == whole[0]);
            assert(digit(whole[0]));
        } else {
            assert(s[0] == '.' as u8);
        }
    }
    lemma_point_at_bounds(body, 0);
    let p = point_at(body, 0);
    if fraction.len() > 0 {
        assert(body[whole.len() as int] == '.' as u8);
        if p < whole.len() {
            assert(body[p] == whole[p]);
            assert(digit(whole[p]));
        }
        assert(p == whole.len());
        assert(body.take(p) =~= whole);
        assert(body.skip(p + 1) =~= fraction);
    } else {
        assert(body =~= whole);
        if p < body.len() {
            assert(digit(whole[p]));
        }
        assert(body.take(p) =~= whole);
        assert(fraction =~= Seq::empty());
    }
}

/// The rewrite of a number is a number again, of the same value, and is left
/// as it is by another rewrite.
pub proof fn number_keeps_its_value(token: Seq<u8>)
    requires
        parse_number(token) is Some,
    ensures
        parse_number(rewritten_word(token)) is Some,
        same_number(parse_number(token)->0, parse_number(rewritten_word(token))->0),
        rewritten_word(rewritten_word(token)) == rewritten_word(token),
{
    let d = parse_number(token)->0;
    let whole = skip_zeros(d.whole);
    let fraction = trim_zeros(d.fraction);
    lemma_skip_zeros_len(d.whole);
    lemma_trim_zeros_len(d.fraction);
    lemma_value_skip_zeros(d.whole, d.fraction);
    lemma_value_trim_zeros(whole, d.fraction);
    let out = shortest(d);
    if whole.len() == 0 && fraction.len() == 0 {
        assert(digits_only(out));
        lemma_parse_digits(out, false, out, Seq::empty());
        let e = parse_number(out)->0;
        assert(whole + fraction =~= Seq::empty());
        assert(digits_value(whole + fraction) == 0);
        let k = ten_to((d.fraction.len() - fraction.len()) as nat);
        assert(0 * k == 0);
        assert(scaled_value(d) == 0);
        assert(out + Seq::<u8>::empty() =~= out);
        assert(out.drop_last() =~= Seq::empty());
        assert(digits_value(out) == 0);
        assert(scaled_value(e) == 0);
        assert(0 * ten_to(e.fraction.len()) == 0 * ten_to(d.fraction.len()));
        assert(out.skip(1) =~= Seq::empty());
        assert(skip_zeros(out) =~= Seq::empty());
    } else {
        lemma_parse_digits(out, d.negative, whole, fraction);
        let k = (d.fraction.len() - fraction.len()) as nat;
        lemma_ten_to_add(k, fraction.len());
        let v = digits_value(whole + fraction);
        let t = ten_to(k);
        let f = ten_to(fraction.len());
        assert((v * t) * f == v * (t * f)) by (nonlinear_arith);
        assert((-(v * t)) * f == (-v) * (t * f)) by (nonlinear_arith);
    }
}

} // verus!
