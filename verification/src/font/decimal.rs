//! Numbers of font programs: decimal digits and a power of ten.
use vstd::prelude::*;

use crate::content::number;
use crate::content::number::split_number;

verus! {

/// How many digits a number is kept with.
pub const MOST_DIGITS: usize = 36;

/// The greatest whole part that is told apart: a one with as many zeros.
pub const HELD: i128 = 1_000_000_000_000_000_000_000_000_000_000_000_000;

/// The greatest digits that have room for one more.
pub const ROOM: i128 = 100_000_000_000_000_000_000_000_000_000_000_000;

/// The most places before the point that a number may have.
pub const MOST_PLACES: i64 = 309;

/// How many zeros may follow the point before the first digit that counts.
pub const LEAST_PLACES: i64 = -323;

/// How far an exponent is told apart. No word is long enough for its digits to
/// make up for a greater one.
pub const FAR: i64 = 1_000_000;

/// A decimal number: its digits, times ten to the power of the exponent.
#[derive(Clone, Copy, Debug, PartialEq, Eq, Structural)]
pub struct Decimal {
    pub digits: i128,
    pub exponent: i16,
}

// ------------------------------------------------------------- words

/// Where an exponent starts in a word, or its length.
pub open spec fn exponent_at(s: Seq<u8>, from: int) -> int
    decreases s.len() - from,
{
    if from < 0 || from >= s.len() {
        s.len() as int
    } else if s[from] == 'e' as u8 || s[from] == 'E' as u8 {
        from
    } else {
        exponent_at(s, from + 1)
    }
}

/// The value of an exponent: an optional sign, and digits.
pub open spec fn exponent_value(s: Seq<u8>) -> Option<int> {
    if s.len() == 0 {
        None
    } else {
        let signed = s[0] == '-' as u8 || s[0] == '+' as u8;
        let digits = if signed {
            s.skip(1)
        } else {
            s
        };
        if digits.len() == 0 || !number::digits_only(digits) {
            None
        } else if s[0] == '-' as u8 {
            Some(-number::digits_value(digits))
        } else {
            Some(number::digits_value(digits))
        }
    }
}

/// Where the digits from `i` on first are not zero, or their end.
pub open spec fn first_digit(digits: Seq<u8>, i: int) -> int
    decreases digits.len() - i,
{
    if 0 <= i < digits.len() && digits[i] == '0' as u8 {
        first_digit(digits, i + 1)
    } else {
        i
    }
}

/// A number without digits that are zeros at its end.
pub open spec fn settled(digits: int, exponent: int) -> Decimal
    decreases if digits < 0 { -digits } else { digits },
{
    if digits == 0 {
        Decimal { digits: 0, exponent: 0 }
    } else if digits % 10 == 0 && exponent < i16::MAX {
        settled(tenth(digits), exponent + 1)
    } else {
        Decimal { digits: digits as i128, exponent: exponent as i16 }
    }
}

/// A tenth, towards zero.
pub open spec fn tenth(n: int) -> int {
    if n < 0 {
        -((-n) / 10)
    } else {
        n / 10
    }
}

/// The number that digits make, those that count up to as many as are kept;
/// `None` where it has too many places before the point, zero where it has too
/// many zeros behind it.
pub open spec fn number_from(negative: bool, digits: Seq<u8>, exponent: int) -> Option<Decimal> {
    let counting = digits.skip(first_digit(digits, 0));
    let kept = if counting.len() > MOST_DIGITS {
        counting.take(MOST_DIGITS as int)
    } else {
        counting
    };
    let places = counting.len() + exponent;
    let value = number::digits_value(kept);
    if counting.len() == 0 || places < LEAST_PLACES {
        Some(Decimal { digits: 0, exponent: 0 })
    } else if places > MOST_PLACES {
        None
    } else {
        Some(
            settled(
                if negative {
                    -value
                } else {
                    value
                },
                places - kept.len(),
            ),
        )
    }
}

/// The number that a word spells; `None` where the word spells no number, or
/// one that is too large or is spelled in more than 65535 bytes.
pub open spec fn decimal_of(word: Seq<u8>) -> Option<Decimal> {
    let at = exponent_at(word, 0);
    let exponent = if word.len() > 0xFFFF {
        None
    } else if at < word.len() {
        exponent_value(word.skip(at + 1))
    } else {
        Some(0)
    };
    match (number::parse_number(word.take(at)), exponent) {
        (Some(d), Some(e)) => if d.whole.len() + d.fraction.len() == 0 {
            None
        } else {
            number_from(d.negative, d.whole + d.fraction, e - d.fraction.len())
        },
        _ => None,
    }
}

proof fn lemma_exponent_at(s: Seq<u8>, from: int)
    requires
        0 <= from <= s.len(),
    ensures
        from <= exponent_at(s, from) <= s.len(),
    decreases s.len() - from,
{
    if from < s.len() && s[from] != 'e' as u8 && s[from] != 'E' as u8 {
        lemma_exponent_at(s, from + 1);
    }
}

/// An exponent within what is told apart.
pub open spec fn near(e: int) -> int {
    if e > FAR {
        FAR as int
    } else if e < -FAR {
        -FAR
    } else {
        e
    }
}

proof fn lemma_first_digit(digits: Seq<u8>, i: int)
    requires
        0 <= i <= digits.len(),
    ensures
        i <= first_digit(digits, i) <= digits.len(),
    decreases digits.len() - i,
{
    if i < digits.len() && digits[i] == '0' as u8 {
        lemma_first_digit(digits, i + 1);
    }
}

/// A greater exponent than is told apart makes no other number.
proof fn lemma_near(negative: bool, digits: Seq<u8>, e: int, places: int)
    requires
        digits.len() <= 0xFFFF,
        0 <= places <= 0xFFFF,
    ensures
        number_from(negative, digits, e - places) == number_from(
            negative,
            digits,
            near(e) - places,
        ),
{
    lemma_first_digit(digits, 0);
}

#[verifier::loop_isolation(false)]
fn read_exponent(word: &[u8], from: usize) -> (r: Option<i64>)
    requires
        from <= word.len(),
    ensures
        match r {
            Some(e) => exponent_value(word@.skip(from as int)) is Some && e == near(
                exponent_value(word@.skip(from as int))->0,
            ),
            None => exponent_value(word@.skip(from as int)) is None,
        },
{
    let ghost s = word@.skip(from as int);
    if from == word.len() {
        return None;
    }
    assert(s[0] == word@[from as int]);
    let negative = word[from] == ('-' as u8);
    let start: usize = if negative || word[from] == ('+' as u8) {
        from + 1
    } else {
        from
    };
    let ghost digits = if start > from {
        s.skip(1)
    } else {
        s
    };
    assert(digits =~= word@.skip(start as int));
    if start == word.len() {
        return None;
    }
    let mut value: i64 = 0;
    let mut i: usize = start;
    assert(digits.take(0) =~= Seq::empty());
    while i < word.len()
        invariant
            start <= i <= word.len(),
            digits == word@.skip(start as int),
            value == near(number::digits_value(digits.take(i - start))),
            0 <= number::digits_value(digits.take(i - start)),
            0 <= value <= FAR,
            forall|k: int| 0 <= k < i - start ==> number::digit(#[trigger] digits[k]),
        decreases word.len() - i,
    {
        let b = word[i];
        assert(digits[i - start] == b);
        if !(('0' as u8) <= b && b <= ('9' as u8)) {
            assert(!number::digits_only(digits));
            return None;
        }
        proof {
            let next = digits.take(i + 1 - start);
            assert(next.drop_last() =~= digits.take(i - start));
            assert(next.last() == b);
        }
        value = value * 10 + (b - ('0' as u8)) as i64;
        if value > FAR {
            value = FAR;
        }
        i += 1;
    }
    assert(digits.take(i - start) =~= digits);
    if negative {
        Some(-value)
    } else {
        Some(value)
    }
}

proof fn lemma_ten_to(n: nat)
    requires
        n <= MOST_DIGITS,
    ensures
        1 <= number::ten_to(n) <= HELD,
    decreases MOST_DIGITS - n,
{
    if n == MOST_DIGITS {
        assert(number::ten_to(36) == HELD) by {
            reveal_with_fuel(number::ten_to, 37);
        }
    } else {
        lemma_ten_to(n + 1);
    }
}

/// The digit `k` of those of `word` from `whole` to `point` and then from
/// `after` to `end`.
fn digit_at(word: &[u8], whole: usize, point: usize, after: usize, end: usize, k: usize) -> (r: u8)
    requires
        whole <= point <= after <= end <= word.len(),
        k < (point - whole) + (end - after),
    ensures
        r == (word@.subrange(whole as int, point as int) + word@.subrange(
            after as int,
            end as int,
        ))[k as int],
{
    if k < point - whole {
        word[whole + k]
    } else {
        word[after + (k - (point - whole))]
    }
}

/// The number that digits make, those of `word` from `whole` to `point` and
/// then from `after` to `end`.
fn read_number(
    word: &[u8],
    negative: bool,
    whole: usize,
    point: usize,
    after: usize,
    end: usize,
    exponent: i64,
) -> (r: Option<Decimal>)
    requires
        whole <= point <= after <= end <= word.len() <= 0xFFFF,
        number::digits_only(word@.subrange(whole as int, point as int)),
        number::digits_only(word@.subrange(after as int, end as int)),
        -2 * FAR <= exponent <= 2 * FAR,
    ensures
        r == number_from(
            negative,
            word@.subrange(whole as int, point as int) + word@.subrange(after as int, end as int),
            exponent as int,
        ),
{
    let ghost a = word@.subrange(whole as int, point as int);
    let ghost b = word@.subrange(after as int, end as int);
    let ghost digits = a + b;
    assert(number::digits_only(digits)) by {
        assert forall|k: int| 0 <= k < digits.len() implies number::digit(#[trigger] digits[k]) by {
            if k < a.len() {
                assert(digits[k] == a[k]);
            } else {
                assert(digits[k] == b[k - a.len()]);
            }
        }
    }
    let n: usize = (point - whole) + (end - after);
    let mut first: usize = 0;
    while first < n && digit_at(word, whole, point, after, end, first) == ('0' as u8)
        invariant
            whole <= point <= after <= end <= word.len(),
            n == (point - whole) + (end - after),
            first <= n,
            digits == word@.subrange(whole as int, point as int) + word@.subrange(
                after as int,
                end as int,
            ),
            first_digit(digits, 0) == first_digit(digits, first as int),
        decreases n - first,
    {
        first += 1;
    }
    let left: usize = n - first;
    let places: i64 = left as i64 + exponent;
    if left == 0 || places < LEAST_PLACES {
        return Some(Decimal { digits: 0, exponent: 0 });
    }
    if places > MOST_PLACES {
        return None;
    }
    let keep: usize = if left > MOST_DIGITS {
        MOST_DIGITS
    } else {
        left
    };
    let ghost kept = digits.skip(first as int).take(keep as int);
    assert(left <= MOST_DIGITS ==> kept =~= digits.skip(first as int));
    let mut value: i128 = 0;
    let mut k: usize = 0;
    assert(kept.take(0) =~= Seq::empty());
    while k < keep
        invariant
            whole <= point <= after <= end <= word.len(),
            n == (point - whole) + (end - after),
            first + keep <= n,
            keep <= MOST_DIGITS,
            k <= keep,
            digits == word@.subrange(whole as int, point as int) + word@.subrange(
                after as int,
                end as int,
            ),
            number::digits_only(digits),
            kept == digits.skip(first as int).take(keep as int),
            value == number::digits_value(kept.take(k as int)),
            0 <= value < number::ten_to(k as nat),
        decreases keep - k,
    {
        let digit = digit_at(word, whole, point, after, end, first + k);
        proof {
            assert(kept[k as int] == digits[first + k]);
            assert(number::digit(digits[first + k]));
            let next = kept.take(k + 1);
            assert(next.drop_last() =~= kept.take(k as int));
            assert(next.last() == digit);
            lemma_ten_to(k as nat);
            assert(number::ten_to((k + 1) as nat) == number::ten_to(k as nat) * 10);
        }
        value = value * 10 + (digit - ('0' as u8)) as i128;
        k += 1;
    }
    assert(kept.take(keep as int) =~= kept);
    proof {
        lemma_ten_to(keep as nat);
    }
    let signed: i128 = if negative {
        -value
    } else {
        value
    };
    Some(settle(signed, (places - keep as i64) as i16))
}

/// A number without digits that are zeros at its end.
fn settle(digits: i128, exponent: i16) -> (r: Decimal)
    ensures
        r == settled(digits as int, exponent as int),
{
    if digits == 0 {
        return Decimal { digits: 0, exponent: 0 };
    }
    let mut m: i128 = digits;
    let mut e: i16 = exponent;
    loop
        invariant
            m != 0,
            settled(m as int, e as int) == settled(digits as int, exponent as int),
        decreases (if m < 0 { -m } else { m as int }),
    {
        if e == i16::MAX {
            return Decimal { digits: m, exponent: e };
        }
        let t = divide_by_ten(m);
        if t * 10 != m {
            return Decimal { digits: m, exponent: e };
        }
        m = t;
        e += 1;
    }
}

/// A tenth, towards zero.
fn divide_by_ten(n: i128) -> (r: i128)
    ensures
        r == tenth(n as int),
        n < 0 ==> -10 < n - 10 * r <= 0,
        n >= 0 ==> 0 <= n - 10 * r < 10,
{
    if n >= 0 {
        n / 10
    } else if n == i128::MIN {
        -17014118346046923173168730371588410572
    } else {
        -((-n) / 10)
    }
}

/// The whole part of digits times a power of ten, towards zero.
pub open spec fn whole_part(digits: int, exponent: int) -> int
    decreases if exponent < 0 { -exponent } else { exponent },
{
    if exponent > 0 {
        whole_part(digits * 10, exponent - 1)
    } else if exponent < 0 {
        whole_part(tenth(digits), exponent + 1)
    } else {
        digits
    }
}

/// Whether digits times a power of ten are whole.
pub open spec fn whole_number(digits: int, exponent: int) -> bool
    decreases -exponent,
{
    exponent >= 0 || (digits % 10 == 0 && whole_number(tenth(digits), exponent + 1))
}

/// Within what is told apart.
pub open spec fn held(n: int) -> int {
    if n > HELD {
        HELD as int
    } else if n < -HELD {
        -HELD
    } else {
        n
    }
}

proof fn lemma_whole_grows(digits: int, exponent: int)
    requires
        exponent >= 0,
    ensures
        digits >= 0 ==> whole_part(digits, exponent) >= digits,
        digits <= 0 ==> whole_part(digits, exponent) <= digits,
    decreases exponent,
{
    if exponent > 0 {
        lemma_whole_grows(digits * 10, exponent - 1);
    }
}

/// Digits times ten as long as there is room and the exponent is above another.
pub open spec fn raised(digits: int, exponent: int, to: int) -> (int, int)
    decreases exponent - to,
{
    if exponent > to && -ROOM <= digits <= ROOM {
        raised(digits * 10, exponent - 1, to)
    } else {
        (digits, exponent)
    }
}

/// Digits without those below a power of ten.
pub open spec fn lowered(digits: int, exponent: int, to: int) -> int
    decreases to - exponent,
{
    if exponent < to {
        lowered(tenth(digits), exponent + 1, to)
    } else {
        digits
    }
}

/// Within 128 bits.
pub open spec fn fits(n: int) -> int {
    if n > i128::MAX {
        i128::MAX as int
    } else if n < i128::MIN {
        i128::MIN as int
    } else {
        n
    }
}

impl Decimal {
    /// The number that a word spells: an optional sign, digits with at most
    /// one point among them, and an optional exponent. `None` for other words
    /// and for numbers that are too large.
    pub fn parse(word: &[u8]) -> (r: Option<Decimal>)
        ensures
            r == decimal_of(word@),
    {
        if word.len() > 0xFFFF {
            return None;
        }
        let mut at: usize = 0;
        while at < word.len() && word[at] != ('e' as u8) && word[at] != ('E' as u8)
            invariant
                at <= word.len(),
                exponent_at(word@, 0) == exponent_at(word@, at as int),
            decreases word.len() - at,
        {
            at += 1;
        }
        proof {
            lemma_exponent_at(word@, 0);
        }
        let base = vstd::slice::slice_subrange(word, 0, at);
        assert(base@ =~= word@.take(at as int));
        let (negative, start, point, after) = match split_number(base) {
            Some(parts) => parts,
            None => {
                return None;
            },
        };
        let exponent: i64 = if at < word.len() {
            match read_exponent(word, at + 1) {
                Some(e) => e,
                None => {
                    return None;
                },
            }
        } else {
            0
        };
        if start == point && after == base.len() {
            return None;
        }
        let ghost d = number::parse_number(base@)->0;
        let places: usize = base.len() - after;
        proof {
            assert(base@.subrange(after as int, base@.len() as int) == d.fraction);
            number::lemma_parsed_digits(base@);
            lemma_near(
                d.negative,
                d.whole + d.fraction,
                if at < word.len() {
                    exponent_value(word@.skip(at + 1))->0
                } else {
                    0
                },
                places as int,
            );
        }
        read_number(
            base,
            negative,
            start,
            point,
            after,
            base.len(),
            exponent - places as i64,
        )
    }

    /// The whole part, towards zero, within what is told apart.
    pub open spec fn truncated(self) -> int {
        held(whole_part(self.digits as int, self.exponent as int))
    }

    /// Whether the number is whole.
    pub open spec fn is_whole(self) -> bool {
        whole_number(self.digits as int, self.exponent as int)
    }

    /// The whole part, towards zero, within what is told apart.
    pub fn trunc(self) -> (r: i128)
        ensures
            r == self.truncated(),
            -HELD <= r <= HELD,
    {
        let mut m: i128 = self.digits;
        let mut e: i16 = self.exponent;
        while e < 0
            invariant
                self.exponent >= 0 ==> e == self.exponent,
                self.exponent < 0 ==> e <= 0,
                whole_part(m as int, e as int) == whole_part(
                    self.digits as int,
                    self.exponent as int,
                ),
            decreases -e,
        {
            m = divide_by_ten(m);
            e += 1;
        }
        while e > 0 && m <= HELD && m >= -HELD
            invariant
                e >= 0,
                whole_part(m as int, e as int) == whole_part(
                    self.digits as int,
                    self.exponent as int,
                ),
            decreases e,
        {
            m = m * 10;
            e -= 1;
        }
        proof {
            lemma_whole_grows(m as int, e as int);
        }
        if m > HELD {
            HELD
        } else if m < -HELD {
            -HELD
        } else {
            m
        }
    }

    /// Whether the number is whole.
    pub fn check_whole(self) -> (r: bool)
        ensures
            r == self.is_whole(),
    {
        let mut m: i128 = self.digits;
        let mut e: i16 = self.exponent;
        while e < 0
            invariant
                whole_number(m as int, e as int) == self.is_whole(),
            decreases -e,
        {
            let t = divide_by_ten(m);
            if t * 10 != m {
                return false;
            }
            m = t;
            e += 1;
        }
        true
    }

    /// How far the digits are from zero.
    pub fn magnitude(self) -> (r: u128)
        ensures
            r == if self.digits < 0 {
                -self.digits
            } else {
                self.digits as int
            },
    {
        if self.digits < 0 {
            (-(self.digits + 1)) as u128 + 1
        } else {
            self.digits as u128
        }
    }

    /// One number less another, with as many digits as a number can have.
    pub open spec fn less(self, other: Decimal) -> Decimal {
        if self.exponent >= other.exponent {
            let (m, e) = raised(
                self.digits as int,
                self.exponent as int,
                other.exponent as int,
            );
            settled(fits(m - lowered(other.digits as int, other.exponent as int, e)), e)
        } else {
            let (m, e) = raised(
                other.digits as int,
                other.exponent as int,
                self.exponent as int,
            );
            settled(fits(lowered(self.digits as int, self.exponent as int, e) - m), e)
        }
    }

    /// The digits times ten as long as there is room and the exponent is above
    /// another.
    fn raise(self, to: i16) -> (r: Decimal)
        ensures
            (r.digits as int, r.exponent as int) == raised(
                self.digits as int,
                self.exponent as int,
                to as int,
            ),
    {
        let mut m: i128 = self.digits;
        let mut e: i16 = self.exponent;
        while e > to && m <= ROOM && m >= -ROOM
            invariant
                raised(m as int, e as int, to as int) == raised(
                    self.digits as int,
                    self.exponent as int,
                    to as int,
                ),
            decreases e - to,
        {
            m = m * 10;
            e -= 1;
        }
        Decimal { digits: m, exponent: e }
    }

    /// The digits without those below a power of ten.
    fn lower(self, to: i16) -> (r: i128)
        ensures
            r == lowered(self.digits as int, self.exponent as int, to as int),
    {
        let mut m: i128 = self.digits;
        let mut e: i16 = self.exponent;
        while e < to
            invariant
                lowered(m as int, e as int, to as int) == lowered(
                    self.digits as int,
                    self.exponent as int,
                    to as int,
                ),
            decreases to - e,
        {
            m = divide_by_ten(m);
            e += 1;
        }
        m
    }

    /// One number less another, with as many digits as a number can have.
    pub fn minus(self, other: Decimal) -> (r: Decimal)
        ensures
            r == self.less(other),
    {
        if self.exponent >= other.exponent {
            let high = self.raise(other.exponent);
            settle(subtract(high.digits, other.lower(high.exponent)), high.exponent)
        } else {
            let high = other.raise(self.exponent);
            settle(subtract(self.lower(high.exponent), high.digits), high.exponent)
        }
    }

    /// The whole part as a count: nothing below zero, and no more than a
    /// count can be.
    pub open spec fn count(self) -> int {
        if self.truncated() < 0 {
            0
        } else if self.truncated() > usize::MAX {
            usize::MAX as int
        } else {
            self.truncated()
        }
    }

    /// The whole part as a count.
    pub fn to_count(self) -> (r: usize)
        ensures
            r == self.count(),
    {
        let t = self.trunc();
        if t < 0 {
            0
        } else if t > usize::MAX as i128 {
            usize::MAX
        } else {
            t as usize
        }
    }

    /// Whether the number is a byte, or between two of them.
    pub open spec fn in_byte(self) -> bool {
        self.digits >= 0 && (self.truncated() < 255 || self.truncated() == 255 && self.is_whole())
    }

    /// Whether the number is a byte, or between two of them.
    pub fn fits_byte(self) -> (r: bool)
        ensures
            r == self.in_byte(),
            r ==> 0 <= self.truncated() <= 255,
    {
        if self.digits < 0 {
            return false;
        }
        proof {
            lemma_whole_sign(self.digits as int, self.exponent as int);
        }
        let t = self.trunc();
        t < 255 || (t == 255 && self.check_whole())
    }
}

proof fn lemma_whole_sign(digits: int, exponent: int)
    requires
        digits >= 0,
    ensures
        whole_part(digits, exponent) >= 0,
    decreases if exponent < 0 { -exponent } else { exponent },
{
    if exponent > 0 {
        lemma_whole_sign(digits * 10, exponent - 1);
    } else if exponent < 0 {
        lemma_whole_sign(tenth(digits), exponent + 1);
    }
}

/// A difference, within 128 bits.
fn subtract(a: i128, b: i128) -> (r: i128)
    ensures
        r == fits(a - b),
{
    match a.checked_sub(b) {
        Some(d) => d,
        None => if b < 0 {
            i128::MAX
        } else {
            i128::MIN
        },
    }
}

// ------------------------------------------------------------- text

/// The decimal digits of a natural number, no more than needed.
pub open spec fn plain_digits(n: nat) -> Seq<u8>
    decreases n,
{
    if n < 10 {
        seq![(n + '0' as u8) as u8]
    } else {
        plain_digits(n / 10).push((n % 10 + '0' as u8) as u8)
    }
}

/// So many zeros.
pub open spec fn zeros(n: int) -> Seq<u8> {
    Seq::new(
        if n < 0 {
            0
        } else {
            n as nat
        },
        |i: int| '0' as u8,
    )
}

/// Digits with a point before the last `places` of them: zeros before the
/// first where there are too few, and none at the end.
pub open spec fn with_point(digits: Seq<u8>, places: int) -> Seq<u8> {
    let all = zeros(places + 1 - digits.len()) + digits;
    let fraction = number::trim_zeros(all.skip(all.len() - places));
    all.take(all.len() - places) + (if fraction.len() > 0 {
        seq!['.' as u8] + fraction
    } else {
        Seq::empty()
    })
}

/// A number written out: sign, whole part, and the fraction without trailing
/// zeros if there is one.
pub open spec fn decimal_text(v: Decimal) -> Seq<u8> {
    let digits = plain_digits(
        (if v.digits < 0 {
            -v.digits
        } else {
            v.digits as int
        }) as nat,
    );
    (if v.digits < 0 {
        seq!['-' as u8]
    } else {
        Seq::empty()
    }) + (if v.exponent >= 0 {
        digits + zeros(v.exponent as int)
    } else {
        with_point(digits, -v.exponent)
    })
}

fn write_plain(n: u128, out: &mut Vec<u8>)
    ensures
        final(out)@ == old(out)@ + plain_digits(n as nat),
    decreases n,
{
    if n >= 10 {
        write_plain(n / 10, out);
    }
    out.push((n % 10) as u8 + ('0' as u8));
    assert(out@ =~= old(out)@ + plain_digits(n as nat));
}

fn write_zeros(n: usize, out: &mut Vec<u8>)
    ensures
        final(out)@ == old(out)@ + zeros(n as int),
{
    let ghost before = out@;
    let mut i: usize = 0;
    assert(out@ =~= before + zeros(0));
    while i < n
        invariant
            i <= n,
            out@ == before + zeros(i as int),
        decreases n - i,
    {
        out.push('0' as u8);
        i += 1;
        assert(out@ =~= before + zeros(i as int));
    }
}

/// Appends digits with a point before the last `places` of them.
fn write_point(digits: &Vec<u8>, places: usize, out: &mut Vec<u8>)
    requires
        0 < places <= 0x8000,
    ensures
        final(out)@ == old(out)@ + with_point(digits@, places as int),
{
    let ghost before = out@;
    let mut all: Vec<u8> = Vec::new();
    if digits.len() <= places {
        write_zeros(places + 1 - digits.len(), &mut all);
    }
    crate::bytes::append(&mut all, digits);
    assert(all@ =~= zeros(places + 1 - digits@.len()) + digits@);
    let split: usize = all.len() - places;
    let whole = crate::bytes::copy_range(&all, 0, split);
    let mut fraction = crate::bytes::copy_range(&all, split, all.len());
    let ghost fixed = all@.skip(all@.len() - places);
    assert(whole@ =~= all@.take(all@.len() - places));
    assert(fraction@ =~= fixed);
    while fraction.len() > 0 && fraction[fraction.len() - 1] == ('0' as u8)
        invariant
            number::trim_zeros(fraction@) == number::trim_zeros(fixed),
        decreases fraction@.len(),
    {
        fraction.pop();
    }
    crate::bytes::append(out, &whole);
    if fraction.len() > 0 {
        out.push('.' as u8);
        crate::bytes::append(out, &fraction);
    }
    assert(out@ =~= before + with_point(digits@, places as int));
}

impl Decimal {
    /// The number written out.
    pub fn to_text(self) -> (r: Vec<u8>)
        ensures
            r@ == decimal_text(self),
    {
        let mut out: Vec<u8> = Vec::new();
        if self.digits < 0 {
            out.push('-' as u8);
        }
        let ghost sign = out@;
        assert(sign =~= if self.digits < 0 {
            seq!['-' as u8]
        } else {
            Seq::<u8>::empty()
        });
        let mut digits: Vec<u8> = Vec::new();
        write_plain(self.magnitude(), &mut digits);
        if self.exponent >= 0 {
            write_zeros(self.exponent as usize, &mut digits);
            crate::bytes::append(&mut out, &digits);
        } else {
            write_point(&digits, (-(self.exponent as i32)) as usize, &mut out);
        }
        assert(out@ =~= decimal_text(self));
        out
    }
}

// ------------------------------------------------------------- laws

/// How far the digits of a number are from zero.
pub open spec fn size_of(v: Decimal) -> nat {
    (if v.digits < 0 {
        -v.digits
    } else {
        v.digits as int
    }) as nat
}

/// Whether a number is one that a word can spell: no zeros at the end of its
/// digits, no more digits than are kept, and no more places than there may be.
pub open spec fn spellable(v: Decimal) -> bool {
    let places = plain_digits(size_of(v)).len() + v.exponent;
    ||| v.digits == 0 && v.exponent == 0
    ||| {
        &&& v.digits as int % 10 != 0
        &&& plain_digits(size_of(v)).len() <= MOST_DIGITS
        &&& LEAST_PLACES <= places <= MOST_PLACES
    }
}

pub proof fn lemma_plain_digits(n: nat)
    ensures
        plain_digits(n).len() >= 1,
        number::digits_only(plain_digits(n)),
        number::digits_value(plain_digits(n)) == n,
        plain_digits(n).last() == (n % 10 + '0' as u8) as u8,
        n > 0 ==> plain_digits(n)[0] != '0' as u8,
    decreases n,
{
    let all = plain_digits(n);
    if n < 10 {
        assert(all.drop_last() =~= Seq::empty());
        assert(number::digits_value(all.drop_last()) == 0);
        assert(number::digits_value(all) == all.last() - '0' as u8);
    } else {
        lemma_plain_digits(n / 10);
        let front = plain_digits(n / 10);
        assert(all.drop_last() =~= front);
        assert(number::digits_value(all) == n / 10 * 10 + (all.last() - '0' as u8));
        assert(all[0] == front[0]);
        assert forall|i: int| 0 <= i < all.len() implies number::digit(#[trigger] all[i]) by {
            if i < front.len() {
                assert(all[i] == front[i]);
            }
        }
    }
}

proof fn lemma_zeros_behind(digits: Seq<u8>, n: nat)
    requires
        number::digits_only(digits),
    ensures
        number::digits_only(digits + zeros(n as int)),
        number::digits_value(digits + zeros(n as int)) == number::digits_value(digits)
            * number::ten_to(n),
    decreases n,
{
    let all = digits + zeros(n as int);
    if n == 0 {
        assert(all =~= digits);
    } else {
        let front = digits + zeros(n - 1);
        lemma_zeros_behind(digits, (n - 1) as nat);
        assert(all.drop_last() =~= front);
        assert(all.last() == '0' as u8);
        let (v, t) = (number::digits_value(digits), number::ten_to((n - 1) as nat));
        assert(v * t * 10 == v * (10 * t)) by (nonlinear_arith);
        assert forall|i: int| 0 <= i < all.len() implies number::digit(#[trigger] all[i]) by {
            if i < front.len() {
                assert(all[i] == front[i]);
            }
        }
    }
}

proof fn lemma_first_behind_zeros(n: nat, digits: Seq<u8>, i: int)
    requires
        0 <= i <= n,
        digits.len() > 0,
        digits[0] != '0' as u8,
    ensures
        first_digit(zeros(n as int) + digits, i) == n,
    decreases n - i,
{
    let all = zeros(n as int) + digits;
    if i < n {
        assert(all[i] == '0' as u8);
        lemma_first_behind_zeros(n, digits, i + 1);
    } else {
        assert(all[i] == digits[0]);
    }
}

proof fn lemma_settled_tens(digits: int, exponent: int, n: nat)
    requires
        digits != 0,
        exponent + n <= i16::MAX,
    ensures
        settled(digits * number::ten_to(n), exponent) == settled(digits, exponent + n),
    decreases n,
{
    if n > 0 {
        let t = number::ten_to((n - 1) as nat);
        let all = digits * number::ten_to(n);
        let less = digits * t;
        assert(all == less * 10) by (nonlinear_arith)
            requires
                all == digits * (10 * t),
                less == digits * t,
        ;
        lemma_ten_positive((n - 1) as nat);
        assert(less != 0) by (nonlinear_arith)
            requires
                less == digits * t,
                digits != 0,
                t >= 1,
        ;
        assert(tenth(all) == less);
        assert(settled(all, exponent) == settled(less, exponent + 1));
        lemma_settled_tens(digits, exponent + 1, (n - 1) as nat);
    }
}

proof fn lemma_ten_positive(n: nat)
    ensures
        number::ten_to(n) >= 1,
    decreases n,
{
    if n > 0 {
        lemma_ten_positive((n - 1) as nat);
    }
}

proof fn lemma_no_exponent(s: Seq<u8>, from: int)
    requires
        0 <= from <= s.len(),
        forall|i: int| 0 <= i < s.len() ==> #[trigger] s[i] == '.' as u8 || s[i] == '-' as u8
            || number::digit(s[i]),
    ensures
        exponent_at(s, from) == s.len(),
    decreases s.len() - from,
{
    if from < s.len() {
        assert(s[from] == '.' as u8 || s[from] == '-' as u8 || number::digit(s[from]));
        lemma_no_exponent(s, from + 1);
    }
}

/// The word of a sign, digits, and a fraction spells the number that the digits
/// make.
proof fn lemma_spelled(word: Seq<u8>, negative: bool, whole: Seq<u8>, fraction: Seq<u8>)
    requires
        number::digits_only(whole),
        number::digits_only(fraction),
        whole.len() > 0,
        word.len() <= 0xFFFF,
        word == (if negative {
            seq!['-' as u8]
        } else {
            Seq::empty()
        }) + whole + (if fraction.len() > 0 {
            seq!['.' as u8] + fraction
        } else {
            Seq::empty()
        }),
    ensures
        decimal_of(word) == number_from(negative, whole + fraction, -(fraction.len() as int)),
{
    let sign: int = if negative {
        1
    } else {
        0
    };
    assert forall|i: int| 0 <= i < word.len() implies #[trigger] word[i] == '.' as u8 || word[i]
        == '-' as u8 || number::digit(word[i]) by {
        if sign <= i < sign + whole.len() {
            assert(word[i] == whole[i - sign]);
        } else if i > sign + whole.len() {
            assert(word[i] == fraction[i - sign - whole.len() - 1]);
        }
    }
    lemma_no_exponent(word, 0);
    assert(word.take(word.len() as int) =~= word);
    number::lemma_parse_digits(word, negative, whole, fraction);
}

proof fn lemma_whole_reads_back(v: Decimal)
    requires
        spellable(v),
        v.exponent >= 0,
    ensures
        decimal_of(decimal_text(v)) == Some(v),
{
    let n = size_of(v);
    let digits = plain_digits(n);
    let negative = v.digits < 0;
    let text = decimal_text(v);
    let e = v.exponent as nat;
    let whole = digits + zeros(e as int);
    lemma_plain_digits(n);
    lemma_zeros_behind(digits, e);
    assert(digits.len() + e <= MOST_PLACES) by {
        if n == 0 {
            assert(digits =~= seq!['0' as u8]);
        }
    }
    assert(text =~= (if negative {
        seq!['-' as u8]
    } else {
        Seq::empty()
    }) + whole + Seq::<u8>::empty());
    lemma_spelled(text, negative, whole, Seq::empty());
    assert(whole + Seq::<u8>::empty() =~= whole);
    if n == 0 {
        assert(digits =~= seq!['0' as u8]);
        assert(whole =~= digits);
        assert(first_digit(whole, 1) == 1);
        assert(first_digit(whole, 0) == 1);
    } else {
        lemma_kept_reads_back(v, whole);
    }
}

proof fn lemma_kept_reads_back(v: Decimal, whole: Seq<u8>)
    requires
        spellable(v),
        v.exponent >= 0,
        v.digits != 0,
        whole == plain_digits(size_of(v)) + zeros(v.exponent as int),
    ensures
        number_from(v.digits < 0, whole, 0) == Some(v),
{
    let n = size_of(v);
    let digits = plain_digits(n);
    let e = v.exponent as int;
    lemma_plain_digits(n);
    assert(whole[0] == digits[0]);
    assert(first_digit(whole, 0) == 0);
    assert(whole.skip(0) =~= whole);
    let kept = if whole.len() > MOST_DIGITS {
        whole.take(MOST_DIGITS as int)
    } else {
        whole
    };
    let extra = (kept.len() - digits.len()) as nat;
    assert(kept =~= digits + zeros(extra as int));
    lemma_zeros_behind(digits, extra);
    let t = number::ten_to(extra);
    let value = number::digits_value(kept);
    assert(value == n * t);
    assert(-(n * t) == (-n) * t) by (nonlinear_arith);
    let signed = if v.digits < 0 {
        -value
    } else {
        value
    };
    assert(signed == v.digits * t);
    lemma_settled_tens(v.digits as int, e - extra, extra);
    assert(settled(v.digits as int, e) == v);
    assert(digits.len() + e - kept.len() == e - extra);
}

proof fn lemma_fraction_reads_back(v: Decimal)
    requires
        spellable(v),
        v.exponent < 0,
    ensures
        decimal_of(decimal_text(v)) == Some(v),
{
    let n = size_of(v);
    let digits = plain_digits(n);
    let negative = v.digits < 0;
    let text = decimal_text(v);
    let places = -v.exponent;
    let lead = zeros(places + 1 - digits.len());
    let all = lead + digits;
    let whole = all.take(all.len() - places);
    let fraction = all.skip(all.len() - places);
    lemma_plain_digits(n);
    assert forall|i: int| 0 <= i < all.len() implies number::digit(#[trigger] all[i]) by {
        if i < lead.len() {
            assert(all[i] == lead[i]);
        } else {
            assert(all[i] == digits[i - lead.len()]);
        }
    }
    assert forall|i: int| 0 <= i < whole.len() implies number::digit(#[trigger] whole[i]) by {
        assert(whole[i] == all[i]);
    }
    assert forall|i: int| 0 <= i < fraction.len() implies number::digit(#[trigger] fraction[i]) by {
        assert(fraction[i] == all[all.len() - places + i]);
    }
    assert(fraction.last() == digits.last());
    assert(n % 10 != 0);
    assert(number::trim_zeros(fraction) == fraction);
    assert(text =~= (if negative {
        seq!['-' as u8]
    } else {
        Seq::empty()
    }) + whole + (seq!['.' as u8] + fraction));
    lemma_spelled(text, negative, whole, fraction);
    assert(whole + fraction =~= all);
    lemma_first_behind_zeros(lead.len(), digits, 0);
    assert(all.skip(lead.len() as int) =~= digits);
    assert(settled(v.digits as int, v.exponent as int) == v);
}

/// A number written out reads back as itself.
pub proof fn written_numbers_read_back(v: Decimal)
    requires
        spellable(v),
    ensures
        decimal_of(decimal_text(v)) == Some(v),
{
    if v.exponent >= 0 {
        lemma_whole_reads_back(v);
    } else {
        lemma_fraction_reads_back(v);
    }
}

proof fn lemma_plain_of_value(s: Seq<u8>)
    requires
        number::digits_only(s),
        s.len() > 0,
        s[0] != '0' as u8,
    ensures
        number::digits_value(s) > 0,
        plain_digits(number::digits_value(s) as nat) == s,
    decreases s.len(),
{
    let front = s.drop_last();
    let last = s.last() - '0' as u8;
    assert(number::digit(s[0]));
    assert(number::digit(s[s.len() - 1]));
    assert(number::digits_value(s) == number::digits_value(front) * 10 + last);
    if s.len() == 1 {
        assert(front =~= Seq::empty());
        assert(number::digits_value(front) == 0);
        assert(plain_digits(last as nat) =~= s);
    } else {
        assert forall|i: int| 0 <= i < front.len() implies number::digit(#[trigger] front[i]) by {
            assert(front[i] == s[i]);
        }
        assert(front[0] == s[0]);
        lemma_plain_of_value(front);
        let v = number::digits_value(s) as nat;
        assert(v / 10 == number::digits_value(front));
        assert(v % 10 == last);
        assert(plain_digits(v) =~= front.push(s.last()));
        assert(front.push(s.last()) =~= s);
    }
}

proof fn lemma_settled_spellable(digits: int, exponent: int)
    requires
        digits != 0,
        -HELD <= digits <= HELD,
        ({
            let n = plain_digits((if digits < 0 { -digits } else { digits }) as nat).len();
            n <= MOST_DIGITS && LEAST_PLACES <= n + exponent <= MOST_PLACES
        }),
    ensures
        spellable(settled(digits, exponent)),
    decreases (if digits < 0 { -digits } else { digits }),
{
    let n = (if digits < 0 {
        -digits
    } else {
        digits
    }) as nat;
    lemma_plain_digits(n);
    if digits % 10 == 0 {
        assert(n % 10 == 0);
        assert(n >= 10);
        let less = tenth(digits);
        assert(less != 0);
        assert(plain_digits(n) == plain_digits(n / 10).push((n % 10 + '0' as u8) as u8));
        lemma_settled_spellable(less, exponent + 1);
    }
}

proof fn lemma_first_counts(digits: Seq<u8>, i: int)
    requires
        0 <= i <= digits.len(),
        first_digit(digits, i) < digits.len(),
    ensures
        digits[first_digit(digits, i)] != '0' as u8,
    decreases digits.len() - i,
{
    if i < digits.len() && digits[i] == '0' as u8 {
        lemma_first_counts(digits, i + 1);
    }
}

/// Every number that a word spells reads back from its own text.
pub proof fn spelled_numbers_read_back(word: Seq<u8>)
    requires
        decimal_of(word) is Some,
    ensures
        spellable(decimal_of(word)->0),
        decimal_of(decimal_text(decimal_of(word)->0)) == decimal_of(word),
{
    let at = exponent_at(word, 0);
    let d = number::parse_number(word.take(at))->0;
    let digits = d.whole + d.fraction;
    let first = first_digit(digits, 0);
    let counting = digits.skip(first);
    number::lemma_parsed_digits(word.take(at));
    lemma_first_digit(digits, 0);
    if counting.len() > 0 {
        let kept = if counting.len() > MOST_DIGITS {
            counting.take(MOST_DIGITS as int)
        } else {
            counting
        };
        lemma_first_counts(digits, 0);
        assert(kept[0] == digits[first]);
        assert forall|i: int| 0 <= i < kept.len() implies number::digit(#[trigger] kept[i]) by {
            assert(kept[i] == digits[first + i]);
            if first + i < d.whole.len() {
                assert(digits[first + i] == d.whole[first + i]);
            } else {
                assert(digits[first + i] == d.fraction[first + i - d.whole.len()]);
            }
        }
        lemma_plain_of_value(kept);
        lemma_value_below(kept);
        lemma_ten_to(kept.len());
        let value = number::digits_value(kept);
        let e = (if at < word.len() {
            exponent_value(word.skip(at + 1))->0
        } else {
            0
        }) - d.fraction.len();
        let places = counting.len() + e;
        if LEAST_PLACES <= places <= MOST_PLACES {
            lemma_settled_spellable(
                if d.negative {
                    -value
                } else {
                    value
                },
                places - kept.len(),
            );
        }
    }
    written_numbers_read_back(decimal_of(word)->0);
}

proof fn lemma_value_below(s: Seq<u8>)
    requires
        number::digits_only(s),
    ensures
        0 <= number::digits_value(s) < number::ten_to(s.len()),
    decreases s.len(),
{
    if s.len() > 0 {
        let front = s.drop_last();
        assert(number::digit(s[s.len() - 1]));
        assert forall|i: int| 0 <= i < front.len() implies number::digit(#[trigger] front[i]) by {
            assert(front[i] == s[i]);
        }
        lemma_value_below(front);
    }
}

} // verus!
