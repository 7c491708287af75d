//! Type 1 charstrings translated to Type 2 (CFF) charstrings.
//!
//! The two languages share their path operators; what differs is what a
//! translation has to reconcile:
//!
//! - `hsbw`/`sbw` become the advance width (which Type 2 carries as an
//!   extra first argument) plus a move to the sidebearing point, which is
//!   where Type 1 leaves the current point.
//! - Subroutines are expanded in place: Type 1 uses them for hint
//!   replacement and flex, neither of which survives the translation.
//! - Flex (OtherSubrs 0 to 2) turns into the Type 2 `flex` operator; the
//!   reference point is folded into the first control point.
//! - `seac` becomes the four-argument `endchar`, with the accent offset
//!   corrected by the composite's own sidebearing minus the accent's.
//! - `div` is evaluated; a fractional result is written as a 16.16
//!   fixed-point number.
//! - Hints (`hstem`, `vstem`, the `stem3` forms, `dotsection`, hint
//!   replacement) are dropped: Type 2 wants every hint before the first
//!   path operator and expresses replacement through masks, and viewers
//!   render unhinted PDF fonts anyway.
//! - `closepath` and `setcurrentpoint` have no Type 2 counterpart and are
//!   dropped, as are the reserved codes a few generators emit.
//!
//! Anything unexpected makes the whole translation fail, so the caller
//! keeps the Type 1 program rather than ship a glyph that lost its shape.
use vstd::prelude::*;

use crate::bytes;
use crate::font::outline;

verus! {

/// How deep subroutines may call each other.
pub const MAX_DEPTH: usize = 30;

// ------------------------------------------------------------- values

/// The greatest numerator or denominator that a value is kept with.
pub const BOUND: i128 = 0x4000_0000_0000_0000;

/// A value on the stack: a fraction.
#[derive(Clone, Copy, Debug, PartialEq, Eq, Structural)]
pub struct Ratio {
    pub num: i128,
    pub den: i128,
}

/// The parts are in range and the denominator is positive.
pub open spec fn in_range(num: int, den: int) -> bool {
    -BOUND <= num <= BOUND && 1 <= den <= BOUND
}

/// The greatest common divisor of two counts.
pub open spec fn gcd(a: int, b: int) -> int
    decreases b,
{
    if b <= 0 {
        a
    } else {
        gcd(b, a % b)
    }
}

/// Two counts halved until both are in range.
pub open spec fn halved(num: int, den: int) -> (int, int)
    decreases num + den,
{
    if num < 0 || den < 0 || (num <= BOUND && den <= BOUND) {
        (num, den)
    } else {
        halved(num / 2, den / 2)
    }
}

/// The parts of a fraction brought in range: as they are, else reduced, else
/// halved together, which drops bits that sixteen binary places do not show.
/// What is not zero stays that. `None` where the fraction is too large.
pub open spec fn fitted(num: int, den: int) -> Option<(int, int)> {
    if num <= BOUND && den <= BOUND {
        Some((num, den))
    } else {
        let (a, b) = halved(num / gcd(num, den), den / gcd(num, den));
        if b == 0 {
            None
        } else if num > 0 && a == 0 {
            Some((1, b))
        } else {
            Some((a, b))
        }
    }
}

/// How far a number is from zero.
pub open spec fn distance(n: int) -> int {
    if n < 0 {
        -n
    } else {
        n
    }
}

/// A fraction with a denominator of either sign; `None` where it is too large
/// or the denominator is zero.
pub open spec fn ratio(num: int, den: int) -> Option<Ratio> {
    if den == 0 {
        None
    } else {
        match fitted(distance(num), distance(den)) {
            None => None,
            Some((a, b)) => if (num < 0) != (den < 0) {
                Some(Ratio { num: (-a) as i128, den: b as i128 })
            } else {
                Some(Ratio { num: a as i128, den: b as i128 })
            },
        }
    }
}

/// Reducing a fraction keeps its value: the divisor divides both parts.
pub proof fn reducing_keeps_the_value(num: int, den: int)
    requires
        num >= 0,
        den >= 0,
        num + den > 0,
    ensures
        gcd(num, den) >= 1,
        num == gcd(num, den) * (num / gcd(num, den)),
        den == gcd(num, den) * (den / gcd(num, den)),
    decreases den,
{
    let g = gcd(num, den);
    if den == 0 {
        assert(num == num * (num / num)) by (nonlinear_arith)
            requires
                num > 0,
        ;
        assert(0 == num * (0int / num)) by (nonlinear_arith)
            requires
                num > 0,
        ;
    } else {
        let q = num / den;
        let r = num % den;
        reducing_keeps_the_value(den, r);
        vstd::arithmetic::div_mod::lemma_fundamental_div_mod(num, den);
        let (x, y) = (den / g, r / g);
        assert(num == (x * q + y) * g) by (nonlinear_arith)
            requires
                num == den * q + r,
                den == g * x,
                r == g * y,
        ;
        vstd::arithmetic::div_mod::lemma_fundamental_div_mod_converse(num, g, x * q + y, 0);
        assert(num == g * (num / g)) by (nonlinear_arith)
            requires
                num == (x * q + y) * g,
                num / g == x * q + y,
        ;
    }
}

/// Bringing a fraction in range keeps its value wherever its reduced parts are
/// in range.
pub proof fn fractions_are_exact(num: int, den: int)
    requires
        num >= 0,
        den >= 1,
        num / gcd(num, den) <= BOUND,
        den / gcd(num, den) <= BOUND,
    ensures
        fitted(num, den) matches Some((a, b)) && b >= 1 && num * b == den * a,
{
    reducing_keeps_the_value(num, den);
    let g = gcd(num, den);
    let (x, y) = (num / g, den / g);
    assert(y >= 1 && x >= 0 && (num > 0 ==> x > 0)) by (nonlinear_arith)
        requires
            num == g * x,
            den == g * y,
            g >= 1,
            num >= 0,
            den >= 1,
    ;
    assert(num * y == den * x) by (nonlinear_arith)
        requires
            num == g * x,
            den == g * y,
    ;
    assert(num * den == den * num) by (nonlinear_arith);
}

proof fn lemma_halved(num: int, den: int)
    requires
        num >= 0,
        den >= 0,
    ensures
        0 <= halved(num, den).0 <= BOUND,
        0 <= halved(num, den).1 <= BOUND,
    decreases num + den,
{
    if num > BOUND || den > BOUND {
        lemma_halved(num / 2, den / 2);
    }
}

impl Ratio {
    pub open spec fn wf(self) -> bool {
        in_range(self.num as int, self.den as int)
    }

    /// The whole part, towards zero.
    pub open spec fn truncated(self) -> int {
        if self.num >= 0 {
            self.num as int / self.den as int
        } else {
            -((-self.num) / self.den as int)
        }
    }

    /// The whole part as a count, nothing below zero.
    pub open spec fn count(self) -> int {
        if self.truncated() < 0 {
            0
        } else {
            self.truncated()
        }
    }

    pub fn whole(i: i32) -> (r: Ratio)
        ensures
            r == whole_ratio(i as int),
            r.wf(),
    {
        Ratio { num: i as i128, den: 1 }
    }

    fn trunc(self) -> (r: i128)
        requires
            self.wf(),
        ensures
            r == self.truncated(),
            -BOUND <= r <= BOUND,
    {
        proof {
            let n = if self.num >= 0 {
                self.num as int
            } else {
                -self.num
            };
            assert(0 <= n / self.den as int <= n) by (nonlinear_arith)
                requires
                    n >= 0,
                    self.den >= 1,
            ;
        }
        if self.num >= 0 {
            self.num / self.den
        } else {
            -((-self.num) / self.den)
        }
    }
}

pub open spec fn whole_ratio(i: int) -> Ratio {
    Ratio { num: i as i128, den: 1 }
}

pub open spec fn divide(a: Ratio, b: Ratio) -> Option<Ratio> {
    if b.num == 0 {
        None
    } else {
        ratio(a.num * b.den, a.den * b.num)
    }
}

pub open spec fn plus(a: Ratio, b: Ratio) -> Option<Ratio> {
    ratio(a.num * b.den + b.num * a.den, a.den * b.den)
}

pub open spec fn minus(a: Ratio, b: Ratio) -> Option<Ratio> {
    ratio(a.num * b.den - b.num * a.den, a.den * b.den)
}

proof fn lemma_product(a: int, b: int)
    requires
        -BOUND <= a <= BOUND,
        -BOUND <= b <= BOUND,
    ensures
        -0x1000_0000_0000_0000_0000_0000_0000_0000 <= a * b
            <= 0x1000_0000_0000_0000_0000_0000_0000_0000,
{
    assert(-0x1000_0000_0000_0000_0000_0000_0000_0000 <= a * b
        <= 0x1000_0000_0000_0000_0000_0000_0000_0000) by (nonlinear_arith)
        requires
            -0x4000_0000_0000_0000 <= a <= 0x4000_0000_0000_0000,
            -0x4000_0000_0000_0000 <= b <= 0x4000_0000_0000_0000,
    ;
}

/// A fraction that is made is in range.
pub proof fn lemma_ratio_in_range(num: int, den: int)
    ensures
        ratio(num, den) is Some ==> ratio(num, den)->0.wf(),
{
    let (n, d) = (distance(num), distance(den));
    if den != 0 && (n > BOUND || d > BOUND) {
        reducing_keeps_the_value(n, d);
        let g = gcd(n, d);
        lemma_quotient(n, g);
        lemma_quotient(d, g);
        lemma_halved(n / g, d / g);
    }
}

fn find_gcd(a: i128, b: i128) -> (r: i128)
    requires
        a >= 0,
        b >= 0,
    ensures
        r == gcd(a as int, b as int),
{
    let mut x: i128 = a;
    let mut y: i128 = b;
    while y > 0
        invariant
            x >= 0,
            y >= 0,
            gcd(x as int, y as int) == gcd(a as int, b as int),
        decreases y,
    {
        let r: i128 = x % y;
        x = y;
        y = r;
    }
    x
}

/// The parts of a fraction brought in range.
fn fit(num: i128, den: i128) -> (r: Option<(i128, i128)>)
    requires
        num >= 0,
        den >= 1,
    ensures
        match r {
            Some((a, b)) => fitted(num as int, den as int) == Some((a as int, b as int)) && 0 <= a
                <= BOUND && 1 <= b <= BOUND,
            None => fitted(num as int, den as int) is None,
        },
{
    if num <= BOUND && den <= BOUND {
        return Some((num, den));
    }
    proof {
        reducing_keeps_the_value(num as int, den as int);
        lemma_quotient(num as int, gcd(num as int, den as int));
        lemma_quotient(den as int, gcd(num as int, den as int));
    }
    let g = find_gcd(num, den);
    let mut a: i128 = num / g;
    let mut b: i128 = den / g;
    let ghost goal = halved(a as int, b as int);
    proof {
        lemma_halved(a as int, b as int);
    }
    while a > BOUND || b > BOUND
        invariant
            a >= 0,
            b >= 0,
            halved(a as int, b as int) == goal,
        decreases a + b,
    {
        a = a / 2;
        b = b / 2;
    }
    if b == 0 {
        None
    } else if num > 0 && a == 0 {
        Some((1, b))
    } else {
        Some((a, b))
    }
}

proof fn lemma_quotient(n: int, d: int)
    requires
        n >= 0,
        d >= 1,
    ensures
        0 <= n / d <= n,
{
    assert(0 <= n / d <= n) by (nonlinear_arith)
        requires
            n >= 0,
            d >= 1,
    ;
}

fn make_ratio(num: i128, den: i128) -> (r: Option<Ratio>)
    requires
        num > i128::MIN,
        den > i128::MIN,
    ensures
        r == ratio(num as int, den as int),
        r is Some ==> r->0.wf(),
{
    if den == 0 {
        return None;
    }
    let n: i128 = if num < 0 {
        -num
    } else {
        num
    };
    let d: i128 = if den < 0 {
        -den
    } else {
        den
    };
    match fit(n, d) {
        Some((a, b)) => if (num < 0) != (den < 0) {
            Some(Ratio { num: -a, den: b })
        } else {
            Some(Ratio { num: a, den: b })
        },
        None => None,
    }
}

fn quotient(a: Ratio, b: Ratio) -> (r: Option<Ratio>)
    requires
        a.wf(),
        b.wf(),
    ensures
        r == divide(a, b),
        r is Some ==> r->0.wf(),
{
    if b.num == 0 {
        return None;
    }
    proof {
        lemma_product(a.num as int, b.den as int);
        lemma_product(a.den as int, b.num as int);
    }
    make_ratio(a.num * b.den, a.den * b.num)
}

fn sum(a: Ratio, b: Ratio) -> (r: Option<Ratio>)
    requires
        a.wf(),
        b.wf(),
    ensures
        r == plus(a, b),
        r is Some ==> r->0.wf(),
{
    proof {
        lemma_product(a.num as int, b.den as int);
        lemma_product(b.num as int, a.den as int);
        lemma_product(a.den as int, b.den as int);
    }
    make_ratio(a.num * b.den + b.num * a.den, a.den * b.den)
}

fn difference(a: Ratio, b: Ratio) -> (r: Option<Ratio>)
    requires
        a.wf(),
        b.wf(),
    ensures
        r == minus(a, b),
        r is Some ==> r->0.wf(),
{
    proof {
        lemma_product(a.num as int, b.den as int);
        lemma_product(b.num as int, a.den as int);
        lemma_product(a.den as int, b.den as int);
    }
    make_ratio(a.num * b.den - b.num * a.den, a.den * b.den)
}

// ------------------------------------------------------------- operands

/// The 16.16 fixed-point form of a value, rounded half away from zero and
/// held inside 32 bits.
pub open spec fn fixed_point(v: Ratio) -> int {
    let n = if v.num < 0 {
        -v.num
    } else {
        v.num as int
    };
    let r = (n * 131072 + v.den) / (2 * v.den);
    if v.num < 0 {
        -r
    } else if r > 0x7FFF_FFFF {
        0x7FFF_FFFF
    } else {
        r
    }
}

/// A Type 2 operand: the shortest integer form when the value is whole,
/// else 16.16 fixed point. Values outside the fixed-point range cannot
/// be expressed.
pub open spec fn operand(v: Ratio) -> Option<Seq<u8>> {
    let whole = v.num as int % v.den as int == 0;
    let q = v.num as int / v.den as int;
    if whole && -107 <= q <= 107 {
        Some(seq![(q + 139) as u8])
    } else if whole && -32768 <= q <= 32767 {
        Some(
            seq![28u8] + bytes::be16(
                if q < 0 {
                    q + 0x1_0000
                } else {
                    q
                },
            ),
        )
    } else if v.num < -32768 * v.den || v.num >= 32768 * v.den {
        None
    } else {
        let f = fixed_point(v);
        Some(
            seq![255u8] + bytes::be32(
                if f < 0 {
                    f + 0x1_0000_0000
                } else {
                    f
                },
            ),
        )
    }
}

/// The operands from `i` on.
pub open spec fn operands(values: Seq<Ratio>, i: int) -> Option<Seq<u8>>
    decreases values.len() - i,
{
    if i < 0 || i >= values.len() {
        Some(Seq::empty())
    } else {
        match (operand(values[i]), operands(values, i + 1)) {
            (Some(first), Some(rest)) => Some(first + rest),
            _ => None,
        }
    }
}

proof fn lemma_fixed_point(v: Ratio)
    requires
        v.wf(),
        -32768 * v.den <= v.num < 32768 * v.den,
    ensures
        -0x8000_0000 <= fixed_point(v) <= 0x7FFF_FFFF,
{
    let n = if v.num < 0 {
        -v.num
    } else {
        v.num as int
    };
    let d = v.den as int;
    assert(0 <= (n * 131072 + d) / (2 * d) <= 0x8000_0000) by (nonlinear_arith)
        requires
            0 <= n <= 32768 * d,
            d >= 1,
    ;
}

/// Appends the operand form of a value.
pub fn encode(v: Ratio, out: &mut Vec<u8>) -> (r: Option<()>)
    requires
        v.wf(),
    ensures
        match operand(v) {
            Some(text) => r is Some && final(out)@ == old(out)@ + text,
            None => r is None,
        },
{
    let ghost before = out@;
    let (n, d) = (v.num, v.den);
    let positive: i128 = if n < 0 {
        -n
    } else {
        n
    };
    let whole = positive % d == 0;
    proof {
        lemma_whole(n as int, d as int);
    }
    if whole {
        let q: i128 = if n < 0 {
            -(positive / d)
        } else {
            n / d
        };
        if q >= -107 && q <= 107 {
            out.push((q + 139) as u8);
            assert(out@ =~= before + seq![(q + 139) as u8]);
            return Some(());
        }
        if q >= -32768 && q <= 32767 {
            let bits: u16 = if q < 0 {
                (q + 0x1_0000) as u16
            } else {
                q as u16
            };
            out.push(28);
            bytes::push_be16(out, bits);
            assert(out@ =~= before + (seq![28u8] + bytes::be16(bits as int)));
            return Some(());
        }
    }
    if n < -32768 * d || n >= 32768 * d {
        return None;
    }
    proof {
        lemma_fixed_point(v);
    }
    let rounded: i128 = (positive * 131072 + d) / (2 * d);
    let bits: u32 = if n < 0 {
        if rounded == 0 {
            0
        } else {
            (0x1_0000_0000 - rounded) as u32
        }
    } else if rounded > 0x7FFF_FFFF {
        0x7FFF_FFFF
    } else {
        rounded as u32
    };
    out.push(255);
    bytes::push_be32(out, bits);
    assert(out@ =~= before + (seq![255u8] + bytes::be32(bits as int)));
    Some(())
}

pub proof fn lemma_whole(n: int, d: int)
    requires
        d >= 1,
    ensures
        ({
            let p = if n < 0 {
                -n
            } else {
                n
            };
            &&& (p % d == 0) == (n % d == 0)
            &&& p % d == 0 && n < 0 ==> n / d == -(p / d)
        }),
{
    let p = if n < 0 {
        -n
    } else {
        n
    };
    if n < 0 {
        vstd::arithmetic::div_mod::lemma_fundamental_div_mod(p, d);
        let q = p / d;
        let r = p % d;
        assert(d * q == q * d) by (nonlinear_arith);
        assert(-q * d == -(q * d)) by (nonlinear_arith);
        assert((-q - 1) * d == -(q * d) - d) by (nonlinear_arith);
        if r == 0 {
            vstd::arithmetic::div_mod::lemma_fundamental_div_mod_converse(n, d, -q, 0);
        } else {
            vstd::arithmetic::div_mod::lemma_fundamental_div_mod_converse(n, d, -q - 1, d - r);
        }
    }
}

/// A Type 1 charstring number at `i`: its value and length. The same one-
/// and two-byte forms as Type 2, and a 32-bit integer after 255 (where Type
/// 2 has fixed point).
pub open spec fn number_at(code: Seq<u8>, i: int) -> Option<(int, int)> {
    let b = code[i] as int;
    if b <= 246 {
        Some((b - 139, 1))
    } else if b <= 250 {
        if i + 1 < code.len() {
            Some(((b - 247) * 256 + code[i + 1] + 108, 2))
        } else {
            None
        }
    } else if b <= 254 {
        if i + 1 < code.len() {
            Some((-((b - 251) * 256 + code[i + 1]) - 108, 2))
        } else {
            None
        }
    } else if i + 4 < code.len() {
        let v = bytes::read_be32(code, i + 1);
        Some(
            (
                if v >= 0x8000_0000 {
                    v - 0x1_0000_0000
                } else {
                    v
                },
                5,
            ),
        )
    } else {
        None
    }
}

fn number(code: &[u8], i: usize) -> (r: Option<(i32, usize)>)
    requires
        i < code.len(),
        code@[i as int] >= 32,
    ensures
        match r {
            Some((v, used)) => number_at(code@, i as int) == Some((v as int, used as int))
                && 1 <= used <= 5 && i + used <= code.len(),
            None => number_at(code@, i as int) is None,
        },
{
    let b = code[i] as i32;
    let left: usize = code.len() - i;
    if b <= 246 {
        Some((b - 139, 1))
    } else if b <= 250 {
        if left > 1 {
            Some(((b - 247) * 256 + code[i + 1] as i32 + 108, 2))
        } else {
            None
        }
    } else if b <= 254 {
        if left > 1 {
            Some((-((b - 251) * 256 + code[i + 1] as i32) - 108, 2))
        } else {
            None
        }
    } else if left > 4 {
        let v = bytes::get_be32(code, i + 1) as i64;
        Some(
            (
                (if v >= 0x8000_0000 {
                    v - 0x1_0000_0000
                } else {
                    v
                }) as i32,
                5,
            ),
        )
    } else {
        None
    }
}

// ------------------------------------------------------------- translation

/// What an operator does to the flow of control.
#[derive(Clone, Copy, Debug, PartialEq, Eq, Structural)]
pub enum Flow {
    Continue,
    Return,
    End,
}

/// The state of a translation.
pub struct State {
    pub stack: Seq<Ratio>,
    /// Values OtherSubrs leave for `pop` to fetch.
    pub returned: Seq<Ratio>,
    pub out: Seq<u8>,
    /// Coordinates collected while a flex is in progress.
    pub flex: Option<Seq<Ratio>>,
    pub width: Ratio,
    pub sidebearing: Ratio,
}

/// The state with the top `n` values written as operands, then the operator,
/// and nothing left on the stack.
pub open spec fn emitted(s: State, n: int, op: Seq<u8>) -> Option<State> {
    if s.stack.len() < n {
        None
    } else {
        match operands(s.stack.skip(s.stack.len() - n), 0) {
            Some(text) => Some(State { stack: Seq::empty(), out: s.out + text + op, ..s }),
            None => None,
        }
    }
}

pub open spec fn cleared(s: State) -> State {
    State { stack: Seq::empty(), ..s }
}

/// `sbx wx hsbw`: the width goes first, then a move to (sbx, 0).
pub open spec fn after_hsbw(s: State) -> Option<State> {
    let n = s.stack.len() as int;
    if n < 2 {
        None
    } else {
        let (sbx, wx) = (s.stack[n - 2], s.stack[n - 1]);
        emitted(
            State { stack: s.stack.take(n - 2) + seq![wx, sbx], width: wx, sidebearing: sbx, ..s },
            2,
            seq![22u8],
        )
    }
}

/// `sbx sby wx wy sbw`: like `hsbw` with a two-dimensional sidebearing.
pub open spec fn after_sbw(s: State) -> Option<State> {
    let n = s.stack.len() as int;
    if n < 4 {
        None
    } else {
        let (sbx, sby, wx) = (s.stack[n - 4], s.stack[n - 3], s.stack[n - 2]);
        emitted(
            State {
                stack: s.stack.take(n - 4) + seq![wx, sbx, sby],
                width: wx,
                sidebearing: sbx,
                ..s
            },
            3,
            seq![21u8],
        )
    }
}

/// A move: a point of the flex in progress, or else the Type 2 operator.
pub open spec fn after_moveto(s: State, op: int) -> Option<State> {
    let n = s.stack.len() as int;
    let arity: int = if op == 21 {
        2
    } else {
        1
    };
    match s.flex {
        Some(points) => if n < arity {
            None
        } else {
            let zero = whole_ratio(0);
            let point = if op == 21 {
                seq![s.stack[n - 2], s.stack[n - 1]]
            } else if op == 22 {
                seq![s.stack[n - 1], zero]
            } else {
                seq![zero, s.stack[n - 1]]
            };
            Some(State { flex: Some(points + point), stack: Seq::empty(), ..s })
        },
        None => emitted(s, arity, seq![op as u8]),
    }
}

pub open spec fn after_div(s: State) -> Option<State> {
    let n = s.stack.len() as int;
    if n < 2 {
        None
    } else {
        match divide(s.stack[n - 2], s.stack[n - 1]) {
            Some(q) => Some(State { stack: s.stack.take(n - 2).push(q), ..s }),
            None => None,
        }
    }
}

/// `asb adx ady bchar achar seac`: Type 2's four-argument `endchar`
/// measures the accent from the composite's origin, so the accent's
/// sidebearing is replaced by the composite's.
pub open spec fn after_seac(s: State) -> Option<State> {
    let n = s.stack.len() as int;
    if n < 5 {
        None
    } else {
        match minus(s.stack[n - 4], s.stack[n - 5]) {
            Some(d) => match plus(d, s.sidebearing) {
                Some(x) => emitted(
                    State {
                        stack: s.stack.take(n - 5) + seq![
                            x,
                            s.stack[n - 3],
                            s.stack[n - 2],
                            s.stack[n - 1],
                        ],
                        ..s
                    },
                    4,
                    seq![14u8],
                ),
                None => None,
            },
            None => None,
        }
    }
}

/// OtherSubrs 0 closes a flex: seven points were collected by the
/// movetos in between (the reference point and six curve points),
/// and the three arguments are the flex height and the end point.
pub open spec fn after_flex(s: State, args: Seq<Ratio>) -> Option<State> {
    match s.flex {
        Some(p) => if p.len() != 14 || args.len() != 3 {
            None
        } else {
            match (plus(p[0], p[2]), plus(p[1], p[3])) {
                (Some(x), Some(y)) => match emitted(
                    State {
                        stack: seq![x, y] + p.subrange(4, 14) + seq![args[0]],
                        flex: None,
                        ..s
                    },
                    13,
                    seq![12u8, 35u8],
                ) {
                    Some(t) => Some(State { returned: seq![args[2], args[1]], ..t }),
                    None => None,
                },
                _ => None,
            }
        },
        None => None,
    }
}

/// `arg1 ... argn n othersubr# callothersubr`.
pub open spec fn after_othersubr(s: State) -> Option<State> {
    let n = s.stack.len() as int;
    if n < 2 {
        None
    } else {
        let count = s.stack[n - 2].count();
        let which = s.stack[n - 1].truncated();
        if n - 2 < count {
            None
        } else {
            let args = s.stack.subrange(n - 2 - count, n - 2);
            let t = State { stack: s.stack.take(n - 2 - count), ..s };
            if which == 0 {
                after_flex(t, args)
            } else if which == 1 {
                Some(State { flex: Some(Seq::empty()), ..t })
            } else if which == 2 {
                Some(t)
            } else {
                // Hint replacement (3) and anything else: the arguments come
                // back through `pop`, top of the PostScript stack first.
                Some(State { returned: args, ..t })
            }
        }
    }
}

pub open spec fn after_pop(s: State) -> Option<State> {
    if s.returned.len() == 0 {
        None
    } else {
        Some(
            State {
                stack: s.stack.push(s.returned.last()),
                returned: s.returned.drop_last(),
                ..s
            },
        )
    }
}

/// How many operands a path operator takes.
pub open spec fn path_arity_of(op: int) -> int {
    if op == 5 {
        2
    } else if op == 30 || op == 31 {
        4
    } else if op == 8 {
        6
    } else {
        1
    }
}

/// What an operator other than `callsubr` does; a two-byte operator counts
/// from 256.
pub open spec fn after_operator(s: State, op: int) -> Option<(State, Flow)> {
    let next: Option<State> = if op == 1 || op == 3 || op == 256 || op == 257 || op == 258 || op
        == 289 {
        // hstem, vstem, dotsection, vstem3, hstem3, setcurrentpoint
        Some(cleared(s))
    } else if op == 9 {
        // closepath
        Some(cleared(s))
    } else if op == 0 || op == 2 || 15 <= op <= 20 || 23 <= op <= 29 {
        // Reserved single-byte codes, which some generators emit.
        Some(cleared(s))
    } else if op == 11 {
        Some(s)
    } else if op == 13 {
        after_hsbw(s)
    } else if op == 14 {
        Some(State { out: s.out.push(14), ..s })
    } else if op == 4 || op == 21 || op == 22 {
        after_moveto(s, op)
    } else if op == 5 || op == 6 || op == 7 || op == 8 || op == 30 || op == 31 {
        emitted(s, path_arity_of(op), seq![op as u8])
    } else if op == 262 {
        after_seac(s)
    } else if op == 263 {
        after_sbw(s)
    } else if op == 268 {
        after_div(s)
    } else if op == 272 {
        after_othersubr(s)
    } else if op == 273 {
        after_pop(s)
    } else {
        None
    };
    match next {
        Some(t) => Some(
            (
                t,
                if op == 11 {
                    Flow::Return
                } else if op == 14 || op == 262 {
                    Flow::End
                } else {
                    Flow::Continue
                },
            ),
        ),
        None => None,
    }
}

/// What the rest of a charstring, from `i` on, does, with `depth` more levels
/// of subroutines allowed: the state after it, and whether the glyph ended.
pub open spec fn run(
    subrs: Seq<Seq<u8>>,
    s: State,
    code: Seq<u8>,
    i: int,
    depth: nat,
) -> Option<(State, bool)>
    decreases depth, code.len() - i,
{
    if i < 0 || i >= code.len() {
        Some((s, false))
    } else if code[i] >= 32 {
        match number_at(code, i) {
            None => None,
            Some((v, used)) => if used < 1 || i + used > code.len() {
                None
            } else {
                run(
                    subrs,
                    State { stack: s.stack.push(whole_ratio(v)), ..s },
                    code,
                    i + used,
                    depth,
                )
            },
        }
    } else if code[i] == 10 {
        if s.stack.len() == 0 {
            None
        } else {
            let n = s.stack.last().count();
            let t = State { stack: s.stack.drop_last(), ..s };
            if n >= subrs.len() || depth == 0 {
                None
            } else {
                match run(subrs, t, subrs[n], 0, (depth - 1) as nat) {
                    None => None,
                    Some((u, true)) => Some((u, true)),
                    Some((u, false)) => run(subrs, u, code, i + 1, depth),
                }
            }
        }
    } else if code[i] == 12 && i + 1 >= code.len() {
        None
    } else {
        let (op, next) = if code[i] == 12 {
            (256 + code[i + 1] as int, i + 2)
        } else {
            (code[i] as int, i + 1)
        };
        match after_operator(s, op) {
            None => None,
            Some((t, Flow::Continue)) => run(subrs, t, code, next, depth),
            Some((t, Flow::Return)) => Some((t, false)),
            Some((t, Flow::End)) => Some((t, true)),
        }
    }
}

/// A translation before its first operator.
pub open spec fn initial() -> State {
    State {
        stack: Seq::empty(),
        returned: Seq::empty(),
        out: Seq::empty(),
        flex: None,
        width: whole_ratio(0),
        sidebearing: whole_ratio(0),
    }
}

/// The subroutines by their bytes.
pub open spec fn subrs_view(subrs: Seq<Vec<u8>>) -> Seq<Seq<u8>> {
    subrs.map_values(|v: Vec<u8>| v@)
}

/// A translated glyph.
#[derive(Debug)]
pub struct Glyph {
    /// Type 2 charstring bytes, width included.
    pub charstring: Vec<u8>,
    pub width: Ratio,
}

struct Translator<'a> {
    subrs: &'a [Vec<u8>],
    stack: Vec<Ratio>,
    returned: Vec<Ratio>,
    out: Vec<u8>,
    flex: Option<Vec<Ratio>>,
    width: Ratio,
    sidebearing: Ratio,
}

spec fn all_wf(s: Seq<Ratio>) -> bool {
    forall|i: int| 0 <= i < s.len() ==> (#[trigger] s[i]).wf()
}

impl<'a> Translator<'a> {
    spec fn state(self) -> State {
        State {
            stack: self.stack@,
            returned: self.returned@,
            out: self.out@,
            flex: match self.flex {
                Some(v) => Some(v@),
                None => None,
            },
            width: self.width,
            sidebearing: self.sidebearing,
        }
    }

    spec fn wf(self) -> bool {
        &&& all_wf(self.stack@)
        &&& all_wf(self.returned@)
        &&& match self.flex {
            Some(v) => all_wf(v@),
            None => true,
        }
        &&& self.width.wf()
        &&& self.sidebearing.wf()
    }

    /// Writes the top `n` stack values as Type 2 operands followed by the
    /// operator, and clears the stack.
    fn emit(&mut self, n: usize, op: &[u8]) -> (r: Option<()>)
        requires
            old(self).wf(),
        ensures
            final(self).subrs == old(self).subrs,
            match emitted(old(self).state(), n as int, op@) {
                Some(s) => r is Some && final(self).state() == s && final(self).wf(),
                None => r is None,
            },
    {
        if self.stack.len() < n {
            return None;
        }
        let start: usize = self.stack.len() - n;
        let ghost before = self.out@;
        let ghost top = self.stack@.skip(start as int);
        let mut i: usize = start;
        proof {
            if let Some(text) = operands(top, 0) {
                assert(Seq::<u8>::empty() + text =~= text);
            }
        }
        let ghost mut done: Seq<u8> = Seq::empty();
        assert(before + done =~= before);
        while i < self.stack.len()
            invariant
                start <= i <= self.stack.len(),
                self.wf(),
                self.subrs == old(self).subrs,
                self.stack == old(self).stack,
                self.returned == old(self).returned,
                self.flex == old(self).flex,
                self.width == old(self).width,
                self.sidebearing == old(self).sidebearing,
                before == old(self).out@,
                top == self.stack@.skip(start as int),
                n == top.len(),
                start == self.stack@.len() - n,
                self.out@ == before + done,
                operands(top, 0) == match operands(top, i - start) {
                    Some(rest) => Some(done + rest),
                    None => None,
                },
            decreases self.stack.len() - i,
        {
            let v = self.stack[i];
            assert(top[i - start] == v);
            match encode(v, &mut self.out) {
                Some(()) => {
                    proof {
                        let text = operand(v)->0;
                        if let Some(rest) = operands(top, i + 1 - start) {
                            assert(done + (text + rest) =~= (done + text) + rest);
                        }
                        assert(before + done + text =~= before + (done + text));
                        done = done + text;
                    }
                },
                None => {
                    return None;
                },
            }
            i += 1;
        }
        bytes::append(&mut self.out, op);
        self.stack.clear();
        proof {
            assert(done + Seq::<u8>::empty() =~= done);
            let s = emitted(old(self).state(), n as int, op@)->0;
            assert(self.out@ =~= s.out);
            assert(self.stack@ =~= s.stack);
            assert(self.state() == s);
        }
        Some(())
    }

    fn hsbw(&mut self) -> (r: Option<()>)
        requires
            old(self).wf(),
        ensures
            final(self).subrs == old(self).subrs,
            match after_hsbw(old(self).state()) {
                Some(s) => r is Some && final(self).state() == s && final(self).wf(),
                None => r is None,
            },
    {
        if self.stack.len() < 2 {
            return None;
        }
        let ghost s0 = self.stack@;
        let wx = self.pop();
        let sbx = self.pop();
        self.width = wx;
        self.sidebearing = sbx;
        self.stack.push(wx);
        self.stack.push(sbx);
        assert(self.stack@ =~= s0.take(s0.len() - 2) + seq![wx, sbx]);
        let op: [u8; 1] = [22];
        assert(op@ =~= seq![22u8]);
        self.emit(2, &op)
    }

    /// The top of the stack, taken off.
    fn pop(&mut self) -> (r: Ratio)
        requires
            old(self).wf(),
            old(self).stack@.len() > 0,
        ensures
            r == old(self).stack@.last(),
            r.wf(),
            final(self).state() == (State {
                stack: old(self).stack@.drop_last(),
                ..old(self).state()
            }),
            final(self).subrs == old(self).subrs,
            final(self).flex == old(self).flex,
            final(self).wf(),
    {
        match self.stack.pop() {
            Some(v) => v,
            None => Ratio { num: 0, den: 1 },
        }
    }

    fn sbw(&mut self) -> (r: Option<()>)
        requires
            old(self).wf(),
        ensures
            final(self).subrs == old(self).subrs,
            match after_sbw(old(self).state()) {
                Some(s) => r is Some && final(self).state() == s && final(self).wf(),
                None => r is None,
            },
    {
        if self.stack.len() < 4 {
            return None;
        }
        let ghost s0 = self.stack@;
        let _wy = self.pop();
        let wx = self.pop();
        let sby = self.pop();
        let sbx = self.pop();
        self.width = wx;
        self.sidebearing = sbx;
        self.stack.push(wx);
        self.stack.push(sbx);
        self.stack.push(sby);
        assert(self.stack@ =~= s0.take(s0.len() - 4) + seq![wx, sbx, sby]);
        let op: [u8; 1] = [21];
        assert(op@ =~= seq![21u8]);
        self.emit(3, &op)
    }

    fn moveto(&mut self, op: u16) -> (r: Option<()>)
        requires
            old(self).wf(),
            op == 4 || op == 21 || op == 22,
        ensures
            final(self).subrs == old(self).subrs,
            match after_moveto(old(self).state(), op as int) {
                Some(s) => r is Some && final(self).state() == s && final(self).wf(),
                None => r is None,
            },
    {
        let arity: usize = if op == 21 {
            2
        } else {
            1
        };
        if self.flex.is_none() {
            let code: [u8; 1] = [op as u8];
            assert(code@ =~= seq![op as u8]);
            return self.emit(arity, &code);
        }
        if self.stack.len() < arity {
            return None;
        }
        let zero = Ratio::whole(0);
        let last = self.pop();
        let (dx, dy) = if op == 21 {
            (self.pop(), last)
        } else if op == 22 {
            (last, zero)
        } else {
            (zero, last)
        };
        let mut points = match self.flex.take() {
            Some(points) => points,
            None => Vec::new(),
        };
        let ghost p0 = points@;
        points.push(dx);
        points.push(dy);
        assert(points@ =~= p0 + seq![dx, dy]);
        self.flex = Some(points);
        self.stack.clear();
        assert(self.stack@ =~= Seq::empty());
        Some(())
    }

    fn div(&mut self) -> (r: Option<()>)
        requires
            old(self).wf(),
        ensures
            final(self).subrs == old(self).subrs,
            match after_div(old(self).state()) {
                Some(s) => r is Some && final(self).state() == s && final(self).wf(),
                None => r is None,
            },
    {
        if self.stack.len() < 2 {
            return None;
        }
        let ghost s0 = self.stack@;
        let b = self.pop();
        let a = self.pop();
        let q = quotient(a, b)?;
        self.stack.push(q);
        assert(self.stack@ =~= s0.take(s0.len() - 2).push(q));
        Some(())
    }

    fn seac(&mut self) -> (r: Option<()>)
        requires
            old(self).wf(),
        ensures
            final(self).subrs == old(self).subrs,
            match after_seac(old(self).state()) {
                Some(s) => r is Some && final(self).state() == s && final(self).wf(),
                None => r is None,
            },
    {
        if self.stack.len() < 5 {
            return None;
        }
        let ghost s0 = self.stack@;
        let achar = self.pop();
        let bchar = self.pop();
        let ady = self.pop();
        let adx = self.pop();
        let asb = self.pop();
        let d = difference(adx, asb)?;
        let x = sum(d, self.sidebearing)?;
        self.stack.push(x);
        self.stack.push(ady);
        self.stack.push(bchar);
        self.stack.push(achar);
        assert(self.stack@ =~= s0.take(s0.len() - 5) + seq![x, ady, bchar, achar]);
        let op: [u8; 1] = [14];
        assert(op@ =~= seq![14u8]);
        self.emit(4, &op)
    }

    fn call_othersubr(&mut self) -> (r: Option<()>)
        requires
            old(self).wf(),
        ensures
            final(self).subrs == old(self).subrs,
            match after_othersubr(old(self).state()) {
                Some(s) => r is Some && final(self).state() == s && final(self).wf(),
                None => r is None,
            },
    {
        if self.stack.len() < 2 {
            return None;
        }
        let ghost s0 = self.stack@;
        let which = self.pop().trunc();
        let n = self.pop().trunc();
        let count: i128 = if n < 0 {
            0
        } else {
            n
        };
        if (self.stack.len() as i128) < count {
            return None;
        }
        let at: usize = self.stack.len() - count as usize;
        let args = self.stack.split_off(at);
        assert(args@ =~= s0.subrange(s0.len() - 2 - count, s0.len() - 2));
        assert(self.stack@ =~= s0.take(s0.len() - 2 - count));
        assert(all_wf(args@)) by {
            assert forall|i: int| 0 <= i < args@.len() implies (#[trigger] args@[i]).wf() by {
                assert(args@[i] == s0[s0.len() - 2 - count + i]);
            }
        }
        if which == 0 {
            self.end_flex(&args)
        } else if which == 1 {
            self.flex = Some(Vec::new());
            assert(self.flex->0@ =~= Seq::empty());
            Some(())
        } else if which == 2 {
            Some(())
        } else {
            self.returned = args;
            Some(())
        }
    }

    fn end_flex(&mut self, args: &Vec<Ratio>) -> (r: Option<()>)
        requires
            old(self).wf(),
            all_wf(args@),
        ensures
            final(self).subrs == old(self).subrs,
            match after_flex(old(self).state(), args@) {
                Some(s) => r is Some && final(self).state() == s && final(self).wf(),
                None => r is None,
            },
    {
        let points = match self.flex.take() {
            Some(points) => points,
            None => {
                return None;
            },
        };
        if points.len() != 14 || args.len() != 3 {
            return None;
        }
        let mut stack: Vec<Ratio> = Vec::new();
        let x = sum(points[0], points[2])?;
        let y = sum(points[1], points[3])?;
        stack.push(x);
        stack.push(y);
        let ghost head = stack@;
        assert(head =~= seq![x, y]);
        let mut i: usize = 4;
        assert(head + points@.subrange(4, 4) =~= head);
        while i < 14
            invariant
                4 <= i <= 14,
                points@.len() == 14,
                all_wf(points@),
                all_wf(stack@),
                stack@ == head + points@.subrange(4, i as int),
            decreases 14 - i,
        {
            stack.push(points[i]);
            assert(stack@ =~= head + points@.subrange(4, i + 1));
            i += 1;
        }
        stack.push(args[0]);
        assert(stack@ =~= head + points@.subrange(4, 14) + seq![args@[0]]);
        self.stack = stack;
        let op: [u8; 2] = [12, 35];
        assert(op@ =~= seq![12u8, 35u8]);
        self.emit(13, &op)?;
        // `pop pop setcurrentpoint` follows and wants the end point.
        let mut returned: Vec<Ratio> = Vec::new();
        returned.push(args[2]);
        returned.push(args[1]);
        assert(returned@ =~= seq![args@[2], args@[1]]);
        self.returned = returned;
        Some(())
    }

    fn pop_result(&mut self) -> (r: Option<()>)
        requires
            old(self).wf(),
        ensures
            final(self).subrs == old(self).subrs,
            match after_pop(old(self).state()) {
                Some(s) => r is Some && final(self).state() == s && final(self).wf(),
                None => r is None,
            },
    {
        match self.returned.pop() {
            Some(v) => {
                assert(v == old(self).returned@[old(self).returned@.len() - 1]);
                self.stack.push(v);
                Some(())
            },
            None => None,
        }
    }

    /// One operator other than `callsubr`.
    fn step(&mut self, op: u16) -> (r: Option<Flow>)
        requires
            old(self).wf(),
        ensures
            final(self).subrs == old(self).subrs,
            match after_operator(old(self).state(), op as int) {
                Some((s, flow)) => r == Some(flow) && final(self).state() == s
                    && final(self).wf(),
                None => r is None,
            },
    {
        if op == 1 || op == 3 || op == 256 || op == 257 || op == 258 || op == 289 || op == 9 || op
            == 0 || op == 2 || (15 <= op && op <= 20) || (23 <= op && op <= 29) {
            self.stack.clear();
            assert(self.stack@ =~= Seq::empty());
            return Some(Flow::Continue);
        }
        if op == 11 {
            return Some(Flow::Return);
        }
        if op == 14 {
            self.out.push(14);
            return Some(Flow::End);
        }
        if op == 262 {
            self.seac()?;
            return Some(Flow::End);
        }
        if op == 13 {
            self.hsbw()?;
        } else if op == 4 || op == 21 || op == 22 {
            self.moveto(op)?;
        } else if op == 5 || op == 6 || op == 7 || op == 8 || op == 30 || op == 31 {
            let code: [u8; 1] = [op as u8];
            assert(code@ =~= seq![op as u8]);
            self.emit(path_arity(op), &code)?;
        } else if op == 263 {
            self.sbw()?;
        } else if op == 268 {
            self.div()?;
        } else if op == 272 {
            self.call_othersubr()?;
        } else if op == 273 {
            self.pop_result()?;
        } else {
            return None;
        }
        Some(Flow::Continue)
    }

    /// Interprets one charstring (the glyph's or a subroutine's). Returns
    /// `Some(true)` when the glyph ended.
    fn run(&mut self, code: &[u8], depth: usize) -> (r: Option<bool>)
        requires
            old(self).wf(),
            depth <= MAX_DEPTH,
        ensures
            final(self).subrs == old(self).subrs,
            match run(
                subrs_view(old(self).subrs@),
                old(self).state(),
                code@,
                0,
                (MAX_DEPTH - depth) as nat,
            ) {
                Some((s, ended)) => r == Some(ended) && final(self).state() == s
                    && final(self).wf(),
                None => r is None,
            },
        decreases MAX_DEPTH - depth,
    {
        let ghost subrs = subrs_view(self.subrs@);
        let ghost start = self.state();
        let ghost level = (MAX_DEPTH - depth) as nat;
        let mut i: usize = 0;
        while i < code.len()
            invariant
                i <= code.len(),
                self.wf(),
                self.subrs == old(self).subrs,
                subrs == subrs_view(self.subrs@),
                depth <= MAX_DEPTH,
                level == MAX_DEPTH - depth,
                start == old(self).state(),
                subrs == subrs_view(old(self).subrs@),
                run(subrs, start, code@, 0, level) == run(
                    subrs,
                    self.state(),
                    code@,
                    i as int,
                    level,
                ),
            decreases code.len() - i,
        {
            let b = code[i];
            if b >= 32 {
                let (v, used) = number(code, i)?;
                let value = Ratio::whole(v);
                self.stack.push(value);
                i += used;
                continue ;
            }
            if b == 10 {
                if self.stack.len() == 0 {
                    return None;
                }
                let n = self.pop().trunc();
                let index: i128 = if n < 0 {
                    0
                } else {
                    n
                };
                let all = self.subrs;
                if index >= all.len() as i128 || depth == MAX_DEPTH {
                    return None;
                }
                assert(subrs[index as int] == all@[index as int]@);
                if self.run(&all[index as usize], depth + 1)? {
                    return Some(true);
                }
                i += 1;
                continue ;
            }
            let op: u16 = if b == 12 {
                if code.len() - i < 2 {
                    return None;
                }
                i += 1;
                256 + code[i] as u16
            } else {
                b as u16
            };
            i += 1;
            match self.step(op)? {
                Flow::Continue => {},
                Flow::Return => {
                    return Some(false);
                },
                Flow::End => {
                    return Some(true);
                },
            }
        }
        Some(false)
    }
}

fn path_arity(op: u16) -> (r: usize)
    ensures
        r == path_arity_of(op as int),
{
    if op == 5 {
        2
    } else if op == 30 || op == 31 {
        4
    } else if op == 8 {
        6
    } else {
        1
    }
}

/// What a Type 1 charstring translates to.
pub open spec fn translated(type1: Seq<u8>, subrs: Seq<Seq<u8>>) -> Option<State> {
    match run(subrs, initial(), type1, 0, MAX_DEPTH as nat) {
        Some((s, _)) => Some(s),
        None => None,
    }
}

/// The Type 2 form of a Type 1 charstring; `None` where anything in it is
/// unexpected.
pub fn to_type2(type1: &[u8], subrs: &[Vec<u8>]) -> (r: Option<Glyph>)
    ensures
        match translated(type1@, subrs_view(subrs@)) {
            Some(s) => r is Some && r->0.charstring@ == s.out && r->0.width == s.width,
            None => r is None,
        },
        r matches Some(g) ==> outline::glyph_draws(
            g.charstring@,
            g.width,
            type1@,
            subrs_view(subrs@),
        ),
{
    proof {
        if translated(type1@, subrs_view(subrs@)) is Some {
            outline::outlines_are_kept(type1@, subrs_view(subrs@));
        }
    }
    let mut t = Translator {
        subrs,
        stack: Vec::new(),
        returned: Vec::new(),
        out: Vec::new(),
        flex: None,
        width: Ratio::whole(0),
        sidebearing: Ratio::whole(0),
    };
    proof {
        assert(t.stack@ =~= Seq::empty() && t.returned@ =~= Seq::empty() && t.out@
            =~= Seq::empty());
        assert(t.state() == initial());
    }
    t.run(type1, 0)?;
    Some(Glyph { charstring: t.out, width: t.width })
}

// ------------------------------------------------------------- laws

/// Whether a fraction is kept exactly: its reduced parts are in range.
pub open spec fn exact(num: int, den: int) -> bool {
    let g = gcd(distance(num), distance(den));
    den != 0 && distance(num) / g <= BOUND && distance(den) / g <= BOUND
}

proof fn lemma_exact(num: int, den: int)
    requires
        exact(num, den),
    ensures
        ratio(num, den) matches Some(r) && r.wf() && r.num * den == num * r.den,
{
    let (n, d) = (distance(num), distance(den));
    fractions_are_exact(n, d);
    lemma_ratio_in_range(num, den);
    let (a, b) = fitted(n, d)->0;
    lemma_fitted_in_range(n, d);
    let r = ratio(num, den)->0;
    assert(n * b == b * n && d * a == a * d) by (nonlinear_arith);
    assert((-a) * den == -(a * den) && (-num) * b == -(num * b)) by (nonlinear_arith);
    assert(a * (-den) == -(a * den) && b * (-num) == -(b * num) && b * num == num * b)
        by (nonlinear_arith);
    assert(r.den == b);
    if (num < 0) != (den < 0) {
        assert(r.num == -a);
    } else {
        assert(r.num == a);
    }
}

proof fn lemma_fitted_in_range(n: int, d: int)
    requires
        n >= 0,
        d >= 1,
    ensures
        fitted(n, d) matches Some((a, b)) ==> 0 <= a <= BOUND && 1 <= b <= BOUND,
{
    if n > BOUND || d > BOUND {
        reducing_keeps_the_value(n, d);
        let g = gcd(n, d);
        lemma_quotient(n, g);
        lemma_quotient(d, g);
        lemma_halved(n / g, d / g);
    }
}

/// A quotient times the divisor is the dividend.
pub proof fn quotients_are_exact(a: Ratio, b: Ratio)
    requires
        a.wf(),
        b.wf(),
        b.num != 0,
        exact(a.num * b.den, a.den * b.num),
    ensures
        divide(a, b) matches Some(q) && q.wf() && (q.num * b.num) * a.den == a.num * (q.den
            * b.den),
{
    lemma_exact(a.num * b.den, a.den * b.num);
    let q = divide(a, b)->0;
    let (qn, qd, an, ad, bn, bd) = (
        q.num as int,
        q.den as int,
        a.num as int,
        a.den as int,
        b.num as int,
        b.den as int,
    );
    assert((qn * bn) * ad == an * (qd * bd)) by (nonlinear_arith)
        requires
            qn * (ad * bn) == (an * bd) * qd,
    ;
}

proof fn lemma_taken_apart(sn: int, sd: int, an: int, ad: int, bn: int, bd: int)
    ensures
        sn * (ad * bd) == (an * bd + bn * ad) * sd ==> (sn * bd - bn * sd) * ad == an * (sd * bd),
{
    let (x, y) = (an * bd, bn * ad);
    assert((x + y) * sd == x * sd + y * sd) by (nonlinear_arith);
    assert((sn * bd - bn * sd) * ad == (sn * bd) * ad - (bn * sd) * ad) by (nonlinear_arith);
    assert((sn * bd) * ad == sn * (ad * bd)) by (nonlinear_arith);
    assert((bn * sd) * ad == y * sd) by (nonlinear_arith)
        requires
            y == bn * ad,
    ;
    assert(an * (sd * bd) == x * sd) by (nonlinear_arith)
        requires
            x == an * bd,
    ;
}

/// A sum less one of its parts is the other, and a difference and what was
/// taken off make up the whole.
pub proof fn sums_are_exact(a: Ratio, b: Ratio)
    requires
        a.wf(),
        b.wf(),
        exact(a.num * b.den + b.num * a.den, a.den * b.den),
        exact(a.num * b.den - b.num * a.den, a.den * b.den),
    ensures
        plus(a, b) matches Some(s) && s.wf() && (s.num * b.den - b.num * s.den) * a.den == a.num * (
        s.den * b.den),
        minus(a, b) matches Some(d) && d.wf() && (d.num * b.den + b.num * d.den) * a.den == a.num * (
        d.den * b.den),
{
    lemma_exact(a.num * b.den + b.num * a.den, a.den * b.den);
    lemma_exact(a.num * b.den - b.num * a.den, a.den * b.den);
    let s = plus(a, b)->0;
    let d = minus(a, b)->0;
    let (an, ad, bn, bd) = (a.num as int, a.den as int, b.num as int, b.den as int);
    let (sn, sd, dn, dd) = (s.num as int, s.den as int, d.num as int, d.den as int);
    lemma_taken_apart(sn, sd, an, ad, bn, bd);
    lemma_taken_apart(dn, dd, an, ad, -bn, bd);
    assert((-bn) * dd == -(bn * dd)) by (nonlinear_arith);
    assert((-bn) * ad == -(bn * ad)) by (nonlinear_arith);
}

/// Whole numbers add up, and count for what they are.
pub proof fn whole_numbers_add_up(x: int, y: int)
    requires
        -BOUND <= x <= BOUND,
        -BOUND <= y <= BOUND,
        -BOUND <= x + y <= BOUND,
        -BOUND <= x - y <= BOUND,
    ensures
        plus(whole_ratio(x), whole_ratio(y)) == Some(whole_ratio(x + y)),
        minus(whole_ratio(x), whole_ratio(y)) == Some(whole_ratio(x - y)),
        whole_ratio(x).truncated() == x,
        whole_ratio(x).count() == if x < 0 {
            0
        } else {
            x
        },
{
    assert(x * 1 == x && y * 1 == y && 1 * 1 == 1) by (nonlinear_arith);
    let (a, b) = (whole_ratio(x), whole_ratio(y));
    assert(a.num * b.den == x && b.num * a.den == y && a.den * b.den == 1);
    assert(fitted(distance(x + y), 1) == Some((distance(x + y), 1int)));
    assert(fitted(distance(x - y), 1) == Some((distance(x - y), 1int)));
}

} // verus!
