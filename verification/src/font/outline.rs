//! What charstrings draw: the strokes of a Type 1 charstring by its operators,
//! and those of a Type 2 charstring by its own. A translation draws the same.
use vstd::prelude::*;

use crate::bytes;
use crate::font::charstring;
use crate::font::charstring::{Flow, Ratio, State};

verus! {

/// What a stroke is.
pub enum Kind {
    /// The advance width.
    Width,
    /// A move by x and y.
    Move,
    /// A line by x and y.
    Line,
    /// A curve: each of the two control points and the end by x and y from
    /// the point before it.
    Curve,
    /// How deep the two curves before it may be flattened.
    Depth,
    /// An accent: its origin by x and y from that of the glyph, the code of the
    /// base and the code of the accent.
    Accent,
}

/// A stroke of a Type 1 charstring.
pub struct Stroke {
    pub kind: Kind,
    pub by: Seq<Ratio>,
}

/// A stroke of a Type 2 charstring, in 65536ths.
pub struct Drawn {
    pub kind: Kind,
    pub by: Seq<int>,
}

/// Whether a count of 65536ths is the one next to a value, away from zero
/// where two are as near. The greatest there is stands for what is just above
/// it.
pub open spec fn near(v: Ratio, u: int) -> bool {
    let off = 2 * (u * v.den) - 131072 * v.num;
    if v.num >= 0 {
        (-v.den < off <= v.den) || (u == 0x7FFF_FFFF && -2 * v.den < off <= v.den)
    } else {
        -v.den <= off < v.den
    }
}

/// Whether two strokes are the same.
pub open spec fn shows(a: Stroke, b: Drawn) -> bool {
    &&& a.kind == b.kind
    &&& a.by.len() == b.by.len()
    &&& forall|i: int| 0 <= i < a.by.len() ==> near(#[trigger] a.by[i], b.by[i])
}

/// Whether two outlines are the same, stroke for stroke.
pub open spec fn same_outline(a: Seq<Stroke>, b: Seq<Drawn>) -> bool {
    &&& a.len() == b.len()
    &&& forall|i: int| 0 <= i < a.len() ==> shows(#[trigger] a[i], b[i])
}

// ------------------------------------------------------------- Type 2

/// A 16-bit number with a sign.
pub open spec fn signed16(v: int) -> int {
    if v >= 0x8000 {
        v - 0x1_0000
    } else {
        v
    }
}

/// A 32-bit number with a sign.
pub open spec fn signed32(v: int) -> int {
    if v >= 0x8000_0000 {
        v - 0x1_0000_0000
    } else {
        v
    }
}

/// The number that a Type 2 charstring starts with, in 65536ths, and how many
/// bytes it has.
pub open spec fn leading_number(code: Seq<u8>) -> Option<(int, int)> {
    let b = code[0] as int;
    if b == 28 {
        if code.len() < 3 {
            None
        } else {
            Some((signed16(bytes::read_be16(code, 1)) * 65536, 3))
        }
    } else if b == 255 {
        if code.len() < 5 {
            None
        } else {
            Some((signed32(bytes::read_be32(code, 1)), 5))
        }
    } else if 32 <= b <= 246 {
        Some(((b - 139) * 65536, 1))
    } else if 247 <= b <= 254 {
        if code.len() < 2 {
            None
        } else if b <= 250 {
            Some((((b - 247) * 256 + code[1] + 108) * 65536, 2))
        } else {
            Some(((-(b - 251) * 256 - code[1] - 108) * 65536, 2))
        }
    } else {
        None
    }
}

/// A stroke by its numbers.
pub open spec fn drawn(kind: Kind, by: Seq<int>) -> Seq<Drawn> {
    seq![Drawn { kind, by }]
}

/// The width that may stand below the arguments of a move.
pub open spec fn leading_width(args: Seq<int>, n: int) -> Seq<Drawn> {
    if args.len() > n {
        drawn(Kind::Width, seq![args[args.len() - n - 1]])
    } else {
        Seq::empty()
    }
}

/// What an operator of a Type 2 charstring draws with its arguments; a two-byte
/// operator counts from 256.
pub open spec fn drawn_by(op: int, a: Seq<int>) -> Option<Seq<Drawn>> {
    let n = a.len() as int;
    if op == 21 && 2 <= n <= 3 {
        // rmoveto: dx dy
        Some(leading_width(a, 2) + drawn(Kind::Move, seq![a[n - 2], a[n - 1]]))
    } else if op == 22 && 1 <= n <= 2 {
        // hmoveto: dx
        Some(leading_width(a, 1) + drawn(Kind::Move, seq![a[n - 1], 0]))
    } else if op == 4 && 1 <= n <= 2 {
        // vmoveto: dy
        Some(leading_width(a, 1) + drawn(Kind::Move, seq![0, a[n - 1]]))
    } else if op == 5 && n == 2 {
        // rlineto: dx dy
        Some(drawn(Kind::Line, a))
    } else if op == 6 && n == 1 {
        // hlineto: dx
        Some(drawn(Kind::Line, seq![a[0], 0]))
    } else if op == 7 && n == 1 {
        // vlineto: dy
        Some(drawn(Kind::Line, seq![0, a[0]]))
    } else if op == 8 && n == 6 {
        // rrcurveto: dxa dya dxb dyb dxc dyc
        Some(drawn(Kind::Curve, a))
    } else if op == 30 && n == 4 {
        // vhcurveto: dy1 dx2 dy2 dx3
        Some(drawn(Kind::Curve, seq![0, a[0], a[1], a[2], a[3], 0]))
    } else if op == 31 && n == 4 {
        // hvcurveto: dx1 dx2 dy2 dy3
        Some(drawn(Kind::Curve, seq![a[0], 0, a[1], a[2], 0, a[3]]))
    } else if op == 256 + 35 && n == 13 {
        // flex: two curves, fd
        Some(
            drawn(Kind::Curve, a.take(6)) + drawn(Kind::Curve, a.subrange(6, 12)) + drawn(
                Kind::Depth,
                seq![a[12]],
            ),
        )
    } else if op == 14 && n == 0 {
        // endchar
        Some(Seq::empty())
    } else if op == 14 && n == 4 {
        // endchar: adx ady bchar achar
        Some(drawn(Kind::Accent, a))
    } else {
        None
    }
}

/// What a Type 2 charstring draws, with arguments at hand and behind what is
/// drawn already.
pub open spec fn read_on(code: Seq<u8>, args: Seq<int>, done: Seq<Drawn>) -> Option<Seq<Drawn>>
    decreases code.len(),
{
    if code.len() == 0 {
        Some(done)
    } else if code[0] >= 32 || code[0] == 28 {
        match leading_number(code) {
            Some((u, n)) => if 0 < n <= code.len() {
                read_on(code.skip(n), args.push(u), done)
            } else {
                None
            },
            None => None,
        }
    } else {
        let (op, n) = if code[0] == 12 && code.len() > 1 {
            (256 + code[1] as int, 2int)
        } else {
            (code[0] as int, 1int)
        };
        match drawn_by(op, args) {
            None => None,
            Some(more) => if op == 14 {
                Some(done + more)
            } else {
                read_on(code.skip(n), Seq::empty(), done + more)
            },
        }
    }
}

/// The outline of a Type 2 charstring.
pub open spec fn type2_outline(code: Seq<u8>) -> Option<Seq<Drawn>> {
    read_on(code, Seq::empty(), Seq::empty())
}

// ------------------------------------------------------------- Type 1

/// Where a Type 1 charstring has come to.
pub struct Pen {
    pub stack: Seq<Ratio>,
    /// What `pop` fetches.
    pub returned: Seq<Ratio>,
    /// The coordinates of a flex in progress.
    pub flex: Option<Seq<Ratio>>,
    pub width: Ratio,
    pub side: Ratio,
    pub strokes: Seq<Stroke>,
}

/// A pen before anything is drawn.
pub open spec fn fresh_pen() -> Pen {
    Pen {
        stack: Seq::empty(),
        returned: Seq::empty(),
        flex: None,
        width: charstring::whole_ratio(0),
        side: charstring::whole_ratio(0),
        strokes: Seq::empty(),
    }
}

/// The pen after a stroke, which takes up the stack.
pub open spec fn stroked(p: Pen, kind: Kind, by: Seq<Ratio>) -> Pen {
    Pen { stack: Seq::empty(), strokes: p.strokes.push(Stroke { kind, by }), ..p }
}

/// The pen after a move: the next point of a flex in progress, or a stroke.
pub open spec fn moved(p: Pen, x: Ratio, y: Ratio) -> Pen {
    match p.flex {
        Some(points) => Pen { stack: Seq::empty(), flex: Some(points + seq![x, y]), ..p },
        None => stroked(p, Kind::Move, seq![x, y]),
    }
}

/// The pen after the sidebearing and the width are set: it is moved to the
/// sidebearing point, outside any flex.
pub open spec fn placed(p: Pen, x: Ratio, y: Ratio, width: Ratio) -> Pen {
    stroked(
        stroked(Pen { width, side: x, ..p }, Kind::Width, seq![width]),
        Kind::Move,
        seq![x, y],
    )
}

/// The pen after a flex: two curves through seven points, of which the first
/// is only what the second is measured from.
pub open spec fn flexed(p: Pen, args: Seq<Ratio>) -> Option<Pen> {
    match p.flex {
        None => None,
        Some(f) => if f.len() != 14 || args.len() != 3 {
            None
        } else {
            match (charstring::plus(f[0], f[2]), charstring::plus(f[1], f[3])) {
                (Some(x), Some(y)) => {
                    let q = Pen { flex: None, ..p };
                    let one = stroked(q, Kind::Curve, seq![x, y, f[4], f[5], f[6], f[7]]);
                    let two = stroked(one, Kind::Curve, seq![f[8], f[9], f[10], f[11], f[12], f[13]]);
                    let three = stroked(two, Kind::Depth, seq![args[0]]);
                    Some(Pen { returned: seq![args[2], args[1]], ..three })
                },
                _ => None,
            }
        },
    }
}

/// The pen after one of the other subroutines.
pub open spec fn assisted(p: Pen) -> Option<Pen> {
    let n = p.stack.len() as int;
    if n < 2 || p.stack[n - 2].count() > n - 2 {
        None
    } else {
        let count = p.stack[n - 2].count();
        let which = p.stack[n - 1].truncated();
        let args = p.stack.subrange(n - 2 - count, n - 2);
        let rest = Pen { stack: p.stack.take(n - 2 - count), ..p };
        if which == 0 {
            flexed(rest, args)
        } else if which == 1 {
            Some(Pen { flex: Some(Seq::empty()), ..rest })
        } else if which == 2 {
            Some(rest)
        } else {
            Some(Pen { returned: args, ..rest })
        }
    }
}

/// The pen after an accented character is put together.
pub open spec fn accented(p: Pen, a: Seq<Ratio>) -> Option<Pen> {
    match charstring::minus(a[1], a[0]) {
        None => None,
        Some(d) => match charstring::plus(d, p.side) {
            None => None,
            Some(x) => Some(stroked(p, Kind::Accent, seq![x, a[2], a[3], a[4]])),
        },
    }
}

/// The pen after an operator other than `callsubr`, and how it goes on.
pub open spec fn performed(p: Pen, op: int) -> Option<(Pen, Flow)> {
    let n = p.stack.len() as int;
    let s = p.stack;
    let zero = charstring::whole_ratio(0);
    if op == 21 && n >= 2 {
        // rmoveto: dx dy
        Some((moved(p, s[n - 2], s[n - 1]), Flow::Continue))
    } else if op == 22 && n >= 1 {
        // hmoveto: dx
        Some((moved(p, s[n - 1], zero), Flow::Continue))
    } else if op == 4 && n >= 1 {
        // vmoveto: dy
        Some((moved(p, zero, s[n - 1]), Flow::Continue))
    } else if op == 5 && n >= 2 {
        // rlineto: dx dy
        Some((stroked(p, Kind::Line, seq![s[n - 2], s[n - 1]]), Flow::Continue))
    } else if op == 6 && n >= 1 {
        // hlineto: dx
        Some((stroked(p, Kind::Line, seq![s[n - 1], zero]), Flow::Continue))
    } else if op == 7 && n >= 1 {
        // vlineto: dy
        Some((stroked(p, Kind::Line, seq![zero, s[n - 1]]), Flow::Continue))
    } else if op == 8 && n >= 6 {
        // rrcurveto: dx1 dy1 dx2 dy2 dx3 dy3
        Some(
            (
                stroked(
                    p,
                    Kind::Curve,
                    seq![s[n - 6], s[n - 5], s[n - 4], s[n - 3], s[n - 2], s[n - 1]],
                ),
                Flow::Continue,
            ),
        )
    } else if op == 30 && n >= 4 {
        // vhcurveto: dy1 dx2 dy2 dx3
        Some(
            (
                stroked(
                    p,
                    Kind::Curve,
                    seq![zero, s[n - 4], s[n - 3], s[n - 2], s[n - 1], zero],
                ),
                Flow::Continue,
            ),
        )
    } else if op == 31 && n >= 4 {
        // hvcurveto: dx1 dx2 dy2 dy3
        Some(
            (
                stroked(
                    p,
                    Kind::Curve,
                    seq![s[n - 4], zero, s[n - 3], s[n - 2], zero, s[n - 1]],
                ),
                Flow::Continue,
            ),
        )
    } else if op == 13 && n >= 2 {
        // hsbw: sbx wx
        Some((placed(p, s[n - 2], zero, s[n - 1]), Flow::Continue))
    } else if op == 256 + 7 && n >= 4 {
        // sbw: sbx sby wx wy
        Some((placed(p, s[n - 4], s[n - 3], s[n - 2]), Flow::Continue))
    } else if op == 256 + 12 && n >= 2 {
        // div: num1 num2
        match charstring::divide(s[n - 2], s[n - 1]) {
            Some(q) => Some((Pen { stack: s.take(n - 2).push(q), ..p }, Flow::Continue)),
            None => None,
        }
    } else if op == 256 + 16 {
        // callothersubr
        match assisted(p) {
            Some(q) => Some((q, Flow::Continue)),
            None => None,
        }
    } else if op == 256 + 17 && p.returned.len() > 0 {
        // pop
        Some(
            (
                Pen {
                    stack: s.push(p.returned.last()),
                    returned: p.returned.drop_last(),
                    ..p
                },
                Flow::Continue,
            ),
        )
    } else if op == 256 + 6 && n >= 5 {
        // seac: asb adx ady bchar achar
        match accented(p, s.skip(n - 5)) {
            Some(q) => Some((q, Flow::End)),
            None => None,
        }
    } else if op == 11 {
        // return
        Some((p, Flow::Return))
    } else if op == 14 {
        // endchar
        Some((p, Flow::End))
    } else if op == 1 || op == 3 || op == 256 || op == 256 + 1 || op == 256 + 2 {
        // hstem, vstem, dotsection, vstem3, hstem3
        Some((Pen { stack: Seq::empty(), ..p }, Flow::Continue))
    } else if op == 9 || op == 256 + 33 {
        // closepath, setcurrentpoint
        Some((Pen { stack: Seq::empty(), ..p }, Flow::Continue))
    } else if op == 0 || op == 2 || 15 <= op <= 20 || 23 <= op <= 29 {
        // reserved
        Some((Pen { stack: Seq::empty(), ..p }, Flow::Continue))
    } else {
        None
    }
}

/// The pen after the rest of a Type 1 charstring, from `i` on, with `depth`
/// more levels of subroutines, and whether the glyph ended.
pub open spec fn pen_after(
    subrs: Seq<Seq<u8>>,
    p: Pen,
    code: Seq<u8>,
    i: int,
    depth: nat,
) -> Option<(Pen, bool)>
    decreases depth, code.len() - i,
{
    if i < 0 || i >= code.len() {
        Some((p, false))
    } else if code[i] >= 32 {
        match charstring::number_at(code, i) {
            Some((v, used)) => if 0 < used && i + used <= code.len() {
                let q = Pen { stack: p.stack.push(charstring::whole_ratio(v)), ..p };
                pen_after(subrs, q, code, i + used, depth)
            } else {
                None
            },
            None => None,
        }
    } else if code[i] == 10 {
        // callsubr
        if p.stack.len() == 0 || depth == 0 || p.stack.last().count() >= subrs.len() {
            None
        } else {
            let q = Pen { stack: p.stack.drop_last(), ..p };
            match pen_after(subrs, q, subrs[p.stack.last().count()], 0, (depth - 1) as nat) {
                None => None,
                Some((u, ended)) => if ended {
                    Some((u, true))
                } else {
                    pen_after(subrs, u, code, i + 1, depth)
                },
            }
        }
    } else {
        let (op, n) = if code[i] == 12 {
            (256 + code[i + 1] as int, 2int)
        } else {
            (code[i] as int, 1int)
        };
        if i + n > code.len() {
            None
        } else {
            match performed(p, op) {
                None => None,
                Some((q, flow)) => match flow {
                    Flow::Continue => pen_after(subrs, q, code, i + n, depth),
                    Flow::Return => Some((q, false)),
                    Flow::End => Some((q, true)),
                },
            }
        }
    }
}

/// The pen after a Type 1 charstring.
pub open spec fn type1_pen(type1: Seq<u8>, subrs: Seq<Seq<u8>>) -> Option<Pen> {
    match pen_after(subrs, fresh_pen(), type1, 0, charstring::MAX_DEPTH as nat) {
        Some((p, _)) => Some(p),
        None => None,
    }
}

/// Whether a Type 2 charstring and a width draw what a Type 1 charstring does.
pub open spec fn glyph_draws(
    type2: Seq<u8>,
    width: Ratio,
    type1: Seq<u8>,
    subrs: Seq<Seq<u8>>,
) -> bool {
    match (type1_pen(type1, subrs), type2_outline(type2)) {
        (Some(pen), Some(outline)) => pen.width == width && same_outline(pen.strokes, outline),
        _ => false,
    }
}

// ------------------------------------------------------------- proof

spec fn all_in_range(s: Seq<Ratio>) -> bool {
    forall|i: int| 0 <= i < s.len() ==> (#[trigger] s[i]).wf()
}

/// What a value is written as, in 65536ths.
spec fn written(v: Ratio) -> int {
    match leading_number(charstring::operand(v)->0) {
        Some((u, _)) => u,
        None => 0,
    }
}

spec fn all_written(values: Seq<Ratio>) -> Seq<int> {
    values.map_values(|v: Ratio| written(v))
}

proof fn lemma_near(v: Ratio)
    requires
        v.wf(),
        charstring::operand(v) is Some,
    ensures
        v.num as int % v.den as int == 0 && -32768 <= v.num as int / v.den as int <= 32767 ==> near(
            v,
            v.num as int / v.den as int * 65536,
        ),
        !(v.num as int % v.den as int == 0 && -32768 <= v.num as int / v.den as int <= 32767)
            ==> near(v, charstring::fixed_point(v)) && -0x8000_0000 <= charstring::fixed_point(v)
            <= 0x7FFF_FFFF,
{
    let (num, d) = (v.num as int, v.den as int);
    let q = num / d;
    vstd::arithmetic::div_mod::lemma_fundamental_div_mod(num, d);
    if num % d == 0 && -32768 <= q <= 32767 {
        let u = q * 65536;
        assert(2 * (u * d) == 131072 * num) by (nonlinear_arith)
            requires
                num == d * q,
                u == q * 65536,
        ;
    } else {
        let n = if num < 0 {
            -num
        } else {
            num
        };
        let top = n * 131072 + d;
        let r = top / (2 * d);
        let m = top % (2 * d);
        vstd::arithmetic::div_mod::lemma_fundamental_div_mod(top, 2 * d);
        assert(2 * d * r == 2 * (r * d)) by (nonlinear_arith);
        assert(0 <= m < 2 * d);
        assert(2 * (r * d) == n * 131072 + d - m);
        assert(0 <= r <= 0x8000_0000) by (nonlinear_arith)
            requires
                2 * (r * d) == n * 131072 + d - m,
                0 <= m < 2 * d,
                0 <= n <= 32768 * d,
                d >= 1,
        ;
        if num < 0 {
            assert(2 * ((-r) * d) == -(2 * (r * d))) by (nonlinear_arith);
        } else if r > 0x7FFF_FFFF {
            assert(r == 0x8000_0000);
            assert(2 * (0x7FFF_FFFF * d) == 2 * (r * d) - 2 * d) by (nonlinear_arith)
                requires
                    r == 0x8000_0000,
            ;
            assert(n < 32768 * d);
        }
    }
}

proof fn lemma_be16_at(b: u8, v: int)
    requires
        0 <= v <= 0xFFFF,
    ensures
        bytes::read_be16(seq![b] + bytes::be16(v), 1) == v,
{
}

proof fn lemma_be32_at(b: u8, v: int)
    requires
        0 <= v <= 0xFFFF_FFFF,
    ensures
        bytes::read_be32(seq![b] + bytes::be32(v), 1) == v,
{
}

/// An operand is a number of a Type 2 charstring, and next to its value.
#[verifier::spinoff_prover]
#[verifier::rlimit(40)]
proof fn lemma_operand(v: Ratio)
    requires
        v.wf(),
        charstring::operand(v) is Some,
    ensures
        ({
            let text = charstring::operand(v)->0;
            &&& text.len() > 0
            &&& text[0] >= 32 || text[0] == 28
            &&& leading_number(text) == Some((written(v), text.len() as int))
            &&& near(v, written(v))
        }),
{
    lemma_near(v);
    let text = charstring::operand(v)->0;
    let q = v.num as int / v.den as int;
    if v.num as int % v.den as int == 0 && -107 <= q <= 107 {
        assert(text[0] == q + 139);
    } else if v.num as int % v.den as int == 0 && -32768 <= q <= 32767 {
        let w = if q < 0 {
            q + 0x1_0000
        } else {
            q
        };
        lemma_be16_at(28u8, w);
        assert(text == seq![28u8] + bytes::be16(w));
    } else {
        let f = charstring::fixed_point(v);
        let w = if f < 0 {
            f + 0x1_0000_0000
        } else {
            f
        };
        lemma_be32_at(255u8, w);
        assert(text == seq![255u8] + bytes::be32(w));
    }
}

proof fn lemma_number_prefix(text: Seq<u8>, rest: Seq<u8>)
    requires
        text.len() > 0,
        leading_number(text) is Some,
    ensures
        leading_number(text + rest) == leading_number(text),
{
    let all = text + rest;
    assert(all[0] == text[0]);
    assert forall|i: int| 0 <= i < text.len() implies all[i] == text[i] by {}
}

proof fn lemma_read_operand(v: Ratio, rest: Seq<u8>, args: Seq<int>, done: Seq<Drawn>)
    requires
        v.wf(),
        charstring::operand(v) is Some,
    ensures
        read_on(charstring::operand(v)->0 + rest, args, done) == read_on(
            rest,
            args.push(written(v)),
            done,
        ),
{
    let text = charstring::operand(v)->0;
    lemma_operand(v);
    lemma_number_prefix(text, rest);
    assert((text + rest)[0] == text[0]);
    assert((text + rest).skip(text.len() as int) =~= rest);
}

proof fn lemma_read_operands(
    values: Seq<Ratio>,
    i: int,
    rest: Seq<u8>,
    args: Seq<int>,
    done: Seq<Drawn>,
)
    requires
        0 <= i <= values.len(),
        all_in_range(values),
        charstring::operands(values, i) is Some,
    ensures
        read_on(charstring::operands(values, i)->0 + rest, args, done) == read_on(
            rest,
            args + all_written(values.skip(i)),
            done,
        ),
    decreases values.len() - i,
{
    let text = charstring::operands(values, i)->0;
    if i == values.len() {
        assert(text + rest =~= rest);
        assert(args + all_written(values.skip(i)) =~= args);
    } else {
        let first = charstring::operand(values[i])->0;
        let more = charstring::operands(values, i + 1)->0;
        assert(text + rest =~= first + (more + rest));
        lemma_read_operand(values[i], more + rest, args, done);
        lemma_read_operands(values, i + 1, rest, args.push(written(values[i])), done);
        assert(args.push(written(values[i])) + all_written(values.skip(i + 1)) =~= args
            + all_written(values.skip(i)));
    }
}

/// Whether a charstring so far draws something, whatever follows.
spec fn reads_as(out: Seq<u8>, done: Seq<Drawn>) -> bool {
    forall|rest: Seq<u8>| #[trigger]
        read_on(out + rest, Seq::empty(), Seq::empty()) == read_on(rest, Seq::empty(), done)
}

/// The bytes of an operator.
spec fn op_bytes(op: int) -> Seq<u8> {
    if op >= 256 {
        seq![12u8, (op - 256) as u8]
    } else {
        seq![op as u8]
    }
}

proof fn lemma_read_op(op: int, rest: Seq<u8>, args: Seq<int>, done: Seq<Drawn>)
    requires
        0 <= op < 512,
        drawn_by(op, args) is Some,
    ensures
        read_on(op_bytes(op) + rest, args, done) == if op == 14 {
            Some(done + drawn_by(op, args)->0)
        } else {
            read_on(rest, Seq::empty(), done + drawn_by(op, args)->0)
        },
{
    let all = op_bytes(op) + rest;
    assert(all[0] == op_bytes(op)[0]);
    if op >= 256 {
        assert(all[1] == op_bytes(op)[1]);
        assert(all.skip(2) =~= rest);
    } else {
        assert(all.skip(1) =~= rest);
    }
}

/// What is emitted draws what the operator draws with the values.
#[verifier::spinoff_prover]
#[verifier::rlimit(40)]
proof fn lemma_emitted(s: State, n: int, op: int, done: Seq<Drawn>)
    requires
        0 <= op < 512,
        0 <= n <= s.stack.len(),
        all_in_range(s.stack),
        reads_as(s.out, done),
        charstring::emitted(s, n, op_bytes(op)) is Some,
        drawn_by(op, all_written(s.stack.skip(s.stack.len() - n))) is Some,
    ensures
        ({
            let t = charstring::emitted(s, n, op_bytes(op))->0;
            let more = drawn_by(op, all_written(s.stack.skip(s.stack.len() - n)))->0;
            &&& op != 14 ==> reads_as(t.out, done + more)
            &&& op == 14 ==> type2_outline(t.out) == Some(done + more)
        }),
{
    let t = charstring::emitted(s, n, op_bytes(op))->0;
    let top = s.stack.skip(s.stack.len() - n);
    let us = all_written(top);
    let text = charstring::operands(top, 0)->0;
    let more = drawn_by(op, us)->0;
    assert(all_in_range(top));
    assert forall|rest: Seq<u8>| #[trigger]
        read_on(t.out + rest, Seq::empty(), Seq::empty()) == (if op == 14 {
            Some(done + more)
        } else {
            read_on(rest, Seq::empty(), done + more)
        }) by {
        let tail = op_bytes(op) + rest;
        assert(t.out + rest =~= s.out + (text + tail));
        assert(read_on(s.out + (text + tail), Seq::empty(), Seq::empty()) == read_on(
            text + tail,
            Seq::empty(),
            done,
        ));
        lemma_read_operands(top, 0, tail, Seq::empty(), done);
        assert(top.skip(0) =~= top);
        assert(Seq::<int>::empty() + us =~= us);
        lemma_read_op(op, rest, us, done);
    }
    if op == 14 {
        assert(t.out + Seq::<u8>::empty() =~= t.out);
        assert(read_on(t.out + Seq::<u8>::empty(), Seq::empty(), Seq::empty()) == Some(
            done + more,
        ));
    }
}

proof fn lemma_all_near(values: Seq<Ratio>, i: int)
    requires
        0 <= i <= values.len(),
        all_in_range(values),
        charstring::operands(values, i) is Some,
    ensures
        forall|k: int| i <= k < values.len() ==> near(#[trigger] values[k], written(values[k])),
    decreases values.len() - i,
{
    if i < values.len() {
        lemma_operand(values[i]);
        lemma_all_near(values, i + 1);
    }
}

proof fn lemma_zero()
    ensures
        near(charstring::whole_ratio(0), 0),
        charstring::whole_ratio(0).wf(),
{
}

proof fn lemma_joined(a: Seq<Stroke>, b: Seq<Drawn>, c: Seq<Stroke>, d: Seq<Drawn>)
    requires
        same_outline(a, b),
        same_outline(c, d),
    ensures
        same_outline(a + c, b + d),
{
    let (x, y) = (a + c, b + d);
    assert forall|i: int| 0 <= i < x.len() implies shows(#[trigger] x[i], y[i]) by {
        if i < a.len() {
            assert(shows(a[i], b[i]));
        } else {
            assert(shows(c[i - a.len()], d[i - a.len()]));
        }
    }
}

/// What a pen and a translation have in common.
spec fn keeps_up(p: Pen, s: State, done: Seq<Drawn>) -> bool {
    &&& p.stack == s.stack
    &&& p.returned == s.returned
    &&& p.flex == s.flex
    &&& p.width == s.width
    &&& p.side == s.sidebearing
    &&& all_in_range(s.stack)
    &&& all_in_range(s.returned)
    &&& s.flex is Some ==> all_in_range(s.flex->0)
    &&& s.sidebearing.wf()
    &&& reads_as(s.out, done)
    &&& same_outline(p.strokes, done)
}

/// A pen and a translation that have come to the end of a glyph.
spec fn finished(p: Pen, s: State, done: Seq<Drawn>) -> bool {
    &&& p.width == s.width
    &&& type2_outline(s.out) == Some(done)
    &&& same_outline(p.strokes, done)
}

/// One emission keeps up with strokes that look like what is drawn.
proof fn lemma_keeps_up(
    p: Pen,
    s: State,
    n: int,
    op: int,
    done: Seq<Drawn>,
    strokes: Seq<Stroke>,
)
    requires
        0 <= op < 512,
        0 <= n <= s.stack.len(),
        all_in_range(s.stack),
        reads_as(s.out, done),
        same_outline(p.strokes, done),
        charstring::emitted(s, n, op_bytes(op)) is Some,
        drawn_by(op, all_written(s.stack.skip(s.stack.len() - n))) is Some,
        same_outline(strokes, drawn_by(op, all_written(s.stack.skip(s.stack.len() - n)))->0),
    ensures
        ({
            let t = charstring::emitted(s, n, op_bytes(op))->0;
            let more = drawn_by(op, all_written(s.stack.skip(s.stack.len() - n)))->0;
            &&& same_outline(p.strokes + strokes, done + more)
            &&& op != 14 ==> reads_as(t.out, done + more)
            &&& op == 14 ==> type2_outline(t.out) == Some(done + more)
        }),
{
    let more = drawn_by(op, all_written(s.stack.skip(s.stack.len() - n)))->0;
    lemma_emitted(s, n, op, done);
    lemma_joined(p.strokes, done, strokes, more);
}

/// The strokes of a path operator other than a move.
spec fn path_strokes(op: int, a: Seq<Ratio>) -> Seq<Stroke> {
    let zero = charstring::whole_ratio(0);
    if op == 6 {
        seq![Stroke { kind: Kind::Line, by: seq![a[0], zero] }]
    } else if op == 7 {
        seq![Stroke { kind: Kind::Line, by: seq![zero, a[0]] }]
    } else if op == 5 {
        seq![Stroke { kind: Kind::Line, by: a }]
    } else if op == 8 {
        seq![Stroke { kind: Kind::Curve, by: a }]
    } else if op == 30 {
        seq![Stroke { kind: Kind::Curve, by: seq![zero, a[0], a[1], a[2], a[3], zero] }]
    } else {
        seq![Stroke { kind: Kind::Curve, by: seq![a[0], zero, a[1], a[2], zero, a[3]] }]
    }
}

/// What a path operator draws looks like its strokes.
proof fn lemma_path_shown(op: int, top: Seq<Ratio>, us: Seq<int>)
    requires
        op == 5 || op == 6 || op == 7 || op == 8 || op == 30 || op == 31,
        top.len() == charstring::path_arity_of(op),
        us.len() == top.len(),
        forall|k: int| 0 <= k < top.len() ==> near(#[trigger] top[k], us[k]),
    ensures
        drawn_by(op, us) matches Some(more) && same_outline(path_strokes(op, top), more),
{
    lemma_zero();
    let zero = charstring::whole_ratio(0);
    let strokes = path_strokes(op, top);
    let more = drawn_by(op, us)->0;
    assert(near(top[0], us[0]));
    if op == 30 || op == 31 {
        assert(near(top[1], us[1]) && near(top[2], us[2]) && near(top[3], us[3]));
    }
    assert(shows(strokes[0], more[0]));
}

/// What a path operator does to the pen.
proof fn lemma_path_performed(p: Pen, op: int)
    requires
        op == 5 || op == 6 || op == 7 || op == 8 || op == 30 || op == 31,
        p.stack.len() >= charstring::path_arity_of(op),
    ensures
        ({
            let top = p.stack.skip(p.stack.len() - charstring::path_arity_of(op));
            performed(p, op) == Some(
                (
                    Pen {
                        stack: Seq::empty(),
                        strokes: p.strokes + path_strokes(op, top),
                        ..p
                    },
                    Flow::Continue,
                ),
            )
        }),
{
    let n = charstring::path_arity_of(op);
    let top = p.stack.skip(p.stack.len() - n);
    let strokes = path_strokes(op, top);
    let (r, _) = performed(p, op)->0;
    assert(strokes[0].by =~= r.strokes.last().by);
    assert(r.strokes =~= p.strokes + strokes);
}

#[verifier::spinoff_prover]
#[verifier::rlimit(40)]
proof fn lemma_path_step(p: Pen, s: State, done: Seq<Drawn>, op: int) -> (after: Seq<Drawn>)
    requires
        keeps_up(p, s, done),
        op == 5 || op == 6 || op == 7 || op == 8 || op == 30 || op == 31,
        charstring::after_operator(s, op) is Some,
    ensures
        ({
            let (t, flow) = charstring::after_operator(s, op)->0;
            &&& performed(p, op) matches Some((q, f)) && f == flow && flow == Flow::Continue
                && keeps_up(q, t, after)
        }),
{
    let n = charstring::path_arity_of(op);
    let top = s.stack.skip(s.stack.len() - n);
    let us = all_written(top);
    assert(all_in_range(top));
    lemma_all_near(top, 0);
    assert forall|k: int| 0 <= k < top.len() implies near(#[trigger] top[k], us[k]) by {
        assert(us[k] == written(top[k]));
    }
    lemma_path_shown(op, top, us);
    let strokes = path_strokes(op, top);
    let more = drawn_by(op, us)->0;
    lemma_keeps_up(p, s, n, op, done, strokes);
    lemma_path_performed(p, op);
    done + more
}

#[verifier::spinoff_prover]
#[verifier::rlimit(40)]
proof fn lemma_move_step(p: Pen, s: State, done: Seq<Drawn>, op: int) -> (after: Seq<Drawn>)
    requires
        keeps_up(p, s, done),
        op == 4 || op == 21 || op == 22,
        charstring::after_operator(s, op) is Some,
    ensures
        ({
            let (t, flow) = charstring::after_operator(s, op)->0;
            &&& performed(p, op) matches Some((q, f)) && f == flow && flow == Flow::Continue
                && keeps_up(q, t, after)
        }),
{
    let m = s.stack.len() as int;
    let zero = charstring::whole_ratio(0);
    lemma_zero();
    let (t, _) = charstring::after_operator(s, op)->0;
    let (r, _) = performed(p, op)->0;
    if s.flex is Some {
        assert(t.flex->0 =~= r.flex->0);
        assert(all_in_range(t.flex->0));
        assert(t.stack =~= r.stack);
        done
    } else {
        let n: int = if op == 21 {
            2
        } else {
            1
        };
        let top = s.stack.skip(m - n);
        let us = all_written(top);
        assert(all_in_range(top));
        lemma_all_near(top, 0);
        let by = if op == 21 {
            seq![top[0], top[1]]
        } else if op == 22 {
            seq![top[0], zero]
        } else {
            seq![zero, top[0]]
        };
        let strokes = seq![Stroke { kind: Kind::Move, by }];
        let more = drawn_by(op, us)->0;
        assert(leading_width(us, n) =~= Seq::empty());
        assert(more =~= drawn(
            Kind::Move,
            if op == 21 {
                seq![us[0], us[1]]
            } else if op == 22 {
                seq![us[0], 0]
            } else {
                seq![0, us[0]]
            },
        ));
        assert(shows(strokes[0], more[0]));
        assert(same_outline(strokes, more));
        lemma_keeps_up(p, s, n, op, done, strokes);
        assert(r.strokes =~= p.strokes + strokes) by {
            assert(r.strokes.last().by =~= by);
        }
        done + more
    }
}

/// The width and the sidebearing.
#[verifier::spinoff_prover]
#[verifier::rlimit(40)]
proof fn lemma_place_step(p: Pen, s: State, done: Seq<Drawn>, op: int) -> (after: Seq<Drawn>)
    requires
        keeps_up(p, s, done),
        op == 13 || op == 263,
        charstring::after_operator(s, op) is Some,
    ensures
        ({
            let (t, flow) = charstring::after_operator(s, op)->0;
            &&& performed(p, op) matches Some((q, f)) && f == flow && flow == Flow::Continue
                && keeps_up(q, t, after)
        }),
{
    let m = s.stack.len() as int;
    let zero = charstring::whole_ratio(0);
    lemma_zero();
    let (t, _) = charstring::after_operator(s, op)->0;
    let (r, _) = performed(p, op)->0;
    let values = if op == 13 {
        seq![s.stack[m - 1], s.stack[m - 2]]
    } else {
        seq![s.stack[m - 2], s.stack[m - 4], s.stack[m - 3]]
    };
    let n = values.len() as int;
    let out = if op == 13 {
        22int
    } else {
        21
    };
    let mid = State {
        stack: s.stack.take(m - if op == 13 {
            2int
        } else {
            4
        }) + values,
        width: values[0],
        sidebearing: values[1],
        ..s
    };
    assert(mid.stack.skip(mid.stack.len() - n) =~= values);
    assert(all_in_range(mid.stack)) by {
        assert forall|i: int| 0 <= i < mid.stack.len() implies (#[trigger] mid.stack[i]).wf() by {
            if i >= mid.stack.len() - n {
                assert(mid.stack[i] == values[i - (mid.stack.len() - n)]);
            } else {
                assert(mid.stack[i] == s.stack[i]);
            }
        }
    }
    assert(all_in_range(values)) by {
        assert forall|i: int| 0 <= i < values.len() implies (#[trigger] values[i]).wf() by {
            assert(values[i] == mid.stack[mid.stack.len() - n + i]);
        }
    }
    assert(charstring::emitted(mid, n, op_bytes(out)) == Some(t));
    lemma_all_near(values, 0);
    let us = all_written(values);
    let y = if op == 13 {
        zero
    } else {
        values[2]
    };
    let strokes = seq![
        Stroke { kind: Kind::Width, by: seq![values[0]] },
        Stroke { kind: Kind::Move, by: seq![values[1], y] },
    ];
    let more = drawn_by(out, us)->0;
    assert(more.len() == 2);
    assert(more[0].by =~= seq![us[0]]);
    assert(shows(strokes[0], more[0]));
    assert(shows(strokes[1], more[1]));
    assert(same_outline(strokes, more));
    lemma_keeps_up(p, mid, n, out, done, strokes);
    assert(r.strokes =~= p.strokes + strokes);
    done + more
}

#[verifier::spinoff_prover]
#[verifier::rlimit(40)]
proof fn lemma_accent_step(p: Pen, s: State, done: Seq<Drawn>) -> (after: Seq<Drawn>)
    requires
        keeps_up(p, s, done),
        charstring::after_operator(s, 262) is Some,
    ensures
        ({
            let (t, flow) = charstring::after_operator(s, 262)->0;
            &&& performed(p, 262) matches Some((q, f)) && f == flow && flow == Flow::End
                && finished(q, t, after)
        }),
{
    let m = s.stack.len() as int;
    let (t, _) = charstring::after_operator(s, 262)->0;
    let a = s.stack.skip(m - 5);
    let d = charstring::minus(a[1], a[0])->0;
    let x = charstring::plus(d, s.sidebearing)->0;
    charstring::lemma_ratio_in_range(a[1].num * a[0].den - a[0].num * a[1].den, a[1].den * a[0].den);
    charstring::lemma_ratio_in_range(
        d.num * s.sidebearing.den + s.sidebearing.num * d.den,
        d.den * s.sidebearing.den,
    );
    let values = seq![x, a[2], a[3], a[4]];
    let mid = State { stack: s.stack.take(m - 5) + values, ..s };
    assert(mid.stack =~= s.stack.take(m - 5) + seq![
        x,
        s.stack[m - 3],
        s.stack[m - 2],
        s.stack[m - 1],
    ]);
    assert(mid.stack.skip(mid.stack.len() - 4) =~= values);
    assert(all_in_range(mid.stack)) by {
        assert forall|i: int| 0 <= i < mid.stack.len() implies (#[trigger] mid.stack[i]).wf() by {
            if i >= m - 5 {
                assert(mid.stack[i] == values[i - (m - 5)]);
            } else {
                assert(mid.stack[i] == s.stack[i]);
            }
        }
    }
    assert(all_in_range(values));
    assert(charstring::emitted(mid, 4, op_bytes(14)) == Some(t));
    lemma_all_near(values, 0);
    let us = all_written(values);
    let strokes = seq![Stroke { kind: Kind::Accent, by: values }];
    let more = drawn_by(14, us)->0;
    assert(shows(strokes[0], more[0]));
    assert(same_outline(strokes, more));
    lemma_keeps_up(p, mid, 4, 14, done, strokes);
    let (r, _) = performed(p, 262)->0;
    assert(r.strokes =~= p.strokes + strokes);
    done + more
}

#[verifier::spinoff_prover]
#[verifier::rlimit(40)]
proof fn lemma_flex_step(p: Pen, s: State, args: Seq<Ratio>, done: Seq<Drawn>) -> (after: Seq<
    Drawn,
>)
    requires
        keeps_up(p, s, done),
        all_in_range(args),
        charstring::after_flex(s, args) is Some,
    ensures
        flexed(p, args) is Some,
        keeps_up(flexed(p, args)->0, charstring::after_flex(s, args)->0, after),
{
    let f = s.flex->0;
    let t = charstring::after_flex(s, args)->0;
    let r = flexed(p, args)->0;
    let x = charstring::plus(f[0], f[2])->0;
    let y = charstring::plus(f[1], f[3])->0;
    charstring::lemma_ratio_in_range(f[0].num * f[2].den + f[2].num * f[0].den, f[0].den * f[2].den);
    charstring::lemma_ratio_in_range(f[1].num * f[3].den + f[3].num * f[1].den, f[1].den * f[3].den);
    let values = seq![x, y] + f.subrange(4, 14) + seq![args[0]];
    let mid = State { stack: values, flex: None, ..s };
    assert(all_in_range(values)) by {
        assert forall|i: int| 0 <= i < values.len() implies (#[trigger] values[i]).wf() by {
            if 2 <= i < 12 {
                assert(values[i] == f[i + 2]);
            }
        }
    }
    assert(values.skip(values.len() - 13) =~= values);
    assert(op_bytes(291) =~= seq![12u8, 35u8]);
    assert(charstring::emitted(mid, 13, op_bytes(291)) is Some);
    lemma_all_near(values, 0);
    let us = all_written(values);
    let strokes = seq![
        Stroke { kind: Kind::Curve, by: seq![x, y, f[4], f[5], f[6], f[7]] },
        Stroke { kind: Kind::Curve, by: seq![f[8], f[9], f[10], f[11], f[12], f[13]] },
        Stroke { kind: Kind::Depth, by: seq![args[0]] },
    ];
    let more = drawn_by(291, us)->0;
    assert(strokes[0].by =~= values.take(6));
    assert(strokes[1].by =~= values.subrange(6, 12));
    assert(strokes[2].by =~= seq![values[12]]);
    assert(more.len() == 3);
    assert(more[0].by =~= us.take(6));
    assert(more[1].by =~= us.subrange(6, 12));
    assert(more[2].by =~= seq![us[12]]);
    assert(shows(strokes[0], more[0]));
    assert(shows(strokes[1], more[1])) by {
        assert forall|i: int| 0 <= i < 6 implies near(
            #[trigger] strokes[1].by[i],
            more[1].by[i],
        ) by {
            assert(strokes[1].by[i] == values[i + 6]);
            assert(more[1].by[i] == us[i + 6]);
        }
    }
    assert(shows(strokes[2], more[2]));
    assert(same_outline(strokes, more));
    lemma_keeps_up(p, mid, 13, 291, done, strokes);
    assert(r.strokes =~= p.strokes + strokes);
    assert(all_in_range(t.returned));
    done + more
}

#[verifier::spinoff_prover]
#[verifier::rlimit(40)]
proof fn lemma_assist_step(p: Pen, s: State, done: Seq<Drawn>) -> (after: Seq<Drawn>)
    requires
        keeps_up(p, s, done),
        charstring::after_othersubr(s) is Some,
    ensures
        assisted(p) is Some,
        keeps_up(assisted(p)->0, charstring::after_othersubr(s)->0, after),
{
    let m = s.stack.len() as int;
    let count = s.stack[m - 2].count();
    let which = s.stack[m - 1].truncated();
    let args = s.stack.subrange(m - 2 - count, m - 2);
    let t = State { stack: s.stack.take(m - 2 - count), ..s };
    let q = Pen { stack: p.stack.take(m - 2 - count), ..p };
    assert(all_in_range(args)) by {
        assert forall|i: int| 0 <= i < args.len() implies (#[trigger] args[i]).wf() by {
            assert(args[i] == s.stack[m - 2 - count + i]);
        }
    }
    assert(all_in_range(t.stack));
    assert(keeps_up(q, t, done));
    if which == 0 {
        lemma_flex_step(q, t, args, done)
    } else {
        done
    }
}

/// One operator draws the same in both.
#[verifier::spinoff_prover]
#[verifier::rlimit(40)]
proof fn lemma_step(p: Pen, s: State, done: Seq<Drawn>, op: int) -> (after: Seq<Drawn>)
    requires
        keeps_up(p, s, done),
        0 <= op < 512,
        op != 10,
        charstring::after_operator(s, op) is Some,
    ensures
        ({
            let (t, flow) = charstring::after_operator(s, op)->0;
            &&& performed(p, op) matches Some((q, f)) && f == flow && (if flow == Flow::End {
                finished(q, t, after)
            } else {
                keeps_up(q, t, after)
            })
        }),
{
    let m = s.stack.len() as int;
    if op == 5 || op == 6 || op == 7 || op == 8 || op == 30 || op == 31 {
        lemma_path_step(p, s, done, op)
    } else if op == 4 || op == 21 || op == 22 {
        lemma_move_step(p, s, done, op)
    } else if op == 13 || op == 263 {
        lemma_place_step(p, s, done, op)
    } else if op == 262 {
        lemma_accent_step(p, s, done)
    } else if op == 272 {
        lemma_assist_step(p, s, done)
    } else if op == 268 {
        let (a, b) = (s.stack[m - 2], s.stack[m - 1]);
        charstring::lemma_ratio_in_range(a.num * b.den, a.den * b.num);
        done
    } else if op == 14 {
        let (t, _) = charstring::after_operator(s, op)->0;
        let end = seq![14u8];
        assert(t.out =~= s.out + end);
        assert(read_on(s.out + end, Seq::empty(), Seq::empty()) == read_on(
            end,
            Seq::empty(),
            done,
        ));
        assert(drawn_by(14, Seq::empty()) == Some(Seq::<Drawn>::empty()));
        assert(done + Seq::<Drawn>::empty() =~= done);
        done
    } else {
        done
    }
}

#[verifier::spinoff_prover]
#[verifier::rlimit(40)]
proof fn lemma_run(
    subrs: Seq<Seq<u8>>,
    p: Pen,
    s: State,
    done: Seq<Drawn>,
    code: Seq<u8>,
    i: int,
    depth: nat,
) -> (after: Seq<Drawn>)
    requires
        keeps_up(p, s, done),
        charstring::run(subrs, s, code, i, depth) is Some,
    ensures
        ({
            let (t, ended) = charstring::run(subrs, s, code, i, depth)->0;
            &&& pen_after(subrs, p, code, i, depth) matches Some((q, e)) && e == ended && (if ended {
                finished(q, t, after)
            } else {
                keeps_up(q, t, after)
            })
        }),
    decreases depth, code.len() - i,
{
    if i < 0 || i >= code.len() {
        done
    } else if code[i] >= 32 {
        let (v, used) = charstring::number_at(code, i)->0;
        lemma_whole_value(code, i);
        let s2 = State { stack: s.stack.push(charstring::whole_ratio(v)), ..s };
        let p2 = Pen { stack: p.stack.push(charstring::whole_ratio(v)), ..p };
        assert(keeps_up(p2, s2, done));
        lemma_run(subrs, p2, s2, done, code, i + used, depth)
    } else if code[i] == 10 {
        let n = s.stack.last().count();
        let s2 = State { stack: s.stack.drop_last(), ..s };
        let p2 = Pen { stack: p.stack.drop_last(), ..p };
        assert(keeps_up(p2, s2, done));
        let mid = lemma_run(subrs, p2, s2, done, subrs[n], 0, (depth - 1) as nat);
        let (u, ended) = charstring::run(subrs, s2, subrs[n], 0, (depth - 1) as nat)->0;
        if ended {
            mid
        } else {
            let (q, _) = pen_after(subrs, p2, subrs[n], 0, (depth - 1) as nat)->0;
            lemma_run(subrs, q, u, mid, code, i + 1, depth)
        }
    } else {
        let (op, next) = if code[i] == 12 {
            (256 + code[i + 1] as int, i + 2)
        } else {
            (code[i] as int, i + 1)
        };
        let mid = lemma_step(p, s, done, op);
        let (t, flow) = charstring::after_operator(s, op)->0;
        if flow == Flow::Continue {
            let (q, _) = performed(p, op)->0;
            lemma_run(subrs, q, t, mid, code, next, depth)
        } else {
            mid
        }
    }
}

proof fn lemma_whole_value(code: Seq<u8>, i: int)
    requires
        0 <= i < code.len(),
        code[i] >= 32,
        charstring::number_at(code, i) is Some,
    ensures
        ({
            let (v, used) = charstring::number_at(code, i)->0;
            charstring::whole_ratio(v).wf()
        }),
{
    let (v, used) = charstring::number_at(code, i)->0;
    assert(-0x8000_0000 <= v <= 0x7FFF_FFFF);
}

// ------------------------------------------------------------- laws

/// Whatever translates draws what it drew: the strokes of the Type 2
/// charstring, by the operators of its language, are those of the Type 1
/// charstring by its own, one for one, with every coordinate the nearest that
/// sixteen binary places can show; and the glyph has its width.
pub proof fn outlines_are_kept(type1: Seq<u8>, subrs: Seq<Seq<u8>>)
    requires
        charstring::translated(type1, subrs) is Some,
    ensures
        ({
            let s = charstring::translated(type1, subrs)->0;
            glyph_draws(s.out, s.width, type1, subrs)
        }),
{
    let none = Seq::<Drawn>::empty();
    let depth = charstring::MAX_DEPTH as nat;
    assert forall|rest: Seq<u8>| #[trigger]
        read_on(Seq::<u8>::empty() + rest, Seq::empty(), Seq::empty()) == read_on(
            rest,
            Seq::empty(),
            none,
        ) by {
        assert(Seq::<u8>::empty() + rest =~= rest);
    }
    assert(keeps_up(fresh_pen(), charstring::initial(), none));
    let after = lemma_run(subrs, fresh_pen(), charstring::initial(), none, type1, 0, depth);
    let (t, ended) = charstring::run(subrs, charstring::initial(), type1, 0, depth)->0;
    if !ended {
        assert(t.out + Seq::<u8>::empty() =~= t.out);
        assert(read_on(t.out + Seq::<u8>::empty(), Seq::empty(), Seq::empty()) == read_on(
            Seq::empty(),
            Seq::empty(),
            after,
        ));
    }
}

/// Whether a Type 2 charstring can hold a value: 32768 either way.
pub open spec fn showable(v: Ratio) -> bool {
    -32768 * v.den <= v.num < 32768 * v.den
}

/// Whether a Type 2 charstring can hold every coordinate.
pub open spec fn all_showable(strokes: Seq<Stroke>) -> bool {
    forall|i: int, k: int|
        0 <= i < strokes.len() && 0 <= k < strokes[i].by.len() ==> showable(
            #[trigger] strokes[i].by[k],
        )
}

proof fn lemma_showable(v: Ratio)
    requires
        v.wf(),
        showable(v),
    ensures
        charstring::operand(v) is Some,
{
}

proof fn lemma_all_operands(values: Seq<Ratio>, i: int)
    requires
        0 <= i <= values.len(),
        all_in_range(values),
        forall|k: int| 0 <= k < values.len() ==> showable(#[trigger] values[k]),
    ensures
        charstring::operands(values, i) is Some,
    decreases values.len() - i,
{
    if i < values.len() {
        lemma_showable(values[i]);
        lemma_all_operands(values, i + 1);
    }
}

#[verifier::spinoff_prover]
#[verifier::rlimit(40)]
proof fn lemma_flex_translates(p: Pen, s: State, args: Seq<Ratio>, done: Seq<Drawn>)
    requires
        keeps_up(p, s, done),
        all_in_range(args),
        flexed(p, args) is Some,
        all_showable(flexed(p, args)->0.strokes),
    ensures
        charstring::after_flex(s, args) is Some,
{
    let f = s.flex->0;
    let r = flexed(p, args)->0;
    let n = r.strokes.len() as int;
    let x = charstring::plus(f[0], f[2])->0;
    let y = charstring::plus(f[1], f[3])->0;
    charstring::lemma_ratio_in_range(f[0].num * f[2].den + f[2].num * f[0].den, f[0].den * f[2].den);
    charstring::lemma_ratio_in_range(f[1].num * f[3].den + f[3].num * f[1].den, f[1].den * f[3].den);
    let values = seq![x, y] + f.subrange(4, 14) + seq![args[0]];
    assert(all_in_range(values)) by {
        assert forall|i: int| 0 <= i < values.len() implies (#[trigger] values[i]).wf() by {
            if 2 <= i < 12 {
                assert(values[i] == f[i + 2]);
            }
        }
    }
    let (one, two, three) = (r.strokes[n - 3], r.strokes[n - 2], r.strokes[n - 1]);
    assert(one.by == seq![x, y, f[4], f[5], f[6], f[7]]);
    assert(two.by == seq![f[8], f[9], f[10], f[11], f[12], f[13]]);
    assert(three.by == seq![args[0]]);
    assert forall|k: int| 0 <= k < values.len() implies showable(#[trigger] values[k]) by {
        if k < 6 {
            assert(values[k] == r.strokes[n - 3].by[k]);
        } else if k < 12 {
            assert(values[k] == r.strokes[n - 2].by[k - 6]);
        } else {
            assert(values[k] == r.strokes[n - 1].by[0]);
        }
    }
    lemma_all_operands(values, 0);
    assert(values.skip(values.len() - 13) =~= values);
}

#[verifier::spinoff_prover]
#[verifier::rlimit(40)]
proof fn lemma_assist_translates(p: Pen, s: State, done: Seq<Drawn>, op: int)
    requires
        keeps_up(p, s, done),
        op == 272,
        performed(p, op) matches Some((q, f)) && all_showable(q.strokes),
    ensures
        charstring::after_operator(s, op) is Some,
{
    let (q, _) = performed(p, op)->0;
    let m = s.stack.len() as int;
    let last = q.strokes.len() - 1;
    let count = s.stack[m - 2].count();
    let args = s.stack.subrange(m - 2 - count, m - 2);
    let t = State { stack: s.stack.take(m - 2 - count), ..s };
    let r = Pen { stack: p.stack.take(m - 2 - count), ..p };
    assert(all_in_range(args)) by {
        assert forall|i: int| 0 <= i < args.len() implies (#[trigger] args[i]).wf() by {
            assert(args[i] == s.stack[m - 2 - count + i]);
        }
    }
    assert(keeps_up(r, t, done));
    if s.stack[m - 1].truncated() == 0 {
        lemma_flex_translates(r, t, args, done);
    }
}

#[verifier::spinoff_prover]
#[verifier::rlimit(40)]
proof fn lemma_accent_translates(p: Pen, s: State, done: Seq<Drawn>, op: int)
    requires
        keeps_up(p, s, done),
        op == 262,
        performed(p, op) matches Some((q, f)) && all_showable(q.strokes),
    ensures
        charstring::after_operator(s, op) is Some,
{
    let (q, _) = performed(p, op)->0;
    let m = s.stack.len() as int;
    let last = q.strokes.len() - 1;
    let a = s.stack.skip(m - 5);
    let d = charstring::minus(a[1], a[0])->0;
    let x = charstring::plus(d, s.sidebearing)->0;
    charstring::lemma_ratio_in_range(
        a[1].num * a[0].den - a[0].num * a[1].den,
        a[1].den * a[0].den,
    );
    charstring::lemma_ratio_in_range(
        d.num * s.sidebearing.den + s.sidebearing.num * d.den,
        d.den * s.sidebearing.den,
    );
    let values = seq![x, s.stack[m - 3], s.stack[m - 2], s.stack[m - 1]];
    let stack = s.stack.take(m - 5) + values;
    assert(stack.skip(stack.len() - 4) =~= values);
    assert forall|k: int| 0 <= k < values.len() implies showable(#[trigger] values[k]) by {
        assert(values[k] == q.strokes[last].by[k]);
    }
    lemma_all_operands(values, 0);
}

#[verifier::spinoff_prover]
#[verifier::rlimit(40)]
proof fn lemma_place_translates(p: Pen, s: State, done: Seq<Drawn>, op: int)
    requires
        keeps_up(p, s, done),
        op == 13 || op == 263,
        performed(p, op) matches Some((q, f)) && all_showable(q.strokes),
    ensures
        charstring::after_operator(s, op) is Some,
{
    let (q, _) = performed(p, op)->0;
    let m = s.stack.len() as int;
    let last = q.strokes.len() - 1;
    let values = if op == 13 {
        seq![s.stack[m - 1], s.stack[m - 2]]
    } else {
        seq![s.stack[m - 2], s.stack[m - 4], s.stack[m - 3]]
    };
    let stack = s.stack.take(m - if op == 13 {
        2int
    } else {
        4
    }) + values;
    assert(stack.skip(stack.len() - values.len()) =~= values);
    assert(q.strokes[last - 1].by[0] == values[0]);
    assert(q.strokes[last].by[0] == values[1]);
    if op == 263 {
        assert(q.strokes[last].by[1] == values[2]);
    }
    assert forall|k: int| 0 <= k < values.len() implies showable(#[trigger] values[k]) by {
        if k == 0 {
            assert(showable(q.strokes[last - 1].by[0]));
        } else {
            assert(showable(q.strokes[last].by[k - 1]));
        }
    }
    lemma_all_operands(values, 0);
}

#[verifier::spinoff_prover]
#[verifier::rlimit(40)]
proof fn lemma_line_translates(p: Pen, s: State, done: Seq<Drawn>, op: int)
    requires
        keeps_up(p, s, done),
        op == 5 || op == 6 || op == 7 || op == 8 || op == 30 || op == 31 || ((op == 4 || op == 21 || op
            == 22) && s.flex is None),
        performed(p, op) matches Some((q, f)) && all_showable(q.strokes),
    ensures
        charstring::after_operator(s, op) is Some,
{
    let (q, _) = performed(p, op)->0;
    let m = s.stack.len() as int;
    let last = q.strokes.len() - 1;
    let n: int = if op == 21 {
        2
    } else {
        charstring::path_arity_of(op)
    };
    let top = s.stack.skip(m - n);
    assert(all_in_range(top));
    let by = q.strokes[last].by;
    assert forall|k: int| 0 <= k < top.len() implies showable(#[trigger] top[k]) by {
        if op == 7 || op == 4 {
            assert(top[k] == q.strokes[last].by[1]);
        } else if op == 30 {
            assert(top[k] == q.strokes[last].by[k + 1]);
        } else if op == 31 {
            if k == 0 {
                assert(top[k] == q.strokes[last].by[0]);
            } else if k < 3 {
                assert(top[k] == q.strokes[last].by[k + 1]);
            } else {
                assert(top[k] == q.strokes[last].by[5]);
            }
        } else {
            assert(top[k] == q.strokes[last].by[k]);
        }
    }
    lemma_all_operands(top, 0);
}

#[verifier::spinoff_prover]
#[verifier::rlimit(40)]
proof fn lemma_step_translates(p: Pen, s: State, done: Seq<Drawn>, op: int)
    requires
        keeps_up(p, s, done),
        0 <= op < 512,
        op != 10,
        performed(p, op) matches Some((q, f)) && all_showable(q.strokes),
    ensures
        charstring::after_operator(s, op) is Some,
{
    if op == 272 {
        lemma_assist_translates(p, s, done, op);
    } else if op == 262 {
        lemma_accent_translates(p, s, done, op);
    } else if op == 13 || op == 263 {
        lemma_place_translates(p, s, done, op);
    } else if op == 5 || op == 6 || op == 7 || op == 8 || op == 30 || op == 31 || ((op == 4 || op
        == 21 || op == 22) && s.flex is None) {
        lemma_line_translates(p, s, done, op);
    }
}

proof fn lemma_performed_grows(p: Pen, op: int)
    requires
        performed(p, op) is Some,
    ensures
        ({
            let (q, f) = performed(p, op)->0;
            p.strokes.is_prefix_of(q.strokes)
        }),
{
    let (q, f) = performed(p, op)->0;
    let n = p.strokes.len() as int;
    assert(q.strokes.take(n) =~= p.strokes);
    assert(p.strokes.is_prefix_of(q.strokes));
}

proof fn lemma_pen_grows(subrs: Seq<Seq<u8>>, p: Pen, code: Seq<u8>, i: int, depth: nat)
    requires
        pen_after(subrs, p, code, i, depth) is Some,
    ensures
        ({
            let (q, e) = pen_after(subrs, p, code, i, depth)->0;
            p.strokes.is_prefix_of(q.strokes)
        }),
    decreases depth, code.len() - i,
{
    if i < 0 || i >= code.len() {
    } else if code[i] >= 32 {
        let (v, used) = charstring::number_at(code, i)->0;
        let p2 = Pen { stack: p.stack.push(charstring::whole_ratio(v)), ..p };
        lemma_pen_grows(subrs, p2, code, i + used, depth);
    } else if code[i] == 10 {
        let n = p.stack.last().count();
        let p2 = Pen { stack: p.stack.drop_last(), ..p };
        lemma_pen_grows(subrs, p2, subrs[n], 0, (depth - 1) as nat);
        let (u, ended) = pen_after(subrs, p2, subrs[n], 0, (depth - 1) as nat)->0;
        if !ended {
            lemma_pen_grows(subrs, u, code, i + 1, depth);
            lemma_prefixes(p.strokes, u.strokes, pen_after(subrs, u, code, i + 1, depth)->0);
        }
    } else {
        let (op, n) = if code[i] == 12 {
            (256 + code[i + 1] as int, 2int)
        } else {
            (code[i] as int, 1int)
        };
        lemma_performed_grows(p, op);
        let (q, flow) = performed(p, op)->0;
        if flow == Flow::Continue {
            lemma_pen_grows(subrs, q, code, i + n, depth);
            lemma_prefixes(p.strokes, q.strokes, pen_after(subrs, q, code, i + n, depth)->0);
        }
    }
}

proof fn lemma_prefixes(a: Seq<Stroke>, b: Seq<Stroke>, c: (Pen, bool))
    requires
        a.is_prefix_of(b),
        b.is_prefix_of(c.0.strokes),
    ensures
        a.is_prefix_of(c.0.strokes),
{
    assert forall|i: int| 0 <= i < a.len() implies a[i] == c.0.strokes[i] by {
        assert(a[i] == b[i]);
    }
    assert(a =~= c.0.strokes.take(a.len() as int));
}

proof fn lemma_prefix_showable(a: Seq<Stroke>, b: Seq<Stroke>)
    requires
        a.is_prefix_of(b),
        all_showable(b),
    ensures
        all_showable(a),
{
    assert forall|i: int, k: int| 0 <= i < a.len() && 0 <= k < a[i].by.len() implies showable(
        #[trigger] a[i].by[k],
    ) by {
        assert(a[i] == b[i]);
        assert(showable(b[i].by[k]));
    }
}

#[verifier::spinoff_prover]
#[verifier::rlimit(40)]
proof fn lemma_translates(
    subrs: Seq<Seq<u8>>,
    p: Pen,
    s: State,
    done: Seq<Drawn>,
    code: Seq<u8>,
    i: int,
    depth: nat,
)
    requires
        keeps_up(p, s, done),
        pen_after(subrs, p, code, i, depth) matches Some((q, e)) && all_showable(q.strokes),
    ensures
        charstring::run(subrs, s, code, i, depth) is Some,
    decreases depth, code.len() - i,
{
    if i < 0 || i >= code.len() {
    } else if code[i] >= 32 {
        let (v, used) = charstring::number_at(code, i)->0;
        lemma_whole_value(code, i);
        let s2 = State { stack: s.stack.push(charstring::whole_ratio(v)), ..s };
        let p2 = Pen { stack: p.stack.push(charstring::whole_ratio(v)), ..p };
        assert(keeps_up(p2, s2, done));
        lemma_translates(subrs, p2, s2, done, code, i + used, depth);
    } else if code[i] == 10 {
        let n = s.stack.last().count();
        let s2 = State { stack: s.stack.drop_last(), ..s };
        let p2 = Pen { stack: p.stack.drop_last(), ..p };
        assert(keeps_up(p2, s2, done));
        let (q, ended) = pen_after(subrs, p2, subrs[n], 0, (depth - 1) as nat)->0;
        if !ended {
            lemma_pen_grows(subrs, q, code, i + 1, depth);
            let (last, _) = pen_after(subrs, p, code, i, depth)->0;
            lemma_prefix_showable(q.strokes, last.strokes);
        }
        lemma_translates(subrs, p2, s2, done, subrs[n], 0, (depth - 1) as nat);
        let mid = lemma_run(subrs, p2, s2, done, subrs[n], 0, (depth - 1) as nat);
        if !ended {
            let (u, _) = charstring::run(subrs, s2, subrs[n], 0, (depth - 1) as nat)->0;
            lemma_translates(subrs, q, u, mid, code, i + 1, depth);
        }
    } else {
        let (op, n) = if code[i] == 12 {
            (256 + code[i + 1] as int, 2int)
        } else {
            (code[i] as int, 1int)
        };
        let (q, flow) = performed(p, op)->0;
        if flow == Flow::Continue {
            lemma_pen_grows(subrs, q, code, i + n, depth);
            let (last, _) = pen_after(subrs, p, code, i, depth)->0;
            lemma_prefix_showable(q.strokes, last.strokes);
        }
        lemma_step_translates(p, s, done, op);
        let mid = lemma_step(p, s, done, op);
        if flow == Flow::Continue {
            let (t, _) = charstring::after_operator(s, op)->0;
            lemma_translates(subrs, q, t, mid, code, i + n, depth);
        }
    }
}

/// Whatever can be drawn translates, as long as a Type 2 charstring can hold
/// its coordinates.
pub proof fn drawings_translate(type1: Seq<u8>, subrs: Seq<Seq<u8>>)
    requires
        type1_pen(type1, subrs) is Some,
        all_showable(type1_pen(type1, subrs)->0.strokes),
    ensures
        charstring::translated(type1, subrs) is Some,
{
    let none = Seq::<Drawn>::empty();
    assert forall|rest: Seq<u8>| #[trigger]
        read_on(Seq::<u8>::empty() + rest, Seq::empty(), Seq::empty()) == read_on(
            rest,
            Seq::empty(),
            none,
        ) by {
        assert(Seq::<u8>::empty() + rest =~= rest);
    }
    assert(keeps_up(fresh_pen(), charstring::initial(), none));
    lemma_translates(
        subrs,
        fresh_pen(),
        charstring::initial(),
        none,
        type1,
        0,
        charstring::MAX_DEPTH as nat,
    );
}

/// Numbers of one or two bytes mean the same in both languages; five bytes are
/// a whole number in Type 1, where Type 2 has 65536ths.
pub proof fn numbers_mean_the_same(code: Seq<u8>, i: int)
    requires
        0 <= i < code.len(),
        code[i] >= 32,
    ensures
        ({
            let here = leading_number(code.skip(i));
            match charstring::number_at(code, i) {
                Some((v, n)) => here == Some(
                    (
                        if code[i] == 255 {
                            v
                        } else {
                            v * 65536
                        },
                        n,
                    ),
                ),
                None => here is None,
            }
        }),
{
    let rest = code.skip(i);
    assert(rest[0] == code[i]);
    if rest.len() > 1 {
        assert(rest[1] == code[i + 1]);
    }
    if rest.len() > 4 {
        assert(rest[2] == code[i + 2] && rest[3] == code[i + 3] && rest[4] == code[i + 4]);
    }
}

} // verus!
