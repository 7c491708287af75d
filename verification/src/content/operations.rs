//! The operations that a parse of a content stream reports, and when two
//! lists of them say the same.
use vstd::prelude::*;

use crate::backend::from_object;
use crate::object::{Value, ValueView};
use crate::single;
use crate::single::real_as_integer;


verus! {

/// A number operand.
#[derive(Clone, Copy, PartialEq, Eq, Structural)]
pub enum Number {
    Integer(i64),
    /// The bit pattern of a single-precision real.
    Real(u32),
}

/// An operand as the parser reports it: its value, the number it is, if it is
/// one, and its printed form.
pub struct Operand {
    pub value: Value,
    pub number: Option<Number>,
    pub printed: String,
}

/// One operation of a content stream.
pub struct Operation {
    pub operator: String,
    pub operands: Vec<Operand>,
}

/// What is known of an operand.
pub struct OperandView {
    pub value: ValueView,
    pub number: Option<Number>,
    pub printed: Seq<char>,
}

/// What is known of an operation.
pub struct OperationView {
    pub operator: Seq<char>,
    pub operands: Seq<OperandView>,
}

impl View for Operand {
    type V = OperandView;

    open spec fn view(&self) -> OperandView {
        OperandView { value: self.value@, number: self.number, printed: self.printed@ }
    }
}

impl View for Operation {
    type V = OperationView;

    open spec fn view(&self) -> OperationView {
        OperationView {
            operator: self.operator@,
            operands: self.operands@.map_values(|o: Operand| o@),
        }
    }
}

/// What is known of a list of operations.
pub open spec fn operations_view(operations: Seq<Operation>) -> Seq<OperationView> {
    operations.map_values(|o: Operation| o@)
}

/// What a strict parse of a content stream gives: its operations, or nothing
/// where the stream does not parse to its end.
pub uninterp spec fn strict_operations(content: Seq<u8>) -> Option<Seq<OperationView>>;

/// What a lenient parse of a content stream gives: the operations up to where
/// it stops making sense, or nothing where it makes none at all.
pub uninterp spec fn lenient_operations(content: Seq<u8>) -> Option<Seq<OperationView>>;

/// The operands of an operation of `lopdf`, one for one: of each the value,
/// the number (a real by its bit pattern) and what `Debug` prints.
#[verifier::external_body]
fn operand_of(o: &lopdf::Object) -> (r: Operand) {
    let number = match o {
        lopdf::Object::Integer(i) => Some(Number::Integer(*i)),
        lopdf::Object::Real(r) => Some(Number::Real(r.to_bits())),
        _ => None,
    };
    Operand { value: from_object(o), number, printed: format!("{o:?}") }
}

/// Whether an operand is no number, or one that equals itself: no real that is
/// not a number.
pub open spec fn comparable(operand: OperandView) -> bool {
    match operand.number {
        Some(Number::Real(bits)) => equal_reals(bits, bits),
        _ => true,
    }
}

/// Whether every operand can be compared.
pub open spec fn all_comparable(ops: Seq<OperationView>) -> bool {
    forall|i: int, k: int|
        0 <= i < ops.len() && 0 <= k < ops[i].operands.len() ==> comparable(
            #[trigger] ops[i].operands[k],
        )
}

/// `lopdf::content::Content::decode_strict`. The result is a function of the
/// bytes. A real is read from a sign, digits and a point, so it is never one
/// that is not a number.
#[verifier::external_body]
pub(crate) fn decode_strict(content: &[u8]) -> (r: Option<Vec<Operation>>)
    ensures
        match r {
            Some(operations) => strict_operations(content@) == Some(
                operations_view(operations@),
            ) && all_comparable(operations_view(operations@)),
            None => strict_operations(content@) is None,
        },
{
    let decoded = lopdf::content::Content::decode_strict(content).ok()?;
    Some(decoded.operations.into_iter().map(|op| Operation {
        operator: op.operator,
        operands: op.operands.iter().map(operand_of).collect(),
    }).collect())
}

/// `lopdf::content::Content::decode`. The result is a function of the bytes.
#[verifier::external_body]
pub(crate) fn decode(content: &[u8]) -> (r: Option<Vec<Operation>>)
    ensures
        match r {
            Some(operations) => lenient_operations(content@) == Some(
                operations_view(operations@),
            ),
            None => lenient_operations(content@) is None,
        },
{
    let decoded = lopdf::content::Content::decode(content).ok()?;
    Some(decoded.operations.into_iter().map(|op| Operation {
        operator: op.operator,
        operands: op.operands.iter().map(operand_of).collect(),
    }).collect())
}

/// An integer rounded to a multiple of `unit`, half to even.
pub open spec fn round_to(i: int, unit: int) -> int {
    let low = (i / unit) * unit;
    let rest = i - low;
    if 2 * rest < unit || (2 * rest == unit && (i / unit) % 2 == 0) {
        low
    } else {
        low + unit
    }
}

/// The spacing of double-precision numbers at the magnitude of a 64-bit
/// integer.
pub open spec fn double_unit(i: int) -> int {
    let m = if i < 0 {
        -i
    } else {
        i
    };
    if m < 0x20_0000_0000_0000 {
        1
    } else if m < 0x40_0000_0000_0000 {
        2
    } else if m < 0x80_0000_0000_0000 {
        4
    } else if m < 0x100_0000_0000_0000 {
        8
    } else if m < 0x200_0000_0000_0000 {
        16
    } else if m < 0x400_0000_0000_0000 {
        32
    } else if m < 0x800_0000_0000_0000 {
        64
    } else if m < 0x1000_0000_0000_0000 {
        128
    } else if m < 0x2000_0000_0000_0000 {
        256
    } else if m < 0x4000_0000_0000_0000 {
        512
    } else {
        1024
    }
}

/// The double-precision number nearest to a 64-bit integer.
pub open spec fn nearest_double(i: int) -> int {
    round_to(i, double_unit(i))
}

/// Whether two single-precision bit patterns compare equal as numbers: the
/// same pattern that is not a NaN, or two zeros.
pub open spec fn equal_reals(a: u32, b: u32) -> bool {
    (a == b && a % 0x8000_0000 <= 0x7f80_0000) || (a % 0x8000_0000 == 0 && b % 0x8000_0000 == 0)
}

/// Whether two numbers are equal once both are read as double-precision
/// numbers.
pub open spec fn equal_numbers(a: Number, b: Number) -> bool {
    match (a, b) {
        (Number::Integer(i), Number::Integer(j)) => nearest_double(i as int) == nearest_double(
            j as int,
        ),
        (Number::Integer(i), Number::Real(x)) => single::whole_real(x) == Some(nearest_double(i as int)),
        (Number::Real(x), Number::Integer(i)) => single::whole_real(x) == Some(nearest_double(i as int)),
        (Number::Real(x), Number::Real(y)) => equal_reals(x, y),
    }
}

/// Whether two operands count as the same: numbers by value, everything else
/// by the printed form.
pub open spec fn equal_operands(a: OperandView, b: OperandView) -> bool {
    match (a.number, b.number) {
        (Some(x), Some(y)) => equal_numbers(x, y),
        _ => a.printed == b.printed,
    }
}

pub open spec fn equal_operations(a: OperationView, b: OperationView) -> bool {
    &&& a.operator == b.operator
    &&& a.operands.len() == b.operands.len()
    &&& forall|i: int|
        0 <= i < a.operands.len() ==> equal_operands(#[trigger] a.operands[i], b.operands[i])
}

/// Whether two lists of operations agree operation for operation.
pub open spec fn equal_streams(a: Seq<OperationView>, b: Seq<OperationView>) -> bool {
    &&& a.len() == b.len()
    &&& forall|i: int| 0 <= i < a.len() ==> equal_operations(#[trigger] a[i], b[i])
}

/// Whether some operation is an inline image.
pub open spec fn has_inline_image(operations: Seq<OperationView>) -> bool {
    exists|i: int| 0 <= i < operations.len() && #[trigger] operations[i].operator == "BI"@
}

#[verifier::spinoff_prover]
#[verifier::rlimit(60)]
fn round_integer(i: i64) -> (r: i128)
    ensures
        r == nearest_double(i as int),
{
    let v: i128 = i as i128;
    let m: i128 = if v < 0 { -v } else { v };
    let mut unit: i128 = 1;
    let mut bound: i128 = 0x20_0000_0000_0000;
    while m >= bound && unit < 1024
        invariant
            0 <= m <= 0x8000_0000_0000_0000,
            unit == 1 || unit == 2 || unit == 4 || unit == 8 || unit == 16 || unit == 32 || unit
                == 64 || unit == 128 || unit == 256 || unit == 512 || unit == 1024,
            bound == 0x20_0000_0000_0000 * unit,
            unit == 1 || 2 * m >= bound,
        decreases 1024 - unit,
    {
        unit = unit * 2;
        bound = bound * 2;
    }
    assert(unit == double_unit(v as int));
    let quotient: i128 = if v >= 0 {
        v / unit
    } else if (-v) % unit == 0 {
        -((-v) / unit)
    } else {
        -((-v) / unit) - 1
    };
    proof {
        lemma_floor(v as int, unit as int, quotient as int);
    }
    let low: i128 = quotient * unit;
    let rest: i128 = v - low;
    let odd = (if quotient < 0 { -quotient } else { quotient }) % 2 == 1;
    assert(odd == (quotient % 2 == 1));
    if 2 * rest < unit || (2 * rest == unit && !odd) {
        low
    } else {
        low + unit
    }
}

proof fn lemma_floor(v: int, unit: int, quotient: int)
    requires
        0 < unit <= 1024,
        -0x1_0000_0000_0000_0000 < v < 0x1_0000_0000_0000_0000,
        quotient == if v >= 0 {
            v / unit
        } else if (-v) % unit == 0 {
            -((-v) / unit)
        } else {
            -((-v) / unit) - 1
        },
    ensures
        quotient == v / unit,
        -0x1_0000_0000_0000_0000 <= quotient <= 0x1_0000_0000_0000_0000,
        v - 1024 <= quotient * unit <= v,
{
    let n = if v >= 0 {
        v
    } else {
        -v
    };
    vstd::arithmetic::div_mod::lemma_fundamental_div_mod(n, unit);
    let q = n / unit;
    let r = n % unit;
    assert(unit * q == q * unit) by (nonlinear_arith);
    assert(-q * unit == -(q * unit)) by (nonlinear_arith);
    assert((-q - 1) * unit == -(q * unit) - unit) by (nonlinear_arith);
    if v >= 0 {
    } else if r == 0 {
        vstd::arithmetic::div_mod::lemma_fundamental_div_mod_converse(v, unit, -q, 0);
    } else {
        vstd::arithmetic::div_mod::lemma_fundamental_div_mod_converse(v, unit, -q - 1, unit - r);
    }
    assert(0 <= q <= n) by (nonlinear_arith)
        requires
            q * unit + r == n,
            0 <= r < unit,
            unit >= 1,
            n >= 0,
    ;
}

fn same_number_value(a: Number, b: Number) -> (r: bool)
    ensures
        r == equal_numbers(a, b),
{
    match (a, b) {
        (Number::Integer(i), Number::Integer(j)) => round_integer(i) == round_integer(j),
        (Number::Integer(i), Number::Real(x)) => match real_as_integer(x) {
            Some(v) => v == round_integer(i),
            None => false,
        },
        (Number::Real(x), Number::Integer(i)) => match real_as_integer(x) {
            Some(v) => v == round_integer(i),
            None => false,
        },
        (Number::Real(x), Number::Real(y)) => (x == y && x % 0x8000_0000 <= 0x7f80_0000) || (x
            % 0x8000_0000 == 0 && y % 0x8000_0000 == 0),
    }
}

/// Numbers compare by value (`-0.0` and `0`, `1.0` and `1` are the same
/// operand); everything else by its printed form.
fn same_operand(a: &Operand, b: &Operand) -> (r: bool)
    ensures
        r == equal_operands(a@, b@),
{
    match (a.number, b.number) {
        (Some(x), Some(y)) => same_number_value(x, y),
        _ => a.printed == b.printed,
    }
}

/// Whether two lists of operations agree operation for operation.
#[verifier::loop_isolation(false)]
pub fn same_operations(a: &Vec<Operation>, b: &Vec<Operation>) -> (r: bool)
    ensures
        r == equal_streams(operations_view(a@), operations_view(b@)),
{
    if a.len() != b.len() {
        return false;
    }
    let ghost va = operations_view(a@);
    let ghost vb = operations_view(b@);
    let mut i: usize = 0;
    while i < a.len()
        invariant
            i <= a.len(),
            a.len() == b.len(),
            va == operations_view(a@),
            vb == operations_view(b@),
            forall|k: int| 0 <= k < i ==> equal_operations(#[trigger] va[k], vb[k]),
        decreases a.len() - i,
    {
        let x = &a[i];
        let y = &b[i];
        assert(va[i as int] == x@ && vb[i as int] == y@);
        if x.operator != y.operator || x.operands.len() != y.operands.len() {
            assert(!equal_operations(va[i as int], vb[i as int]));
            return false;
        }
        let mut j: usize = 0;
        while j < x.operands.len()
            invariant
                j <= x.operands.len(),
                x.operands.len() == y.operands.len(),
                i < va.len(),
                va[i as int] == x@,
                vb[i as int] == y@,
                forall|k: int|
                    0 <= k < j ==> equal_operands(#[trigger] x@.operands[k], y@.operands[k]),
            decreases x.operands.len() - j,
        {
            assert(x@.operands[j as int] == x.operands[j as int]@);
            assert(y@.operands[j as int] == y.operands[j as int]@);
            if !same_operand(&x.operands[j], &y.operands[j]) {
                assert(!equal_operations(va[i as int], vb[i as int]));
                return false;
            }
            j += 1;
        }
        i += 1;
    }
    true
}

/// Whether some operation is an inline image.
pub fn any_inline_image(operations: &Vec<Operation>) -> (r: bool)
    ensures
        r == has_inline_image(operations_view(operations@)),
{
    let ghost view = operations_view(operations@);
    let image = "BI".to_owned();
    let mut i: usize = 0;
    while i < operations.len()
        invariant
            i <= operations.len(),
            view == operations_view(operations@),
            image@ == "BI"@,
            forall|k: int| 0 <= k < i ==> #[trigger] view[k].operator != "BI"@,
        decreases operations.len() - i,
    {
        assert(view[i as int].operator == operations[i as int].operator@);
        if operations[i].operator == image {
            return true;
        }
        i += 1;
    }
    false
}

// ------------------------------------------------------------- laws

/// A number is read as a multiple of the spacing there that is no more than
/// half of it away; below the fifty-third power of two it is read as itself.
pub proof fn doubles_are_the_nearest(i: int)
    requires
        -0x8000_0000_0000_0000 <= i < 0x8000_0000_0000_0000,
    ensures
        -0x20_0000_0000_0000 < i < 0x20_0000_0000_0000 ==> nearest_double(i) == i,
        2 * (nearest_double(i) - i) <= double_unit(i),
        2 * (i - nearest_double(i)) <= double_unit(i),
        nearest_double(i) % double_unit(i) == 0,
{
    lemma_round(i, double_unit(i));
}

proof fn lemma_round(i: int, unit: int)
    requires
        unit > 0,
    ensures
        2 * (round_to(i, unit) - i) <= unit,
        2 * (i - round_to(i, unit)) <= unit,
        round_to(i, unit) % unit == 0,
        unit == 1 ==> round_to(i, unit) == i,
{
    let q = i / unit;
    let r = i % unit;
    assert(i == q * unit + r && 0 <= r < unit) by (nonlinear_arith)
        requires
            q == i / unit,
            r == i % unit,
            unit > 0,
    ;
    assert((q * unit) % unit == 0) by (nonlinear_arith)
        requires
            unit > 0,
    ;
    assert(((q + 1) * unit) % unit == 0) by (nonlinear_arith)
        requires
            unit > 0,
    ;
    assert((q + 1) * unit == q * unit + unit) by (nonlinear_arith);
    assert(unit == 1 ==> q * unit == q) by (nonlinear_arith);
}

/// Numbers that are written alike are equal: small integers just where they
/// are the same, and reals of the same bits unless they are no numbers.
pub proof fn equal_numbers_are_equal(i: i64, j: i64, x: u32)
    requires
        -0x20_0000_0000_0000 < i < 0x20_0000_0000_0000,
        -0x20_0000_0000_0000 < j < 0x20_0000_0000_0000,
    ensures
        equal_numbers(Number::Integer(i), Number::Integer(j)) <==> i == j,
        x % 0x8000_0000 <= 0x7f80_0000 ==> equal_numbers(Number::Real(x), Number::Real(x)),
        equal_numbers(Number::Real(0), Number::Real(0x8000_0000)),
        equal_numbers(Number::Integer(i), Number::Real(x)) == equal_numbers(
            Number::Real(x),
            Number::Integer(i),
        ),
{
    doubles_are_the_nearest(i as int);
    doubles_are_the_nearest(j as int);
}

} // verus!
