//! PDF functions (types 0, 2, 3 and 4), as used by Separation and DeviceN
//! tint transforms. A function object is parsed once into a [`Function`];
//! its numbers stay as they are written.
use vstd::prelude::*;

use crate::backend;
use crate::bytes;
use crate::document;
use crate::document::Pdf;
use crate::font::decimal::Decimal;
use crate::font::std14;
use crate::images::postscript;
use crate::images::postscript::Program;
use crate::images::raster;
use crate::object;
use crate::object::{Dict, Value, ValueView};

verus! {

// ------------------------------------------------------------- numbers

/// A number of a PDF object: an integer, or a real by the text it is written
/// as.
#[derive(Debug, PartialEq, Eq)]
pub enum Quantity {
    Whole(i64),
    Text(Vec<u8>),
}

/// What a number is.
pub enum QuantityView {
    Whole(i64),
    Text(Seq<u8>),
}

impl View for Quantity {
    type V = QuantityView;

    open spec fn view(&self) -> QuantityView {
        match *self {
            Quantity::Whole(i) => QuantityView::Whole(i),
            Quantity::Text(t) => QuantityView::Text(t@),
        }
    }
}

pub open spec fn quantities_view(q: Seq<Quantity>) -> Seq<QuantityView> {
    q.map_values(|q: Quantity| q@)
}

/// The number that an object is.
pub open spec fn quantity_of(v: ValueView) -> Option<QuantityView> {
    match v {
        ValueView::Integer(i) => Some(QuantityView::Whole(i)),
        ValueView::Real(t) => Some(QuantityView::Text(t)),
        _ => None,
    }
}

/// The numbers that the first `n` objects are; none where one is none.
pub open spec fn quantities_of(items: Seq<ValueView>, n: int) -> Option<Seq<QuantityView>>
    decreases n,
{
    if n <= 0 {
        Some(Seq::empty())
    } else {
        match (quantities_of(items, n - 1), quantity_of(items[n - 1])) {
            (Some(q), Some(x)) => Some(q.push(x)),
            _ => None,
        }
    }
}

/// The numbers of an array.
pub open spec fn array_quantities(v: ValueView) -> Option<Seq<QuantityView>> {
    match v {
        ValueView::Array(items) => quantities_of(items, items.len() as int),
        _ => None,
    }
}

/// The numbers of an array in a dictionary, which may stand elsewhere.
pub open spec fn floats_of(t: document::TableView, d: object::DictView, key: Seq<char>) -> Option<
    Seq<QuantityView>,
> {
    match object::lookup(d, bytes::text(key)) {
        Some(v) => array_quantities(std14::target(t, v)),
        None => None,
    }
}

/// The numbers, if there are any.
pub open spec fn some_quantities(q: Option<Vec<Quantity>>) -> Option<Seq<QuantityView>> {
    match q {
        Some(q) => Some(quantities_view(q@)),
        None => None,
    }
}

/// The number that an object is.
pub fn quantity(v: &Value) -> (r: Option<Quantity>)
    ensures
        match r {
            Some(q) => quantity_of(v@) == Some(q@),
            None => quantity_of(v@) is None,
        },
{
    match v {
        Value::Integer(i) => Some(Quantity::Whole(*i)),
        Value::Real(t) => Some(Quantity::Text(bytes::copy(t))),
        _ => None,
    }
}

proof fn lemma_quantities_none(items: Seq<ValueView>, n: int, m: int)
    requires
        0 <= n <= m,
        quantities_of(items, n) is None,
    ensures
        quantities_of(items, m) is None,
    decreases m - n,
{
    if n < m {
        lemma_quantities_none(items, n, m - 1);
    }
}

/// The numbers of an array.
pub fn quantities(v: &Value) -> (r: Option<Vec<Quantity>>)
    ensures
        some_quantities(r) == array_quantities(v@),
{
    let items = match v.as_array() {
        Some(items) => items,
        None => {
            return None;
        },
    };
    let ghost view = object::objects_view(items@);
    let mut out: Vec<Quantity> = Vec::new();
    let mut i: usize = 0;
    assert(quantities_view(out@) =~= Seq::empty());
    while i < items.len()
        invariant
            i <= items@.len(),
            view == object::objects_view(items@),
            v@ == ValueView::Array(view),
            quantities_of(view, i as int) == Some(quantities_view(out@)),
        decreases items@.len() - i,
    {
        let ghost before = quantities_view(out@);
        assert(view[i as int] == items@[i as int]@);
        match quantity(&items[i]) {
            Some(q) => {
                let ghost qv = q@;
                out.push(q);
                assert(quantities_view(out@) =~= before.push(qv));
            },
            None => {
                proof {
                    lemma_quantities_none(view, i + 1, view.len() as int);
                }
                return None;
            },
        }
        i += 1;
    }
    Some(out)
}

/// What an object leads to, or itself where it leads nowhere.
pub fn deref<'a>(doc: &'a Pdf, o: &'a Value) -> (r: &'a Value)
    requires
        doc.wf(),
    ensures
        r@ == std14::target(doc@.objects, o@),
{
    match doc.dereference(o) {
        Some(v) => v,
        None => o,
    }
}

fn floats(doc: &Pdf, dict: &Dict, key: &str) -> (r: Option<Vec<Quantity>>)
    requires
        doc.wf(),
    ensures
        some_quantities(r) == floats_of(doc@.objects, dict@, key@),
{
    match dict.get(key.as_bytes()) {
        Some(v) => quantities(deref(doc, v)),
        None => None,
    }
}

/// A number as a count: its whole part, nothing below zero or where it is not
/// a number that can be counted.
pub open spec fn count_of(q: QuantityView) -> int {
    match q {
        QuantityView::Whole(i) => if i < 0 {
            0
        } else if i > usize::MAX {
            usize::MAX as int
        } else {
            i as int
        },
        QuantityView::Text(t) => match crate::font::decimal::decimal_of(t) {
            Some(d) => d.count(),
            None => 0,
        },
    }
}

fn to_count(q: &Quantity) -> (r: usize)
    ensures
        r == count_of(q@),
{
    match q {
        Quantity::Whole(i) => if *i < 0 {
            0
        } else if *i as u128 > usize::MAX as u128 {
            usize::MAX
        } else {
            *i as usize
        },
        Quantity::Text(t) => match Decimal::parse(t) {
            Some(d) => d.to_count(),
            None => 0,
        },
    }
}

// ------------------------------------------------------------- functions

/// The most bytes that a function's data may have.
pub const MAX_SAMPLE_BYTES: usize = 67_108_864;

/// How deep functions may nest.
pub const MAX_DEPTH: usize = 9;

/// A function.
pub enum Function {
    /// Type 0: samples on a grid, multilinear interpolation.
    Sampled {
        domain: Vec<Quantity>,
        range: Vec<Quantity>,
        size: Vec<usize>,
        encode: Vec<Quantity>,
        decode: Vec<Quantity>,
        /// Samples of `bits` bits, laid out with the first input varying
        /// fastest, `outputs` values per grid point.
        samples: Vec<u64>,
        bits: u32,
        outputs: usize,
    },
    /// Type 2: `c0 + x^n (c1 - c0)`. The range is empty where there is none.
    Exponential {
        domain: Vec<Quantity>,
        range: Vec<Quantity>,
        c0: Vec<Quantity>,
        c1: Vec<Quantity>,
        n: Quantity,
    },
    /// Type 3: one of `parts` chosen by `bounds`, each with its own
    /// encoding of the sub-domain. The range is empty where there is none.
    Stitching {
        domain: Vec<Quantity>,
        range: Vec<Quantity>,
        parts: Vec<Function>,
        bounds: Vec<Quantity>,
        encode: Vec<Quantity>,
    },
    /// Type 4: a PostScript calculator program.
    PostScript { domain: Vec<Quantity>, range: Vec<Quantity>, program: Program },
    /// An array of single-output functions sharing the same inputs.
    Parallel(Vec<Function>),
}

/// What a function is.
pub enum FunctionView {
    Sampled {
        domain: Seq<QuantityView>,
        range: Seq<QuantityView>,
        size: Seq<usize>,
        encode: Seq<QuantityView>,
        decode: Seq<QuantityView>,
        samples: Seq<u64>,
        bits: u32,
        outputs: usize,
    },
    Exponential {
        domain: Seq<QuantityView>,
        range: Seq<QuantityView>,
        c0: Seq<QuantityView>,
        c1: Seq<QuantityView>,
        n: QuantityView,
    },
    Stitching {
        domain: Seq<QuantityView>,
        range: Seq<QuantityView>,
        parts: Seq<FunctionView>,
        bounds: Seq<QuantityView>,
        encode: Seq<QuantityView>,
    },
    PostScript {
        domain: Seq<QuantityView>,
        range: Seq<QuantityView>,
        program: Seq<postscript::TokenView>,
    },
    Parallel(Seq<FunctionView>),
}

pub open spec fn function_view(f: Function) -> FunctionView
    decreases f,
{
    match f {
        Function::Sampled { domain, range, size, encode, decode, samples, bits, outputs } => {
            FunctionView::Sampled {
                domain: quantities_view(domain@),
                range: quantities_view(range@),
                size: size@,
                encode: quantities_view(encode@),
                decode: quantities_view(decode@),
                samples: samples@,
                bits,
                outputs,
            }
        },
        Function::Exponential { domain, range, c0, c1, n } => FunctionView::Exponential {
            domain: quantities_view(domain@),
            range: quantities_view(range@),
            c0: quantities_view(c0@),
            c1: quantities_view(c1@),
            n: n@,
        },
        Function::Stitching { domain, range, parts, bounds, encode } => FunctionView::Stitching {
            domain: quantities_view(domain@),
            range: quantities_view(range@),
            parts: Seq::new(
                parts@.len(),
                |i: int|
                    if 0 <= i < parts@.len() {
                        function_view(parts@[i])
                    } else {
                        FunctionView::Parallel(Seq::empty())
                    },
            ),
            bounds: quantities_view(bounds@),
            encode: quantities_view(encode@),
        },
        Function::PostScript { domain, range, program } => FunctionView::PostScript {
            domain: quantities_view(domain@),
            range: quantities_view(range@),
            program: postscript::tokens_view(program.body@),
        },
        Function::Parallel(parts) => FunctionView::Parallel(
            Seq::new(
                parts@.len(),
                |i: int|
                    if 0 <= i < parts@.len() {
                        function_view(parts@[i])
                    } else {
                        FunctionView::Parallel(Seq::empty())
                    },
            ),
        ),
    }
}

impl View for Function {
    type V = FunctionView;

    open spec fn view(&self) -> FunctionView {
        function_view(*self)
    }
}

pub open spec fn parts_view(parts: Seq<Function>) -> Seq<FunctionView> {
    parts.map_values(|f: Function| f@)
}

proof fn lemma_parallel(parts: Vec<Function>)
    ensures
        function_view(Function::Parallel(parts)) == FunctionView::Parallel(parts_view(parts@)),
{
    assert(function_view(Function::Parallel(parts))->Parallel_0 =~= parts_view(parts@));
}

// ------------------------------------------------------------- samples

/// A bit of the data; clear behind their end.
pub open spec fn bit_at(data: Seq<u8>, at: int) -> int {
    if at / 8 < data.len() && raster::bit(data[at / 8], at % 8) {
        1
    } else {
        0
    }
}

/// The number that the `n` bits from `pos` on spell, the highest first.
pub open spec fn bits_value(data: Seq<u8>, pos: int, n: int) -> int
    decreases n,
{
    if n <= 0 {
        0
    } else {
        2 * bits_value(data, pos, n - 1) + bit_at(data, pos + n - 1)
    }
}

proof fn lemma_bits_value(data: Seq<u8>, pos: int, n: int)
    requires
        0 <= n <= 32,
    ensures
        0 <= bits_value(data, pos, n),
        bits_value(data, pos, n) < crate::single::two_to(n as nat),
    decreases n,
{
    if n > 0 {
        lemma_bits_value(data, pos, n - 1);
    }
}

proof fn lemma_two_to_small(n: nat)
    requires
        n <= 32,
    ensures
        crate::single::two_to(n) <= 0x1_0000_0000,
    decreases 32 - n,
{
    if n == 32 {
        assert(crate::single::two_to(32) == 0x1_0000_0000) by {
            reveal_with_fuel(crate::single::two_to, 33);
        }
    } else {
        lemma_two_to_small(n + 1);
    }
}

/// The number that bits spell.
pub fn read_bits(data: &[u8], pos: u64, bits: u32) -> (r: u64)
    requires
        bits <= 32,
        pos + bits <= u64::MAX,
    ensures
        r == bits_value(data@, pos as int, bits as int),
{
    let mut v: u64 = 0;
    let mut i: u32 = 0;
    while i < bits
        invariant
            i <= bits <= 32,
            pos + bits <= u64::MAX,
            v == bits_value(data@, pos as int, i as int),
        decreases bits - i,
    {
        proof {
            lemma_bits_value(data@, pos as int, i as int);
            lemma_two_to_small(i as nat);
        }
        let p: u64 = pos + i as u64;
        let set = p / 8 < data.len() as u64 && raster::get_bit(
            data[(p / 8) as usize],
            (p % 8) as usize,
        );
        v = 2 * v + (if set {
            1
        } else {
            0
        });
        i += 1;
    }
    v
}

/// How many grid points there are.
pub open spec fn product(size: Seq<usize>, n: int) -> int
    decreases n,
{
    if n <= 0 {
        1
    } else {
        product(size, n - 1) * size[n - 1]
    }
}

/// The counts of numbers.
pub open spec fn counts_of(q: Seq<QuantityView>) -> Seq<usize> {
    q.map_values(|q: QuantityView| count_of(q) as usize)
}

/// The depths that samples may have.
pub open spec fn sample_depth(bits: int) -> bool {
    bits == 1 || bits == 2 || bits == 4 || bits == 8 || bits == 12 || bits == 16 || bits == 24
        || bits == 32
}

/// The bits per sample as the format counts them.
pub open spec fn depth_of(i: i64) -> int {
    i as int % 0x1_0000_0000
}

/// The numbers that leave grid positions as they are.
pub open spec fn plain_encode(size: Seq<usize>) -> Seq<QuantityView> {
    Seq::new(
        2 * size.len(),
        |i: int|
            QuantityView::Whole(
                if i % 2 == 0 {
                    0
                } else if size[i / 2] - 1 > i64::MAX {
                    i64::MAX
                } else {
                    (size[i / 2] - 1) as i64
                },
            ),
    )
}

/// The samples of the data.
pub open spec fn samples_of(data: Seq<u8>, bits: int, total: int) -> Seq<u64> {
    Seq::new(total as nat, |i: int| bits_value(data, i * bits, bits) as u64)
}

/// A function of type 0.
pub open spec fn sampled_of(
    t: document::TableView,
    d: object::DictView,
    data: Seq<u8>,
    domain: Seq<QuantityView>,
    range: Seq<QuantityView>,
) -> Option<FunctionView> {
    let bps = object::lookup(d, bytes::text("BitsPerSample"@));
    match (floats_of(t, d, "Size"@), bps) {
        (Some(sizes), Some(ValueView::Integer(b))) => {
            let bits = depth_of(b);
            let size = counts_of(sizes);
            let outputs = range.len() as int / 2;
            let points = product(size, size.len() as int);
            if !sample_depth(bits) || size.contains(0usize) || points > usize::MAX || points * outputs
                > usize::MAX || points * outputs * bits > usize::MAX || (points * outputs * bits
                + 7) / 8 > data.len() {
                None
            } else {
                Some(
                    FunctionView::Sampled {
                        domain,
                        range,
                        size,
                        encode: match floats_of(t, d, "Encode"@) {
                            Some(e) => e,
                            None => plain_encode(size),
                        },
                        decode: match floats_of(t, d, "Decode"@) {
                            Some(e) => e,
                            None => range,
                        },
                        samples: samples_of(data, bits, points * outputs),
                        bits: bits as u32,
                        outputs: outputs as usize,
                    },
                )
            }
        },
        _ => None,
    }
}

fn to_counts(q: &Vec<Quantity>) -> (r: Vec<usize>)
    ensures
        r@ == counts_of(quantities_view(q@)),
{
    let mut out: Vec<usize> = Vec::new();
    let ghost goal = counts_of(quantities_view(q@));
    let mut i: usize = 0;
    while i < q.len()
        invariant
            i <= q@.len(),
            goal == counts_of(quantities_view(q@)),
            out@ == goal.take(i as int),
        decreases q@.len() - i,
    {
        out.push(to_count(&q[i]));
        i += 1;
        assert(out@ =~= goal.take(i as int));
    }
    assert(out@ =~= goal);
    out
}

proof fn lemma_product_grows(size: Seq<usize>, n: int, m: int)
    requires
        0 <= n <= m <= size.len(),
        forall|i: int| 0 <= i < size.len() ==> #[trigger] size[i] >= 1,
    ensures
        1 <= product(size, n) <= product(size, m),
    decreases m,
{
    if n < m {
        lemma_product_grows(size, n, m - 1);
        let p = product(size, m - 1);
        let s = size[m - 1];
        assert(p <= p * s) by (nonlinear_arith)
            requires
                p >= 1,
                s >= 1,
        ;
    } else if n > 0 {
        lemma_product_grows(size, n - 1, n - 1);
        let p = product(size, n - 1);
        let s = size[n - 1];
        assert(p * s >= 1) by (nonlinear_arith)
            requires
                p >= 1,
                s >= 1,
        ;
    }
}

fn grid_points(size: &Vec<usize>) -> (r: Option<usize>)
    ensures
        match r {
            Some(p) => !size@.contains(0usize) && p == product(size@, size@.len() as int),
            None => size@.contains(0usize) || product(size@, size@.len() as int) > usize::MAX,
        },
{
    let mut i: usize = 0;
    while i < size.len()
        invariant
            i <= size@.len(),
            forall|k: int| 0 <= k < i ==> #[trigger] size@[k] >= 1,
        decreases size@.len() - i,
    {
        if size[i] == 0 {
            assert(size@[i as int] == 0usize);
            return None;
        }
        i += 1;
    }
    let mut points: usize = 1;
    let mut j: usize = 0;
    while j < size.len()
        invariant
            j <= size@.len(),
            forall|k: int| 0 <= k < size@.len() ==> #[trigger] size@[k] >= 1,
            points == product(size@, j as int),
        decreases size@.len() - j,
    {
        match points.checked_mul(size[j]) {
            Some(p) => {
                points = p;
            },
            None => {
                proof {
                    lemma_product_grows(size@, j + 1, size@.len() as int);
                }
                return None;
            },
        }
        j += 1;
    }
    Some(points)
}

fn identity_encode(size: &Vec<usize>) -> (r: Vec<Quantity>)
    requires
        !size@.contains(0usize),
    ensures
        quantities_view(r@) == plain_encode(size@),
{
    let ghost goal = plain_encode(size@);
    let mut out: Vec<Quantity> = Vec::new();
    let mut i: usize = 0;
    while i < size.len()
        invariant
            i <= size@.len(),
            !size@.contains(0usize),
            goal == plain_encode(size@),
            out@.len() == 2 * i,
            quantities_view(out@) == goal.take(2 * i),
        decreases size@.len() - i,
    {
        let ghost before = quantities_view(out@);
        let s = size[i];
        assert(size@[i as int] == s);
        assert(s > 0) by {
            if s == 0 {
                assert(size@.contains(size@[i as int]));
            }
        }
        let top: i64 = if (s - 1) as u64 > i64::MAX as u64 {
            i64::MAX
        } else {
            (s - 1) as i64
        };
        out.push(Quantity::Whole(0));
        out.push(Quantity::Whole(top));
        assert(quantities_view(out@) =~= before.push(QuantityView::Whole(0)).push(
            QuantityView::Whole(top),
        ));
        assert(goal[2 * i + 1] == QuantityView::Whole(top));
        i += 1;
        assert(quantities_view(out@) =~= goal.take(2 * i));
    }
    assert(quantities_view(out@) =~= goal);
    out
}

fn read_samples(data: &[u8], bits: u32, total: usize) -> (r: Vec<u64>)
    requires
        bits <= 32,
        total * bits <= usize::MAX,
    ensures
        r@ == samples_of(data@, bits as int, total as int),
{
    let ghost goal = samples_of(data@, bits as int, total as int);
    let mut out: Vec<u64> = Vec::new();
    let mut i: usize = 0;
    let mut pos: usize = 0;
    assert(0 * bits == 0);
    while i < total
        invariant
            i <= total,
            bits <= 32,
            total * bits <= usize::MAX,
            pos == i * bits,
            goal == samples_of(data@, bits as int, total as int),
            out@ == goal.take(i as int),
        decreases total - i,
    {
        assert(i * bits + bits == (i + 1) * bits && (i + 1) * bits <= total * bits)
            by (nonlinear_arith)
            requires
                i + 1 <= total,
        ;
        out.push(read_bits(data, pos as u64, bits));
        proof {
            lemma_bits_value(data@, pos as int, bits as int);
            lemma_two_to_small(bits as nat);
        }
        pos = pos + bits as usize;
        i += 1;
        assert(out@ =~= goal.take(i as int));
    }
    assert(out@ =~= goal);
    out
}

fn copy_quantities(q: &Vec<Quantity>) -> (r: Vec<Quantity>)
    ensures
        quantities_view(r@) == quantities_view(q@),
{
    let mut out: Vec<Quantity> = Vec::new();
    let mut i: usize = 0;
    while i < q.len()
        invariant
            i <= q@.len(),
            out@.len() == i,
            forall|k: int| 0 <= k < i ==> (#[trigger] out@[k])@ == q@[k]@,
        decreases q@.len() - i,
    {
        let c = match &q[i] {
            Quantity::Whole(n) => Quantity::Whole(*n),
            Quantity::Text(t) => Quantity::Text(bytes::copy(t)),
        };
        out.push(c);
        i += 1;
    }
    assert(quantities_view(out@) =~= quantities_view(q@));
    out
}

fn parse_sampled(
    doc: &Pdf,
    dict: &Dict,
    data: &[u8],
    domain: Vec<Quantity>,
    range: Vec<Quantity>,
) -> (r: Option<Function>)
    requires
        doc.wf(),
    ensures
        match r {
            Some(f) => sampled_of(
                doc@.objects,
                dict@,
                data@,
                quantities_view(domain@),
                quantities_view(range@),
            ) == Some(f@),
            None => sampled_of(
                doc@.objects,
                dict@,
                data@,
                quantities_view(domain@),
                quantities_view(range@),
            ) is None,
        },
{
    let sizes = floats(doc, dict, "Size")?;
    let size = to_counts(&sizes);
    let b = match dict.get("BitsPerSample".as_bytes()) {
        Some(v) => match v.as_i64() {
            Some(b) => b,
            None => {
                return None;
            },
        },
        None => {
            return None;
        },
    };
    // The format counts in 32 bits.
    let wide: i128 = b as i128 % 0x1_0000_0000;
    let bits: u32 = (if wide < 0 {
        wide + 0x1_0000_0000
    } else {
        wide
    }) as u32;
    proof {
        lemma_low(b as int, wide as int);
    }
    let known = bits == 1 || bits == 2 || bits == 4 || bits == 8 || bits == 12 || bits == 16
        || bits == 24 || bits == 32;
    if !known {
        return None;
    }
    let outputs: usize = range.len() / 2;
    let points = match grid_points(&size) {
        Some(p) => p,
        None => {
            return None;
        },
    };
    let total = match points.checked_mul(outputs) {
        Some(t) => t,
        None => {
            return None;
        },
    };
    let all = match total.checked_mul(bits as usize) {
        Some(a) => a,
        None => {
            proof {
                let p = points as int;
                let o = outputs as int;
                assert(p * o * bits == total * bits);
            }
            return None;
        },
    };
    if (all as u128 + 7) / 8 > data.len() as u128 {
        return None;
    }
    let samples = read_samples(data, bits, total);
    let encode = match floats(doc, dict, "Encode") {
        Some(e) => e,
        None => identity_encode(&size),
    };
    let decode = match floats(doc, dict, "Decode") {
        Some(e) => e,
        None => copy_quantities(&range),
    };
    Some(Function::Sampled { domain, range, size, encode, decode, samples, bits, outputs })
}

proof fn lemma_low(b: int, wide: int)
    requires
        wide == if b >= 0 {
            b % 0x1_0000_0000
        } else {
            -((-b) % 0x1_0000_0000)
        },
    ensures
        (if wide < 0 {
            wide + 0x1_0000_0000
        } else {
            wide
        }) == b % 0x1_0000_0000,
{
}

// ------------------------------------------------------------- parsing

/// The functions of the first `n` objects; none where one is none.
pub open spec fn functions_of(
    t: document::TableView,
    items: Seq<ValueView>,
    n: int,
    fuel: nat,
) -> Option<Seq<FunctionView>>
    decreases fuel, 2int, n,
{
    if n <= 0 {
        Some(Seq::empty())
    } else {
        match (functions_of(t, items, n - 1, fuel), function_of(t, items[n - 1], fuel)) {
            (Some(f), Some(x)) => Some(f.push(x)),
            _ => None,
        }
    }
}

/// The range of a function that need not have one.
pub open spec fn range_of(t: document::TableView, d: object::DictView) -> Seq<QuantityView> {
    match floats_of(t, d, "Range"@) {
        Some(r) => r,
        None => Seq::empty(),
    }
}

/// The function of a dictionary, with the data of its stream if it has one.
pub open spec fn dict_function(
    t: document::TableView,
    d: object::DictView,
    data: Option<Seq<u8>>,
    fuel: nat,
) -> Option<FunctionView>
    decreases fuel, 0int, 0int,
{
    let kind = object::lookup(d, bytes::text("FunctionType"@));
    match (floats_of(t, d, "Domain"@), kind) {
        (Some(domain), Some(ValueView::Integer(k))) => if k == 0 {
            match (data, floats_of(t, d, "Range"@)) {
                (Some(b), Some(range)) => sampled_of(t, d, b, domain, range),
                _ => None,
            }
        } else if k == 2 {
            match object::lookup(d, bytes::text("N"@)) {
                Some(v) => match quantity_of(v) {
                    Some(n) => Some(
                        FunctionView::Exponential {
                            domain,
                            range: range_of(t, d),
                            c0: match floats_of(t, d, "C0"@) {
                                Some(c) => c,
                                None => seq![QuantityView::Whole(0)],
                            },
                            c1: match floats_of(t, d, "C1"@) {
                                Some(c) => c,
                                None => seq![QuantityView::Whole(1)],
                            },
                            n,
                        },
                    ),
                    None => None,
                },
                None => None,
            }
        } else if k == 3 {
            match object::lookup(d, bytes::text("Functions"@)) {
                Some(v) => match std14::target(t, v) {
                    ValueView::Array(items) => if fuel == 0 {
                        None
                    } else {
                        match (
                            functions_of(t, items, items.len() as int, (fuel - 1) as nat),
                            floats_of(t, d, "Bounds"@),
                            floats_of(t, d, "Encode"@),
                        ) {
                            (Some(parts), Some(bounds), Some(encode)) => Some(
                                FunctionView::Stitching {
                                    domain,
                                    range: range_of(t, d),
                                    parts,
                                    bounds,
                                    encode,
                                },
                            ),
                            _ => None,
                        }
                    },
                    _ => None,
                },
                None => None,
            }
        } else if k == 4 {
            match (data, floats_of(t, d, "Range"@)) {
                (Some(b), Some(range)) => match postscript::program_of(b) {
                    Ok(program) => Some(FunctionView::PostScript { domain, range, program }),
                    Err(_) => None,
                },
                _ => None,
            }
        } else {
            None
        },
        _ => None,
    }
}

/// The function that an object is: a dictionary, a stream, a reference to
/// either, or an array of them, nested no deeper than the fuel says.
pub open spec fn function_of(t: document::TableView, v: ValueView, fuel: nat) -> Option<
    FunctionView,
>
    decreases fuel, 1int, 0int,
{
    if fuel == 0 {
        None
    } else {
        match std14::target(t, v) {
            ValueView::Array(items) => match functions_of(
                t,
                items,
                items.len() as int,
                (fuel - 1) as nat,
            ) {
                Some(parts) => Some(FunctionView::Parallel(parts)),
                None => None,
            },
            ValueView::Dictionary(d) => dict_function(t, d, None, fuel),
            ValueView::Stream(d, content) => match backend::decompressed(
                d,
                content,
                MAX_SAMPLE_BYTES,
            ) {
                Ok(b) => dict_function(t, d, Some(b), fuel),
                Err(_) => None,
            },
            _ => None,
        }
    }
}

proof fn lemma_functions_none(
    t: document::TableView,
    items: Seq<ValueView>,
    n: int,
    m: int,
    fuel: nat,
)
    requires
        0 <= n <= m,
        functions_of(t, items, n, fuel) is None,
    ensures
        functions_of(t, items, m, fuel) is None,
    decreases m - n,
{
    if n < m {
        lemma_functions_none(t, items, n, m - 1, fuel);
    }
}

/// The view of a function, if there is one.
pub open spec fn some_function(f: Option<Function>) -> Option<FunctionView> {
    match f {
        Some(f) => Some(f@),
        None => None,
    }
}

/// The views of functions, if there are any.
pub open spec fn some_parts(f: Option<Vec<Function>>) -> Option<Seq<FunctionView>> {
    match f {
        Some(f) => Some(parts_view(f@)),
        None => None,
    }
}

fn parse_all(doc: &Pdf, items: &Vec<Value>, fuel: usize) -> (r: Option<Vec<Function>>)
    requires
        doc.wf(),
    ensures
        some_parts(r) == functions_of(
            doc@.objects,
            object::objects_view(items@),
            items@.len() as int,
            fuel as nat,
        ),
    decreases fuel, 2int,
{
    let ghost view = object::objects_view(items@);
    let mut parts: Vec<Function> = Vec::new();
    let mut i: usize = 0;
    assert(parts_view(parts@) =~= Seq::empty());
    while i < items.len()
        invariant
            i <= items@.len(),
            doc.wf(),
            view == object::objects_view(items@),
            functions_of(doc@.objects, view, i as int, fuel as nat) == Some(parts_view(parts@)),
        decreases items@.len() - i,
    {
        let ghost before = parts_view(parts@);
        assert(view[i as int] == items@[i as int]@);
        match parse_fuel(doc, &items[i], fuel) {
            Some(f) => {
                let ghost fv = f@;
                parts.push(f);
                assert(parts_view(parts@) =~= before.push(fv));
            },
            None => {
                proof {
                    lemma_functions_none(
                        doc@.objects,
                        view,
                        i + 1,
                        view.len() as int,
                        fuel as nat,
                    );
                }
                return None;
            },
        }
        i += 1;
    }
    Some(parts)
}

fn one_whole(n: i64) -> (r: Vec<Quantity>)
    ensures
        quantities_view(r@) == seq![QuantityView::Whole(n)],
{
    let mut out: Vec<Quantity> = Vec::new();
    out.push(Quantity::Whole(n));
    assert(quantities_view(out@) =~= seq![QuantityView::Whole(n)]);
    out
}

fn or_empty(list: Option<Vec<Quantity>>) -> (r: Vec<Quantity>)
    ensures
        quantities_view(r@) == (match list {
            Some(q) => quantities_view(q@),
            None => Seq::empty(),
        }),
{
    match list {
        Some(q) => q,
        None => {
            let r: Vec<Quantity> = Vec::new();
            assert(quantities_view(r@) =~= Seq::empty());
            r
        },
    }
}

fn parse_dict(doc: &Pdf, dict: &Dict, data: Option<&Vec<u8>>, fuel: usize) -> (r: Option<Function>)
    requires
        doc.wf(),
    ensures
        some_function(r) == dict_function(
            doc@.objects,
            dict@,
            match data {
                Some(b) => Some(b@),
                None => None,
            },
            fuel as nat,
        ),
    decreases fuel, 0int,
{
    let domain = floats(doc, dict, "Domain")?;
    let range = floats(doc, dict, "Range");
    let kind = match dict.get("FunctionType".as_bytes()) {
        Some(v) => match v.as_i64() {
            Some(k) => k,
            None => {
                return None;
            },
        },
        None => {
            return None;
        },
    };
    if kind == 0 {
        match (data, range) {
            (Some(b), Some(range)) => parse_sampled(doc, dict, b, domain, range),
            _ => None,
        }
    } else if kind == 2 {
        let n = match dict.get("N".as_bytes()) {
            Some(v) => match quantity(v) {
                Some(n) => n,
                None => {
                    return None;
                },
            },
            None => {
                return None;
            },
        };
        let c0 = match floats(doc, dict, "C0") {
            Some(c) => c,
            None => one_whole(0),
        };
        let c1 = match floats(doc, dict, "C1") {
            Some(c) => c,
            None => one_whole(1),
        };
        Some(Function::Exponential { domain, range: or_empty(range), c0, c1, n })
    } else if kind == 3 {
        let functions = match dict.get("Functions".as_bytes()) {
            Some(v) => deref(doc, v),
            None => {
                return None;
            },
        };
        let items = match functions.as_array() {
            Some(items) => items,
            None => {
                return None;
            },
        };
        if fuel == 0 {
            return None;
        }
        let parts = parse_all(doc, items, fuel - 1);
        let bounds = floats(doc, dict, "Bounds");
        let encode = floats(doc, dict, "Encode");
        match (parts, bounds, encode) {
            (Some(parts), Some(bounds), Some(encode)) => {
                let ghost all = parts@;
                let range = or_empty(range);
                let f = Function::Stitching { domain, range, parts, bounds, encode };
                assert(f@->Stitching_parts =~= parts_view(all));
                Some(f)
            },
            _ => None,
        }
    } else if kind == 4 {
        match (data, range) {
            (Some(b), Some(range)) => match Program::parse(b) {
                Ok(program) => Some(Function::PostScript { domain, range, program }),
                Err(_) => None,
            },
            _ => None,
        }
    } else {
        None
    }
}

fn parse_fuel(doc: &Pdf, v: &Value, fuel: usize) -> (r: Option<Function>)
    requires
        doc.wf(),
    ensures
        some_function(r) == function_of(doc@.objects, v@, fuel as nat),
    decreases fuel, 1int,
{
    if fuel == 0 {
        return None;
    }
    let target = deref(doc, v);
    match target {
        Value::Array(items) => {
            proof {
                object::lemma_array_view(*items);
            }
            let parts = parse_all(doc, items, fuel - 1)?;
            proof {
                lemma_parallel(parts);
            }
            Some(Function::Parallel(parts))
        },
        Value::Dictionary(d) => parse_dict(doc, d, None, fuel),
        Value::Stream(s) => {
            let data = match backend::decompress(s, MAX_SAMPLE_BYTES) {
                Ok(b) => b,
                Err(_) => {
                    return None;
                },
            };
            parse_dict(doc, &s.dict, Some(&data), fuel)
        },
        _ => None,
    }
}

/// How many outputs a function has, where it says.
pub open spec fn outputs_of(f: FunctionView) -> Option<int>
    decreases f,
{
    match f {
        FunctionView::Parallel(parts) => Some(parts.len() as int),
        FunctionView::Sampled { outputs, .. } => Some(outputs as int),
        FunctionView::Exponential { c0, .. } => Some(c0.len() as int),
        FunctionView::Stitching { parts, .. } => if parts.len() > 0 {
            outputs_of(parts[0])
        } else {
            None
        },
        FunctionView::PostScript { range, .. } => Some(range.len() as int / 2),
    }
}

impl Function {
    /// Parse a function object: a dictionary, a stream, a reference to
    /// either, or an array of them.
    pub fn parse(doc: &Pdf, v: &Value) -> (r: Option<Function>)
        requires
            doc.wf(),
        ensures
            some_function(r) == function_of(doc@.objects, v@, MAX_DEPTH as nat),
    {
        parse_fuel(doc, v, MAX_DEPTH)
    }

    /// How many outputs the function has, where it says.
    pub fn outputs(&self) -> (r: Option<usize>)
        ensures
            match r {
                Some(n) => outputs_of(self@) == Some(n as int),
                None => outputs_of(self@) is None,
            },
        decreases self,
    {
        match self {
            Function::Parallel(parts) => Some(parts.len()),
            Function::Sampled { outputs, .. } => Some(*outputs),
            Function::Exponential { c0, .. } => Some(c0.len()),
            Function::Stitching { parts, .. } => {
                assert(self@->Stitching_parts =~= parts_view(parts@));
                if parts.len() > 0 {
                    assert(decreases_to!(self => self->Stitching_parts@[0]));
                    parts[0].outputs()
                } else {
                    None
                }
            },
            Function::PostScript { range, .. } => Some(range.len() / 2),
        }
    }
}

// ------------------------------------------------------------- grid

/// Where a corner of a cell stands in one direction: at the cell, or one
/// further on, but within the grid.
pub open spec fn corner_place(low: int, size: int, high: bool) -> int {
    if high && low + 1 < size {
        low + 1
    } else {
        low
    }
}

/// Whether a corner is the higher one in a direction.
pub open spec fn corner_high(corner: int, i: int) -> bool
    decreases i,
{
    if i <= 0 {
        corner % 2 == 1
    } else {
        corner_high(corner / 2, i - 1)
    }
}

/// The grid point of a corner of a cell, from its places in the first `n`
/// directions; the first direction varies fastest.
pub open spec fn corner_index(size: Seq<usize>, lows: Seq<usize>, corner: int, n: int) -> int
    decreases n,
{
    if n <= 0 {
        0
    } else {
        corner_index(size, lows, corner, n - 1) + product(size, n - 1) * corner_place(
            lows[n - 1] as int,
            size[n - 1] as int,
            corner_high(corner, n - 1),
        )
    }
}

/// Every corner of a cell within the grid is a point of the grid.
pub proof fn corners_are_grid_points(size: Seq<usize>, lows: Seq<usize>, corner: int, n: int)
    requires
        0 <= n <= size.len(),
        lows.len() == size.len(),
        forall|i: int| 0 <= i < size.len() ==> #[trigger] lows[i] < size[i],
    ensures
        0 <= corner_index(size, lows, corner, n) < product(size, n),
    decreases n,
{
    if n > 0 {
        corners_are_grid_points(size, lows, corner, n - 1);
        let p = product(size, n - 1);
        let s = size[n - 1] as int;
        assert(lows[n - 1] < size[n - 1]);
        let c = corner_place(lows[n - 1] as int, s, corner_high(corner, n - 1));
        let before = corner_index(size, lows, corner, n - 1);
        assert(0 <= before + p * c < p * s) by (nonlinear_arith)
            requires
                0 <= before < p,
                0 <= c < s,
        ;
    }
}

fn is_high(corner: u32, i: usize) -> (r: bool)
    ensures
        r == corner_high(corner as int, i as int),
    decreases i,
{
    if i == 0 {
        corner % 2 == 1
    } else {
        is_high(corner / 2, i - 1)
    }
}

/// The grid point of a corner of a cell.
pub fn grid_index(size: &Vec<usize>, lows: &Vec<usize>, corner: u32) -> (r: usize)
    requires
        lows@.len() == size@.len(),
        forall|i: int| 0 <= i < size@.len() ==> #[trigger] lows@[i] < size@[i],
        product(size@, size@.len() as int) <= usize::MAX,
    ensures
        r == corner_index(size@, lows@, corner as int, size@.len() as int),
        r < product(size@, size@.len() as int),
{
    let mut index: usize = 0;
    let mut stride: usize = 1;
    let mut i: usize = 0;
    while i < size.len()
        invariant
            i <= size@.len(),
            lows@.len() == size@.len(),
            forall|i: int| 0 <= i < size@.len() ==> #[trigger] lows@[i] < size@[i],
            product(size@, size@.len() as int) <= usize::MAX,
            stride == product(size@, i as int),
            index == corner_index(size@, lows@, corner as int, i as int),
        decreases size@.len() - i,
    {
        let low = lows[i];
        let s = size[i];
        assert(lows@[i as int] < size@[i as int]);
        let place: usize = if is_high(corner, i) && low + 1 < s {
            low + 1
        } else {
            low
        };
        proof {
            assert forall|k: int| 0 <= k < size@.len() implies #[trigger] size@[k] >= 1 by {
                assert(lows@[k] < size@[k]);
            }
            lemma_product_grows(size@, i + 1, size@.len() as int);
            lemma_product_grows(size@, i as int, i as int);
            corners_are_grid_points(size@, lows@, corner as int, i + 1);
            assert(0 <= stride * place <= stride * s) by (nonlinear_arith)
                requires
                    0 <= place < s,
                    stride >= 1,
            ;
        }
        index = index + stride * place;
        stride = stride * s;
        i += 1;
    }
    proof {
        corners_are_grid_points(size@, lows@, corner as int, size@.len() as int);
    }
    index
}

/// A function is of the kind that its type says: samples for 0, powers for 2,
/// parts for 3 and a program for 4; there is none of any other type.
pub proof fn types_tell_functions_apart(
    t: document::TableView,
    d: object::DictView,
    data: Option<Seq<u8>>,
    fuel: nat,
)
    ensures
        dict_function(t, d, data, fuel) matches Some(f) ==> {
            let kind = object::lookup(d, bytes::text("FunctionType"@));
            &&& f is Sampled <==> kind == Some(ValueView::Integer(0))
            &&& f is Exponential <==> kind == Some(ValueView::Integer(2))
            &&& f is Stitching <==> kind == Some(ValueView::Integer(3))
            &&& f is PostScript <==> kind == Some(ValueView::Integer(4))
            &&& !(f is Parallel)
        },
{
}

/// The entries of a function's dictionary are where they belong: the domain,
/// the range, the two ends of a power with zero and one for missing ones, the
/// exponent, and the bounds and encodings of parts.
pub proof fn functions_hold_their_entries(
    t: document::TableView,
    d: object::DictView,
    data: Option<Seq<u8>>,
    fuel: nat,
)
    ensures
        dict_function(t, d, data, fuel) matches Some(f) ==> match f {
            FunctionView::Sampled { domain, range, size, encode, decode, samples, bits, outputs }
                => {
                &&& floats_of(t, d, "Domain"@) == Some(domain)
                &&& floats_of(t, d, "Range"@) == Some(range)
                &&& floats_of(t, d, "Encode"@) is Some ==> floats_of(t, d, "Encode"@) == Some(encode)
                &&& floats_of(t, d, "Encode"@) is None ==> encode.len() == 2 * size.len()
                &&& floats_of(t, d, "Decode"@) is Some ==> floats_of(t, d, "Decode"@) == Some(decode)
                &&& floats_of(t, d, "Decode"@) is None ==> decode == range
                &&& !size.contains(0usize)
                &&& bits <= 32
            },
            FunctionView::Exponential { domain, range, c0, c1, n } => {
                &&& floats_of(t, d, "Domain"@) == Some(domain)
                &&& floats_of(t, d, "C0"@) is Some ==> floats_of(t, d, "C0"@) == Some(c0)
                &&& floats_of(t, d, "C0"@) is None ==> c0 == seq![QuantityView::Whole(0)]
                &&& floats_of(t, d, "C1"@) is Some ==> floats_of(t, d, "C1"@) == Some(c1)
                &&& floats_of(t, d, "C1"@) is None ==> c1 == seq![QuantityView::Whole(1)]
                &&& floats_of(t, d, "Range"@) is Some ==> floats_of(t, d, "Range"@) == Some(range)
                &&& floats_of(t, d, "Range"@) is None ==> range.len() == 0
                &&& object::lookup(d, bytes::text("N"@)) matches Some(v) && quantity_of(v) == Some(n)
            },
            FunctionView::Stitching { domain, range, parts, bounds, encode } => {
                &&& floats_of(t, d, "Domain"@) == Some(domain)
                &&& floats_of(t, d, "Bounds"@) == Some(bounds)
                &&& floats_of(t, d, "Encode"@) == Some(encode)
                &&& floats_of(t, d, "Range"@) is Some ==> floats_of(t, d, "Range"@) == Some(range)
                &&& floats_of(t, d, "Range"@) is None ==> range.len() == 0
            },
            FunctionView::PostScript { domain, range, program } => {
                &&& floats_of(t, d, "Domain"@) == Some(domain)
                &&& floats_of(t, d, "Range"@) == Some(range)
            },
            FunctionView::Parallel(_) => false,
        },
{
}

} // verus!
