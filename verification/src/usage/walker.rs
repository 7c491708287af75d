//! Content-stream walker: goes through a page's content, descends into form
//! XObjects, tiling patterns and annotation appearance streams, and lists what
//! it meets: what moves or clips the drawing, every image that is placed, and
//! every string that is shown.
//!
//! The list is exact in order and nesting. Coordinates are carried along as
//! they are written; tracking the transformation and the clip through the list
//! is left to whoever computes with them.
use vstd::prelude::*;

use crate::backend;
use crate::bytes;
use crate::content::operations;
use crate::content::operations::{OperandView, Operation, OperationView};
use crate::document;
use crate::document::Pdf;
use crate::images::function;
use crate::images::function::{Quantity, QuantityView};
use crate::object;
use crate::object::{DataStream, Dict, ObjectId, Value, ValueView};
use crate::pages;
use crate::text;

verus! {

/// Nested forms deeper than this are not followed (cycle and bomb guard).
pub const MAX_DEPTH: usize = 16;

/// How far up the page tree resources are looked for.
pub const MAX_PARENTS: usize = 100;

/// What a walk meets.
#[derive(Debug)]
pub enum Event {
    /// A page begins: its media box and its crop box.
    Page { media: Option<Vec<Quantity>>, crop: Option<Vec<Quantity>> },
    /// The graphics state is saved.
    Save,
    /// The graphics state is restored: to the one saved last, or to the one at
    /// the start of the content.
    Restore,
    /// The transformation is changed: six numbers.
    Concat(Vec<Quantity>),
    /// Points join the path: pairs of numbers.
    Points(Vec<Quantity>),
    /// A rectangle joins the path: a corner, a width and a height.
    Rectangle(Vec<Quantity>),
    /// The path will clip.
    MarkClip,
    /// The path ends.
    EndPath,
    /// An image is placed, with its size in pixels.
    Place { image: ObjectId, width: u32, height: u32 },
    /// A form or a pattern begins, with its matrix and its bounding box. A
    /// pattern is drawn in the default space of the page.
    Enter { matrix: Option<Vec<Quantity>>, bounds: Option<Vec<Quantity>>, fresh: bool },
    /// A form or a pattern ends.
    Leave,
    /// The appearance of an annotation begins: the form's matrix and bounding
    /// box, which are fitted to the rectangle.
    Appearance {
        matrix: Option<Vec<Quantity>>,
        bounds: Option<Vec<Quantity>>,
        rect: Vec<Quantity>,
    },
    /// A string is shown with a font.
    Show { font: ObjectId, text: Vec<u8> },
}

/// What a walk meets.
pub enum EventView {
    Page { media: Option<Seq<QuantityView>>, crop: Option<Seq<QuantityView>> },
    Save,
    Restore,
    Concat(Seq<QuantityView>),
    Points(Seq<QuantityView>),
    Rectangle(Seq<QuantityView>),
    MarkClip,
    EndPath,
    Place { image: ObjectId, width: u32, height: u32 },
    Enter { matrix: Option<Seq<QuantityView>>, bounds: Option<Seq<QuantityView>>, fresh: bool },
    Leave,
    Appearance {
        matrix: Option<Seq<QuantityView>>,
        bounds: Option<Seq<QuantityView>>,
        rect: Seq<QuantityView>,
    },
    Show { font: ObjectId, text: Seq<u8> },
}

impl View for Event {
    type V = EventView;

    open spec fn view(&self) -> EventView {
        match *self {
            Event::Page { media, crop } => EventView::Page {
                media: function::some_quantities(media),
                crop: function::some_quantities(crop),
            },
            Event::Save => EventView::Save,
            Event::Restore => EventView::Restore,
            Event::Concat(q) => EventView::Concat(function::quantities_view(q@)),
            Event::Points(q) => EventView::Points(function::quantities_view(q@)),
            Event::Rectangle(q) => EventView::Rectangle(function::quantities_view(q@)),
            Event::MarkClip => EventView::MarkClip,
            Event::EndPath => EventView::EndPath,
            Event::Place { image, width, height } => EventView::Place { image, width, height },
            Event::Enter { matrix, bounds, fresh } => EventView::Enter {
                matrix: function::some_quantities(matrix),
                bounds: function::some_quantities(bounds),
                fresh,
            },
            Event::Leave => EventView::Leave,
            Event::Appearance { matrix, bounds, rect } => EventView::Appearance {
                matrix: function::some_quantities(matrix),
                bounds: function::some_quantities(bounds),
                rect: function::quantities_view(rect@),
            },
            Event::Show { font, text } => EventView::Show { font, text: text@ },
        }
    }
}

pub open spec fn events_view(e: Seq<Event>) -> Seq<EventView> {
    e.map_values(|e: Event| e@)
}

fn push_event(out: &mut Vec<Event>, e: Event)
    ensures
        events_view(final(out)@) == events_view(old(out)@).push(e@),
{
    let ghost before = events_view(out@);
    out.push(e);
    assert(events_view(out@) =~= before.push(e@));
}

// ------------------------------------------------------------- numbers

/// The numbers among the first `n` objects.
pub open spec fn numbers_in(items: Seq<ValueView>, n: int) -> Seq<QuantityView>
    decreases n,
{
    if n <= 0 || n > items.len() {
        Seq::empty()
    } else {
        match function::quantity_of(items[n - 1]) {
            Some(q) => numbers_in(items, n - 1).push(q),
            None => numbers_in(items, n - 1),
        }
    }
}

/// The values of operands.
pub open spec fn values_of(operands: Seq<OperandView>) -> Seq<ValueView> {
    operands.map_values(|o: OperandView| o.value)
}

/// The numbers among the operands of an operation.
pub open spec fn operand_numbers(op: OperationView) -> Seq<QuantityView> {
    numbers_in(values_of(op.operands), op.operands.len() as int)
}

fn push_quantity(out: &mut Vec<Quantity>, v: &Value)
    ensures
        function::quantities_view(final(out)@) == match function::quantity_of(v@) {
            Some(q) => function::quantities_view(old(out)@).push(q),
            None => function::quantities_view(old(out)@),
        },
{
    let ghost before = function::quantities_view(out@);
    if let Some(q) = function::quantity(v) {
        let ghost added = q@;
        out.push(q);
        assert(function::quantities_view(out@) =~= before.push(added));
    }
}

fn find_numbers(op: &Operation) -> (r: Vec<Quantity>)
    ensures
        function::quantities_view(r@) == operand_numbers(op@),
{
    let ghost values = values_of(op@.operands);
    let mut out: Vec<Quantity> = Vec::new();
    let mut i: usize = 0;
    assert(function::quantities_view(out@) =~= Seq::empty());
    while i < op.operands.len()
        invariant
            i <= op.operands@.len(),
            values == values_of(op@.operands),
            function::quantities_view(out@) == numbers_in(values, i as int),
        decreases op.operands@.len() - i,
    {
        assert(op@.operands[i as int] == op.operands@[i as int]@);
        assert(values[i as int] == op.operands@[i as int].value@);
        push_quantity(&mut out, &op.operands[i].value);
        i += 1;
    }
    out
}

/// A matrix: six numbers among the items of an array.
pub open spec fn matrix_of(v: Option<ValueView>) -> Option<Seq<QuantityView>> {
    match v {
        Some(ValueView::Array(items)) => if numbers_in(items, items.len() as int).len() == 6 {
            Some(numbers_in(items, items.len() as int))
        } else {
            None
        },
        _ => None,
    }
}

fn find_matrix(d: &Dict) -> (r: Option<Vec<Quantity>>)
    ensures
        function::some_quantities(r) == matrix_of(object::lookup(d@, bytes::text("Matrix"@))),
{
    match d.get("Matrix".as_bytes()) {
        Some(Value::Array(items)) => {
            let ghost view = object::objects_view(items@);
            proof {
                object::lemma_array_view(*items);
            }
            let mut out: Vec<Quantity> = Vec::new();
            let mut i: usize = 0;
            assert(function::quantities_view(out@) =~= Seq::empty());
            while i < items.len()
                invariant
                    i <= items@.len(),
                    view == object::objects_view(items@),
                    function::quantities_view(out@) == numbers_in(view, i as int),
                decreases items@.len() - i,
            {
                assert(view[i as int] == items@[i as int]@);
                push_quantity(&mut out, &items[i]);
                i += 1;
            }
            assert(function::quantities_view(out@).len() == out@.len());
            if out.len() == 6 {
                Some(out)
            } else {
                None
            }
        },
        _ => None,
    }
}

/// The numbers that the first `n` objects lead to.
pub open spec fn led_numbers(t: document::TableView, items: Seq<ValueView>, n: int) -> Seq<
    QuantityView,
>
    decreases n,
{
    if n <= 0 || n > items.len() {
        Seq::empty()
    } else {
        let front = led_numbers(t, items, n - 1);
        match document::resolved(t, items[n - 1]) {
            Some(v) => match function::quantity_of(v) {
                Some(q) => front.push(q),
                None => front,
            },
            None => front,
        }
    }
}

/// A rectangle: an array of four numbers, references followed.
pub open spec fn rect_of(t: document::TableView, v: Option<ValueView>) -> Option<
    Seq<QuantityView>,
> {
    match v {
        None => None,
        Some(v) => match document::resolved(t, v) {
            Some(ValueView::Array(items)) => if led_numbers(t, items, items.len() as int).len()
                == 4 {
                Some(led_numbers(t, items, items.len() as int))
            } else {
                None
            },
            _ => None,
        },
    }
}

fn find_rect(doc: &Pdf, d: &Dict, key: &str) -> (r: Option<Vec<Quantity>>)
    requires
        doc.wf(),
    ensures
        function::some_quantities(r) == rect_of(
            doc@.objects,
            object::lookup(d@, bytes::text(key@)),
        ),
{
    let v = match d.get(key.as_bytes()) {
        Some(v) => v,
        None => {
            return None;
        },
    };
    let items = match doc.dereference(v) {
        Some(Value::Array(items)) => items,
        _ => {
            return None;
        },
    };
    let ghost t = doc@.objects;
    let ghost view = object::objects_view(items@);
    proof {
        object::lemma_array_view(*items);
    }
    let mut out: Vec<Quantity> = Vec::new();
    let mut i: usize = 0;
    assert(function::quantities_view(out@) =~= Seq::empty());
    while i < items.len()
        invariant
            i <= items@.len(),
            doc.wf(),
            t == doc@.objects,
            view == object::objects_view(items@),
            function::quantities_view(out@) == led_numbers(t, view, i as int),
        decreases items@.len() - i,
    {
        assert(view[i as int] == items@[i as int]@);
        if let Some(v) = doc.dereference(&items[i]) {
            push_quantity(&mut out, v);
        }
        i += 1;
    }
    assert(function::quantities_view(out@).len() == out@.len());
    if out.len() == 4 {
        Some(out)
    } else {
        None
    }
}

// ------------------------------------------------------------- resources

/// Resource dictionaries to search, innermost first.
pub type ChainView = Seq<object::DictView>;

/// The resources that a node of the page tree and those above it refer to;
/// nothing where the tree is broken or too high.
pub open spec fn handed_down(t: document::TableView, d: object::DictView, budget: nat) -> Option<
    Seq<ObjectId>,
>
    decreases budget,
{
    let own = match object::lookup(d, bytes::text("Resources"@)) {
        Some(ValueView::Reference(id)) => seq![id],
        _ => Seq::empty(),
    };
    match object::lookup(d, bytes::text("Parent"@)) {
        Some(ValueView::Reference(p)) => if budget == 0 {
            None
        } else {
            match document::dictionary_at(t, p) {
                None => None,
                Some(e) => match handed_down(t, e, (budget - 1) as nat) {
                    Some(rest) => Some(own + rest),
                    None => None,
                },
            }
        },
        _ => Some(own),
    }
}

/// The dictionaries among the first `n` objects.
pub open spec fn dicts_at(t: document::TableView, ids: Seq<ObjectId>, n: int) -> ChainView
    decreases n,
{
    if n <= 0 || n > ids.len() {
        Seq::empty()
    } else {
        match document::dictionary_at(t, ids[n - 1]) {
            Some(d) => dicts_at(t, ids, n - 1).push(d),
            None => dicts_at(t, ids, n - 1),
        }
    }
}

/// The resources of a page: its own, and those that are handed down to it.
pub open spec fn page_chain(t: document::TableView, page: ObjectId) -> Option<ChainView> {
    match document::dictionary_at(t, page) {
        None => Some(Seq::empty()),
        Some(d) => {
            let own = match object::lookup(d, bytes::text("Resources"@)) {
                Some(ValueView::Dictionary(r)) => seq![r],
                _ => Seq::empty(),
            };
            match handed_down(t, d, MAX_PARENTS as nat) {
                Some(ids) => Some(own + dicts_at(t, ids, ids.len() as int)),
                None => None,
            }
        },
    }
}

/// The resources of a form: its own.
pub open spec fn form_resources(t: document::TableView, d: object::DictView) -> Option<
    object::DictView,
> {
    match object::lookup(d, bytes::text("Resources"@)) {
        Some(ValueView::Dictionary(r)) => Some(r),
        Some(ValueView::Reference(id)) => document::dictionary_at(t, id),
        _ => None,
    }
}

/// The resources that a form's content is searched in.
pub open spec fn form_chain(t: document::TableView, d: object::DictView, chain: ChainView) -> ChainView {
    match form_resources(t, d) {
        Some(r) => seq![r] + chain,
        None => chain,
    }
}

/// What one resource dictionary holds under a name of a category, where that
/// is a reference.
pub open spec fn named_in(
    t: document::TableView,
    res: object::DictView,
    category: Seq<char>,
    name: Seq<u8>,
) -> Option<ObjectId> {
    match object::lookup(res, bytes::text(category)) {
        None => None,
        Some(c) => match document::resolved(t, c) {
            Some(ValueView::Dictionary(d)) => match object::lookup(d, name) {
                Some(ValueView::Reference(id)) => Some(id),
                _ => None,
            },
            _ => None,
        },
    }
}

/// The stream that a name of a category leads to, from the `i`-th dictionary
/// on.
pub open spec fn stream_named(
    t: document::TableView,
    chain: ChainView,
    category: Seq<char>,
    name: Seq<u8>,
    i: int,
) -> Option<(ObjectId, object::DictView, Seq<u8>)>
    decreases chain.len() - i,
{
    if i < 0 || i >= chain.len() {
        None
    } else {
        match named_in(t, chain[i], category, name) {
            Some(id) => match document::object_at(t, id) {
                Some(ValueView::Stream(d, c)) => Some((id, d, c)),
                _ => stream_named(t, chain, category, name, i + 1),
            },
            None => stream_named(t, chain, category, name, i + 1),
        }
    }
}

/// The font that a name leads to, from the `i`-th dictionary on.
pub open spec fn font_named(t: document::TableView, chain: ChainView, name: Seq<u8>, i: int) -> Option<
    ObjectId,
>
    decreases chain.len() - i,
{
    if i < 0 || i >= chain.len() {
        None
    } else {
        match named_in(t, chain[i], "Font"@, name) {
            Some(id) => Some(id),
            None => font_named(t, chain, name, i + 1),
        }
    }
}

// ------------------------------------------------------------- walking

/// The current font, and those that were saved.
pub struct WalkState {
    pub font: Option<ObjectId>,
    pub saved: Seq<Option<ObjectId>>,
}

/// The state after an operation.
pub open spec fn op_state(
    t: document::TableView,
    op: OperationView,
    chain: ChainView,
    first: Option<ObjectId>,
    st: WalkState,
) -> WalkState {
    if op.operator == "q"@ {
        WalkState { saved: st.saved.push(st.font), ..st }
    } else if op.operator == "Q"@ {
        if st.saved.len() == 0 {
            WalkState { font: first, ..st }
        } else {
            WalkState { font: st.saved.last(), saved: st.saved.drop_last() }
        }
    } else if op.operator == "Tf"@ {
        if op.operands.len() == 0 {
            st
        } else {
            match op.operands[0].value {
                ValueView::Name(n) => WalkState { font: font_named(t, chain, n, 0), ..st },
                _ => st,
            }
        }
    } else {
        st
    }
}

/// The state after the first `n` operations.
pub open spec fn run_state(
    t: document::TableView,
    ops: Seq<OperationView>,
    n: int,
    chain: ChainView,
    first: Option<ObjectId>,
) -> WalkState
    decreases n,
{
    if n <= 0 || n > ops.len() {
        WalkState { font: first, saved: Seq::empty() }
    } else {
        op_state(t, ops[n - 1], chain, first, run_state(t, ops, n - 1, chain, first))
    }
}

/// The strings among the first `n` objects, shown with a font.
pub open spec fn shown(items: Seq<ValueView>, font: ObjectId, n: int) -> Seq<EventView>
    decreases n,
{
    if n <= 0 || n > items.len() {
        Seq::empty()
    } else {
        match items[n - 1] {
            ValueView::String(s, _) => shown(items, font, n - 1).push(
                EventView::Show { font, text: s },
            ),
            _ => shown(items, font, n - 1),
        }
    }
}

/// What an operation that shows text shows.
pub open spec fn text_events(op: OperationView, font: Option<ObjectId>) -> Seq<EventView> {
    match font {
        None => Seq::empty(),
        Some(f) => if op.operator == "TJ"@ {
            if op.operands.len() == 0 {
                Seq::empty()
            } else {
                match op.operands[0].value {
                    ValueView::Array(items) => shown(items, f, items.len() as int),
                    _ => Seq::empty(),
                }
            }
        } else {
            shown(values_of(op.operands), f, op.operands.len() as int)
        },
    }
}

/// An operator that ends a path.
pub open spec fn ends_path(o: Seq<char>) -> bool {
    o == "n"@ || o == "S"@ || o == "s"@ || o == "f"@ || o == "F"@ || o == "f*"@ || o == "B"@ || o
        == "B*"@ || o == "b"@ || o == "b*"@
}

/// What an operation does to the path.
pub open spec fn path_events(op: OperationView) -> Seq<EventView> {
    let o = op.operator;
    let q = operand_numbers(op);
    if (o == "m"@ || o == "l"@) && q.len() >= 2 {
        seq![EventView::Points(q.take(2))]
    } else if o == "c"@ && q.len() >= 6 {
        seq![EventView::Points(q)]
    } else if (o == "v"@ || o == "y"@) && q.len() >= 4 {
        seq![EventView::Points(q)]
    } else if o == "re"@ && q.len() >= 4 {
        seq![EventView::Rectangle(q.take(4))]
    } else if o == "W"@ || o == "W*"@ {
        seq![EventView::MarkClip]
    } else if ends_path(o) {
        seq![EventView::EndPath]
    } else {
        Seq::empty()
    }
}

/// A size in pixels: what is below zero counts as zero.
pub open spec fn pixels_of(v: Option<ValueView>) -> u32 {
    match v {
        Some(ValueView::Integer(i)) => if i < 0 {
            0
        } else {
            i as u32
        },
        _ => 0,
    }
}

/// What an operation meets.
pub open spec fn op_events(
    t: document::TableView,
    op: OperationView,
    chain: ChainView,
    font: Option<ObjectId>,
    seen: Seq<ObjectId>,
    fuel: nat,
) -> Seq<EventView>
    decreases fuel, 2int, 0int,
{
    let o = op.operator;
    if o == "q"@ {
        seq![EventView::Save]
    } else if o == "Q"@ {
        seq![EventView::Restore]
    } else if o == "cm"@ {
        if operand_numbers(op).len() == 6 {
            seq![EventView::Concat(operand_numbers(op))]
        } else {
            Seq::empty()
        }
    } else if o == "Do"@ {
        if op.operands.len() == 0 {
            Seq::empty()
        } else {
            match op.operands[0].value {
                ValueView::Name(n) => match stream_named(t, chain, "XObject"@, n, 0) {
                    Some((id, d, c)) => match object::lookup(d, bytes::text("Subtype"@)) {
                        Some(ValueView::Name(s)) => if s == bytes::text("Image"@) {
                            seq![
                                EventView::Place {
                                    image: id,
                                    width: pixels_of(object::lookup(d, bytes::text("Width"@))),
                                    height: pixels_of(object::lookup(d, bytes::text("Height"@))),
                                },
                            ]
                        } else if s == bytes::text("Form"@) {
                            form_events(t, id, d, c, chain, font, seen, fuel, false)
                        } else {
                            Seq::empty()
                        },
                        _ => Seq::empty(),
                    },
                    None => Seq::empty(),
                },
                _ => Seq::empty(),
            }
        }
    } else if o == "scn"@ || o == "SCN"@ {
        if op.operands.len() == 0 {
            Seq::empty()
        } else {
            match op.operands.last().value {
                ValueView::Name(n) => match stream_named(t, chain, "Pattern"@, n, 0) {
                    Some((id, d, c)) => if object::lookup(d, bytes::text("PatternType"@)) == Some(
                        ValueView::Integer(1),
                    ) {
                        form_events(t, id, d, c, chain, font, seen, fuel, true)
                    } else {
                        Seq::empty()
                    },
                    None => Seq::empty(),
                },
                _ => Seq::empty(),
            }
        }
    } else if o == "Tj"@ || o == "TJ"@ || o == "'"@ || o == "\""@ {
        text_events(op, font)
    } else {
        path_events(op)
    }
}

/// What a form meets, unless it is nested too deep or in itself.
pub open spec fn form_events(
    t: document::TableView,
    id: ObjectId,
    d: object::DictView,
    content: Seq<u8>,
    chain: ChainView,
    font: Option<ObjectId>,
    seen: Seq<ObjectId>,
    fuel: nat,
    fresh: bool,
) -> Seq<EventView>
    decreases fuel, 1int, 0int,
{
    if fuel == 0 || seen.contains(id) {
        Seq::empty()
    } else {
        match backend::decompressed(d, content, pages::MAX_CONTENT_BYTES) {
            Err(_) => Seq::empty(),
            Ok(b) => seq![
                EventView::Enter {
                    matrix: matrix_of(object::lookup(d, bytes::text("Matrix"@))),
                    bounds: rect_of(t, object::lookup(d, bytes::text("BBox"@))),
                    fresh,
                },
            ] + walk_events(t, b, form_chain(t, d, chain), font, seen.push(id), (fuel - 1) as nat)
                + seq![EventView::Leave],
        }
    }
}

/// What content meets.
pub open spec fn walk_events(
    t: document::TableView,
    content: Seq<u8>,
    chain: ChainView,
    font: Option<ObjectId>,
    seen: Seq<ObjectId>,
    fuel: nat,
) -> Seq<EventView>
    decreases fuel, 4int, 0int,
{
    match operations::lenient_operations(content) {
        Some(ops) => run_events(t, ops, ops.len() as int, chain, font, seen, fuel),
        None => Seq::empty(),
    }
}

/// What the first `n` operations meet.
pub open spec fn run_events(
    t: document::TableView,
    ops: Seq<OperationView>,
    n: int,
    chain: ChainView,
    first: Option<ObjectId>,
    seen: Seq<ObjectId>,
    fuel: nat,
) -> Seq<EventView>
    decreases fuel, 3int, n,
{
    if n <= 0 || n > ops.len() {
        Seq::empty()
    } else {
        run_events(t, ops, n - 1, chain, first, seen, fuel) + op_events(
            t,
            ops[n - 1],
            chain,
            run_state(t, ops, n - 1, chain, first).font,
            seen,
            fuel,
        )
    }
}

// ------------------------------------------------------------- annotations

/// The annotations among the first `n` items.
pub open spec fn annotations_in(t: document::TableView, items: Seq<ValueView>, n: int) -> Seq<
    object::DictView,
>
    decreases n,
{
    if n <= 0 || n > items.len() {
        Seq::empty()
    } else {
        let front = annotations_in(t, items, n - 1);
        match items[n - 1] {
            ValueView::Reference(id) => match document::dictionary_at(t, id) {
                Some(d) => front.push(d),
                None => front,
            },
            ValueView::Dictionary(d) => front.push(d),
            _ => front,
        }
    }
}

/// The annotations of a page.
pub open spec fn page_annotations(t: document::TableView, page: ObjectId) -> Seq<object::DictView> {
    match document::dictionary_at(t, page) {
        None => Seq::empty(),
        Some(d) => match object::lookup(d, bytes::text("Annots"@)) {
            Some(ValueView::Reference(id)) => match document::object_at(t, id) {
                Some(ValueView::Array(items)) => annotations_in(t, items, items.len() as int),
                _ => Seq::empty(),
            },
            Some(ValueView::Array(items)) => annotations_in(t, items, items.len() as int),
            _ => Seq::empty(),
        },
    }
}

/// The normal appearance of an annotation: the one, or that of its state.
pub open spec fn appearance_of(t: document::TableView, d: object::DictView) -> Option<ObjectId> {
    match object::lookup(d, bytes::text("AP"@)) {
        None => None,
        Some(v) => match document::resolved(t, v) {
            Some(ValueView::Dictionary(ap)) => match object::lookup(ap, bytes::text("N"@)) {
                Some(ValueView::Reference(id)) => Some(id),
                Some(ValueView::Dictionary(states)) => {
                    let entry = match object::lookup(d, bytes::text("AS"@)) {
                        Some(ValueView::Name(k)) => object::lookup(states, k),
                        _ => if states.len() == 0 {
                            None
                        } else {
                            Some(states[0].1)
                        },
                    };
                    match entry {
                        Some(ValueView::Reference(id)) => Some(id),
                        _ => None,
                    }
                },
                _ => None,
            },
            _ => None,
        },
    }
}

/// What an annotation meets.
pub open spec fn annotation_events(
    t: document::TableView,
    d: object::DictView,
    chain: ChainView,
) -> Seq<EventView> {
    match (appearance_of(t, d), rect_of(t, object::lookup(d, bytes::text("Rect"@)))) {
        (Some(id), Some(rect)) => match document::object_at(t, id) {
            Some(ValueView::Stream(s, c)) => seq![
                EventView::Appearance {
                    matrix: matrix_of(object::lookup(s, bytes::text("Matrix"@))),
                    bounds: rect_of(t, object::lookup(s, bytes::text("BBox"@))),
                    rect,
                },
            ] + form_events(
                t,
                id,
                s,
                c,
                chain,
                None,
                Seq::empty(),
                MAX_DEPTH as nat,
                false,
            ),
            _ => Seq::empty(),
        },
        _ => Seq::empty(),
    }
}

/// What the first `n` annotations meet.
pub open spec fn annotations_events(
    t: document::TableView,
    list: Seq<object::DictView>,
    chain: ChainView,
    n: int,
) -> Seq<EventView>
    decreases n,
{
    if n <= 0 || n > list.len() {
        Seq::empty()
    } else {
        annotations_events(t, list, chain, n - 1) + annotation_events(t, list[n - 1], chain)
    }
}

/// The box of a page.
pub open spec fn page_box(t: document::TableView, page: ObjectId, key: Seq<char>) -> Option<
    Seq<QuantityView>,
> {
    match document::dictionary_at(t, page) {
        Some(d) => rect_of(t, object::lookup(d, bytes::text(key))),
        None => None,
    }
}

/// What a page meets: its content, then its annotations' appearances. Nothing
/// where its resources cannot be found.
pub open spec fn page_events(t: document::TableView, page: ObjectId) -> Seq<EventView> {
    match page_chain(t, page) {
        None => Seq::empty(),
        Some(chain) => {
            let content = match pages::content_of(t, page) {
                Some(b) => walk_events(t, b, chain, None, Seq::empty(), MAX_DEPTH as nat),
                None => Seq::empty(),
            };
            let list = page_annotations(t, page);
            seq![
                EventView::Page {
                    media: page_box(t, page, "MediaBox"@),
                    crop: page_box(t, page, "CropBox"@),
                },
            ] + content + annotations_events(t, list, chain, list.len() as int)
        },
    }
}

// ------------------------------------------------------------- the walk

pub open spec fn chain_view(chain: Seq<&Dict>) -> ChainView {
    chain.map_values(|d: &Dict| d@)
}

fn find_handed_down(doc: &Pdf, start: &Dict) -> (r: Option<Vec<ObjectId>>)
    requires
        doc.wf(),
    ensures
        match r {
            Some(ids) => handed_down(doc@.objects, start@, MAX_PARENTS as nat) == Some(ids@),
            None => handed_down(doc@.objects, start@, MAX_PARENTS as nat) is None,
        },
{
    let ghost t = doc@.objects;
    let mut out: Vec<ObjectId> = Vec::new();
    let mut d = start;
    let mut left: usize = MAX_PARENTS;
    let ghost goal = handed_down(t, start@, MAX_PARENTS as nat);
    proof {
        if let Some(rest) = goal {
            assert(out@ + rest =~= rest);
        }
    }
    loop
        invariant
            doc.wf(),
            t == doc@.objects,
            left <= MAX_PARENTS,
            goal == handed_down(t, start@, MAX_PARENTS as nat),
            goal == match handed_down(t, d@, left as nat) {
                Some(rest) => Some(out@ + rest),
                None => None,
            },
        decreases left,
    {
        let ghost before = out@;
        let ghost here = handed_down(t, d@, left as nat);
        let ghost own = match object::lookup(d@, bytes::text("Resources"@)) {
            Some(ValueView::Reference(id)) => seq![id],
            _ => Seq::empty(),
        };
        if let Some(Value::Reference(id)) = d.get("Resources".as_bytes()) {
            out.push(*id);
        }
        assert(out@ =~= before + own);
        match d.get("Parent".as_bytes()) {
            Some(Value::Reference(p)) => {
                if left == 0 {
                    return None;
                }
                match doc.get_dictionary(*p) {
                    None => {
                        return None;
                    },
                    Some(e) => {
                        left -= 1;
                        d = e;
                        proof {
                            if let Some(rest) = handed_down(t, e@, left as nat) {
                                assert(before + (own + rest) =~= out@ + rest);
                            }
                        }
                    },
                }
            },
            _ => {
                return Some(out);
            },
        }
    }
}

fn find_page_chain<'a>(doc: &'a Pdf, page: ObjectId) -> (r: Option<Vec<&'a Dict>>)
    requires
        doc.wf(),
    ensures
        match r {
            Some(chain) => page_chain(doc@.objects, page) == Some(chain_view(chain@)),
            None => page_chain(doc@.objects, page) is None,
        },
{
    let ghost t = doc@.objects;
    let mut out: Vec<&'a Dict> = Vec::new();
    assert(chain_view(out@) =~= Seq::empty());
    let d = match doc.get_dictionary(page) {
        Some(d) => d,
        None => {
            return Some(out);
        },
    };
    if let Some(Value::Dictionary(r)) = d.get("Resources".as_bytes()) {
        out.push(r);
        assert(chain_view(out@) =~= seq![r@]);
    }
    let ghost own = chain_view(out@);
    let ids = match find_handed_down(doc, d) {
        Some(ids) => ids,
        None => {
            return None;
        },
    };
    let mut i: usize = 0;
    assert(chain_view(out@) =~= own + dicts_at(t, ids@, 0));
    while i < ids.len()
        invariant
            i <= ids@.len(),
            doc.wf(),
            t == doc@.objects,
            chain_view(out@) == own + dicts_at(t, ids@, i as int),
        decreases ids@.len() - i,
    {
        let ghost before = chain_view(out@);
        if let Some(d) = doc.get_dictionary(ids[i]) {
            out.push(d);
            assert(chain_view(out@) =~= before.push(d@));
        }
        i += 1;
        assert(chain_view(out@) =~= own + dicts_at(t, ids@, i as int));
    }
    Some(out)
}

fn find_named(doc: &Pdf, res: &Dict, category: &str, name: &Vec<u8>) -> (r: Option<ObjectId>)
    requires
        doc.wf(),
    ensures
        r == named_in(doc@.objects, res@, category@, name@),
{
    match res.get(category.as_bytes()) {
        None => None,
        Some(c) => match doc.dereference(c) {
            Some(Value::Dictionary(d)) => match d.get(name) {
                Some(Value::Reference(id)) => Some(*id),
                _ => None,
            },
            _ => None,
        },
    }
}

/// Resolve a named resource of `category` to an indirect stream.
fn lookup_stream<'a>(doc: &'a Pdf, chain: &Vec<&'a Dict>, category: &str, name: &Vec<u8>) -> (r: Option<
    (ObjectId, &'a DataStream),
>)
    requires
        doc.wf(),
    ensures
        match r {
            Some((id, s)) => stream_named(
                doc@.objects,
                chain_view(chain@),
                category@,
                name@,
                0,
            ) == Some((id, s.dict@, s.content@)),
            None => stream_named(
                doc@.objects,
                chain_view(chain@),
                category@,
                name@,
                0,
            ) is None,
        },
{
    let ghost t = doc@.objects;
    let ghost view = chain_view(chain@);
    let mut i: usize = 0;
    while i < chain.len()
        invariant
            i <= chain@.len(),
            doc.wf(),
            t == doc@.objects,
            view == chain_view(chain@),
            stream_named(t, view, category@, name@, 0) == stream_named(
                t,
                view,
                category@,
                name@,
                i as int,
            ),
        decreases chain@.len() - i,
    {
        assert(view[i as int] == chain@[i as int]@);
        if let Some(id) = find_named(doc, chain[i], category, name) {
            if let Some(Value::Stream(s)) = doc.get_object(id) {
                return Some((id, s));
            }
        }
        i += 1;
    }
    None
}

fn lookup_font(doc: &Pdf, chain: &Vec<&Dict>, name: &Vec<u8>) -> (r: Option<ObjectId>)
    requires
        doc.wf(),
    ensures
        r == font_named(doc@.objects, chain_view(chain@), name@, 0),
{
    let ghost t = doc@.objects;
    let ghost view = chain_view(chain@);
    let mut i: usize = 0;
    while i < chain.len()
        invariant
            i <= chain@.len(),
            doc.wf(),
            t == doc@.objects,
            view == chain_view(chain@),
            font_named(t, view, name@, 0) == font_named(t, view, name@, i as int),
        decreases chain@.len() - i,
    {
        assert(view[i as int] == chain@[i as int]@);
        if let Some(id) = find_named(doc, chain[i], "Font", name) {
            return Some(id);
        }
        i += 1;
    }
    None
}

fn first_numbers(q: Vec<Quantity>, n: usize) -> (r: Vec<Quantity>)
    requires
        n <= q@.len(),
    ensures
        function::quantities_view(r@) == function::quantities_view(q@).take(n as int),
{
    let ghost before = q@;
    let mut q = q;
    q.truncate(n);
    assert(function::quantities_view(q@) =~= function::quantities_view(before).take(n as int));
    q
}

fn push_path(op: &Operation, out: &mut Vec<Event>)
    ensures
        events_view(final(out)@) == events_view(old(out)@) + path_events(op@),
{
    let ghost before = events_view(out@);
    let o = &op.operator;
    let q = find_numbers(op);
    let n: usize = q.len();
    assert(operand_numbers(op@).len() == n);
    if (text::is(o, "m") || text::is(o, "l")) && n >= 2 {
        push_event(out, Event::Points(first_numbers(q, 2)));
    } else if text::is(o, "c") && n >= 6 {
        push_event(out, Event::Points(q));
    } else if (text::is(o, "v") || text::is(o, "y")) && n >= 4 {
        push_event(out, Event::Points(q));
    } else if text::is(o, "re") && n >= 4 {
        push_event(out, Event::Rectangle(first_numbers(q, 4)));
    } else if text::is(o, "W") || text::is(o, "W*") {
        push_event(out, Event::MarkClip);
    } else if text::is(o, "n") || text::is(o, "S") || text::is(o, "s") || text::is(o, "f")
        || text::is(o, "F") || text::is(o, "f*") || text::is(o, "B") || text::is(o, "B*")
        || text::is(o, "b") || text::is(o, "b*") {
        push_event(out, Event::EndPath);
    }
    assert(events_view(out@) =~= before + path_events(op@));
}

fn push_shown(v: &Value, font: ObjectId, out: &mut Vec<Event>)
    ensures
        events_view(final(out)@) == match v@ {
            ValueView::String(s, _) => events_view(old(out)@).push(
                EventView::Show { font, text: s },
            ),
            _ => events_view(old(out)@),
        },
{
    if let Value::String(s, _) = v {
        push_event(out, Event::Show { font, text: bytes::copy(s) });
    }
}

fn push_text(op: &Operation, font: Option<ObjectId>, out: &mut Vec<Event>)
    ensures
        events_view(final(out)@) == events_view(old(out)@) + text_events(op@, font),
{
    let ghost before = events_view(out@);
    let f = match font {
        Some(f) => f,
        None => {
            assert(before + Seq::<EventView>::empty() =~= before);
            return ;
        },
    };
    if text::is(&op.operator, "TJ") {
        if op.operands.len() > 0 {
            assert(op@.operands[0] == op.operands@[0]@);
            if let Value::Array(items) = &op.operands[0].value {
                let ghost view = object::objects_view(items@);
                proof {
                    object::lemma_array_view(*items);
                }
                let mut i: usize = 0;
                assert(events_view(out@) =~= before + shown(view, f, 0));
                while i < items.len()
                    invariant
                        i <= items@.len(),
                        view == object::objects_view(items@),
                        events_view(out@) == before + shown(view, f, i as int),
                    decreases items@.len() - i,
                {
                    assert(view[i as int] == items@[i as int]@);
                    push_shown(&items[i], f, out);
                    i += 1;
                    assert(events_view(out@) =~= before + shown(view, f, i as int));
                }
                return ;
            }
        }
        assert(events_view(out@) =~= before + text_events(op@, font));
        return ;
    }
    let ghost values = values_of(op@.operands);
    let mut i: usize = 0;
    assert(events_view(out@) =~= before + shown(values, f, 0));
    while i < op.operands.len()
        invariant
            i <= op.operands@.len(),
            values == values_of(op@.operands),
            events_view(out@) == before + shown(values, f, i as int),
        decreases op.operands@.len() - i,
    {
        assert(op@.operands[i as int] == op.operands@[i as int]@);
        assert(values[i as int] == op.operands@[i as int].value@);
        push_shown(&op.operands[i].value, f, out);
        i += 1;
        assert(events_view(out@) =~= before + shown(values, f, i as int));
    }
}

fn find_pixels(d: &Dict, key: &str) -> (r: u32)
    ensures
        r == pixels_of(object::lookup(d@, bytes::text(key@))),
{
    match d.get(key.as_bytes()) {
        Some(Value::Integer(i)) => if *i < 0 {
            0
        } else {
            *i as u32
        },
        _ => 0,
    }
}

fn holds_id(ids: &Vec<ObjectId>, id: ObjectId) -> (r: bool)
    ensures
        r == ids@.contains(id),
{
    let mut i: usize = 0;
    while i < ids.len()
        invariant
            i <= ids@.len(),
            forall|k: int| 0 <= k < i ==> #[trigger] ids@[k] != id,
        decreases ids@.len() - i,
    {
        if ids[i].0 == id.0 && ids[i].1 == id.1 {
            assert(ids@[i as int] == id);
            return true;
        }
        i += 1;
    }
    false
}

fn inner_chain<'a>(doc: &'a Pdf, d: &'a Dict, chain: &Vec<&'a Dict>) -> (r: Vec<&'a Dict>)
    requires
        doc.wf(),
    ensures
        chain_view(r@) == form_chain(doc@.objects, d@, chain_view(chain@)),
{
    let ghost view = chain_view(chain@);
    let mut out: Vec<&'a Dict> = Vec::new();
    let own = match d.get("Resources".as_bytes()) {
        Some(Value::Dictionary(r)) => Some(r),
        Some(Value::Reference(id)) => doc.get_dictionary(*id),
        _ => None,
    };
    assert(chain_view(out@) =~= Seq::empty());
    if let Some(r) = own {
        out.push(r);
        assert(chain_view(out@) =~= seq![r@]);
    }
    let ghost front = chain_view(out@);
    let mut i: usize = 0;
    assert(chain_view(out@) =~= front + view.take(0));
    while i < chain.len()
        invariant
            i <= chain@.len(),
            view == chain_view(chain@),
            chain_view(out@) == front + view.take(i as int),
        decreases chain@.len() - i,
    {
        let ghost before = chain_view(out@);
        out.push(chain[i]);
        assert(chain_view(out@) =~= before.push(view[i as int]));
        i += 1;
        assert(chain_view(out@) =~= front + view.take(i as int));
    }
    assert(view.take(i as int) =~= view);
    assert(front + view =~= form_chain(doc@.objects, d@, view));
    out
}

fn copy_ids(ids: &Vec<ObjectId>, more: ObjectId) -> (r: Vec<ObjectId>)
    ensures
        r@ == ids@.push(more),
{
    let mut out: Vec<ObjectId> = Vec::new();
    let mut i: usize = 0;
    while i < ids.len()
        invariant
            i <= ids@.len(),
            out@ == ids@.take(i as int),
        decreases ids@.len() - i,
    {
        out.push(ids[i]);
        i += 1;
        assert(out@ =~= ids@.take(i as int));
    }
    assert(out@ =~= ids@);
    out.push(more);
    out
}

fn walk_form(
    doc: &Pdf,
    id: ObjectId,
    form: &DataStream,
    chain: &Vec<&Dict>,
    font: Option<ObjectId>,
    seen: &Vec<ObjectId>,
    fuel: usize,
    fresh: bool,
    out: &mut Vec<Event>,
)
    requires
        doc.wf(),
    ensures
        events_view(final(out)@) == events_view(old(out)@) + form_events(
            doc@.objects,
            id,
            form.dict@,
            form.content@,
            chain_view(chain@),
            font,
            seen@,
            fuel as nat,
            fresh,
        ),
    decreases fuel, 1int, 0int,
{
    let ghost before = events_view(out@);
    let ghost t = doc@.objects;
    if fuel == 0 || holds_id(seen, id) {
        assert(before + Seq::<EventView>::empty() =~= before);
        return ;
    }
    let content = match backend::decompress(form, pages::MAX_CONTENT_BYTES) {
        Ok(b) => b,
        Err(_) => {
            assert(before + Seq::<EventView>::empty() =~= before);
            return ;
        },
    };
    let enter = Event::Enter {
        matrix: find_matrix(&form.dict),
        bounds: find_rect(doc, &form.dict, "BBox"),
        fresh,
    };
    let ghost entered = enter@;
    push_event(out, enter);
    let inner = inner_chain(doc, &form.dict, chain);
    let deeper = copy_ids(seen, id);
    walk(doc, &content, &inner, font, &deeper, fuel - 1, out);
    push_event(out, Event::Leave);
    proof {
        let middle = walk_events(
            t,
            content@,
            form_chain(t, form.dict@, chain_view(chain@)),
            font,
            seen@.push(id),
            (fuel - 1) as nat,
        );
        assert(events_view(out@) =~= before + (seq![entered] + middle + seq![EventView::Leave]));
    }
}

fn walk_op(
    doc: &Pdf,
    op: &Operation,
    chain: &Vec<&Dict>,
    font: Option<ObjectId>,
    seen: &Vec<ObjectId>,
    fuel: usize,
    out: &mut Vec<Event>,
)
    requires
        doc.wf(),
    ensures
        events_view(final(out)@) == events_view(old(out)@) + op_events(
            doc@.objects,
            op@,
            chain_view(chain@),
            font,
            seen@,
            fuel as nat,
        ),
    decreases fuel, 2int, 0int,
{
    let ghost before = events_view(out@);
    let ghost goal = op_events(doc@.objects, op@, chain_view(chain@), font, seen@, fuel as nat);
    let o = &op.operator;
    if text::is(o, "q") {
        push_event(out, Event::Save);
    } else if text::is(o, "Q") {
        push_event(out, Event::Restore);
    } else if text::is(o, "cm") {
        let q = find_numbers(op);
        assert(operand_numbers(op@).len() == q@.len());
        if q.len() == 6 {
            push_event(out, Event::Concat(q));
        }
    } else if text::is(o, "Do") {
        if op.operands.len() > 0 {
            assert(op@.operands[0] == op.operands@[0]@);
            if let Value::Name(n) = &op.operands[0].value {
                if let Some((id, s)) = lookup_stream(doc, chain, "XObject", n) {
                    if let Some(Value::Name(kind)) = s.dict.get("Subtype".as_bytes()) {
                        if bytes::is_text(kind, "Image") {
                            push_event(
                                out,
                                Event::Place {
                                    image: id,
                                    width: find_pixels(&s.dict, "Width"),
                                    height: find_pixels(&s.dict, "Height"),
                                },
                            );
                        } else if bytes::is_text(kind, "Form") {
                            walk_form(doc, id, s, chain, font, seen, fuel, false, out);
                        }
                    }
                }
            }
        }
    } else if text::is(o, "scn") || text::is(o, "SCN") {
        let last: usize = op.operands.len();
        if last > 0 {
            assert(op@.operands.last() == op.operands@[last - 1]@);
            if let Value::Name(n) = &op.operands[last - 1].value {
                if let Some((id, s)) = lookup_stream(doc, chain, "Pattern", n) {
                    let tiling = match s.dict.get("PatternType".as_bytes()) {
                        Some(Value::Integer(p)) => *p == 1,
                        _ => false,
                    };
                    if tiling {
                        walk_form(doc, id, s, chain, font, seen, fuel, true, out);
                    }
                }
            }
        }
    } else if text::is(o, "Tj") || text::is(o, "TJ") || text::is(o, "'") || text::is(o, "\"") {
        push_text(op, font, out);
    } else {
        push_path(op, out);
    }
    assert(events_view(out@) =~= before + goal);
}

fn next_font(
    doc: &Pdf,
    op: &Operation,
    chain: &Vec<&Dict>,
    first: Option<ObjectId>,
    font: Option<ObjectId>,
    saved: &mut Vec<Option<ObjectId>>,
) -> (r: Option<ObjectId>)
    requires
        doc.wf(),
    ensures
        (WalkState { font: r, saved: final(saved)@ }) == op_state(
            doc@.objects,
            op@,
            chain_view(chain@),
            first,
            WalkState { font, saved: old(saved)@ },
        ),
{
    if text::is(&op.operator, "q") {
        saved.push(font);
        font
    } else if text::is(&op.operator, "Q") {
        match saved.pop() {
            Some(f) => {
                assert(saved@ =~= old(saved)@.drop_last());
                f
            },
            None => first,
        }
    } else if text::is(&op.operator, "Tf") {
        if op.operands.len() == 0 {
            font
        } else {
            assert(op@.operands[0] == op.operands@[0]@);
            match &op.operands[0].value {
                Value::Name(n) => lookup_font(doc, chain, n),
                _ => font,
            }
        }
    } else {
        font
    }
}

fn walk(
    doc: &Pdf,
    content: &Vec<u8>,
    chain: &Vec<&Dict>,
    first: Option<ObjectId>,
    seen: &Vec<ObjectId>,
    fuel: usize,
    out: &mut Vec<Event>,
)
    requires
        doc.wf(),
    ensures
        events_view(final(out)@) == events_view(old(out)@) + walk_events(
            doc@.objects,
            content@,
            chain_view(chain@),
            first,
            seen@,
            fuel as nat,
        ),
    decreases fuel, 4int, 0int,
{
    let ghost before = events_view(out@);
    let ghost t = doc@.objects;
    let ghost view = chain_view(chain@);
    let ops = match operations::decode(content) {
        Some(ops) => ops,
        None => {
            assert(before + Seq::<EventView>::empty() =~= before);
            return ;
        },
    };
    let ghost list = operations::operations_view(ops@);
    let mut font = first;
    let mut saved: Vec<Option<ObjectId>> = Vec::new();
    let mut i: usize = 0;
    assert(events_view(out@) =~= before + run_events(t, list, 0, view, first, seen@, fuel as nat));
    assert(saved@ =~= Seq::empty());
    while i < ops.len()
        invariant
            i <= ops@.len(),
            doc.wf(),
            t == doc@.objects,
            view == chain_view(chain@),
            list == operations::operations_view(ops@),
            (WalkState { font, saved: saved@ }) == run_state(t, list, i as int, view, first),
            events_view(out@) == before + run_events(
                t,
                list,
                i as int,
                view,
                first,
                seen@,
                fuel as nat,
            ),
        decreases ops@.len() - i,
    {
        let op = &ops[i];
        assert(list[i as int] == op@);
        walk_op(doc, op, chain, font, seen, fuel, out);
        font = next_font(doc, op, chain, first, font, &mut saved);
        i += 1;
        assert(events_view(out@) =~= before + run_events(
            t,
            list,
            i as int,
            view,
            first,
            seen@,
            fuel as nat,
        ));
    }
}

fn push_annotation(
    doc: &Pdf,
    v: &Value,
    out: &mut Vec<Event>,
    chain: &Vec<&Dict>,
)
    requires
        doc.wf(),
    ensures
        events_view(final(out)@) == events_view(old(out)@) + match v@ {
            ValueView::Reference(id) => match document::dictionary_at(doc@.objects, id) {
                Some(d) => annotation_events(doc@.objects, d, chain_view(chain@)),
                None => Seq::empty(),
            },
            ValueView::Dictionary(d) => annotation_events(doc@.objects, d, chain_view(chain@)),
            _ => Seq::empty(),
        },
{
    let ghost before = events_view(out@);
    assert(before + Seq::<EventView>::empty() =~= before);
    match v {
        Value::Reference(id) => match doc.get_dictionary(*id) {
            Some(d) => {
                walk_annotation(doc, d, chain, out);
            },
            None => {},
        },
        Value::Dictionary(d) => {
            walk_annotation(doc, d, chain, out);
        },
        _ => {},
    }
}

fn find_appearance(doc: &Pdf, d: &Dict) -> (r: Option<ObjectId>)
    requires
        doc.wf(),
    ensures
        r == appearance_of(doc@.objects, d@),
{
    let v = match d.get("AP".as_bytes()) {
        Some(v) => v,
        None => {
            return None;
        },
    };
    let ap = match doc.dereference(v) {
        Some(Value::Dictionary(ap)) => ap,
        _ => {
            return None;
        },
    };
    match ap.get("N".as_bytes()) {
        Some(Value::Reference(id)) => Some(*id),
        Some(Value::Dictionary(states)) => {
            let entry = match d.get("AS".as_bytes()) {
                Some(Value::Name(k)) => states.get(k),
                _ => if states.entries.len() == 0 {
                    None
                } else {
                    assert(states@[0].1 == states.entries@[0].1@);
                    Some(&states.entries[0].1)
                },
            };
            match entry {
                Some(Value::Reference(id)) => Some(*id),
                _ => None,
            }
        },
        _ => None,
    }
}

fn walk_annotation(doc: &Pdf, d: &Dict, chain: &Vec<&Dict>, out: &mut Vec<Event>)
    requires
        doc.wf(),
    ensures
        events_view(final(out)@) == events_view(old(out)@) + annotation_events(
            doc@.objects,
            d@,
            chain_view(chain@),
        ),
{
    let ghost before = events_view(out@);
    let ghost goal = annotation_events(doc@.objects, d@, chain_view(chain@));
    if let Some(id) = find_appearance(doc, d) {
        if let Some(rect) = find_rect(doc, d, "Rect") {
            if let Some(Value::Stream(s)) = doc.get_object(id) {
                let start = Event::Appearance {
                    matrix: find_matrix(&s.dict),
                    bounds: find_rect(doc, &s.dict, "BBox"),
                    rect,
                };
                push_event(out, start);
                let none: Vec<ObjectId> = Vec::new();
                assert(none@ =~= Seq::empty());
                walk_form(doc, id, s, chain, None, &none, MAX_DEPTH, false, out);
            }
        }
    }
    assert(events_view(out@) =~= before + goal);
}

/// What the items of an annotation array meet, one by one.
proof fn lemma_annotations(
    t: document::TableView,
    items: Seq<ValueView>,
    chain: ChainView,
    n: int,
)
    requires
        0 < n <= items.len(),
    ensures
        ({
            let list = annotations_in(t, items, n);
            let front = annotations_in(t, items, n - 1);
            annotations_events(t, list, chain, list.len() as int) == annotations_events(
                t,
                front,
                chain,
                front.len() as int,
            ) + match items[n - 1] {
                ValueView::Reference(id) => match document::dictionary_at(t, id) {
                    Some(d) => annotation_events(t, d, chain),
                    None => Seq::empty(),
                },
                ValueView::Dictionary(d) => annotation_events(t, d, chain),
                _ => Seq::empty(),
            }
        }),
{
    let list = annotations_in(t, items, n);
    let front = annotations_in(t, items, n - 1);
    let old_events = annotations_events(t, front, chain, front.len() as int);
    assert(old_events + Seq::<EventView>::empty() =~= old_events);
    if list.len() > front.len() {
        assert(list.drop_last() =~= front);
        lemma_same_front(t, list, front, chain, front.len() as int);
    }
}

proof fn lemma_same_front(
    t: document::TableView,
    list: Seq<object::DictView>,
    front: Seq<object::DictView>,
    chain: ChainView,
    n: int,
)
    requires
        0 <= n <= front.len() <= list.len(),
        forall|i: int| 0 <= i < front.len() ==> list[i] == #[trigger] front[i],
    ensures
        annotations_events(t, list, chain, n) == annotations_events(t, front, chain, n),
    decreases n,
{
    if n > 0 {
        lemma_same_front(t, list, front, chain, n - 1);
        assert(list[n - 1] == front[n - 1]);
    }
}

fn walk_annotations(doc: &Pdf, page: ObjectId, chain: &Vec<&Dict>, out: &mut Vec<Event>)
    requires
        doc.wf(),
    ensures
        ({
            let list = page_annotations(doc@.objects, page);
            events_view(final(out)@) == events_view(old(out)@) + annotations_events(
                doc@.objects,
                list,
                chain_view(chain@),
                list.len() as int,
            )
        }),
{
    let ghost before = events_view(out@);
    let ghost t = doc@.objects;
    let ghost view = chain_view(chain@);
    assert(before + Seq::<EventView>::empty() =~= before);
    let d = match doc.get_dictionary(page) {
        Some(d) => d,
        None => {
            return ;
        },
    };
    let items = match d.get("Annots".as_bytes()) {
        Some(Value::Reference(id)) => match doc.get_object(*id) {
            Some(Value::Array(items)) => items,
            _ => {
                return ;
            },
        },
        Some(Value::Array(items)) => items,
        _ => {
            return ;
        },
    };
    let ghost values = object::objects_view(items@);
    proof {
        object::lemma_array_view(*items);
    }
    assert(page_annotations(t, page) == annotations_in(t, values, values.len() as int));
    let mut i: usize = 0;
    while i < items.len()
        invariant
            i <= items@.len(),
            doc.wf(),
            t == doc@.objects,
            view == chain_view(chain@),
            values == object::objects_view(items@),
            events_view(out@) == before + annotations_events(
                t,
                annotations_in(t, values, i as int),
                view,
                annotations_in(t, values, i as int).len() as int,
            ),
        decreases items@.len() - i,
    {
        assert(values[i as int] == items@[i as int]@);
        let ghost so_far = events_view(out@);
        push_annotation(doc, &items[i], out, chain);
        proof {
            lemma_annotations(t, values, view, i + 1);
        }
        i += 1;
        assert(events_view(out@) =~= before + annotations_events(
            t,
            annotations_in(t, values, i as int),
            view,
            annotations_in(t, values, i as int).len() as int,
        ));
    }
}

/// Walk one page: its content under the identity transformation clipped to the
/// crop box, then its annotation appearance streams.
pub fn walk_page(doc: &Pdf, page: ObjectId, out: &mut Vec<Event>)
    requires
        doc.wf(),
    ensures
        events_view(final(out)@) == events_view(old(out)@) + page_events(doc@.objects, page),
{
    let ghost before = events_view(out@);
    let chain = match find_page_chain(doc, page) {
        Some(c) => c,
        None => {
            assert(before + Seq::<EventView>::empty() =~= before);
            return ;
        },
    };
    let (media, crop) = match doc.get_dictionary(page) {
        Some(d) => (find_rect(doc, d, "MediaBox"), find_rect(doc, d, "CropBox")),
        None => (None, None),
    };
    push_event(out, Event::Page { media, crop });
    let ghost first = events_view(out@);
    if let Some(content) = pages::page_content(doc, page) {
        let none: Vec<ObjectId> = Vec::new();
        assert(none@ =~= Seq::empty());
        walk(doc, &content, &chain, None, &none, MAX_DEPTH, out);
    } else {
        assert(first + Seq::<EventView>::empty() =~= first);
    }
    walk_annotations(doc, page, &chain, out);
    assert(events_view(out@) =~= before + page_events(doc@.objects, page));
}

// ------------------------------------------------------------- laws

/// Tells the operators apart.
proof fn lemma_operators()
    ensures
        "q"@.len() == 1 && "q"@[0] == 'q',
        "Q"@.len() == 1 && "Q"@[0] == 'Q',
        "cm"@.len() == 2 && "cm"@[0] == 'c' && "cm"@[1] == 'm',
        "Do"@.len() == 2 && "Do"@[0] == 'D' && "Do"@[1] == 'o',
        "scn"@.len() == 3 && "scn"@[0] == 's' && "scn"@[1] == 'c' && "scn"@[2] == 'n',
        "SCN"@.len() == 3 && "SCN"@[0] == 'S' && "SCN"@[1] == 'C' && "SCN"@[2] == 'N',
        "Tj"@.len() == 2 && "Tj"@[0] == 'T' && "Tj"@[1] == 'j',
        "TJ"@.len() == 2 && "TJ"@[0] == 'T' && "TJ"@[1] == 'J',
        "Tf"@.len() == 2 && "Tf"@[0] == 'T' && "Tf"@[1] == 'f',
        "'"@.len() == 1 && "'"@[0] == '\'',
        "\""@.len() == 1 && "\""@[0] == '"',
        "m"@.len() == 1 && "m"@[0] == 'm',
        "l"@.len() == 1 && "l"@[0] == 'l',
        "c"@.len() == 1 && "c"@[0] == 'c',
        "v"@.len() == 1 && "v"@[0] == 'v',
        "y"@.len() == 1 && "y"@[0] == 'y',
        "re"@.len() == 2 && "re"@[0] == 'r' && "re"@[1] == 'e',
        "W"@.len() == 1 && "W"@[0] == 'W',
        "W*"@.len() == 2 && "W*"@[0] == 'W' && "W*"@[1] == '*',
        "n"@.len() == 1 && "n"@[0] == 'n',
        "S"@.len() == 1 && "S"@[0] == 'S',
        "s"@.len() == 1 && "s"@[0] == 's',
        "f"@.len() == 1 && "f"@[0] == 'f',
        "F"@.len() == 1 && "F"@[0] == 'F',
        "f*"@.len() == 2 && "f*"@[0] == 'f' && "f*"@[1] == '*',
        "B"@.len() == 1 && "B"@[0] == 'B',
        "B*"@.len() == 2 && "B*"@[0] == 'B' && "B*"@[1] == '*',
        "b"@.len() == 1 && "b"@[0] == 'b',
        "b*"@.len() == 2 && "b*"@[0] == 'b' && "b*"@[1] == '*',
{
    reveal_strlit("q");
    reveal_strlit("Q");
    reveal_strlit("cm");
    reveal_strlit("Do");
    reveal_strlit("scn");
    reveal_strlit("SCN");
    reveal_strlit("Tj");
    reveal_strlit("TJ");
    reveal_strlit("Tf");
    reveal_strlit("'");
    reveal_strlit("\"");
    reveal_strlit("m");
    reveal_strlit("l");
    reveal_strlit("c");
    reveal_strlit("v");
    reveal_strlit("y");
    reveal_strlit("re");
    reveal_strlit("W");
    reveal_strlit("W*");
    reveal_strlit("n");
    reveal_strlit("S");
    reveal_strlit("s");
    reveal_strlit("f");
    reveal_strlit("F");
    reveal_strlit("f*");
    reveal_strlit("B");
    reveal_strlit("B*");
    reveal_strlit("b");
    reveal_strlit("b*");
}

/// Whether the operands of an operation are these numbers, one for one.
pub open spec fn written_with(op: OperationView, q: Seq<QuantityView>) -> bool {
    &&& op.operands.len() == q.len()
    &&& forall|i: int|
        0 <= i < q.len() ==> function::quantity_of((#[trigger] op.operands[i]).value) == Some(q[i])
}

proof fn lemma_written_with(op: OperationView, q: Seq<QuantityView>, n: int)
    requires
        written_with(op, q),
        0 <= n <= q.len(),
    ensures
        numbers_in(values_of(op.operands), n) == q.take(n),
    decreases n,
{
    if n == 0 {
        assert(q.take(0) =~= Seq::empty());
    } else {
        lemma_written_with(op, q, n - 1);
        assert(values_of(op.operands)[n - 1] == op.operands[n - 1].value);
        assert(q.take(n - 1).push(q[n - 1]) =~= q.take(n));
    }
}

/// What an operation draws or does to the drawing, by its operator and the
/// numbers it is written with. `x y w h re` is a rectangle; `m` and `l` bring
/// one point, `c` three, `v` and `y` two; `cm` changes the transformation;
/// `W` and `W*` mark the clip; the painting operators end the path.
pub proof fn operators_draw_what_they_say(
    t: document::TableView,
    op: OperationView,
    q: Seq<QuantityView>,
    chain: ChainView,
    font: Option<ObjectId>,
    seen: Seq<ObjectId>,
    fuel: nat,
)
    requires
        written_with(op, q),
    ensures
        ({
            let o = op.operator;
            let events = op_events(t, op, chain, font, seen, fuel);
            &&& o == "re"@ && q.len() == 4 ==> events == seq![
                EventView::Rectangle(seq![q[0], q[1], q[2], q[3]]),
            ]
            &&& o == "m"@ && q.len() == 2 ==> events == seq![
                EventView::Points(seq![q[0], q[1]]),
            ]
            &&& o == "l"@ && q.len() == 2 ==> events == seq![
                EventView::Points(seq![q[0], q[1]]),
            ]
            &&& o == "c"@ && q.len() == 6 ==> events == seq![
                EventView::Points(seq![q[0], q[1], q[2], q[3], q[4], q[5]]),
            ]
            &&& o == "v"@ && q.len() == 4 ==> events == seq![
                EventView::Points(seq![q[0], q[1], q[2], q[3]]),
            ]
            &&& o == "y"@ && q.len() == 4 ==> events == seq![
                EventView::Points(seq![q[0], q[1], q[2], q[3]]),
            ]
            &&& o == "cm"@ && q.len() == 6 ==> events == seq![
                EventView::Concat(seq![q[0], q[1], q[2], q[3], q[4], q[5]]),
            ]
            &&& o == "q"@ ==> events == seq![EventView::Save]
            &&& o == "Q"@ ==> events == seq![EventView::Restore]
            &&& o == "W"@ || o == "W*"@ ==> events == seq![EventView::MarkClip]
            &&& o == "n"@ || o == "S"@ || o == "s"@ || o == "f"@ || o == "F"@ || o == "f*"@ || o
                == "B"@ || o == "B*"@ || o == "b"@ || o == "b*"@ ==> events == seq![
                EventView::EndPath,
            ]
        }),
{
    lemma_operators();
    lemma_written_with(op, q, q.len() as int);
    assert(q.take(q.len() as int) =~= q);
    assert(operand_numbers(op) == q);
    if q.len() == 2 {
        assert(q.take(2) =~= seq![q[0], q[1]]);
    }
    if q.len() == 4 {
        assert(q.take(4) =~= seq![q[0], q[1], q[2], q[3]]);
        assert(q =~= seq![q[0], q[1], q[2], q[3]]);
    }
    if q.len() == 6 {
        assert(q =~= seq![q[0], q[1], q[2], q[3], q[4], q[5]]);
    }
}

/// Whether an operator leads into another content stream.
pub open spec fn leads_inside(o: Seq<char>) -> bool {
    o == "Do"@ || o == "scn"@ || o == "SCN"@
}

/// Nothing else draws: of the operators that do not lead into another content
/// stream, only `re` brings a rectangle, only `m`, `l`, `c`, `v` and `y` bring
/// points, only `cm` changes the transformation, only `W` and `W*` mark a clip,
/// only the painting operators end a path, only `q` saves and `Q` restores, and
/// only `Tj`, `TJ`, `'` and `"` show text; and none places an image.
pub proof fn only_these_operators_draw(
    t: document::TableView,
    op: OperationView,
    chain: ChainView,
    font: Option<ObjectId>,
    seen: Seq<ObjectId>,
    fuel: nat,
    i: int,
)
    requires
        !leads_inside(op.operator),
        0 <= i < op_events(t, op, chain, font, seen, fuel).len(),
    ensures
        ({
            let o = op.operator;
            match op_events(t, op, chain, font, seen, fuel)[i] {
                EventView::Rectangle(_) => o == "re"@,
                EventView::Points(_) => o == "m"@ || o == "l"@ || o == "c"@ || o == "v"@ || o
                    == "y"@,
                EventView::Concat(_) => o == "cm"@,
                EventView::Save => o == "q"@,
                EventView::Restore => o == "Q"@,
                EventView::MarkClip => o == "W"@ || o == "W*"@,
                EventView::EndPath => o == "n"@ || o == "S"@ || o == "s"@ || o == "f"@ || o == "F"@
                    || o == "f*"@ || o == "B"@ || o == "B*"@ || o == "b"@ || o == "b*"@,
                EventView::Show { font: f, text: _ } => font == Some(f) && (o == "Tj"@ || o == "TJ"@
                    || o == "'"@ || o == "\""@),
                _ => false,
            }
        }),
{
    lemma_operators();
    let o = op.operator;
    if o == "Tj"@ || o == "TJ"@ || o == "'"@ || o == "\""@ {
        if let Some(f) = font {
            if o == "TJ"@ {
                if op.operands.len() > 0 {
                    if let ValueView::Array(items) = op.operands[0].value {
                        lemma_shown(items, f, items.len() as int, i);
                    }
                }
            } else {
                lemma_shown(values_of(op.operands), f, op.operands.len() as int, i);
            }
        }
    }
}

proof fn lemma_shown(items: Seq<ValueView>, font: ObjectId, n: int, i: int)
    requires
        0 <= i < shown(items, font, n).len(),
    ensures
        shown(items, font, n)[i] matches EventView::Show { font: f, text: _ } && f == font,
    decreases n,
{
    if n > 0 && n <= items.len() {
        if i < shown(items, font, n - 1).len() {
            lemma_shown(items, font, n - 1, i);
        }
    }
}

proof fn lemma_shown_all(items: Seq<ValueView>, font: ObjectId, n: int, k: int)
    requires
        0 <= k < n <= items.len(),
        items[k] is String,
    ensures
        shown(items, font, n).contains(EventView::Show { font, text: items[k]->String_0 }),
    decreases n,
{
    let all = shown(items, font, n);
    let event = EventView::Show { font, text: items[k]->String_0 };
    if k == n - 1 {
        assert(all.last() == event);
        assert(all[all.len() - 1] == event);
    } else {
        lemma_shown_all(items, font, n - 1, k);
        let front = shown(items, font, n - 1);
        let j = choose|j: int| 0 <= j < front.len() && front[j] == event;
        assert(all[j] == event);
    }
}

/// Every string that an operation shows is listed with the current font: the
/// operands of `Tj`, `'` and `"`, and the items of the array of `TJ`.
pub proof fn strings_are_shown_with_the_current_font(
    t: document::TableView,
    op: OperationView,
    chain: ChainView,
    font: ObjectId,
    seen: Seq<ObjectId>,
    fuel: nat,
    k: int,
    text: Seq<u8>,
    form: object::StringForm,
)
    requires
        op.operator == "TJ"@ ==> op.operands.len() > 0 && op.operands[0].value is Array && 0 <= k
            < op.operands[0].value->Array_0.len() && op.operands[0].value->Array_0[k]
            == ValueView::String(text, form),
        op.operator != "TJ"@ ==> (op.operator == "Tj"@ || op.operator == "'"@ || op.operator
            == "\""@) && 0 <= k < op.operands.len() && op.operands[k].value == ValueView::String(
            text,
            form,
        ),
    ensures
        op_events(t, op, chain, Some(font), seen, fuel).contains(EventView::Show { font, text }),
{
    lemma_operators();
    if op.operator == "TJ"@ {
        let items = op.operands[0].value->Array_0;
        lemma_shown_all(items, font, items.len() as int, k);
    } else {
        assert(values_of(op.operands)[k] == op.operands[k].value);
        lemma_shown_all(values_of(op.operands), font, op.operands.len() as int, k);
    }
}

/// `/N Do` places an image by its own size where the innermost resources that
/// have `N` among their XObjects lead to one.
pub proof fn images_are_placed(
    t: document::TableView,
    op: OperationView,
    chain: ChainView,
    font: Option<ObjectId>,
    seen: Seq<ObjectId>,
    fuel: nat,
    id: ObjectId,
    d: object::DictView,
    content: Seq<u8>,
    width: i64,
    height: i64,
)
    requires
        op.operator == "Do"@,
        op.operands.len() > 0,
        op.operands[0].value is Name,
        chain.len() > 0,
        named_in(t, chain[0], "XObject"@, op.operands[0].value->Name_0) == Some(id),
        document::object_at(t, id) == Some(ValueView::Stream(d, content)),
        object::lookup(d, bytes::text("Subtype"@)) == Some(
            ValueView::Name(bytes::text("Image"@)),
        ),
        object::lookup(d, bytes::text("Width"@)) == Some(ValueView::Integer(width)),
        object::lookup(d, bytes::text("Height"@)) == Some(ValueView::Integer(height)),
        0 <= width <= u32::MAX,
        0 <= height <= u32::MAX,
    ensures
        op_events(t, op, chain, font, seen, fuel) == seq![
            EventView::Place { image: id, width: width as u32, height: height as u32 },
        ],
{
    lemma_operators();
}

/// The rectangles among the first `n` events, in order.
pub open spec fn rectangles(events: Seq<EventView>, n: int) -> Seq<Seq<QuantityView>>
    decreases n,
{
    if n <= 0 || n > events.len() {
        Seq::empty()
    } else {
        match events[n - 1] {
            EventView::Rectangle(q) => rectangles(events, n - 1).push(q),
            _ => rectangles(events, n - 1),
        }
    }
}

proof fn lemma_rectangles_joined(a: Seq<EventView>, b: Seq<EventView>, n: int)
    requires
        0 <= n <= b.len(),
    ensures
        rectangles(a + b, a.len() + n) == rectangles(a, a.len() as int) + rectangles(b, n),
    decreases n,
{
    let all = a + b;
    if n == 0 {
        lemma_rectangles_front(a, b, a.len() as int);
        assert(rectangles(a, a.len() as int) + rectangles(b, 0) =~= rectangles(a, a.len() as int));
    } else {
        lemma_rectangles_joined(a, b, n - 1);
        assert(all[a.len() + n - 1] == b[n - 1]);
        let front = rectangles(a, a.len() as int);
        match b[n - 1] {
            EventView::Rectangle(q) => {
                assert(front + rectangles(b, n - 1).push(q) =~= (front + rectangles(b, n - 1)).push(
                    q,
                ));
            },
            _ => {},
        }
    }
}

proof fn lemma_rectangles_front(a: Seq<EventView>, b: Seq<EventView>, n: int)
    requires
        0 <= n <= a.len(),
    ensures
        rectangles(a + b, n) == rectangles(a, n),
    decreases n,
{
    if n > 0 {
        lemma_rectangles_front(a, b, n - 1);
        assert((a + b)[n - 1] == a[n - 1]);
    }
}

/// The four numbers of each `re` among the first `n` operations, in order.
pub open spec fn written_rectangles(ops: Seq<OperationView>, n: int) -> Seq<Seq<QuantityView>>
    decreases n,
{
    if n <= 0 || n > ops.len() {
        Seq::empty()
    } else {
        let q = operand_numbers(ops[n - 1]);
        if ops[n - 1].operator == "re"@ && q.len() >= 4 {
            written_rectangles(ops, n - 1).push(seq![q[0], q[1], q[2], q[3]])
        } else {
            written_rectangles(ops, n - 1)
        }
    }
}

proof fn lemma_rectangles_of(
    t: document::TableView,
    op: OperationView,
    chain: ChainView,
    font: Option<ObjectId>,
    seen: Seq<ObjectId>,
    fuel: nat,
)
    requires
        !leads_inside(op.operator),
    ensures
        ({
            let events = op_events(t, op, chain, font, seen, fuel);
            let q = operand_numbers(op);
            rectangles(events, events.len() as int) == if op.operator == "re"@ && q.len() >= 4 {
                seq![seq![q[0], q[1], q[2], q[3]]]
            } else {
                Seq::empty()
            }
        }),
{
    lemma_operators();
    let events = op_events(t, op, chain, font, seen, fuel);
    let q = operand_numbers(op);
    if op.operator == "re"@ {
        if q.len() >= 4 {
            assert(q.take(4) =~= seq![q[0], q[1], q[2], q[3]]);
            assert(events.len() == 1);
            assert(rectangles(events, 0) =~= Seq::empty());
            assert(rectangles(events, 1) =~= seq![seq![q[0], q[1], q[2], q[3]]]);
        }
    } else {
        assert forall|i: int| 0 <= i < events.len() implies !(#[trigger] events[i] is Rectangle) by {
            only_these_operators_draw(t, op, chain, font, seen, fuel, i);
        }
        lemma_no_rectangles(events, events.len() as int);
    }
}

proof fn lemma_no_rectangles(events: Seq<EventView>, n: int)
    requires
        0 <= n <= events.len(),
        forall|i: int| 0 <= i < events.len() ==> !(#[trigger] events[i] is Rectangle),
    ensures
        rectangles(events, n) == Seq::<Seq<QuantityView>>::empty(),
    decreases n,
{
    if n > 0 {
        lemma_no_rectangles(events, n - 1);
        assert(!(events[n - 1] is Rectangle));
    }
}

/// The rectangles that a walk lists are those of the `re` operations, in their
/// order and with their numbers, where nothing leads into other content.
pub proof fn rectangles_are_listed_in_order(
    t: document::TableView,
    ops: Seq<OperationView>,
    n: int,
    chain: ChainView,
    first: Option<ObjectId>,
    seen: Seq<ObjectId>,
    fuel: nat,
)
    requires
        0 <= n <= ops.len(),
        forall|k: int| 0 <= k < n ==> !leads_inside((#[trigger] ops[k]).operator),
    ensures
        ({
            let events = run_events(t, ops, n, chain, first, seen, fuel);
            rectangles(events, events.len() as int) == written_rectangles(ops, n)
        }),
    decreases n,
{
    if n > 0 {
        rectangles_are_listed_in_order(t, ops, n - 1, chain, first, seen, fuel);
        let front = run_events(t, ops, n - 1, chain, first, seen, fuel);
        let font = run_state(t, ops, n - 1, chain, first).font;
        let last = op_events(t, ops[n - 1], chain, font, seen, fuel);
        assert(!leads_inside(ops[n - 1].operator));
        lemma_rectangles_of(t, ops[n - 1], chain, font, seen, fuel);
        lemma_rectangles_joined(front, last, last.len() as int);
        let before = written_rectangles(ops, n - 1);
        let q = operand_numbers(ops[n - 1]);
        assert(before + seq![seq![q[0], q[1], q[2], q[3]]] =~= before.push(
            seq![q[0], q[1], q[2], q[3]],
        ));
        assert(before + Seq::<Seq<QuantityView>>::empty() =~= before);
    }
}

/// `q` and `Q` around operations bring the font back.
pub proof fn saved_fonts_come_back(
    t: document::TableView,
    save: OperationView,
    restore: OperationView,
    chain: ChainView,
    first: Option<ObjectId>,
    st: WalkState,
    font: Option<ObjectId>,
)
    requires
        save.operator == "q"@,
        restore.operator == "Q"@,
    ensures
        ({
            let saved = op_state(t, save, chain, first, st);
            let later = WalkState { font, ..saved };
            &&& saved.font == st.font
            &&& op_state(t, restore, chain, first, later) == st
            &&& op_state(t, restore, chain, first, WalkState { font, saved: Seq::empty() }).font
                == first
        }),
{
    lemma_operators();
    assert(st.saved.push(st.font).drop_last() =~= st.saved);
    assert(save.operator[0] == 'q' && restore.operator[0] == 'Q');
}

/// `/F Tf` makes `F` the current font: the one of that name in the innermost
/// resources that have it.
pub proof fn fonts_are_selected_by_name(
    t: document::TableView,
    op: OperationView,
    chain: ChainView,
    first: Option<ObjectId>,
    st: WalkState,
    name: Seq<u8>,
    id: ObjectId,
    k: int,
)
    requires
        op.operator == "Tf"@,
        op.operands.len() > 0,
        op.operands[0].value == ValueView::Name(name),
        0 <= k < chain.len(),
        named_in(t, chain[k], "Font"@, name) == Some(id),
        forall|j: int| 0 <= j < k ==> named_in(t, #[trigger] chain[j], "Font"@, name) is None,
    ensures
        op_state(t, op, chain, first, st) == (WalkState { font: Some(id), saved: st.saved }),
{
    lemma_operators();
    lemma_font_named(t, chain, name, id, k, 0);
}

proof fn lemma_font_named(
    t: document::TableView,
    chain: ChainView,
    name: Seq<u8>,
    id: ObjectId,
    k: int,
    i: int,
)
    requires
        0 <= i <= k < chain.len(),
        named_in(t, chain[k], "Font"@, name) == Some(id),
        forall|j: int| 0 <= j < k ==> named_in(t, #[trigger] chain[j], "Font"@, name) is None,
    ensures
        font_named(t, chain, name, i) == Some(id),
    decreases k - i,
{
    if i < k {
        assert(named_in(t, chain[i], "Font"@, name) is None);
        lemma_font_named(t, chain, name, id, k, i + 1);
    }
}

/// What a page meets starts with its two boxes: the media box and the crop
/// box, each from the entry of its name.
pub proof fn pages_start_with_their_boxes(t: document::TableView, page: ObjectId, d: object::DictView)
    requires
        document::dictionary_at(t, page) == Some(d),
        page_chain(t, page) is Some,
    ensures
        page_events(t, page).len() > 0,
        page_events(t, page)[0] == (EventView::Page {
            media: rect_of(t, object::lookup(d, bytes::text("MediaBox"@))),
            crop: rect_of(t, object::lookup(d, bytes::text("CropBox"@))),
        }),
{
}

/// A rectangle or a matrix of whole numbers is read in the order in which
/// they stand.
pub proof fn numbers_keep_their_order(t: document::TableView, a: i64, b: i64, c: i64, d: i64, e: i64, f: i64)
    ensures
        rect_of(
            t,
            Some(
                ValueView::Array(
                    seq![
                        ValueView::Integer(a),
                        ValueView::Integer(b),
                        ValueView::Integer(c),
                        ValueView::Integer(d),
                    ],
                ),
            ),
        ) == Some(
            seq![
                QuantityView::Whole(a),
                QuantityView::Whole(b),
                QuantityView::Whole(c),
                QuantityView::Whole(d),
            ],
        ),
        matrix_of(
            Some(
                ValueView::Array(
                    seq![
                        ValueView::Integer(a),
                        ValueView::Integer(b),
                        ValueView::Integer(c),
                        ValueView::Integer(d),
                        ValueView::Integer(e),
                        ValueView::Integer(f),
                    ],
                ),
            ),
        ) == Some(
            seq![
                QuantityView::Whole(a),
                QuantityView::Whole(b),
                QuantityView::Whole(c),
                QuantityView::Whole(d),
                QuantityView::Whole(e),
                QuantityView::Whole(f),
            ],
        ),
{
    let four = seq![
        ValueView::Integer(a),
        ValueView::Integer(b),
        ValueView::Integer(c),
        ValueView::Integer(d),
    ];
    let six = seq![
        ValueView::Integer(a),
        ValueView::Integer(b),
        ValueView::Integer(c),
        ValueView::Integer(d),
        ValueView::Integer(e),
        ValueView::Integer(f),
    ];
    reveal_with_fuel(led_numbers, 5);
    reveal_with_fuel(numbers_in, 7);
    assert(led_numbers(t, four, 4) =~= seq![
        QuantityView::Whole(a),
        QuantityView::Whole(b),
        QuantityView::Whole(c),
        QuantityView::Whole(d),
    ]);
    assert(numbers_in(six, 6) =~= seq![
        QuantityView::Whole(a),
        QuantityView::Whole(b),
        QuantityView::Whole(c),
        QuantityView::Whole(d),
        QuantityView::Whole(e),
        QuantityView::Whole(f),
    ]);
}

/// An annotation is shown by its normal appearance: the stream at `N`, or the
/// one that `AS` selects there. What it meets starts with the rectangle of the
/// annotation and with the matrix and the bounding box of the appearance.
pub proof fn annotations_show_their_normal_appearance(
    t: document::TableView,
    d: object::DictView,
    ap: object::DictView,
    states: object::DictView,
    state: Seq<u8>,
    id: ObjectId,
    s: object::DictView,
    content: Seq<u8>,
    rect: Seq<QuantityView>,
    chain: ChainView,
)
    requires
        object::lookup(d, bytes::text("AP"@)) == Some(ValueView::Dictionary(ap)),
        object::lookup(ap, bytes::text("N"@)) == Some(ValueView::Reference(id)) || (object::lookup(
            ap,
            bytes::text("N"@),
        ) == Some(ValueView::Dictionary(states)) && object::lookup(d, bytes::text("AS"@)) == Some(
            ValueView::Name(state),
        ) && object::lookup(states, state) == Some(ValueView::Reference(id))),
        document::object_at(t, id) == Some(ValueView::Stream(s, content)),
        rect_of(t, object::lookup(d, bytes::text("Rect"@))) == Some(rect),
    ensures
        annotation_events(t, d, chain).len() > 0,
        annotation_events(t, d, chain)[0] == (EventView::Appearance {
            matrix: matrix_of(object::lookup(s, bytes::text("Matrix"@))),
            bounds: rect_of(t, object::lookup(s, bytes::text("BBox"@))),
            rect,
        }),
{
}

/// A form is entered with its matrix and its bounding box, met with its own
/// resources in front of those around it, and left again.
pub proof fn forms_are_entered_and_left(
    t: document::TableView,
    id: ObjectId,
    d: object::DictView,
    content: Seq<u8>,
    chain: ChainView,
    font: Option<ObjectId>,
    seen: Seq<ObjectId>,
    fuel: nat,
    fresh: bool,
    b: Seq<u8>,
    own: object::DictView,
)
    requires
        fuel > 0,
        !seen.contains(id),
        backend::decompressed(d, content, pages::MAX_CONTENT_BYTES) == Ok::<Seq<u8>, Seq<char>>(b),
        object::lookup(d, bytes::text("Resources"@)) == Some(ValueView::Dictionary(own)),
    ensures
        ({
            let events = form_events(t, id, d, content, chain, font, seen, fuel, fresh);
            let inside = walk_events(
                t,
                b,
                seq![own] + chain,
                font,
                seen.push(id),
                (fuel - 1) as nat,
            );
            &&& events.len() == inside.len() + 2
            &&& events[0] == (EventView::Enter {
                matrix: matrix_of(object::lookup(d, bytes::text("Matrix"@))),
                bounds: rect_of(t, object::lookup(d, bytes::text("BBox"@))),
                fresh,
            })
            &&& events.subrange(1, events.len() - 1) == inside
            &&& events.last() == EventView::Leave
        }),
{
    let events = form_events(t, id, d, content, chain, font, seen, fuel, fresh);
    let inside = walk_events(t, b, seq![own] + chain, font, seen.push(id), (fuel - 1) as nat);
    assert(form_chain(t, d, chain) == seq![own] + chain);
    assert(events.subrange(1, events.len() - 1) =~= inside);
}

/// A form is not entered where it is in itself or where the way is too long.
pub proof fn nested_forms_end(
    t: document::TableView,
    id: ObjectId,
    d: object::DictView,
    content: Seq<u8>,
    chain: ChainView,
    font: Option<ObjectId>,
    seen: Seq<ObjectId>,
    fuel: nat,
    fresh: bool,
)
    requires
        fuel == 0 || seen.contains(id),
    ensures
        form_events(t, id, d, content, chain, font, seen, fuel, fresh).len() == 0,
{
}

/// `/N Do` draws a form, and `/N scn` a tiling pattern by itself, where the
/// innermost resources that have `N` in the category lead to one.
pub proof fn forms_and_patterns_are_drawn(
    t: document::TableView,
    op: OperationView,
    chain: ChainView,
    font: Option<ObjectId>,
    seen: Seq<ObjectId>,
    fuel: nat,
    name: Seq<u8>,
    id: ObjectId,
    d: object::DictView,
    content: Seq<u8>,
)
    requires
        op.operands.len() == 1,
        op.operands[0].value == ValueView::Name(name),
        chain.len() > 0,
        document::object_at(t, id) == Some(ValueView::Stream(d, content)),
    ensures
        op.operator == "Do"@ && named_in(t, chain[0], "XObject"@, name) == Some(id)
            && object::lookup(d, bytes::text("Subtype"@)) == Some(
            ValueView::Name(bytes::text("Form"@)),
        ) ==> op_events(t, op, chain, font, seen, fuel) == form_events(
            t,
            id,
            d,
            content,
            chain,
            font,
            seen,
            fuel,
            false,
        ),
        (op.operator == "scn"@ || op.operator == "SCN"@) && named_in(
            t,
            chain[0],
            "Pattern"@,
            name,
        ) == Some(id) && object::lookup(d, bytes::text("PatternType"@)) == Some(
            ValueView::Integer(1),
        ) ==> op_events(t, op, chain, font, seen, fuel) == form_events(
            t,
            id,
            d,
            content,
            chain,
            font,
            seen,
            fuel,
            true,
        ),
{
    lemma_operators();
    bytes::lemma_texts_differ();
    reveal_strlit("Form");
    reveal_strlit("Image");
    assert("Form"@.len() == 4 && "Image"@.len() == 5);
}

} // verus!
