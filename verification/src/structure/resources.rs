//! Remove resource dictionary entries that no content stream refers to.
//!
//! Owners of a `/Resources` dictionary are pages, form XObjects (including
//! annotation appearance streams), tiling pattern streams, and Type 3 fonts.
//! Each owner's content is parsed and the names it uses per category are
//! collected; a resource dictionary shared by several owners keeps the
//! union. Anything not fully understood is left alone: owners whose content
//! does not parse, resources inherited from the page tree, and Type 3 fonts
//! without their own resources (their glyph procedures draw with the page's).
//! Inline images may name a color space resource, so the ColorSpace category
//! is kept whole for any owner that contains one.
use vstd::prelude::*;

use crate::backend;
use crate::bytes;
use crate::content::operations;
use crate::content::operations::{Operation, OperationView};
use crate::document;
use crate::document::Pdf;
use crate::nameset::NameSet;
use crate::object;
use crate::object::{Dict, ObjectId, Value, ValueView};
use crate::pages;
use crate::text;

verus! {

/// How many categories of resources there are.
pub const CATEGORIES: usize = 7;

/// The name of a category of resources.
pub open spec fn category(i: int) -> Seq<char> {
    if i == 0 {
        "ExtGState"@
    } else if i == 1 {
        "ColorSpace"@
    } else if i == 2 {
        "Pattern"@
    } else if i == 3 {
        "Shading"@
    } else if i == 4 {
        "XObject"@
    } else if i == 5 {
        "Font"@
    } else {
        "Properties"@
    }
}

fn category_name(i: usize) -> (r: &'static str)
    ensures
        r@ == category(i as int),
{
    if i == 0 {
        "ExtGState"
    } else if i == 1 {
        "ColorSpace"
    } else if i == 2 {
        "Pattern"
    } else if i == 3 {
        "Shading"
    } else if i == 4 {
        "XObject"
    } else if i == 5 {
        "Font"
    } else {
        "Properties"
    }
}

/// Where a `/Resources` dictionary lives.
#[derive(Debug, Clone, Copy, PartialEq, Eq)]
pub enum ResLoc {
    /// An indirect object, possibly shared by several owners.
    Indirect(ObjectId),
    /// Inline in the owner's dictionary.
    InlineIn(ObjectId),
}

/// Where one category dictionary (e.g. `/Font`) lives.
#[derive(Debug, Clone, Copy, PartialEq, Eq)]
pub enum CatLoc {
    Indirect(ObjectId),
    InlineIn(ResLoc, usize),
}

fn same_res(a: ResLoc, b: ResLoc) -> (r: bool)
    ensures
        r == (a == b),
{
    match (a, b) {
        (ResLoc::Indirect(x), ResLoc::Indirect(y)) => x.0 == y.0 && x.1 == y.1,
        (ResLoc::InlineIn(x), ResLoc::InlineIn(y)) => x.0 == y.0 && x.1 == y.1,
        _ => false,
    }
}

fn same_cat(a: CatLoc, b: CatLoc) -> (r: bool)
    ensures
        r == (a == b),
{
    match (a, b) {
        (CatLoc::Indirect(x), CatLoc::Indirect(y)) => x.0 == y.0 && x.1 == y.1,
        (CatLoc::InlineIn(x, i), CatLoc::InlineIn(y, j)) => i == j && same_res(x, y),
        _ => false,
    }
}

// ------------------------------------------------------------- locations

/// Where the resources of a dictionary live.
pub open spec fn resources_of(d: object::DictView, id: ObjectId) -> Option<ResLoc> {
    match object::lookup(d, bytes::text("Resources"@)) {
        Some(ValueView::Reference(r)) => Some(ResLoc::Indirect(r)),
        Some(ValueView::Dictionary(_)) => Some(ResLoc::InlineIn(id)),
        _ => None,
    }
}

/// A dictionary, a stream's own too.
pub open spec fn own_dict(v: ValueView) -> Option<object::DictView> {
    match v {
        ValueView::Dictionary(d) => Some(d),
        ValueView::Stream(d, _) => Some(d),
        _ => None,
    }
}

/// A dictionary that stands in another.
pub open spec fn inner(d: object::DictView, key: Seq<char>) -> Option<object::DictView> {
    match object::lookup(d, bytes::text(key)) {
        Some(ValueView::Dictionary(e)) => Some(e),
        _ => None,
    }
}

/// The resources at a place.
pub open spec fn resources_at(t: document::TableView, loc: ResLoc) -> Option<object::DictView> {
    match loc {
        ResLoc::Indirect(id) => document::dictionary_at(t, id),
        ResLoc::InlineIn(id) => match document::object_at(t, id) {
            Some(v) => match own_dict(v) {
                Some(d) => inner(d, "Resources"@),
                None => None,
            },
            None => None,
        },
    }
}

/// The category at a place.
pub open spec fn category_at(t: document::TableView, loc: CatLoc) -> Option<object::DictView> {
    match loc {
        CatLoc::Indirect(id) => document::dictionary_at(t, id),
        CatLoc::InlineIn(res, i) => match resources_at(t, res) {
            Some(d) => inner(d, category(i as int)),
            None => None,
        },
    }
}

/// Where a category of the resources at a place lives.
pub open spec fn category_loc(t: document::TableView, loc: ResLoc, i: int) -> Option<CatLoc> {
    match resources_at(t, loc) {
        Some(d) => match object::lookup(d, bytes::text(category(i))) {
            Some(ValueView::Reference(id)) => Some(CatLoc::Indirect(id)),
            Some(ValueView::Dictionary(_)) => Some(CatLoc::InlineIn(loc, i as usize)),
            _ => None,
        },
        None => None,
    }
}

fn res_loc(d: &Dict, id: ObjectId) -> (r: Option<ResLoc>)
    ensures
        r == resources_of(d@, id),
{
    match d.get("Resources".as_bytes()) {
        Some(Value::Reference(r)) => Some(ResLoc::Indirect(*r)),
        Some(Value::Dictionary(_)) => Some(ResLoc::InlineIn(id)),
        _ => None,
    }
}

pub open spec fn some_dict(d: Option<&Dict>) -> Option<object::DictView> {
    match d {
        Some(d) => Some(d@),
        None => None,
    }
}

fn inner_dict<'a>(d: &'a Dict, key: &str) -> (r: Option<&'a Dict>)
    ensures
        some_dict(r) == inner(d@, key@),
{
    match d.get(key.as_bytes()) {
        Some(Value::Dictionary(e)) => Some(e),
        _ => None,
    }
}

fn resources_dict(doc: &Pdf, loc: ResLoc) -> (r: Option<&Dict>)
    requires
        doc.wf(),
    ensures
        some_dict(r) == resources_at(doc@.objects, loc),
{
    match loc {
        ResLoc::Indirect(id) => doc.get_dictionary(id),
        ResLoc::InlineIn(id) => match doc.get_object(id) {
            Some(Value::Dictionary(d)) => inner_dict(d, "Resources"),
            Some(Value::Stream(s)) => inner_dict(&s.dict, "Resources"),
            _ => None,
        },
    }
}

fn category_dict(doc: &Pdf, loc: CatLoc) -> (r: Option<&Dict>)
    requires
        doc.wf(),
    ensures
        some_dict(r) == category_at(doc@.objects, loc),
{
    match loc {
        CatLoc::Indirect(id) => doc.get_dictionary(id),
        CatLoc::InlineIn(res, i) => match resources_dict(doc, res) {
            Some(d) => inner_dict(d, category_name(i)),
            None => None,
        },
    }
}

fn find_category(doc: &Pdf, loc: ResLoc, i: usize) -> (r: Option<CatLoc>)
    requires
        doc.wf(),
    ensures
        r == category_loc(doc@.objects, loc, i as int),
{
    match resources_dict(doc, loc) {
        Some(d) => match d.get(category_name(i).as_bytes()) {
            Some(Value::Reference(id)) => Some(CatLoc::Indirect(*id)),
            Some(Value::Dictionary(_)) => Some(CatLoc::InlineIn(loc, i)),
            _ => None,
        },
        None => None,
    }
}

// ------------------------------------------------------------- analysis

/// For operators that name a resource: (category, operand).
pub open spec fn resource_operand(op: OperationView) -> Option<(int, int)> {
    let o = op.operator;
    if o == "Do"@ {
        Some((4, 0))
    } else if o == "Tf"@ {
        Some((5, 0))
    } else if o == "gs"@ {
        Some((0, 0))
    } else if o == "cs"@ || o == "CS"@ {
        Some((1, 0))
    } else if o == "scn"@ || o == "SCN"@ {
        if op.operands.len() == 0 {
            None
        } else {
            Some((2, op.operands.len() - 1))
        }
    } else if o == "sh"@ {
        Some((3, 0))
    } else if o == "BDC"@ || o == "DP"@ {
        Some((6, 1))
    } else {
        None
    }
}

/// An operator of an inline image.
pub open spec fn inline_operator(op: OperationView) -> bool {
    op.operator == "BI"@ || op.operator == "ID"@ || op.operator == "EI"@
}

/// Whether an operation uses a name of a category.
pub open spec fn op_uses(op: OperationView, i: int, name: Seq<u8>) -> bool {
    !inline_operator(op) && match resource_operand(op) {
        Some((c, o)) => c == i && 0 <= o < op.operands.len() && op.operands[o].value
            == ValueView::Name(name),
        None => false,
    }
}

/// Whether the first `n` operations use a name of a category.
pub open spec fn ops_use(ops: Seq<OperationView>, n: int, i: int, name: Seq<u8>) -> bool {
    exists|k: int| 0 <= k < n && op_uses(#[trigger] ops[k], i, name)
}

/// Whether there is an inline image among the first `n` operations.
pub open spec fn ops_inline(ops: Seq<OperationView>, n: int) -> bool {
    exists|k: int| 0 <= k < n && inline_operator(#[trigger] ops[k])
}

/// Whether content uses a name of a category, or may: an inline image may name
/// any color space.
pub open spec fn content_uses(content: Seq<u8>, i: int, name: Seq<u8>) -> bool {
    match operations::lenient_operations(content) {
        Some(ops) => ops_use(ops, ops.len() as int, i, name) || (i == 1 && ops_inline(
            ops,
            ops.len() as int,
        )),
        None => false,
    }
}

/// The names that content uses.
struct Usage {
    names: Vec<NameSet>,
    inline: bool,
}

/// Whether a usage holds a name of a category.
spec fn usage_has(u: Usage, i: int, name: Seq<u8>) -> bool {
    u.names@[i].holds(name)
}

/// What the first `n` operations use.
spec fn usage_of(u: Usage, ops: Seq<OperationView>, n: int) -> bool {
    &&& u.names@.len() == CATEGORIES
    &&& forall|i: int| 0 <= i < CATEGORIES ==> (#[trigger] u.names@[i]).wf()
    &&& forall|i: int, name: Seq<u8>|
        0 <= i < CATEGORIES ==> (#[trigger] usage_has(u, i, name) <==> ops_use(ops, n, i, name))
    &&& u.inline == ops_inline(ops, n)
}

fn find_operand(op: &Operation) -> (r: Option<(usize, usize)>)
    ensures
        match r {
            Some((c, o)) => resource_operand(op@) == Some((c as int, o as int)) && c < CATEGORIES,
            None => resource_operand(op@) is None,
        },
{
    let o = &op.operator;
    if text::is(o, "Do") {
        Some((4, 0))
    } else if text::is(o, "Tf") {
        Some((5, 0))
    } else if text::is(o, "gs") {
        Some((0, 0))
    } else if text::is(o, "cs") || text::is(o, "CS") {
        Some((1, 0))
    } else if text::is(o, "scn") || text::is(o, "SCN") {
        if op.operands.len() == 0 {
            None
        } else {
            Some((2, op.operands.len() - 1))
        }
    } else if text::is(o, "sh") {
        Some((3, 0))
    } else if text::is(o, "BDC") || text::is(o, "DP") {
        Some((6, 1))
    } else {
        None
    }
}

fn record(op: &Operation, u: &mut Usage, Ghost(ops): Ghost<Seq<OperationView>>, Ghost(n): Ghost<int>)
    requires
        0 <= n < ops.len(),
        ops[n] == op@,
        usage_of(*old(u), ops, n),
    ensures
        usage_of(*final(u), ops, n + 1),
{
    let ghost before = *u;
    if text::is(&op.operator, "BI") || text::is(&op.operator, "ID") || text::is(
        &op.operator,
        "EI",
    ) {
        u.inline = true;
        proof {
            assert(inline_operator(ops[n]));
            lemma_recorded(before, *u, ops, n, -1, Seq::empty());
        }
        return ;
    }
    if let Some((c, o)) = find_operand(op) {
        if o < op.operands.len() {
            if let Value::Name(name) = &op.operands[o].value {
                assert(op@.operands[o as int].value == ValueView::Name(name@));
                u.names[c].insert(name);
                proof {
                    lemma_recorded(before, *u, ops, n, c as int, name@);
                }
                return ;
            }
            assert(op@.operands[o as int].value == op.operands@[o as int].value@);
        }
    }
    proof {
        lemma_recorded(before, *u, ops, n, -1, Seq::empty());
    }
}

proof fn lemma_recorded(
    before: Usage,
    after: Usage,
    ops: Seq<OperationView>,
    n: int,
    c: int,
    name: Seq<u8>,
)
    requires
        0 <= n < ops.len(),
        usage_of(before, ops, n),
        after.names@.len() == CATEGORIES,
        forall|i: int| 0 <= i < CATEGORIES ==> (#[trigger] after.names@[i]).wf(),
        forall|i: int, x: Seq<u8>|
            0 <= i < CATEGORIES ==> (#[trigger] usage_has(after, i, x) <==> usage_has(before, i, x)
                || (i == c && x == name)),
        forall|i: int, x: Seq<u8>|
            0 <= i < CATEGORIES ==> (#[trigger] op_uses(ops[n], i, x) <==> i == c && x == name),
        after.inline == (before.inline || inline_operator(ops[n])),
    ensures
        usage_of(after, ops, n + 1),
{
    assert forall|i: int, x: Seq<u8>| 0 <= i < CATEGORIES implies (#[trigger] usage_has(
        after,
        i,
        x,
    ) <==> ops_use(ops, n + 1, i, x)) by {
        assert(usage_has(before, i, x) <==> ops_use(ops, n, i, x));
        assert(op_uses(ops[n], i, x) <==> i == c && x == name);
        if ops_use(ops, n, i, x) {
            let k = choose|k: int| 0 <= k < n && op_uses(#[trigger] ops[k], i, x);
            assert(op_uses(ops[k], i, x));
        }
    }
    if ops_inline(ops, n) {
        let k = choose|k: int| 0 <= k < n && inline_operator(#[trigger] ops[k]);
        assert(inline_operator(ops[k]));
    }
}

/// What an owner's content uses, or that it cannot be trusted.
spec fn parsed(u: Option<Usage>, content: Seq<u8>) -> bool {
    match (u, operations::lenient_operations(content)) {
        (Some(u), Some(ops)) => usage_of(u, ops, ops.len() as int),
        (None, None) => true,
        _ => false,
    }
}

/// Names used by a content stream, or `None` if it cannot be trusted.
fn parse_usage(content: &Vec<u8>) -> (r: Option<Usage>)
    ensures
        parsed(r, content@),
{
    let ops = match operations::decode(content) {
        Some(ops) => ops,
        None => {
            return None;
        },
    };
    let ghost view = operations::operations_view(ops@);
    let mut names: Vec<NameSet> = Vec::new();
    let mut k: usize = 0;
    while k < CATEGORIES
        invariant
            k <= CATEGORIES,
            names@.len() == k,
            forall|i: int| 0 <= i < k ==> (#[trigger] names@[i]).wf(),
            forall|i: int, n: Seq<u8>| 0 <= i < k ==> !#[trigger] names@[i].holds(n),
        decreases CATEGORIES - k,
    {
        names.push(NameSet::new());
        k += 1;
    }
    let mut u = Usage { names, inline: false };
    let mut i: usize = 0;
    while i < ops.len()
        invariant
            i <= ops@.len(),
            view == operations::operations_view(ops@),
            usage_of(u, view, i as int),
        decreases ops@.len() - i,
    {
        assert(view[i as int] == ops@[i as int]@);
        record(&ops[i], &mut u, Ghost(view), Ghost(i as int));
        i += 1;
    }
    Some(u)
}

// ------------------------------------------------------------- owners

/// Whether a dictionary names a subtype.
pub open spec fn subtype_is(d: object::DictView, name: Seq<char>) -> bool {
    object::lookup(d, bytes::text("Subtype"@)) == Some(ValueView::Name(bytes::text(name)))
}

/// A form XObject, or a tiling pattern.
pub open spec fn form_or_pattern(d: object::DictView) -> bool {
    subtype_is(d, "Form"@) || object::lookup(d, bytes::text("PatternType"@)) == Some(
        ValueView::Integer(1),
    )
}

/// A Type 3 font that draws with the resources of the page.
pub open spec fn bare_type3(t: document::TableView, id: ObjectId) -> bool {
    match document::find(t, id) {
        Some(ValueView::Dictionary(d)) => subtype_is(d, "Type3"@) && object::lookup(
            d,
            bytes::text("Resources"@),
        ) is None,
        _ => false,
    }
}

/// Whether one of the first `n` entries is a reference to a Type 3 font that
/// draws with the resources of the page.
pub open spec fn uses_bare_type3(t: document::TableView, d: object::DictView, n: int) -> bool {
    exists|i: int|
        0 <= i < n && match (#[trigger] d[i]).1 {
            ValueView::Reference(id) => bare_type3(t, id),
            _ => false,
        }
}

/// The fonts among resources: a dictionary, or nothing that is one; nothing at
/// all where there are none.
pub open spec fn fonts_of(t: document::TableView, d: object::DictView) -> Option<
    Option<object::DictView>,
> {
    match object::lookup(d, bytes::text("Font"@)) {
        None => None,
        Some(ValueView::Reference(id)) => match document::dictionary_at(t, id) {
            Some(f) => Some(Some(f)),
            None => None,
        },
        Some(ValueView::Dictionary(f)) => Some(Some(f)),
        Some(_) => Some(None),
    }
}

/// Where the resources of a page live, if they are judged. A Type 3 font
/// without resources draws its glyphs with the page's resources; glyph
/// procedures are not parsed in that context.
pub open spec fn page_resources_of(t: document::TableView, page: ObjectId) -> Option<ResLoc> {
    match document::dictionary_at(t, page) {
        None => None,
        Some(d) => match resources_of(d, page) {
            None => None,
            Some(loc) => match resources_at(t, loc) {
                None => None,
                Some(res) => match fonts_of(t, res) {
                    None => None,
                    Some(None) => Some(loc),
                    Some(Some(f)) => if uses_bare_type3(t, f, f.len() as int) {
                        None
                    } else {
                        Some(loc)
                    },
                },
            },
        },
    }
}

/// The owners among the first `n` pages, each with its content.
pub open spec fn page_owners(t: document::TableView, ids: Seq<ObjectId>, n: int) -> Seq<
    (ResLoc, Seq<u8>),
>
    decreases n,
{
    if n <= 0 || n > ids.len() {
        Seq::empty()
    } else {
        let front = page_owners(t, ids, n - 1);
        match (page_resources_of(t, ids[n - 1]), pages::content_of(t, ids[n - 1])) {
            (Some(loc), Some(content)) => front.push((loc, content)),
            _ => front,
        }
    }
}

/// The glyph procedures among the first `n` entries, put together.
pub open spec fn procs_content(t: document::TableView, d: object::DictView, n: int) -> Seq<u8>
    decreases n,
{
    if n <= 0 || n > d.len() {
        Seq::empty()
    } else {
        let front = procs_content(t, d, n - 1);
        match d[n - 1].1 {
            ValueView::Reference(id) => match document::object_at(t, id) {
                Some(ValueView::Stream(s, c)) => match backend::decompressed(
                    s,
                    c,
                    pages::MAX_CONTENT_BYTES,
                ) {
                    Ok(b) => (front + b).push(10),
                    Err(_) => front,
                },
                _ => front,
            },
            _ => front,
        }
    }
}

/// The content of a Type 3 font: its glyph procedures.
pub open spec fn type3_content(t: document::TableView, font: object::DictView) -> Seq<u8> {
    match inner(font, "CharProcs"@) {
        Some(d) => procs_content(t, d, d.len() as int),
        None => Seq::empty(),
    }
}

/// An object as an owner, with its content.
pub open spec fn object_owner(t: document::TableView, e: (ObjectId, ValueView)) -> Option<
    (ResLoc, Seq<u8>),
> {
    match e.1 {
        ValueView::Stream(d, c) => if form_or_pattern(d) {
            match (resources_of(d, e.0), backend::decompressed(d, c, pages::MAX_CONTENT_BYTES)) {
                (Some(loc), Ok(content)) => Some((loc, content)),
                _ => None,
            }
        } else {
            None
        },
        ValueView::Dictionary(d) => if subtype_is(d, "Type3"@) {
            match resources_of(d, e.0) {
                Some(loc) => Some((loc, type3_content(t, d))),
                None => None,
            }
        } else {
            None
        },
        _ => None,
    }
}

/// The owners among the first `n` objects, each with its content.
pub open spec fn object_owners(t: document::TableView, n: int) -> Seq<(ResLoc, Seq<u8>)>
    decreases n,
{
    if n <= 0 {
        Seq::empty()
    } else {
        match object_owner(t, t[n - 1]) {
            Some(o) => object_owners(t, n - 1).push(o),
            None => object_owners(t, n - 1),
        }
    }
}

/// Every owner of resources that is judged, with its content.
pub open spec fn owners_of(doc: document::PdfView) -> Seq<(ResLoc, Seq<u8>)> {
    page_owners(doc.objects, backend::page_ids(doc), backend::page_ids(doc).len() as int)
        + object_owners(doc.objects, doc.objects.len() as int)
}

/// An owner of resources and what it uses of them.
struct Owner {
    loc: ResLoc,
    usage: Option<Usage>,
}

/// Owners, each with what its content uses.
spec fn owners_match(owners: Seq<Owner>, list: Seq<(ResLoc, Seq<u8>)>) -> bool {
    owners.len() == list.len() && forall|i: int|
        0 <= i < owners.len() ==> (#[trigger] owners[i]).loc == list[i].0 && parsed(
            owners[i].usage,
            list[i].1,
        )
}

fn names_subtype(d: &Dict, name: &str) -> (r: bool)
    ensures
        r == subtype_is(d@, name@),
{
    match d.get("Subtype".as_bytes()) {
        Some(v) => v.is_name(name),
        None => false,
    }
}

fn is_form_or_pattern(d: &Dict) -> (r: bool)
    ensures
        r == form_or_pattern(d@),
{
    names_subtype(d, "Form") || match d.get("PatternType".as_bytes()) {
        Some(Value::Integer(p)) => *p == 1,
        _ => false,
    }
}

fn is_bare_type3(doc: &Pdf, id: ObjectId) -> (r: bool)
    requires
        doc.wf(),
    ensures
        r == bare_type3(doc@.objects, id),
{
    match doc.position(id) {
        Some(i) => match &doc.objects[i].1 {
            Value::Dictionary(d) => names_subtype(d, "Type3") && !d.has("Resources".as_bytes()),
            _ => false,
        },
        None => false,
    }
}

fn any_bare_type3(doc: &Pdf, d: &Dict) -> (r: bool)
    requires
        doc.wf(),
    ensures
        r == uses_bare_type3(doc@.objects, d@, d@.len() as int),
{
    let ghost t = doc@.objects;
    let ghost view = d@;
    let mut i: usize = 0;
    while i < d.entries.len()
        invariant
            i <= d.entries@.len(),
            doc.wf(),
            t == doc@.objects,
            view == d@,
            !uses_bare_type3(t, view, i as int),
        decreases d.entries@.len() - i,
    {
        assert(view[i as int].1 == d.entries@[i as int].1@);
        if let Value::Reference(id) = &d.entries[i].1 {
            if is_bare_type3(doc, *id) {
                return true;
            }
        }
        i += 1;
    }
    false
}

fn page_resources(doc: &Pdf, page: ObjectId) -> (r: Option<ResLoc>)
    requires
        doc.wf(),
    ensures
        r == page_resources_of(doc@.objects, page),
{
    let d = match doc.get_dictionary(page) {
        Some(d) => d,
        None => {
            return None;
        },
    };
    let loc = match res_loc(d, page) {
        Some(l) => l,
        None => {
            return None;
        },
    };
    let res = match resources_dict(doc, loc) {
        Some(d) => d,
        None => {
            return None;
        },
    };
    let fonts = match res.get("Font".as_bytes()) {
        None => {
            return None;
        },
        Some(Value::Reference(id)) => match doc.get_dictionary(*id) {
            Some(f) => f,
            None => {
                return None;
            },
        },
        Some(Value::Dictionary(f)) => f,
        Some(_) => {
            return Some(loc);
        },
    };
    if any_bare_type3(doc, fonts) {
        None
    } else {
        Some(loc)
    }
}

fn charprocs_content(doc: &Pdf, font: &Dict) -> (r: Vec<u8>)
    requires
        doc.wf(),
    ensures
        r@ == type3_content(doc@.objects, font@),
{
    let ghost t = doc@.objects;
    let mut out: Vec<u8> = Vec::new();
    let d = match inner_dict(font, "CharProcs") {
        Some(d) => d,
        None => {
            return out;
        },
    };
    let ghost view = d@;
    let mut i: usize = 0;
    while i < d.entries.len()
        invariant
            i <= d.entries@.len(),
            doc.wf(),
            t == doc@.objects,
            view == d@,
            out@ == procs_content(t, view, i as int),
        decreases d.entries@.len() - i,
    {
        assert(view[i as int].1 == d.entries@[i as int].1@);
        if let Value::Reference(id) = &d.entries[i].1 {
            if let Some(Value::Stream(s)) = doc.get_object(*id) {
                if let Ok(b) = backend::decompress(s, pages::MAX_CONTENT_BYTES) {
                    bytes::append(&mut out, &b);
                    out.push(10);
                }
            }
        }
        i += 1;
    }
    out
}

fn find_object_owner(doc: &Pdf, id: ObjectId, v: &Value) -> (r: Option<Owner>)
    requires
        doc.wf(),
    ensures
        match (r, object_owner(doc@.objects, (id, v@))) {
            (Some(o), Some((loc, content))) => o.loc == loc && parsed(o.usage, content),
            (None, None) => true,
            _ => false,
        },
{
    match v {
        Value::Stream(s) => {
            if !is_form_or_pattern(&s.dict) {
                return None;
            }
            match res_loc(&s.dict, id) {
                Some(loc) => match backend::decompress(s, pages::MAX_CONTENT_BYTES) {
                    Ok(b) => Some(Owner { loc, usage: parse_usage(&b) }),
                    Err(_) => None,
                },
                None => None,
            }
        },
        Value::Dictionary(d) => {
            if !names_subtype(d, "Type3") {
                return None;
            }
            match res_loc(d, id) {
                Some(loc) => {
                    let content = charprocs_content(doc, d);
                    Some(Owner { loc, usage: parse_usage(&content) })
                },
                None => None,
            }
        },
        _ => None,
    }
}

fn find_owners(doc: &Pdf) -> (r: Vec<Owner>)
    requires
        doc.wf(),
    ensures
        owners_match(r@, owners_of(doc@)),
{
    let ghost t = doc@.objects;
    let ghost list = owners_of(doc@);
    let mut out: Vec<Owner> = Vec::new();
    let ids = backend::pages(doc);
    let mut i: usize = 0;
    while i < ids.len()
        invariant
            i <= ids@.len(),
            doc.wf(),
            t == doc@.objects,
            owners_match(out@, page_owners(t, ids@, i as int)),
        decreases ids@.len() - i,
    {
        if let Some(loc) = page_resources(doc, ids[i]) {
            // A page whose content cannot be decoded is left alone (an empty
            // usage would strip everything); it is simply not an owner.
            if let Some(content) = pages::page_content(doc, ids[i]) {
                out.push(Owner { loc, usage: parse_usage(&content) });
            }
        }
        i += 1;
    }
    let ghost front = page_owners(t, ids@, ids@.len() as int);
    let mut k: usize = 0;
    assert(front + object_owners(t, 0) =~= front);
    while k < doc.objects.len()
        invariant
            k <= doc.objects@.len(),
            doc.wf(),
            t == doc@.objects,
            owners_match(out@, front + object_owners(t, k as int)),
        decreases doc.objects@.len() - k,
    {
        let (id, v) = (&doc.objects[k].0, &doc.objects[k].1);
        assert(t[k as int] == (*id, v@));
        if let Some(o) = find_object_owner(doc, *id, v) {
            out.push(o);
        }
        k += 1;
    }
    out
}

// ------------------------------------------------------------- plan

/// Resources that page-tree nodes refer to are inherited by pages that are
/// not analyzed through them.
pub open spec fn inherited(t: document::TableView, loc: ResLoc) -> bool {
    exists|i: int| 0 <= i < t.len() && node_resources((#[trigger] t[i]).1) == Some(loc)
}

/// The resources that a page-tree node refers to.
pub open spec fn node_resources(v: ValueView) -> Option<ResLoc> {
    match v {
        ValueView::Dictionary(d) => match (
            object::lookup(d, bytes::text("Type"@)),
            object::lookup(d, bytes::text("Resources"@)),
        ) {
            (Some(ValueView::Name(n)), Some(ValueView::Reference(id))) => if n == bytes::text(
                "Pages"@,
            ) {
                Some(ResLoc::Indirect(id))
            } else {
                None
            },
            _ => None,
        },
        _ => None,
    }
}

/// Whether resources are left alone: they are inherited, or an owner's content
/// does not parse.
pub open spec fn skipped(
    t: document::TableView,
    owners: Seq<(ResLoc, Seq<u8>)>,
    loc: ResLoc,
) -> bool {
    inherited(t, loc) || exists|k: int|
        0 <= k < owners.len() && (#[trigger] owners[k]).0 == loc && operations::lenient_operations(
            owners[k].1,
        ) is None
}

/// Whether a place is a category of resources.
pub open spec fn category_among(t: document::TableView, loc: ResLoc, c: CatLoc) -> bool {
    exists|i: int| 0 <= i < CATEGORIES && #[trigger] category_loc(t, loc, i) == Some(c)
}

/// Whether a category is left alone.
pub open spec fn left_alone(
    t: document::TableView,
    owners: Seq<(ResLoc, Seq<u8>)>,
    c: CatLoc,
) -> bool {
    exists|loc: ResLoc| #[trigger] skipped(t, owners, loc) && category_among(t, loc, c)
}

/// A place where an owner finds a category.
pub struct Visit {
    pub owner: int,
    pub category: int,
    pub loc: CatLoc,
}

/// Where an owner finds the first `n` categories.
pub open spec fn owner_visits(t: document::TableView, k: int, loc: ResLoc, n: int) -> Seq<Visit>
    decreases n,
{
    if n <= 0 {
        Seq::empty()
    } else {
        match category_loc(t, loc, n - 1) {
            Some(c) => owner_visits(t, k, loc, n - 1).push(
                Visit { owner: k, category: n - 1, loc: c },
            ),
            None => owner_visits(t, k, loc, n - 1),
        }
    }
}

/// Where the first `n` owners find categories, as far as their content parses.
pub open spec fn visits_of(
    t: document::TableView,
    owners: Seq<(ResLoc, Seq<u8>)>,
    n: int,
) -> Seq<Visit>
    decreases n,
{
    if n <= 0 || n > owners.len() {
        Seq::empty()
    } else if operations::lenient_operations(owners[n - 1].1) is Some {
        visits_of(t, owners, n - 1) + owner_visits(
            t,
            n - 1,
            owners[n - 1].0,
            CATEGORIES as int,
        )
    } else {
        visits_of(t, owners, n - 1)
    }
}

/// Whether an owner that finds a category uses a name of it.
pub open spec fn used_by_visits(
    visits: Seq<Visit>,
    owners: Seq<(ResLoc, Seq<u8>)>,
    c: CatLoc,
    name: Seq<u8>,
) -> bool {
    exists|m: int|
        0 <= m < visits.len() && (#[trigger] visits[m]).loc == c && content_uses(
            owners[visits[m].owner].1,
            visits[m].category,
            name,
        )
}

/// The names among the first `n` entries of a category that no owner uses.
pub open spec fn unused_names(
    visits: Seq<Visit>,
    owners: Seq<(ResLoc, Seq<u8>)>,
    c: CatLoc,
    d: object::DictView,
    n: int,
) -> Seq<Seq<u8>>
    decreases n,
{
    if n <= 0 || n > d.len() {
        Seq::empty()
    } else {
        let front = unused_names(visits, owners, c, d, n - 1);
        if used_by_visits(visits, owners, c, d[n - 1].0) {
            front
        } else {
            front.push(d[n - 1].0)
        }
    }
}

/// What is to be removed of a category.
pub open spec fn doomed(
    t: document::TableView,
    owners: Seq<(ResLoc, Seq<u8>)>,
    c: CatLoc,
) -> Seq<Seq<u8>> {
    let visits = visits_of(t, owners, owners.len() as int);
    match category_at(t, c) {
        Some(d) => if left_alone(t, owners, c) {
            Seq::empty()
        } else {
            unused_names(visits, owners, c, d, d.len() as int)
        },
        None => Seq::empty(),
    }
}

// ------------------------------------------------------------- removal

/// A dictionary without the first `n` names.
pub open spec fn without_names(d: object::DictView, names: Seq<Seq<u8>>, n: int) -> object::DictView
    decreases n,
{
    if n <= 0 || n > names.len() {
        d
    } else {
        object::without_key(without_names(d, names, n - 1), names[n - 1])
    }
}

/// A dictionary with names removed from a dictionary inside it.
pub open spec fn cut_inner(d: object::DictView, key: Seq<char>, names: Seq<Seq<u8>>) -> object::DictView {
    match inner(d, key) {
        Some(e) => object::with_entry(
            d,
            bytes::text(key),
            ValueView::Dictionary(without_names(e, names, names.len() as int)),
        ),
        None => d,
    }
}

/// A dictionary with names removed from a category of the resources inside it.
pub open spec fn cut_owner(d: object::DictView, i: int, names: Seq<Seq<u8>>) -> object::DictView {
    match inner(d, "Resources"@) {
        Some(res) => object::with_entry(
            d,
            bytes::text("Resources"@),
            ValueView::Dictionary(cut_inner(res, category(i), names)),
        ),
        None => d,
    }
}

/// An object with names removed from a category that it holds.
pub open spec fn cut_object(v: ValueView, c: CatLoc, names: Seq<Seq<u8>>) -> ValueView {
    match (c, v) {
        (CatLoc::Indirect(_), ValueView::Dictionary(d)) => ValueView::Dictionary(
            without_names(d, names, names.len() as int),
        ),
        (CatLoc::InlineIn(ResLoc::Indirect(_), i), ValueView::Dictionary(d)) => ValueView::Dictionary(
            cut_inner(d, category(i as int), names),
        ),
        (CatLoc::InlineIn(ResLoc::InlineIn(_), i), ValueView::Dictionary(d)) => ValueView::Dictionary(
            cut_owner(d, i as int, names),
        ),
        (CatLoc::InlineIn(ResLoc::InlineIn(_), i), ValueView::Stream(d, content)) => ValueView::Stream(
            cut_owner(d, i as int, names),
            content,
        ),
        _ => v,
    }
}

/// The object that holds a category.
pub open spec fn holder(c: CatLoc) -> ObjectId {
    match c {
        CatLoc::Indirect(id) => id,
        CatLoc::InlineIn(ResLoc::Indirect(id), _) => id,
        CatLoc::InlineIn(ResLoc::InlineIn(id), _) => id,
    }
}

/// A table with names removed from a category.
pub open spec fn cut(t: document::TableView, c: CatLoc, names: Seq<Seq<u8>>) -> document::TableView {
    match document::place(t, holder(c), document::DEREF_LIMIT as nat) {
        Some(i) => t.update(i, (t[i].0, cut_object(t[i].1, c, names))),
        None => t,
    }
}

/// A table after what is doomed at the first `n` places was removed, each
/// place taken once; what is doomed goes by the table `t` at the start.
pub open spec fn cut_all(
    t: document::TableView,
    owners: Seq<(ResLoc, Seq<u8>)>,
    visits: Seq<Visit>,
    n: int,
) -> document::TableView
    decreases n,
{
    if n <= 0 || n > visits.len() {
        t
    } else {
        let before = cut_all(t, owners, visits, n - 1);
        if seen_before(visits, n - 1) {
            before
        } else {
            cut(before, visits[n - 1].loc, doomed(t, owners, visits[n - 1].loc))
        }
    }
}

/// Whether a place was taken before.
pub open spec fn seen_before(visits: Seq<Visit>, n: int) -> bool {
    exists|m: int| 0 <= m < n && (#[trigger] visits[m]).loc == visits[n].loc
}

/// The objects of a document without the resource entries that no content
/// stream refers to.
pub open spec fn pruned(doc: document::PdfView) -> document::TableView {
    let owners = owners_of(doc);
    let visits = visits_of(doc.objects, owners, owners.len() as int);
    cut_all(doc.objects, owners, visits, visits.len() as int)
}

/// A place where an owner finds a category.
struct Stop {
    owner: usize,
    category: usize,
    loc: CatLoc,
}

spec fn stops_view(stops: Seq<Stop>) -> Seq<Visit> {
    stops.map_values(
        |s: Stop| Visit { owner: s.owner as int, category: s.category as int, loc: s.loc },
    )
}

fn find_stops(doc: &Pdf, owners: &Vec<Owner>, Ghost(list): Ghost<Seq<(ResLoc, Seq<u8>)>>) -> (r: Vec<
    Stop,
>)
    requires
        doc.wf(),
        owners_match(owners@, list),
    ensures
        stops_view(r@) == visits_of(doc@.objects, list, list.len() as int),
{
    let ghost t = doc@.objects;
    let mut out: Vec<Stop> = Vec::new();
    let mut k: usize = 0;
    assert(stops_view(out@) =~= visits_of(t, list, 0));
    while k < owners.len()
        invariant
            k <= owners@.len(),
            doc.wf(),
            t == doc@.objects,
            owners_match(owners@, list),
            stops_view(out@) == visits_of(t, list, k as int),
        decreases owners@.len() - k,
    {
        let o = &owners[k];
        assert(o.loc == list[k as int].0 && parsed(o.usage, list[k as int].1));
        if o.usage.is_some() {
            let ghost front = stops_view(out@);
            let mut i: usize = 0;
            assert(front + owner_visits(t, k as int, o.loc, 0) =~= front);
            while i < CATEGORIES
                invariant
                    i <= CATEGORIES,
                    doc.wf(),
                    t == doc@.objects,
                    stops_view(out@) == front + owner_visits(t, k as int, o.loc, i as int),
                decreases CATEGORIES - i,
            {
                let ghost before = stops_view(out@);
                if let Some(loc) = find_category(doc, o.loc, i) {
                    out.push(Stop { owner: k, category: i, loc });
                    assert(stops_view(out@) =~= before.push(
                        Visit { owner: k as int, category: i as int, loc },
                    ));
                }
                i += 1;
                assert(stops_view(out@) =~= front + owner_visits(t, k as int, o.loc, i as int));
            }
        }
        k += 1;
    }
    out
}

/// A place that owners visit belongs to an owner whose content parses.
proof fn lemma_owner_visits(t: document::TableView, k: int, loc: ResLoc, n: int)
    requires
        0 <= n <= CATEGORIES,
    ensures
        forall|m: int|
            0 <= m < owner_visits(t, k, loc, n).len() ==> (#[trigger] owner_visits(t, k, loc, n)[m]).owner
                == k && 0 <= owner_visits(t, k, loc, n)[m].category < CATEGORIES,
    decreases n,
{
    if n > 0 {
        lemma_owner_visits(t, k, loc, n - 1);
    }
}

proof fn lemma_visits(t: document::TableView, owners: Seq<(ResLoc, Seq<u8>)>, n: int)
    requires
        0 <= n <= owners.len(),
    ensures
        forall|m: int|
            0 <= m < visits_of(t, owners, n).len() ==> 0 <= (#[trigger] visits_of(t, owners, n)[m]).owner
                < n && 0 <= visits_of(t, owners, n)[m].category < CATEGORIES
                && operations::lenient_operations(
                owners[visits_of(t, owners, n)[m].owner].1,
            ) is Some,
    decreases n,
{
    if n > 0 {
        lemma_visits(t, owners, n - 1);
        lemma_owner_visits(t, n - 1, owners[n - 1].0, CATEGORIES as int);
    }
}

/// Whether resources at a node of the page tree, one of the first `n` objects,
/// hold a category.
spec fn alone_in_nodes(t: document::TableView, n: int, c: CatLoc) -> bool {
    exists|j: int| 0 <= j < n && node_holds((#[trigger] t[j]).1, t, c)
}

spec fn node_holds(v: ValueView, t: document::TableView, c: CatLoc) -> bool {
    match node_resources(v) {
        Some(loc) => category_among(t, loc, c),
        None => false,
    }
}

/// Whether resources of one of the first `n` owners, whose content does not
/// parse, hold a category.
spec fn alone_in_owners(
    t: document::TableView,
    owners: Seq<(ResLoc, Seq<u8>)>,
    n: int,
    c: CatLoc,
) -> bool {
    exists|k: int|
        0 <= k < n && category_among(t, (#[trigger] owners[k]).0, c)
            && operations::lenient_operations(owners[k].1) is None
}

proof fn lemma_left_alone(t: document::TableView, owners: Seq<(ResLoc, Seq<u8>)>, c: CatLoc)
    ensures
        left_alone(t, owners, c) <==> alone_in_nodes(t, t.len() as int, c) || alone_in_owners(
            t,
            owners,
            owners.len() as int,
            c,
        ),
{
    if left_alone(t, owners, c) {
        let loc = choose|loc: ResLoc| #[trigger]
            skipped(t, owners, loc) && category_among(t, loc, c);
        if inherited(t, loc) {
            let i = choose|i: int|
                0 <= i < t.len() && node_resources((#[trigger] t[i]).1) == Some(loc);
            assert(node_holds(t[i].1, t, c));
        }
    }
    if alone_in_nodes(t, t.len() as int, c) {
        let j = choose|j: int| 0 <= j < t.len() && node_holds((#[trigger] t[j]).1, t, c);
        let loc = node_resources(t[j].1)->0;
        assert(node_resources(t[j].1) == Some(loc));
        assert(inherited(t, loc));
        assert(skipped(t, owners, loc));
    }
    if alone_in_owners(t, owners, owners.len() as int, c) {
        let k = choose|k: int|
            0 <= k < owners.len() && category_among(t, (#[trigger] owners[k]).0, c)
                && operations::lenient_operations(owners[k].1) is None;
        assert(skipped(t, owners, owners[k].0));
    }
}

/// Adds the categories of resources.
fn add_categories(doc: &Pdf, loc: ResLoc, out: &mut Vec<CatLoc>)
    requires
        doc.wf(),
    ensures
        forall|c: CatLoc| #[trigger]
            final(out)@.contains(c) <==> old(out)@.contains(c) || category_among(
                doc@.objects,
                loc,
                c,
            ),
{
    let ghost t = doc@.objects;
    let ghost start = out@;
    let mut i: usize = 0;
    while i < CATEGORIES
        invariant
            i <= CATEGORIES,
            doc.wf(),
            t == doc@.objects,
            forall|c: CatLoc| #[trigger]
                out@.contains(c) <==> start.contains(c) || exists|k: int|
                    0 <= k < i && #[trigger] category_loc(t, loc, k) == Some(c),
        decreases CATEGORIES - i,
    {
        let ghost before = out@;
        if let Some(c) = find_category(doc, loc, i) {
            out.push(c);
            proof {
                assert forall|d: CatLoc| #[trigger] out@.contains(d) <==> before.contains(d) || d
                    == c by {
                    if before.contains(d) {
                        let m = choose|m: int| 0 <= m < before.len() && before[m] == d;
                        assert(out@[m] == d);
                    }
                    if d == c {
                        assert(out@[before.len() as int] == d);
                    }
                    if out@.contains(d) {
                        let m = choose|m: int| 0 <= m < out@.len() && out@[m] == d;
                        if m < before.len() {
                            assert(before[m] == d);
                        }
                    }
                }
            }
        }
        i += 1;
    }
}

fn node_locations(v: &Value) -> (r: Option<ResLoc>)
    ensures
        r == node_resources(v@),
{
    match v {
        Value::Dictionary(d) => {
            let is_node = match d.get("Type".as_bytes()) {
                Some(n) => n.is_name("Pages"),
                None => false,
            };
            if !is_node {
                return None;
            }
            match d.get("Resources".as_bytes()) {
                Some(Value::Reference(id)) => Some(ResLoc::Indirect(*id)),
                _ => None,
            }
        },
        _ => None,
    }
}

/// The categories that are left alone.
fn find_alone(doc: &Pdf, owners: &Vec<Owner>, Ghost(list): Ghost<Seq<(ResLoc, Seq<u8>)>>) -> (r: Vec<
    CatLoc,
>)
    requires
        doc.wf(),
        owners_match(owners@, list),
    ensures
        forall|c: CatLoc| #[trigger] r@.contains(c) <==> left_alone(doc@.objects, list, c),
{
    let ghost t = doc@.objects;
    let mut out: Vec<CatLoc> = Vec::new();
    let mut i: usize = 0;
    while i < doc.objects.len()
        invariant
            i <= doc.objects@.len(),
            doc.wf(),
            t == doc@.objects,
            forall|c: CatLoc| #[trigger]
                out@.contains(c) <==> alone_in_nodes(t, i as int, c),
        decreases doc.objects@.len() - i,
    {
        let ghost before = out@;
        assert(t[i as int].1 == doc.objects@[i as int].1@);
        if let Some(loc) = node_locations(&doc.objects[i].1) {
            add_categories(doc, loc, &mut out);
        }
        proof {
            assert forall|c: CatLoc| #[trigger] out@.contains(c) <==> alone_in_nodes(
                t,
                i + 1,
                c,
            ) by {
                assert(before.contains(c) <==> alone_in_nodes(t, i as int, c));
                if node_holds(t[i as int].1, t, c) {
                    assert(alone_in_nodes(t, i + 1, c));
                }
                if alone_in_nodes(t, i as int, c) {
                    let j = choose|j: int| 0 <= j < i && node_holds((#[trigger] t[j]).1, t, c);
                    assert(node_holds(t[j].1, t, c));
                    assert(alone_in_nodes(t, i + 1, c));
                }
            }
        }
        i += 1;
    }
    let ghost nodes = out@;
    let mut k: usize = 0;
    while k < owners.len()
        invariant
            k <= owners@.len(),
            doc.wf(),
            t == doc@.objects,
            owners_match(owners@, list),
            forall|c: CatLoc| #[trigger]
                out@.contains(c) <==> nodes.contains(c) || alone_in_owners(t, list, k as int, c),
        decreases owners@.len() - k,
    {
        let ghost before = out@;
        let o = &owners[k];
        assert(o.loc == list[k as int].0 && parsed(o.usage, list[k as int].1));
        if o.usage.is_none() {
            add_categories(doc, o.loc, &mut out);
        }
        proof {
            assert forall|c: CatLoc| #[trigger] out@.contains(c) <==> nodes.contains(c)
                || alone_in_owners(t, list, k + 1, c) by {
                assert(before.contains(c) <==> nodes.contains(c) || alone_in_owners(
                    t,
                    list,
                    k as int,
                    c,
                ));
                if alone_in_owners(t, list, k as int, c) {
                    let m = choose|m: int|
                        0 <= m < k && category_among(t, (#[trigger] list[m]).0, c)
                            && operations::lenient_operations(list[m].1) is None;
                    assert(category_among(t, list[m].0, c));
                }
                if category_among(t, list[k as int].0, c) && operations::lenient_operations(
                    list[k as int].1,
                ) is None {
                    assert(alone_in_owners(t, list, k + 1, c));
                }
            }
        }
        k += 1;
    }
    proof {
        assert forall|c: CatLoc| #[trigger] out@.contains(c) <==> left_alone(t, list, c) by {
            lemma_left_alone(t, list, c);
            assert(nodes.contains(c) <==> alone_in_nodes(t, t.len() as int, c));
        }
    }
    out
}

fn holds_loc(locs: &Vec<CatLoc>, c: CatLoc) -> (r: bool)
    ensures
        r == locs@.contains(c),
{
    let mut i: usize = 0;
    while i < locs.len()
        invariant
            i <= locs@.len(),
            forall|k: int| 0 <= k < i ==> #[trigger] locs@[k] != c,
        decreases locs@.len() - i,
    {
        if same_cat(locs[i], c) {
            assert(locs@[i as int] == c);
            return true;
        }
        i += 1;
    }
    false
}

fn is_used(
    stops: &Vec<Stop>,
    owners: &Vec<Owner>,
    c: CatLoc,
    name: &Vec<u8>,
    Ghost(t): Ghost<document::TableView>,
    Ghost(list): Ghost<Seq<(ResLoc, Seq<u8>)>>,
) -> (r: bool)
    requires
        owners_match(owners@, list),
        stops_view(stops@) == visits_of(t, list, list.len() as int),
    ensures
        r == used_by_visits(stops_view(stops@), list, c, name@),
{
    let ghost visits = stops_view(stops@);
    proof {
        lemma_visits(t, list, list.len() as int);
    }
    let mut m: usize = 0;
    while m < stops.len()
        invariant
            m <= stops@.len(),
            visits == stops_view(stops@),
            visits == visits_of(t, list, list.len() as int),
            owners_match(owners@, list),
            forall|k: int|
                0 <= k < visits.len() ==> 0 <= (#[trigger] visits[k]).owner < list.len() && 0
                    <= visits[k].category < CATEGORIES && operations::lenient_operations(
                    list[visits[k].owner].1,
                ) is Some,
            forall|k: int|
                0 <= k < m ==> !((#[trigger] visits[k]).loc == c && content_uses(
                    list[visits[k].owner].1,
                    visits[k].category,
                    name@,
                )),
        decreases stops@.len() - m,
    {
        let stop = &stops[m];
        assert(visits[m as int] == (Visit {
            owner: stop.owner as int,
            category: stop.category as int,
            loc: stop.loc,
        }));
        if same_cat(stop.loc, c) {
            let o = &owners[stop.owner];
            assert(parsed(o.usage, list[stop.owner as int].1));
            if let Some(u) = &o.usage {
                let ghost ops = operations::lenient_operations(list[stop.owner as int].1)->0;
                assert(usage_of(*u, ops, ops.len() as int));
                assert(u.names@[stop.category as int].wf());
                assert(usage_has(*u, stop.category as int, name@) <==> ops_use(
                    ops,
                    ops.len() as int,
                    stop.category as int,
                    name@,
                ));
                if u.names[stop.category].has(name) || (stop.category == 1 && u.inline) {
                    assert(content_uses(list[visits[m as int].owner].1, visits[m as int].category, name@));
                    return true;
                }
            }
        }
        m += 1;
    }
    false
}

spec fn names_view(names: Seq<Vec<u8>>) -> Seq<Seq<u8>> {
    names.map_values(|n: Vec<u8>| n@)
}

fn find_doomed(
    doc: &Pdf,
    stops: &Vec<Stop>,
    owners: &Vec<Owner>,
    alone: &Vec<CatLoc>,
    c: CatLoc,
    Ghost(list): Ghost<Seq<(ResLoc, Seq<u8>)>>,
) -> (r: Vec<Vec<u8>>)
    requires
        doc.wf(),
        owners_match(owners@, list),
        stops_view(stops@) == visits_of(doc@.objects, list, list.len() as int),
        forall|c: CatLoc| #[trigger] alone@.contains(c) <==> left_alone(doc@.objects, list, c),
    ensures
        names_view(r@) == doomed(doc@.objects, list, c),
{
    let ghost t = doc@.objects;
    let ghost visits = stops_view(stops@);
    let mut out: Vec<Vec<u8>> = Vec::new();
    assert(names_view(out@) =~= Seq::empty());
    let d = match category_dict(doc, c) {
        Some(d) => d,
        None => {
            return out;
        },
    };
    if holds_loc(alone, c) {
        return out;
    }
    let ghost view = d@;
    let mut i: usize = 0;
    while i < d.entries.len()
        invariant
            i <= d.entries@.len(),
            t == doc@.objects,
            view == d@,
            owners_match(owners@, list),
            visits == stops_view(stops@),
            visits == visits_of(t, list, list.len() as int),
            names_view(out@) == unused_names(visits, list, c, view, i as int),
        decreases d.entries@.len() - i,
    {
        let ghost before = names_view(out@);
        let name = &d.entries[i].0;
        assert(view[i as int].0 == name@);
        if !is_used(stops, owners, c, name, Ghost(t), Ghost(list)) {
            out.push(bytes::copy(name));
            assert(names_view(out@) =~= before.push(name@));
        }
        i += 1;
    }
    out
}

fn drop_names(d: &mut Dict, names: &Vec<Vec<u8>>) -> (r: usize)
    ensures
        final(d)@ == without_names(old(d)@, names_view(names@), names@.len() as int),
        r == old(d)@.len() - final(d)@.len(),
{
    let ghost start = d@;
    let ghost view = names_view(names@);
    let mut removed: usize = 0;
    let mut i: usize = 0;
    while i < names.len()
        invariant
            i <= names@.len(),
            view == names_view(names@),
            d@ == without_names(start, view, i as int),
            removed == start.len() - d@.len(),
            removed <= i,
        decreases names@.len() - i,
    {
        assert(view[i as int] == names@[i as int]@);
        proof {
            object::lemma_key_at(d@, view[i as int]);
        }
        if d.remove(&names[i]).is_some() {
            removed += 1;
        }
        i += 1;
    }
    removed
}

/// How many entries an object has in a category that it holds.
pub open spec fn held(v: ValueView, c: CatLoc) -> int {
    match (c, own_dict(v)) {
        (_, None) => 0,
        (CatLoc::Indirect(_), Some(d)) => d.len() as int,
        (CatLoc::InlineIn(ResLoc::Indirect(_), i), Some(d)) => held_inner(d, category(i as int)),
        (CatLoc::InlineIn(ResLoc::InlineIn(_), i), Some(d)) => match inner(d, "Resources"@) {
            Some(res) => held_inner(res, category(i as int)),
            None => 0,
        },
    }
}

pub open spec fn held_inner(d: object::DictView, key: Seq<char>) -> int {
    match inner(d, key) {
        Some(e) => e.len() as int,
        None => 0,
    }
}

fn drop_inner(d: &mut Dict, key: &str, names: &Vec<Vec<u8>>) -> (r: usize)
    ensures
        final(d)@ == cut_inner(old(d)@, key@, names_view(names@)),
        r == held_inner(old(d)@, key@) - held_inner(final(d)@, key@),
{
    let ghost start = d@;
    proof {
        object::lemma_key_at(start, bytes::text(key@));
    }
    let at = d.position(key.as_bytes());
    if at >= d.entries.len() {
        return 0;
    }
    let ghost old_value = start[at as int].1;
    assert(old_value == d.entries@[at as int].1@);
    let removed = match &mut d.entries[at].1 {
        Value::Dictionary(e) => drop_names(e, names),
        _ => 0,
    };
    proof {
        if old_value is Dictionary {
            let e = without_names(old_value->Dictionary_0, names_view(names@), names@.len() as int);
            assert(d@ =~= start.update(at as int, (start[at as int].0, ValueView::Dictionary(e))));
            object::lemma_key_at(d@, bytes::text(key@));
            lemma_replaced(start, bytes::text(key@), ValueView::Dictionary(e));
        } else {
            assert(d@ =~= start);
        }
    }
    removed
}

/// What was put at a key stands there.
proof fn lemma_replaced(d: object::DictView, key: Seq<u8>, v: ValueView)
    ensures
        object::lookup(object::with_entry(d, key, v), key) == Some(v),
{
    let e = object::with_entry(d, key, v);
    object::lemma_key_at(d, key);
    let at = object::key_at(d, key);
    assert forall|i: int| 0 <= i < at implies (#[trigger] e[i]).0 != key by {
        assert(e[i].0 == d[i].0);
    }
    object::lemma_key_at_is(e, key, at);
}

fn drop_in_owner(d: &mut Dict, i: usize, names: &Vec<Vec<u8>>) -> (r: usize)
    ensures
        final(d)@ == cut_owner(old(d)@, i as int, names_view(names@)),
        r == held(
            ValueView::Dictionary(old(d)@),
            CatLoc::InlineIn(ResLoc::InlineIn((0u32, 0u16)), i),
        ) - held(
            ValueView::Dictionary(final(d)@),
            CatLoc::InlineIn(ResLoc::InlineIn((0u32, 0u16)), i),
        ),
{
    let ghost start = d@;
    let ghost key = bytes::text("Resources"@);
    proof {
        object::lemma_key_at(start, key);
    }
    let at = d.position("Resources".as_bytes());
    if at >= d.entries.len() {
        return 0;
    }
    let ghost old_value = start[at as int].1;
    assert(old_value == d.entries@[at as int].1@);
    let removed = match &mut d.entries[at].1 {
        Value::Dictionary(e) => drop_inner(e, category_name(i), names),
        _ => 0,
    };
    proof {
        if old_value is Dictionary {
            let e = cut_inner(old_value->Dictionary_0, category(i as int), names_view(names@));
            assert(d@ =~= start.update(at as int, (start[at as int].0, ValueView::Dictionary(e))));
            lemma_replaced(start, key, ValueView::Dictionary(e));
        } else {
            assert(d@ =~= start);
        }
    }
    removed
}

fn drop_in_object(v: &mut Value, c: CatLoc, names: &Vec<Vec<u8>>) -> (r: usize)
    ensures
        final(v)@ == cut_object(old(v)@, c, names_view(names@)),
        r == held(old(v)@, c) - held(final(v)@, c),
{
    match c {
        CatLoc::Indirect(_) => match v {
            Value::Dictionary(d) => drop_names(d, names),
            _ => 0,
        },
        CatLoc::InlineIn(ResLoc::Indirect(_), i) => match v {
            Value::Dictionary(d) => drop_inner(d, category_name(i), names),
            _ => 0,
        },
        CatLoc::InlineIn(ResLoc::InlineIn(_), i) => match v {
            Value::Dictionary(d) => drop_in_owner(d, i, names),
            Value::Stream(s) => drop_in_owner(&mut s.dict, i, names),
            _ => 0,
        },
    }
}

/// How many entries leave a category when names are removed from it.
pub open spec fn cut_size(t: document::TableView, c: CatLoc, names: Seq<Seq<u8>>) -> int {
    match document::place(t, holder(c), document::DEREF_LIMIT as nat) {
        Some(i) => held(t[i].1, c) - held(cut_object(t[i].1, c, names), c),
        None => 0,
    }
}

/// How many entries leave at the first `n` places.
pub open spec fn cut_total(
    t: document::TableView,
    owners: Seq<(ResLoc, Seq<u8>)>,
    visits: Seq<Visit>,
    n: int,
) -> int
    decreases n,
{
    if n <= 0 || n > visits.len() {
        0
    } else {
        cut_total(t, owners, visits, n - 1) + if seen_before(visits, n - 1) {
            0
        } else {
            cut_size(
                cut_all(t, owners, visits, n - 1),
                visits[n - 1].loc,
                doomed(t, owners, visits[n - 1].loc),
            )
        }
    }
}

/// How many resource entries no content stream refers to.
pub open spec fn pruned_count(doc: document::PdfView) -> int {
    let owners = owners_of(doc);
    let visits = visits_of(doc.objects, owners, owners.len() as int);
    cut_total(doc.objects, owners, visits, visits.len() as int)
}

fn drop_at(doc: &mut Pdf, c: CatLoc, names: &Vec<Vec<u8>>) -> (r: usize)
    requires
        old(doc).wf(),
    ensures
        final(doc).wf(),
        final(doc)@ == (document::PdfView {
            objects: cut(old(doc)@.objects, c, names_view(names@)),
            ..old(doc)@
        }),
        final(doc).encryption == old(doc).encryption,
        r == cut_size(old(doc)@.objects, c, names_view(names@)),
{
    let ghost t = doc@.objects;
    let id = match c {
        CatLoc::Indirect(id) => id,
        CatLoc::InlineIn(ResLoc::Indirect(id), _) => id,
        CatLoc::InlineIn(ResLoc::InlineIn(id), _) => id,
    };
    match doc.place_of(id) {
        None => 0,
        Some(i) => {
            let removed = drop_in_object(&mut doc.objects[i].1, c, names);
            proof {
                let goal = cut(t, c, names_view(names@));
                assert(doc@.objects =~= goal);
                assert forall|a: int, b: int| 0 <= a < b < goal.len() implies document::id_less(
                    (#[trigger] goal[a]).0,
                    (#[trigger] goal[b]).0,
                ) by {
                    assert(document::id_less(t[a].0, t[b].0));
                }
            }
            removed
        },
    }
}

fn visited_before(stops: &Vec<Stop>, n: usize) -> (r: bool)
    requires
        n < stops@.len(),
    ensures
        r == seen_before(stops_view(stops@), n as int),
{
    let ghost visits = stops_view(stops@);
    let mut m: usize = 0;
    while m < n
        invariant
            m <= n < stops@.len(),
            visits == stops_view(stops@),
            forall|k: int| 0 <= k < m ==> (#[trigger] visits[k]).loc != visits[n as int].loc,
        decreases n - m,
    {
        assert(visits[m as int].loc == stops@[m as int].loc);
        assert(visits[n as int].loc == stops@[n as int].loc);
        if same_cat(stops[m].loc, stops[n].loc) {
            return true;
        }
        m += 1;
    }
    false
}

/// Removes the resource entries that no content stream refers to. Returns the
/// number of entries removed.
pub fn prune_unused(doc: &mut Pdf) -> (r: u128)
    requires
        old(doc).wf(),
    ensures
        final(doc).wf(),
        final(doc)@ == (document::PdfView { objects: pruned(old(doc)@), ..old(doc)@ }),
        final(doc).encryption == old(doc).encryption,
        r == pruned_count(old(doc)@),
{
    let ghost before = doc@;
    let ghost t = before.objects;
    let ghost list = owners_of(before);
    let owners = find_owners(doc);
    let stops = find_stops(doc, &owners, Ghost(list));
    let alone = find_alone(doc, &owners, Ghost(list));
    let ghost visits = stops_view(stops@);
    let mut plan: Vec<Option<Vec<Vec<u8>>>> = Vec::new();
    let mut i: usize = 0;
    while i < stops.len()
        invariant
            i <= stops@.len(),
            doc.wf(),
            doc@ == before,
            t == before.objects,
            doc.encryption == old(doc).encryption,
            owners_match(owners@, list),
            visits == stops_view(stops@),
            visits == visits_of(t, list, list.len() as int),
            forall|c: CatLoc| #[trigger] alone@.contains(c) <==> left_alone(t, list, c),
            plan@.len() == i,
            forall|k: int| 0 <= k < i ==> planned(#[trigger] plan@[k], t, list, visits, k),
        decreases stops@.len() - i,
    {
        if visited_before(&stops, i) {
            plan.push(None);
        } else {
            let c = stops[i].loc;
            assert(visits[i as int].loc == c);
            plan.push(Some(find_doomed(doc, &stops, &owners, &alone, c, Ghost(list))));
        }
        assert(planned(plan@[i as int], t, list, visits, i as int));
        i += 1;
    }
    let len: usize = stops.len();
    let mut removed: u128 = 0;
    let mut k: usize = 0;
    assert(0 * 0xFFFF_FFFF_FFFF_FFFF == 0);
    while k < len
        invariant
            k <= len == stops@.len() == plan@.len(),
            doc.wf(),
            doc.encryption == old(doc).encryption,
            visits == stops_view(stops@),
            doc@ == (document::PdfView { objects: cut_all(t, list, visits, k as int), ..before }),
            forall|m: int|
                0 <= m < plan@.len() ==> planned(#[trigger] plan@[m], t, list, visits, m),
            removed == cut_total(t, list, visits, k as int),
            removed <= k * 0xFFFF_FFFF_FFFF_FFFF,
        decreases len - k,
    {
        assert(planned(plan@[k as int], t, list, visits, k as int));
        assert(visits[k as int].loc == stops@[k as int].loc);
        if let Some(names) = &plan[k] {
            let n = drop_at(doc, stops[k].loc, names);
            assert(removed + n <= (k + 1) * 0xFFFF_FFFF_FFFF_FFFF) by (nonlinear_arith)
                requires
                    removed <= k * 0xFFFF_FFFF_FFFF_FFFF,
                    n <= 0xFFFF_FFFF_FFFF_FFFF,
            ;
            assert((k + 1) * 0xFFFF_FFFF_FFFF_FFFF <= 0xFFFF_FFFF_FFFF_FFFF
                * 0xFFFF_FFFF_FFFF_FFFF) by (nonlinear_arith)
                requires
                    k + 1 <= 0xFFFF_FFFF_FFFF_FFFF,
            ;
            removed = removed + n as u128;
        } else {
            assert(k * 0xFFFF_FFFF_FFFF_FFFF <= (k + 1) * 0xFFFF_FFFF_FFFF_FFFF)
                by (nonlinear_arith);
        }
        k += 1;
    }
    removed
}

/// What is planned for a place: nothing where it was taken before.
spec fn planned(
    p: Option<Vec<Vec<u8>>>,
    t: document::TableView,
    owners: Seq<(ResLoc, Seq<u8>)>,
    visits: Seq<Visit>,
    k: int,
) -> bool {
    match p {
        Some(names) => !seen_before(visits, k) && names_view(names@) == doomed(
            t,
            owners,
            visits[k].loc,
        ),
        None => seen_before(visits, k),
    }
}

// ------------------------------------------------------------- form fonts

/// A dictionary reached from an object by keys, each of which holds a
/// dictionary.
#[derive(Debug, PartialEq, Eq)]
pub struct DictPath {
    pub base: ObjectId,
    pub keys: Vec<Vec<u8>>,
}

/// A dictionary reached from another by the keys from `i` on.
pub open spec fn down(d: object::DictView, keys: Seq<Seq<u8>>, i: int) -> Option<object::DictView>
    decreases keys.len() - i,
{
    if i < 0 || i >= keys.len() {
        Some(d)
    } else {
        match object::lookup(d, keys[i]) {
            Some(ValueView::Dictionary(e)) => down(e, keys, i + 1),
            _ => None,
        }
    }
}

/// A dictionary reached from an object by keys.
pub open spec fn dict_at_path(t: document::TableView, base: ObjectId, keys: Seq<Seq<u8>>) -> Option<
    object::DictView,
> {
    match document::dictionary_at(t, base) {
        Some(d) => down(d, keys, 0),
        None => None,
    }
}

/// One step further: a reference starts a path, a dictionary continues it.
pub open spec fn step_down(
    t: document::TableView,
    at: (ObjectId, Seq<Seq<u8>>),
    key: Seq<char>,
) -> Option<(ObjectId, Seq<Seq<u8>>)> {
    match dict_at_path(t, at.0, at.1) {
        Some(d) => match object::lookup(d, bytes::text(key)) {
            Some(ValueView::Reference(id)) => Some((id, Seq::empty())),
            Some(ValueView::Dictionary(_)) => Some((at.0, at.1.push(bytes::text(key)))),
            _ => None,
        },
        None => None,
    }
}

/// The way to the fonts of an interactive form's default resources; none where
/// the form is an XFA form.
pub open spec fn form_fonts(doc: document::PdfView) -> Option<(ObjectId, Seq<Seq<u8>>)> {
    let t = doc.objects;
    match document::root_id(doc) {
        None => None,
        Some(root) => match step_down(t, (root, Seq::empty()), "AcroForm"@) {
            None => None,
            Some(form) => match dict_at_path(t, form.0, form.1) {
                None => None,
                Some(d) => if object::lookup(d, bytes::text("XFA"@)) is Some {
                    None
                } else {
                    match step_down(t, form, "DR"@) {
                        None => None,
                        Some(dr) => step_down(t, dr, "Font"@),
                    }
                },
            },
        },
    }
}

/// The names among the first `n` entries that are not used.
pub open spec fn unnamed(d: object::DictView, used: Set<Seq<u8>>, n: int) -> Seq<Seq<u8>>
    decreases n,
{
    if n <= 0 || n > d.len() {
        Seq::empty()
    } else if used.contains(d[n - 1].0) {
        unnamed(d, used, n - 1)
    } else {
        unnamed(d, used, n - 1).push(d[n - 1].0)
    }
}

/// A dictionary with names removed from the dictionary that keys lead to.
pub open spec fn cut_down(
    d: object::DictView,
    keys: Seq<Seq<u8>>,
    i: int,
    names: Seq<Seq<u8>>,
) -> object::DictView
    decreases keys.len() - i,
{
    if i < 0 || i >= keys.len() {
        without_names(d, names, names.len() as int)
    } else {
        match object::lookup(d, keys[i]) {
            Some(ValueView::Dictionary(e)) => object::with_entry(
                d,
                keys[i],
                ValueView::Dictionary(cut_down(e, keys, i + 1, names)),
            ),
            _ => d,
        }
    }
}

/// How often an object refers to another.
pub open spec fn times(v: ValueView, id: ObjectId) -> nat
    decreases v, 1int, 0int,
{
    match v {
        ValueView::Reference(r) => if r == id {
            1
        } else {
            0
        },
        ValueView::Array(items) => times_in_items(items, id, items.len() as int),
        ValueView::Dictionary(d) => times_in_dict(d, id, d.len() as int),
        ValueView::Stream(d, _) => times_in_dict(d, id, d.len() as int),
        _ => 0,
    }
}

/// How often the first `n` items refer to an object.
pub open spec fn times_in_items(items: Seq<ValueView>, id: ObjectId, n: int) -> nat
    decreases items, 0int, n,
{
    if n <= 0 || n > items.len() {
        0
    } else {
        times_in_items(items, id, n - 1) + times(items[n - 1], id)
    }
}

/// How often the first `n` entries refer to an object.
pub open spec fn times_in_dict(d: object::DictView, id: ObjectId, n: int) -> nat
    decreases d, 0int, n,
{
    if n <= 0 || n > d.len() {
        0
    } else {
        times_in_dict(d, id, n - 1) + times(d[n - 1].1, id)
    }
}

/// How often the first `n` objects refer to an object.
pub open spec fn times_in_table(t: document::TableView, id: ObjectId, n: int) -> nat
    decreases n,
{
    if n <= 0 || n > t.len() {
        0
    } else {
        times_in_table(t, id, n - 1) + times(t[n - 1].1, id)
    }
}

/// Whether more than one place refers to an object.
pub open spec fn shared(t: document::TableView, id: ObjectId) -> bool {
    times_in_table(t, id, t.len() as int) > 1
}

/// A count that stops at two.
pub open spec fn up_to_two(n: nat) -> nat {
    if n > 2 {
        2
    } else {
        n
    }
}

fn plus_up_to_two(a: u8, b: u8) -> (r: u8)
    requires
        a <= 2,
        b <= 2,
    ensures
        r == up_to_two((a + b) as nat),
{
    if a + b > 2 {
        2
    } else {
        a + b
    }
}

fn count_in_dict(d: &Dict, id: ObjectId) -> (r: u8)
    ensures
        r == up_to_two(times_in_dict(d@, id, d@.len() as int)),
    decreases d,
{
    let ghost view = d@;
    let mut count: u8 = 0;
    let mut i: usize = 0;
    while i < d.entries.len()
        invariant
            i <= d.entries@.len(),
            view == d@,
            count == up_to_two(times_in_dict(view, id, i as int)),
        decreases d.entries@.len() - i,
    {
        assert(view[i as int].1 == d.entries@[i as int].1@);
        assert(decreases_to!(d => d.entries@[i as int].1));
        count = plus_up_to_two(count, count_in(&d.entries[i].1, id));
        i += 1;
    }
    count
}

fn count_in(v: &Value, id: ObjectId) -> (r: u8)
    ensures
        r == up_to_two(times(v@, id)),
    decreases v,
{
    match v {
        Value::Reference(r) => if r.0 == id.0 && r.1 == id.1 {
            1
        } else {
            0
        },
        Value::Array(items) => {
            let ghost view = object::objects_view(items@);
            proof {
                object::lemma_array_view(*items);
            }
            let mut count: u8 = 0;
            let mut i: usize = 0;
            while i < items.len()
                invariant
                    i <= items@.len(),
                    v == Value::Array(*items),
                    view == object::objects_view(items@),
                    count == up_to_two(times_in_items(view, id, i as int)),
                decreases items@.len() - i,
            {
                assert(view[i as int] == items@[i as int]@);
                assert(decreases_to!(v => v->Array_0@[i as int]));
                count = plus_up_to_two(count, count_in(&items[i], id));
                i += 1;
            }
            assert(v@ == ValueView::Array(view));
            count
        },
        Value::Dictionary(d) => count_in_dict(d, id),
        Value::Stream(s) => count_in_dict(&s.dict, id),
        _ => 0,
    }
}

fn is_shared(doc: &Pdf, id: ObjectId) -> (r: bool)
    ensures
        r == shared(doc@.objects, id),
{
    let ghost t = doc@.objects;
    let mut count: u8 = 0;
    let mut i: usize = 0;
    while i < doc.objects.len()
        invariant
            i <= doc.objects@.len(),
            t == doc@.objects,
            count == up_to_two(times_in_table(t, id, i as int)),
        decreases doc.objects@.len() - i,
    {
        assert(t[i as int].1 == doc.objects@[i as int].1@);
        count = plus_up_to_two(count, count_in(&doc.objects[i].1, id));
        i += 1;
    }
    count > 1
}

/// The objects of a document without the fonts of its form's default
/// resources that are not used, and how many these are. Nothing is dropped
/// from an object that more than one place refers to.
pub open spec fn fonts_pruned(doc: document::PdfView, used: Set<Seq<u8>>) -> (
    document::TableView,
    int,
) {
    let t = doc.objects;
    match form_fonts(doc) {
        None => (t, 0),
        Some((base, keys)) => match dict_at_path(t, base, keys) {
            None => (t, 0),
            Some(d) => if shared(t, base) {
                (t, 0)
            } else {
                let names = unnamed(d, used, d.len() as int);
                match document::place(t, base, document::DEREF_LIMIT as nat) {
                    Some(i) => match t[i].1 {
                        ValueView::Dictionary(b) => (
                            t.update(
                                i,
                                (t[i].0, ValueView::Dictionary(cut_down(b, keys, 0, names))),
                            ),
                            names.len() as int,
                        ),
                        _ => (t, 0),
                    },
                    None => (t, 0),
                }
            },
        },
    }
}

fn dict_at<'a>(doc: &'a Pdf, at: &DictPath) -> (r: Option<&'a Dict>)
    requires
        doc.wf(),
    ensures
        some_dict(r) == dict_at_path(doc@.objects, at.base, names_view(at.keys@)),
{
    let ghost keys = names_view(at.keys@);
    let mut d = match doc.get_dictionary(at.base) {
        Some(d) => d,
        None => {
            return None;
        },
    };
    let ghost goal = dict_at_path(doc@.objects, at.base, keys);
    let mut i: usize = 0;
    while i < at.keys.len()
        invariant
            i <= at.keys@.len(),
            keys == names_view(at.keys@),
            goal == down(d@, keys, i as int),
            goal == dict_at_path(doc@.objects, at.base, keys),
        decreases at.keys@.len() - i,
    {
        assert(keys[i as int] == at.keys@[i as int]@);
        match d.get(&at.keys[i]) {
            Some(Value::Dictionary(e)) => {
                d = e;
            },
            _ => {
                return None;
            },
        }
        i += 1;
    }
    Some(d)
}

pub open spec fn path_view(p: Option<DictPath>) -> Option<(ObjectId, Seq<Seq<u8>>)> {
    match p {
        Some(p) => Some((p.base, p.keys@.map_values(|n: Vec<u8>| n@))),
        None => None,
    }
}

fn step_path(doc: &Pdf, at: DictPath, key: &str) -> (r: Option<DictPath>)
    requires
        doc.wf(),
    ensures
        path_view(r) == step_down(doc@.objects, (at.base, names_view(at.keys@)), key@),
{
    let next = match dict_at(doc, &at) {
        Some(d) => match d.get(key.as_bytes()) {
            Some(Value::Reference(id)) => Some(*id),
            Some(Value::Dictionary(_)) => None,
            _ => {
                return None;
            },
        },
        None => {
            return None;
        },
    };
    match next {
        Some(id) => {
            let keys: Vec<Vec<u8>> = Vec::new();
            assert(names_view(keys@) =~= Seq::empty());
            Some(DictPath { base: id, keys })
        },
        None => {
            let ghost before = names_view(at.keys@);
            let mut at = at;
            at.keys.push(bytes::of(key));
            assert(names_view(at.keys@) =~= before.push(bytes::text(key@)));
            Some(at)
        },
    }
}

fn find_form_fonts(doc: &Pdf) -> (r: Option<DictPath>)
    requires
        doc.wf(),
    ensures
        path_view(r) == form_fonts(doc@),
{
    let root = match doc.root() {
        Some(id) => id,
        None => {
            return None;
        },
    };
    let start = DictPath { base: root, keys: Vec::new() };
    assert(names_view(start.keys@) =~= Seq::empty());
    let form = match step_path(doc, start, "AcroForm") {
        Some(at) => at,
        None => {
            return None;
        },
    };
    match dict_at(doc, &form) {
        Some(d) => {
            if d.has("XFA".as_bytes()) {
                return None;
            }
        },
        None => {
            return None;
        },
    }
    match step_path(doc, form, "DR") {
        Some(at) => step_path(doc, at, "Font"),
        None => None,
    }
}

fn find_unnamed(d: &Dict, used: &NameSet) -> (r: Vec<Vec<u8>>)
    requires
        used.wf(),
    ensures
        names_view(r@) == unnamed(d@, used@, d@.len() as int),
{
    let ghost view = d@;
    let mut out: Vec<Vec<u8>> = Vec::new();
    let mut i: usize = 0;
    assert(names_view(out@) =~= Seq::empty());
    while i < d.entries.len()
        invariant
            i <= d.entries@.len(),
            view == d@,
            used.wf(),
            names_view(out@) == unnamed(view, used@, i as int),
        decreases d.entries@.len() - i,
    {
        let ghost before = names_view(out@);
        let name = &d.entries[i].0;
        assert(view[i as int].0 == name@);
        if !used.has(name) {
            out.push(bytes::copy(name));
            assert(names_view(out@) =~= before.push(name@));
        }
        i += 1;
    }
    out
}

fn drop_down(d: &mut Dict, keys: &Vec<Vec<u8>>, i: usize, names: &Vec<Vec<u8>>)
    requires
        i <= keys@.len(),
    ensures
        final(d)@ == cut_down(old(d)@, names_view(keys@), i as int, names_view(names@)),
    decreases keys@.len() - i,
{
    let ghost start = d@;
    let ghost view = names_view(keys@);
    if i == keys.len() {
        let _ = drop_names(d, names);
        return ;
    }
    assert(view[i as int] == keys@[i as int]@);
    proof {
        object::lemma_key_at(start, view[i as int]);
    }
    let at = d.position(&keys[i]);
    if at >= d.entries.len() {
        return ;
    }
    let ghost old_value = start[at as int].1;
    assert(old_value == d.entries@[at as int].1@);
    match &mut d.entries[at].1 {
        Value::Dictionary(e) => {
            drop_down(e, keys, i + 1, names);
        },
        _ => {},
    }
    proof {
        if old_value is Dictionary {
            let e = cut_down(old_value->Dictionary_0, view, i + 1, names_view(names@));
            assert(d@ =~= start.update(at as int, (start[at as int].0, ValueView::Dictionary(e))));
        } else {
            assert(d@ =~= start);
        }
    }
}

/// Fonts in an AcroForm's default resources (`/DR`) that no default
/// appearance string names. Nothing else can select them: fields draw
/// with the fonts their `/DA` strings name, and an XFA engine (which may
/// pick fonts by name from the same dictionary) is ruled out by requiring
/// that the document has no `/XFA` entry. Where something else refers to the
/// fonts too, they stay. Returns the number removed.
pub fn prune_default_resource_fonts(doc: &mut Pdf, used: &NameSet) -> (r: usize)
    requires
        old(doc).wf(),
        used.wf(),
    ensures
        final(doc).wf(),
        (final(doc)@.objects, r as int) == fonts_pruned(old(doc)@, used@),
        final(doc)@ == (document::PdfView { objects: final(doc)@.objects, ..old(doc)@ }),
        final(doc).encryption == old(doc).encryption,
{
    let ghost t = doc@.objects;
    let path = match find_form_fonts(doc) {
        Some(at) => at,
        None => {
            return 0;
        },
    };
    let names = match dict_at(doc, &path) {
        Some(d) => find_unnamed(d, used),
        None => {
            return 0;
        },
    };
    if is_shared(doc, path.base) {
        return 0;
    }
    match doc.place_of(path.base) {
        None => 0,
        Some(i) => {
            let ghost v = t[i as int].1;
            let mut count: usize = 0;
            match &mut doc.objects[i].1 {
                Value::Dictionary(d) => {
                    drop_down(d, &path.keys, 0, &names);
                    count = names.len();
                },
                _ => {},
            }
            proof {
                if v is Dictionary {
                    let e = cut_down(
                        v->Dictionary_0,
                        names_view(path.keys@),
                        0,
                        names_view(names@),
                    );
                    assert(doc@.objects =~= t.update(
                        i as int,
                        (t[i as int].0, ValueView::Dictionary(e)),
                    ));
                } else {
                    assert(doc@.objects =~= t);
                }
                assert forall|a: int, b: int| 0 <= a < b < t.len() implies document::id_less(
                    (#[trigger] doc@.objects[a]).0,
                    (#[trigger] doc@.objects[b]).0,
                ) by {
                    assert(document::id_less(t[a].0, t[b].0));
                }
            }
            count
        },
    }
}

// ------------------------------------------------------------- laws

proof fn lemma_unused(
    visits: Seq<Visit>,
    owners: Seq<(ResLoc, Seq<u8>)>,
    c: CatLoc,
    d: object::DictView,
    n: int,
)
    ensures
        forall|k: int|
            0 <= k < unused_names(visits, owners, c, d, n).len() ==> !used_by_visits(
                visits,
                owners,
                c,
                #[trigger] unused_names(visits, owners, c, d, n)[k],
            ),
    decreases n,
{
    if 0 < n <= d.len() {
        lemma_unused(visits, owners, c, d, n - 1);
        let front = unused_names(visits, owners, c, d, n - 1);
        let all = unused_names(visits, owners, c, d, n);
        assert forall|k: int| 0 <= k < all.len() implies !used_by_visits(
            visits,
            owners,
            c,
            #[trigger] all[k],
        ) by {
            if k < front.len() {
                assert(all[k] == front[k]);
            }
        }
    }
}

/// A name that the content of an owner uses is not removed from the category
/// in which the owner finds it.
pub proof fn used_names_are_kept(
    t: document::TableView,
    owners: Seq<(ResLoc, Seq<u8>)>,
    c: CatLoc,
    name: Seq<u8>,
)
    requires
        used_by_visits(visits_of(t, owners, owners.len() as int), owners, c, name),
    ensures
        !doomed(t, owners, c).contains(name),
{
    if let Some(d) = category_at(t, c) {
        lemma_unused(
            visits_of(t, owners, owners.len() as int),
            owners,
            c,
            d,
            d.len() as int,
        );
    }
}

/// Nothing is removed from resources that the page tree hands down, nor from
/// those of an owner whose content does not parse.
pub proof fn skipped_resources_are_kept(
    t: document::TableView,
    owners: Seq<(ResLoc, Seq<u8>)>,
    loc: ResLoc,
    i: int,
)
    requires
        skipped(t, owners, loc),
        0 <= i < CATEGORIES,
        category_loc(t, loc, i) is Some,
    ensures
        doomed(t, owners, category_loc(t, loc, i)->0) == Seq::<Seq<u8>>::empty(),
{
    let c = category_loc(t, loc, i)->0;
    assert(category_loc(t, loc, i) == Some(c));
    assert(category_among(t, loc, c));
    assert(left_alone(t, owners, c));
}

/// Tells the categories apart.
proof fn lemma_categories()
    ensures
        "ExtGState"@.len() == 9 && "ExtGState"@[0] == 'E' && "ExtGState"@[1] == 'x' && "ExtGState"@[2] == 't' && "ExtGState"@[3] == 'G',
        "ColorSpace"@.len() == 10 && "ColorSpace"@[0] == 'C' && "ColorSpace"@[1] == 'o' && "ColorSpace"@[2] == 'l' && "ColorSpace"@[3] == 'o',
        "Pattern"@.len() == 7 && "Pattern"@[0] == 'P' && "Pattern"@[1] == 'a' && "Pattern"@[2] == 't' && "Pattern"@[3] == 't',
        "Shading"@.len() == 7 && "Shading"@[0] == 'S' && "Shading"@[1] == 'h' && "Shading"@[2] == 'a' && "Shading"@[3] == 'd',
        "XObject"@.len() == 7 && "XObject"@[0] == 'X' && "XObject"@[1] == 'O' && "XObject"@[2] == 'b' && "XObject"@[3] == 'j',
        "Font"@.len() == 4 && "Font"@[0] == 'F' && "Font"@[1] == 'o' && "Font"@[2] == 'n' && "Font"@[3] == 't',
        "Properties"@.len() == 10 && "Properties"@[0] == 'P' && "Properties"@[1] == 'r' && "Properties"@[2] == 'o' && "Properties"@[3] == 'p',
        "Resources"@.len() == 9 && "Resources"@[0] == 'R' && "Resources"@[1] == 'e' && "Resources"@[2] == 's' && "Resources"@[3] == 'o',
{
    reveal_strlit("ExtGState");
    reveal_strlit("ColorSpace");
    reveal_strlit("Pattern");
    reveal_strlit("Shading");
    reveal_strlit("XObject");
    reveal_strlit("Font");
    reveal_strlit("Properties");
    reveal_strlit("Resources");
}

/// Tells the operators apart.
proof fn lemma_operators()
    ensures
        "gs"@.len() == 2 && "gs"@[0] == 'g' && "gs"@[1] == 's',
        "cs"@.len() == 2 && "cs"@[0] == 'c' && "cs"@[1] == 's',
        "CS"@.len() == 2 && "CS"@[0] == 'C' && "CS"@[1] == 'S',
        "scn"@.len() == 3 && "scn"@[0] == 's' && "scn"@[1] == 'c' && "scn"@[2] == 'n',
        "SCN"@.len() == 3 && "SCN"@[0] == 'S' && "SCN"@[1] == 'C' && "SCN"@[2] == 'N',
        "sh"@.len() == 2 && "sh"@[0] == 's' && "sh"@[1] == 'h',
        "Do"@.len() == 2 && "Do"@[0] == 'D' && "Do"@[1] == 'o',
        "Tf"@.len() == 2 && "Tf"@[0] == 'T' && "Tf"@[1] == 'f',
        "BDC"@.len() == 3 && "BDC"@[0] == 'B' && "BDC"@[1] == 'D' && "BDC"@[2] == 'C',
        "DP"@.len() == 2 && "DP"@[0] == 'D' && "DP"@[1] == 'P',
        "BI"@.len() == 2 && "BI"@[0] == 'B' && "BI"@[1] == 'I',
        "ID"@.len() == 2 && "ID"@[0] == 'I' && "ID"@[1] == 'D',
        "EI"@.len() == 2 && "EI"@[0] == 'E' && "EI"@[1] == 'I',
{
    reveal_strlit("gs");
    reveal_strlit("cs");
    reveal_strlit("CS");
    reveal_strlit("scn");
    reveal_strlit("SCN");
    reveal_strlit("sh");
    reveal_strlit("Do");
    reveal_strlit("Tf");
    reveal_strlit("BDC");
    reveal_strlit("DP");
    reveal_strlit("BI");
    reveal_strlit("ID");
    reveal_strlit("EI");
}

/// Whether an operation names an entry of a category: `/N gs` one of
/// `ExtGState`, `/N cs` and `/N CS` one of `ColorSpace`, `... /N scn` and
/// `... /N SCN` one of `Pattern`, `/N sh` one of `Shading`, `/N Do` one of
/// `XObject`, `/N size Tf` one of `Font`, `/Tag /N BDC` and `/Tag /N DP` one of
/// `Properties`.
pub open spec fn names_entry(op: OperationView, key: Seq<char>, name: Seq<u8>) -> bool {
    let o = op.operator;
    let n = op.operands.len() as int;
    let first = n >= 1 && op.operands[0].value == ValueView::Name(name);
    let second = n >= 2 && op.operands[1].value == ValueView::Name(name);
    let last = n >= 1 && op.operands[n - 1].value == ValueView::Name(name);
    ||| o == "gs"@ && key == "ExtGState"@ && first
    ||| (o == "cs"@ || o == "CS"@) && key == "ColorSpace"@ && first
    ||| (o == "scn"@ || o == "SCN"@) && key == "Pattern"@ && last
    ||| o == "sh"@ && key == "Shading"@ && first
    ||| o == "Do"@ && key == "XObject"@ && first
    ||| o == "Tf"@ && key == "Font"@ && first
    ||| (o == "BDC"@ || o == "DP"@) && key == "Properties"@ && second
}

/// Whether an operation belongs to an inline image, which may name any entry
/// of `ColorSpace`.
pub open spec fn names_any_space(op: OperationView, key: Seq<char>) -> bool {
    key == "ColorSpace"@ && (op.operator == "BI"@ || op.operator == "ID"@ || op.operator == "EI"@)
}

/// The number of a category.
spec fn index_of(key: Seq<char>) -> int {
    if key == "ExtGState"@ {
        0
    } else if key == "ColorSpace"@ {
        1
    } else if key == "Pattern"@ {
        2
    } else if key == "Shading"@ {
        3
    } else if key == "XObject"@ {
        4
    } else if key == "Font"@ {
        5
    } else {
        6
    }
}

/// Categories have different names, and none is called `Resources`.
proof fn lemma_distinct(i: int, j: int)
    requires
        0 <= i < CATEGORIES,
        0 <= j < CATEGORIES,
    ensures
        category(i) != "Resources"@,
        bytes::text(category(i)) != bytes::text("Resources"@),
        i != j ==> bytes::text(category(i)) != bytes::text(category(j)),
{
    lemma_categories();
    bytes::lemma_text_differs(category(i), "Resources"@);
    if i != j {
        bytes::lemma_text_differs(category(i), category(j));
    }
}

/// Each operator names the category that it reads.
proof fn lemma_named(op: OperationView, key: Seq<char>, name: Seq<u8>)
    requires
        names_entry(op, key, name),
    ensures
        0 <= index_of(key) < CATEGORIES,
        category(index_of(key)) == key,
        op_uses(op, index_of(key), name),
{
    lemma_categories();
    lemma_operators();
}

/// The operators that name an entry name no other, and nothing else does.
pub proof fn operators_name_their_category(op: OperationView, i: int, name: Seq<u8>)
    requires
        0 <= i < CATEGORIES,
    ensures
        op_uses(op, i, name) <==> names_entry(op, category(i), name),
{
    lemma_categories();
    lemma_operators();
}

/// The resources of an owner: an object, or the dictionary in the owner's own.
pub open spec fn owner_resources(t: document::TableView, loc: ResLoc) -> Option<object::DictView> {
    match loc {
        ResLoc::Indirect(id) => match document::object_at(t, id) {
            Some(ValueView::Dictionary(d)) => Some(d),
            _ => None,
        },
        ResLoc::InlineIn(id) => {
            let own = match document::object_at(t, id) {
                Some(ValueView::Dictionary(d)) => object::lookup(d, bytes::text("Resources"@)),
                Some(ValueView::Stream(d, _)) => object::lookup(d, bytes::text("Resources"@)),
                _ => None,
            };
            match own {
                Some(ValueView::Dictionary(r)) => Some(r),
                _ => None,
            }
        },
    }
}

/// Whether the resources of an owner hold an entry of a category, in place or
/// in an object of its own.
pub open spec fn holds_entry(
    t: document::TableView,
    loc: ResLoc,
    key: Seq<char>,
    name: Seq<u8>,
) -> bool {
    match owner_resources(t, loc) {
        Some(r) => match object::lookup(r, bytes::text(key)) {
            Some(ValueView::Dictionary(d)) => object::lookup(d, name) is Some,
            Some(ValueView::Reference(id)) => match document::object_at(t, id) {
                Some(ValueView::Dictionary(d)) => object::lookup(d, name) is Some,
                _ => false,
            },
            _ => false,
        },
        None => false,
    }
}

/// The object that the resources of an owner stand in.
pub open spec fn resources_holder(loc: ResLoc) -> ObjectId {
    match loc {
        ResLoc::Indirect(id) => id,
        ResLoc::InlineIn(id) => id,
    }
}

/// Whether every object stands for itself.
pub open spec fn no_bare_references(t: document::TableView) -> bool {
    forall|i: int| 0 <= i < t.len() ==> !((#[trigger] t[i]).1 is Reference)
}

/// Whether an owner takes an object for a category.
pub open spec fn taken_for_category(
    t: document::TableView,
    owners: Seq<(ResLoc, Seq<u8>)>,
    id: ObjectId,
) -> bool {
    exists|k: int, i: int|
        0 <= k < owners.len() && 0 <= i < CATEGORIES && #[trigger] category_loc(t, owners[k].0, i)
            == Some(CatLoc::Indirect(id))
}

proof fn lemma_object_at(t: document::TableView, id: ObjectId)
    requires
        no_bare_references(t),
    ensures
        document::object_at(t, id) == document::find(t, id),
{
    if document::has_id(t, id) {
        let i = choose|i: int| document::stands_at(t, id, i);
        assert(document::stands_at(t, id, i));
        assert(!(t[i].1 is Reference));
    }
}

/// Removing names changes one object.
proof fn lemma_cut(t: document::TableView, c: CatLoc, names: Seq<Seq<u8>>)
    requires
        document::ascending(t),
        no_bare_references(t),
    ensures
        document::ascending(cut(t, c, names)),
        no_bare_references(cut(t, c, names)),
        forall|x: ObjectId|
            x != holder(c) ==> #[trigger] document::find(cut(t, c, names), x) == document::find(t, x),
        document::find(cut(t, c, names), holder(c)) == match document::find(t, holder(c)) {
            Some(v) => Some(cut_object(v, c, names)),
            None => None,
        },
{
    let id = holder(c);
    let e = cut(t, c, names);
    if document::has_id(t, id) {
        let i = choose|i: int| document::stands_at(t, id, i);
        assert(document::stands_at(t, id, i));
        assert(!(t[i].1 is Reference));
        assert(document::place(t, id, document::DEREF_LIMIT as nat) == Some(i));
        assert(e == t.update(i, (t[i].0, cut_object(t[i].1, c, names))));
        assert forall|a: int, b: int| 0 <= a < b < e.len() implies document::id_less(
            (#[trigger] e[a]).0,
            (#[trigger] e[b]).0,
        ) by {
            assert(e[a].0 == t[a].0 && e[b].0 == t[b].0);
        }
        assert forall|a: int| 0 <= a < e.len() implies !((#[trigger] e[a]).1 is Reference) by {
            assert(!(t[a].1 is Reference));
        }
        assert(document::stands_at(e, id, i));
        document::lemma_find(e, id, i);
        document::lemma_find(t, id, i);
        assert forall|x: ObjectId| x != id implies #[trigger] document::find(e, x)
            == document::find(t, x) by {
            if document::has_id(t, x) {
                let j = choose|j: int| document::stands_at(t, x, j);
                assert(document::stands_at(t, x, j));
                assert(document::stands_at(e, x, j));
                document::lemma_find(e, x, j);
                document::lemma_find(t, x, j);
            } else if document::has_id(e, x) {
                let j = choose|j: int| document::stands_at(e, x, j);
                assert(document::stands_at(e, x, j));
                assert(document::stands_at(t, x, j));
            }
        }
    } else {
        assert(document::place(t, id, document::DEREF_LIMIT as nat) is None);
    }
}

/// What stands at other keys stays.
proof fn lemma_others(d: object::DictView, key: Seq<u8>, v: ValueView, other: Seq<u8>)
    requires
        key != other,
    ensures
        object::lookup(object::with_entry(d, key, v), other) == object::lookup(d, other),
{
    let e = object::with_entry(d, key, v);
    object::lemma_key_at(d, key);
    object::lemma_key_at(d, other);
    let at = object::key_at(d, other);
    assert forall|i: int| 0 <= i < at implies (#[trigger] e[i]).0 != other by {
        assert(e[i].0 == d[i].0);
    }
    if at < d.len() {
        assert(e[at].0 == d[at].0);
        object::lemma_key_at_is(e, other, at);
        assert(e[at] == d[at]);
    } else {
        object::lemma_key_at_is(e, other, e.len() as int);
    }
}

proof fn lemma_present(d: object::DictView, name: Seq<u8>, i: int)
    requires
        0 <= i < d.len(),
        d[i].0 == name,
    ensures
        object::lookup(d, name) is Some,
{
    object::lemma_key_at(d, name);
}

/// A name stays where others are removed.
proof fn lemma_stays(d: object::DictView, names: Seq<Seq<u8>>, n: int, name: Seq<u8>)
    requires
        object::lookup(d, name) is Some,
        !names.contains(name),
    ensures
        object::lookup(without_names(d, names, n), name) is Some,
    decreases n,
{
    if 0 < n <= names.len() {
        lemma_stays(d, names, n - 1, name);
        let before = without_names(d, names, n - 1);
        let key = names[n - 1];
        assert(names.contains(key));
        let e = object::without_key(before, key);
        object::lemma_key_at(before, name);
        object::lemma_key_at(before, key);
        let (at, gone) = (object::key_at(before, name), object::key_at(before, key));
        if gone < before.len() {
            let j = if at == before.len() - 1 {
                gone
            } else {
                at
            };
            assert(e[j] == before[at]);
            lemma_present(e, name, j);
        }
    }
}

/// A name stays where a value is put.
proof fn lemma_stays_put(d: object::DictView, key: Seq<u8>, v: ValueView, name: Seq<u8>)
    requires
        object::lookup(d, name) is Some,
    ensures
        object::lookup(object::with_entry(d, key, v), name) is Some,
{
    if key == name {
        lemma_replaced(d, key, v);
    } else {
        lemma_others(d, key, v, name);
    }
}

/// Whether a place of a category is one that owners can have.
spec fn proper(c: CatLoc) -> bool {
    match c {
        CatLoc::Indirect(_) => true,
        CatLoc::InlineIn(_, j) => j < CATEGORIES,
    }
}

/// What is left of a category in resources: the same object, or a dictionary
/// that still holds a name.
spec fn category_stays(
    r: object::DictView,
    after: object::DictView,
    key: Seq<char>,
    name: Seq<u8>,
) -> bool {
    match object::lookup(r, bytes::text(key)) {
        Some(ValueView::Reference(a)) => object::lookup(after, bytes::text(key)) == Some(
            ValueView::Reference(a),
        ),
        Some(ValueView::Dictionary(d)) => match object::lookup(after, bytes::text(key)) {
            Some(ValueView::Dictionary(e)) => object::lookup(d, name) is Some ==> object::lookup(
                e,
                name,
            ) is Some,
            _ => false,
        },
        _ => true,
    }
}

proof fn lemma_category_stays(
    r: object::DictView,
    i: int,
    j: int,
    names: Seq<Seq<u8>>,
    name: Seq<u8>,
)
    requires
        0 <= i < CATEGORIES,
        0 <= j < CATEGORIES,
        i == j && object::lookup(r, bytes::text(category(i))) is Some && object::lookup(
            r,
            bytes::text(category(i)),
        )->0 is Dictionary ==> !names.contains(name),
    ensures
        category_stays(r, cut_inner(r, category(j), names), category(i), name),
        object::lookup(cut_inner(r, category(j), names), bytes::text("Resources"@))
            == object::lookup(r, bytes::text("Resources"@)),
{
    lemma_distinct(i, j);
    lemma_distinct(j, i);
    if let Some(e) = inner(r, category(j)) {
        let v = ValueView::Dictionary(without_names(e, names, names.len() as int));
        lemma_others(r, bytes::text(category(j)), v, bytes::text("Resources"@));
        if i != j {
            lemma_others(r, bytes::text(category(j)), v, bytes::text(category(i)));
        } else {
            lemma_replaced(r, bytes::text(category(j)), v);
            if object::lookup(e, name) is Some {
                lemma_stays(e, names, names.len() as int, name);
            }
        }
    }
}

/// One removal keeps the resources of an owner, and in them a category or a
/// name that it does not take.
proof fn lemma_resources_stay(
    t: document::TableView,
    loc: ResLoc,
    i: int,
    name: Seq<u8>,
    c: CatLoc,
    names: Seq<Seq<u8>>,
)
    requires
        document::ascending(t),
        no_bare_references(t),
        0 <= i < CATEGORIES,
        owner_resources(t, loc) is Some,
        proper(c),
        c != CatLoc::Indirect(resources_holder(loc)),
        category_loc(t, loc, i) == Some(c) ==> !names.contains(name),
    ensures
        owner_resources(cut(t, c, names), loc) is Some,
        category_stays(
            owner_resources(t, loc)->0,
            owner_resources(cut(t, c, names), loc)->0,
            category(i),
            name,
        ),
{
    let u = cut(t, c, names);
    lemma_cut(t, c, names);
    let h = resources_holder(loc);
    lemma_object_at(t, h);
    lemma_object_at(u, h);
    let r = owner_resources(t, loc)->0;
    assert(resources_at(t, loc) == Some(r));
    if holder(c) == h {
        match c {
            CatLoc::Indirect(_) => {},
            CatLoc::InlineIn(place, at) => {
                let j = at as int;
                lemma_distinct(i, j);
                lemma_distinct(j, i);
                if place == loc {
                    if i == j && object::lookup(r, bytes::text(category(i))) is Some
                        && object::lookup(r, bytes::text(category(i)))->0 is Dictionary {
                        assert(category_loc(t, loc, i) == Some(c));
                    }
                    lemma_category_stays(r, i, j, names, name);
                    if let ResLoc::InlineIn(_) = loc {
                        let d = own_dict(document::find(t, h)->0)->0;
                        lemma_replaced(
                            d,
                            bytes::text("Resources"@),
                            ValueView::Dictionary(cut_inner(r, category(j), names)),
                        );
                    }
                } else {
                    match loc {
                        ResLoc::Indirect(_) => {
                            if let Some(res) = inner(r, "Resources"@) {
                                lemma_others(
                                    r,
                                    bytes::text("Resources"@),
                                    ValueView::Dictionary(cut_inner(res, category(j), names)),
                                    bytes::text(category(i)),
                                );
                            }
                        },
                        ResLoc::InlineIn(_) => {
                            if let Some(ValueView::Dictionary(d)) = document::find(t, h) {
                                if let Some(e) = inner(d, category(j)) {
                                    lemma_others(
                                        d,
                                        bytes::text(category(j)),
                                        ValueView::Dictionary(
                                            without_names(e, names, names.len() as int),
                                        ),
                                        bytes::text("Resources"@),
                                    );
                                }
                            }
                        },
                    }
                }
            },
        }
    }
}

/// One removal keeps an entry that it does not name.
proof fn lemma_cut_keeps(
    t: document::TableView,
    loc: ResLoc,
    i: int,
    name: Seq<u8>,
    c: CatLoc,
    names: Seq<Seq<u8>>,
)
    requires
        document::ascending(t),
        no_bare_references(t),
        0 <= i < CATEGORIES,
        holds_entry(t, loc, category(i), name),
        proper(c),
        c != CatLoc::Indirect(resources_holder(loc)),
        category_loc(t, loc, i) == Some(c) ==> !names.contains(name),
    ensures
        holds_entry(cut(t, c, names), loc, category(i), name),
        category_loc(cut(t, c, names), loc, i) == category_loc(t, loc, i),
{
    let u = cut(t, c, names);
    lemma_cut(t, c, names);
    lemma_resources_stay(t, loc, i, name, c, names);
    let h = resources_holder(loc);
    lemma_object_at(t, h);
    lemma_object_at(u, h);
    let r = owner_resources(t, loc)->0;
    assert(resources_at(t, loc) == Some(r));
    assert(resources_at(u, loc) == owner_resources(u, loc));
    if let Some(ValueView::Reference(a)) = object::lookup(r, bytes::text(category(i))) {
        lemma_object_at(t, a);
        lemma_object_at(u, a);
        let d = document::find(t, a)->0->Dictionary_0;
        if holder(c) == a {
            match c {
                CatLoc::Indirect(_) => {
                    assert(category_loc(t, loc, i) == Some(c));
                    lemma_stays(d, names, names.len() as int, name);
                },
                CatLoc::InlineIn(ResLoc::Indirect(_), j) => {
                    if let Some(e) = inner(d, category(j as int)) {
                        lemma_stays_put(
                            d,
                            bytes::text(category(j as int)),
                            ValueView::Dictionary(without_names(e, names, names.len() as int)),
                            name,
                        );
                    }
                },
                CatLoc::InlineIn(ResLoc::InlineIn(_), j) => {
                    if let Some(res) = inner(d, "Resources"@) {
                        lemma_stays_put(
                            d,
                            bytes::text("Resources"@),
                            ValueView::Dictionary(cut_inner(res, category(j as int), names)),
                            name,
                        );
                    }
                },
            }
        }
    }
}

proof fn lemma_owner_places(t: document::TableView, k: int, loc: ResLoc, n: int)
    requires
        0 <= n <= CATEGORIES,
    ensures
        forall|m: int|
            0 <= m < owner_visits(t, k, loc, n).len() ==> {
                let v = #[trigger] owner_visits(t, k, loc, n)[m];
                v.owner == k && 0 <= v.category < n && category_loc(t, loc, v.category) == Some(
                    v.loc,
                )
            },
        forall|i: int|
            0 <= i < n && (#[trigger] category_loc(t, loc, i)) is Some ==> exists|m: int|
                0 <= m < owner_visits(t, k, loc, n).len() && (#[trigger] owner_visits(
                    t,
                    k,
                    loc,
                    n,
                )[m]).category == i,
    decreases n,
{
    if n > 0 {
        lemma_owner_places(t, k, loc, n - 1);
        let front = owner_visits(t, k, loc, n - 1);
        let all = owner_visits(t, k, loc, n);
        assert forall|m: int| 0 <= m < all.len() implies {
            let v = #[trigger] all[m];
            v.owner == k && 0 <= v.category < n && category_loc(t, loc, v.category) == Some(v.loc)
        } by {
            if m < front.len() {
                assert(all[m] == front[m]);
            }
        }
        assert forall|i: int| 0 <= i < n && (#[trigger] category_loc(t, loc, i)) is Some implies exists|
            m: int,
        |
            0 <= m < all.len() && (#[trigger] all[m]).category == i by {
            if i == n - 1 {
                assert(all[front.len() as int].category == i);
            } else {
                let m = choose|m: int| 0 <= m < front.len() && (#[trigger] front[m]).category == i;
                assert(all[m] == front[m]);
            }
        }
    }
}

proof fn lemma_places(t: document::TableView, owners: Seq<(ResLoc, Seq<u8>)>, n: int)
    requires
        0 <= n <= owners.len(),
    ensures
        forall|m: int|
            0 <= m < visits_of(t, owners, n).len() ==> {
                let v = #[trigger] visits_of(t, owners, n)[m];
                0 <= v.owner < n && 0 <= v.category < CATEGORIES && category_loc(
                    t,
                    owners[v.owner].0,
                    v.category,
                ) == Some(v.loc)
            },
    decreases n,
{
    if n > 0 {
        lemma_places(t, owners, n - 1);
        lemma_owner_places(t, n - 1, owners[n - 1].0, CATEGORIES as int);
        let front = visits_of(t, owners, n - 1);
        let more = owner_visits(t, n - 1, owners[n - 1].0, CATEGORIES as int);
        let all = visits_of(t, owners, n);
        assert forall|m: int| 0 <= m < all.len() implies {
            let v = #[trigger] all[m];
            0 <= v.owner < n && 0 <= v.category < CATEGORIES && category_loc(
                t,
                owners[v.owner].0,
                v.category,
            ) == Some(v.loc)
        } by {
            if m < front.len() {
                assert(all[m] == front[m]);
            } else {
                assert(all[m] == more[m - front.len()]);
            }
        }
    }
}

/// Every owner whose content parses finds its categories.
proof fn lemma_found(
    t: document::TableView,
    owners: Seq<(ResLoc, Seq<u8>)>,
    n: int,
    k: int,
    i: int,
) -> (m: int)
    requires
        0 <= k < n <= owners.len(),
        0 <= i < CATEGORIES,
        operations::lenient_operations(owners[k].1) is Some,
        category_loc(t, owners[k].0, i) is Some,
    ensures
        0 <= m < visits_of(t, owners, n).len(),
        visits_of(t, owners, n)[m] == (Visit {
            owner: k,
            category: i,
            loc: category_loc(t, owners[k].0, i)->0,
        }),
    decreases n,
{
    let front = visits_of(t, owners, n - 1);
    let all = visits_of(t, owners, n);
    if k == n - 1 {
        let more = owner_visits(t, k, owners[k].0, CATEGORIES as int);
        lemma_owner_places(t, k, owners[k].0, CATEGORIES as int);
        assert(category_loc(t, owners[k].0, i) is Some);
        let m = choose|m: int| 0 <= m < more.len() && (#[trigger] more[m]).category == i;
        assert(all[front.len() + m] == more[m]);
        front.len() + m
    } else {
        let m = lemma_found(t, owners, n - 1, k, i);
        assert(all[m] == front[m]);
        m
    }
}

proof fn lemma_all_cuts_keep(
    t: document::TableView,
    owners: Seq<(ResLoc, Seq<u8>)>,
    visits: Seq<Visit>,
    n: int,
    loc: ResLoc,
    i: int,
    name: Seq<u8>,
)
    requires
        document::ascending(t),
        no_bare_references(t),
        0 <= i < CATEGORIES,
        0 <= n <= visits.len(),
        holds_entry(t, loc, category(i), name),
        forall|m: int|
            0 <= m < visits.len() ==> proper((#[trigger] visits[m]).loc) && visits[m].loc
                != CatLoc::Indirect(resources_holder(loc)),
        category_loc(t, loc, i) matches Some(c) ==> !doomed(t, owners, c).contains(name),
    ensures
        ({
            let u = cut_all(t, owners, visits, n);
            &&& document::ascending(u)
            &&& no_bare_references(u)
            &&& holds_entry(u, loc, category(i), name)
            &&& category_loc(u, loc, i) == category_loc(t, loc, i)
        }),
    decreases n,
{
    if n > 0 {
        lemma_all_cuts_keep(t, owners, visits, n - 1, loc, i, name);
        let u = cut_all(t, owners, visits, n - 1);
        let c = visits[n - 1].loc;
        assert(proper(c));
        lemma_cut(u, c, doomed(t, owners, c));
        lemma_cut_keeps(u, loc, i, name, c, doomed(t, owners, c));
    }
}

/// What content names is kept: the entry that an operation of an owner's
/// content names, by the operator and the category that it reads, stands in
/// the pruned document as it stood before. So does every color space of an
/// owner with an inline image. Left out are documents in which an object is a
/// mere reference to another, or is at once the resources of the owner and a
/// category of resources.
pub proof fn named_entries_are_kept(
    doc: document::PdfView,
    k: int,
    at: int,
    key: Seq<char>,
    name: Seq<u8>,
)
    requires
        document::ascending(doc.objects),
        no_bare_references(doc.objects),
        0 <= k < owners_of(doc).len(),
        operations::lenient_operations(owners_of(doc)[k].1) is Some,
        0 <= at < operations::lenient_operations(owners_of(doc)[k].1)->0.len(),
        ({
            let op = operations::lenient_operations(owners_of(doc)[k].1)->0[at];
            names_entry(op, key, name) || names_any_space(op, key)
        }),
        holds_entry(doc.objects, owners_of(doc)[k].0, key, name),
        !taken_for_category(
            doc.objects,
            owners_of(doc),
            resources_holder(owners_of(doc)[k].0),
        ),
    ensures
        holds_entry(pruned(doc), owners_of(doc)[k].0, key, name),
{
    let t = doc.objects;
    let owners = owners_of(doc);
    let (loc, content) = owners[k];
    let ops = operations::lenient_operations(content)->0;
    let op = ops[at];
    let visits = visits_of(t, owners, owners.len() as int);
    let i = index_of(key);
    lemma_categories();
    lemma_operators();
    if names_entry(op, key, name) {
        lemma_named(op, key, name);
        assert(op_uses(ops[at], i, name));
        assert(ops_use(ops, ops.len() as int, i, name));
    } else {
        assert(inline_operator(ops[at]));
        assert(ops_inline(ops, ops.len() as int));
    }
    assert(category(i) == key);
    assert(content_uses(content, i, name));
    let r = owner_resources(t, loc)->0;
    assert(resources_at(t, loc) == Some(r));
    let c = category_loc(t, loc, i)->0;
    let m = lemma_found(t, owners, owners.len() as int, k, i);
    assert(visits[m].loc == c);
    assert(used_by_visits(visits, owners, c, name));
    used_names_are_kept(t, owners, c, name);
    lemma_places(t, owners, owners.len() as int);
    assert forall|m: int| 0 <= m < visits.len() implies proper((#[trigger] visits[m]).loc)
        && visits[m].loc != CatLoc::Indirect(resources_holder(loc)) by {
        let v = visits[m];
        assert(category_loc(t, owners[v.owner].0, v.category) == Some(v.loc));
    }
    lemma_all_cuts_keep(t, owners, visits, visits.len() as int, loc, i, name);
}

/// A page owns its resources, in place or in an object of their own, where
/// they hold fonts of which none draws with the resources of the page; its
/// content is judged.
pub proof fn pages_own_their_resources(
    doc: document::PdfView,
    at: int,
    d: object::DictView,
    r: object::DictView,
    fonts: object::DictView,
    content: Seq<u8>,
)
    requires
        0 <= at < backend::page_ids(doc).len(),
        document::object_at(doc.objects, backend::page_ids(doc)[at]) == Some(
            ValueView::Dictionary(d),
        ),
        object::lookup(d, bytes::text("Resources"@)) == Some(ValueView::Dictionary(r)) || (
        object::lookup(d, bytes::text("Resources"@)) matches Some(ValueView::Reference(id))
            && document::object_at(doc.objects, id) == Some(ValueView::Dictionary(r))),
        object::lookup(r, bytes::text("Font"@)) == Some(ValueView::Dictionary(fonts)) || (
        object::lookup(r, bytes::text("Font"@)) matches Some(ValueView::Reference(id))
            && document::object_at(doc.objects, id) == Some(ValueView::Dictionary(fonts))),
        forall|i: int|
            0 <= i < fonts.len() ==> match (#[trigger] fonts[i]).1 {
                ValueView::Reference(id) => match document::find(doc.objects, id) {
                    Some(ValueView::Dictionary(f)) => object::lookup(f, bytes::text("Subtype"@))
                        != Some(ValueView::Name(bytes::text("Type3"@))) || object::lookup(
                        f,
                        bytes::text("Resources"@),
                    ) is Some,
                    _ => true,
                },
                _ => true,
            },
        pages::content_of(doc.objects, backend::page_ids(doc)[at]) == Some(content),
    ensures
        exists|k: int|
            0 <= k < owners_of(doc).len() && #[trigger] owners_of(doc)[k] == (
                match object::lookup(d, bytes::text("Resources"@)) {
                    Some(ValueView::Reference(id)) => ResLoc::Indirect(id),
                    _ => ResLoc::InlineIn(backend::page_ids(doc)[at]),
                },
                content,
            ),
{
    let t = doc.objects;
    let ids = backend::page_ids(doc);
    let n = ids.len() as int;
    let loc = match object::lookup(d, bytes::text("Resources"@)) {
        Some(ValueView::Reference(id)) => ResLoc::Indirect(id),
        _ => ResLoc::InlineIn(ids[at]),
    };
    assert(resources_of(d, ids[at]) == Some(loc));
    assert(resources_at(t, loc) == Some(r));
    assert(fonts_of(t, r) == Some(Some(fonts)));
    assert(!uses_bare_type3(t, fonts, fonts.len() as int));
    assert(page_resources_of(t, ids[at]) == Some(loc));
    let k = lemma_page_owner(t, ids, n, at, loc, content);
    assert(owners_of(doc)[k] == page_owners(t, ids, n)[k]);
}

proof fn lemma_page_owner(
    t: document::TableView,
    ids: Seq<ObjectId>,
    n: int,
    at: int,
    loc: ResLoc,
    content: Seq<u8>,
) -> (k: int)
    requires
        0 <= at < n <= ids.len(),
        page_resources_of(t, ids[at]) == Some(loc),
        pages::content_of(t, ids[at]) == Some(content),
    ensures
        0 <= k < page_owners(t, ids, n).len(),
        page_owners(t, ids, n)[k] == (loc, content),
    decreases n,
{
    let front = page_owners(t, ids, n - 1);
    if at == n - 1 {
        front.len() as int
    } else {
        let k = lemma_page_owner(t, ids, n - 1, at, loc, content);
        assert(page_owners(t, ids, n)[k] == front[k]);
        k
    }
}

/// A form XObject or a tiling pattern owns its resources, and a Type 3 font
/// its own: the content of the first two is their stream, that of a font its
/// glyph procedures.
pub proof fn forms_and_fonts_own_their_resources(doc: document::PdfView, at: int, loc: ResLoc)
    requires
        0 <= at < doc.objects.len(),
        ({
            let (id, v) = doc.objects[at];
            let d = match v {
                ValueView::Dictionary(d) => d,
                ValueView::Stream(d, _) => d,
                _ => Seq::empty(),
            };
            match object::lookup(d, bytes::text("Resources"@)) {
                Some(ValueView::Reference(r)) => loc == ResLoc::Indirect(r),
                Some(ValueView::Dictionary(_)) => loc == ResLoc::InlineIn(id),
                _ => false,
            }
        }),
    ensures
        ({
            let (id, v) = doc.objects[at];
            match v {
                ValueView::Stream(d, c) => (object::lookup(d, bytes::text("Subtype"@)) == Some(
                    ValueView::Name(bytes::text("Form"@)),
                ) || object::lookup(d, bytes::text("PatternType"@)) == Some(ValueView::Integer(1)))
                    ==> (backend::decompressed(d, c, pages::MAX_CONTENT_BYTES) matches Ok(content)
                    ==> owners_of(doc).contains((loc, content))),
                ValueView::Dictionary(d) => object::lookup(d, bytes::text("Subtype"@)) == Some(
                    ValueView::Name(bytes::text("Type3"@)),
                ) ==> owners_of(doc).contains((loc, type3_content(doc.objects, d))),
                _ => true,
            }
        }),
{
    let t = doc.objects;
    let n = t.len() as int;
    let ids = backend::page_ids(doc);
    let first = page_owners(t, ids, ids.len() as int);
    if let Some(o) = object_owner(t, t[at]) {
        let k = lemma_object_owner(t, n, at);
        assert(owners_of(doc)[first.len() + k] == object_owners(t, n)[k]);
    }
}

proof fn lemma_object_owner(t: document::TableView, n: int, at: int) -> (k: int)
    requires
        0 <= at < n <= t.len(),
        object_owner(t, t[at]) is Some,
    ensures
        0 <= k < object_owners(t, n).len(),
        object_owners(t, n)[k] == object_owner(t, t[at])->0,
    decreases n,
{
    let front = object_owners(t, n - 1);
    if at == n - 1 {
        front.len() as int
    } else {
        let k = lemma_object_owner(t, n - 1, at);
        assert(object_owners(t, n)[k] == front[k]);
        k
    }
}

} // verus!
