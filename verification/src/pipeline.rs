//! Stage orchestration.
//!
//! A stage receives the whole document plus what is shared, changes the
//! document in place, and records what it did in the report. Stages do not
//! call each other. Anything one stage needs from another is handed on by
//! [`run`].
use vstd::prelude::*;
use vstd::string::StringExecFns;

use crate::backend;
use crate::bytes;
use crate::config::Config;
use crate::document;
use crate::document::{Encryption, Pdf};
use crate::error::Refusal;
use crate::font::OptimizeFonts;
use crate::images::RecompressImages;
use crate::object;
use crate::object::{DataStream, Dict, ObjectId, StringForm, Value, ValueView};
use crate::report::{Report, StageSummary};
use crate::strip;
use crate::strip::StripDocument;
use crate::structure;
use crate::structure::CleanStructure;
use crate::text;
use crate::usage::AnalyzeUsage;

verus! {

// ------------------------------------------------------------- resources

/// A reference, or every reference in an array, names a loaded object.
pub open spec fn loaded(t: document::TableView, v: ValueView) -> bool
    decreases v,
{
    match v {
        ValueView::Reference(id) => document::object_at(t, id) is Some,
        ValueView::Array(items) => forall|i: int|
            0 <= i < items.len() ==> loaded(t, #[trigger] items[i]),
        _ => true,
    }
}

/// A `Contents` reference (or each one in an array) is a stream that was
/// read to the end: it has a `Length`, or it has content.
pub open spec fn read_whole(t: document::TableView, v: ValueView) -> bool
    decreases v,
{
    match v {
        ValueView::Reference(id) => match document::object_at(t, id) {
            Some(ValueView::Stream(d, content)) => object::lookup(d, bytes::text("Length"@)) is Some
                || content.len() > 0,
            _ => true,
        },
        ValueView::Array(items) => forall|i: int|
            0 <= i < items.len() ==> read_whole(t, #[trigger] items[i]),
        _ => true,
    }
}

/// Every entry of a category names a loaded object. A category that is not a
/// dictionary is not judged.
pub open spec fn category_loaded(t: document::TableView, v: ValueView) -> bool {
    match document::resolved(t, v) {
        Some(ValueView::Dictionary(d)) => forall|i: int|
            0 <= i < d.len() ==> loaded(t, (#[trigger] d[i]).1),
        Some(_) => true,
        None => false,
    }
}

/// Every entry of every category dictionary under a `Resources` value
/// names a loaded object.
pub open spec fn entries_loaded(t: document::TableView, v: ValueView) -> bool {
    match document::resolved(t, v) {
        Some(ValueView::Dictionary(d)) => forall|i: int|
            0 <= i < d.len() ==> category_loaded(t, (#[trigger] d[i]).1),
        _ => false,
    }
}

/// Contents and resources of a dictionary are loaded.
pub open spec fn dict_intact(t: document::TableView, d: object::DictView) -> bool {
    (match object::lookup(d, bytes::text("Contents"@)) {
        Some(c) => loaded(t, c) && read_whole(t, c),
        None => true,
    }) && (match object::lookup(d, bytes::text("Resources"@)) {
        Some(r) => entries_loaded(t, r),
        None => true,
    })
}

/// Contents and resources of an object are loaded.
pub open spec fn object_intact(t: document::TableView, v: ValueView) -> bool {
    match v {
        ValueView::Dictionary(d) => dict_intact(t, d),
        ValueView::Stream(d, _) => dict_intact(t, d),
        _ => true,
    }
}

/// Contents and resources of every object are loaded.
pub open spec fn resources_intact(t: document::TableView) -> bool {
    forall|i: int| 0 <= i < t.len() ==> object_intact(t, (#[trigger] t[i]).1)
}

fn references_resolve(doc: &Pdf, v: &Value) -> (r: bool)
    requires
        doc.wf(),
    ensures
        r == loaded(doc@.objects, v@),
    decreases v,
{
    match v {
        Value::Reference(id) => doc.get_object(*id).is_some(),
        Value::Array(items) => {
            let ghost t = doc@.objects;
            let ghost view = object::objects_view(items@);
            proof {
                object::lemma_array_view(*items);
            }
            let mut i: usize = 0;
            let mut fine = true;
            while i < items.len()
                invariant
                    i <= items@.len(),
                    doc.wf(),
                    t == doc@.objects,
                    v == Value::Array(*items),
                    view == object::objects_view(items@),
                    fine == forall|k: int| 0 <= k < i ==> loaded(t, #[trigger] view[k]),
                decreases items@.len() - i,
            {
                assert(view[i as int] == items@[i as int]@);
                assert(decreases_to!(v => v->Array_0@[i as int]));
                if !references_resolve(doc, &items[i]) {
                    fine = false;
                }
                i += 1;
            }
            assert(v@ == ValueView::Array(view));
            proof {
                if !fine {
                    let k = choose|k: int| 0 <= k < view.len() && !loaded(t, #[trigger] view[k]);
                    assert(!loaded(t, v@->Array_0[k]));
                }
            }
            fine
        },
        _ => true,
    }
}

fn content_streams_loaded(doc: &Pdf, v: &Value) -> (r: bool)
    requires
        doc.wf(),
    ensures
        r == read_whole(doc@.objects, v@),
    decreases v,
{
    match v {
        Value::Reference(id) => match doc.get_object(*id) {
            Some(Value::Stream(s)) => s.dict.has("Length".as_bytes()) || s.content.len() > 0,
            _ => true,
        },
        Value::Array(items) => {
            let ghost t = doc@.objects;
            let ghost view = object::objects_view(items@);
            proof {
                object::lemma_array_view(*items);
            }
            let mut i: usize = 0;
            let mut fine = true;
            while i < items.len()
                invariant
                    i <= items@.len(),
                    doc.wf(),
                    t == doc@.objects,
                    v == Value::Array(*items),
                    view == object::objects_view(items@),
                    fine == forall|k: int| 0 <= k < i ==> read_whole(t, #[trigger] view[k]),
                decreases items@.len() - i,
            {
                assert(view[i as int] == items@[i as int]@);
                assert(decreases_to!(v => v->Array_0@[i as int]));
                if !content_streams_loaded(doc, &items[i]) {
                    fine = false;
                }
                i += 1;
            }
            assert(v@ == ValueView::Array(view));
            proof {
                if !fine {
                    let k = choose|k: int| 0 <= k < view.len() && !read_whole(t, #[trigger] view[k]);
                    assert(!read_whole(t, v@->Array_0[k]));
                }
            }
            fine
        },
        _ => true,
    }
}

fn category_resolves(doc: &Pdf, v: &Value) -> (r: bool)
    requires
        doc.wf(),
    ensures
        r == category_loaded(doc@.objects, v@),
{
    let d = match doc.dereference(v) {
        Some(Value::Dictionary(d)) => d,
        Some(_) => {
            return true;
        },
        None => {
            return false;
        },
    };
    let ghost t = doc@.objects;
    let ghost view = d@;
    let mut i: usize = 0;
    let mut fine = true;
    while i < d.entries.len()
        invariant
            i <= d.entries@.len(),
            doc.wf(),
            t == doc@.objects,
            view == d@,
            fine == forall|k: int| 0 <= k < i ==> loaded(t, (#[trigger] view[k]).1),
        decreases d.entries@.len() - i,
    {
        assert(view[i as int].1 == d.entries@[i as int].1@);
        if !references_resolve(doc, &d.entries[i].1) {
            fine = false;
        }
        i += 1;
    }
    fine
}

fn resource_entries_resolve(doc: &Pdf, v: &Value) -> (r: bool)
    requires
        doc.wf(),
    ensures
        r == entries_loaded(doc@.objects, v@),
{
    let d = match doc.dereference(v) {
        Some(Value::Dictionary(d)) => d,
        _ => {
            return false;
        },
    };
    let ghost t = doc@.objects;
    let ghost view = d@;
    let mut i: usize = 0;
    let mut fine = true;
    while i < d.entries.len()
        invariant
            i <= d.entries@.len(),
            doc.wf(),
            t == doc@.objects,
            view == d@,
            fine == forall|k: int| 0 <= k < i ==> category_loaded(t, (#[trigger] view[k]).1),
        decreases d.entries@.len() - i,
    {
        assert(view[i as int].1 == d.entries@[i as int].1@);
        if !category_resolves(doc, &d.entries[i].1) {
            fine = false;
        }
        i += 1;
    }
    assert(document::resolved(t, v@) == Some(ValueView::Dictionary(view)));
    assert(view.len() == d.entries@.len());
    proof {
        if !fine {
            let k = choose|k: int| 0 <= k < view.len() && !category_loaded(t, (#[trigger] view[k]).1);
            let entries = document::resolved(t, v@)->Some_0->Dictionary_0;
            assert(entries[k] == view[k]);
            assert(!category_loaded(t, entries[k].1));
        }
    }
    fine
}

fn dict_is_intact(doc: &Pdf, d: &Dict) -> (r: bool)
    requires
        doc.wf(),
    ensures
        r == dict_intact(doc@.objects, d@),
{
    let contents = match d.get("Contents".as_bytes()) {
        Some(c) => references_resolve(doc, c) && content_streams_loaded(doc, c),
        None => true,
    };
    let resources = match d.get("Resources".as_bytes()) {
        Some(r) => resource_entries_resolve(doc, r),
        None => true,
    };
    contents && resources
}

/// Every reference from a `Contents` entry, and from the entries of every
/// `Resources` category dictionary, resolves to a loaded object, and no
/// content stream came out of the parser empty without a `Length` (a
/// stream without one is read as empty rather than up to `endstream`).
pub fn resources_are_intact(doc: &Pdf) -> (r: bool)
    requires
        doc.wf(),
    ensures
        r == resources_intact(doc@.objects),
{
    let ghost t = doc@.objects;
    let mut i: usize = 0;
    let mut fine = true;
    while i < doc.objects.len()
        invariant
            i <= doc.objects@.len(),
            doc.wf(),
            t == doc@.objects,
            fine == forall|k: int| 0 <= k < i ==> object_intact(t, (#[trigger] t[k]).1),
        decreases doc.objects@.len() - i,
    {
        assert(t[i as int].1 == doc.objects@[i as int].1@);
        let intact = match &doc.objects[i].1 {
            Value::Dictionary(d) => dict_is_intact(doc, d),
            Value::Stream(s) => dict_is_intact(doc, &s.dict),
            _ => true,
        };
        if !intact {
            fine = false;
        }
        i += 1;
    }
    fine
}

// ------------------------------------------------------------- encryption

/// A crypt filter that was read, or that does nothing.
pub open spec fn filter_read(e: Encryption, name: Seq<u8>) -> bool {
    name.len() == 0 || name == bytes::text("Identity"@) || exists|i: int|
        0 <= i < e.known_filters@.len() && #[trigger] e.known_filters@[i]@ == name
}

/// Whether the crypt filters of a document could be read.
pub open spec fn decrypted(e: Option<Encryption>) -> bool {
    match e {
        None => true,
        Some(e) => filter_read(e, e.stream_filter@) && filter_read(e, e.string_filter@),
    }
}

fn filter_is_read(e: &Encryption, name: &Vec<u8>) -> (r: bool)
    ensures
        r == filter_read(*e, name@),
{
    if name.len() == 0 || bytes::is_text(name, "Identity") {
        return true;
    }
    let mut i: usize = 0;
    while i < e.known_filters.len()
        invariant
            i <= e.known_filters@.len(),
            forall|k: int| 0 <= k < i ==> (#[trigger] e.known_filters@[k])@ != name@,
        decreases e.known_filters@.len() - i,
    {
        if bytes::same(&e.known_filters[i], name) {
            return true;
        }
        i += 1;
    }
    false
}

/// Whether the parser could read the crypt filters an encrypted file names for
/// its streams and strings. It reads them only when written inline; when a
/// file refers to them indirectly it silently leaves the data encrypted,
/// and every stream then reads as garbage.
pub fn decryption_is_complete(doc: &Pdf) -> (r: bool)
    ensures
        r == decrypted(doc.encryption),
{
    match &doc.encryption {
        None => true,
        Some(e) => filter_is_read(e, &e.stream_filter) && filter_is_read(e, &e.string_filter),
    }
}

// ------------------------------------------------------------- filters

/// A stream's dictionary without a filter entry that names none.
pub open spec fn plain_dict(d: object::DictView) -> object::DictView {
    if object::lookup(d, bytes::text("Filter"@)) == Some(
        ValueView::Array(Seq::<ValueView>::empty()),
    ) {
        object::without_key(
            object::without_key(d, bytes::text("Filter"@)),
            bytes::text("DecodeParms"@),
        )
    } else {
        d
    }
}

/// An object without a filter entry that names none.
pub open spec fn plain(v: ValueView) -> ValueView {
    match v {
        ValueView::Stream(d, content) => ValueView::Stream(plain_dict(d), content),
        _ => v,
    }
}

/// Every object without a filter entry that names none.
pub open spec fn all_plain(t: document::TableView) -> document::TableView {
    t.map_values(|e: (ObjectId, ValueView)| (e.0, plain(e.1)))
}

fn drop_empty_filter(v: &mut Value)
    ensures
        final(v)@ == plain(old(v)@),
{
    match v {
        Value::Stream(s) => {
            let empty = match s.dict.get("Filter".as_bytes()) {
                Some(Value::Array(items)) => {
                    proof {
                        object::lemma_array_view(*items);
                        assert(object::objects_view(items@).len() == items@.len());
                        assert(items@.len() == 0 ==> object::objects_view(items@)
                            =~= Seq::empty());
                        assert(Value::Array(*items)@ == ValueView::Array(
                            object::objects_view(items@),
                        ));
                    }
                    items.len() == 0
                },
                _ => false,
            };
            if empty {
                s.dict.drop_key("Filter");
                s.dict.drop_key("DecodeParms");
            }
        },
        _ => {},
    }
}

/// An empty `Filter` array means no filter, but the decoder takes such a
/// stream for an empty one (its filter loop never runs); drop the entry so
/// every reader sees the raw content.
pub fn normalize_filters(doc: &mut Pdf)
    ensures
        final(doc)@ == (document::PdfView { objects: all_plain(old(doc)@.objects), ..old(doc)@ }),
        final(doc).encryption == old(doc).encryption,
        old(doc).wf() ==> final(doc).wf(),
{
    let ghost before = doc@;
    let ghost t = before.objects;
    let ghost goal = all_plain(t);
    let len: usize = doc.objects.len();
    let mut i: usize = 0;
    assert(doc@.objects =~= goal.take(0) + t.skip(0));
    while i < len
        invariant
            i <= len,
            len == doc.objects@.len() == t.len() == goal.len(),
            goal == all_plain(t),
            doc@ == (document::PdfView { objects: doc@.objects, ..before }),
            doc.encryption == old(doc).encryption,
            doc@.objects == goal.take(i as int) + t.skip(i as int),
        decreases len - i,
    {
        let ghost at = doc@.objects;
        assert(at[i as int] == t[i as int]);
        drop_empty_filter(&mut doc.objects[i].1);
        assert(doc@.objects =~= at.update(i as int, goal[i as int]));
        assert(doc@.objects =~= goal.take(i + 1) + t.skip(i + 1));
        i += 1;
    }
    assert(doc@.objects =~= goal);
    proof {
        lemma_same_order(t, goal);
    }
}

/// A table with the same numbers is in the same order.
proof fn lemma_same_order(a: document::TableView, b: document::TableView)
    requires
        a.len() == b.len(),
        forall|i: int| 0 <= i < a.len() ==> (#[trigger] a[i]).0 == b[i].0,
    ensures
        document::ascending(a) ==> document::ascending(b),
{
    if document::ascending(a) {
        assert forall|i: int, j: int| 0 <= i < j < b.len() implies document::id_less(
            (#[trigger] b[i]).0,
            (#[trigger] b[j]).0,
        ) by {
            assert(document::id_less(a[i].0, a[j].0));
        }
    }
}

// ------------------------------------------------------------- strings

/// A byte that is no printable ASCII.
pub open spec fn unprintable(b: u8) -> bool {
    b < 0x20 || b >= 0x7F
}

/// Whether a string holds a byte that is no printable ASCII.
pub open spec fn binary(s: Seq<u8>) -> bool {
    exists|i: int| 0 <= i < s.len() && unprintable(#[trigger] s[i])
}

/// An object with every binary string in hexadecimal.
pub open spec fn hexed(v: ValueView) -> ValueView
    decreases v, 1int,
{
    match v {
        ValueView::String(s, form) => ValueView::String(
            s,
            if binary(s) {
                StringForm::Hexadecimal
            } else {
                form
            },
        ),
        ValueView::Array(items) => ValueView::Array(hexed_items(items)),
        ValueView::Dictionary(d) => ValueView::Dictionary(hexed_dict(d)),
        ValueView::Stream(d, content) => ValueView::Stream(hexed_dict(d), content),
        _ => v,
    }
}

/// Items with every binary string in hexadecimal.
pub open spec fn hexed_items(items: Seq<ValueView>) -> Seq<ValueView>
    decreases items, 0int,
{
    Seq::new(
        items.len(),
        |i: int|
            if 0 <= i < items.len() {
                hexed(items[i])
            } else {
                ValueView::Null
            },
    )
}

/// A dictionary with every binary string in hexadecimal.
pub open spec fn hexed_dict(d: object::DictView) -> object::DictView
    decreases d, 0int,
{
    Seq::new(
        d.len(),
        |i: int|
            if 0 <= i < d.len() {
                (d[i].0, hexed(d[i].1))
            } else {
                (Seq::empty(), ValueView::Null)
            },
    )
}

fn is_binary(s: &Vec<u8>) -> (r: bool)
    ensures
        r == binary(s@),
{
    let mut i: usize = 0;
    while i < s.len()
        invariant
            i <= s@.len(),
            forall|k: int| 0 <= k < i ==> !unprintable(#[trigger] s@[k]),
        decreases s@.len() - i,
    {
        let b = s[i];
        if b < 0x20 || b >= 0x7F {
            assert(unprintable(s@[i as int]));
            return true;
        }
        i += 1;
    }
    false
}

fn hex_items(items: &Vec<Value>) -> (r: Vec<Value>)
    ensures
        object::objects_view(r@) == hexed_items(object::objects_view(items@)),
    decreases items,
{
    let ghost goal = hexed_items(object::objects_view(items@));
    let mut out: Vec<Value> = Vec::new();
    let mut i: usize = 0;
    while i < items.len()
        invariant
            i <= items@.len(),
            goal == hexed_items(object::objects_view(items@)),
            out@.len() == i,
            forall|k: int| 0 <= k < i ==> (#[trigger] out@[k])@ == goal[k],
        decreases items@.len() - i,
    {
        assert(decreases_to!(items => items@[i as int]));
        assert(object::objects_view(items@)[i as int] == items@[i as int]@);
        out.push(hexify(&items[i]));
        i += 1;
    }
    assert(object::objects_view(out@) =~= goal);
    out
}

fn hex_dict(d: &Dict) -> (r: Dict)
    ensures
        r@ == hexed_dict(d@),
    decreases d,
{
    let ghost goal = hexed_dict(d@);
    let mut entries: Vec<(Vec<u8>, Value)> = Vec::new();
    let mut i: usize = 0;
    while i < d.entries.len()
        invariant
            i <= d.entries@.len(),
            goal == hexed_dict(d@),
            entries@.len() == i,
            forall|k: int|
                0 <= k < i ==> (#[trigger] entries@[k]).0@ == goal[k].0 && entries@[k].1@
                    == goal[k].1,
        decreases d.entries@.len() - i,
    {
        assert(decreases_to!(d => d.entries@[i as int].1));
        assert(d@[i as int] == (d.entries@[i as int].0@, d.entries@[i as int].1@));
        entries.push((bytes::copy(&d.entries[i].0), hexify(&d.entries[i].1)));
        i += 1;
    }
    let r = Dict { entries };
    assert(r@ =~= goal);
    r
}

fn hexify(v: &Value) -> (r: Value)
    ensures
        r@ == hexed(v@),
    decreases v,
{
    match v {
        Value::String(s, form) => Value::String(
            bytes::copy(s),
            if is_binary(s) {
                StringForm::Hexadecimal
            } else {
                *form
            },
        ),
        Value::Array(items) => {
            assert(decreases_to!(v => v->Array_0));
            let out = hex_items(items);
            proof {
                object::lemma_array_view(*items);
                object::lemma_array_view(out);
            }
            Value::Array(out)
        },
        Value::Dictionary(d) => Value::Dictionary(hex_dict(d)),
        Value::Stream(s) => Value::Stream(
            DataStream { dict: hex_dict(&s.dict), content: bytes::copy(&s.content) },
        ),
        _ => v.copied(),
    }
}

/// Every object with its binary strings in hexadecimal.
pub open spec fn all_hexed(t: document::TableView) -> document::TableView {
    t.map_values(|e: (ObjectId, ValueView)| (e.0, hexed(e.1)))
}

fn hexify_object(v: &mut Value)
    ensures
        final(v)@ == hexed(old(v)@),
{
    match v {
        Value::Stream(s) => {
            let fresh = hex_dict(&s.dict);
            s.dict = fresh;
        },
        _ => {
            let fresh = hexify(v);
            *v = fresh;
        },
    }
}

/// Strings holding bytes outside printable ASCII are written in
/// hexadecimal. The writer writes a string in the form it was read, escaping
/// what a literal needs escaped, and the literal-string lexer that output
/// verification relies on reads some of those escaped binary strings
/// differently (an Indexed palette came back as gray indices); hex has no
/// escapes to disagree about. Text strings stay literal.
pub fn hex_binary_strings(doc: &mut Pdf)
    ensures
        final(doc)@ == (document::PdfView {
            objects: all_hexed(old(doc)@.objects),
            trailer: hexed_dict(old(doc)@.trailer),
            ..old(doc)@
        }),
        final(doc).encryption == old(doc).encryption,
        old(doc).wf() ==> final(doc).wf(),
{
    let ghost before = doc@;
    let ghost t = before.objects;
    let ghost goal = all_hexed(t);
    let trailer = hex_dict(&doc.trailer);
    doc.trailer = trailer;
    let ghost trailer_view = trailer@;
    let len: usize = doc.objects.len();
    let mut i: usize = 0;
    assert(doc@.objects =~= goal.take(0) + t.skip(0));
    while i < len
        invariant
            i <= len,
            len == doc.objects@.len() == t.len() == goal.len(),
            goal == all_hexed(t),
            doc@ == (document::PdfView { objects: doc@.objects, trailer: trailer_view, ..before }),
            doc.encryption == old(doc).encryption,
            doc@.objects == goal.take(i as int) + t.skip(i as int),
        decreases len - i,
    {
        let ghost at = doc@.objects;
        assert(at[i as int] == t[i as int]);
        hexify_object(&mut doc.objects[i].1);
        assert(doc@.objects =~= at.update(i as int, goal[i as int]));
        assert(doc@.objects =~= goal.take(i + 1) + t.skip(i + 1));
        i += 1;
    }
    assert(doc@.objects =~= goal);
    proof {
        lemma_same_order(t, goal);
    }
}

// ------------------------------------------------------------- page tree

/// The kids of a node of the page tree.
pub open spec fn kids_of(d: object::DictView) -> Seq<ValueView> {
    match object::lookup(d, bytes::text("Kids"@)) {
        Some(ValueView::Array(items)) => items,
        _ => Seq::empty(),
    }
}

/// A node of the page tree is a dictionary whose kids are references.
pub open spec fn node_fine(t: document::TableView, id: ObjectId) -> bool {
    match document::object_at(t, id) {
        Some(ValueView::Dictionary(d)) => forall|i: int|
            0 <= i < kids_of(d).len() ==> (#[trigger] kids_of(d)[i]) is Reference,
        _ => false,
    }
}

/// Whether one node is a kid of another.
pub open spec fn is_kid(t: document::TableView, parent: ObjectId, child: ObjectId) -> bool {
    match document::object_at(t, parent) {
        Some(ValueView::Dictionary(d)) => kids_of(d).contains(ValueView::Reference(child)),
        _ => false,
    }
}

/// A way down the page tree.
pub open spec fn way_down(t: document::TableView, way: Seq<ObjectId>) -> bool {
    way.len() > 0 && forall|i: int| 0 < i < way.len() ==> is_kid(t, way[i - 1], #[trigger] way[i])
}

/// Whether a node lies below another.
pub open spec fn below(t: document::TableView, root: ObjectId, id: ObjectId) -> bool {
    exists|way: Seq<ObjectId>| #[trigger]
        way_down(t, way) && way[0] == root && way.last() == id
}

/// The root of the page tree.
pub open spec fn pages_root(doc: document::PdfView) -> Option<ObjectId> {
    match document::catalog_of(doc) {
        Some(d) => match object::lookup(d, bytes::text("Pages"@)) {
            Some(ValueView::Reference(id)) => Some(id),
            _ => None,
        },
        None => None,
    }
}

/// Every `Kids` entry reachable from the catalog resolves to a dictionary.
pub open spec fn tree_intact(doc: document::PdfView) -> bool {
    match pages_root(doc) {
        Some(root) => forall|id: ObjectId| #[trigger]
            below(doc.objects, root, id) ==> node_fine(doc.objects, id),
        None => true,
    }
}

/// How many flags are not set.
spec fn unset(flags: Seq<bool>) -> int
    decreases flags.len(),
{
    if flags.len() == 0 {
        0
    } else {
        unset(flags.drop_last()) + if flags.last() {
            0int
        } else {
            1
        }
    }
}

proof fn lemma_unset(flags: Seq<bool>, i: int)
    requires
        0 <= i < flags.len(),
        !flags[i],
    ensures
        unset(flags) >= 1,
        unset(flags.update(i, true)) == unset(flags) - 1,
    decreases flags.len(),
{
    let set = flags.update(i, true);
    lemma_unset_from_zero(flags.drop_last());
    if i == flags.len() - 1 {
        assert(set.drop_last() =~= flags.drop_last());
    } else {
        assert(set.drop_last() =~= flags.drop_last().update(i, true));
        lemma_unset(flags.drop_last(), i);
    }
}

proof fn lemma_unset_from_zero(flags: Seq<bool>)
    ensures
        unset(flags) >= 0,
    decreases flags.len(),
{
    if flags.len() > 0 {
        lemma_unset_from_zero(flags.drop_last());
    }
}

/// Whether the flag of a number is set.
spec fn seen(t: document::TableView, flags: Seq<bool>, id: ObjectId) -> bool {
    exists|i: int| document::stands_at(t, id, i) && i < flags.len() && flags[i]
}

/// What is seen is fine, and its kids are seen or are waiting.
spec fn settled(
    t: document::TableView,
    flags: Seq<bool>,
    waiting: Seq<ObjectId>,
    id: ObjectId,
) -> bool {
    node_fine(t, id) && forall|child: ObjectId| #[trigger]
        is_kid(t, id, child) ==> seen(t, flags, child) || waiting.contains(child)
}

/// With nothing waiting, every node below the root is seen.
proof fn lemma_all_seen(t: document::TableView, flags: Seq<bool>, way: Seq<ObjectId>)
    requires
        way_down(t, way),
        seen(t, flags, way[0]),
        forall|id: ObjectId| #[trigger]
            seen(t, flags, id) ==> settled(t, flags, Seq::empty(), id),
    ensures
        seen(t, flags, way.last()),
    decreases way.len(),
{
    if way.len() > 1 {
        let front = way.drop_last();
        assert forall|i: int| 0 < i < front.len() implies is_kid(
            t,
            front[i - 1],
            #[trigger] front[i],
        ) by {
            assert(is_kid(t, way[i - 1], way[i]));
        }
        lemma_all_seen(t, flags, front);
        assert(is_kid(t, way[way.len() - 2], way[way.len() - 1]));
        assert(settled(t, flags, Seq::empty(), front.last()));
    }
}

/// A kid of a node below the root lies below the root.
proof fn lemma_kid_below(t: document::TableView, root: ObjectId, id: ObjectId, child: ObjectId)
    requires
        below(t, root, id),
        is_kid(t, id, child),
    ensures
        below(t, root, child),
{
    let way = choose|way: Seq<ObjectId>| #[trigger]
        way_down(t, way) && way[0] == root && way.last() == id;
    let longer = way.push(child);
    assert forall|i: int| 0 < i < longer.len() implies is_kid(
        t,
        longer[i - 1],
        #[trigger] longer[i],
    ) by {
        if i < way.len() {
            assert(is_kid(t, way[i - 1], way[i]));
        }
    }
    assert(way_down(t, longer));
}

/// The references among the kids of a node; nothing where one is none.
fn kid_references(d: &Dict) -> (r: Option<Vec<ObjectId>>)
    ensures
        match r {
            Some(ids) => ids@.len() == kids_of(d@).len() && forall|i: int|
                0 <= i < ids@.len() ==> kids_of(d@)[i] == ValueView::Reference(#[trigger] ids@[i]),
            None => exists|i: int|
                0 <= i < kids_of(d@).len() && !((#[trigger] kids_of(d@)[i]) is Reference),
        },
{
    let mut ids: Vec<ObjectId> = Vec::new();
    if let Some(Value::Array(items)) = d.get("Kids".as_bytes()) {
        let ghost view = object::objects_view(items@);
        proof {
            object::lemma_array_view(*items);
        }
        let mut i: usize = 0;
        while i < items.len()
            invariant
                i <= items@.len(),
                view == object::objects_view(items@),
                view == kids_of(d@),
                ids@.len() == i,
                forall|k: int| 0 <= k < i ==> view[k] == ValueView::Reference(#[trigger] ids@[k]),
            decreases items@.len() - i,
        {
            assert(view[i as int] == items@[i as int]@);
            match &items[i] {
                Value::Reference(id) => {
                    ids.push(*id);
                },
                _ => {
                    return None;
                },
            }
            i += 1;
        }
    }
    Some(ids)
}

/// Every `Kids` entry reachable from the catalog resolves to a dictionary.
pub fn page_tree_is_intact(doc: &Pdf) -> (r: bool)
    requires
        doc.wf(),
    ensures
        r == tree_intact(doc@),
{
    let ghost t = doc@.objects;
    let root = match doc.catalog() {
        Some(d) => match d.get("Pages".as_bytes()) {
            Some(Value::Reference(id)) => *id,
            _ => {
                return true;
            },
        },
        None => {
            return true;
        },
    };
    assert(pages_root(doc@) == Some(root));
    let len: usize = doc.objects.len();
    let mut flags: Vec<bool> = Vec::new();
    let mut k: usize = 0;
    while k < len
        invariant
            k <= len,
            flags@.len() == k,
            forall|i: int| 0 <= i < k ==> !(#[trigger] flags@[i]),
        decreases len - k,
    {
        flags.push(false);
        k += 1;
    }
    let mut stack: Vec<ObjectId> = Vec::new();
    stack.push(root);
    proof {
        let way = seq![root];
        assert(way_down(t, way));
        assert(below(t, root, root));
        assert(stack@[0] == root);
    }
    while stack.len() > 0
        invariant
            doc.wf(),
            t == doc@.objects,
            len == t.len() == flags@.len(),
            pages_root(doc@) == Some(root),
            seen(t, flags@, root) || stack@.contains(root),
            forall|i: int| 0 <= i < stack@.len() ==> below(t, root, #[trigger] stack@[i]),
            forall|id: ObjectId| #[trigger]
                seen(t, flags@, id) ==> settled(t, flags@, stack@, id),
        decreases unset(flags@), stack@.len(),
    {
        let ghost waiting = stack@;
        let ghost before = flags@;
        let id = match stack.pop() {
            Some(id) => id,
            None => {
                return true;
            },
        };
        assert(waiting =~= stack@.push(id));
        assert(below(t, root, waiting[waiting.len() - 1]));
        let at = match doc.position(id) {
            Some(i) => i,
            None => {
                assert(!node_fine(t, id));
                return false;
            },
        };
        assert(document::stands_at(t, id, at as int));
        if flags[at] {
            assert(seen(t, flags@, id));
            proof {
                lemma_still_settled(t, flags@, waiting, flags@, stack@, id);
            }
            continue;
        }
        let d = match doc.get_object(id) {
            Some(Value::Dictionary(d)) => d,
            _ => {
                assert(!node_fine(t, id));
                return false;
            },
        };
        let kids = match kid_references(d) {
            Some(ids) => ids,
            None => {
                assert(!node_fine(t, id));
                return false;
            },
        };
        proof {
            lemma_unset(flags@, at as int);
            lemma_unset_from_zero(flags@.update(at as int, true));
        }
        flags.set(at, true);
        assert(document::stands_at(t, id, at as int) && flags@[at as int]);
        assert(seen(t, flags@, id));
        let ghost rest = stack@;
        let mut j: usize = 0;
        while j < kids.len()
            invariant
                j <= kids@.len(),
                below(t, root, id),
                document::object_at(t, id) == Some(ValueView::Dictionary(d@)),
                kids@.len() == kids_of(d@).len(),
                forall|i: int|
                    0 <= i < kids@.len() ==> kids_of(d@)[i] == ValueView::Reference(
                        #[trigger] kids@[i],
                    ),
                stack@ == rest + kids@.take(j as int),
                forall|i: int| 0 <= i < stack@.len() ==> below(t, root, #[trigger] stack@[i]),
            decreases kids@.len() - j,
        {
            let kid = kids[j];
            proof {
                assert(kids_of(d@)[j as int] == ValueView::Reference(kid));
                assert(is_kid(t, id, kid));
                lemma_kid_below(t, root, id, kid);
            }
            stack.push(kid);
            j += 1;
            assert(stack@ =~= rest + kids@.take(j as int));
        }
        proof {
            assert(kids@.take(j as int) =~= kids@);
            lemma_still_settled(t, before, waiting, flags@, stack@, id);
            assert(settled(t, flags@, stack@, id)) by {
                assert forall|i: int| 0 <= i < kids_of(d@).len() implies (#[trigger] kids_of(
                    d@,
                )[i]) is Reference by {
                    assert(kids_of(d@)[i] == ValueView::Reference(kids@[i]));
                }
                assert forall|child: ObjectId| #[trigger] is_kid(t, id, child) implies seen(
                    t,
                    flags@,
                    child,
                ) || stack@.contains(child) by {
                    let i = choose|i: int|
                        0 <= i < kids_of(d@).len() && kids_of(d@)[i] == ValueView::Reference(
                            child,
                        );
                    assert(kids@[i] == child);
                    assert(stack@[rest.len() + i] == child);
                }
            }
            assert forall|other: ObjectId| #[trigger] seen(t, flags@, other) implies settled(
                t,
                flags@,
                stack@,
                other,
            ) by {
                if other != id {
                    let i = choose|i: int|
                        document::stands_at(t, other, i) && i < flags@.len() && flags@[i];
                    if i == at {
                        assert(t[i].0 == id);
                    }
                    assert(before[i]);
                    assert(seen(t, before, other));
                }
            }
        }
    }
    proof {
        assert(stack@ =~= Seq::empty());
        assert forall|id: ObjectId| #[trigger] below(t, root, id) implies node_fine(t, id) by {
            let way = choose|way: Seq<ObjectId>| #[trigger]
                way_down(t, way) && way[0] == root && way.last() == id;
            lemma_all_seen(t, flags@, way);
            assert(settled(t, flags@, stack@, id));
        }
    }
    true
}

/// What was settled stays so while one number moves from the waiting ones to
/// the seen ones and others join them.
proof fn lemma_still_settled(
    t: document::TableView,
    before: Seq<bool>,
    waiting: Seq<ObjectId>,
    flags: Seq<bool>,
    rest: Seq<ObjectId>,
    id: ObjectId,
)
    requires
        seen(t, flags, id),
        before.len() == flags.len(),
        forall|i: int| 0 <= i < before.len() && before[i] ==> #[trigger] flags[i],
        waiting.len() > 0,
        waiting.last() == id,
        waiting.len() - 1 <= rest.len(),
        forall|i: int| 0 <= i < waiting.len() - 1 ==> #[trigger] rest[i] == waiting[i],
    ensures
        forall|other: ObjectId| #[trigger]
            seen(t, before, other) ==> seen(t, flags, other),
        forall|other: ObjectId| #[trigger]
            settled(t, before, waiting, other) ==> settled(t, flags, rest, other),
        forall|other: ObjectId| #[trigger]
            waiting.contains(other) ==> rest.contains(other) || seen(t, flags, other),
{
    assert forall|other: ObjectId| #[trigger] seen(t, before, other) implies seen(
        t,
        flags,
        other,
    ) by {
        let i = choose|i: int| document::stands_at(t, other, i) && i < before.len() && before[i];
        assert(flags[i]);
    }
    assert forall|other: ObjectId| #[trigger] waiting.contains(other) implies rest.contains(other)
        || seen(t, flags, other) by {
        let i = choose|i: int| 0 <= i < waiting.len() && waiting[i] == other;
        if i < waiting.len() - 1 {
            assert(rest[i] == other);
        }
    }
    assert forall|other: ObjectId| #[trigger] settled(t, before, waiting, other) implies settled(
        t,
        flags,
        rest,
        other,
    ) by {
        assert forall|child: ObjectId| #[trigger] is_kid(t, other, child) implies seen(
            t,
            flags,
            child,
        ) || rest.contains(child) by {
            assert(seen(t, before, child) || waiting.contains(child));
        }
    }
}

// ------------------------------------------------------------- stages

/// The stages.
#[derive(Debug, Clone, Copy, PartialEq, Eq)]
pub enum Stage {
    Usage,
    Images,
    Fonts,
    Strip,
    Structure,
}

/// The name of a stage.
pub open spec fn stage_name(s: Stage) -> Seq<char> {
    match s {
        Stage::Usage => "usage"@,
        Stage::Images => "images"@,
        Stage::Fonts => "fonts"@,
        Stage::Strip => "strip"@,
        Stage::Structure => "structure"@,
    }
}

/// Whether a configuration gives a stage anything to do.
pub open spec fn stage_enabled(s: Stage, config: Config) -> bool {
    match s {
        Stage::Usage => config.bitonal_dpi.applies() || config.gray_dpi.applies()
            || config.color_dpi.applies() || config.clip_images || config.subset_fonts
            || config.merge_fonts,
        Stage::Images => !(config.bitonal.0 == 0 && config.continuous.0 == 0 && config.indexed.0
            == 0),
        Stage::Fonts => config.subset_fonts || config.merge_fonts || config.remove_standard_fonts,
        Stage::Strip => config.strip.0 != 0,
        Stage::Structure => true,
    }
}

/// A document after a stage, and the notes on it.
pub open spec fn stage_effect(s: Stage, doc: document::PdfView, config: Config) -> (
    document::PdfView,
    Seq<Seq<char>>,
) {
    match s {
        Stage::Usage => (doc, Seq::empty()),
        Stage::Images => (doc, seq!["image recompression not implemented"@]),
        Stage::Fonts => (doc, seq!["font optimization not implemented"@]),
        Stage::Strip => (
            document::PdfView { objects: strip::stripped(doc, config.strip), ..doc },
            strip::strip_notes(doc, config.strip),
        ),
        Stage::Structure => structure::cleaned(doc, config),
    }
}

/// The stages in their order. Analysis first, then the lossy image work, then
/// fonts, then the cheap structural passes that clean up whatever the earlier
/// stages left behind.
pub open spec fn stage_order() -> Seq<Stage> {
    seq![Stage::Usage, Stage::Images, Stage::Fonts, Stage::Strip, Stage::Structure]
}

/// The stages in their order.
pub fn default_stages() -> (r: Vec<Stage>)
    ensures
        r@ == stage_order(),
{
    let mut r: Vec<Stage> = Vec::new();
    r.push(Stage::Usage);
    r.push(Stage::Images);
    r.push(Stage::Fonts);
    r.push(Stage::Strip);
    r.push(Stage::Structure);
    assert(r@ =~= stage_order());
    r
}

impl Stage {
    pub fn name(&self) -> (r: &'static str)
        ensures
            r@ == stage_name(*self),
    {
        match self {
            Stage::Usage => AnalyzeUsage.name(),
            Stage::Images => RecompressImages.name(),
            Stage::Fonts => OptimizeFonts.name(),
            Stage::Strip => StripDocument.name(),
            Stage::Structure => CleanStructure.name(),
        }
    }

    /// Whether the stage should run at all under this configuration. Skipped
    /// stages still appear in the report so a reader can see they were off.
    pub fn enabled(&self, config: &Config) -> (r: bool)
        ensures
            r == stage_enabled(*self, *config),
    {
        match self {
            Stage::Usage => AnalyzeUsage.enabled(config),
            Stage::Images => RecompressImages.enabled(config),
            Stage::Fonts => OptimizeFonts.enabled(config),
            Stage::Strip => StripDocument.enabled(config),
            Stage::Structure => CleanStructure.enabled(config),
        }
    }

    /// Changes the document in place, and notes what was done.
    pub fn run(&self, doc: &mut Pdf, config: &Config, report: &mut Report)
        requires
            old(doc).wf(),
        ensures
            final(doc).wf(),
            final(doc)@ == stage_effect(*self, old(doc)@, *config).0,
            final(doc).encryption == old(doc).encryption,
            final(report).said() == old(report).said() + stage_effect(
                *self,
                old(doc)@,
                *config,
            ).1,
            same_but_notes(*old(report), *final(report)),
    {
        match self {
            Stage::Usage => {
                // Nothing downstream reads the analysis yet.
                let _usage = AnalyzeUsage.run(doc);
            },
            Stage::Images => RecompressImages.run(report),
            Stage::Fonts => OptimizeFonts.run(report),
            Stage::Strip => StripDocument.run(doc, config, report),
            Stage::Structure => CleanStructure.run(doc, config, report),
        }
        assert(report.said() =~= old(report).said() + stage_effect(*self, old(doc)@, *config).1);
    }
}

/// Two reports that differ in their notes at most.
pub open spec fn same_but_notes(a: Report, b: Report) -> bool {
    b.stages == a.stages && b.input_bytes == a.input_bytes && b.output_bytes == a.output_bytes
        && b.images == a.images && b.fonts == a.fonts
}

// ------------------------------------------------------------- the run

/// A moment in time.
#[verifier::external_type_specification]
#[verifier::external_body]
pub struct ExInstant(std::time::Instant);

/// `std::time::Instant::now`; nothing can be said of the clock.
#[verifier::external_body]
fn now() -> (r: std::time::Instant) {
    std::time::Instant::now()
}

/// `std::time::Instant::elapsed`, in nanoseconds; nothing can be said of the
/// clock.
#[verifier::external_body]
fn elapsed_since(start: &std::time::Instant) -> (r: u64) {
    start.elapsed().as_nanos() as u64
}

/// Where a run stands: the document, the notes, what each finished stage did
/// to the size, the size after the last, and what failed.
pub struct RunView {
    pub doc: document::PdfView,
    pub notes: Seq<Seq<char>>,
    pub done: Seq<(Seq<char>, int, int)>,
    pub size: int,
    pub failed: Option<Seq<char>>,
}

/// What stages did to the size.
pub open spec fn done_view(stages: Seq<StageSummary>) -> Seq<(Seq<char>, int, int)> {
    stages.map_values(
        |s: StageSummary| (s.name@, s.bytes_before as int, s.bytes_after as int),
    )
}

/// What says that the size could not be measured.
pub open spec fn unmeasured(e: Seq<char>) -> Seq<char> {
    "measuring document size: "@ + e
}

/// A run after a stage that was skipped: a row in the report that shows no
/// change in size.
pub open spec fn skipped(p: RunView, s: Stage) -> RunView {
    RunView { done: p.done.push((stage_name(s), p.size, p.size)), ..p }
}

/// A run after one more stage.
pub open spec fn stage_step(p: RunView, s: Stage, config: Config) -> RunView {
    if p.failed is Some {
        p
    } else if !stage_enabled(s, config) {
        skipped(p, s)
    } else {
        let (doc, notes) = stage_effect(s, p.doc, config);
        let (saved, after) = backend::modern_saved(doc);
        match saved {
            Ok(b) => RunView {
                doc: after,
                notes: p.notes + notes,
                done: p.done.push((stage_name(s), p.size, b.len() as int)),
                size: b.len() as int,
                failed: None,
            },
            Err(e) => RunView {
                doc: after,
                notes: p.notes + notes,
                failed: Some(unmeasured(e)),
                ..p
            },
        }
    }
}

/// A run after the first `n` stages.
pub open spec fn staged(p: RunView, n: int, config: Config) -> RunView
    decreases n,
{
    if n <= 0 || n > stage_order().len() {
        p
    } else {
        stage_step(staged(p, n - 1, config), stage_order()[n - 1], config)
    }
}

/// Why a document is not touched, if it is not.
pub open spec fn guarded(doc: document::PdfView, encryption: Option<Encryption>) -> Option<
    Refusal,
> {
    if object::lookup(doc.trailer, bytes::text("Encrypt"@)) is Some {
        Some(Refusal::PasswordRequired)
    } else if !decrypted(encryption) {
        Some(Refusal::UndecryptedCryptFilters)
    } else if !tree_intact(doc) {
        Some(Refusal::DamagedPageTree)
    } else if !resources_intact(doc.objects) {
        Some(Refusal::DamagedResources)
    } else {
        None
    }
}

/// What is said of a document that came encrypted.
pub open spec fn encryption_note() -> Seq<char> {
    "input was encrypted but opens without a password; the output is written unencrypted, so the permission restrictions it carried no longer apply"@
}

/// A document with its filters and its strings in order.
pub open spec fn prepared(doc: document::PdfView) -> document::PdfView {
    document::PdfView {
        objects: all_hexed(all_plain(doc.objects)),
        trailer: hexed_dict(doc.trailer),
        ..doc
    }
}

/// A run before its first stage.
pub open spec fn started(
    doc: document::PdfView,
    encrypted: bool,
    notes: Seq<Seq<char>>,
    done: Seq<(Seq<char>, int, int)>,
) -> RunView {
    let (saved, after) = backend::modern_saved(prepared(doc));
    let said = if encrypted {
        notes.push(encryption_note())
    } else {
        notes
    };
    match saved {
        Ok(b) => RunView { doc: after, notes: said, done, size: b.len() as int, failed: None },
        Err(e) => RunView { doc: after, notes: said, done, size: 0, failed: Some(unmeasured(e)) },
    }
}

/// What a run comes to.
pub open spec fn outcome_of(p: RunView, doc: document::PdfView, report: Report, r: Result<(), Refusal>) -> bool {
    doc == p.doc && report.said() == p.notes && done_view(report.stages@) == p.done && match p.failed {
        None => r is Ok,
        Some(e) => match r {
            Err(Refusal::Internal(t)) => t@ == e,
            _ => false,
        },
    }
}

fn guard(doc: &Pdf) -> (r: Option<Refusal>)
    requires
        doc.wf(),
    ensures
        r == guarded(doc@, doc.encryption),
{
    // The parser tries the empty password on load. When it opens the file it
    // decrypts every object and drops the trailer entry; when a real password
    // is needed it loads nothing and the entry stays.
    if doc.trailer.get("Encrypt".as_bytes()).is_some() {
        return Some(Refusal::PasswordRequired);
    }
    if !decryption_is_complete(doc) {
        // Writing the ciphertext out as plain data would lose the pages.
        return Some(Refusal::UndecryptedCryptFilters);
    }
    if !page_tree_is_intact(doc) {
        // A kid that did not load is a page the parser cannot see; writing the
        // file would drop it silently while the page count still adds up.
        return Some(Refusal::DamagedPageTree);
    }
    if !resources_are_intact(doc) {
        // Likewise a content stream, font or image the parser could not load:
        // the page would lose it while still "verifying".
        return Some(Refusal::DamagedResources);
    }
    None
}

/// The size that the document would have on disk right now. Serializing after
/// every stage is what makes the per-stage report truthful.
fn serialized_len(doc: &mut Pdf) -> (r: Result<usize, Refusal>)
    ensures
        final(doc)@ == backend::modern_saved(old(doc)@).1,
        old(doc).wf() ==> final(doc).wf(),
        final(doc).encryption == old(doc).encryption,
        match backend::modern_saved(old(doc)@).0 {
            Ok(b) => r matches Ok(n) && n == b.len(),
            Err(e) => r matches Err(Refusal::Internal(t)) && t@ == unmeasured(e),
        },
{
    match backend::save_modern(doc) {
        Ok(b) => Ok(b.len()),
        Err(e) => {
            let mut t = "measuring document size: ".to_owned();
            t.append(e.as_str());
            Err(Refusal::Internal(t))
        },
    }
}

fn run_stage(
    stage: Stage,
    doc: &mut Pdf,
    config: &Config,
    report: &mut Report,
    size: usize,
) -> (r: Result<usize, Refusal>)
    requires
        old(doc).wf(),
        stage_enabled(stage, *config),
    ensures
        final(doc).wf(),
        final(doc).encryption == old(doc).encryption,
        final(report).input_bytes == old(report).input_bytes,
        final(report).output_bytes == old(report).output_bytes,
        final(report).images == old(report).images,
        final(report).fonts == old(report).fonts,
        ({
            let p = stage_step(
                RunView {
                    doc: old(doc)@,
                    notes: old(report).said(),
                    done: done_view(old(report).stages@),
                    size: size as int,
                    failed: None,
                },
                stage,
                *config,
            );
            final(doc)@ == p.doc && final(report).said() == p.notes && done_view(
                final(report).stages@,
            ) == p.done && match p.failed {
                None => r matches Ok(n) && n == p.size,
                Some(e) => r matches Err(Refusal::Internal(t)) && t@ == e,
            }
        }),
{
    let start = now();
    stage.run(doc, config, report);
    let after: usize = match serialized_len(doc) {
        Ok(n) => n,
        Err(e) => {
            return Err(e);
        },
    };
    let ghost before = report.stages@;
    report.stages.push(
        StageSummary {
            name: stage.name(),
            bytes_before: size,
            bytes_after: after,
            elapsed: elapsed_since(&start),
        },
    );
    assert(done_view(report.stages@) =~= done_view(before).push(
        (stage_name(stage), size as int, after as int),
    ));
    Ok(after)
}

fn skip_stage(stage: Stage, report: &mut Report, size: usize)
    ensures
        final(report).said() == old(report).said(),
        final(report).input_bytes == old(report).input_bytes,
        final(report).output_bytes == old(report).output_bytes,
        final(report).images == old(report).images,
        final(report).fonts == old(report).fonts,
        done_view(final(report).stages@) == done_view(old(report).stages@).push(
            (stage_name(stage), size as int, size as int),
        ),
{
    let ghost before = report.stages@;
    report.stages.push(
        StageSummary { name: stage.name(), bytes_before: size, bytes_after: size, elapsed: 0 },
    );
    assert(done_view(report.stages@) =~= done_view(before).push(
        (stage_name(stage), size as int, size as int),
    ));
}

/// Runs the stages over a document. A document that cannot be handled safely
/// is refused and left as it is.
pub fn run(doc: &mut Pdf, config: &Config, report: &mut Report) -> (r: Result<(), Refusal>)
    requires
        old(doc).wf(),
    ensures
        final(doc).wf(),
        final(report).input_bytes == old(report).input_bytes,
        final(report).output_bytes == old(report).output_bytes,
        final(report).images == old(report).images,
        final(report).fonts == old(report).fonts,
        match guarded(old(doc)@, old(doc).encryption) {
            Some(why) => r == Err::<(), Refusal>(why) && *final(doc) == *old(doc) && *final(report)
                == *old(report),
            None => outcome_of(
                staged(
                    started(
                        old(doc)@,
                        old(doc).encryption is Some,
                        old(report).said(),
                        done_view(old(report).stages@),
                    ),
                    stage_order().len() as int,
                    *config,
                ),
                final(doc)@,
                *final(report),
                r,
            ),
        },
{
    if let Some(why) = guard(doc) {
        return Err(why);
    }
    if doc.encryption.is_some() {
        report.note(
            "input was encrypted but opens without a password; the output is written unencrypted, so the permission restrictions it carried no longer apply",
        );
    }
    normalize_filters(doc);
    hex_binary_strings(doc);
    let ghost first = started(
        old(doc)@,
        old(doc).encryption is Some,
        old(report).said(),
        done_view(old(report).stages@),
    );
    let mut size: usize = 0;
    let mut failure: Option<Refusal> = None;
    match serialized_len(doc) {
        Ok(n) => {
            size = n;
        },
        Err(e) => {
            failure = Some(e);
        },
    }
    let stages = default_stages();
    let mut i: usize = 0;
    while i < stages.len()
        invariant
            i <= stages@.len(),
            stages@ == stage_order(),
            doc.wf(),
            stands(staged(first, i as int, *config), doc@, *report, size, failure),
            report.input_bytes == old(report).input_bytes,
            report.output_bytes == old(report).output_bytes,
            report.images == old(report).images,
            report.fonts == old(report).fonts,
        decreases stages@.len() - i,
    {
        let stage = stages[i];
        if failure.is_none() {
            if stage.enabled(config) {
                match run_stage(stage, doc, config, report, size) {
                    Ok(n) => {
                        size = n;
                    },
                    Err(e) => {
                        failure = Some(e);
                    },
                }
            } else {
                skip_stage(stage, report, size);
            }
        }
        i += 1;
    }
    match failure {
        None => Ok(()),
        Some(e) => Err(e),
    }
}

/// The state of a run is what it should be.
pub open spec fn stands(
    p: RunView,
    doc: document::PdfView,
    report: Report,
    size: usize,
    failure: Option<Refusal>,
) -> bool {
    doc == p.doc && report.said() == p.notes && done_view(report.stages@) == p.done
        && match p.failed {
        None => failure is None && size == p.size,
        Some(e) => match failure {
            Some(Refusal::Internal(t)) => t@ == e,
            _ => false,
        },
    }
}

// ------------------------------------------------------------- the output

/// How many objects go into one object stream, and how hard they are
/// compressed: the defaults of the writer leave a few percent on the table
/// against what good producers emit.
pub const OBJECTS_PER_STREAM: usize = 5000;

pub const COMPRESSION_LEVEL: u32 = 9;

/// What writing a document comes to: the document, the notes and the bytes,
/// or what failed.
pub struct WrittenView {
    pub doc: document::PdfView,
    pub notes: Seq<Seq<char>>,
    pub output: Result<Seq<u8>, Seq<char>>,
}

/// The note on an output that is the input.
pub open spec fn unchanged_note(best: nat, input: nat) -> Seq<char> {
    "no stage produced a smaller file ("@ + text::number(best) + " vs "@ + text::number(input)
        + " bytes); output is the input unchanged"@
}

/// The smaller of what the two writers gave, if it is smaller than the input,
/// or else the input; and the notes on that.
pub open spec fn smallest(modern: Seq<u8>, classic: Seq<u8>, input: Seq<u8>) -> (
    Seq<u8>,
    Seq<Seq<char>>,
) {
    let best = if classic.len() < modern.len() {
        classic
    } else {
        modern
    };
    let first = if classic.len() < modern.len() {
        seq!["classic xref table was smaller than an xref stream"@]
    } else {
        Seq::empty()
    };
    if best.len() >= input.len() {
        (input, first.push(unchanged_note(best.len(), input.len())))
    } else {
        (best, first)
    }
}

/// What writing a document comes to.
pub open spec fn serialized(doc: document::PdfView, input: Seq<u8>) -> WrittenView {
    let (modern, one) = backend::packed_saved(doc, OBJECTS_PER_STREAM, COMPRESSION_LEVEL);
    match modern {
        Err(e) => WrittenView {
            doc: one,
            notes: Seq::empty(),
            output: Err("serializing (xref stream): "@ + e),
        },
        Ok(m) => {
            let (classic, two) = backend::plainly_saved(one);
            match classic {
                Err(e) => WrittenView {
                    doc: two,
                    notes: Seq::empty(),
                    output: Err("serializing (classic xref): "@ + e),
                },
                Ok(c) => WrittenView {
                    doc: two,
                    notes: smallest(m, c, input).1,
                    output: Ok(smallest(m, c, input).0),
                },
            }
        },
    }
}

/// The smallest of what the two writers gave and the input.
pub fn choose_output(modern: Vec<u8>, classic: Vec<u8>, input: &Vec<u8>, report: &mut Report) -> (r:
    Vec<u8>)
    ensures
        r@ == smallest(modern@, classic@, input@).0,
        r@.len() <= input@.len(),
        r@ == input@ || r@.len() < input@.len(),
        final(report).said() == old(report).said() + smallest(modern@, classic@, input@).1,
        final(report).output_bytes == r@.len(),
        final(report).stages == old(report).stages,
        final(report).input_bytes == old(report).input_bytes,
        final(report).images == old(report).images,
        final(report).fonts == old(report).fonts,
{
    let ghost expected = smallest(modern@, classic@, input@);
    let best = if classic.len() < modern.len() {
        report.note("classic xref table was smaller than an xref stream");
        classic
    } else {
        modern
    };
    if best.len() >= input.len() {
        let mut note = "no stage produced a smaller file (".to_owned();
        text::push_number(&mut note, best.len() as u128);
        note.append(" vs ");
        text::push_number(&mut note, input.len() as u128);
        note.append(" bytes); output is the input unchanged");
        report.note(note.as_str());
        report.output_bytes = input.len();
        assert(report.said() =~= old(report).said() + expected.1);
        let same = input.clone();
        assert(same@ =~= input@);
        return same;
    }
    report.output_bytes = best.len();
    assert(report.said() =~= old(report).said() + expected.1);
    best
}

/// Final bytes for the output file, honoring the never-grow rule at file
/// level: the smaller of the two writers' is used, and if neither is strictly
/// smaller than the input, the input bytes are returned unchanged and the
/// report says so.
pub fn serialize(doc: &mut Pdf, input: &Vec<u8>, report: &mut Report) -> (r: Result<
    Vec<u8>,
    Refusal,
>)
    ensures
        final(doc).objects == old(doc).objects,
        final(doc).encryption == old(doc).encryption,
        final(doc)@ == serialized(old(doc)@, input@).doc,
        final(report).said() == old(report).said() + serialized(old(doc)@, input@).notes,
        final(report).stages == old(report).stages,
        final(report).input_bytes == old(report).input_bytes,
        final(report).images == old(report).images,
        final(report).fonts == old(report).fonts,
        match serialized(old(doc)@, input@).output {
            Ok(b) => r matches Ok(out) && out@ == b && final(report).output_bytes == b.len(),
            Err(e) => r matches Err(Refusal::Internal(t)) && t@ == e && final(report).output_bytes
                == old(report).output_bytes,
        },
        match r {
            Ok(out) => out@ == input@ || out@.len() < input@.len(),
            Err(_) => true,
        },
{
    let ghost before = report.said();
    let modern = match backend::save_packed(doc, OBJECTS_PER_STREAM, COMPRESSION_LEVEL) {
        Ok(b) => b,
        Err(e) => {
            let mut t = "serializing (xref stream): ".to_owned();
            t.append(e.as_str());
            assert(report.said() =~= before + serialized(old(doc)@, input@).notes);
            return Err(Refusal::Internal(t));
        },
    };
    let classic = match backend::save_plainly(doc) {
        Ok(b) => b,
        Err(e) => {
            let mut t = "serializing (classic xref): ".to_owned();
            t.append(e.as_str());
            assert(report.said() =~= before + serialized(old(doc)@, input@).notes);
            return Err(Refusal::Internal(t));
        },
    };
    Ok(choose_output(modern, classic, input, report))
}

/// The output never grows: whatever the writers give, it is the input or
/// smaller than it.
pub proof fn output_never_grows(doc: document::PdfView, input: Seq<u8>)
    ensures
        match serialized(doc, input).output {
            Ok(b) => b == input || b.len() < input.len(),
            Err(_) => true,
        },
{
}

/// The stages that are off do nothing: with every optional stage disabled, a
/// run is the cleanup alone, behind a row in the report for each of them.
pub proof fn disabled_stages_do_nothing(p: RunView, config: Config)
    requires
        p.failed is None,
        forall|i: int|
            0 <= i < stage_order().len() - 1 ==> !stage_enabled(
                #[trigger] stage_order()[i],
                config,
            ),
    ensures
        staged(p, stage_order().len() as int, config) == stage_step(
            skipped(
                skipped(skipped(skipped(p, Stage::Usage), Stage::Images), Stage::Fonts),
                Stage::Strip,
            ),
            Stage::Structure,
            config,
        ),
{
    reveal_with_fuel(staged, 6);
    assert(!stage_enabled(stage_order()[0], config));
    assert(!stage_enabled(stage_order()[1], config));
    assert(!stage_enabled(stage_order()[2], config));
    assert(!stage_enabled(stage_order()[3], config));
}

/// A run that does not fail reports every stage, whether it was on or off, in
/// order.
pub proof fn every_stage_is_reported(p: RunView, n: int, config: Config)
    requires
        0 <= n <= stage_order().len(),
        staged(p, n, config).failed is None,
    ensures
        staged(p, n, config).done.len() == p.done.len() + n,
        forall|i: int|
            0 <= i < n ==> (#[trigger] staged(p, n, config).done[p.done.len() + i]).0
                == stage_name(stage_order()[i]),
    decreases n,
{
    if n > 0 {
        let front = staged(p, n - 1, config);
        assert(front.failed is None);
        every_stage_is_reported(p, n - 1, config);
        assert forall|i: int| 0 <= i < n implies (#[trigger] staged(p, n, config).done[p.done.len()
            + i]).0 == stage_name(stage_order()[i]) by {
            if i < n - 1 {
                assert(staged(p, n, config).done[p.done.len() + i] == front.done[p.done.len() + i]);
            }
        }
    }
}

} // verus!
