//! Structural cleanup. Runs last so it collects everything the earlier stages
//! orphaned.
//!
//! In order: drop unused entries from resource dictionaries, Flate-compress
//! uncompressed streams, merge duplicate objects, drop unreferenced objects,
//! renumber, and raise the header version to what the content needs. Object
//! streams and the xref stream are written when the document is serialized.
pub mod dedupe;
pub mod resources;

use vstd::prelude::*;
use vstd::string::StringExecFns;

use crate::backend;
use crate::bytes;
use crate::config::Config;
use crate::document;
use crate::document::Pdf;
use crate::object;
use crate::object::{DataStream, Dict, ObjectId, Value, ValueView};
use crate::pages;
use crate::report::Report;
use crate::text;
use crate::usage;

verus! {

// ------------------------------------------------------------- counting

/// A count, which stops at the largest number that fits.
pub open spec fn capped(n: int) -> int {
    if n > u64::MAX {
        u64::MAX as int
    } else {
        n
    }
}

fn plus(a: u64, b: u64) -> (r: u64)
    ensures
        r == capped(a + b),
{
    if a > u64::MAX - b {
        u64::MAX
    } else {
        a + b
    }
}

// ------------------------------------------------------------- references

/// A reference to an object that does not exist.
pub open spec fn dangles(v: ValueView, t: document::TableView) -> bool {
    match v {
        ValueView::Reference(id) => !document::has_id(t, id),
        _ => false,
    }
}

/// The items that do not dangle.
pub open spec fn live_items(items: Seq<ValueView>, t: document::TableView) -> Seq<ValueView> {
    items.filter(|v: ValueView| !dangles(v, t))
}

/// A dictionary without those of the first `n` entries of `from` that dangle.
pub open spec fn live_entries(
    d: object::DictView,
    from: object::DictView,
    t: document::TableView,
    n: int,
) -> object::DictView
    decreases n,
{
    if n <= 0 {
        d
    } else {
        let e = live_entries(d, from, t, n - 1);
        if dangles(from[n - 1].1, t) {
            object::without_key(e, from[n - 1].0)
        } else {
            e
        }
    }
}

/// An object without the references inside it that dangle.
pub open spec fn mended(v: ValueView, t: document::TableView) -> ValueView
    decreases v, 2int,
{
    match v {
        ValueView::Array(items) => ValueView::Array(live_items(mended_items(items, t), t)),
        ValueView::Dictionary(d) => ValueView::Dictionary(mended_dict(d, t)),
        ValueView::Stream(d, content) => ValueView::Stream(mended_dict(d, t), content),
        _ => v,
    }
}

/// Items each without the references inside it that dangle.
pub open spec fn mended_items(items: Seq<ValueView>, t: document::TableView) -> Seq<ValueView>
    decreases items, 0int,
{
    Seq::new(
        items.len(),
        |i: int|
            if 0 <= i < items.len() {
                mended(items[i], t)
            } else {
                ValueView::Null
            },
    )
}

/// Entries each without the references inside it that dangle.
pub open spec fn mended_values(d: object::DictView, t: document::TableView) -> object::DictView
    decreases d, 0int,
{
    Seq::new(
        d.len(),
        |i: int|
            if 0 <= i < d.len() {
                (d[i].0, mended(d[i].1, t))
            } else {
                (Seq::empty(), ValueView::Null)
            },
    )
}

/// A dictionary without the references inside it that dangle.
pub open spec fn mended_dict(d: object::DictView, t: document::TableView) -> object::DictView
    decreases d, 1int,
{
    live_entries(mended_values(d, t), mended_values(d, t), t, d.len() as int)
}

/// How many references dangle inside an object.
pub open spec fn dangling_in(v: ValueView, t: document::TableView) -> int
    decreases v, 0int,
{
    match v {
        ValueView::Array(items) => dangling_items(items, t, items.len() as int),
        ValueView::Dictionary(d) => dangling_entries(d, t, d.len() as int),
        ValueView::Stream(d, _) => dangling_entries(d, t, d.len() as int),
        _ => 0,
    }
}

/// How many references dangle in the first `n` items.
pub open spec fn dangling_items(items: Seq<ValueView>, t: document::TableView, n: int) -> int
    decreases items, n,
{
    if n <= 0 || n > items.len() {
        0
    } else {
        dangling_items(items, t, n - 1) + if dangles(items[n - 1], t) {
            1
        } else {
            dangling_in(items[n - 1], t)
        }
    }
}

/// How many references dangle in the first `n` entries.
pub open spec fn dangling_entries(d: object::DictView, t: document::TableView, n: int) -> int
    decreases d, n,
{
    if n <= 0 || n > d.len() {
        0
    } else {
        dangling_entries(d, t, n - 1) + if dangles(d[n - 1].1, t) {
            1
        } else {
            dangling_in(d[n - 1].1, t)
        }
    }
}

/// What mending leaves of a reference is the reference.
proof fn lemma_mended_dangles(v: ValueView, t: document::TableView)
    ensures
        dangles(mended(v, t), t) == dangles(v, t),
{
}

fn is_dangling(v: &Value, doc: &Pdf) -> (r: bool)
    requires
        doc.wf(),
    ensures
        r == dangles(v@, doc@.objects),
{
    match v {
        Value::Reference(id) => !doc.has_object(*id),
        _ => false,
    }
}

fn mend_items(items: &Vec<Value>, doc: &Pdf) -> (r: (Vec<Value>, u64))
    requires
        doc.wf(),
    ensures
        object::objects_view(r.0@) == live_items(
            mended_items(object::objects_view(items@), doc@.objects),
            doc@.objects,
        ),
        r.1 == capped(
            dangling_items(object::objects_view(items@), doc@.objects, items@.len() as int),
        ),
    decreases items,
{
    let ghost t = doc@.objects;
    let ghost view = object::objects_view(items@);
    let ghost all = mended_items(view, t);
    let ghost keep = |v: ValueView| !dangles(v, t);
    let mut out: Vec<Value> = Vec::new();
    let mut count: u64 = 0;
    let mut i: usize = 0;
    proof {
        assert(all.take(0) =~= Seq::empty());
        reveal(Seq::filter);
        assert(object::objects_view(out@) =~= all.take(0).filter(keep));
    }
    while i < items.len()
        invariant
            i <= items@.len(),
            doc.wf(),
            t == doc@.objects,
            view == object::objects_view(items@),
            all == mended_items(view, t),
            keep == (|v: ValueView| !dangles(v, t)),
            object::objects_view(out@) == all.take(i as int).filter(keep),
            count == capped(dangling_items(view, t, i as int)),
            dangling_items(view, t, i as int) >= 0,
        decreases items@.len() - i,
    {
        let ghost before = object::objects_view(out@);
        let item = &items[i];
        assert(view[i as int] == item@);
        proof {
            lemma_mended_dangles(item@, t);
            assert(all.take(i + 1) =~= all.take(i as int).push(all[i as int]));
            all.take(i as int).lemma_filter_push(all[i as int], keep);
            lemma_dangling(item@, t);
        }
        if is_dangling(item, doc) {
            count = plus(count, 1);
            assert(!keep(all[i as int]));
        } else {
            assert(decreases_to!(items => items@[i as int]));
            let (fresh, n) = mend(item, doc);
            count = plus(count, n);
            out.push(fresh);
            assert(keep(all[i as int]));
            assert(object::objects_view(out@) =~= before.push(all[i as int]));
        }
        i += 1;
    }
    assert(all.take(i as int) =~= all);
    (out, count)
}

/// Dangling references are counted from zero.
proof fn lemma_dangling(v: ValueView, t: document::TableView)
    ensures
        dangling_in(v, t) >= 0,
    decreases v, 0int,
{
    match v {
        ValueView::Array(items) => lemma_dangling_items(items, t, items.len() as int),
        ValueView::Dictionary(d) => lemma_dangling_entries(d, t, d.len() as int),
        ValueView::Stream(d, _) => lemma_dangling_entries(d, t, d.len() as int),
        _ => {},
    }
}

proof fn lemma_dangling_items(items: Seq<ValueView>, t: document::TableView, n: int)
    ensures
        dangling_items(items, t, n) >= 0,
    decreases items, n,
{
    if 0 < n <= items.len() {
        lemma_dangling_items(items, t, n - 1);
        lemma_dangling(items[n - 1], t);
    }
}

proof fn lemma_dangling_entries(d: object::DictView, t: document::TableView, n: int)
    ensures
        dangling_entries(d, t, n) >= 0,
    decreases d, n,
{
    if 0 < n <= d.len() {
        lemma_dangling_entries(d, t, n - 1);
        lemma_dangling(d[n - 1].1, t);
    }
}

fn mend_dict(d: &Dict, doc: &Pdf) -> (r: (Dict, u64))
    requires
        doc.wf(),
    ensures
        r.0@ == mended_dict(d@, doc@.objects),
        r.1 == capped(dangling_entries(d@, doc@.objects, d@.len() as int)),
    decreases d,
{
    let ghost t = doc@.objects;
    let ghost view = d@;
    let ghost all = mended_values(view, t);
    let mut entries: Vec<(Vec<u8>, Value)> = Vec::new();
    let mut count: u64 = 0;
    let mut i: usize = 0;
    while i < d.entries.len()
        invariant
            i <= d.entries@.len(),
            doc.wf(),
            t == doc@.objects,
            view == d@,
            all == mended_values(view, t),
            entries@.len() == i,
            forall|k: int|
                0 <= k < i ==> (#[trigger] entries@[k]).0@ == all[k].0 && entries@[k].1@
                    == all[k].1,
            count == capped(dangling_entries(view, t, i as int)),
            dangling_entries(view, t, i as int) >= 0,
        decreases d.entries@.len() - i,
    {
        let key = bytes::copy(&d.entries[i].0);
        let value = &d.entries[i].1;
        assert(view[i as int] == (key@, value@));
        proof {
            lemma_dangling(value@, t);
        }
        assert(decreases_to!(d => d.entries@[i as int].1));
        let (fresh, n) = mend(value, doc);
        if is_dangling(value, doc) {
            count = plus(count, 1);
        } else {
            count = plus(count, n);
        }
        entries.push((key, fresh));
        i += 1;
    }
    let mut out = Dict { entries };
    assert(out@ =~= all);
    let mut k: usize = 0;
    while k < d.entries.len()
        invariant
            k <= d.entries@.len(),
            doc.wf(),
            t == doc@.objects,
            view == d@,
            all == mended_values(view, t),
            out@ == live_entries(all, all, t, k as int),
        decreases d.entries@.len() - k,
    {
        let entry = &d.entries[k];
        proof {
            assert(view[k as int] == (entry.0@, entry.1@));
            lemma_mended_dangles(entry.1@, t);
        }
        if is_dangling(&entry.1, doc) {
            let _ = out.remove(&entry.0);
        }
        k += 1;
    }
    (out, count)
}

/// An object without the references inside it that dangle, and how many there
/// were.
fn mend(v: &Value, doc: &Pdf) -> (r: (Value, u64))
    requires
        doc.wf(),
    ensures
        r.0@ == mended(v@, doc@.objects),
        r.1 == capped(dangling_in(v@, doc@.objects)),
    decreases v,
{
    match v {
        Value::Array(items) => {
            assert(decreases_to!(v => v->Array_0));
            let (out, n) = mend_items(items, doc);
            proof {
                object::lemma_array_view(*items);
                object::lemma_array_view(out);
            }
            (Value::Array(out), n)
        },
        Value::Dictionary(d) => {
            let (out, n) = mend_dict(d, doc);
            (Value::Dictionary(out), n)
        },
        Value::Stream(s) => {
            let (out, n) = mend_dict(&s.dict, doc);
            (Value::Stream(DataStream { dict: out, content: bytes::copy(&s.content) }), n)
        },
        _ => (v.copied(), 0),
    }
}

/// How many references dangle in the first `n` objects.
pub open spec fn dangling_objects(t: document::TableView, n: int) -> int
    decreases n,
{
    if n <= 0 {
        0
    } else {
        dangling_objects(t, n - 1) + dangling_in(t[n - 1].1, t)
    }
}

/// Every object without the references inside it that dangle.
pub open spec fn mended_objects(t: document::TableView) -> document::TableView {
    t.map_values(|e: (ObjectId, ValueView)| (e.0, mended(e.1, t)))
}

/// A reference to an object that does not exist reads as absent anyway,
/// but left in place it would be rebound to whatever object receives that
/// number when the file is renumbered. Dictionary entries holding one are
/// removed and array elements dropped. Returns how many were removed.
pub fn drop_dangling_references(doc: &mut Pdf) -> (r: u64)
    requires
        old(doc).wf(),
    ensures
        final(doc).wf(),
        final(doc)@ == (document::PdfView {
            objects: mended_objects(old(doc)@.objects),
            trailer: mended_dict(old(doc)@.trailer, old(doc)@.objects),
            ..old(doc)@
        }),
        final(doc).encryption == old(doc).encryption,
        r == capped(
            dangling_objects(old(doc)@.objects, old(doc)@.objects.len() as int) + dangling_entries(
                old(doc)@.trailer,
                old(doc)@.objects,
                old(doc)@.trailer.len() as int,
            ),
        ),
{
    let ghost t = doc@.objects;
    let ghost goal = mended_objects(t);
    let mut count: u64 = 0;
    let mut objects: Vec<(ObjectId, Value)> = Vec::new();
    let mut i: usize = 0;
    while i < doc.objects.len()
        invariant
            i <= doc.objects@.len(),
            doc.wf(),
            t == doc@.objects,
            goal == mended_objects(t),
            objects@.len() == i,
            forall|k: int|
                0 <= k < i ==> (#[trigger] objects@[k]).0 == goal[k].0 && objects@[k].1@
                    == goal[k].1,
            count == capped(dangling_objects(t, i as int)),
            dangling_objects(t, i as int) >= 0,
        decreases doc.objects@.len() - i,
    {
        let id = doc.objects[i].0;
        let (fresh, n) = mend(&doc.objects[i].1, doc);
        proof {
            assert(t[i as int] == (id, doc.objects@[i as int].1@));
            lemma_dangling(t[i as int].1, t);
        }
        count = plus(count, n);
        objects.push((id, fresh));
        i += 1;
    }
    let (trailer, n) = mend_dict(&doc.trailer, doc);
    proof {
        lemma_dangling_entries(doc@.trailer, t, doc@.trailer.len() as int);
    }
    count = plus(count, n);
    doc.trailer = trailer;
    doc.objects = objects;
    assert(doc@.objects =~= goal);
    proof {
        assert forall|a: int, b: int| 0 <= a < b < goal.len() implies document::id_less(
            (#[trigger] goal[a]).0,
            (#[trigger] goal[b]).0,
        ) by {
            assert(document::id_less(t[a].0, t[b].0));
        }
    }
    count
}

// ------------------------------------------------------------- version

/// The filters that a stream's dictionary names; none where one of them is no
/// name.
pub open spec fn filter_names(d: object::DictView) -> Option<Seq<ValueView>> {
    match object::lookup(d, bytes::text("Filter"@)) {
        Some(ValueView::Name(n)) => Some(seq![ValueView::Name(n)]),
        Some(ValueView::Array(items)) => if forall|i: int|
            0 <= i < items.len() ==> (#[trigger] items[i]) is Name {
            Some(items)
        } else {
            None
        },
        _ => None,
    }
}

/// Whether an object is a stream with the given filter.
pub open spec fn filtered_by(v: ValueView, filter: Seq<char>) -> bool {
    match v {
        ValueView::Stream(d, _) => match filter_names(d) {
            Some(names) => names.contains(ValueView::Name(bytes::text(filter))),
            None => false,
        },
        _ => false,
    }
}

/// Whether a stream of the document has the given filter.
pub open spec fn filter_in_use(t: document::TableView, filter: Seq<char>) -> bool {
    exists|i: int| 0 <= i < t.len() && filtered_by((#[trigger] t[i]).1, filter)
}

/// Whether a name is among names; nothing where one of them is no name.
fn names_hold(items: &Vec<Value>, name: &str) -> (r: Option<bool>)
    ensures
        ({
            let view = object::objects_view(items@);
            match r {
                Some(found) => (forall|i: int| 0 <= i < view.len() ==> (#[trigger] view[i]) is Name)
                    && found == view.contains(ValueView::Name(bytes::text(name@))),
                None => !(forall|i: int| 0 <= i < view.len() ==> (#[trigger] view[i]) is Name),
            }
        }),
{
    let ghost view = object::objects_view(items@);
    let ghost wanted = ValueView::Name(bytes::text(name@));
    let mut found = false;
    let mut i: usize = 0;
    while i < items.len()
        invariant
            i <= items@.len(),
            view == object::objects_view(items@),
            wanted == ValueView::Name(bytes::text(name@)),
            forall|k: int| 0 <= k < i ==> (#[trigger] view[k]) is Name,
            found == exists|k: int| 0 <= k < i && #[trigger] view[k] == wanted,
        decreases items@.len() - i,
    {
        assert(view[i as int] == items@[i as int]@);
        match &items[i] {
            Value::Name(n) => {
                if bytes::is_text(n, name) {
                    found = true;
                }
            },
            _ => {
                return None;
            },
        }
        i += 1;
    }
    Some(found)
}

fn stream_uses_filter(v: &Value, filter: &str) -> (r: bool)
    ensures
        r == filtered_by(v@, filter@),
{
    let s = match v {
        Value::Stream(s) => s,
        _ => {
            return false;
        },
    };
    match s.dict.get("Filter".as_bytes()) {
        Some(Value::Name(n)) => {
            let found = bytes::is_text(n, filter);
            proof {
                let names = seq![ValueView::Name(n@)];
                assert(names[0] == ValueView::Name(n@));
                assert(names.contains(ValueView::Name(bytes::text(filter@))) == found);
            }
            found
        },
        Some(Value::Array(items)) => {
            proof {
                object::lemma_array_view(*items);
            }
            match names_hold(items, filter) {
                Some(found) => found,
                None => false,
            }
        },
        _ => false,
    }
}

fn uses_filter(doc: &Pdf, filter: &str) -> (r: bool)
    ensures
        r == filter_in_use(doc@.objects, filter@),
{
    let ghost t = doc@.objects;
    let mut i: usize = 0;
    while i < doc.objects.len()
        invariant
            i <= doc.objects@.len(),
            t == doc@.objects,
            forall|k: int| 0 <= k < i ==> !filtered_by((#[trigger] t[k]).1, filter@),
        decreases doc.objects@.len() - i,
    {
        assert(t[i as int].1 == doc.objects@[i as int].1@);
        if stream_uses_filter(&doc.objects[i].1, filter) {
            return true;
        }
        i += 1;
    }
    false
}

/// The version that the content needs: at least 1.4 where it holds JBIG2.
pub open spec fn needed_version(t: document::TableView, version: Seq<char>) -> Seq<char> {
    if filter_in_use(t, "JBIG2Decode"@) && bytes::precedes(
        bytes::text(version),
        bytes::text("1.4"@),
    ) {
        "1.4"@
    } else {
        version
    }
}

/// Raise the header version to the minimum the content requires. Never
/// lowers it. Object streams (1.5) are handled by the writer.
pub fn bump_version(doc: &mut Pdf)
    ensures
        final(doc)@ == (document::PdfView {
            version: needed_version(old(doc)@.objects, old(doc)@.version),
            ..old(doc)@
        }),
        final(doc).encryption == old(doc).encryption,
        old(doc).wf() ==> final(doc).wf(),
{
    if uses_filter(doc, "JBIG2Decode") && bytes::before(
        doc.version.as_str().as_bytes(),
        "1.4".as_bytes(),
    ) {
        doc.version = "1.4".to_owned();
    }
}

// ------------------------------------------------------------- laws

/// What a key holds is what stands beside it.
proof fn lemma_lookup_at(d: object::DictView, i: int)
    requires
        object::distinct_keys(d),
        0 <= i < d.len(),
    ensures
        object::lookup(d, d[i].0) == Some(d[i].1),
{
    object::lemma_key_at(d, d[i].0);
    let at = object::key_at(d, d[i].0);
    if at != i && at < d.len() {
        assert(d[at].0 == d[i].0);
    }
}

/// Of the entries that are left none dangles, and each stood there before.
proof fn lemma_live_entries(d: object::DictView, t: document::TableView, n: int)
    requires
        object::distinct_keys(d),
        0 <= n <= d.len(),
    ensures
        object::distinct_keys(live_entries(d, d, t, n)),
        forall|j: int|
            0 <= j < n && dangles(d[j].1, t) ==> object::lookup(
                live_entries(d, d, t, n),
                #[trigger] d[j].0,
            ) is None,
        forall|key: Seq<u8>|
            object::lookup(d, key) is None ==> #[trigger] object::lookup(
                live_entries(d, d, t, n),
                key,
            ) is None,
        forall|key: Seq<u8>|
            #[trigger] object::lookup(live_entries(d, d, t, n), key) is None || object::lookup(
                live_entries(d, d, t, n),
                key,
            ) == object::lookup(d, key),
    decreases n,
{
    if n > 0 {
        lemma_live_entries(d, t, n - 1);
        object::lemma_without_key(live_entries(d, d, t, n - 1), d[n - 1].0);
    }
}

proof fn lemma_entry_lives(d: object::DictView, t: document::TableView, i: int)
    requires
        object::distinct_keys(d),
        0 <= i < live_entries(d, d, t, d.len() as int).len(),
    ensures
        !dangles(live_entries(d, d, t, d.len() as int)[i].1, t),
        exists|j: int|
            0 <= j < d.len() && #[trigger] d[j] == live_entries(d, d, t, d.len() as int)[i],
{
    let e = live_entries(d, d, t, d.len() as int);
    lemma_live_entries(d, t, d.len() as int);
    lemma_lookup_at(e, i);
    let key = e[i].0;
    assert(object::lookup(e, key) == object::lookup(d, key));
    object::lemma_key_at(d, key);
    let j = object::key_at(d, key);
    assert(d[j].0 == key && d[j].1 == e[i].1);
    assert(d[j] == e[i]);
}

/// Nothing dangles inside what was mended.
proof fn lemma_mended(v: ValueView, t: document::TableView)
    requires
        object::keys_once(v),
    ensures
        dangling_in(mended(v, t), t) == 0,
    decreases v, 1int,
{
    match v {
        ValueView::Array(items) => {
            let all = mended_items(items, t);
            let live = live_items(all, t);
            let keep = |v: ValueView| !dangles(v, t);
            assert forall|i: int| 0 <= i < live.len() implies !dangles(#[trigger] live[i], t)
                && dangling_in(live[i], t) == 0 by {
                all.lemma_filter_contains_rev(keep, live[i]);
                let j = choose|j: int| 0 <= j < all.len() && all[j] == live[i];
                all.lemma_filter_pred(keep, i);
                assert(object::keys_once(items[j]));
                lemma_mended(items[j], t);
            }
            lemma_sum_items(live, t, live.len() as int);
        },
        ValueView::Dictionary(d) => lemma_mended_dict(d, t),
        ValueView::Stream(d, _) => lemma_mended_dict(d, t),
        _ => {},
    }
}

proof fn lemma_mended_dict(d: object::DictView, t: document::TableView)
    requires
        object::keys_once_in(d),
    ensures
        dangling_entries(mended_dict(d, t), t, mended_dict(d, t).len() as int) == 0,
    decreases d, 0int,
{
    let all = mended_values(d, t);
    let live = mended_dict(d, t);
    assert(object::distinct_keys(all)) by {
        assert forall|i: int, j: int| 0 <= i < j < all.len() implies (#[trigger] all[i]).0
            != (#[trigger] all[j]).0 by {
            assert(d[i].0 != d[j].0);
        }
    }
    assert forall|i: int| 0 <= i < live.len() implies !dangles((#[trigger] live[i]).1, t)
        && dangling_in(live[i].1, t) == 0 by {
        lemma_entry_lives(all, t, i);
        let j = choose|j: int| 0 <= j < all.len() && #[trigger] all[j] == live[i];
        assert(object::keys_once(d[j].1));
        lemma_mended(d[j].1, t);
    }
    lemma_sum_entries(live, t, live.len() as int);
}

proof fn lemma_sum_items(items: Seq<ValueView>, t: document::TableView, n: int)
    requires
        0 <= n <= items.len(),
        forall|i: int|
            0 <= i < items.len() ==> !dangles(#[trigger] items[i], t) && dangling_in(items[i], t)
                == 0,
    ensures
        dangling_items(items, t, n) == 0,
    decreases n,
{
    if n > 0 {
        lemma_sum_items(items, t, n - 1);
        assert(dangling_in(items[n - 1], t) == 0);
    }
}

proof fn lemma_sum_entries(d: object::DictView, t: document::TableView, n: int)
    requires
        0 <= n <= d.len(),
        forall|i: int|
            0 <= i < d.len() ==> !dangles((#[trigger] d[i]).1, t) && dangling_in(d[i].1, t) == 0,
    ensures
        dangling_entries(d, t, n) == 0,
    decreases n,
{
    if n > 0 {
        lemma_sum_entries(d, t, n - 1);
        assert(dangling_in(d[n - 1].1, t) == 0);
    }
}

/// Two tables that hold the same numbers.
pub open spec fn same_numbers(a: document::TableView, b: document::TableView) -> bool {
    a.len() == b.len() && forall|i: int| 0 <= i < a.len() ==> (#[trigger] a[i]).0 == b[i].0
}

proof fn lemma_same_numbers(a: document::TableView, b: document::TableView, id: ObjectId)
    requires
        same_numbers(a, b),
    ensures
        document::has_id(a, id) == document::has_id(b, id),
{
    if document::has_id(a, id) {
        let i = choose|i: int| document::stands_at(a, id, i);
        assert(a[i].0 == b[i].0);
        assert(document::stands_at(b, id, i));
    }
    if document::has_id(b, id) {
        let i = choose|i: int| document::stands_at(b, id, i);
        assert(a[i].0 == b[i].0);
        assert(document::stands_at(a, id, i));
    }
}

/// Which references dangle depends on the numbers alone.
proof fn lemma_dangling_same(v: ValueView, a: document::TableView, b: document::TableView)
    requires
        same_numbers(a, b),
    ensures
        dangles(v, a) == dangles(v, b),
        dangling_in(v, a) == dangling_in(v, b),
    decreases v, 0int,
{
    match v {
        ValueView::Array(items) => lemma_items_same(items, a, b, items.len() as int),
        ValueView::Dictionary(d) => lemma_entries_same(d, a, b, d.len() as int),
        ValueView::Stream(d, _) => lemma_entries_same(d, a, b, d.len() as int),
        ValueView::Reference(id) => lemma_same_numbers(a, b, id),
        _ => {},
    }
}

proof fn lemma_items_same(
    items: Seq<ValueView>,
    a: document::TableView,
    b: document::TableView,
    n: int,
)
    requires
        same_numbers(a, b),
    ensures
        dangling_items(items, a, n) == dangling_items(items, b, n),
    decreases items, n,
{
    if 0 < n <= items.len() {
        lemma_items_same(items, a, b, n - 1);
        lemma_dangling_same(items[n - 1], a, b);
    }
}

proof fn lemma_entries_same(
    d: object::DictView,
    a: document::TableView,
    b: document::TableView,
    n: int,
)
    requires
        same_numbers(a, b),
    ensures
        dangling_entries(d, a, n) == dangling_entries(d, b, n),
    decreases d, n,
{
    if 0 < n <= d.len() {
        lemma_entries_same(d, a, b, n - 1);
        lemma_dangling_same(d[n - 1].1, a, b);
    }
}

/// Raising the version never lowers it.
pub proof fn version_is_never_lowered(t: document::TableView, version: Seq<char>)
    ensures
        needed_version(t, version) == version || bytes::precedes(
            bytes::text(version),
            bytes::text(needed_version(t, version)),
        ),
{
}

/// Once dangling references are dropped none is left: no object and no entry
/// of the trailer refers to what does not exist.
pub proof fn no_dangling_reference_is_left(t: document::TableView, trailer: object::DictView)
    requires
        object::keys_once_in(trailer),
        forall|i: int| 0 <= i < t.len() ==> object::keys_once((#[trigger] t[i]).1),
    ensures
        dangling_objects(mended_objects(t), t.len() as int) == 0,
        dangling_entries(
            mended_dict(trailer, t),
            mended_objects(t),
            mended_dict(trailer, t).len() as int,
        ) == 0,
{
    let u = mended_objects(t);
    assert(same_numbers(t, u));
    lemma_mended_dict(trailer, t);
    lemma_entries_same(mended_dict(trailer, t), t, u, mended_dict(trailer, t).len() as int);
    lemma_sum_objects(t, t.len() as int);
}

proof fn lemma_sum_objects(t: document::TableView, n: int)
    requires
        0 <= n <= t.len(),
        forall|i: int| 0 <= i < t.len() ==> object::keys_once((#[trigger] t[i]).1),
    ensures
        dangling_objects(mended_objects(t), n) == 0,
    decreases n,
{
    let u = mended_objects(t);
    assert(same_numbers(t, u));
    if n > 0 {
        lemma_sum_objects(t, n - 1);
        assert(object::keys_once(t[n - 1].1));
        lemma_mended(t[n - 1].1, t);
        lemma_dangling_same(u[n - 1].1, t, u);
    }
}

// ------------------------------------------------------------- the stage

/// The fonts that the default appearances in the objects name.
pub open spec fn named_fonts(t: document::TableView) -> Set<Seq<u8>> {
    Set::new(|f: Seq<u8>| usage::table_names(t, t.len() as int, f))
}

/// A document without the resource entries that nothing uses, and how many
/// these are. The fonts of a form's default resources stay where a default
/// appearance cannot be read.
pub open spec fn resources_cleaned(doc: document::PdfView) -> (document::PdfView, int) {
    let first = document::PdfView { objects: resources::pruned(doc), ..doc };
    if usage::table_readable(first.objects, first.objects.len() as int) {
        let (objects, more) = resources::fonts_pruned(first, named_fonts(first.objects));
        (
            document::PdfView { objects, ..first },
            summed(resources::pruned_count(doc), more),
        )
    } else {
        (first, resources::pruned_count(doc))
    }
}

/// A sum, which stops at the largest number that fits.
pub open spec fn summed(a: int, b: int) -> int {
    if a + b > u128::MAX {
        u128::MAX as int
    } else {
        a + b
    }
}

/// A stream that names no filter, compressed where that makes it smaller.
pub open spec fn flat_stream(v: ValueView) -> ValueView {
    match v {
        ValueView::Stream(d, content) => if object::lookup(d, bytes::text("Filter"@)) is Some {
            v
        } else {
            match backend::flated(content) {
                Some(c) => ValueView::Stream(
                    object::with_entry(
                        object::with_entry(
                            d,
                            bytes::text("Filter"@),
                            ValueView::Name(bytes::text("FlateDecode"@)),
                        ),
                        bytes::text("Length"@),
                        ValueView::Integer(c.len() as i64),
                    ),
                    c,
                ),
                None => v,
            }
        },
        _ => v,
    }
}

/// How long the content of a stream is.
pub open spec fn content_len(v: ValueView) -> int {
    match v {
        ValueView::Stream(_, content) => content.len() as int,
        _ => 0,
    }
}

/// The objects with their streams compressed.
pub open spec fn all_flat(t: document::TableView) -> document::TableView {
    t.map_values(|e: (ObjectId, ValueView)| (e.0, flat_stream(e.1)))
}

/// Each number beside itself.
pub open spec fn twice(ids: Seq<ObjectId>) -> Seq<(ObjectId, ObjectId)> {
    ids.map_values(|id: ObjectId| (id, id))
}

/// A document with its objects numbered from 1 on, where its pages can be
/// listed.
pub open spec fn numbered(doc: document::PdfView) -> document::PdfView {
    if pages::can_list(doc) {
        backend::renumbered(doc)
    } else {
        doc
    }
}

/// A note, where there is something to count.
pub open spec fn count_note(n: int, before: Seq<char>, after: Seq<char>) -> Seq<Seq<char>> {
    if n > 0 {
        seq![before + text::number(n as nat) + after]
    } else {
        Seq::empty()
    }
}

/// A document without what cannot be reached from its trailer.
pub open spec fn referenced_only(doc: document::PdfView) -> document::PdfView {
    document::PdfView {
        objects: doc.objects.filter(|e: (ObjectId, ValueView)| backend::reached(doc, e.0)),
        ..doc
    }
}

/// How many references to missing objects a document holds.
pub open spec fn dangling_count(doc: document::PdfView) -> int {
    capped(
        dangling_objects(doc.objects, doc.objects.len() as int) + dangling_entries(
            doc.trailer,
            doc.objects,
            doc.trailer.len() as int,
        ),
    )
}

/// A document without references to missing objects.
pub open spec fn all_mended(doc: document::PdfView) -> document::PdfView {
    document::PdfView {
        objects: mended_objects(doc.objects),
        trailer: mended_dict(doc.trailer, doc.objects),
        ..doc
    }
}

/// A document at the version that it needs.
pub open spec fn versioned(doc: document::PdfView) -> document::PdfView {
    document::PdfView { version: needed_version(doc.objects, doc.version), ..doc }
}

/// A document after its resources, as far as the configuration asks for that,
/// and the note on it.
pub open spec fn first_step(doc: document::PdfView, config: Config) -> (
    document::PdfView,
    Seq<Seq<char>>,
) {
    if config.optimize_resources {
        let (d, n) = resources_cleaned(doc);
        (d, count_note(n, "structure: removed "@, " unused resource entries"@))
    } else {
        (doc, Seq::empty())
    }
}

/// A document with its streams compressed and its duplicates merged, the
/// latter as far as the configuration asks for that, and the note on it.
pub open spec fn second_step(doc: document::PdfView, config: Config) -> (
    document::PdfView,
    Seq<Seq<char>>,
) {
    let flat = document::PdfView { objects: all_flat(doc.objects), ..doc };
    if config.remove_redundant_objects {
        let (d, n) = dedupe::merged(flat, flat.objects.len());
        (d, count_note(n, "structure: merged "@, " duplicate objects"@))
    } else {
        (flat, Seq::empty())
    }
}

/// A document with what nothing refers to dropped, its references mended, its
/// objects numbered and its version raised, and the note on it.
pub open spec fn third_step(doc: document::PdfView) -> (document::PdfView, Seq<Seq<char>>) {
    let lean = referenced_only(doc);
    (
        versioned(numbered(all_mended(lean))),
        count_note(
            dangling_count(lean),
            "structure: "@,
            " references to missing objects removed"@,
        ),
    )
}

/// A document after the cleanup, and the notes on it.
pub open spec fn cleaned(doc: document::PdfView, config: Config) -> (
    document::PdfView,
    Seq<Seq<char>>,
) {
    let (one, n1) = first_step(doc, config);
    let (two, n2) = second_step(one, config);
    let (three, n3) = third_step(two);
    (three, n1 + n2 + n3)
}

fn note_count(report: &mut Report, n: u128, before: &str, after: &str)
    ensures
        final(report).said() == old(report).said() + count_note(n as int, before@, after@),
        final(report).stages == old(report).stages,
        final(report).input_bytes == old(report).input_bytes,
        final(report).output_bytes == old(report).output_bytes,
        final(report).images == old(report).images,
        final(report).fonts == old(report).fonts,
{
    if n > 0 {
        let mut note = before.to_owned();
        text::push_number(&mut note, n);
        note.append(after);
        report.note(note.as_str());
    }
    assert(report.said() =~= old(report).said() + count_note(n as int, before@, after@));
}

fn clean_resources(doc: &mut Pdf) -> (r: u128)
    requires
        old(doc).wf(),
    ensures
        final(doc).wf(),
        (final(doc)@, r as int) == resources_cleaned(old(doc)@),
        final(doc).encryption == old(doc).encryption,
{
    let removed: u128 = resources::prune_unused(doc);
    match usage::appearance_fonts(doc) {
        Some(used) => {
            assert(used@ =~= named_fonts(doc@.objects));
            let more: usize = resources::prune_default_resource_fonts(doc, &used);
            if removed > u128::MAX - more as u128 {
                u128::MAX
            } else {
                removed + more as u128
            }
        },
        None => removed,
    }
}

fn drop_unreferenced(doc: &mut Pdf)
    requires
        old(doc).wf(),
    ensures
        final(doc).wf(),
        final(doc)@ == referenced_only(old(doc)@),
        final(doc).encryption == old(doc).encryption,
{
    let ids = backend::find_unreferenced(doc);
    let mut pairs: Vec<(ObjectId, ObjectId)> = Vec::new();
    let mut i: usize = 0;
    while i < ids.len()
        invariant
            i <= ids@.len(),
            pairs@ =~= twice(ids@.take(i as int)),
        decreases ids@.len() - i,
    {
        pairs.push((ids[i], ids[i]));
        assert(ids@.take(i + 1) =~= ids@.take(i as int).push(ids@[i as int]));
        i += 1;
    }
    assert(ids@.take(i as int) =~= ids@);
    assert forall|a: int, b: int| 0 <= a < b < pairs@.len() implies document::id_less(
        (#[trigger] pairs@[a]).0,
        (#[trigger] pairs@[b]).0,
    ) by {
        assert(document::id_less(ids@[a], ids@[b]));
    }
    let ghost t = doc@.objects;
    let ghost view = doc@;
    dedupe::drop_gone(doc, &pairs);
    proof {
        assert forall|i: int| 0 <= i < t.len() implies dedupe::goes(pairs@, (#[trigger] t[i]).0)
            == !backend::reached(view, t[i].0) by {
            let id = t[i].0;
            assert(document::stands_at(t, id, i));
            if ids@.contains(id) {
                let k = choose|k: int| 0 <= k < ids@.len() && ids@[k] == id;
                assert(pairs@[k].0 == id);
            }
            if dedupe::goes(pairs@, id) {
                let k = choose|k: int| 0 <= k < pairs@.len() && (#[trigger] pairs@[k]).0 == id;
                assert(ids@[k] == id);
            }
        }
        lemma_same_filter(
            t,
            |e: (ObjectId, ValueView)| !dedupe::goes(pairs@, e.0),
            |e: (ObjectId, ValueView)| backend::reached(view, e.0),
        );
    }
}

proof fn lemma_same_filter(
    t: document::TableView,
    p: spec_fn((ObjectId, ValueView)) -> bool,
    q: spec_fn((ObjectId, ValueView)) -> bool,
)
    requires
        forall|i: int| 0 <= i < t.len() ==> p(#[trigger] t[i]) == q(t[i]),
    ensures
        t.filter(p) == t.filter(q),
    decreases t.len(),
{
    reveal(Seq::filter);
    if t.len() > 0 {
        let front = t.drop_last();
        assert forall|i: int| 0 <= i < front.len() implies p(#[trigger] front[i]) == q(front[i]) by {
            assert(front[i] == t[i]);
        }
        lemma_same_filter(front, p, q);
        assert(p(t[t.len() - 1]) == q(t[t.len() - 1]));
    }
}

fn flate_one(v: &mut Value)
    ensures
        final(v)@ == flat_stream(old(v)@),
        content_len(final(v)@) <= content_len(old(v)@),
{
    if let Value::Stream(s) = v {
        if s.dict.get("Filter".as_bytes()).is_none() {
            if let Some(c) = backend::flate(&s.content) {
                s.dict.put("Filter", Value::Name(bytes::of("FlateDecode")));
                s.dict.put("Length", Value::Integer(c.len() as i64));
                s.content = c;
            }
        }
    }
}

/// Compresses every stream that names no filter, where that makes it smaller.
/// No content grows.
pub fn flate_streams(doc: &mut Pdf)
    requires
        old(doc).wf(),
    ensures
        final(doc).wf(),
        forall|i: int|
            0 <= i < old(doc)@.objects.len() ==> content_len((#[trigger] final(doc)@.objects[i]).1)
                <= content_len(old(doc)@.objects[i].1),
        final(doc)@ == (document::PdfView { objects: all_flat(old(doc)@.objects), ..old(doc)@ }),
        final(doc).encryption == old(doc).encryption,
{
    let ghost t = doc@.objects;
    let ghost before = doc@;
    let mut i: usize = 0;
    while i < doc.objects.len()
        invariant
            i <= doc.objects@.len(),
            doc.objects@.len() == t.len(),
            t == before.objects,
            doc@ == (document::PdfView { objects: doc@.objects, ..before }),
            doc.encryption == old(doc).encryption,
            forall|k: int| 0 <= k < i ==> #[trigger] doc@.objects[k] == all_flat(t)[k],
            forall|k: int|
                0 <= k < i ==> content_len((#[trigger] doc@.objects[k]).1) <= content_len(t[k].1),
            forall|k: int| i <= k < t.len() ==> #[trigger] doc@.objects[k] == t[k],
        decreases doc.objects@.len() - i,
    {
        let ghost at = doc@.objects;
        assert(at[i as int] == t[i as int]);
        flate_one(&mut doc.objects[i].1);
        proof {
            let now = doc@.objects;
            assert(now[i as int] == (t[i as int].0, flat_stream(t[i as int].1)));
            assert forall|k: int| 0 <= k < t.len() && k != i implies #[trigger] now[k] == at[k] by {}
        }
        i += 1;
    }
    assert(doc@.objects =~= all_flat(t));
    assert forall|a: int, b: int| 0 <= a < b < t.len() implies document::id_less(
        (#[trigger] doc@.objects[a]).0,
        (#[trigger] doc@.objects[b]).0,
    ) by {
        assert(document::id_less(t[a].0, t[b].0));
    }
}

fn drop_resources(doc: &mut Pdf, config: &Config, report: &mut Report)
    requires
        old(doc).wf(),
    ensures
        final(doc).wf(),
        final(doc)@ == first_step(old(doc)@, *config).0,
        final(doc).encryption == old(doc).encryption,
        final(report).said() == old(report).said() + first_step(old(doc)@, *config).1,
        final(report).stages == old(report).stages,
        final(report).input_bytes == old(report).input_bytes,
        final(report).output_bytes == old(report).output_bytes,
        final(report).images == old(report).images,
        final(report).fonts == old(report).fonts,
{
    if config.optimize_resources {
        let removed: u128 = clean_resources(doc);
        note_count(report, removed, "structure: removed ", " unused resource entries");
    }
    assert(report.said() =~= old(report).said() + first_step(old(doc)@, *config).1);
}

fn pack_objects(doc: &mut Pdf, config: &Config, report: &mut Report)
    requires
        old(doc).wf(),
    ensures
        final(doc).wf(),
        final(doc)@ == second_step(old(doc)@, *config).0,
        final(doc).encryption == old(doc).encryption,
        final(report).said() == old(report).said() + second_step(old(doc)@, *config).1,
        final(report).stages == old(report).stages,
        final(report).input_bytes == old(report).input_bytes,
        final(report).output_bytes == old(report).output_bytes,
        final(report).images == old(report).images,
        final(report).fonts == old(report).fonts,
{
    flate_streams(doc);
    if config.remove_redundant_objects {
        let merged: usize = dedupe::merge_duplicates(doc);
        note_count(report, merged as u128, "structure: merged ", " duplicate objects");
    }
    assert(report.said() =~= old(report).said() + second_step(old(doc)@, *config).1);
}

fn tidy(doc: &mut Pdf, report: &mut Report)
    requires
        old(doc).wf(),
    ensures
        final(doc).wf(),
        final(doc)@ == third_step(old(doc)@).0,
        final(doc).encryption == old(doc).encryption,
        final(report).said() == old(report).said() + third_step(old(doc)@).1,
        final(report).stages == old(report).stages,
        final(report).input_bytes == old(report).input_bytes,
        final(report).output_bytes == old(report).output_bytes,
        final(report).images == old(report).images,
        final(report).fonts == old(report).fonts,
{
    drop_unreferenced(doc);
    let dangling: u64 = drop_dangling_references(doc);
    note_count(
        report,
        dangling as u128,
        "structure: ",
        " references to missing objects removed",
    );
    if pages::check_counts(doc) {
        backend::renumber(doc);
    }
    bump_version(doc);
}

/// The last stage.
pub struct CleanStructure;

impl CleanStructure {
    pub fn name(&self) -> (r: &'static str)
        ensures
            r@ == "structure"@,
    {
        "structure"
    }

    /// The cleanup always runs.
    pub fn enabled(&self, _config: &Config) -> (r: bool)
        ensures
            r,
    {
        true
    }

    /// Cleans a document up, and notes what was found.
    pub fn run(&self, doc: &mut Pdf, config: &Config, report: &mut Report)
        requires
            old(doc).wf(),
        ensures
            final(doc).wf(),
            final(doc)@ == cleaned(old(doc)@, *config).0,
            final(doc).encryption == old(doc).encryption,
            final(report).said() == old(report).said() + cleaned(old(doc)@, *config).1,
            final(report).stages == old(report).stages,
            final(report).input_bytes == old(report).input_bytes,
            final(report).output_bytes == old(report).output_bytes,
            final(report).images == old(report).images,
            final(report).fonts == old(report).fonts,
    {
        drop_resources(doc, config, report);
        pack_objects(doc, config, report);
        tidy(doc, report);
        assert(report.said() =~= old(report).said() + cleaned(old(doc)@, *config).1);
    }
}

/// A document of an older version with a stream of JBIG2 data becomes one of
/// version 1.4.
pub proof fn jbig2_needs_its_version(
    t: document::TableView,
    version: Seq<char>,
    i: int,
    d: object::DictView,
    content: Seq<u8>,
)
    requires
        0 <= i < t.len(),
        t[i].1 == ValueView::Stream(d, content),
        object::lookup(d, bytes::text("Filter"@)) == Some(
            ValueView::Name(bytes::text("JBIG2Decode"@)),
        ),
        bytes::precedes(bytes::text(version), bytes::text("1.4"@)),
    ensures
        needed_version(t, version) == "1.4"@,
{
    let names = seq![ValueView::Name(bytes::text("JBIG2Decode"@))];
    assert(names[0] == ValueView::Name(bytes::text("JBIG2Decode"@)));
    assert(names.contains(ValueView::Name(bytes::text("JBIG2Decode"@))));
    assert(filtered_by(t[i].1, "JBIG2Decode"@));
}

} // verus!
