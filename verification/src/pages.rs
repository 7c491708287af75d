//! What a page consists of: its content streams, put together.
use vstd::prelude::*;

use crate::backend;
use crate::bytes;
use crate::document;
use crate::document::Pdf;
use crate::object;
use crate::object::{Dict, ObjectId, Value, ValueView};

verus! {

/// Streams larger than this are not read.
pub const MAX_CONTENT_BYTES: usize = 67_108_864;

/// How many references to what is no stream are followed to a page's contents.
pub const CONTENT_LIMIT: usize = 127;

/// The references among items.
pub open spec fn references_in(items: Seq<ValueView>, n: int) -> Seq<ObjectId>
    decreases n,
{
    if n <= 0 || n > items.len() {
        Seq::empty()
    } else {
        match items[n - 1] {
            ValueView::Reference(id) => references_in(items, n - 1).push(id),
            _ => references_in(items, n - 1),
        }
    }
}

/// The content streams that a `Contents` value names: a reference that is a
/// stream or missing, what another reference leads to, or the references of an
/// array.
pub open spec fn streams_named(t: document::TableView, v: ValueView, budget: nat) -> Seq<ObjectId>
    decreases budget,
{
    match v {
        ValueView::Reference(id) => match document::find(t, id) {
            None => seq![id],
            Some(ValueView::Stream(..)) => seq![id],
            Some(o) => if budget == 0 {
                Seq::empty()
            } else {
                streams_named(t, o, (budget - 1) as nat)
            },
        },
        ValueView::Array(items) => references_in(items, items.len() as int),
        _ => Seq::empty(),
    }
}

/// The content streams of a page.
pub open spec fn page_streams(t: document::TableView, page: ObjectId) -> Seq<ObjectId> {
    match document::dictionary_at(t, page) {
        Some(d) => match object::lookup(d, bytes::text("Contents"@)) {
            Some(c) => streams_named(t, c, CONTENT_LIMIT as nat),
            None => Seq::empty(),
        },
        None => Seq::empty(),
    }
}

fn item_references(items: &Vec<Value>) -> (r: Vec<ObjectId>)
    ensures
        r@ == references_in(object::objects_view(items@), items@.len() as int),
{
    let ghost view = object::objects_view(items@);
    let mut out: Vec<ObjectId> = Vec::new();
    let mut i: usize = 0;
    while i < items.len()
        invariant
            i <= items@.len(),
            view == object::objects_view(items@),
            out@ == references_in(view, i as int),
        decreases items@.len() - i,
    {
        assert(view[i as int] == items@[i as int]@);
        if let Value::Reference(id) = &items[i] {
            out.push(*id);
        }
        i += 1;
    }
    out
}

/// The content streams of a page: what its `Contents` names, directly or
/// through references.
pub fn get_page_contents(doc: &Pdf, page: ObjectId) -> (r: Vec<ObjectId>)
    requires
        doc.wf(),
    ensures
        r@ == page_streams(doc@.objects, page),
{
    let ghost t = doc@.objects;
    let mut out: Vec<ObjectId> = Vec::new();
    let d = match doc.get_dictionary(page) {
        Some(d) => d,
        None => {
            return out;
        },
    };
    let mut current: &Value = match d.get("Contents".as_bytes()) {
        Some(c) => c,
        None => {
            return out;
        },
    };
    let mut left: usize = CONTENT_LIMIT;
    loop
        invariant
            doc.wf(),
            t == doc@.objects,
            left <= CONTENT_LIMIT,
            out@ == Seq::<ObjectId>::empty(),
            page_streams(t, page) == streams_named(t, current@, left as nat),
        decreases left,
    {
        match current {
            Value::Reference(id) => match doc.position(*id) {
                None => {
                    out.push(*id);
                    return out;
                },
                Some(i) => {
                    let next = &doc.objects[i].1;
                    if let Value::Stream(_) = next {
                        out.push(*id);
                        return out;
                    }
                    if left == 0 {
                        return out;
                    }
                    left -= 1;
                    current = next;
                },
            },
            Value::Array(items) => {
                proof {
                    object::lemma_array_view(*items);
                }
                return item_references(items);
            },
            _ => {
                return out;
            },
        }
    }
}

/// The first `n` streams put together, each closed by a line feed; nothing
/// where one of them is no stream or does not decode.
pub open spec fn streams_content(t: document::TableView, ids: Seq<ObjectId>, n: int) -> Option<
    Seq<u8>,
>
    decreases n,
{
    if n <= 0 || n > ids.len() {
        Some(Seq::empty())
    } else {
        match streams_content(t, ids, n - 1) {
            None => None,
            Some(front) => match document::object_at(t, ids[n - 1]) {
                Some(ValueView::Stream(d, c)) => match backend::decompressed(
                    d,
                    c,
                    MAX_CONTENT_BYTES,
                ) {
                    Ok(b) => Some((front + b).push(10)),
                    Err(_) => None,
                },
                _ => None,
            },
        }
    }
}

/// All content of a page.
pub open spec fn content_of(t: document::TableView, page: ObjectId) -> Option<Seq<u8>> {
    streams_content(t, page_streams(t, page), page_streams(t, page).len() as int)
}

/// Once a stream is missing the rest does not matter.
proof fn lemma_no_content(t: document::TableView, ids: Seq<ObjectId>, n: int, m: int)
    requires
        0 <= n <= m <= ids.len(),
        streams_content(t, ids, n) is None,
    ensures
        streams_content(t, ids, m) is None,
    decreases m - n,
{
    if n < m {
        lemma_no_content(t, ids, n, m - 1);
    }
}

/// All content streams of a page, concatenated; `None` if any of them fails
/// to decode.
pub fn page_content(doc: &Pdf, page: ObjectId) -> (r: Option<Vec<u8>>)
    requires
        doc.wf(),
    ensures
        backend::bytes_view(r) == content_of(doc@.objects, page),
{
    let ghost t = doc@.objects;
    let ids = get_page_contents(doc, page);
    let mut out: Vec<u8> = Vec::new();
    let mut i: usize = 0;
    while i < ids.len()
        invariant
            i <= ids@.len(),
            doc.wf(),
            t == doc@.objects,
            ids@ == page_streams(t, page),
            streams_content(t, ids@, i as int) == Some(out@),
        decreases ids@.len() - i,
    {
        let content = match doc.get_object(ids[i]) {
            Some(Value::Stream(s)) => match backend::decompress(s, MAX_CONTENT_BYTES) {
                Ok(b) => b,
                Err(_) => {
                    proof {
                        lemma_no_content(t, ids@, i + 1, ids@.len() as int);
                    }
                    return None;
                },
            },
            _ => {
                proof {
                    lemma_no_content(t, ids@, i + 1, ids@.len() as int);
                }
                return None;
            },
        };
        bytes::append(&mut out, &content);
        out.push(10);
        i += 1;
    }
    Some(out)
}

// ------------------------------------------------------------- page counts

/// The larger number.
pub open spec fn larger(a: int, b: int) -> int {
    if a < b {
        b
    } else {
        a
    }
}

/// The whole number that a value leads to, where it is positive.
pub open spec fn whole_number(t: document::TableView, v: ValueView) -> int {
    match document::resolved(t, v) {
        Some(ValueView::Integer(n)) => larger(0, n as int),
        _ => 0,
    }
}

/// The greatest number at `/Count` among the first `n` entries.
pub open spec fn greatest_count(t: document::TableView, d: object::DictView, n: int) -> int
    decreases n,
{
    if n <= 0 {
        0
    } else if d[n - 1].0 == bytes::text("Count"@) {
        larger(greatest_count(t, d, n - 1), whole_number(t, d[n - 1].1))
    } else {
        greatest_count(t, d, n - 1)
    }
}

/// How many pages an entry of a list of kids can count for.
pub open spec fn kid_weight(t: document::TableView, v: ValueView) -> int {
    match v {
        ValueView::Reference(id) => match document::object_at(t, id) {
            Some(ValueView::Dictionary(d)) => larger(1, greatest_count(t, d, d.len() as int)),
            Some(ValueView::Stream(d, _)) => larger(1, greatest_count(t, d, d.len() as int)),
            _ => 1,
        },
        _ => 1,
    }
}

/// How many pages the first `n` entries of a list of kids can count for.
pub open spec fn list_weight(t: document::TableView, items: Seq<ValueView>, n: int) -> int
    decreases n,
{
    if n <= 0 {
        0
    } else {
        list_weight(t, items, n - 1) + kid_weight(t, items[n - 1])
    }
}

/// How many pages a list at `/Kids` among the first `n` entries can count for.
pub open spec fn kids_weight(t: document::TableView, d: object::DictView, n: int) -> int
    decreases n,
{
    if n <= 0 {
        0
    } else {
        let front = kids_weight(t, d, n - 1);
        match d[n - 1].1 {
            ValueView::Array(items) => if d[n - 1].0 == bytes::text("Kids"@) {
                larger(front, list_weight(t, items, items.len() as int))
            } else {
                front
            },
            _ => front,
        }
    }
}

/// How many pages a list of kids that an object is or holds can count for.
pub open spec fn object_weight(t: document::TableView, v: ValueView) -> int {
    match v {
        ValueView::Array(items) => list_weight(t, items, items.len() as int),
        ValueView::Dictionary(d) => kids_weight(t, d, d.len() as int),
        ValueView::Stream(d, _) => kids_weight(t, d, d.len() as int),
        _ => 0,
    }
}

/// The most that a list of kids in the first `n` objects can count for.
pub open spec fn heaviest(t: document::TableView, n: int) -> int
    decreases n,
{
    if n <= 0 {
        0
    } else {
        larger(heaviest(t, n - 1), object_weight(t, t[n - 1].1))
    }
}

/// Whether the pages that a document says it has can be listed: lists of kids
/// from as many levels as are walked count for no more than fits in memory,
/// at 24 bytes a page, beside a page for every object.
pub open spec fn can_list(doc: document::PdfView) -> bool {
    &&& doc.objects.len() <= i32::MAX
    &&& (257 * heaviest(doc.objects, doc.objects.len() as int) + doc.objects.len() + 4) * 24
        <= isize::MAX
}

fn find_number(doc: &Pdf, v: &Value) -> (r: u64)
    requires
        doc.wf(),
    ensures
        r == whole_number(doc@.objects, v@),
        r <= i64::MAX,
{
    match doc.dereference(v) {
        Some(Value::Integer(n)) => if *n > 0 {
            *n as u64
        } else {
            0
        },
        _ => 0,
    }
}

fn find_count(doc: &Pdf, d: &Dict) -> (r: u64)
    requires
        doc.wf(),
    ensures
        r == greatest_count(doc@.objects, d@, d@.len() as int),
        r <= i64::MAX,
{
    let mut best: u64 = 0;
    let mut i: usize = 0;
    while i < d.entries.len()
        invariant
            i <= d.entries@.len(),
            d@.len() == d.entries@.len(),
            doc.wf(),
            best <= i64::MAX,
            best == greatest_count(doc@.objects, d@, i as int),
        decreases d.entries@.len() - i,
    {
        assert(d@[i as int] == (d.entries@[i as int].0@, d.entries@[i as int].1@));
        if bytes::is_text(&d.entries[i].0, "Count") {
            let n = find_number(doc, &d.entries[i].1);
            if best < n {
                best = n;
            }
        }
        i += 1;
    }
    best
}

fn weigh_kid(doc: &Pdf, v: &Value) -> (r: u64)
    requires
        doc.wf(),
    ensures
        r == kid_weight(doc@.objects, v@),
        1 <= r <= i64::MAX,
{
    let n: u64 = match v {
        Value::Reference(id) => match doc.get_object(*id) {
            Some(Value::Dictionary(d)) => find_count(doc, d),
            Some(Value::Stream(s)) => find_count(doc, &s.dict),
            _ => 1,
        },
        _ => 1,
    };
    if n < 1 {
        1
    } else {
        n
    }
}

fn weigh_list(doc: &Pdf, items: &Vec<Value>) -> (r: u128)
    requires
        doc.wf(),
    ensures
        r == list_weight(doc@.objects, object::objects_view(items@), items@.len() as int),
{
    let ghost view = object::objects_view(items@);
    let mut sum: u128 = 0;
    let mut i: usize = 0;
    while i < items.len()
        invariant
            i <= items@.len(),
            view == object::objects_view(items@),
            view.len() == items@.len(),
            doc.wf(),
            sum == list_weight(doc@.objects, view, i as int),
            sum <= i * 0x7FFF_FFFF_FFFF_FFFF,
        decreases items@.len() - i,
    {
        assert(view[i as int] == items@[i as int]@);
        assert(i * 0x7FFF_FFFF_FFFF_FFFF <= 0xFFFF_FFFF_FFFF_FFFF * 0x7FFF_FFFF_FFFF_FFFF)
            by (nonlinear_arith)
            requires
                i <= 0xFFFF_FFFF_FFFF_FFFF,
        ;
        let n = weigh_kid(doc, &items[i]);
        sum = sum + n as u128;
        i += 1;
    }
    sum
}

fn weigh_kids(doc: &Pdf, d: &Dict) -> (r: u128)
    requires
        doc.wf(),
    ensures
        r == kids_weight(doc@.objects, d@, d@.len() as int),
{
    let mut best: u128 = 0;
    let mut i: usize = 0;
    while i < d.entries.len()
        invariant
            i <= d.entries@.len(),
            d@.len() == d.entries@.len(),
            doc.wf(),
            best == kids_weight(doc@.objects, d@, i as int),
        decreases d.entries@.len() - i,
    {
        assert(d@[i as int] == (d.entries@[i as int].0@, d.entries@[i as int].1@));
        if let Value::Array(items) = &d.entries[i].1 {
            proof {
                object::lemma_array_view(*items);
            }
            if bytes::is_text(&d.entries[i].0, "Kids") {
                let n = weigh_list(doc, items);
                if best < n {
                    best = n;
                }
            }
        }
        i += 1;
    }
    best
}

/// Whether the pages that a document says it has can be listed.
pub fn check_counts(doc: &Pdf) -> (r: bool)
    requires
        doc.wf(),
    ensures
        r == can_list(doc@),
{
    let ghost t = doc@.objects;
    let mut best: u128 = 0;
    let mut i: usize = 0;
    while i < doc.objects.len()
        invariant
            i <= doc.objects@.len(),
            t == doc@.objects,
            t.len() == doc.objects@.len(),
            doc.wf(),
            best == heaviest(t, i as int),
        decreases doc.objects@.len() - i,
    {
        assert(t[i as int] == (doc.objects@[i as int].0, doc.objects@[i as int].1@));
        let n = match &doc.objects[i].1 {
            Value::Array(items) => {
                proof {
                    object::lemma_array_view(*items);
                }
                weigh_list(doc, items)
            },
            Value::Dictionary(d) => weigh_kids(doc, d),
            Value::Stream(s) => weigh_kids(doc, &s.dict),
            _ => 0,
        };
        if best < n {
            best = n;
        }
        i += 1;
    }
    let count = doc.objects.len() as u128;
    if count > 0x7FFF_FFFF || best > 0xFFFF_FFFF_FFFF_FFFF {
        return false;
    }
    (257 * best + count + 4) * 24 <= isize::MAX as u128
}

// ------------------------------------------------------------- laws

/// The content of streams in a row is the content of the first of them
/// followed by that of the others.
pub proof fn contents_follow_each_other(
    t: document::TableView,
    a: Seq<ObjectId>,
    b: Seq<ObjectId>,
)
    ensures
        streams_content(t, a + b, (a + b).len() as int) == match (
            streams_content(t, a, a.len() as int),
            streams_content(t, b, b.len() as int),
        ) {
            (Some(x), Some(y)) => Some(x + y),
            _ => None,
        },
    decreases b.len(),
{
    if b.len() == 0 {
        assert(a + b =~= a);
        if let Some(x) = streams_content(t, a, a.len() as int) {
            assert(x + Seq::<u8>::empty() =~= x);
        }
    } else {
        let front = b.drop_last();
        contents_follow_each_other(t, a, front);
        let all = a + b;
        let n = all.len() as int;
        assert(all.drop_last() =~= a + front);
        lemma_front(t, all, n - 1);
        lemma_front(t, b, b.len() - 1);
        assert(all.take(n - 1) =~= a + front);
        assert(b.take(b.len() - 1) =~= front);
        assert(all[n - 1] == b[b.len() - 1]);
        if let Some(x) = streams_content(t, a, a.len() as int) {
            if let Some(y) = streams_content(t, front, front.len() as int) {
                if let Some(ValueView::Stream(d, c)) = document::object_at(t, b[b.len() - 1]) {
                    if let Ok(z) = backend::decompressed(d, c, MAX_CONTENT_BYTES) {
                        assert((x + y + z).push(10) =~= x + (y + z).push(10));
                    }
                }
            }
        }
    }
}

/// The content of the first streams does not depend on the others.
proof fn lemma_front(t: document::TableView, ids: Seq<ObjectId>, n: int)
    requires
        0 <= n <= ids.len(),
    ensures
        streams_content(t, ids, n) == streams_content(t, ids.take(n), n),
    decreases n,
{
    if n > 0 {
        lemma_front(t, ids, n - 1);
        lemma_front(t, ids.take(n), n - 1);
        assert(ids.take(n).take(n - 1) =~= ids.take(n - 1));
        assert(ids.take(n)[n - 1] == ids[n - 1]);
    }
}

/// A page whose contents are one stream, by itself or in an array, has what
/// that decodes to with a line feed behind it.
pub proof fn pages_hold_their_streams(
    t: document::TableView,
    page: ObjectId,
    p: object::DictView,
    id: ObjectId,
    d: object::DictView,
    c: Seq<u8>,
    content: Seq<u8>,
)
    requires
        document::dictionary_at(t, page) == Some(p),
        object::lookup(p, bytes::text("Contents"@)) == Some(ValueView::Reference(id)) || object::lookup(
            p,
            bytes::text("Contents"@),
        ) == Some(ValueView::Array(seq![ValueView::Reference(id)])),
        document::find(t, id) == Some(ValueView::Stream(d, c)),
        document::object_at(t, id) == Some(ValueView::Stream(d, c)),
        backend::decompressed(d, c, MAX_CONTENT_BYTES) == Ok::<Seq<u8>, Seq<char>>(content),
    ensures
        content_of(t, page) == Some(content.push(10)),
{
    let items = seq![ValueView::Reference(id)];
    reveal_with_fuel(references_in, 2);
    assert(references_in(items, 1) =~= seq![id]);
    reveal_with_fuel(streams_content, 2);
    assert(Seq::<u8>::empty() + content =~= content);
}

} // verus!
