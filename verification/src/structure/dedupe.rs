//! Merge objects that are byte-for-byte identical in canonical form, and
//! repoint every reference to the survivor.
//!
//! Only objects whose identity carries no meaning are eligible: streams, and
//! dictionaries that are not pages, page-tree nodes, the catalog,
//! annotations, or members of a parent/child tree (`/Parent`, `/Kids`,
//! `/P`). Merging is repeated until a pass finds nothing, because repointing
//! references can make previously different dictionaries identical.
use vstd::prelude::*;

use crate::backend;
use crate::bytes;
use crate::document;
use crate::document::Pdf;
use crate::object;
use crate::object::{Dict, ObjectId, Value, ValueView};

verus! {

// ------------------------------------------------------------- numbers

/// The low `k` bytes of a number, the lowest first.
pub open spec fn le_bytes(n: int, k: nat) -> Seq<u8>
    decreases k,
{
    if k == 0 {
        Seq::empty()
    } else {
        seq![(n % 256) as u8] + le_bytes(n / 256, (k - 1) as nat)
    }
}

fn push_le(out: &mut Vec<u8>, n: u64, k: usize)
    ensures
        final(out)@ == old(out)@ + le_bytes(n as int, k as nat),
{
    let ghost start = out@;
    let ghost goal = le_bytes(n as int, k as nat);
    let mut rest: u64 = n;
    let mut left: usize = k;
    assert(out@ =~= start + Seq::<u8>::empty());
    assert(out@ + le_bytes(rest as int, left as nat) =~= start + goal);
    while left > 0
        invariant
            left <= k,
            out@ + le_bytes(rest as int, left as nat) == start + goal,
        decreases left,
    {
        let ghost before = out@;
        out.push((rest % 256) as u8);
        assert(before + le_bytes(rest as int, left as nat) =~= out@ + le_bytes(
            rest as int / 256,
            (left - 1) as nat,
        ));
        rest = rest / 256;
        left -= 1;
    }
    assert(out@ + le_bytes(rest as int, 0) =~= out@);
}

/// An integer as sixty-four bits.
pub open spec fn bits_of(i: i64) -> int {
    if i < 0 {
        i + 0x1_0000_0000_0000_0000
    } else {
        i as int
    }
}

fn to_bits(i: i64) -> (r: u64)
    ensures
        r == bits_of(i),
{
    if i < 0 {
        u64::MAX - (-(i + 1)) as u64
    } else {
        i as u64
    }
}

// ------------------------------------------------------------- canonical form

/// Bytes behind a tag and their number.
pub open spec fn tagged(tag: char, b: Seq<u8>) -> Seq<u8> {
    seq![tag as u8] + le_bytes(b.len() as int, 4) + b
}

/// A key and the canonical form of what it holds.
pub type Written = (Seq<u8>, Seq<u8>);

/// Where a key belongs among keys in order: after those that it does not come
/// before.
pub open spec fn slot_of(w: Seq<Written>, key: Seq<u8>) -> int
    decreases w.len(),
{
    if w.len() == 0 || !bytes::precedes(key, w.last().0) {
        w.len() as int
    } else {
        slot_of(w.drop_last(), key)
    }
}

/// Entries in the order of their keys.
pub open spec fn by_key(w: Seq<Written>) -> Seq<Written>
    decreases w.len(),
{
    if w.len() == 0 {
        w
    } else {
        let front = by_key(w.drop_last());
        front.insert(slot_of(front, w.last().0), w.last())
    }
}

/// Entries one after the other.
pub open spec fn written_out(w: Seq<Written>) -> Seq<u8>
    decreases w.len(),
{
    if w.len() == 0 {
        Seq::empty()
    } else {
        written_out(w.drop_last()) + tagged('/', w.last().0) + w.last().1
    }
}

/// The canonical form of an object: dictionary keys sorted, stream content
/// included.
pub open spec fn canonical_form(v: ValueView) -> Seq<u8>
    decreases v, 2int, 0int,
{
    match v {
        ValueView::Null => seq!['n' as u8],
        ValueView::Boolean(b) => seq![
            'b' as u8,
            if b {
                1u8
            } else {
                0u8
            },
        ],
        ValueView::Integer(i) => seq!['i' as u8] + le_bytes(bits_of(i), 8),
        ValueView::Real(r) => tagged('r', r),
        ValueView::Name(n) => tagged('/', n),
        ValueView::String(s, _) => tagged('(', s),
        ValueView::Reference(id) => seq!['R' as u8] + le_bytes(id.0 as int, 4) + le_bytes(
            id.1 as int,
            2,
        ),
        ValueView::Array(items) => seq!['[' as u8] + items_form(items, items.len() as int) + seq![
            ']' as u8,
        ],
        ValueView::Dictionary(d) => dict_form(d),
        ValueView::Stream(d, content) => dict_form(d) + tagged('S', content),
    }
}

/// The canonical forms of the first `n` items, one after the other.
pub open spec fn items_form(items: Seq<ValueView>, n: int) -> Seq<u8>
    decreases items, 1int, n,
{
    if n <= 0 || n > items.len() {
        Seq::empty()
    } else {
        items_form(items, n - 1) + canonical_form(items[n - 1])
    }
}

/// The keys of a dictionary, each with the canonical form of what it holds.
pub open spec fn written(d: object::DictView) -> Seq<Written>
    decreases d, 0int, 0int,
{
    Seq::new(
        d.len(),
        |i: int|
            if 0 <= i < d.len() {
                (d[i].0, canonical_form(d[i].1))
            } else {
                (Seq::empty(), Seq::empty())
            },
    )
}

/// The canonical form of a dictionary.
pub open spec fn dict_form(d: object::DictView) -> Seq<u8>
    decreases d, 1int, 0int,
{
    seq!['<' as u8] + written_out(by_key(written(d))) + seq!['>' as u8]
}

// ------------------------------------------------------------- writing

fn push_tagged(out: &mut Vec<u8>, tag: u8, b: &[u8])
    ensures
        final(out)@ == old(out)@ + (seq![tag] + le_bytes(b@.len() as int, 4) + b@),
{
    let ghost start = out@;
    out.push(tag);
    push_le(out, b.len() as u64, 4);
    bytes::append(out, b);
    assert(out@ =~= start + (seq![tag] + le_bytes(b@.len() as int, 4) + b@));
}

/// A key with the form of what it holds.
struct Entry {
    key: Vec<u8>,
    form: Vec<u8>,
}

spec fn entries_view(w: Seq<Entry>) -> Seq<Written> {
    w.map_values(|e: Entry| (e.key@, e.form@))
}

/// The slot is behind what stands before the key.
proof fn lemma_slot(w: Seq<Written>, key: Seq<u8>)
    ensures
        0 <= slot_of(w, key) <= w.len(),
    decreases w.len(),
{
    if w.len() > 0 && bytes::precedes(key, w.last().0) {
        lemma_slot(w.drop_last(), key);
    }
}

fn find_slot(w: &Vec<Entry>, key: &Vec<u8>) -> (r: usize)
    ensures
        r == slot_of(entries_view(w@), key@),
        r <= w@.len(),
{
    let ghost view = entries_view(w@);
    let mut i: usize = w.len();
    assert(view.take(i as int) =~= view);
    while i > 0
        invariant
            i <= w@.len(),
            view == entries_view(w@),
            slot_of(view, key@) == slot_of(view.take(i as int), key@),
        decreases i,
    {
        assert(view.take(i as int).last() == view[i - 1]);
        assert(view[i - 1].0 == w@[i - 1].key@);
        if !bytes::before(key, &w[i - 1].key) {
            return i;
        }
        assert(view.take(i as int).drop_last() =~= view.take(i - 1));
        i -= 1;
    }
    0
}

fn push_dict(out: &mut Vec<u8>, d: &Dict)
    ensures
        final(out)@ == old(out)@ + dict_form(d@),
    decreases d,
{
    let ghost start = out@;
    let ghost goal = written(d@);
    let mut sorted: Vec<Entry> = Vec::new();
    let mut i: usize = 0;
    assert(entries_view(sorted@) =~= by_key(goal.take(0)));
    while i < d.entries.len()
        invariant
            i <= d.entries@.len(),
            goal == written(d@),
            entries_view(sorted@) == by_key(goal.take(i as int)),
        decreases d.entries@.len() - i,
    {
        let ghost before = entries_view(sorted@);
        let key = bytes::copy(&d.entries[i].0);
        let mut form: Vec<u8> = Vec::new();
        assert(decreases_to!(d => d.entries@[i as int].1));
        assert(d@[i as int] == (d.entries@[i as int].0@, d.entries@[i as int].1@));
        push_canonical(&mut form, &d.entries[i].1);
        assert(form@ =~= canonical_form(d.entries@[i as int].1@));
        let at = find_slot(&sorted, &key);
        let entry = Entry { key, form };
        assert((entry.key@, entry.form@) == goal[i as int]);
        sorted.insert(at, entry);
        proof {
            assert(goal.take(i + 1).drop_last() =~= goal.take(i as int));
            assert(goal.take(i + 1).last() == goal[i as int]);
            assert(entries_view(sorted@) =~= before.insert(at as int, goal[i as int]));
        }
        i += 1;
    }
    assert(goal.take(i as int) =~= goal);
    out.push('<' as u8);
    let ghost open = out@;
    let ghost view = entries_view(sorted@);
    let mut k: usize = 0;
    assert(out@ =~= open + written_out(view.take(0)));
    while k < sorted.len()
        invariant
            k <= sorted@.len(),
            view == entries_view(sorted@),
            out@ == open + written_out(view.take(k as int)),
        decreases sorted@.len() - k,
    {
        let ghost before = out@;
        push_tagged(out, '/' as u8, &sorted[k].key);
        bytes::append(out, &sorted[k].form);
        proof {
            assert(view.take(k + 1).drop_last() =~= view.take(k as int));
            assert(view.take(k + 1).last() == view[k as int]);
            assert(out@ =~= open + written_out(view.take(k + 1)));
        }
        k += 1;
    }
    assert(view.take(k as int) =~= view);
    out.push('>' as u8);
    assert(out@ =~= start + dict_form(d@));
}

fn push_items(out: &mut Vec<u8>, items: &Vec<Value>)
    ensures
        final(out)@ == old(out)@ + items_form(object::objects_view(items@), items@.len() as int),
    decreases items,
{
    let ghost start = out@;
    let ghost view = object::objects_view(items@);
    let mut i: usize = 0;
    assert(out@ =~= start + items_form(view, 0));
    while i < items.len()
        invariant
            i <= items@.len(),
            view == object::objects_view(items@),
            out@ == start + items_form(view, i as int),
        decreases items@.len() - i,
    {
        assert(decreases_to!(items => items@[i as int]));
        assert(view[i as int] == items@[i as int]@);
        push_canonical(out, &items[i]);
        i += 1;
        assert(out@ =~= start + items_form(view, i as int));
    }
}

fn push_canonical(out: &mut Vec<u8>, v: &Value)
    ensures
        final(out)@ == old(out)@ + canonical_form(v@),
    decreases v,
{
    let ghost start = out@;
    match v {
        Value::Null => {
            out.push('n' as u8);
        },
        Value::Boolean(b) => {
            out.push('b' as u8);
            out.push(
                if *b {
                    1
                } else {
                    0
                },
            );
        },
        Value::Integer(i) => {
            out.push('i' as u8);
            push_le(out, to_bits(*i), 8);
        },
        Value::Real(r) => {
            push_tagged(out, 'r' as u8, r);
        },
        Value::Name(n) => {
            push_tagged(out, '/' as u8, n);
        },
        Value::String(s, _) => {
            push_tagged(out, '(' as u8, s);
        },
        Value::Reference(id) => {
            out.push('R' as u8);
            push_le(out, id.0 as u64, 4);
            push_le(out, id.1 as u64, 2);
        },
        Value::Array(items) => {
            proof {
                object::lemma_array_view(*items);
            }
            out.push('[' as u8);
            assert(decreases_to!(v => v->Array_0));
            push_items(out, items);
            out.push(']' as u8);
        },
        Value::Dictionary(d) => {
            push_dict(out, d);
        },
        Value::Stream(s) => {
            push_dict(out, &s.dict);
            push_tagged(out, 'S' as u8, &s.content);
        },
    }
    assert(out@ =~= start + canonical_form(v@));
}

/// Canonical byte form: dictionary keys sorted, stream content included. Two
/// objects with equal canonical form are interchangeable for every reader.
pub fn canonical(v: &Value) -> (r: Vec<u8>)
    ensures
        r@ == canonical_form(v@),
{
    let mut out: Vec<u8> = Vec::new();
    push_canonical(&mut out, v);
    assert(out@ =~= canonical_form(v@));
    out
}

// ------------------------------------------------------------- merging

/// Whether a dictionary says that it has the given type.
pub open spec fn typed(d: object::DictView, name: Seq<char>) -> bool {
    object::lookup(d, bytes::text("Type"@)) == Some(ValueView::Name(bytes::text(name)))
}

fn has_type(d: &Dict, name: &str) -> (r: bool)
    ensures
        r == typed(d@, name@),
{
    match d.get("Type".as_bytes()) {
        Some(v) => v.is_name(name),
        None => false,
    }
}

/// Objects whose identity carries no meaning.
pub open spec fn may_merge(v: ValueView) -> bool {
    match v {
        ValueView::Stream(d, _) => !typed(d, "ObjStm"@) && !typed(d, "XRef"@),
        ValueView::Dictionary(d) => !typed(d, "Page"@) && !typed(d, "Pages"@) && !typed(
            d,
            "Catalog"@,
        ) && !typed(d, "Annot"@) && object::lookup(d, bytes::text("Parent"@)) is None
            && object::lookup(d, bytes::text("Kids"@)) is None && object::lookup(
            d,
            bytes::text("P"@),
        ) is None,
        _ => false,
    }
}

fn eligible(v: &Value) -> (r: bool)
    ensures
        r == may_merge(v@),
{
    match v {
        Value::Stream(s) => !has_type(&s.dict, "ObjStm") && !has_type(&s.dict, "XRef"),
        Value::Dictionary(d) => !has_type(d, "Page") && !has_type(d, "Pages") && !has_type(
            d,
            "Catalog",
        ) && !has_type(d, "Annot") && !d.has("Parent".as_bytes()) && !d.has("Kids".as_bytes())
            && !d.has("P".as_bytes()),
        _ => false,
    }
}

/// Two objects that are merged into one.
pub open spec fn twins(t: document::TableView, i: int, j: int) -> bool {
    may_merge(t[i].1) && may_merge(t[j].1) && canonical_form(t[i].1) == canonical_form(t[j].1)
}

/// The first object from `j` on that object `i` is merged into, or `i`.
pub open spec fn survivor(t: document::TableView, i: int, j: int) -> int
    decreases i - j,
{
    if j >= i || twins(t, j, i) {
        if j < i {
            j
        } else {
            i
        }
    } else {
        survivor(t, i, j + 1)
    }
}

/// Which of the first `n` objects go, each with the one that stays for it.
pub open spec fn merged_pairs(t: document::TableView, n: int) -> Seq<(ObjectId, ObjectId)>
    decreases n,
{
    if n <= 0 {
        Seq::empty()
    } else {
        let keep = survivor(t, n - 1, 0);
        if keep < n - 1 {
            merged_pairs(t, n - 1).push((t[n - 1].0, t[keep].0))
        } else {
            merged_pairs(t, n - 1)
        }
    }
}

/// The survivor is the first twin.
proof fn lemma_survivor(t: document::TableView, i: int, j: int)
    requires
        0 <= j <= i,
    ensures
        j <= survivor(t, i, j) <= i,
        survivor(t, i, j) < i ==> twins(t, survivor(t, i, j), i),
        forall|k: int| j <= k < survivor(t, i, j) ==> !#[trigger] twins(t, k, i),
    decreases i - j,
{
    if j < i && !twins(t, j, i) {
        lemma_survivor(t, i, j + 1);
    }
}

proof fn lemma_survivor_is(t: document::TableView, i: int, keep: int)
    requires
        0 <= keep < i,
        twins(t, keep, i),
        forall|k: int| 0 <= k < keep ==> !#[trigger] twins(t, k, i),
    ensures
        survivor(t, i, 0) == keep,
{
    lemma_survivor(t, i, 0);
    let s = survivor(t, i, 0);
    if s < keep {
        assert(twins(t, s, i));
    } else if s > keep {
        assert(!twins(t, keep, i));
    }
}

/// An object that stays, by its canonical form.
struct Kept {
    form: Vec<u8>,
    at: usize,
}

/// The forms stand in order.
spec fn in_order(kept: Seq<Kept>) -> bool {
    forall|a: int, b: int|
        0 <= a < b < kept.len() ==> bytes::precedes(
            (#[trigger] kept[a]).form@,
            (#[trigger] kept[b]).form@,
        )
}

/// The first of the first `n` objects that has its form.
spec fn is_first(k: Kept, t: document::TableView, n: int) -> bool {
    k.at < n && may_merge(t[k.at as int].1) && canonical_form(t[k.at as int].1) == k.form@
        && forall|j: int| 0 <= j < k.at ==> !#[trigger] twins(t, j, k.at as int)
}

/// Whether a form is kept.
spec fn has_form(kept: Seq<Kept>, form: Seq<u8>) -> bool {
    exists|a: int| 0 <= a < kept.len() && (#[trigger] kept[a]).form@ == form
}

/// What stays of the first `n` objects, in the order of the forms.
spec fn kept_of(kept: Seq<Kept>, t: document::TableView, n: int) -> bool {
    &&& in_order(kept)
    &&& forall|a: int| 0 <= a < kept.len() ==> is_first(#[trigger] kept[a], t, n)
    &&& forall|i: int|
        0 <= i < n && may_merge((#[trigger] t[i]).1) ==> has_form(kept, canonical_form(t[i].1))
}

/// Where a form stands, or where it belongs.
fn find_kept(kept: &Vec<Kept>, form: &Vec<u8>) -> (r: (bool, usize))
    requires
        in_order(kept@),
    ensures
        r.1 <= kept@.len(),
        r.0 ==> r.1 < kept@.len() && kept@[r.1 as int].form@ == form@,
        !r.0 ==> forall|a: int|
            0 <= a < r.1 ==> bytes::precedes((#[trigger] kept@[a]).form@, form@),
        !r.0 ==> forall|a: int|
            r.1 <= a < kept@.len() ==> bytes::precedes(form@, (#[trigger] kept@[a]).form@),
{
    let mut low: usize = 0;
    let mut high: usize = kept.len();
    while low < high
        invariant
            low <= high <= kept@.len(),
            in_order(kept@),
            forall|a: int| 0 <= a < low ==> bytes::precedes((#[trigger] kept@[a]).form@, form@),
            forall|a: int|
                high <= a < kept@.len() ==> bytes::precedes(form@, (#[trigger] kept@[a]).form@),
        decreases high - low,
    {
        let mid = low + (high - low) / 2;
        if bytes::before(&kept[mid].form, form) {
            proof {
                assert forall|a: int| 0 <= a <= mid implies bytes::precedes(
                    (#[trigger] kept@[a]).form@,
                    form@,
                ) by {
                    if a < mid {
                        bytes::lemma_order_carries(
                            kept@[a].form@,
                            kept@[mid as int].form@,
                            form@,
                        );
                    }
                }
            }
            low = mid + 1;
        } else if bytes::before(form, &kept[mid].form) {
            proof {
                assert forall|a: int| mid <= a < kept@.len() implies bytes::precedes(
                    form@,
                    (#[trigger] kept@[a]).form@,
                ) by {
                    if mid < a {
                        bytes::lemma_order_carries(
                            form@,
                            kept@[mid as int].form@,
                            kept@[a].form@,
                        );
                    }
                }
            }
            high = mid;
        } else {
            proof {
                bytes::lemma_order(kept@[mid as int].form@, form@);
            }
            return (true, mid);
        }
    }
    (false, low)
}

/// The pairs stand in the order of the numbers that go.
proof fn lemma_pairs(t: document::TableView, n: int)
    requires
        document::ascending(t),
        0 <= n <= t.len(),
    ensures
        backend::pairs_ascend(merged_pairs(t, n)),
        merged_pairs(t, n).len() <= n,
        forall|k: int|
            0 <= k < merged_pairs(t, n).len() ==> exists|i: int|
                0 <= i < n && survivor(t, i, 0) < i && #[trigger] t[i].0 == (
                #[trigger] merged_pairs(t, n)[k]).0 && merged_pairs(t, n)[k].1 == t[survivor(
                    t,
                    i,
                    0,
                )].0,
    decreases n,
{
    if n > 0 {
        lemma_pairs(t, n - 1);
        let front = merged_pairs(t, n - 1);
        let pairs = merged_pairs(t, n);
        assert forall|a: int, b: int| 0 <= a < b < pairs.len() implies document::id_less(
            (#[trigger] pairs[a]).0,
            (#[trigger] pairs[b]).0,
        ) by {
            assert(pairs[a] == front[a]);
            if b < front.len() {
                assert(pairs[b] == front[b]);
            } else {
                let i = choose|i: int|
                    0 <= i < n - 1 && survivor(t, i, 0) < i && #[trigger] t[i].0 == front[a].0
                        && front[a].1 == t[survivor(t, i, 0)].0;
                assert(document::id_less(t[i].0, t[n - 1].0));
            }
        }
        assert forall|k: int| 0 <= k < pairs.len() implies exists|i: int|
            0 <= i < n && survivor(t, i, 0) < i && #[trigger] t[i].0 == (#[trigger] pairs[k]).0
                && pairs[k].1 == t[survivor(t, i, 0)].0 by {
            if k < front.len() {
                assert(pairs[k] == front[k]);
                let i = choose|i: int|
                    0 <= i < n - 1 && survivor(t, i, 0) < i && #[trigger] t[i].0 == front[k].0
                        && front[k].1 == t[survivor(t, i, 0)].0;
                assert(t[i].0 == pairs[k].0);
            } else {
                assert(t[n - 1].0 == pairs[k].0);
            }
        }
    }
}

fn find_pairs(doc: &Pdf) -> (r: Vec<(ObjectId, ObjectId)>)
    requires
        doc.wf(),
    ensures
        r@ == merged_pairs(doc@.objects, doc@.objects.len() as int),
{
    let ghost t = doc@.objects;
    let mut kept: Vec<Kept> = Vec::new();
    let mut pairs: Vec<(ObjectId, ObjectId)> = Vec::new();
    let mut i: usize = 0;
    while i < doc.objects.len()
        invariant
            i <= doc.objects@.len(),
            t == doc@.objects,
            kept_of(kept@, t, i as int),
            pairs@ == merged_pairs(t, i as int),
        decreases doc.objects@.len() - i,
    {
        assert(t[i as int] == (doc.objects@[i as int].0, doc.objects@[i as int].1@));
        proof {
            lemma_survivor(t, i as int, 0);
        }
        if eligible(&doc.objects[i].1) {
            let form = canonical(&doc.objects[i].1);
            let (found, at) = find_kept(&kept, &form);
            if found {
                let keep = kept[at].at;
                proof {
                    assert forall|k: int| 0 <= k < keep implies !#[trigger] twins(
                        t,
                        k,
                        i as int,
                    ) by {
                        assert(!twins(t, k, keep as int));
                    }
                    assert(twins(t, keep as int, i as int));
                    lemma_survivor_is(t, i as int, keep as int);
                }
                assert(t[keep as int].0 == doc.objects@[keep as int].0);
                pairs.push((doc.objects[i].0, doc.objects[keep].0));
                assert(has_form(kept@, canonical_form(t[i as int].1)));
                assert(kept_of(kept@, t, i + 1));
            } else {
                let ghost before = kept@;
                proof {
                    assert forall|k: int| 0 <= k < i implies !#[trigger] twins(
                        t,
                        k,
                        i as int,
                    ) by {
                        if twins(t, k, i as int) {
                            assert(may_merge(t[k].1));
                            assert(has_form(before, canonical_form(t[k].1)));
                            let a = choose|a: int|
                                0 <= a < before.len() && (#[trigger] before[a]).form@
                                    == canonical_form(t[k].1);
                            bytes::lemma_order(form@, form@);
                            assert(before[a].form@ == form@);
                        }
                    }
                    assert(survivor(t, i as int, 0) == i);
                }
                let entry = Kept { form, at: i };
                proof {
                    lemma_kept_insert(before, entry, t, i as int, at as int);
                }
                kept.insert(at, entry);
            }
        } else {
            assert(survivor(t, i as int, 0) == i) by {
                let k = survivor(t, i as int, 0);
                if k < i {
                    assert(twins(t, k, i as int));
                }
            }
            assert(kept_of(kept@, t, i + 1));
        }
        i += 1;
    }
    pairs
}

proof fn lemma_insert_in_order(before: Seq<Kept>, k: Kept, at: int)
    requires
        in_order(before),
        0 <= at <= before.len(),
        forall|a: int| 0 <= a < at ==> bytes::precedes((#[trigger] before[a]).form@, k.form@),
        forall|a: int|
            at <= a < before.len() ==> bytes::precedes(k.form@, (#[trigger] before[a]).form@),
    ensures
        in_order(before.insert(at, k)),
{
    let after = before.insert(at, k);
    assert forall|a: int, b: int| 0 <= a < b < after.len() implies bytes::precedes(
        (#[trigger] after[a]).form@,
        (#[trigger] after[b]).form@,
    ) by {
        if a == at {
            assert(after[b] == before[b - 1]);
        } else if b == at {
            assert(after[a] == before[a]);
        } else if b < at {
            assert(after[a] == before[a] && after[b] == before[b]);
        } else if a < at {
            assert(after[a] == before[a] && after[b] == before[b - 1]);
        } else {
            assert(after[a] == before[a - 1] && after[b] == before[b - 1]);
        }
    }
}

proof fn lemma_kept_insert(before: Seq<Kept>, k: Kept, t: document::TableView, i: int, at: int)
    requires
        kept_of(before, t, i),
        0 <= i < t.len(),
        0 <= at <= before.len(),
        k.at == i,
        is_first(k, t, i + 1),
        forall|a: int| 0 <= a < at ==> bytes::precedes((#[trigger] before[a]).form@, k.form@),
        forall|a: int|
            at <= a < before.len() ==> bytes::precedes(k.form@, (#[trigger] before[a]).form@),
    ensures
        kept_of(before.insert(at, k), t, i + 1),
{
    let after = before.insert(at, k);
    lemma_insert_in_order(before, k, at);
    assert forall|a: int| 0 <= a < after.len() implies is_first(#[trigger] after[a], t, i + 1) by {
        if a < at {
            assert(is_first(before[a], t, i));
        } else if a > at {
            assert(is_first(before[a - 1], t, i));
        }
    }
    assert forall|j: int| 0 <= j < i + 1 && may_merge((#[trigger] t[j]).1) implies has_form(
        after,
        canonical_form(t[j].1),
    ) by {
        if j < i {
            assert(has_form(before, canonical_form(t[j].1)));
            let a = choose|a: int|
                0 <= a < before.len() && (#[trigger] before[a]).form@ == canonical_form(t[j].1);
            if a < at {
                assert(after[a] == before[a]);
            } else {
                assert(after[a + 1] == before[a]);
            }
        } else {
            assert(after[at] == k);
        }
    }
}

/// Whether a number goes.
pub open spec fn goes(pairs: Seq<(ObjectId, ObjectId)>, id: ObjectId) -> bool {
    exists|i: int| 0 <= i < pairs.len() && (#[trigger] pairs[i]).0 == id
}

/// The objects that stay.
pub open spec fn staying(t: document::TableView, pairs: Seq<(ObjectId, ObjectId)>) -> document::TableView {
    t.filter(|e: (ObjectId, ValueView)| !goes(pairs, e.0))
}

/// A document after one pass of merging, and how many objects went.
pub open spec fn merge_once(doc: document::PdfView) -> (document::PdfView, int) {
    let pairs = merged_pairs(doc.objects, doc.objects.len() as int);
    if pairs.len() == 0 {
        (doc, 0)
    } else {
        let next = backend::repointed(doc, pairs);
        (
            document::PdfView { objects: staying(next.objects, pairs), ..next },
            pairs.len() as int,
        )
    }
}

/// A document after at most `passes` passes of merging, and how many objects
/// went.
pub open spec fn merged(doc: document::PdfView, passes: nat) -> (document::PdfView, int)
    decreases passes,
{
    if passes == 0 {
        (doc, 0)
    } else {
        let (next, n) = merge_once(doc);
        if n == 0 {
            (doc, 0)
        } else {
            let (last, more) = merged(next, (passes - 1) as nat);
            (last, n + more)
        }
    }
}

fn is_gone(pairs: &Vec<(ObjectId, ObjectId)>, id: ObjectId) -> (r: bool)
    requires
        backend::pairs_ascend(pairs@),
    ensures
        r == goes(pairs@, id),
{
    let mut low: usize = 0;
    let mut high: usize = pairs.len();
    while low < high
        invariant
            low <= high <= pairs@.len(),
            backend::pairs_ascend(pairs@),
            forall|k: int| 0 <= k < low ==> document::id_less((#[trigger] pairs@[k]).0, id),
            forall|k: int|
                high <= k < pairs@.len() ==> document::id_less(id, (#[trigger] pairs@[k]).0),
        decreases high - low,
    {
        let mid = low + (high - low) / 2;
        let from = pairs[mid].0;
        if document::id_before(from, id) {
            low = mid + 1;
        } else if document::id_before(id, from) {
            high = mid;
        } else {
            assert(pairs@[mid as int].0 == id);
            return true;
        }
    }
    false
}

pub(crate) fn drop_gone(doc: &mut Pdf, pairs: &Vec<(ObjectId, ObjectId)>)
    requires
        old(doc).wf(),
        backend::pairs_ascend(pairs@),
    ensures
        final(doc).wf(),
        final(doc)@ == (document::PdfView {
            objects: staying(old(doc)@.objects, pairs@),
            ..old(doc)@
        }),
        final(doc).encryption == old(doc).encryption,
{
    let ghost before = doc@;
    let ghost t = before.objects;
    let ghost keep = |e: (ObjectId, ValueView)| !goes(pairs@, e.0);
    let mut i: usize = 0;
    let ghost mut n: int = 0;
    proof {
        assert(t.take(0) =~= Seq::empty());
        reveal(Seq::filter);
        assert(doc@.objects =~= t.take(0).filter(keep) + t.skip(0));
    }
    while i < doc.objects.len()
        invariant
            0 <= n <= t.len(),
            backend::pairs_ascend(pairs@),
            keep == (|e: (ObjectId, ValueView)| !goes(pairs@, e.0)),
            i == t.take(n).filter(keep).len(),
            doc@.objects == t.take(n).filter(keep) + t.skip(n),
            doc@ == (document::PdfView { objects: doc@.objects, ..before }),
            doc.encryption == old(doc).encryption,
        decreases t.len() - n,
    {
        let ghost at = doc@.objects;
        assert(at[i as int] == t[n]);
        assert(at[i as int].0 == doc.objects@[i as int].0);
        proof {
            assert(t.take(n + 1) =~= t.take(n).push(t[n]));
            t.take(n).lemma_filter_push(t[n], keep);
        }
        if is_gone(pairs, doc.objects[i].0) {
            let _ = doc.objects.remove(i);
            assert(!keep(t[n]));
            assert(doc@.objects =~= at.remove(i as int));
            assert(doc@.objects =~= t.take(n + 1).filter(keep) + t.skip(n + 1));
        } else {
            assert(keep(t[n]));
            assert(doc@.objects =~= t.take(n + 1).filter(keep) + t.skip(n + 1));
            i += 1;
        }
        proof {
            n = n + 1;
        }
    }
    proof {
        assert(t.skip(n) =~= Seq::empty());
        assert(t.take(n) =~= t);
        assert(doc@.objects =~= t.filter(keep));
        lemma_filter_ascends(t, keep);
    }
}

/// Part of a table is in order as the whole is.
proof fn lemma_filter_ascends(
    t: document::TableView,
    keep: spec_fn((ObjectId, ValueView)) -> bool,
)
    requires
        document::ascending(t),
    ensures
        document::ascending(t.filter(keep)),
        forall|k: int|
            0 <= k < t.filter(keep).len() ==> exists|i: int|
                0 <= i < t.len() && #[trigger] t[i] == #[trigger] t.filter(keep)[k],
    decreases t.len(),
{
    reveal(Seq::filter);
    if t.len() > 0 {
        let front = t.drop_last();
        assert forall|a: int, b: int| 0 <= a < b < front.len() implies document::id_less(
            (#[trigger] front[a]).0,
            (#[trigger] front[b]).0,
        ) by {
            assert(document::id_less(t[a].0, t[b].0));
        }
        lemma_filter_ascends(front, keep);
        let f = front.filter(keep);
        let whole = t.filter(keep);
        assert forall|a: int, b: int| 0 <= a < b < whole.len() implies document::id_less(
            (#[trigger] whole[a]).0,
            (#[trigger] whole[b]).0,
        ) by {
            assert(whole[a] == f[a]);
            if b < f.len() {
                assert(whole[b] == f[b]);
            } else {
                let i = choose|i: int| 0 <= i < front.len() && #[trigger] front[i] == f[a];
                assert(document::id_less(t[i].0, t[t.len() - 1].0));
            }
        }
        assert forall|k: int| 0 <= k < whole.len() implies exists|i: int|
            0 <= i < t.len() && #[trigger] t[i] == #[trigger] whole[k] by {
            if k < f.len() {
                let i = choose|i: int| 0 <= i < front.len() && #[trigger] front[i] == f[k];
                assert(t[i] == whole[k]);
            } else {
                assert(t[t.len() - 1] == whole[k]);
            }
        }
    }
}

/// Whatever a turned object refers to, some reference leads there.
proof fn lemma_turned_refers(
    a: ValueView,
    b: ValueView,
    pairs: Seq<(ObjectId, ObjectId)>,
    id: ObjectId,
)
    requires
        backend::turned(a, b, pairs),
        backend::refers(b, id),
    ensures
        exists|from: ObjectId| backend::leads_to(pairs, from, id),
    decreases a, 1int,
{
    match (a, b) {
        (ValueView::Reference(x), ValueView::Reference(_)) => {
            assert(backend::leads_to(pairs, x, id));
        },
        (ValueView::Array(p), ValueView::Array(q)) => {
            let i = choose|i: int|
                0 <= i < q.len() && backend::refers(#[trigger] q[i], id);
            assert(backend::turned(p[i], q[i], pairs));
            lemma_turned_refers(p[i], q[i], pairs, id);
        },
        (ValueView::Dictionary(d), ValueView::Dictionary(e)) => {
            lemma_turned_dict_refers(d, e, pairs, id);
        },
        (ValueView::Stream(d, _), ValueView::Stream(e, _)) => {
            lemma_turned_dict_refers(d, e, pairs, id);
        },
        _ => {},
    }
}

proof fn lemma_turned_dict_refers(
    d: object::DictView,
    e: object::DictView,
    pairs: Seq<(ObjectId, ObjectId)>,
    id: ObjectId,
)
    requires
        backend::turned_dict(d, e, pairs),
        backend::dict_refers(e, id),
    ensures
        exists|from: ObjectId| backend::leads_to(pairs, from, id),
    decreases d, 0int,
{
    let i = choose|i: int|
        0 <= i < e.len() && backend::refers((#[trigger] e[i]).1, id) && backend::entry_counts(
            e,
            i,
        );
    assert(d[i].0 == e[i].0);
    lemma_turned_refers(d[i].1, e[i].1, pairs, id);
}

/// What stays for others does not go itself.
proof fn lemma_survivors_stay(t: document::TableView, k: int)
    requires
        document::ascending(t),
        0 <= k < merged_pairs(t, t.len() as int).len(),
    ensures
        !goes(merged_pairs(t, t.len() as int), merged_pairs(t, t.len() as int)[k].1),
{
    let n = t.len() as int;
    let pairs = merged_pairs(t, n);
    lemma_pairs(t, n);
    let i = choose|i: int|
        0 <= i < n && survivor(t, i, 0) < i && #[trigger] t[i].0 == pairs[k].0 && pairs[k].1
            == t[survivor(t, i, 0)].0;
    let s = survivor(t, i, 0);
    lemma_survivor(t, i, 0);
    if goes(pairs, pairs[k].1) {
        let m = choose|m: int| 0 <= m < pairs.len() && (#[trigger] pairs[m]).0 == pairs[k].1;
        let j = choose|j: int|
            0 <= j < n && survivor(t, j, 0) < j && #[trigger] t[j].0 == pairs[m].0 && pairs[m].1
                == t[survivor(t, j, 0)].0;
        if s < j {
            assert(document::id_less(t[s].0, t[j].0));
        } else if j < s {
            assert(document::id_less(t[j].0, t[s].0));
        }
        assert(j == s);
        lemma_survivor(t, s, 0);
        let first = survivor(t, s, 0);
        assert(twins(t, first, i));
    }
}

/// After the references were turned, nothing that goes can be reached.
proof fn lemma_unreached(
    before: document::PdfView,
    after: document::PdfView,
    id: ObjectId,
)
    requires
        document::ascending(before.objects),
        document::ascending(after.objects),
        backend::turned_doc(
            before,
            after,
            merged_pairs(before.objects, before.objects.len() as int),
        ),
        forall|i: int|
            0 <= i < before.objects.len() ==> (#[trigger] after.objects[i]).0
                == before.objects[i].0,
        goes(merged_pairs(before.objects, before.objects.len() as int), id),
    ensures
        !backend::reached(after, id),
{
    let t = before.objects;
    let pairs = merged_pairs(t, t.len() as int);
    if backend::reached(after, id) {
        let way = choose|way: Seq<ObjectId>| #[trigger]
            backend::is_trail(after, way) && way.last() == id;
        let n = way.len() - 1;
        if n == 0 {
            lemma_turned_dict_refers(before.trailer, after.trailer, pairs, id);
        } else {
            let from = way[n - 1];
            assert(way[n] == id);
            assert(backend::leads(after.objects, way[n - 1], way[n]));
            let front = way.take(n);
            assert(backend::is_trail(after, front)) by {
                assert forall|k: int| 0 < k < front.len() implies backend::leads(
                    after.objects,
                    front[k - 1],
                    #[trigger] front[k],
                ) by {
                    assert(backend::leads(after.objects, way[k - 1], way[k]));
                }
            }
            assert(front.last() == from);
            assert(backend::reached(after, from));
            let i = choose|i: int| document::stands_at(after.objects, from, i);
            document::lemma_find(after.objects, from, i);
            assert(after.objects[i].0 == t[i].0);
            lemma_turned_refers(t[i].1, after.objects[i].1, pairs, id);
        }
        let from = choose|from: ObjectId| backend::leads_to(pairs, from, id);
        if exists|i: int| 0 <= i < pairs.len() && #[trigger] pairs[i] == (from, id) {
            let k = choose|i: int| 0 <= i < pairs.len() && #[trigger] pairs[i] == (from, id);
            lemma_survivors_stay(t, k);
        }
    }
}

/// What can be reached after objects were dropped could be reached before.
proof fn lemma_reached_before(
    doc: document::PdfView,
    pairs: Seq<(ObjectId, ObjectId)>,
    id: ObjectId,
)
    requires
        document::ascending(doc.objects),
        backend::reached(
            document::PdfView { objects: staying(doc.objects, pairs), ..doc },
            id,
        ),
    ensures
        backend::reached(doc, id),
{
    let t = doc.objects;
    let keep = |e: (ObjectId, ValueView)| !goes(pairs, e.0);
    let kept = document::PdfView { objects: staying(t, pairs), ..doc };
    lemma_filter_ascends(t, keep);
    let way = choose|way: Seq<ObjectId>| #[trigger]
        backend::is_trail(kept, way) && way.last() == id;
    assert forall|k: int| 0 < k < way.len() implies backend::leads(t, way[k - 1], #[trigger] way[k]) by {
        let from = way[k - 1];
        assert(backend::leads(kept.objects, way[k - 1], way[k]));
        let j = choose|j: int| document::stands_at(kept.objects, from, j);
        document::lemma_find(kept.objects, from, j);
        let i = choose|i: int| 0 <= i < t.len() && #[trigger] t[i] == t.filter(keep)[j];
        assert(document::stands_at(t, from, i));
        document::lemma_find(t, from, i);
    }
    assert(backend::is_trail(doc, way));
}

/// An object goes where another stays for it.
proof fn lemma_goes(t: document::TableView, i: int)
    requires
        document::ascending(t),
        0 <= i < t.len(),
    ensures
        goes(merged_pairs(t, t.len() as int), t[i].0) <==> survivor(t, i, 0) < i,
{
    let n = t.len() as int;
    let pairs = merged_pairs(t, n);
    lemma_pairs(t, n);
    if goes(pairs, t[i].0) {
        let k = choose|k: int| 0 <= k < pairs.len() && (#[trigger] pairs[k]).0 == t[i].0;
        let j = choose|j: int|
            0 <= j < n && survivor(t, j, 0) < j && #[trigger] t[j].0 == pairs[k].0 && pairs[k].1
                == t[survivor(t, j, 0)].0;
        if i < j {
            assert(document::id_less(t[i].0, t[j].0));
        } else if j < i {
            assert(document::id_less(t[j].0, t[i].0));
        }
    }
    if survivor(t, i, 0) < i {
        lemma_pair_of(t, i, n);
    }
}

proof fn lemma_pair_of(t: document::TableView, i: int, n: int)
    requires
        0 <= i < n <= t.len(),
        survivor(t, i, 0) < i,
    ensures
        goes(merged_pairs(t, n), t[i].0),
    decreases n,
{
    let pairs = merged_pairs(t, n);
    if i == n - 1 {
        assert(pairs[pairs.len() - 1].0 == t[i].0);
    } else {
        lemma_pair_of(t, i, n - 1);
        let front = merged_pairs(t, n - 1);
        let k = choose|k: int| 0 <= k < front.len() && (#[trigger] front[k]).0 == t[i].0;
        assert(pairs[k] == front[k]);
    }
}

/// As many objects go as there are pairs.
proof fn lemma_staying_count(t: document::TableView, u: document::TableView, n: int)
    requires
        document::ascending(t),
        u.len() == t.len(),
        forall|i: int| 0 <= i < t.len() ==> (#[trigger] u[i]).0 == t[i].0,
        0 <= n <= t.len(),
    ensures
        staying(u.take(n), merged_pairs(t, t.len() as int)).len() == n - merged_pairs(t, n).len(),
    decreases n,
{
    let pairs = merged_pairs(t, t.len() as int);
    let keep = |e: (ObjectId, ValueView)| !goes(pairs, e.0);
    if n > 0 {
        lemma_staying_count(t, u, n - 1);
        assert(u.take(n) =~= u.take(n - 1).push(u[n - 1]));
        u.take(n - 1).lemma_filter_push(u[n - 1], keep);
        lemma_goes(t, n - 1);
        lemma_survivor(t, n - 1, 0);
        assert(u[n - 1].0 == t[n - 1].0);
    } else {
        reveal(Seq::filter);
    }
}

/// One pass of merging: duplicates go, and references to them lead to what
/// stays. Returns the number of objects removed.
pub fn merge_pass(doc: &mut Pdf) -> (r: usize)
    requires
        old(doc).wf(),
    ensures
        final(doc).wf(),
        (final(doc)@, r as int) == merge_once(old(doc)@),
        final(doc)@.objects.len() == old(doc)@.objects.len() - r,
        final(doc).encryption == old(doc).encryption,
        // No object that went can be reached from the trailer.
        backend::tidy(old(doc)@) ==> forall|id: ObjectId|
            goes(merged_pairs(old(doc)@.objects, old(doc)@.objects.len() as int), id)
                ==> !#[trigger] backend::reached(final(doc)@, id),
{
    let ghost before = doc@;
    let ghost t = doc@.objects;
    let pairs = find_pairs(doc);
    proof {
        lemma_pairs(t, t.len() as int);
    }
    if pairs.len() == 0 {
        return 0;
    }
    backend::repoint(doc, &pairs);
    proof {
        assert(document::ascending(doc@.objects)) by {
            assert forall|a: int, b: int| 0 <= a < b < doc@.objects.len() implies document::id_less(
                (#[trigger] doc@.objects[a]).0,
                (#[trigger] doc@.objects[b]).0,
            ) by {
                assert(document::id_less(t[a].0, t[b].0));
            }
        }
    }
    let ghost after = doc@;
    drop_gone(doc, &pairs);
    proof {
        lemma_staying_count(t, after.objects, t.len() as int);
        assert(after.objects.take(t.len() as int) =~= after.objects);
        if backend::tidy(before) {
            assert forall|id: ObjectId| goes(pairs@, id) implies !#[trigger] backend::reached(
                doc@,
                id,
            ) by {
                lemma_unreached(before, after, id);
                if backend::reached(doc@, id) {
                    lemma_reached_before(after, pairs@, id);
                }
            }
        }
    }
    pairs.len()
}

/// Whether no two objects are left to merge: a pass finds nothing.
pub open spec fn nothing_to_merge(doc: document::PdfView) -> bool {
    merged_pairs(doc.objects, doc.objects.len() as int).len() == 0
}

/// Merges duplicate objects until a pass finds nothing. Returns the number of
/// objects removed.
pub fn merge_duplicates(doc: &mut Pdf) -> (r: usize)
    requires
        old(doc).wf(),
    ensures
        final(doc).wf(),
        (final(doc)@, r as int) == merged(old(doc)@, old(doc)@.objects.len()),
        final(doc)@.objects.len() == old(doc)@.objects.len() - r,
        // Merging again removes nothing.
        nothing_to_merge(final(doc)@),
        final(doc).encryption == old(doc).encryption,
{
    let ghost start = doc@;
    let ghost all = doc@.objects.len();
    let ghost mut fuel: nat = all;
    let mut total: usize = 0;
    let count: usize = doc.objects.len();
    assert(all == count);
    loop
        invariant
            doc@.objects.len() + total == all,
            doc@.objects.len() <= fuel,
            all <= usize::MAX,
            doc.wf(),
            doc.encryption == old(doc).encryption,
            start == old(doc)@,
            all == start.objects.len(),
            merged(start, all) == ({
                let (last, more) = merged(doc@, fuel);
                (last, total + more)
            }),
        decreases doc@.objects.len(),
    {
        let n = merge_pass(doc);
        if n == 0 {
            return total;
        }
        total = total + n;
        proof {
            fuel = (fuel - 1) as nat;
        }
    }
}

// ------------------------------------------------------------- laws

/// Objects that no reader tells apart: equal but for the order in which
/// dictionary entries stand and the form in which strings are written.
pub open spec fn alike(a: ValueView, b: ValueView) -> bool
    decreases a, 1int,
{
    match (a, b) {
        (ValueView::Array(p), ValueView::Array(q)) => p.len() == q.len() && forall|i: int|
            0 <= i < p.len() ==> alike(#[trigger] p[i], q[i]),
        (ValueView::Dictionary(d), ValueView::Dictionary(e)) => alike_dicts(d, e),
        (ValueView::Stream(d, c), ValueView::Stream(e, f)) => alike_dicts(d, e) && c == f,
        (ValueView::String(p, _), ValueView::String(q, _)) => p == q,
        _ => a == b,
    }
}

/// Dictionaries that no reader tells apart.
pub open spec fn alike_dicts(d: object::DictView, e: object::DictView) -> bool
    decreases d, 0int,
{
    d.len() == e.len() && forall|i: int|
        0 <= i < d.len() ==> holds_alike(e, (#[trigger] d[i]).0, d[i].1)
}

/// Whether a dictionary holds at a key what no reader tells from a value.
pub open spec fn holds_alike(e: object::DictView, key: Seq<u8>, v: ValueView) -> bool
    decreases v, 2int,
{
    exists|j: int| 0 <= j < e.len() && (#[trigger] e[j]).0 == key && alike(v, e[j].1)
}

/// Every run of bytes in an object is short enough for its length to be
/// written in four bytes.
pub open spec fn short(v: ValueView) -> bool
    decreases v,
{
    match v {
        ValueView::Real(b) => b.len() < 0x1_0000_0000,
        ValueView::Name(b) => b.len() < 0x1_0000_0000,
        ValueView::String(b, _) => b.len() < 0x1_0000_0000,
        ValueView::Array(items) => forall|i: int|
            0 <= i < items.len() ==> short(#[trigger] items[i]),
        ValueView::Dictionary(d) => short_dict(d),
        ValueView::Stream(d, c) => short_dict(d) && c.len() < 0x1_0000_0000,
        _ => true,
    }
}

/// Every run of bytes in a dictionary is short.
pub open spec fn short_dict(d: object::DictView) -> bool
    decreases d,
{
    forall|i: int|
        0 <= i < d.len() ==> (#[trigger] d[i]).0.len() < 0x1_0000_0000 && short(d[i].1)
}

/// What follows an object's form is not a stream's content.
spec fn no_content(x: Seq<u8>) -> bool {
    x.len() == 0 || x[0] != 'S' as u8
}

proof fn lemma_cut(p: Seq<u8>, x: Seq<u8>, q: Seq<u8>, y: Seq<u8>)
    requires
        p + x == q + y,
        p.len() == q.len(),
    ensures
        p == q,
        x == y,
{
    let whole = p + x;
    assert(p =~= whole.take(p.len() as int));
    assert(q =~= whole.take(p.len() as int));
    assert(x =~= whole.skip(p.len() as int));
    assert(y =~= whole.skip(p.len() as int));
}

proof fn lemma_le_len(n: int, k: nat)
    ensures
        le_bytes(n, k).len() == k,
    decreases k,
{
    if k > 0 {
        lemma_le_len(n / 256, (k - 1) as nat);
    }
}

/// The number that bytes spell, the lowest first.
spec fn le_value(b: Seq<u8>) -> int
    decreases b.len(),
{
    if b.len() == 0 {
        0
    } else {
        b[0] + 256 * le_value(b.skip(1))
    }
}

/// A bound for numbers of `k` bytes.
spec fn le_bound(k: nat) -> int
    decreases k,
{
    if k == 0 {
        1
    } else {
        256 * le_bound((k - 1) as nat)
    }
}

proof fn lemma_le_value(n: int, k: nat)
    requires
        0 <= n < le_bound(k),
    ensures
        le_value(le_bytes(n, k)) == n,
    decreases k,
{
    if k > 0 {
        let b = le_bytes(n, k);
        lemma_le_value(n / 256, (k - 1) as nat);
        assert(b.skip(1) =~= le_bytes(n / 256, (k - 1) as nat));
        assert(b[0] == n % 256);
    }
}

proof fn lemma_bounds()
    ensures
        le_bound(2) == 0x1_0000,
        le_bound(4) == 0x1_0000_0000,
        le_bound(8) == 0x1_0000_0000_0000_0000,
{
    reveal_with_fuel(le_bound, 9);
}

proof fn lemma_tagged(tag: char, p: Seq<u8>, x: Seq<u8>, q: Seq<u8>, y: Seq<u8>)
    requires
        tagged(tag, p) + x == tagged(tag, q) + y,
        p.len() < 0x1_0000_0000,
        q.len() < 0x1_0000_0000,
    ensures
        p == q,
        x == y,
{
    lemma_bounds();
    lemma_le_len(p.len() as int, 4);
    lemma_le_len(q.len() as int, 4);
    let head = seq![tag as u8] + le_bytes(p.len() as int, 4);
    let other = seq![tag as u8] + le_bytes(q.len() as int, 4);
    assert(tagged(tag, p) + x =~= head + (p + x));
    assert(tagged(tag, q) + y =~= other + (q + y));
    lemma_cut(head, p + x, other, q + y);
    lemma_cut(
        seq![tag as u8],
        le_bytes(p.len() as int, 4),
        seq![tag as u8],
        le_bytes(q.len() as int, 4),
    );
    lemma_le_value(p.len() as int, 4);
    lemma_le_value(q.len() as int, 4);
    lemma_cut(p, x, q, y);
}

/// The first byte of a form.
spec fn tag_of(v: ValueView) -> u8 {
    match v {
        ValueView::Null => 'n' as u8,
        ValueView::Boolean(_) => 'b' as u8,
        ValueView::Integer(_) => 'i' as u8,
        ValueView::Real(_) => 'r' as u8,
        ValueView::Name(_) => '/' as u8,
        ValueView::String(..) => '(' as u8,
        ValueView::Reference(_) => 'R' as u8,
        ValueView::Array(_) => '[' as u8,
        ValueView::Dictionary(_) => '<' as u8,
        ValueView::Stream(..) => '<' as u8,
    }
}

proof fn lemma_tag(v: ValueView)
    ensures
        canonical_form(v).len() > 0,
        canonical_form(v)[0] == tag_of(v),
{
}

/// The forms of the items from `i` on.
spec fn rest_form(items: Seq<ValueView>, i: int) -> Seq<u8>
    decreases items.len() - i,
{
    if i < 0 || i >= items.len() {
        Seq::empty()
    } else {
        canonical_form(items[i]) + rest_form(items, i + 1)
    }
}

proof fn lemma_rest_form(items: Seq<ValueView>, i: int)
    requires
        0 <= i <= items.len(),
    ensures
        items_form(items, items.len() as int) == items_form(items, i) + rest_form(items, i),
    decreases items.len() - i,
{
    if i < items.len() {
        lemma_rest_form(items, i + 1);
        assert(items_form(items, i) + rest_form(items, i) =~= items_form(items, i + 1)
            + rest_form(items, i + 1));
    } else {
        assert(items_form(items, i) + rest_form(items, i) =~= items_form(items, i));
    }
}

/// The entries from `i` on.
spec fn rest_out(w: Seq<Written>, i: int) -> Seq<u8>
    decreases w.len() - i,
{
    if i < 0 || i >= w.len() {
        Seq::empty()
    } else {
        tagged('/', w[i].0) + w[i].1 + rest_out(w, i + 1)
    }
}

proof fn lemma_rest_out(w: Seq<Written>, i: int)
    requires
        0 <= i <= w.len(),
    ensures
        written_out(w) == written_out(w.take(i)) + rest_out(w, i),
    decreases w.len() - i,
{
    if i < w.len() {
        lemma_rest_out(w, i + 1);
        assert(w.take(i + 1).drop_last() =~= w.take(i));
        assert(w.take(i + 1).last() == w[i]);
        assert(written_out(w.take(i)) + rest_out(w, i) =~= written_out(w.take(i + 1)) + rest_out(
            w,
            i + 1,
        ));
    } else {
        assert(w.take(i) =~= w);
        assert(written_out(w) + rest_out(w, i) =~= written_out(w));
    }
}

/// Ordering entries keeps them all and adds none.
proof fn lemma_by_key(w: Seq<Written>)
    ensures
        by_key(w).len() == w.len(),
        forall|p: Written| #[trigger] by_key(w).contains(p) <==> w.contains(p),
    decreases w.len(),
{
    if w.len() > 0 {
        let front = w.drop_last();
        let f = by_key(front);
        let all = by_key(w);
        lemma_by_key(front);
        lemma_slot(f, w.last().0);
        let at = slot_of(f, w.last().0);
        assert forall|p: Written| #[trigger] all.contains(p) implies w.contains(p) by {
            let i = choose|i: int| 0 <= i < all.len() && all[i] == p;
            if i == at {
                assert(w[w.len() - 1] == p);
            } else {
                let k = if i < at {
                    i
                } else {
                    i - 1
                };
                assert(f[k] == p);
                assert(f.contains(p));
                let j = choose|j: int| 0 <= j < front.len() && front[j] == p;
                assert(w[j] == p);
            }
        }
        assert forall|p: Written| w.contains(p) implies #[trigger] all.contains(p) by {
            let i = choose|i: int| 0 <= i < w.len() && w[i] == p;
            if i == w.len() - 1 {
                assert(all[at] == p);
            } else {
                assert(front[i] == p);
                assert(front.contains(p));
                assert(f.contains(p));
                let k = choose|k: int| 0 <= k < f.len() && f[k] == p;
                if k < at {
                    assert(all[k] == p);
                } else {
                    assert(all[k + 1] == p);
                }
            }
        }
    }
}

/// An ordered entry is an entry of the dictionary.
proof fn lemma_written(d: object::DictView, i: int) -> (k: int)
    requires
        0 <= i < by_key(written(d)).len(),
    ensures
        0 <= k < d.len(),
        by_key(written(d))[i] == (d[k].0, canonical_form(d[k].1)),
{
    lemma_by_key(written(d));
    let p = by_key(written(d))[i];
    assert(by_key(written(d)).contains(p));
    let k = choose|k: int| 0 <= k < written(d).len() && written(d)[k] == p;
    k
}

/// Objects without parts: their forms tell them apart.
proof fn lemma_unique_plain(a: ValueView, x: Seq<u8>, b: ValueView, y: Seq<u8>)
    requires
        canonical_form(a) + x == canonical_form(b) + y,
        short(a),
        short(b),
        tag_of(a) == tag_of(b),
        !(a is Array) && !(a is Dictionary) && !(a is Stream),
    ensures
        alike(a, b),
        canonical_form(a) == canonical_form(b),
        x == y,
{
    match a {
        ValueView::Null => lemma_cut(canonical_form(a), x, canonical_form(b), y),
        ValueView::Boolean(p) => {
            lemma_cut(canonical_form(a), x, canonical_form(b), y);
            assert(canonical_form(a)[1] == canonical_form(b)[1]);
        },
        ValueView::Integer(p) => {
            let q = b->Integer_0;
            lemma_le_len(bits_of(p), 8);
            lemma_le_len(bits_of(q), 8);
            lemma_cut(canonical_form(a), x, canonical_form(b), y);
            lemma_cut(
                seq!['i' as u8],
                le_bytes(bits_of(p), 8),
                seq!['i' as u8],
                le_bytes(bits_of(q), 8),
            );
            lemma_bounds();
            lemma_le_value(bits_of(p), 8);
            lemma_le_value(bits_of(q), 8);
        },
        ValueView::Real(p) => lemma_tagged('r', p, x, b->Real_0, y),
        ValueView::Name(p) => lemma_tagged('/', p, x, b->Name_0, y),
        ValueView::String(p, _) => lemma_tagged('(', p, x, b->String_0, y),
        ValueView::Reference(p) => {
            let q = b->Reference_0;
            lemma_le_len(p.0 as int, 4);
            lemma_le_len(q.0 as int, 4);
            lemma_le_len(p.1 as int, 2);
            lemma_le_len(q.1 as int, 2);
            lemma_cut(canonical_form(a), x, canonical_form(b), y);
            lemma_cut(
                seq!['R' as u8] + le_bytes(p.0 as int, 4),
                le_bytes(p.1 as int, 2),
                seq!['R' as u8] + le_bytes(q.0 as int, 4),
                le_bytes(q.1 as int, 2),
            );
            lemma_cut(
                seq!['R' as u8],
                le_bytes(p.0 as int, 4),
                seq!['R' as u8],
                le_bytes(q.0 as int, 4),
            );
            lemma_bounds();
            lemma_le_value(p.0 as int, 4);
            lemma_le_value(q.0 as int, 4);
            lemma_le_value(p.1 as int, 2);
            lemma_le_value(q.1 as int, 2);
        },
        _ => {},
    }
}

/// The form of an array, from its first item on.
proof fn lemma_array_form(p: Seq<ValueView>, x: Seq<u8>)
    ensures
        canonical_form(ValueView::Array(p)) == seq!['[' as u8] + rest_form(p, 0) + seq![']' as u8],
        canonical_form(ValueView::Array(p)) + x == seq!['[' as u8] + (rest_form(p, 0) + seq![
            ']' as u8,
        ] + x),
{
    lemma_rest_form(p, 0);
    assert(items_form(p, p.len() as int) =~= rest_form(p, 0));
    assert(canonical_form(ValueView::Array(p)) + x =~= seq!['[' as u8] + (rest_form(p, 0) + seq![
        ']' as u8,
    ] + x));
}

/// What a form is followed by can be told from the form: two objects whose
/// forms start the same bytes are alike, and the same bytes follow them.
proof fn lemma_unique(a: ValueView, x: Seq<u8>, b: ValueView, y: Seq<u8>)
    requires
        canonical_form(a) + x == canonical_form(b) + y,
        short(a),
        short(b),
        no_content(x),
        no_content(y),
    ensures
        alike(a, b),
        canonical_form(a) == canonical_form(b),
        x == y,
    decreases a, 2int, 0int,
{
    lemma_tag(a);
    lemma_tag(b);
    let whole = canonical_form(a) + x;
    assert(whole[0] == tag_of(a));
    assert(whole[0] == tag_of(b));
    match a {
        ValueView::Array(p) => {
            let q = b->Array_0;
            lemma_unique_arrays(p, x, q, y);
        },
        ValueView::Dictionary(d) => {
            match b {
                ValueView::Dictionary(e) => lemma_unique_dicts(d, x, e, y),
                ValueView::Stream(e, f) => {
                    let rest = tagged('S', f) + y;
                    assert(canonical_form(b) + y =~= dict_form(e) + rest);
                    assert(rest[0] == 'S' as u8);
                    lemma_unique_dicts(d, x, e, rest);
                },
                _ => {},
            }
        },
        ValueView::Stream(d, c) => {
            let rest = tagged('S', c) + x;
            assert(canonical_form(a) + x =~= dict_form(d) + rest);
            assert(rest[0] == 'S' as u8);
            match b {
                ValueView::Dictionary(e) => lemma_unique_dicts(d, rest, e, y),
                ValueView::Stream(e, f) => {
                    let more = tagged('S', f) + y;
                    assert(canonical_form(b) + y =~= dict_form(e) + more);
                    lemma_unique_dicts(d, rest, e, more);
                    lemma_tagged('S', c, x, f, y);
                },
                _ => {},
            }
        },
        _ => lemma_unique_plain(a, x, b, y),
    }
}

proof fn lemma_unique_arrays(p: Seq<ValueView>, x: Seq<u8>, q: Seq<ValueView>, y: Seq<u8>)
    requires
        canonical_form(ValueView::Array(p)) + x == canonical_form(ValueView::Array(q)) + y,
        short(ValueView::Array(p)),
        short(ValueView::Array(q)),
    ensures
        alike(ValueView::Array(p), ValueView::Array(q)),
        canonical_form(ValueView::Array(p)) == canonical_form(ValueView::Array(q)),
        x == y,
    decreases p, 2int, 0int,
{
    let end = seq![']' as u8];
    lemma_array_form(p, x);
    lemma_array_form(q, y);
    lemma_cut(
        seq!['[' as u8],
        rest_form(p, 0) + end + x,
        seq!['[' as u8],
        rest_form(q, 0) + end + y,
    );
    assert forall|k: int| 0 <= k < p.len() implies short(#[trigger] p[k]) by {}
    assert forall|k: int| 0 <= k < q.len() implies short(#[trigger] q[k]) by {}
    lemma_unique_items(p, x, q, y, 0);
    assert forall|i: int| 0 <= i < p.len() implies alike(#[trigger] p[i], q[i]) by {
        assert(canonical_form(p[i]) == canonical_form(q[i]));
        lemma_unique(p[i], Seq::empty(), q[i], Seq::empty());
    }
}

proof fn lemma_unique_items(
    p: Seq<ValueView>,
    x: Seq<u8>,
    q: Seq<ValueView>,
    y: Seq<u8>,
    i: int,
)
    requires
        0 <= i <= p.len(),
        i <= q.len(),
        rest_form(p, i) + seq![']' as u8] + x == rest_form(q, i) + seq![']' as u8] + y,
        forall|k: int| 0 <= k < p.len() ==> short(#[trigger] p[k]),
        forall|k: int| 0 <= k < q.len() ==> short(#[trigger] q[k]),
    ensures
        p.len() == q.len(),
        x == y,
        rest_form(p, i) == rest_form(q, i),
        forall|k: int|
            i <= k < p.len() ==> canonical_form(#[trigger] p[k]) == canonical_form(q[k]),
    decreases p, 1int, p.len() - i,
{
    let end = seq![']' as u8];
    let left = rest_form(p, i) + end + x;
    let right = rest_form(q, i) + end + y;
    if i == p.len() {
        assert(left[0] == ']' as u8);
        if i < q.len() {
            lemma_tag(q[i]);
            assert(right[0] == tag_of(q[i]));
        } else {
            lemma_cut(rest_form(p, i) + end, x, rest_form(q, i) + end, y);
        }
    } else {
        lemma_tag(p[i]);
        assert(left[0] == tag_of(p[i]));
        if i == q.len() {
            assert(right[0] == ']' as u8);
        } else {
            let l = rest_form(p, i + 1) + end + x;
            let r = rest_form(q, i + 1) + end + y;
            assert(left =~= canonical_form(p[i]) + l);
            assert(right =~= canonical_form(q[i]) + r);
            if i + 1 < p.len() {
                lemma_tag(p[i + 1]);
                assert(l[0] == tag_of(p[i + 1]));
            } else {
                assert(l[0] == ']' as u8);
            }
            if i + 1 < q.len() {
                lemma_tag(q[i + 1]);
                assert(r[0] == tag_of(q[i + 1]));
            } else {
                assert(r[0] == ']' as u8);
            }
            lemma_unique(p[i], l, q[i], r);
            lemma_unique_items(p, x, q, y, i + 1);
        }
    }
}

proof fn lemma_unique_entries(
    d: object::DictView,
    x: Seq<u8>,
    e: object::DictView,
    y: Seq<u8>,
    i: int,
)
    requires
        short_dict(d),
        short_dict(e),
        0 <= i <= d.len(),
        i <= e.len(),
        by_key(written(d)).len() == d.len(),
        by_key(written(e)).len() == e.len(),
        rest_out(by_key(written(d)), i) + seq!['>' as u8] + x == rest_out(by_key(written(e)), i)
            + seq!['>' as u8] + y,
    ensures
        d.len() == e.len(),
        x == y,
        forall|k: int|
            i <= k < d.len() ==> #[trigger] by_key(written(d))[k] == by_key(written(e))[k],
    decreases d, 0int, d.len() - i,
{
    let end = seq!['>' as u8];
    let w = by_key(written(d));
    let v = by_key(written(e));
    let left = rest_out(w, i) + end + x;
    let right = rest_out(v, i) + end + y;
    if i == d.len() {
        assert(left[0] == '>' as u8);
        if i < e.len() {
            assert(right[0] == '/' as u8);
        } else {
            lemma_cut(rest_out(w, i) + end, x, rest_out(v, i) + end, y);
        }
    } else {
        assert(left[0] == '/' as u8);
        if i == e.len() {
            assert(right[0] == '>' as u8);
        } else {
            let k = lemma_written(d, i);
            let m = lemma_written(e, i);
            let l = rest_out(w, i + 1) + end + x;
            let r = rest_out(v, i + 1) + end + y;
            assert(left =~= tagged('/', w[i].0) + (w[i].1 + l));
            assert(right =~= tagged('/', v[i].0) + (v[i].1 + r));
            lemma_tagged('/', w[i].0, w[i].1 + l, v[i].0, v[i].1 + r);
            assert(l[0] == '/' as u8 || l[0] == '>' as u8);
            assert(r[0] == '/' as u8 || r[0] == '>' as u8);
            lemma_unique(d[k].1, l, e[m].1, r);
            lemma_unique_entries(d, x, e, y, i + 1);
        }
    }
}

proof fn lemma_unique_dicts(d: object::DictView, x: Seq<u8>, e: object::DictView, y: Seq<u8>)
    requires
        dict_form(d) + x == dict_form(e) + y,
        short_dict(d),
        short_dict(e),
    ensures
        alike_dicts(d, e),
        dict_form(d) == dict_form(e),
        x == y,
    decreases d, 1int, 0int,
{
    let w = by_key(written(d));
    let v = by_key(written(e));
    let end = seq!['>' as u8];
    lemma_by_key(written(d));
    lemma_by_key(written(e));
    lemma_rest_out(w, 0);
    lemma_rest_out(v, 0);
    assert(w.take(0) =~= Seq::empty());
    assert(v.take(0) =~= Seq::empty());
    assert(written_out(w) =~= rest_out(w, 0));
    assert(written_out(v) =~= rest_out(v, 0));
    assert(dict_form(d) + x =~= seq!['<' as u8] + (rest_out(w, 0) + end + x));
    assert(dict_form(e) + y =~= seq!['<' as u8] + (rest_out(v, 0) + end + y));
    lemma_cut(
        seq!['<' as u8],
        rest_out(w, 0) + end + x,
        seq!['<' as u8],
        rest_out(v, 0) + end + y,
    );
    lemma_unique_entries(d, x, e, y, 0);
    assert(w =~= v);
    assert forall|i: int| 0 <= i < d.len() implies holds_alike(
        e,
        (#[trigger] d[i]).0,
        d[i].1,
    ) by {
        let p = written(d)[i];
        assert(written(d).contains(p));
        assert(w.contains(p));
        assert(v.contains(p));
        assert(written(e).contains(p));
        let j = choose|j: int| 0 <= j < written(e).len() && written(e)[j] == p;
        assert(canonical_form(d[i].1) == canonical_form(e[j].1));
        lemma_unique(d[i].1, Seq::empty(), e[j].1, Seq::empty());
        assert(e[j].0 == d[i].0 && alike(d[i].1, e[j].1));
    }
}

/// Two objects with equal canonical form are interchangeable for every reader.
pub proof fn equal_forms_are_alike(a: ValueView, b: ValueView)
    requires
        short(a),
        short(b),
        canonical_form(a) == canonical_form(b),
    ensures
        alike(a, b),
{
    lemma_unique(a, Seq::empty(), b, Seq::empty());
}

/// What goes in a pass of merging is alike what stays for it, and what stays
/// does not go.
pub proof fn merged_objects_are_alike(t: document::TableView, k: int)
    requires
        document::ascending(t),
        forall|i: int| 0 <= i < t.len() ==> short((#[trigger] t[i]).1),
        0 <= k < merged_pairs(t, t.len() as int).len(),
    ensures
        ({
            let (gone, kept) = merged_pairs(t, t.len() as int)[k];
            match (document::find(t, gone), document::find(t, kept)) {
                (Some(a), Some(b)) => alike(b, a),
                _ => false,
            }
        }),
        !goes(merged_pairs(t, t.len() as int), merged_pairs(t, t.len() as int)[k].1),
{
    let pairs = merged_pairs(t, t.len() as int);
    lemma_pairs(t, t.len() as int);
    let i = choose|i: int|
        0 <= i < t.len() && survivor(t, i, 0) < i && #[trigger] t[i].0 == pairs[k].0 && pairs[k].1
            == t[survivor(t, i, 0)].0;
    let j = survivor(t, i, 0);
    lemma_survivor(t, i, 0);
    assert(twins(t, j, i));
    assert(document::stands_at(t, t[i].0, i));
    assert(document::stands_at(t, t[j].0, j));
    document::lemma_find(t, t[i].0, i);
    document::lemma_find(t, t[j].0, j);
    equal_forms_are_alike(t[j].1, t[i].1);
    if goes(pairs, t[j].0) {
        let m = choose|m: int| 0 <= m < pairs.len() && (#[trigger] pairs[m]).0 == t[j].0;
        let n = choose|n: int|
            0 <= n < t.len() && survivor(t, n, 0) < n && #[trigger] t[n].0 == pairs[m].0
                && pairs[m].1 == t[survivor(t, n, 0)].0;
        assert(document::stands_at(t, t[j].0, n));
        document::lemma_one_place(t, t[j].0, j, n);
        lemma_survivor(t, n, 0);
        let s = survivor(t, n, 0);
        assert(twins(t, s, j));
        assert(twins(t, s, i));
        assert(s < j);
    }
}

/// Only objects that may be merged go: no page, no node of the page tree, no
/// catalog, no annotation and no member of another tree.
pub proof fn only_mergeable_objects_go(t: document::TableView, i: int)
    requires
        document::ascending(t),
        0 <= i < t.len(),
        goes(merged_pairs(t, t.len() as int), t[i].0),
    ensures
        may_merge(t[i].1),
{
    lemma_goes(t, i);
    lemma_survivor(t, i, 0);
}

/// Pages, nodes of the page tree, catalogs and annotations never go, nor does
/// what has a parent, kids or a page; streams go unless they hold objects or
/// the cross-reference table. Every other dictionary may go.
pub proof fn identities_are_kept(t: document::TableView, i: int)
    requires
        document::ascending(t),
        0 <= i < t.len(),
    ensures
        match t[i].1 {
            ValueView::Dictionary(d) => {
                let kind = object::lookup(d, bytes::text("Type"@));
                let own = kind == Some(ValueView::Name(bytes::text("Page"@))) || kind == Some(
                    ValueView::Name(bytes::text("Pages"@)),
                ) || kind == Some(ValueView::Name(bytes::text("Catalog"@))) || kind == Some(
                    ValueView::Name(bytes::text("Annot"@)),
                ) || object::lookup(d, bytes::text("Parent"@)) is Some || object::lookup(
                    d,
                    bytes::text("Kids"@),
                ) is Some || object::lookup(d, bytes::text("P"@)) is Some;
                &&& own ==> !goes(merged_pairs(t, t.len() as int), t[i].0)
                &&& own <==> !may_merge(t[i].1)
            },
            ValueView::Stream(d, _) => {
                let kind = object::lookup(d, bytes::text("Type"@));
                let own = kind == Some(ValueView::Name(bytes::text("ObjStm"@))) || kind == Some(
                    ValueView::Name(bytes::text("XRef"@)),
                );
                &&& own ==> !goes(merged_pairs(t, t.len() as int), t[i].0)
                &&& own <==> !may_merge(t[i].1)
            },
            _ => !goes(merged_pairs(t, t.len() as int), t[i].0),
        },
{
    if goes(merged_pairs(t, t.len() as int), t[i].0) {
        only_mergeable_objects_go(t, i);
    }
}

} // verus!
