//! Remove non-visual document parts selected by [`Strip`] flags.
//!
//! Each flag maps to concrete dictionary keys:
//!   threads          catalog /Threads, page /B
//!   metadata         /Metadata streams on the catalog and on any typed object
//!   piece-info       /PieceInfo on the catalog and on any typed object
//!   struct-tree      catalog /StructTreeRoot and /MarkInfo; /StructParents
//!                    and /StructParent on any typed object; marked-content
//!                    operators are left in place
//!   thumbnails       page /Thumb
//!   spider           catalog /SpiderInfo
//!   alternates       image /Alternates
//!   output-intents   catalog /OutputIntents
//!
//! Annotations and form fields are never touched (no preset asks for it).
//!
//! Removed objects become unreferenced and are collected by the structure
//! stage, so this stage only edits dictionaries.
use vstd::prelude::*;
use vstd::string::StringExecFns;

use crate::bytes;
use crate::config;
use crate::config::{Config, Strip};
use crate::document;
use crate::document::Pdf;
use crate::object;
use crate::object::{Dict, ObjectId, Value, ValueView};
use crate::report::Report;
use crate::text;

verus! {

/// A dictionary without a key, where the flag of the key is set.
pub open spec fn flagged(d: object::DictView, flags: Strip, flag: Strip, key: Seq<char>) -> object::DictView {
    if config::includes(flags.0, flag.0) {
        object::without_key(d, bytes::text(key))
    } else {
        d
    }
}

/// A catalog without what the flags name.
pub open spec fn bare_catalog(d: object::DictView, flags: Strip) -> object::DictView {
    let d = flagged(d, flags, Strip::threads(), "Threads"@);
    let d = flagged(d, flags, Strip::struct_tree(), "StructTreeRoot"@);
    let d = flagged(d, flags, Strip::struct_tree(), "MarkInfo"@);
    let d = flagged(d, flags, Strip::spider(), "SpiderInfo"@);
    let d = flagged(d, flags, Strip::output_intents(), "OutputIntents"@);
    flagged(d, flags, Strip::metadata(), "Metadata"@)
}

/// A typed object without what the flags name.
///
/// Dictionaries keyed by resource name (a resource category, a Type 3 font's
/// `CharProcs`) carry no `/Type`, and any of these keys can be such a name:
/// dvips calls its fonts `/A`, `/B`, and so on.
pub open spec fn bare_object(d: object::DictView, flags: Strip) -> object::DictView {
    let d = flagged(d, flags, Strip::metadata(), "Metadata"@);
    let d = flagged(d, flags, Strip::piece_info(), "PieceInfo"@);
    let d = flagged(d, flags, Strip::struct_tree(), "StructParents"@);
    flagged(d, flags, Strip::struct_tree(), "StructParent"@)
}

/// A page without what the flags name.
pub open spec fn bare_page(d: object::DictView, flags: Strip) -> object::DictView {
    let d = flagged(d, flags, Strip::threads(), "B"@);
    flagged(d, flags, Strip::thumbnails(), "Thumb"@)
}

/// An image without what the flags name.
pub open spec fn bare_image(d: object::DictView, flags: Strip) -> object::DictView {
    flagged(d, flags, Strip::alternates(), "Alternates"@)
}

/// Whether a key holds a name.
pub open spec fn names(d: object::DictView, key: Seq<char>, name: Seq<char>) -> bool {
    object::lookup(d, bytes::text(key)) == Some(ValueView::Name(bytes::text(name)))
}

/// An object without what the flags name.
pub open spec fn bare(v: ValueView, flags: Strip) -> ValueView {
    match v {
        ValueView::Dictionary(d) => if object::lookup(d, bytes::text("Type"@)) is None {
            v
        } else {
            let e = bare_object(d, flags);
            ValueView::Dictionary(
                if names(e, "Type"@, "Page"@) {
                    bare_page(e, flags)
                } else {
                    e
                },
            )
        },
        ValueView::Stream(d, content) => {
            let e = bare_object(d, flags);
            ValueView::Stream(
                if names(e, "Subtype"@, "Image"@) {
                    bare_image(e, flags)
                } else {
                    e
                },
                content,
            )
        },
        _ => v,
    }
}

/// The table with a bare catalog.
pub open spec fn catalog_bared(doc: document::PdfView, flags: Strip) -> document::TableView {
    let t = doc.objects;
    match document::root_id(doc) {
        None => t,
        Some(id) => match document::place(t, id, document::DEREF_LIMIT as nat) {
            None => t,
            Some(i) => match t[i].1 {
                ValueView::Dictionary(d) => t.update(
                    i,
                    (t[i].0, ValueView::Dictionary(bare_catalog(d, flags))),
                ),
                _ => t,
            },
        },
    }
}

/// Every object without what the flags name.
pub open spec fn all_bare(t: document::TableView, flags: Strip) -> document::TableView {
    t.map_values(|e: (ObjectId, ValueView)| (e.0, bare(e.1, flags)))
}

/// The objects of a document without what the flags name.
pub open spec fn stripped(doc: document::PdfView, flags: Strip) -> document::TableView {
    all_bare(catalog_bared(doc, flags), flags)
}

/// How many entries an object's own dictionary has.
pub open spec fn entries_of(v: ValueView) -> int {
    match v {
        ValueView::Dictionary(d) => d.len() as int,
        ValueView::Stream(d, _) => d.len() as int,
        _ => 0,
    }
}

/// How many entries the first `n` objects have.
pub open spec fn entries_in(t: document::TableView, n: int) -> int
    decreases n,
{
    if n <= 0 {
        0
    } else {
        entries_in(t, n - 1) + entries_of(t[n - 1].1)
    }
}

fn drop_flagged(d: &mut Dict, flags: Strip, flag: Strip, key: &str) -> (r: u128)
    ensures
        final(d)@ == flagged(old(d)@, flags, flag, key@),
        r == old(d)@.len() - final(d)@.len(),
        r <= 1,
        old(d).wf() ==> final(d).wf(),
{
    proof {
        object::lemma_key_at(d@, bytes::text(key@));
    }
    if flags.contains(flag) && d.remove(key.as_bytes()).is_some() {
        1
    } else {
        0
    }
}

fn strip_catalog(d: &mut Dict, flags: Strip) -> (r: u128)
    ensures
        final(d)@ == bare_catalog(old(d)@, flags),
        r == old(d)@.len() - final(d)@.len(),
        r <= 6,
{
    let a = drop_flagged(d, flags, Strip::threads(), "Threads");
    let b = drop_flagged(d, flags, Strip::struct_tree(), "StructTreeRoot");
    let c = drop_flagged(d, flags, Strip::struct_tree(), "MarkInfo");
    let e = drop_flagged(d, flags, Strip::spider(), "SpiderInfo");
    let f = drop_flagged(d, flags, Strip::output_intents(), "OutputIntents");
    let g = drop_flagged(d, flags, Strip::metadata(), "Metadata");
    a + b + c + e + f + g
}

fn strip_object(d: &mut Dict, flags: Strip) -> (r: u128)
    ensures
        final(d)@ == bare_object(old(d)@, flags),
        r == old(d)@.len() - final(d)@.len(),
        r <= 4,
{
    let a = drop_flagged(d, flags, Strip::metadata(), "Metadata");
    let b = drop_flagged(d, flags, Strip::piece_info(), "PieceInfo");
    let c = drop_flagged(d, flags, Strip::struct_tree(), "StructParents");
    let e = drop_flagged(d, flags, Strip::struct_tree(), "StructParent");
    a + b + c + e
}

fn has_type(d: &Dict, key: &str, name: &str) -> (r: bool)
    ensures
        r == names(d@, key@, name@),
{
    match d.get(key.as_bytes()) {
        Some(v) => v.is_name(name),
        None => false,
    }
}

fn strip_value(v: &mut Value, flags: Strip) -> (r: u128)
    ensures
        final(v)@ == bare(old(v)@, flags),
        r == entries_of(old(v)@) - entries_of(final(v)@),
        r <= 6,
{
    match v {
        Value::Dictionary(d) => {
            if !d.has("Type".as_bytes()) {
                return 0;
            }
            let mut removed = strip_object(d, flags);
            if has_type(d, "Type", "Page") {
                let b = drop_flagged(d, flags, Strip::threads(), "B");
                let c = drop_flagged(d, flags, Strip::thumbnails(), "Thumb");
                removed = removed + b + c;
            }
            removed
        },
        Value::Stream(s) => {
            let mut removed = strip_object(&mut s.dict, flags);
            if has_type(&s.dict, "Subtype", "Image") {
                let b = drop_flagged(&mut s.dict, flags, Strip::alternates(), "Alternates");
                removed = removed + b;
            }
            removed
        },
        _ => 0,
    }
}

/// Entries that one object has and another has not.
proof fn lemma_entries_update(t: document::TableView, i: int, e: (ObjectId, ValueView), n: int)
    requires
        0 <= i < t.len(),
        0 <= n <= t.len(),
    ensures
        entries_in(t.update(i, e), n) == entries_in(t, n) + if i < n {
            entries_of(e.1) - entries_of(t[i].1)
        } else {
            0
        },
    decreases n,
{
    if n > 0 {
        lemma_entries_update(t, i, e, n - 1);
    }
}

/// Removes what the flags name. Returns the number of dictionary entries
/// removed.
pub fn strip(doc: &mut Pdf, flags: Strip) -> (r: u128)
    requires
        old(doc).wf(),
    ensures
        final(doc).wf(),
        final(doc)@ == (document::PdfView { objects: stripped(old(doc)@, flags), ..old(doc)@ }),
        final(doc).encryption == old(doc).encryption,
        r == entries_in(old(doc)@.objects, old(doc)@.objects.len() as int) - entries_in(
            final(doc)@.objects,
            final(doc)@.objects.len() as int,
        ),
{
    let ghost before = doc@;
    let ghost n = before.objects.len() as int;
    let mut removed: u128 = 0;
    if let Some(id) = doc.root() {
        if let Some(i) = doc.place_of(id) {
            let ghost t = doc@.objects;
            let ghost v = t[i as int].1;
            match &mut doc.objects[i].1 {
                Value::Dictionary(d) => {
                    removed = strip_catalog(d, flags);
                },
                _ => {},
            }
            proof {
                if v is Dictionary {
                    let e = (
                        t[i as int].0,
                        ValueView::Dictionary(bare_catalog(v->Dictionary_0, flags)),
                    );
                    assert(doc@.objects =~= t.update(i as int, e));
                    lemma_entries_update(t, i as int, e, n);
                } else {
                    assert(doc@.objects =~= t);
                }
            }
        }
    }
    let ghost middle = doc@.objects;
    let ghost goal = all_bare(middle, flags);
    let ghost head: u128 = removed;
    assert(middle == catalog_bared(before, flags));
    assert(middle.len() == n);
    assert(head == entries_in(before.objects, n) - entries_in(middle, n));
    let len: usize = doc.objects.len();
    let mut i: usize = 0;
    assert(doc@.objects =~= goal.take(0) + middle.skip(0));
    while i < len
        invariant
            i <= len,
            len == doc.objects@.len() == n == middle.len() == goal.len(),
            goal == all_bare(middle, flags),
            doc@ == (document::PdfView { objects: doc@.objects, ..before }),
            doc.encryption == old(doc).encryption,
            doc@.objects == goal.take(i as int) + middle.skip(i as int),
            removed == head + entries_in(middle, i as int) - entries_in(goal, i as int),
            head <= 6,
            removed <= 6 + 6 * i,
        decreases len - i,
    {
        let ghost at = doc@.objects;
        assert(at[i as int] == middle[i as int]);
        let n = strip_value(&mut doc.objects[i].1, flags);
        removed = removed + n;
        assert(doc@.objects =~= at.update(i as int, goal[i as int]));
        assert(doc@.objects =~= goal.take(i + 1) + middle.skip(i + 1));
        i += 1;
    }
    assert(doc@.objects =~= goal);
    proof {
        assert forall|a: int, b: int| 0 <= a < b < goal.len() implies document::id_less(
            (#[trigger] goal[a]).0,
            (#[trigger] goal[b]).0,
        ) by {
            assert(document::id_less(before.objects[a].0, before.objects[b].0));
        }
    }
    removed
}

// ------------------------------------------------------------- laws

/// A key that is gone is gone for good: removing others does not bring it
/// back, and removing it again changes nothing.
proof fn lemma_flagged(d: object::DictView, flags: Strip, flag: Strip, key: Seq<char>)
    requires
        object::distinct_keys(d),
    ensures
        object::distinct_keys(flagged(d, flags, flag, key)),
        config::includes(flags.0, flag.0) ==> object::lookup(
            flagged(d, flags, flag, key),
            bytes::text(key),
        ) is None,
        forall|other: Seq<u8>|
            object::lookup(d, other) is None ==> #[trigger] object::lookup(
                flagged(d, flags, flag, key),
                other,
            ) is None,
        forall|other: Seq<u8>|
            other != bytes::text(key) ==> #[trigger] object::lookup(
                flagged(d, flags, flag, key),
                other,
            ) == object::lookup(d, other),
        object::lookup(d, bytes::text(key)) is None ==> flagged(d, flags, flag, key) == d,
{
    object::lemma_without_key(d, bytes::text(key));
    object::lemma_key_at(d, bytes::text(key));
}

/// What the flags name of a typed object is gone after one pass.
proof fn lemma_bare_object(d: object::DictView, flags: Strip)
    requires
        object::distinct_keys(d),
    ensures
        object::distinct_keys(bare_object(d, flags)),
        bare_object(bare_object(d, flags), flags) == bare_object(d, flags),
        forall|other: Seq<u8>|
            object::lookup(d, other) is None ==> #[trigger] object::lookup(
                bare_object(d, flags),
                other,
            ) is None,
{
    let a = flagged(d, flags, Strip::metadata(), "Metadata"@);
    let b = flagged(a, flags, Strip::piece_info(), "PieceInfo"@);
    let c = flagged(b, flags, Strip::struct_tree(), "StructParents"@);
    let e = flagged(c, flags, Strip::struct_tree(), "StructParent"@);
    lemma_flagged(d, flags, Strip::metadata(), "Metadata"@);
    lemma_flagged(a, flags, Strip::piece_info(), "PieceInfo"@);
    lemma_flagged(b, flags, Strip::struct_tree(), "StructParents"@);
    lemma_flagged(c, flags, Strip::struct_tree(), "StructParent"@);
    lemma_flagged(e, flags, Strip::metadata(), "Metadata"@);
    lemma_flagged(e, flags, Strip::piece_info(), "PieceInfo"@);
    lemma_flagged(e, flags, Strip::struct_tree(), "StructParents"@);
    lemma_flagged(e, flags, Strip::struct_tree(), "StructParent"@);
}

/// Removing keys of a bare object leaves it bare.
proof fn lemma_still_bare(d: object::DictView, e: object::DictView, flags: Strip)
    requires
        object::distinct_keys(d),
        object::distinct_keys(e),
        bare_object(d, flags) == d,
        forall|other: Seq<u8>|
            object::lookup(d, other) is None ==> #[trigger] object::lookup(e, other) is None,
        d == bare_object(d, flags),
        config::includes(flags.0, Strip::metadata().0) ==> object::lookup(
            d,
            bytes::text("Metadata"@),
        ) is None,
        config::includes(flags.0, Strip::piece_info().0) ==> object::lookup(
            d,
            bytes::text("PieceInfo"@),
        ) is None,
        config::includes(flags.0, Strip::struct_tree().0) ==> object::lookup(
            d,
            bytes::text("StructParents"@),
        ) is None && object::lookup(d, bytes::text("StructParent"@)) is None,
    ensures
        bare_object(e, flags) == e,
{
    lemma_flagged(e, flags, Strip::metadata(), "Metadata"@);
    lemma_flagged(e, flags, Strip::piece_info(), "PieceInfo"@);
    lemma_flagged(e, flags, Strip::struct_tree(), "StructParents"@);
    lemma_flagged(e, flags, Strip::struct_tree(), "StructParent"@);
}

/// After one pass none of the keys that the flags name is left.
proof fn lemma_gone(d: object::DictView, flags: Strip)
    requires
        object::distinct_keys(d),
    ensures
        config::includes(flags.0, Strip::metadata().0) ==> object::lookup(
            bare_object(d, flags),
            bytes::text("Metadata"@),
        ) is None,
        config::includes(flags.0, Strip::piece_info().0) ==> object::lookup(
            bare_object(d, flags),
            bytes::text("PieceInfo"@),
        ) is None,
        config::includes(flags.0, Strip::struct_tree().0) ==> object::lookup(
            bare_object(d, flags),
            bytes::text("StructParents"@),
        ) is None && object::lookup(bare_object(d, flags), bytes::text("StructParent"@)) is None,
{
    let a = flagged(d, flags, Strip::metadata(), "Metadata"@);
    let b = flagged(a, flags, Strip::piece_info(), "PieceInfo"@);
    let c = flagged(b, flags, Strip::struct_tree(), "StructParents"@);
    lemma_flagged(d, flags, Strip::metadata(), "Metadata"@);
    lemma_flagged(a, flags, Strip::piece_info(), "PieceInfo"@);
    lemma_flagged(b, flags, Strip::struct_tree(), "StructParents"@);
    lemma_flagged(c, flags, Strip::struct_tree(), "StructParent"@);
}

/// No dictionary of an object holds a key twice.
pub open spec fn keys_once(v: ValueView) -> bool {
    match v {
        ValueView::Dictionary(d) => object::distinct_keys(d),
        ValueView::Stream(d, _) => object::distinct_keys(d),
        _ => true,
    }
}

/// The keys that tell what an object is are different from those that a page
/// may lose.
proof fn lemma_other_keys()
    ensures
        bytes::text("Type"@) != bytes::text("B"@),
        bytes::text("Type"@) != bytes::text("Thumb"@),
        bytes::text("Subtype"@) != bytes::text("Alternates"@),
{
    reveal_strlit("Type");
    reveal_strlit("B");
    reveal_strlit("Thumb");
    reveal_strlit("Subtype");
    reveal_strlit("Alternates");
    assert("Type"@.len() == 4 && "B"@.len() == 1 && "Thumb"@.len() == 5);
    assert("Subtype"@.len() == 7 && "Alternates"@.len() == 10);
    bytes::lemma_text_differs("Type"@, "B"@);
    bytes::lemma_text_differs("Type"@, "Thumb"@);
    bytes::lemma_text_differs("Subtype"@, "Alternates"@);
}

/// An object that was stripped has nothing left to strip.
pub proof fn stripping_again_removes_nothing(v: ValueView, flags: Strip)
    requires
        keys_once(v),
    ensures
        bare(bare(v, flags), flags) == bare(v, flags),
{
    lemma_other_keys();
    match v {
        ValueView::Dictionary(d) => {
            if object::lookup(d, bytes::text("Type"@)) is Some {
                let e = bare_object(d, flags);
                lemma_bare_object(d, flags);
                lemma_gone(d, flags);
                if names(e, "Type"@, "Page"@) {
                    let f = flagged(e, flags, Strip::threads(), "B"@);
                    let g = flagged(f, flags, Strip::thumbnails(), "Thumb"@);
                    lemma_flagged(e, flags, Strip::threads(), "B"@);
                    lemma_flagged(f, flags, Strip::thumbnails(), "Thumb"@);
                    lemma_still_bare(e, g, flags);
                    lemma_flagged(g, flags, Strip::threads(), "B"@);
                    lemma_flagged(g, flags, Strip::thumbnails(), "Thumb"@);
                    assert(names(g, "Type"@, "Page"@));
                }
            }
        },
        ValueView::Stream(d, content) => {
            let e = bare_object(d, flags);
            lemma_bare_object(d, flags);
            lemma_gone(d, flags);
            if names(e, "Subtype"@, "Image"@) {
                let f = flagged(e, flags, Strip::alternates(), "Alternates"@);
                lemma_flagged(e, flags, Strip::alternates(), "Alternates"@);
                lemma_still_bare(e, f, flags);
                lemma_flagged(f, flags, Strip::alternates(), "Alternates"@);
                assert(names(f, "Subtype"@, "Image"@));
            }
        },
        _ => {},
    }
}

/// Without a flag nothing is removed.
pub proof fn nothing_flagged_removes_nothing(doc: document::PdfView)
    ensures
        stripped(doc, Strip::none()) == doc.objects,
{
    assert forall|f: u16| f == 1 || f == 2 || f == 4 || f == 8 || f == 16 || f == 32 || f == 64
        || f == 128 implies !(#[trigger] config::includes(0, f)) by {
        assert(0u16 & f == 0) by (bit_vector);
    }
    let t = doc.objects;
    let c = catalog_bared(doc, Strip::none());
    if let Some(id) = document::root_id(doc) {
        document::lemma_place(t, id, document::DEREF_LIMIT as nat);
    }
    assert(c =~= t);
    assert(all_bare(t, Strip::none()) =~= t);
}

/// A dictionary without a `/Type`, such as one that is keyed by resource
/// names, keeps every entry, unless it is the catalog.
pub proof fn untyped_dictionaries_survive(doc: document::PdfView, flags: Strip, i: int)
    requires
        0 <= i < doc.objects.len(),
        doc.objects[i].1 is Dictionary,
        object::lookup(doc.objects[i].1->Dictionary_0, bytes::text("Type"@)) is None,
        match document::root_id(doc) {
            Some(id) => document::place(doc.objects, id, document::DEREF_LIMIT as nat) != Some(i),
            None => true,
        },
    ensures
        stripped(doc, flags)[i] == doc.objects[i],
{
    if let Some(id) = document::root_id(doc) {
        document::lemma_place(doc.objects, id, document::DEREF_LIMIT as nat);
    }
}

/// Whether stripping can remove a key: a flag that it belongs to is set.
pub open spec fn strippable(key: Seq<u8>, flags: Strip) -> bool {
    ||| config::includes(flags.0, Strip::threads().0) && (key == bytes::text("Threads"@) || key == bytes::text("B"@))
    ||| config::includes(flags.0, Strip::struct_tree().0) && (key == bytes::text("StructTreeRoot"@) || key == bytes::text("MarkInfo"@) || key == bytes::text("StructParents"@) || key == bytes::text("StructParent"@))
    ||| config::includes(flags.0, Strip::spider().0) && (key == bytes::text("SpiderInfo"@))
    ||| config::includes(flags.0, Strip::output_intents().0) && (key == bytes::text("OutputIntents"@))
    ||| config::includes(flags.0, Strip::metadata().0) && (key == bytes::text("Metadata"@))
    ||| config::includes(flags.0, Strip::piece_info().0) && (key == bytes::text("PieceInfo"@))
    ||| config::includes(flags.0, Strip::thumbnails().0) && (key == bytes::text("Thumb"@))
    ||| config::includes(flags.0, Strip::alternates().0) && (key == bytes::text("Alternates"@))
}

/// What an object's own dictionary holds at a key.
pub open spec fn entry_of(v: ValueView, key: Seq<u8>) -> Option<ValueView> {
    match v {
        ValueView::Dictionary(d) => object::lookup(d, key),
        ValueView::Stream(d, _) => object::lookup(d, key),
        _ => None,
    }
}

proof fn lemma_catalog_keeps(d: object::DictView, flags: Strip, key: Seq<u8>)
    requires
        object::distinct_keys(d),
        !strippable(key, flags),
    ensures
        object::distinct_keys(bare_catalog(d, flags)),
        object::lookup(bare_catalog(d, flags), key) == object::lookup(d, key),
{
    let a = flagged(d, flags, Strip::threads(), "Threads"@);
    let b = flagged(a, flags, Strip::struct_tree(), "StructTreeRoot"@);
    let c = flagged(b, flags, Strip::struct_tree(), "MarkInfo"@);
    let e = flagged(c, flags, Strip::spider(), "SpiderInfo"@);
    let f = flagged(e, flags, Strip::output_intents(), "OutputIntents"@);
    lemma_flagged(d, flags, Strip::threads(), "Threads"@);
    lemma_flagged(a, flags, Strip::struct_tree(), "StructTreeRoot"@);
    lemma_flagged(b, flags, Strip::struct_tree(), "MarkInfo"@);
    lemma_flagged(c, flags, Strip::spider(), "SpiderInfo"@);
    lemma_flagged(e, flags, Strip::output_intents(), "OutputIntents"@);
    lemma_flagged(f, flags, Strip::metadata(), "Metadata"@);
}

proof fn lemma_object_keeps(d: object::DictView, flags: Strip, key: Seq<u8>)
    requires
        object::distinct_keys(d),
        !strippable(key, flags),
    ensures
        object::distinct_keys(bare_object(d, flags)),
        object::lookup(bare_object(d, flags), key) == object::lookup(d, key),
{
    let a = flagged(d, flags, Strip::metadata(), "Metadata"@);
    let b = flagged(a, flags, Strip::piece_info(), "PieceInfo"@);
    let c = flagged(b, flags, Strip::struct_tree(), "StructParents"@);
    lemma_flagged(d, flags, Strip::metadata(), "Metadata"@);
    lemma_flagged(a, flags, Strip::piece_info(), "PieceInfo"@);
    lemma_flagged(b, flags, Strip::struct_tree(), "StructParents"@);
    lemma_flagged(c, flags, Strip::struct_tree(), "StructParent"@);
}

proof fn lemma_bare_keeps(v: ValueView, flags: Strip, key: Seq<u8>)
    requires
        keys_once(v),
        !strippable(key, flags),
    ensures
        entry_of(bare(v, flags), key) == entry_of(v, key),
{
    match v {
        ValueView::Dictionary(d) => {
            let e = bare_object(d, flags);
            lemma_object_keeps(d, flags, key);
            lemma_flagged(e, flags, Strip::threads(), "B"@);
            let f = flagged(e, flags, Strip::threads(), "B"@);
            lemma_flagged(f, flags, Strip::thumbnails(), "Thumb"@);
        },
        ValueView::Stream(d, _) => {
            let e = bare_object(d, flags);
            lemma_object_keeps(d, flags, key);
            lemma_flagged(e, flags, Strip::alternates(), "Alternates"@);
        },
        _ => {},
    }
}

/// An object keeps every entry but those at the keys that belong to a flag that
/// is set.
pub proof fn other_entries_are_kept(
    doc: document::PdfView,
    flags: Strip,
    i: int,
    key: Seq<u8>,
)
    requires
        0 <= i < doc.objects.len(),
        keys_once(doc.objects[i].1),
        !strippable(key, flags),
    ensures
        entry_of(stripped(doc, flags)[i].1, key) == entry_of(doc.objects[i].1, key),
{
    let t = doc.objects;
    if let Some(id) = document::root_id(doc) {
        document::lemma_place(t, id, document::DEREF_LIMIT as nat);
    }
    let c = catalog_bared(doc, flags)[i].1;
    if let ValueView::Dictionary(d) = t[i].1 {
        lemma_catalog_keeps(d, flags, key);
    }
    lemma_bare_keeps(c, flags, key);
}

/// Annotations and form fields are never touched: a page keeps its list of
/// annotations and the catalog its form.
pub proof fn annotations_and_forms_are_kept(doc: document::PdfView, flags: Strip, i: int)
    requires
        0 <= i < doc.objects.len(),
        keys_once(doc.objects[i].1),
    ensures
        entry_of(stripped(doc, flags)[i].1, bytes::text("Annots"@)) == entry_of(
            doc.objects[i].1,
            bytes::text("Annots"@),
        ),
        entry_of(stripped(doc, flags)[i].1, bytes::text("AcroForm"@)) == entry_of(
            doc.objects[i].1,
            bytes::text("AcroForm"@),
        ),
{
    reveal_strlit("Annots");
    reveal_strlit("Threads");
    reveal_strlit("StructTreeRoot");
    reveal_strlit("MarkInfo");
    reveal_strlit("SpiderInfo");
    reveal_strlit("OutputIntents");
    reveal_strlit("Metadata");
    reveal_strlit("PieceInfo");
    reveal_strlit("StructParents");
    reveal_strlit("StructParent");
    reveal_strlit("B");
    reveal_strlit("Thumb");
    reveal_strlit("Alternates");
    assert("Annots"@.len() != "Threads"@.len());
    bytes::lemma_text_differs("Annots"@, "Threads"@);
    assert("Annots"@.len() != "StructTreeRoot"@.len());
    bytes::lemma_text_differs("Annots"@, "StructTreeRoot"@);
    assert("Annots"@.len() != "MarkInfo"@.len());
    bytes::lemma_text_differs("Annots"@, "MarkInfo"@);
    assert("Annots"@.len() != "SpiderInfo"@.len());
    bytes::lemma_text_differs("Annots"@, "SpiderInfo"@);
    assert("Annots"@.len() != "OutputIntents"@.len());
    bytes::lemma_text_differs("Annots"@, "OutputIntents"@);
    assert("Annots"@.len() != "Metadata"@.len());
    bytes::lemma_text_differs("Annots"@, "Metadata"@);
    assert("Annots"@.len() != "PieceInfo"@.len());
    bytes::lemma_text_differs("Annots"@, "PieceInfo"@);
    assert("Annots"@.len() != "StructParents"@.len());
    bytes::lemma_text_differs("Annots"@, "StructParents"@);
    assert("Annots"@.len() != "StructParent"@.len());
    bytes::lemma_text_differs("Annots"@, "StructParent"@);
    assert("Annots"@.len() != "B"@.len());
    bytes::lemma_text_differs("Annots"@, "B"@);
    assert("Annots"@.len() != "Thumb"@.len());
    bytes::lemma_text_differs("Annots"@, "Thumb"@);
    assert("Annots"@.len() != "Alternates"@.len());
    bytes::lemma_text_differs("Annots"@, "Alternates"@);
    reveal_strlit("AcroForm");
    assert("AcroForm"@.len() != "Threads"@.len());
    bytes::lemma_text_differs("AcroForm"@, "Threads"@);
    assert("AcroForm"@.len() != "StructTreeRoot"@.len());
    bytes::lemma_text_differs("AcroForm"@, "StructTreeRoot"@);
    assert("AcroForm"@[0] != "MarkInfo"@[0]);
    bytes::lemma_text_differs("AcroForm"@, "MarkInfo"@);
    assert("AcroForm"@.len() != "SpiderInfo"@.len());
    bytes::lemma_text_differs("AcroForm"@, "SpiderInfo"@);
    assert("AcroForm"@.len() != "OutputIntents"@.len());
    bytes::lemma_text_differs("AcroForm"@, "OutputIntents"@);
    assert("AcroForm"@[0] != "Metadata"@[0]);
    bytes::lemma_text_differs("AcroForm"@, "Metadata"@);
    assert("AcroForm"@.len() != "PieceInfo"@.len());
    bytes::lemma_text_differs("AcroForm"@, "PieceInfo"@);
    assert("AcroForm"@.len() != "StructParents"@.len());
    bytes::lemma_text_differs("AcroForm"@, "StructParents"@);
    assert("AcroForm"@.len() != "StructParent"@.len());
    bytes::lemma_text_differs("AcroForm"@, "StructParent"@);
    assert("AcroForm"@.len() != "B"@.len());
    bytes::lemma_text_differs("AcroForm"@, "B"@);
    assert("AcroForm"@.len() != "Thumb"@.len());
    bytes::lemma_text_differs("AcroForm"@, "Thumb"@);
    assert("AcroForm"@.len() != "Alternates"@.len());
    bytes::lemma_text_differs("AcroForm"@, "Alternates"@);
    other_entries_are_kept(doc, flags, i, bytes::text("Annots"@));
    other_entries_are_kept(doc, flags, i, bytes::text("AcroForm"@));
}

/// A value without what the flags name is the same kind of value.
proof fn lemma_bare_kind(v: ValueView, flags: Strip)
    ensures
        v is Reference ==> bare(v, flags) == v,
        bare(v, flags) is Reference ==> v is Reference,
        keys_once(v) ==> keys_once(bare(v, flags)),
{
    if keys_once(v) {
        match v {
            ValueView::Dictionary(d) => {
                let e = bare_object(d, flags);
                lemma_bare_object(d, flags);
                lemma_flagged(e, flags, Strip::threads(), "B"@);
                let f = flagged(e, flags, Strip::threads(), "B"@);
                lemma_flagged(f, flags, Strip::thumbnails(), "Thumb"@);
            },
            ValueView::Stream(d, _) => {
                let e = bare_object(d, flags);
                lemma_bare_object(d, flags);
                lemma_flagged(e, flags, Strip::alternates(), "Alternates"@);
            },
            _ => {},
        }
    }
}

/// Objects that differ only in what is no reference lead to the same places.
proof fn lemma_same_place(
    t: document::TableView,
    u: document::TableView,
    id: ObjectId,
    budget: nat,
)
    requires
        document::ascending(t),
        u.len() == t.len(),
        forall|i: int| 0 <= i < t.len() ==> (#[trigger] u[i]).0 == t[i].0,
        forall|i: int|
            0 <= i < t.len() ==> (t[i].1 is Reference || (#[trigger] u[i]).1 is Reference ==> u[i].1
                == t[i].1),
    ensures
        document::place(u, id, budget) == document::place(t, id, budget),
    decreases budget,
{
    assert(document::ascending(u)) by {
        assert forall|a: int, b: int| 0 <= a < b < u.len() implies document::id_less(
            (#[trigger] u[a]).0,
            (#[trigger] u[b]).0,
        ) by {
            assert(document::id_less(t[a].0, t[b].0));
        }
    }
    assert forall|i: int| document::stands_at(u, id, i) == document::stands_at(t, id, i) by {
        if 0 <= i < t.len() {
            assert(u[i].0 == t[i].0);
        }
    }
    if document::has_id(t, id) {
        let i = choose|i: int| document::stands_at(t, id, i);
        assert(document::stands_at(u, id, i));
        let j = choose|j: int| document::stands_at(u, id, j);
        assert(document::stands_at(t, id, j));
        document::lemma_one_place(t, id, i, j);
        if let ValueView::Reference(next) = t[i].1 {
            assert(u[i].1 == t[i].1);
            if budget > 0 {
                lemma_same_place(t, u, next, (budget - 1) as nat);
            }
        } else {
            assert(!(u[i].1 is Reference));
        }
    } else if document::has_id(u, id) {
        let j = choose|j: int| document::stands_at(u, id, j);
        assert(document::stands_at(t, id, j));
    }
}

/// A catalog that was stripped, as a catalog and as an object, has nothing left
/// that a catalog can lose.
proof fn lemma_catalog_again(d: object::DictView, flags: Strip)
    requires
        object::distinct_keys(d),
    ensures
        ({
            let e = bare(ValueView::Dictionary(bare_catalog(d, flags)), flags)->Dictionary_0;
            bare_catalog(e, flags) == e
        }),
{
    let a = flagged(d, flags, Strip::threads(), "Threads"@);
    let b = flagged(a, flags, Strip::struct_tree(), "StructTreeRoot"@);
    let c = flagged(b, flags, Strip::struct_tree(), "MarkInfo"@);
    let e = flagged(c, flags, Strip::spider(), "SpiderInfo"@);
    let f = flagged(e, flags, Strip::output_intents(), "OutputIntents"@);
    let g = flagged(f, flags, Strip::metadata(), "Metadata"@);
    lemma_flagged(d, flags, Strip::threads(), "Threads"@);
    lemma_flagged(a, flags, Strip::struct_tree(), "StructTreeRoot"@);
    lemma_flagged(b, flags, Strip::struct_tree(), "MarkInfo"@);
    lemma_flagged(c, flags, Strip::spider(), "SpiderInfo"@);
    lemma_flagged(e, flags, Strip::output_intents(), "OutputIntents"@);
    lemma_flagged(f, flags, Strip::metadata(), "Metadata"@);
    let h = bare_object(g, flags);
    lemma_bare_object(g, flags);
    let i = flagged(h, flags, Strip::threads(), "B"@);
    lemma_flagged(h, flags, Strip::threads(), "B"@);
    lemma_flagged(i, flags, Strip::thumbnails(), "Thumb"@);
    let last = bare(ValueView::Dictionary(g), flags)->Dictionary_0;
    lemma_bare_kind(ValueView::Dictionary(g), flags);
    lemma_flagged(last, flags, Strip::threads(), "Threads"@);
    lemma_flagged(last, flags, Strip::struct_tree(), "StructTreeRoot"@);
    lemma_flagged(last, flags, Strip::struct_tree(), "MarkInfo"@);
    lemma_flagged(last, flags, Strip::spider(), "SpiderInfo"@);
    lemma_flagged(last, flags, Strip::output_intents(), "OutputIntents"@);
    lemma_flagged(last, flags, Strip::metadata(), "Metadata"@);
}

/// A document that was stripped has nothing left to strip.
pub proof fn stripping_a_document_again_removes_nothing(doc: document::PdfView, flags: Strip)
    requires
        document::ascending(doc.objects),
        forall|i: int| 0 <= i < doc.objects.len() ==> keys_once((#[trigger] doc.objects[i]).1),
    ensures
        ({
            let once = document::PdfView { objects: stripped(doc, flags), ..doc };
            stripped(once, flags) == once.objects && removed_count(once, flags) == 0
        }),
{
    let t = doc.objects;
    let c = catalog_bared(doc, flags);
    let u = stripped(doc, flags);
    let once = document::PdfView { objects: u, ..doc };
    if let Some(id) = document::root_id(doc) {
        document::lemma_place(t, id, document::DEREF_LIMIT as nat);
    }
    assert forall|i: int| 0 <= i < t.len() implies keys_once((#[trigger] c[i]).1) && (c[i].1
        is Reference || t[i].1 is Reference ==> c[i].1 == t[i].1) && c[i].0 == t[i].0 by {
        if let ValueView::Dictionary(d) = t[i].1 {
            lemma_catalog_once(d, flags);
        }
    }
    assert forall|i: int| 0 <= i < t.len() implies keys_once((#[trigger] u[i]).1) && u[i].0
        == t[i].0 && (t[i].1 is Reference || u[i].1 is Reference ==> u[i].1 == t[i].1) by {
        lemma_bare_kind(c[i].1, flags);
    }
    assert(catalog_bared(once, flags) =~= u) by {
        if let Some(id) = document::root_id(doc) {
            lemma_same_place(t, u, id, document::DEREF_LIMIT as nat);
            if let Some(at) = document::place(t, id, document::DEREF_LIMIT as nat) {
                if let ValueView::Dictionary(d) = t[at].1 {
                    lemma_catalog_again(d, flags);
                } else {
                    assert(!(u[at].1 is Dictionary));
                }
            }
        }
    }
    assert(all_bare(u, flags) =~= u) by {
        assert forall|i: int| 0 <= i < u.len() implies bare((#[trigger] u[i]).1, flags)
            == u[i].1 by {
            stripping_again_removes_nothing(c[i].1, flags);
        }
    }
}

proof fn lemma_catalog_once(d: object::DictView, flags: Strip)
    requires
        object::distinct_keys(d),
    ensures
        object::distinct_keys(bare_catalog(d, flags)),
{
    let a = flagged(d, flags, Strip::threads(), "Threads"@);
    let b = flagged(a, flags, Strip::struct_tree(), "StructTreeRoot"@);
    let c = flagged(b, flags, Strip::struct_tree(), "MarkInfo"@);
    let e = flagged(c, flags, Strip::spider(), "SpiderInfo"@);
    let f = flagged(e, flags, Strip::output_intents(), "OutputIntents"@);
    lemma_flagged(d, flags, Strip::threads(), "Threads"@);
    lemma_flagged(a, flags, Strip::struct_tree(), "StructTreeRoot"@);
    lemma_flagged(b, flags, Strip::struct_tree(), "MarkInfo"@);
    lemma_flagged(c, flags, Strip::spider(), "SpiderInfo"@);
    lemma_flagged(e, flags, Strip::output_intents(), "OutputIntents"@);
    lemma_flagged(f, flags, Strip::metadata(), "Metadata"@);
}

// ------------------------------------------------------------- the stage

/// How many entries stripping removes.
pub open spec fn removed_count(doc: document::PdfView, flags: Strip) -> int {
    entries_in(doc.objects, doc.objects.len() as int) - entries_in(
        stripped(doc, flags),
        stripped(doc, flags).len() as int,
    )
}

/// What the stage says.
pub open spec fn strip_notes(doc: document::PdfView, flags: Strip) -> Seq<Seq<char>> {
    if removed_count(doc, flags) > 0 {
        seq![
            "strip: removed "@ + text::number(removed_count(doc, flags) as nat) + " entries ("@
                + config::flags_text(config::strip_names(), flags.0) + ")"@,
        ]
    } else {
        Seq::empty()
    }
}

/// The stage that strips.
pub struct StripDocument;

impl StripDocument {
    pub fn name(&self) -> (r: &'static str)
        ensures
            r@ == "strip"@,
    {
        "strip"
    }

    /// Whether anything is to be stripped.
    pub fn enabled(&self, config: &Config) -> (r: bool)
        ensures
            r == (config.strip.0 != 0),
    {
        config.strip.0 != 0
    }

    /// Strips what the configuration asks for, and notes how much that was.
    pub fn run(&self, doc: &mut Pdf, config: &Config, report: &mut Report)
        requires
            old(doc).wf(),
        ensures
            final(doc).wf(),
            final(doc)@ == (document::PdfView {
                objects: stripped(old(doc)@, config.strip),
                ..old(doc)@
            }),
            final(doc).encryption == old(doc).encryption,
            final(report).said() == old(report).said() + strip_notes(old(doc)@, config.strip),
            final(report).stages == old(report).stages,
            final(report).input_bytes == old(report).input_bytes,
            final(report).output_bytes == old(report).output_bytes,
            final(report).images == old(report).images,
            final(report).fonts == old(report).fonts,
    {
        let removed: u128 = strip(doc, config.strip);
        if removed > 0 {
            let mut note = "strip: removed ".to_owned();
            text::push_number(&mut note, removed);
            note.append(" entries (");
            note.append(config.strip.to_text().as_str());
            note.append(")");
            report.note(note.as_str());
        }
        assert(report.said() =~= old(report).said() + strip_notes(old(doc)@, config.strip));
    }
}

/// What tells the keys apart that decide what an object loses.
proof fn lemma_stripped_keys()
    ensures
        "Type"@.len() == 4,
        "Subtype"@.len() == 7,
        "Metadata"@.len() == 8,
        "PieceInfo"@.len() == 9,
        "StructParents"@.len() == 13,
        "StructParent"@.len() == 12,
        "B"@.len() == 1,
        "Thumb"@.len() == 5,
        "Alternates"@.len() == 10,
{
    reveal_strlit("Type");
    reveal_strlit("Subtype");
    reveal_strlit("Metadata");
    reveal_strlit("PieceInfo");
    reveal_strlit("StructParents");
    reveal_strlit("StructParent");
    reveal_strlit("B");
    reveal_strlit("Thumb");
    reveal_strlit("Alternates");
}

/// A typed dictionary and a stream lose what their flags name: metadata,
/// private data of applications, and the links into the structure tree; a page
/// loses its beads and its thumbnail, and an image its alternates.
pub proof fn flagged_entries_are_removed(v: ValueView, flags: Strip)
    requires
        keys_once(v),
    ensures
        v is Stream || (v is Dictionary && entry_of(v, bytes::text("Type"@)) is Some) ==> {
            let w = bare(v, flags);
            &&& config::includes(flags.0, Strip::metadata().0) ==> entry_of(
                w,
                bytes::text("Metadata"@),
            ) is None
            &&& config::includes(flags.0, Strip::piece_info().0) ==> entry_of(
                w,
                bytes::text("PieceInfo"@),
            ) is None
            &&& config::includes(flags.0, Strip::struct_tree().0) ==> entry_of(
                w,
                bytes::text("StructParents"@),
            ) is None && entry_of(w, bytes::text("StructParent"@)) is None
            &&& v is Dictionary && names(v->Dictionary_0, "Type"@, "Page"@) ==> {
                &&& config::includes(flags.0, Strip::threads().0) ==> entry_of(w, bytes::text("B"@))
                    is None
                &&& config::includes(flags.0, Strip::thumbnails().0) ==> entry_of(
                    w,
                    bytes::text("Thumb"@),
                ) is None
            }
            &&& v is Stream && entry_of(v, bytes::text("Subtype"@)) == Some(
                ValueView::Name(bytes::text("Image"@)),
            ) ==> (config::includes(flags.0, Strip::alternates().0) ==> entry_of(
                w,
                bytes::text("Alternates"@),
            ) is None)
        },
{
    bytes::lemma_texts_differ();
    lemma_stripped_keys();
    let d = match v {
        ValueView::Dictionary(d) => d,
        ValueView::Stream(d, _) => d,
        _ => Seq::empty(),
    };
    if v is Stream || v is Dictionary {
        let d1 = flagged(d, flags, Strip::metadata(), "Metadata"@);
        let d2 = flagged(d1, flags, Strip::piece_info(), "PieceInfo"@);
        let d3 = flagged(d2, flags, Strip::struct_tree(), "StructParents"@);
        let d4 = flagged(d3, flags, Strip::struct_tree(), "StructParent"@);
        lemma_flagged(d, flags, Strip::metadata(), "Metadata"@);
        lemma_flagged(d1, flags, Strip::piece_info(), "PieceInfo"@);
        lemma_flagged(d2, flags, Strip::struct_tree(), "StructParents"@);
        lemma_flagged(d3, flags, Strip::struct_tree(), "StructParent"@);
        let d5 = flagged(d4, flags, Strip::threads(), "B"@);
        lemma_flagged(d4, flags, Strip::threads(), "B"@);
        lemma_flagged(d5, flags, Strip::thumbnails(), "Thumb"@);
        lemma_flagged(d4, flags, Strip::alternates(), "Alternates"@);
    }
}

/// A catalog loses its article threads, its structure tree, its web capture
/// data, its output intents and its metadata where the flags name them.
pub proof fn flagged_catalog_entries_are_removed(d: object::DictView, flags: Strip)
    requires
        object::distinct_keys(d),
    ensures
        ({
            let c = bare_catalog(d, flags);
            &&& config::includes(flags.0, Strip::threads().0) ==> object::lookup(
                c,
                bytes::text("Threads"@),
            ) is None
            &&& config::includes(flags.0, Strip::struct_tree().0) ==> object::lookup(
                c,
                bytes::text("StructTreeRoot"@),
            ) is None && object::lookup(c, bytes::text("MarkInfo"@)) is None
            &&& config::includes(flags.0, Strip::spider().0) ==> object::lookup(
                c,
                bytes::text("SpiderInfo"@),
            ) is None
            &&& config::includes(flags.0, Strip::output_intents().0) ==> object::lookup(
                c,
                bytes::text("OutputIntents"@),
            ) is None
            &&& config::includes(flags.0, Strip::metadata().0) ==> object::lookup(
                c,
                bytes::text("Metadata"@),
            ) is None
        }),
{
    let d1 = flagged(d, flags, Strip::threads(), "Threads"@);
    let d2 = flagged(d1, flags, Strip::struct_tree(), "StructTreeRoot"@);
    let d3 = flagged(d2, flags, Strip::struct_tree(), "MarkInfo"@);
    let d4 = flagged(d3, flags, Strip::spider(), "SpiderInfo"@);
    let d5 = flagged(d4, flags, Strip::output_intents(), "OutputIntents"@);
    lemma_flagged(d, flags, Strip::threads(), "Threads"@);
    lemma_flagged(d1, flags, Strip::struct_tree(), "StructTreeRoot"@);
    lemma_flagged(d2, flags, Strip::struct_tree(), "MarkInfo"@);
    lemma_flagged(d3, flags, Strip::spider(), "SpiderInfo"@);
    lemma_flagged(d4, flags, Strip::output_intents(), "OutputIntents"@);
    lemma_flagged(d5, flags, Strip::metadata(), "Metadata"@);
}

} // verus!
