//! Find every placement of every image and every string that is shown.
//!
//! Walks each page's content, descends into form XObjects, tiling patterns and
//! annotation appearance streams, and lists what moves or clips the drawing,
//! every image that is placed, and every string that is shown; the same walk
//! records, per font object, every string shown with it (`Tj`, `TJ`, `'`,
//! `"`), so the font stage knows which codes are used.
//!
//! Images and fonts reached only through paths the walker does not follow
//! (inline images, Type 3 glyph procedures, shading dictionaries, form
//! field default appearances) get no entry. Nothing here changes the document.
pub mod walker;

use vstd::prelude::*;

use crate::backend;
use crate::bytes;
use crate::config::Config;
use crate::content::operations;
use crate::content::operations::OperationView;
use crate::document;
use crate::document::Pdf;
use crate::nameset::NameSet;
use crate::object;
use crate::object::{Dict, ObjectId, Value, ValueView};
use crate::text;
use crate::usage::walker::{Event, EventView};

verus! {

/// The strings a font was shown with, as raw code bytes.
#[derive(Debug)]
pub struct TextUsage {
    pub strings: NameSet,
}

/// What pages draw with.
#[derive(Debug)]
pub struct ImageUsage {
    /// What a walk through the pages meets.
    pub events: Vec<Event>,
    /// Per font object: what was shown with it. A font that is used but
    /// never appears here was reached through a path the walker does not
    /// follow.
    pub fonts: Vec<(ObjectId, TextUsage)>,
}

/// Whether a string is shown with a font.
pub open spec fn shows(events: Seq<EventView>, font: ObjectId, s: Seq<u8>) -> bool {
    events.contains(EventView::Show { font, text: s })
}

/// The strings that an entry holds.
pub open spec fn entry_holds(e: (ObjectId, TextUsage), font: ObjectId, s: Seq<u8>) -> bool {
    e.0 == font && e.1.strings.holds(s)
}

/// Whether the entries hold a string of a font.
pub open spec fn fonts_hold(fonts: Seq<(ObjectId, TextUsage)>, font: ObjectId, s: Seq<u8>) -> bool {
    exists|i: int| 0 <= i < fonts.len() && entry_holds(#[trigger] fonts[i], font, s)
}

/// The entries are sets, and no font has two.
pub open spec fn fonts_wf(fonts: Seq<(ObjectId, TextUsage)>) -> bool {
    (forall|i: int| 0 <= i < fonts.len() ==> (#[trigger] fonts[i]).1.strings.wf()) && forall|
        i: int,
        j: int,
    |
        0 <= i < j < fonts.len() ==> (#[trigger] fonts[i]).0 != (#[trigger] fonts[j]).0
}

/// What the first `n` pages meet.
pub open spec fn pages_events(t: document::TableView, ids: Seq<ObjectId>, n: int) -> Seq<EventView>
    decreases n,
{
    if n <= 0 || n > ids.len() {
        Seq::empty()
    } else {
        pages_events(t, ids, n - 1) + walker::page_events(t, ids[n - 1])
    }
}

/// What all pages meet.
pub open spec fn all_events(doc: document::PdfView) -> Seq<EventView> {
    let ids = backend::page_ids(doc);
    pages_events(doc.objects, ids, ids.len() as int)
}

fn record_string(fonts: &mut Vec<(ObjectId, TextUsage)>, font: ObjectId, s: &Vec<u8>)
    requires
        fonts_wf(old(fonts)@),
    ensures
        fonts_wf(final(fonts)@),
        forall|f: ObjectId, x: Seq<u8>| #[trigger]
            fonts_hold(final(fonts)@, f, x) <==> fonts_hold(old(fonts)@, f, x) || (f == font && x
                == s@),
{
    let ghost before = fonts@;
    let mut i: usize = 0;
    while i < fonts.len()
        invariant
            i <= fonts@.len(),
            fonts@ == before,
            before == old(fonts)@,
            fonts_wf(before),
            forall|k: int| 0 <= k < i ==> (#[trigger] before[k]).0 != font,
        decreases fonts@.len() - i,
    {
        if fonts[i].0.0 == font.0 && fonts[i].0.1 == font.1 {
            fonts[i].1.strings.insert(s);
            proof {
                let after = fonts@;
                assert forall|k: int| 0 <= k < after.len() && k != i implies after[k]
                    == #[trigger] before[k] by {}
                assert(after[i as int].0 == font);
                assert forall|f: ObjectId, x: Seq<u8>| #[trigger] fonts_hold(after, f, x)
                    <==> fonts_hold(before, f, x) || (f == font && x == s@) by {
                    if fonts_hold(before, f, x) {
                        let k = choose|k: int|
                            0 <= k < before.len() && entry_holds(#[trigger] before[k], f, x);
                        assert(entry_holds(after[k], f, x));
                    }
                    if f == font && x == s@ {
                        assert(entry_holds(after[i as int], f, x));
                    }
                    if fonts_hold(after, f, x) {
                        let k = choose|k: int|
                            0 <= k < after.len() && entry_holds(#[trigger] after[k], f, x);
                        if k != i {
                            assert(entry_holds(before[k], f, x));
                        } else if x != s@ {
                            assert(entry_holds(before[k], f, x));
                        }
                    }
                }
                assert forall|a: int, b: int| 0 <= a < b < after.len() implies (
                #[trigger] after[a]).0 != (#[trigger] after[b]).0 by {
                    assert(before[a].0 != before[b].0);
                }
            }
            return ;
        }
        i += 1;
    }
    let mut strings = NameSet::new();
    strings.insert(s);
    let ghost fresh = (font, TextUsage { strings });
    fonts.push((font, TextUsage { strings }));
    proof {
        let after = fonts@;
        assert(after =~= before.push(fresh));
        assert forall|f: ObjectId, x: Seq<u8>| #[trigger] fonts_hold(after, f, x) <==> fonts_hold(
            before,
            f,
            x,
        ) || (f == font && x == s@) by {
            if fonts_hold(before, f, x) {
                let k = choose|k: int|
                    0 <= k < before.len() && entry_holds(#[trigger] before[k], f, x);
                assert(entry_holds(after[k], f, x));
            }
            if f == font && x == s@ {
                assert(entry_holds(after[before.len() as int], f, x));
            }
            if fonts_hold(after, f, x) {
                let k = choose|k: int|
                    0 <= k < after.len() && entry_holds(#[trigger] after[k], f, x);
                if k < before.len() {
                    assert(entry_holds(before[k], f, x));
                }
            }
        }
    }
}

fn record_fonts(events: &Vec<Event>) -> (r: Vec<(ObjectId, TextUsage)>)
    ensures
        fonts_wf(r@),
        forall|f: ObjectId, x: Seq<u8>| #[trigger]
            fonts_hold(r@, f, x) <==> shows(walker::events_view(events@), f, x),
{
    let ghost view = walker::events_view(events@);
    let mut fonts: Vec<(ObjectId, TextUsage)> = Vec::new();
    let mut i: usize = 0;
    while i < events.len()
        invariant
            i <= events@.len(),
            view == walker::events_view(events@),
            fonts_wf(fonts@),
            forall|f: ObjectId, x: Seq<u8>| #[trigger]
                fonts_hold(fonts@, f, x) <==> shows(view.take(i as int), f, x),
        decreases events@.len() - i,
    {
        let ghost before = fonts@;
        assert(view[i as int] == events@[i as int]@);
        assert(view.take(i + 1) =~= view.take(i as int).push(view[i as int]));
        if let Event::Show { font, text } = &events[i] {
            record_string(&mut fonts, *font, text);
        }
        proof {
            assert forall|f: ObjectId, x: Seq<u8>| #[trigger] fonts_hold(fonts@, f, x) <==> shows(
                view.take(i + 1),
                f,
                x,
            ) by {
                let wanted = EventView::Show { font: f, text: x };
                let front = view.take(i as int);
                let all = view.take(i + 1);
                assert(fonts_hold(before, f, x) <==> shows(front, f, x));
                if front.contains(wanted) {
                    let k = choose|k: int| 0 <= k < front.len() && front[k] == wanted;
                    assert(all[k] == wanted);
                }
                if view[i as int] == wanted {
                    assert(all[i as int] == wanted);
                }
                if all.contains(wanted) {
                    let k = choose|k: int| 0 <= k < all.len() && all[k] == wanted;
                    if k < i {
                        assert(front[k] == wanted);
                    }
                }
            }
        }
        i += 1;
    }
    assert(view.take(i as int) =~= view);
    fonts
}

/// The first stage.
pub struct AnalyzeUsage;

impl AnalyzeUsage {
    pub fn name(&self) -> (r: &'static str)
        ensures
            r@ == "usage"@,
    {
        "usage"
    }

    /// Whether a configuration asks for anything that needs the analysis.
    pub fn enabled(&self, config: &Config) -> (r: bool)
        ensures
            r == (config.bitonal_dpi.applies() || config.gray_dpi.applies()
                || config.color_dpi.applies() || config.clip_images || config.subset_fonts
                || config.merge_fonts),
    {
        config.bitonal_dpi.enabled() || config.gray_dpi.enabled() || config.color_dpi.enabled()
            || config.clip_images || config.subset_fonts || config.merge_fonts
    }

    /// What the pages of a document draw with.
    pub fn run(&self, doc: &Pdf) -> (r: ImageUsage)
        requires
            doc.wf(),
        ensures
            walker::events_view(r.events@) == all_events(doc@),
            fonts_wf(r.fonts@),
            forall|f: ObjectId, x: Seq<u8>| #[trigger]
                fonts_hold(r.fonts@, f, x) <==> shows(all_events(doc@), f, x),
    {
        let ids = backend::pages(doc);
        let ghost t = doc@.objects;
        let mut events: Vec<Event> = Vec::new();
        let mut i: usize = 0;
        assert(walker::events_view(events@) =~= pages_events(t, ids@, 0));
        while i < ids.len()
            invariant
                i <= ids@.len(),
                doc.wf(),
                t == doc@.objects,
                walker::events_view(events@) == pages_events(t, ids@, i as int),
            decreases ids@.len() - i,
        {
            walker::walk_page(doc, ids[i], &mut events);
            i += 1;
        }
        let fonts = record_fonts(&events);
        ImageUsage { events, fonts }
    }
}

// ------------------------------------------------------------- appearances

/// Whether one of the first `n` operations selects a font.
pub open spec fn ops_select(ops: Seq<OperationView>, n: int, font: Seq<u8>) -> bool {
    exists|k: int| 0 <= k < n && op_selects(#[trigger] ops[k], font)
}

/// Whether an operation selects a font.
pub open spec fn op_selects(op: OperationView, font: Seq<u8>) -> bool {
    op.operator == "Tf"@ && op.operands.len() > 0 && op.operands[0].value == ValueView::Name(font)
}

/// Whether a default appearance string names a font.
pub open spec fn string_names(s: Seq<u8>, font: Seq<u8>) -> bool {
    match operations::lenient_operations(s) {
        Some(ops) => ops_select(ops, ops.len() as int, font),
        None => false,
    }
}

/// The default appearance of a dictionary.
pub open spec fn appearance_string(d: object::DictView) -> Option<Seq<u8>> {
    match object::lookup(d, bytes::text("DA"@)) {
        Some(ValueView::String(s, _)) => Some(s),
        _ => None,
    }
}

/// Whether a default appearance inside an object names a font.
pub open spec fn value_names(v: ValueView, font: Seq<u8>) -> bool
    decreases v, 1int,
{
    match v {
        ValueView::Array(items) => exists|i: int|
            0 <= i < items.len() && value_names(#[trigger] items[i], font),
        ValueView::Dictionary(d) => dict_names(d, font),
        ValueView::Stream(d, _) => dict_names(d, font),
        _ => false,
    }
}

/// Whether a default appearance inside a dictionary names a font.
pub open spec fn dict_names(d: object::DictView, font: Seq<u8>) -> bool
    decreases d, 0int,
{
    (match appearance_string(d) {
        Some(s) => string_names(s, font),
        None => false,
    }) || exists|i: int| 0 <= i < d.len() && value_names((#[trigger] d[i]).1, font)
}

/// Whether every default appearance inside an object can be read.
pub open spec fn value_readable(v: ValueView) -> bool
    decreases v, 1int,
{
    match v {
        ValueView::Array(items) => forall|i: int|
            0 <= i < items.len() ==> value_readable(#[trigger] items[i]),
        ValueView::Dictionary(d) => dict_readable(d),
        ValueView::Stream(d, _) => dict_readable(d),
        _ => true,
    }
}

/// Whether every default appearance inside a dictionary can be read.
pub open spec fn dict_readable(d: object::DictView) -> bool
    decreases d, 0int,
{
    (match appearance_string(d) {
        Some(s) => operations::lenient_operations(s) is Some,
        None => true,
    }) && forall|i: int| 0 <= i < d.len() ==> value_readable((#[trigger] d[i]).1)
}

/// Whether a default appearance in the first `n` objects names a font.
pub open spec fn table_names(t: document::TableView, n: int, font: Seq<u8>) -> bool {
    exists|i: int| 0 <= i < n && value_names((#[trigger] t[i]).1, font)
}

/// Whether every default appearance in the first `n` objects can be read.
pub open spec fn table_readable(t: document::TableView, n: int) -> bool {
    forall|i: int| 0 <= i < n ==> value_readable((#[trigger] t[i]).1)
}

fn collect_string(s: &Vec<u8>, out: &mut NameSet) -> (r: bool)
    requires
        old(out).wf(),
    ensures
        final(out).wf(),
        r == (operations::lenient_operations(s@) is Some),
        forall|f: Seq<u8>| #[trigger]
            final(out).holds(f) <==> old(out).holds(f) || string_names(s@, f),
{
    let ghost before = *out;
    let ops = match operations::decode(s) {
        Some(ops) => ops,
        None => {
            return false;
        },
    };
    let ghost view = operations::operations_view(ops@);
    let mut i: usize = 0;
    while i < ops.len()
        invariant
            i <= ops@.len(),
            view == operations::operations_view(ops@),
            out.wf(),
            forall|f: Seq<u8>| #[trigger]
                out.holds(f) <==> before.holds(f) || ops_select(view, i as int, f),
        decreases ops@.len() - i,
    {
        let ghost at = *out;
        let op = &ops[i];
        assert(view[i as int] == op@);
        if text::is(&op.operator, "Tf") && op.operands.len() > 0 {
            assert(op@.operands[0] == op.operands@[0]@);
            if let Value::Name(n) = &op.operands[0].value {
                out.insert(n);
            }
        }
        proof {
            assert forall|f: Seq<u8>| #[trigger] out.holds(f) <==> before.holds(f) || ops_select(
                view,
                i + 1,
                f,
            ) by {
                assert(at.holds(f) <==> before.holds(f) || ops_select(view, i as int, f));
                if ops_select(view, i as int, f) {
                    let k = choose|k: int| 0 <= k < i && op_selects(#[trigger] view[k], f);
                    assert(op_selects(view[k], f));
                }
                if op_selects(view[i as int], f) {
                    assert(ops_select(view, i + 1, f));
                }
            }
        }
        i += 1;
    }
    true
}

fn collect_dict(d: &Dict, out: &mut NameSet) -> (r: bool)
    requires
        old(out).wf(),
    ensures
        final(out).wf(),
        r == dict_readable(d@),
        forall|f: Seq<u8>| #[trigger]
            final(out).holds(f) <==> old(out).holds(f) || dict_names(d@, f),
    decreases d,
{
    let ghost view = d@;
    let mut fine = match d.get("DA".as_bytes()) {
        Some(Value::String(s, _)) => collect_string(s, out),
        _ => true,
    };
    let ghost own = *out;
    let ghost own_fine = fine;
    let mut i: usize = 0;
    while i < d.entries.len()
        invariant
            i <= d.entries@.len(),
            view == d@,
            out.wf(),
            fine == (own_fine && forall|k: int|
                0 <= k < i ==> value_readable((#[trigger] view[k]).1)),
            forall|f: Seq<u8>| #[trigger]
                out.holds(f) <==> own.holds(f) || exists|k: int|
                    0 <= k < i && value_names((#[trigger] view[k]).1, f),
        decreases d.entries@.len() - i,
    {
        let ghost at = *out;
        assert(view[i as int].1 == d.entries@[i as int].1@);
        assert(decreases_to!(d => d.entries@[i as int].1));
        if !collect_value(&d.entries[i].1, out) {
            fine = false;
        }
        proof {
            assert forall|f: Seq<u8>| #[trigger] out.holds(f) <==> own.holds(f) || exists|k: int|
                0 <= k < i + 1 && value_names((#[trigger] view[k]).1, f) by {
                assert(at.holds(f) <==> own.holds(f) || exists|k: int|
                    0 <= k < i && value_names((#[trigger] view[k]).1, f));
                if value_names(view[i as int].1, f) {
                    assert(out.holds(f));
                }
            }
        }
        i += 1;
    }
    fine
}

fn collect_value(v: &Value, out: &mut NameSet) -> (r: bool)
    requires
        old(out).wf(),
    ensures
        final(out).wf(),
        r == value_readable(v@),
        forall|f: Seq<u8>| #[trigger]
            final(out).holds(f) <==> old(out).holds(f) || value_names(v@, f),
    decreases v,
{
    match v {
        Value::Array(items) => {
            let ghost view = object::objects_view(items@);
            let ghost before = *out;
            proof {
                object::lemma_array_view(*items);
            }
            let mut fine = true;
            let mut i: usize = 0;
            while i < items.len()
                invariant
                    i <= items@.len(),
                    v == Value::Array(*items),
                    view == object::objects_view(items@),
                    out.wf(),
                    fine == forall|k: int| 0 <= k < i ==> value_readable(#[trigger] view[k]),
                    forall|f: Seq<u8>| #[trigger]
                        out.holds(f) <==> before.holds(f) || exists|k: int|
                            0 <= k < i && value_names(#[trigger] view[k], f),
                decreases items@.len() - i,
            {
                let ghost at = *out;
                assert(view[i as int] == items@[i as int]@);
                assert(decreases_to!(v => v->Array_0@[i as int]));
                if !collect_value(&items[i], out) {
                    fine = false;
                }
                proof {
                    assert forall|f: Seq<u8>| #[trigger] out.holds(f) <==> before.holds(f)
                        || exists|k: int| 0 <= k < i + 1 && value_names(#[trigger] view[k], f) by {
                        assert(at.holds(f) <==> before.holds(f) || exists|k: int|
                            0 <= k < i && value_names(#[trigger] view[k], f));
                        if value_names(view[i as int], f) {
                            assert(out.holds(f));
                        }
                    }
                }
                i += 1;
            }
            assert(v@ == ValueView::Array(view));
            proof {
                if !fine {
                    let k = choose|k: int|
                        0 <= k < view.len() && !value_readable(#[trigger] view[k]);
                    assert(!value_readable(v@->Array_0[k]));
                }
                assert forall|f: Seq<u8>| #[trigger] out.holds(f) <==> before.holds(f)
                    || value_names(v@, f) by {
                    if value_names(v@, f) {
                        let k = choose|k: int|
                            0 <= k < view.len() && value_names(#[trigger] v@->Array_0[k], f);
                        assert(value_names(view[k], f));
                    }
                    if exists|k: int| 0 <= k < view.len() && value_names(#[trigger] view[k], f) {
                        let k = choose|k: int|
                            0 <= k < view.len() && value_names(#[trigger] view[k], f);
                        assert(value_names(v@->Array_0[k], f));
                    }
                }
            }
            fine
        },
        Value::Dictionary(d) => collect_dict(d, out),
        Value::Stream(s) => collect_dict(&s.dict, out),
        _ => true,
    }
}

/// The fonts that default appearances name; nothing where one of them cannot
/// be read.
pub fn appearance_fonts(doc: &Pdf) -> (r: Option<NameSet>)
    ensures
        match r {
            Some(set) => set.wf() && table_readable(doc@.objects, doc@.objects.len() as int)
                && forall|f: Seq<u8>| #[trigger]
                set.holds(f) <==> table_names(doc@.objects, doc@.objects.len() as int, f),
            None => !table_readable(doc@.objects, doc@.objects.len() as int),
        },
{
    let ghost t = doc@.objects;
    let mut out = NameSet::new();
    let mut fine = true;
    let mut i: usize = 0;
    while i < doc.objects.len()
        invariant
            i <= doc.objects@.len(),
            t == doc@.objects,
            out.wf(),
            fine == table_readable(t, i as int),
            forall|f: Seq<u8>| #[trigger] out.holds(f) <==> table_names(t, i as int, f),
        decreases doc.objects@.len() - i,
    {
        let ghost at = out;
        assert(t[i as int].1 == doc.objects@[i as int].1@);
        if !collect_value(&doc.objects[i].1, &mut out) {
            assert(!value_readable(t[i as int].1));
            fine = false;
        }
        proof {
            assert forall|f: Seq<u8>| #[trigger] out.holds(f) <==> table_names(t, i + 1, f) by {
                assert(at.holds(f) <==> table_names(t, i as int, f));
                if table_names(t, i as int, f) {
                    let k = choose|k: int| 0 <= k < i && value_names((#[trigger] t[k]).1, f);
                    assert(value_names(t[k].1, f));
                }
                if value_names(t[i as int].1, f) {
                    assert(table_names(t, i + 1, f));
                }
            }
        }
        i += 1;
    }
    if fine {
        Some(out)
    } else {
        None
    }
}

// ------------------------------------------------------------- laws

/// A default appearance names the fonts that its `Tf` operators select, and
/// does so wherever its dictionary stands.
pub proof fn default_appearances_name_their_fonts(
    d: object::DictView,
    s: Seq<u8>,
    ops: Seq<OperationView>,
    k: int,
    font: Seq<u8>,
    items: Seq<ValueView>,
    i: int,
)
    requires
        object::lookup(d, bytes::text("DA"@)) matches Some(ValueView::String(text, _)) && text == s,
        operations::lenient_operations(s) == Some(ops),
        0 <= k < ops.len(),
        ops[k].operator == "Tf"@,
        ops[k].operands.len() > 0,
        ops[k].operands[0].value == ValueView::Name(font),
        0 <= i < items.len(),
        items[i] == ValueView::Dictionary(d),
    ensures
        value_names(ValueView::Dictionary(d), font),
        value_names(ValueView::Array(items), font),
{
    assert(op_selects(ops[k], font));
    assert(dict_names(d, font));
    assert(value_names(items[i], font));
    reveal_with_fuel(value_names, 2);
    let all = ValueView::Array(items);
    match all {
        ValueView::Array(list) => {
            assert(0 <= i < list.len() && value_names(list[i], font));
        },
        _ => {},
    }
}

} // verus!
