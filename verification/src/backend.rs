//! The bridge to `lopdf`: its objects and documents as plain values and back,
//! and the calls that take a whole document.
use vstd::prelude::*;

use lopdf::Object as Raw;

use crate::document;
use crate::document::{Encryption, Pdf};
use crate::object;
use crate::pages;
use crate::object::{DataStream, Dict, ObjectId, StringForm, Value, ValueView};

verus! {

/// An object of `lopdf`.
#[verifier::external_type_specification]
#[verifier::external_body]
pub struct ExLopdfObject(lopdf::Object);

/// A dictionary of `lopdf`.
#[verifier::external_type_specification]
#[verifier::external_body]
pub struct ExLopdfDictionary(lopdf::Dictionary);

/// A dictionary of `lopdf` as plain values, entry for entry.
#[verifier::external_body]
pub(crate) fn from_dictionary(d: &lopdf::Dictionary) -> (r: Dict) {
    Dict { entries: d.iter().map(|(k, v)| (k.clone(), from_object(v))).collect() }
}

/// An object of `lopdf` as a plain value, variant for variant; a real becomes
/// the text that `Display` gives it.
#[verifier::external_body]
pub(crate) fn from_object(o: &lopdf::Object) -> (r: Value) {
    match o {
        Raw::Null => Value::Null,
        Raw::Boolean(b) => Value::Boolean(*b),
        Raw::Integer(i) => Value::Integer(*i),
        Raw::Real(r) => Value::Real(format!("{r}").into_bytes()),
        Raw::Name(n) => Value::Name(n.clone()),
        Raw::String(s, f) => Value::String(s.clone(), from_format(f)),
        Raw::Array(a) => Value::Array(a.iter().map(from_object).collect()),
        Raw::Dictionary(d) => Value::Dictionary(from_dictionary(d)),
        Raw::Stream(s) => Value::Stream(
            DataStream { dict: from_dictionary(&s.dict), content: s.content.clone() }),
        Raw::Reference(id) => Value::Reference(*id),
    }
}

/// A string format of `lopdf`.
#[verifier::external_type_specification]
#[verifier::external_body]
pub struct ExLopdfStringFormat(lopdf::StringFormat);

/// A string format of `lopdf` as a plain value, variant for variant.
#[verifier::external_body]
fn from_format(f: &lopdf::StringFormat) -> (r: StringForm) {
    match f {
        lopdf::StringFormat::Literal => StringForm::Literal,
        lopdf::StringFormat::Hexadecimal => StringForm::Hexadecimal,
    }
}

/// A stream of `lopdf`.
#[verifier::external_type_specification]
#[verifier::external_body]
pub struct ExLopdfStream(lopdf::Stream);

/// A plain dictionary as one of `lopdf`, entry for entry.
#[verifier::external_body]
pub(crate) fn to_dictionary(d: &Dict) -> (r: lopdf::Dictionary) {
    d.entries.iter().map(|(k, v)| (k.clone(), to_object(v))).collect()
}

/// A plain value as an object of `lopdf`, variant for variant; a real is read
/// from its text.
#[verifier::external_body]
pub(crate) fn to_object(v: &Value) -> (r: lopdf::Object) {
    match v {
        Value::Null => Raw::Null,
        Value::Boolean(b) => Raw::Boolean(*b),
        Value::Integer(i) => Raw::Integer(*i),
        Value::Real(t) => Raw::Real(String::from_utf8_lossy(t).parse().unwrap_or_default()),
        Value::Name(n) => Raw::Name(n.clone()),
        Value::String(s, f) => Raw::String(s.clone(), to_format(f)),
        Value::Array(a) => Raw::Array(a.iter().map(to_object).collect()),
        Value::Dictionary(d) => Raw::Dictionary(to_dictionary(d)),
        Value::Stream(s) => Raw::Stream(to_stream(s)),
        Value::Reference(id) => Raw::Reference(*id),
    }
}

/// A plain stream as one of `lopdf`: the same dictionary and content.
#[verifier::external_body]
pub(crate) fn to_stream(s: &DataStream) -> (r: lopdf::Stream) {
    let mut stream = lopdf::Stream::new(lopdf::Dictionary::new(), s.content.clone());
    stream.dict = to_dictionary(&s.dict);
    stream
}

/// A plain string format as one of `lopdf`, variant for variant.
#[verifier::external_body]
fn to_format(f: &StringForm) -> (r: lopdf::StringFormat) {
    match f {
        StringForm::Literal => lopdf::StringFormat::Literal,
        StringForm::Hexadecimal => lopdf::StringFormat::Hexadecimal,
    }
}

/// A stream's content with its filters taken off, or why that fails; it fails
/// above `limit` bytes.
pub uninterp spec fn decompressed(
    dict: object::DictView,
    content: Seq<u8>,
    limit: usize,
) -> Result<Seq<u8>, Seq<char>>;

/// What decompressing gives: the bytes, or why there are none.
pub open spec fn outcome_view(r: Result<Vec<u8>, String>) -> Result<Seq<u8>, Seq<char>> {
    match r {
        Ok(b) => Ok(b@),
        Err(e) => Err(e@),
    }
}

/// The bytes, if there are any.
pub open spec fn bytes_view(b: Option<Vec<u8>>) -> Option<Seq<u8>> {
    match b {
        Some(b) => Some(b@),
        None => None,
    }
}

/// `lopdf::Stream::decompressed_content_with_limit`, an error by its text.
#[verifier::external_body]
pub(crate) fn decompress(s: &DataStream, limit: usize) -> (r: Result<Vec<u8>, String>)
    ensures
        outcome_view(r) == decompressed(s.dict@, s.content@, limit),
{
    to_stream(s).decompressed_content_with_limit(limit).map_err(|e| e.to_string())
}

// ------------------------------------------------------------- documents

/// A document of `lopdf`.
#[verifier::external_type_specification]
#[verifier::external_body]
pub struct ExLopdfDocument(lopdf::Document);

/// A plain document as one of `lopdf`: the same version, mark, trailer,
/// objects, greatest number and kind of cross-reference data. Encryption is
/// left out, since the objects of a plain document are in the clear.
#[verifier::external_body]
fn to_document(doc: &Pdf) -> (r: lopdf::Document) {
    let mut d = lopdf::Document::new();
    d.version = doc.version.clone();
    d.binary_mark = doc.binary_mark.clone();
    d.trailer = to_dictionary(&doc.trailer);
    d.objects = doc.objects.iter().map(|(id, v)| (*id, to_object(v))).collect();
    d.max_id = doc.max_id;
    d.reference_table.cross_reference_type = match doc.xref_stream {
        true => lopdf::xref::XrefType::CrossReferenceStream,
        false => lopdf::xref::XrefType::CrossReferenceTable,
    };
    d
}

/// A document of `lopdf` as a plain one, part for part; of the encryption that
/// was taken off, the filters that it names and those that were read.
#[verifier::external_body]
fn from_document(d: &lopdf::Document, encryption: Option<Encryption>) -> (r: Pdf) {
    Pdf {
        version: d.version.clone(),
        binary_mark: d.binary_mark.clone(),
        trailer: from_dictionary(&d.trailer),
        objects: d.objects.iter().map(|(id, o)| (*id, from_object(o))).collect(),
        max_id: d.max_id,
        xref_stream: matches!(
            d.reference_table.cross_reference_type,
            lopdf::xref::XrefType::CrossReferenceStream
        ),
        encryption,
    }
}

/// A document with every reference that is reachable from its trailer replaced
/// by where it leads in a list of pairs.
pub uninterp spec fn repointed(
    doc: document::PdfView,
    pairs: Seq<(ObjectId, ObjectId)>,
) -> document::PdfView;

/// Pairs in ascending order of their first numbers.
pub open spec fn pairs_ascend(pairs: Seq<(ObjectId, ObjectId)>) -> bool {
    forall|i: int, j: int|
        0 <= i < j < pairs.len() ==> document::id_less(
            (#[trigger] pairs[i]).0,
            (#[trigger] pairs[j]).0,
        )
}

/// Where a number leads: to its partner, where the list of pairs holds it.
pub open spec fn leads_to(pairs: Seq<(ObjectId, ObjectId)>, id: ObjectId, to: ObjectId) -> bool {
    (exists|i: int| 0 <= i < pairs.len() && #[trigger] pairs[i] == (id, to)) || (to == id
        && forall|i: int| 0 <= i < pairs.len() ==> (#[trigger] pairs[i]).0 != id)
}

/// Whether an object refers to another, at any depth.
pub open spec fn refers(v: ValueView, id: ObjectId) -> bool
    decreases v, 1int,
{
    match v {
        ValueView::Reference(r) => r == id,
        ValueView::Array(items) => exists|i: int|
            0 <= i < items.len() && refers(#[trigger] items[i], id),
        ValueView::Dictionary(d) => dict_refers(d, id),
        ValueView::Stream(d, _) => dict_refers(d, id),
        _ => false,
    }
}

/// Whether an entry counts: a later one with the same key would replace it.
pub open spec fn entry_counts(d: object::DictView, i: int) -> bool {
    forall|j: int| i < j < d.len() ==> (#[trigger] d[j]).0 != d[i].0
}

/// Whether a dictionary refers to an object, at any depth.
pub open spec fn dict_refers(d: object::DictView, id: ObjectId) -> bool
    decreases d, 0int,
{
    exists|i: int|
        0 <= i < d.len() && refers((#[trigger] d[i]).1, id) && entry_counts(d, i)
}

/// Whether the object with one number refers to another.
pub open spec fn leads(t: document::TableView, from: ObjectId, to: ObjectId) -> bool {
    match document::find(t, from) {
        Some(v) => refers(v, to),
        None => false,
    }
}

/// Whether numbers lead from the trailer from one to the next.
pub open spec fn is_trail(doc: document::PdfView, way: Seq<ObjectId>) -> bool {
    way.len() > 0 && dict_refers(doc.trailer, way[0]) && forall|k: int|
        0 < k < way.len() ==> leads(doc.objects, way[k - 1], #[trigger] way[k])
}

/// Whether an object can be reached from the trailer.
pub open spec fn reached(doc: document::PdfView, id: ObjectId) -> bool {
    exists|way: Seq<ObjectId>| #[trigger] is_trail(doc, way) && way.last() == id
}

/// Whether `b` is `a` with each reference, at any depth, replaced by where it
/// leads. A real may be written otherwise.
pub open spec fn turned(
    a: ValueView,
    b: ValueView,
    pairs: Seq<(ObjectId, ObjectId)>,
) -> bool
    decreases a, 1int,
{
    match (a, b) {
        (ValueView::Reference(x), ValueView::Reference(y)) => leads_to(pairs, x, y),
        (ValueView::Array(p), ValueView::Array(q)) => p.len() == q.len() && forall|i: int|
            0 <= i < p.len() ==> turned(#[trigger] p[i], q[i], pairs),
        (ValueView::Dictionary(d), ValueView::Dictionary(e)) => turned_dict(d, e, pairs),
        (ValueView::Stream(d, c), ValueView::Stream(e, f)) => turned_dict(d, e, pairs) && c == f,
        (ValueView::Real(_), ValueView::Real(_)) => true,
        _ => a == b,
    }
}

/// Whether a dictionary is another with each reference replaced by where it
/// leads.
pub open spec fn turned_dict(
    d: object::DictView,
    e: object::DictView,
    pairs: Seq<(ObjectId, ObjectId)>,
) -> bool
    decreases d, 0int,
{
    d.len() == e.len() && forall|i: int|
        0 <= i < d.len() ==> (#[trigger] d[i]).0 == e[i].0 && turned(d[i].1, e[i].1, pairs)
}

/// No dictionary in a document holds a key twice.
pub open spec fn tidy(doc: document::PdfView) -> bool {
    object::keys_once_in(doc.trailer) && forall|i: int|
        0 <= i < doc.objects.len() ==> object::keys_once((#[trigger] doc.objects[i]).1)
}

/// Whether a document is another with the references replaced by where they
/// lead: in the trailer and in the objects that can be reached from it. The
/// other objects stay as they are.
pub open spec fn turned_doc(
    before: document::PdfView,
    after: document::PdfView,
    pairs: Seq<(ObjectId, ObjectId)>,
) -> bool {
    &&& after.version == before.version
    &&& after.binary_mark == before.binary_mark
    &&& after.max_id == before.max_id
    &&& after.xref_stream == before.xref_stream
    &&& turned_dict(before.trailer, after.trailer, pairs)
    &&& after.objects.len() == before.objects.len()
    &&& forall|i: int|
        0 <= i < before.objects.len() ==> turned(
            (#[trigger] before.objects[i]).1,
            after.objects[i].1,
            if reached(after, before.objects[i].0) {
                pairs
            } else {
                Seq::empty()
            },
        )
}

/// The partner of a number, or the number.
fn partner_of(pairs: &Vec<(ObjectId, ObjectId)>, id: ObjectId) -> (r: ObjectId)
    requires
        pairs_ascend(pairs@),
    ensures
        leads_to(pairs@, id, r),
{
    let mut low: usize = 0;
    let mut high: usize = pairs.len();
    while low < high
        invariant
            low <= high <= pairs@.len(),
            pairs_ascend(pairs@),
            forall|k: int| 0 <= k < low ==> document::id_less((#[trigger] pairs@[k]).0, id),
            forall|k: int|
                high <= k < pairs@.len() ==> document::id_less(id, (#[trigger] pairs@[k]).0),
        decreases high - low,
    {
        let mid = low + (high - low) / 2;
        let (from, to) = pairs[mid];
        if document::id_before(from, id) {
            low = mid + 1;
        } else if document::id_before(id, from) {
            high = mid;
        } else {
            assert(pairs@[mid as int] == (id, to));
            return to;
        }
    }
    id
}

/// `lopdf::Document::traverse_objects` with an action that replaces each
/// reference by where it leads. It changes objects in place: their numbers stay.
/// It starts from the trailer and goes on to what the new references lead to,
/// to each object once. What it makes of a dictionary that holds a key twice
/// is left unsaid: the dictionaries of `lopdf` hold the last entry only.
#[verifier::external_body]
pub(crate) fn repoint(doc: &mut Pdf, pairs: &Vec<(ObjectId, ObjectId)>)
    requires
        old(doc).wf(),
        pairs_ascend(pairs@),
    ensures
        final(doc)@ == repointed(old(doc)@, pairs@),
        tidy(old(doc)@) ==> turned_doc(old(doc)@, final(doc)@, pairs@),
        final(doc).encryption == old(doc).encryption,
        final(doc)@.objects.len() == old(doc)@.objects.len(),
        forall|i: int|
            0 <= i < old(doc)@.objects.len() ==> (#[trigger] final(doc)@.objects[i]).0 == old(
                doc,
            )@.objects[i].0,
{
    let mut d = to_document(doc);
    d.traverse_objects(
        |o| {
            if let Raw::Reference(id) = o {
                *id = partner_of(pairs, *id);
            }
        },
    );
    *doc = from_document(&d, doc.encryption.take());
}

/// The pages of a document, in order.
pub uninterp spec fn page_ids(doc: document::PdfView) -> Seq<ObjectId>;

/// `lopdf::Document::page_iter`, the pages taken one by one: how many there
/// are to come it only guesses.
#[verifier::external_body]
pub(crate) fn pages(doc: &Pdf) -> (r: Vec<ObjectId>)
    ensures
        r@ == page_ids(doc@),
{
    let mut ids = Vec::new();
    for id in to_document(doc).page_iter() {
        ids.push(id);
    }
    ids
}

/// What is known of an encryption: the filters of streams and strings, and
/// those that could be read.
pub open spec fn encryption_view(e: Option<Encryption>) -> Option<
    (Seq<u8>, Seq<u8>, Seq<Seq<u8>>),
> {
    match e {
        Some(e) => Some(
            (
                e.stream_filter@,
                e.string_filter@,
                e.known_filters@.map_values(|f: Vec<u8>| f@),
            ),
        ),
        None => None,
    }
}

/// What loading gave.
pub open spec fn loaded_view(r: Result<Pdf, String>) -> Result<
    (document::PdfView, Option<(Seq<u8>, Seq<u8>, Seq<Seq<u8>>)>),
    Seq<char>,
> {
    match r {
        Ok(doc) => Ok((doc@, encryption_view(doc.encryption))),
        Err(e) => Err(e@),
    }
}

/// What loading a file may give. A relation and not a function: the parts are
/// read in parallel and through a hash map, and which of two objects with one
/// number stays depends on the order.
pub uninterp spec fn may_load(
    input: Seq<u8>,
    loaded: Result<
        (document::PdfView, Option<(Seq<u8>, Seq<u8>, Seq<Seq<u8>>)>),
        Seq<char>,
    >,
) -> bool;

/// `lopdf::Document::load_mem`: the document with what is known of the
/// encryption that was taken off, an error by its text. The result is what
/// loading the file may give, and a document's objects come in ascending order
/// of their numbers, as the map that holds them keeps them. Which document it
/// is is left unsaid.
#[verifier::external_body]
pub(crate) fn load(input: &Vec<u8>) -> (r: Result<Pdf, String>)
    ensures
        may_load(input@, loaded_view(r)),
        match r {
            Ok(doc) => doc.wf(),
            Err(_) => true,
        },
{
    let d = lopdf::Document::load_mem(input).map_err(|e| e.to_string())?;
    let encryption = d.encryption_state.as_ref().map(
        |s|
            Encryption {
                stream_filter: s.default_stream_filter().to_vec(),
                string_filter: s.default_string_filter().to_vec(),
                known_filters: s.crypt_filters().keys().cloned().collect(),
            },
    );
    Ok(from_document(&d, encryption))
}

/// The parts of a document that writing it changes: its version, trailer,
/// greatest number and kind of cross-reference data, taken from a document of
/// `lopdf` one by one.
#[verifier::external_body]
fn take_header(doc: &mut Pdf, d: &lopdf::Document) {
    doc.version = d.version.clone();
    doc.trailer = from_dictionary(&d.trailer);
    doc.max_id = d.max_id;
    doc.xref_stream = matches!(
        d.reference_table.cross_reference_type,
        lopdf::xref::XrefType::CrossReferenceStream
    );
}

/// The bytes of a document written with object streams of up to 100 objects,
/// or why that fails, and the document after that.
pub uninterp spec fn modern_saved(doc: document::PdfView) -> (
    Result<Seq<u8>, Seq<char>>,
    document::PdfView,
);

/// `lopdf::Document::save_modern`, an error by its text. The objects stay.
#[verifier::external_body]
pub(crate) fn save_modern(doc: &mut Pdf) -> (r: Result<Vec<u8>, String>)
    ensures
        (outcome_view(r), final(doc)@) == modern_saved(old(doc)@),
        final(doc).objects == old(doc).objects,
        final(doc).encryption == old(doc).encryption,
{
    let mut d = to_document(doc);
    let mut out = Vec::new();
    let r = d.save_modern(&mut out);
    take_header(doc, &d);
    r.map(|_| out).map_err(|e| e.to_string())
}

/// The bytes of a document written with object streams of up to so many
/// objects, compressed at a level, or why that fails, and the document after
/// that.
pub uninterp spec fn packed_saved(doc: document::PdfView, per_stream: usize, level: u32) -> (
    Result<Seq<u8>, Seq<char>>,
    document::PdfView,
);

/// `lopdf::Document::save_with_options` with object streams and a
/// cross-reference stream, an error by its text. The objects stay.
#[verifier::external_body]
pub(crate) fn save_packed(doc: &mut Pdf, per_stream: usize, level: u32) -> (r: Result<
    Vec<u8>,
    String,
>)
    requires
        level <= 9,
    ensures
        (outcome_view(r), final(doc)@) == packed_saved(old(doc)@, per_stream, level),
        final(doc).objects == old(doc).objects,
        final(doc).encryption == old(doc).encryption,
{
    let options = lopdf::SaveOptions::builder().use_object_streams(true).use_xref_streams(
        true,
    ).max_objects_per_stream(per_stream).compression_level(level).build();
    let mut d = to_document(doc);
    let mut out = Vec::new();
    let r = d.save_with_options(&mut out, options);
    take_header(doc, &d);
    r.map(|_| out).map_err(|e| e.to_string())
}

/// The bytes of a document written object by object, or why that fails, and
/// the document after that.
pub uninterp spec fn plainly_saved(doc: document::PdfView) -> (
    Result<Seq<u8>, Seq<char>>,
    document::PdfView,
);

/// `lopdf::Document::save_to`, an error by its text. The objects stay.
#[verifier::external_body]
pub(crate) fn save_plainly(doc: &mut Pdf) -> (r: Result<Vec<u8>, String>)
    ensures
        (outcome_view(r), final(doc)@) == plainly_saved(old(doc)@),
        final(doc).objects == old(doc).objects,
        final(doc).encryption == old(doc).encryption,
{
    let mut d = to_document(doc);
    let mut out = Vec::new();
    let r = d.save_to(&mut out);
    take_header(doc, &d);
    r.map(|_| out).map_err(|e| e.to_string())
}

/// What compressing a content gives, where that makes it smaller.
pub uninterp spec fn flated(content: Seq<u8>) -> Option<Seq<u8>>;

/// `lopdf::Stream::compress` on a stream that names no filter: the compressed
/// content, where it is taken over, which it is only if it is smaller by more
/// than 19 bytes.
#[verifier::external_body]
pub(crate) fn flate(content: &Vec<u8>) -> (r: Option<Vec<u8>>)
    ensures
        bytes_view(r) == flated(content@),
        match r {
            Some(c) => c@.len() + 19 < content@.len(),
            None => true,
        },
{
    let mut s = lopdf::Stream::new(lopdf::Dictionary::new(), content.clone());
    match s.compress() {
        Ok(_) => s.dict.has(b"Filter").then_some(s.content),
        Err(_) => None,
    }
}

/// Whether these are the objects that cannot be reached from the trailer.
pub open spec fn are_unreached(ids: Seq<ObjectId>, doc: document::PdfView) -> bool {
    forall|id: ObjectId| #[trigger]
        ids.contains(id) <==> document::has_id(doc.objects, id) && !reached(doc, id)
}

/// `lopdf::Document::prune_objects`: the numbers of the objects that it
/// removes, which are those that cannot be reached from the trailer, in
/// ascending order, as it meets them. The document given stays as it is.
#[verifier::external_body]
pub(crate) fn find_unreferenced(doc: &Pdf) -> (r: Vec<ObjectId>)
    requires
        doc.wf(),
    ensures
        are_unreached(r@, doc@),
        forall|i: int, j: int|
            0 <= i < j < r@.len() ==> document::id_less(#[trigger] r@[i], #[trigger] r@[j]),
{
    to_document(doc).prune_objects()
}

/// A document with its objects numbered from 1 on, the pages in their order.
pub uninterp spec fn renumbered(doc: document::PdfView) -> document::PdfView;

/// `lopdf::Document::renumber_objects`. The objects come in ascending order of
/// their numbers, as the map that holds them keeps them; these count up from 1,
/// and the greatest is recorded. It lists the pages in a vector that takes the
/// counts of the page tree at their word, which therefore have to be small.
#[verifier::external_body]
pub(crate) fn renumber(doc: &mut Pdf)
    requires
        old(doc).wf(),
        pages::can_list(old(doc)@),
    ensures
        final(doc)@ == renumbered(old(doc)@),
        final(doc).wf(),
        final(doc).max_id == final(doc)@.objects.len(),
        forall|i: int|
            0 <= i < final(doc)@.objects.len() ==> (#[trigger] final(doc)@.objects[i]).0.0 == i + 1,
        final(doc).encryption == old(doc).encryption,
{
    let mut d = to_document(doc);
    d.renumber_objects();
    *doc = from_document(&d, doc.encryption.take());
}

} // verus!
